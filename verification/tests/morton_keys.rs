use rusty_tree::morton::{MortonKey, CODE_LIMIT, DEEPEST_LEVEL, GRID_SIZE, LEVEL_SIZE};
use rusty_tree::neighbors::{compute_interaction_list, compute_near_field};

#[test]
fn root_has_level_zero() {
    let root = MortonKey::root();
    assert_eq!(root.level(), 0);
    assert_eq!(root.raw(), 0);
    assert_eq!(root.anchor(), [0, 0, 0]);
    assert!(root.is_valid());
}

#[test]
fn constants_fit_together() {
    assert_eq!(DEEPEST_LEVEL, 16);
    assert_eq!(GRID_SIZE, 1 << 16);
    assert_eq!(CODE_LIMIT, 1 << 48);
    assert_eq!(LEVEL_SIZE, 1 << 15);
}

#[test]
fn encode_places_bits_in_z_order() {
    // x in bit 0, y in bit 1, z in bit 2 of the code.
    let kx = MortonKey::from_anchor([1, 0, 0], 16);
    let ky = MortonKey::from_anchor([0, 1, 0], 16);
    let kz = MortonKey::from_anchor([0, 0, 1], 16);
    assert_eq!(kx.raw(), 1 * LEVEL_SIZE + 16);
    assert_eq!(ky.raw(), 2 * LEVEL_SIZE + 16);
    assert_eq!(kz.raw(), 4 * LEVEL_SIZE + 16);
    let k = MortonKey::from_anchor([3, 0, 0], 16);
    assert_eq!(k.raw(), 9 * LEVEL_SIZE + 16);
    let far = MortonKey::from_anchor([65535, 65535, 65535], 16);
    assert_eq!(far.raw(), (CODE_LIMIT - 1) * LEVEL_SIZE + 16);
}

#[test]
fn encode_then_decode_gives_the_point_back() {
    let points: [[u64; 3]; 5] =
        [[0, 0, 0], [1, 2, 3], [65535, 0, 65535], [32768, 32768, 32768], [12345, 54321, 4242]];
    for p in points.iter() {
        let key = MortonKey::from_anchor(*p, 16);
        assert_eq!(key.level(), 16);
        assert_eq!(key.anchor(), *p);
        assert_eq!(MortonKey::from_anchor(key.anchor(), 16), key);
    }
}

#[test]
fn encode_at_a_level_rounds_the_anchor_down() {
    let key = MortonKey::from_anchor([12345, 54321, 4242], 3);
    assert_eq!(key.level(), 3);
    // cells of level 3 have 8192 steps a side
    assert_eq!(key.anchor(), [8192, 49152, 0]);
    let finest = MortonKey::from_anchor([12345, 54321, 4242], 16);
    assert_eq!(finest.ancestor(3), key);
    assert!(key.is_ancestor(&finest));
}

#[test]
fn children_have_parent() {
    let root = MortonKey::root();
    let kids = root.children();
    assert_eq!(kids.len(), 8);
    for (i, c) in kids.iter().enumerate() {
        assert_eq!(c.parent(), root);
        assert_eq!(c.level(), 1);
        assert_eq!(c.raw(), (i as u64) * (CODE_LIMIT / 8) * LEVEL_SIZE + 1);
        assert_eq!(*c, root.child(i as u64));
    }
    assert_eq!(kids[1].anchor(), [32768, 0, 0]);
    assert_eq!(kids[2].anchor(), [0, 32768, 0]);
    assert_eq!(kids[4].anchor(), [0, 0, 32768]);
}

#[test]
fn children_of_parent_contain_the_key() {
    let key = MortonKey::from_anchor([40000, 100, 65000], 7);
    let siblings = key.siblings();
    assert_eq!(siblings.len(), 8);
    assert!(siblings.contains(&key));
    assert_eq!(siblings, key.parent().children());
    for s in siblings.iter() {
        assert_eq!(s.parent(), key.parent());
    }
}

#[test]
fn ancestors_run_from_root_to_key() {
    let key = MortonKey::from_anchor([40000, 100, 65000], 5);
    let ancestors = key.ancestors();
    assert_eq!(ancestors.len(), 6);
    assert_eq!(ancestors[0], MortonKey::root());
    assert_eq!(ancestors[5], key);
    for i in 0..5 {
        assert_eq!(ancestors[i + 1].parent(), ancestors[i]);
        assert_eq!(ancestors[i].level(), i as u64);
        assert!(ancestors[i].is_ancestor(&key));
    }
    assert!(!key.is_ancestor(&key));
}

#[test]
fn is_ancestor_is_strict_and_needs_containment() {
    let a = MortonKey::from_anchor([0, 0, 0], 1);
    let b = MortonKey::from_anchor([100, 100, 100], 4);
    let c = MortonKey::from_anchor([40000, 0, 0], 4);
    assert!(a.is_ancestor(&b));
    assert!(!b.is_ancestor(&a));
    assert!(!a.is_ancestor(&c));
    assert!(!a.is_ancestor(&a));
    assert!(a.contains(&a));
    assert!(a.contains(&b));
    assert!(!a.contains(&c));
}

#[test]
fn finest_ancestor_is_the_deepest_common_cell() {
    let a = MortonKey::from_anchor([0, 0, 0], 16);
    let b = MortonKey::from_anchor([65535, 65535, 65535], 16);
    assert_eq!(a.finest_ancestor(&b), MortonKey::root());
    let c = MortonKey::from_anchor([1, 0, 0], 16);
    assert_eq!(a.finest_ancestor(&c), MortonKey::from_anchor([0, 0, 0], 15));
    let d = MortonKey::from_anchor([0, 0, 0], 3);
    assert_eq!(d.finest_ancestor(&a), d);
    assert_eq!(a.finest_ancestor(&d), d);
    assert_eq!(a.finest_ancestor(&a), a);
}

#[test]
fn first_and_last_descendant() {
    let root = MortonKey::root();
    assert_eq!(root.first_descendant(), MortonKey::from_anchor([0, 0, 0], 16));
    assert_eq!(root.last_descendant(), MortonKey::from_anchor([65535, 65535, 65535], 16));
    let k = MortonKey::from_anchor([32768, 0, 0], 1);
    assert_eq!(k.first_descendant().anchor(), [32768, 0, 0]);
    assert_eq!(k.last_descendant().anchor(), [65535, 32767, 32767]);
}

#[test]
fn from_raw_takes_cells_only() {
    assert_eq!(MortonKey::from_raw(0), Some(MortonKey::root()));
    // level 17 does not exist
    assert_eq!(MortonKey::from_raw(17), None);
    // a cell of level 1 with an anchor off its grid
    assert_eq!(MortonKey::from_raw(1 * LEVEL_SIZE + 1), None);
    // a code beyond the cube
    assert_eq!(MortonKey::from_raw(CODE_LIMIT * LEVEL_SIZE + 16), None);
    let k = MortonKey::from_anchor([5, 6, 7], 16);
    assert_eq!(MortonKey::from_raw(k.raw()), Some(k));
    assert!(!MortonKey { morton: 17 }.is_valid());
}

#[test]
fn morton_order_puts_ancestors_first() {
    let key = MortonKey::from_anchor([40000, 100, 65000], 9);
    let ancestors = key.ancestors();
    for i in 0..ancestors.len() - 1 {
        assert!(ancestors[i] < ancestors[i + 1]);
        assert!(ancestors[i].raw() < ancestors[i + 1].raw());
    }
    let kids = key.children();
    for i in 0..7 {
        assert!(kids[i] < kids[i + 1]);
        assert!(key < kids[i]);
    }
}

#[test]
fn position_is_the_code_interval() {
    let root = MortonKey::root();
    assert_eq!(root.position(), 0);
    assert_eq!(root.position_end(), CODE_LIMIT);
    let k = root.child(3);
    assert_eq!(k.position(), 3 * (CODE_LIMIT / 8));
    assert_eq!(k.position_end(), 4 * (CODE_LIMIT / 8));
    assert_eq!(MortonKey::from_parts(3 * (CODE_LIMIT / 8), 1), k);
}

#[test]
fn neighbors_of_an_interior_cell() {
    let key = MortonKey::from_anchor([8192 * 3, 8192 * 4, 8192 * 2], 3);
    let n = key.neighbors();
    assert_eq!(n.len(), 26);
    assert!(!n.contains(&key));
    for x in n.iter() {
        assert_eq!(x.level(), 3);
        let a = x.anchor();
        let b = key.anchor();
        for d in 0..3 {
            let diff = if a[d] > b[d] { a[d] - b[d] } else { b[d] - a[d] };
            assert!(diff == 0 || diff == 8192);
        }
        assert!(key.is_adjacent(x));
    }
    // first in the order of places: one side down along every axis
    assert_eq!(n[0].anchor(), [8192 * 2, 8192 * 3, 8192]);
    assert_eq!(n[25].anchor(), [8192 * 4, 8192 * 5, 8192 * 3]);
}

#[test]
fn neighbors_at_the_border_leave_the_cube_out() {
    let corner = MortonKey::from_anchor([0, 0, 0], 3);
    assert_eq!(corner.neighbors().len(), 7);
    let edge = MortonKey::from_anchor([8192, 0, 0], 3);
    assert_eq!(edge.neighbors().len(), 11);
    let face = MortonKey::from_anchor([8192, 8192, 0], 3);
    assert_eq!(face.neighbors().len(), 17);
    let far = MortonKey::from_anchor([65535, 65535, 65535], 3);
    assert_eq!(far.neighbors().len(), 7);
    assert_eq!(MortonKey::root().neighbors().len(), 0);
    assert_eq!(MortonKey::root().child(0).neighbors().len(), 7);
}

#[test]
fn near_field_is_neighbors_and_key() {
    let key = MortonKey::from_anchor([8192 * 3, 8192 * 4, 8192 * 2], 3);
    let near = compute_near_field(key);
    assert_eq!(near.len(), 27);
    assert_eq!(near[13], key);
    let mut n = key.neighbors();
    n.insert(13, key);
    assert_eq!(near, n);
    assert_eq!(compute_near_field(MortonKey::root()), vec![MortonKey::root()]);
}

#[test]
fn interaction_list_of_root_is_empty() {
    assert_eq!(compute_interaction_list(MortonKey::root()).len(), 0);
    // at level 1 all cells touch each other
    assert_eq!(compute_interaction_list(MortonKey::root().child(5)).len(), 0);
}

#[test]
fn interaction_list_size_bound() {
    let side: u64 = 8192;
    for i in 0..8u64 {
        for j in 0..8u64 {
            for k in 0..8u64 {
                let key = MortonKey::from_anchor([i * side, j * side, k * side], 3);
                let list = compute_interaction_list(key);
                assert!(list.len() <= 189);
                let near = compute_near_field(key);
                for c in list.iter() {
                    assert_eq!(c.level(), 3);
                    assert!(!near.contains(c));
                    assert!(compute_near_field(key.parent()).contains(&c.parent()));
                }
                let interior = i >= 2 && i <= 5 && j >= 2 && j <= 5 && k >= 2 && k <= 5;
                if interior {
                    assert_eq!(list.len(), 189);
                }
            }
        }
    }
}

#[test]
fn interaction_list_has_no_repeats() {
    let key = MortonKey::from_anchor([8192 * 3, 8192 * 4, 8192 * 2], 3);
    let list = compute_interaction_list(key);
    for a in 0..list.len() {
        for b in a + 1..list.len() {
            assert_ne!(list[a], list[b]);
        }
    }
}
