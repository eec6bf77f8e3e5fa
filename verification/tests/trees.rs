use rusty_tree::balance::{
    balance, balance_block, balance_to_fixed_point, same_keys, working_set,
};
use rusty_tree::completion::{complete_block, complete_region, complete_tree};
use rusty_tree::linear::linearize;
use rusty_tree::morton::{MortonKey, CODE_LIMIT};
use rusty_tree::relations::{
    assign_leaves, find_leaf, interaction_list_map, interaction_list_of_leaf, lift, near_field_map,
    near_field_of_leaf,
};
use rusty_tree::sorting::sort_keys;
use rusty_tree::tree::{point_keys, sort_points, LocalTree, Point};

fn tiles_the_cube(keys: &Vec<MortonKey>) -> bool {
    let mut at: u64 = 0;
    for k in keys.iter() {
        if !k.is_valid() || k.position() != at {
            return false;
        }
        at = k.position_end();
    }
    at == CODE_LIMIT
}

fn is_two_to_one(keys: &Vec<MortonKey>) -> bool {
    for k in keys.iter() {
        for n in k.neighbors().iter() {
            if let Some(j) = find_leaf(keys, n) {
                if keys[j].level() + 1 < k.level() {
                    return false;
                }
            }
        }
    }
    true
}

fn regular_level_three() -> Vec<MortonKey> {
    let mut keys: Vec<MortonKey> = Vec::new();
    for i in 0..8u64 {
        for j in 0..8u64 {
            for k in 0..8u64 {
                keys.push(MortonKey::from_anchor([i * 8192, j * 8192, k * 8192], 3));
            }
        }
    }
    sort_keys(keys)
}

#[test]
fn linearize_removes_ancestors_and_repeats() {
    let a = MortonKey::root().child(2);
    let b = a.child(1);
    let c = b.child(7);
    let d = MortonKey::root().child(3);
    let keys = vec![a, b, b, c, d, d];
    assert_eq!(linearize(&keys), vec![c, d]);
    assert_eq!(linearize(&vec![a]), vec![a]);
    assert_eq!(linearize(&Vec::new()), Vec::<MortonKey>::new());
    assert_eq!(linearize(&vec![MortonKey::root(), a, d]), vec![a, d]);
}

#[test]
fn complete_region_between_siblings_is_empty() {
    let a = MortonKey::root().child(2);
    let b = MortonKey::root().child(3);
    assert_eq!(complete_region(&a, &b).len(), 0);
}

#[test]
fn complete_region_fills_with_coarsest_cells() {
    let a = MortonKey::root().child(0);
    let b = MortonKey::root().child(7);
    let between = complete_region(&a, &b);
    let expected: Vec<MortonKey> = (1..7).map(|i| MortonKey::root().child(i)).collect();
    assert_eq!(between, expected);

    let first = MortonKey::root().first_descendant();
    let filled = complete_region(&first, &b);
    // seven siblings at each of the levels 16 down to 2, six at level 1
    assert_eq!(filled.len(), 7 * 15 + 6);
    let mut at = first.position_end();
    for k in filled.iter() {
        assert_eq!(k.position(), at);
        at = k.position_end();
    }
    assert_eq!(at, b.position());
}

#[test]
fn complete_region_below_an_ancestor() {
    let a = MortonKey::root().child(1);
    let b = a.child(3);
    let between = complete_region(&a, &b);
    assert_eq!(between, vec![a.child(0), a.child(1), a.child(2)]);
}

#[test]
fn single_point_single_process() {
    let points = vec![Point::new([32768, 32768, 32768], 0)];
    let tree = LocalTree::new(points, false);
    assert_eq!(tree.npoints(), 1);
    assert_eq!(tree.nkeys(), 7 * 16 + 1);
    assert!(tiles_the_cube(&tree.keys));
    let seed = MortonKey::from_anchor([32768, 32768, 32768], 16);
    assert!(tree.keys.contains(&seed));
    assert_eq!(tree.keys[tree.leaf_of_point[0]], seed);
    assert!(!tree.balanced);
    // seven cells on each level but the deepest, which has eight
    for level in 1..=16u64 {
        let count = tree.keys.iter().filter(|k| k.level() == level).count();
        assert_eq!(count, if level == 16 { 8 } else { 7 });
    }
}

#[test]
fn two_points_at_opposite_corners() {
    let points = vec![Point::new([65535, 65535, 65535], 1), Point::new([0, 0, 0], 0)];
    let tree = LocalTree::new(points, false);
    assert_eq!(tree.npoints(), 2);
    assert_eq!(tree.points[0].global_index, 0);
    assert_eq!(tree.points[1].global_index, 1);
    assert_eq!(tree.nkeys(), 2 * (1 + 7 * 15) + 6);
    assert!(tiles_the_cube(&tree.keys));
    assert_eq!(tree.keys[0], MortonKey::from_anchor([0, 0, 0], 16));
    assert_eq!(tree.keys[tree.nkeys() - 1], MortonKey::from_anchor([65535, 65535, 65535], 16));
    for i in 1..7u64 {
        assert!(tree.keys.contains(&MortonKey::root().child(i)));
    }
    assert_eq!(tree.leaf_of_point, vec![0, tree.nkeys() - 1]);
}

#[test]
fn uniform_grid_is_the_regular_octree() {
    let seeds = regular_level_three();
    assert_eq!(seeds.len(), 512);
    let tree = complete_tree(&seeds);
    assert_eq!(tree, seeds);
    let balanced = balance_to_fixed_point(&tree);
    assert_eq!(balanced.len(), 512);
    assert_eq!(balanced, seeds);
    assert!(is_two_to_one(&balanced));
    assert_eq!(balance(&tree), tree);
}

#[test]
fn complete_tree_holds_the_seeds_and_tiles_the_cube() {
    let seeds = sort_keys(vec![
        MortonKey::from_anchor([100, 200, 300], 16),
        MortonKey::from_anchor([40000, 200, 300], 9),
        MortonKey::from_anchor([40000, 200, 300], 4),
        MortonKey::from_anchor([65535, 65535, 0], 12),
    ]);
    let tree = complete_tree(&seeds);
    assert!(tiles_the_cube(&tree));
    assert!(tree.contains(&seeds[0]));
    // the cell of level 4 is an ancestor of the cell of level 9
    assert!(!tree.contains(&MortonKey::from_anchor([40000, 200, 300], 4)));
    assert!(tree.contains(&MortonKey::from_anchor([40000, 200, 300], 9)));
    assert!(tree.contains(&MortonKey::from_anchor([65535, 65535, 0], 12)));
    for i in 0..tree.len() - 1 {
        assert!(tree[i] < tree[i + 1]);
        assert!(!tree[i].is_ancestor(&tree[i + 1]));
    }
    // every deepest cell has exactly one leaf above it
    for p in [[0u64, 0, 0], [100, 200, 300], [65535, 65535, 65535], [777, 40000, 12]].iter() {
        let key = MortonKey::from_anchor(*p, 16);
        let count = tree.iter().filter(|k| k.contains(&key)).count();
        assert_eq!(count, 1);
    }
}

#[test]
fn complete_block_tiles_its_range() {
    let a = MortonKey::from_anchor([40000, 200, 300], 16);
    let b = MortonKey::from_anchor([40000, 40000, 300], 16);
    let next = MortonKey::from_anchor([0, 0, 40000], 16);
    let block = complete_block(&vec![a, b], a.position(), Some(next));
    assert_eq!(block[0], a);
    let mut at = a.position();
    for k in block.iter() {
        assert_eq!(k.position(), at);
        at = k.position_end();
    }
    assert_eq!(at, next.position());
    assert!(block.contains(&b));

    let from_start = complete_block(&vec![a, b], 0, Some(next));
    assert_eq!(from_start[0].position(), 0);
    assert_eq!(from_start[0], MortonKey::root().child(0));

    let to_end = complete_block(&vec![a, b], a.position(), None);
    assert_eq!(to_end[to_end.len() - 1].position_end(), CODE_LIMIT);
}

#[test]
fn working_set_holds_keys_and_parents_of_neighbors() {
    let seed = MortonKey::from_anchor([32768, 32768, 32768], 3);
    let work = working_set(&vec![seed]);
    assert!(work.contains(&seed));
    for n in seed.neighbors().iter() {
        assert!(work.contains(&n.parent()));
    }
    assert!(work.contains(&MortonKey::root()));
    for k in work.iter() {
        assert!(k.level() <= 3);
    }
    for a in 0..work.len() {
        for b in a + 1..work.len() {
            assert_ne!(work[a], work[b]);
        }
    }
}

#[test]
fn balancing_a_single_point_tree() {
    let points = vec![Point::new([32768, 32768, 32768], 0)];
    let tree = LocalTree::new(points.clone(), false);
    assert!(!is_two_to_one(&tree.keys));
    let balanced = LocalTree::new(points, true);
    assert!(balanced.balanced);
    assert!(tiles_the_cube(&balanced.keys));
    assert!(is_two_to_one(&balanced.keys));
    assert!(balanced.nkeys() > tree.nkeys());
    // every leaf of the balanced tree lies in a leaf of the other
    for k in balanced.keys.iter() {
        assert_eq!(tree.keys.iter().filter(|t| t.contains(k)).count(), 1);
    }
    // a pass leaves a balanced tree as it is
    assert!(same_keys(&balance(&balanced.keys), &balanced.keys));
    let seed = MortonKey::from_anchor([32768, 32768, 32768], 16);
    assert_eq!(balanced.keys[balanced.leaf_of_point[0]], seed);
}

#[test]
fn one_pass_may_leave_a_tree_unbalanced() {
    // one leaf of level 4 in a tree whose other leaves are as coarse as they can be
    let seed = MortonKey::from_anchor([0, 0, 2 * 4096], 4);
    let tree = complete_tree(&vec![seed]);
    let once = balance(&tree);
    assert!(tiles_the_cube(&once));
    assert!(!is_two_to_one(&once));
    let settled = balance_to_fixed_point(&tree);
    assert!(tiles_the_cube(&settled));
    assert!(is_two_to_one(&settled));
    assert!(once.len() < settled.len());
    assert!(same_keys(&balance(&settled), &settled));
    assert!(settled.contains(&seed));
}

#[test]
fn same_keys_compares_in_order() {
    let a = MortonKey::root().child(0);
    let b = MortonKey::root().child(1);
    assert!(same_keys(&vec![a, b], &vec![a, b]));
    assert!(!same_keys(&vec![a, b], &vec![b, a]));
    assert!(!same_keys(&vec![a], &vec![a, b]));
}

#[test]
fn sort_keys_sorts() {
    let a = MortonKey::root().child(0);
    let b = MortonKey::root().child(1);
    let c = b.child(4);
    assert_eq!(sort_keys(vec![c, a, b, a]), vec![a, a, b, c]);
}

#[test]
fn sort_points_by_key_then_index() {
    let p = Point::new([5, 5, 5], 7);
    let q = Point::new([5, 5, 5], 3);
    let r = Point::new([0, 0, 0], 9);
    let sorted = sort_points(vec![p, q, r]);
    let order: Vec<u64> = sorted.iter().map(|x| x.global_index).collect();
    assert_eq!(order, vec![9, 3, 7]);
    let keys = point_keys(&sorted);
    assert_eq!(keys[0], MortonKey::from_anchor([0, 0, 0], 16));
    assert_eq!(keys[1], keys[2]);
    assert!(p.is_valid());
    let broken = Point { anchor: [5, 5, 5], global_index: 0, morton_key: MortonKey::root() };
    assert!(!broken.is_valid());
    let outside = Point { anchor: [70000, 5, 5], global_index: 0, morton_key: MortonKey::root() };
    assert!(!outside.is_valid());
}

#[test]
fn find_leaf_lifts_to_the_leaf_above() {
    let tree = complete_tree(&vec![MortonKey::from_anchor([32768, 32768, 32768], 16)]);
    let deep = MortonKey::from_anchor([10, 10, 10], 16);
    let found = find_leaf(&tree, &deep).unwrap();
    assert_eq!(tree[found], MortonKey::root().child(0));
    // the root is above every leaf and inside none
    assert_eq!(find_leaf(&tree, &MortonKey::root()), None);
    let only_part = vec![MortonKey::root().child(3)];
    assert_eq!(find_leaf(&only_part, &deep), None);
    assert_eq!(find_leaf(&only_part, &MortonKey::root().child(3).child(2)), Some(0));
}

#[test]
fn near_field_of_a_leaf_names_each_leaf_once() {
    let tree = complete_tree(&vec![MortonKey::from_anchor([32768, 32768, 32768], 16)]);
    let seed_index = tree
        .iter()
        .position(|k| *k == MortonKey::from_anchor([32768, 32768, 32768], 16))
        .unwrap();
    let near = near_field_of_leaf(&tree, seed_index);
    // the seed, its seven siblings, and the seven cells of level 1 around the centre
    assert_eq!(near.len(), 15);
    assert!(near.contains(&seed_index));
    for a in 0..near.len() {
        for b in a + 1..near.len() {
            assert_ne!(near[a], near[b]);
        }
    }
    let levels: Vec<u64> = near.iter().map(|j| tree[*j].level()).collect();
    assert_eq!(levels.iter().filter(|l| **l == 1).count(), 7);
    assert_eq!(levels.iter().filter(|l| **l == 16).count(), 8);
    let all = near_field_map(&tree);
    assert_eq!(all.len(), tree.len());
    assert_eq!(all[seed_index], near);
}

#[test]
fn relation_maps_of_the_regular_octree() {
    let tree = regular_level_three();
    let near = near_field_map(&tree);
    let far = interaction_list_map(&tree);
    assert_eq!(near.len(), 512);
    for i in 0..tree.len() {
        assert_eq!(near[i].len(), tree[i].neighbors().len() + 1);
        assert!(far[i].len() <= 189);
        assert_eq!(far[i], interaction_list_of_leaf(&tree, i));
        for j in far[i].iter() {
            assert!(!near[i].contains(j));
        }
    }
    let cells = vec![tree[5].child(0), tree[5].child(1), tree[9]];
    assert_eq!(lift(&tree, &cells), vec![5, 9]);
}

#[test]
fn assign_leaves_finds_the_leaf_of_each_point() {
    let tree = regular_level_three();
    let points = vec![
        MortonKey::from_anchor([0, 0, 0], 16),
        MortonKey::from_anchor([65535, 65535, 65535], 16),
        MortonKey::from_anchor([8192, 0, 0], 16),
    ];
    let leaves = assign_leaves(&tree, &points);
    assert_eq!(leaves, vec![0, 511, 1]);
}

#[test]
fn scattered_points_balanced() {
    let mut state: u64 = 99;
    let mut next = move || {
        state = state.wrapping_mul(6364136223846793005).wrapping_add(1442695040888963407);
        (state >> 33) % 65536
    };
    let points: Vec<Point> = (0..60).map(|i| Point::new([next(), next(), next()], i)).collect();
    let plain = LocalTree::new(points.clone(), false);
    let tree = LocalTree::new(points, true);
    assert!(tiles_the_cube(&plain.keys));
    assert!(tiles_the_cube(&tree.keys));
    assert!(is_two_to_one(&tree.keys));
    for i in 0..tree.keys.len() - 1 {
        assert!(tree.keys[i] < tree.keys[i + 1]);
        assert!(!tree.keys[i].is_ancestor(&tree.keys[i + 1]));
    }
    // every point has its own key as a leaf, and lies in the leaf named for it
    for (p, leaf) in tree.points.iter().zip(tree.leaf_of_point.iter()) {
        assert_eq!(tree.keys[*leaf], p.morton_key);
        assert_eq!(tree.keys.iter().filter(|k| k.contains(&p.morton_key)).count(), 1);
    }
    for i in 0..tree.points.len() - 1 {
        assert!(tree.points[i].morton_key <= tree.points[i + 1].morton_key);
    }
}

#[test]
fn balance_block_hands_out_what_lies_elsewhere() {
    // the block of the second octant of the cube, with one deep leaf at its start
    let octant = MortonKey::root().child(1);
    let seed = MortonKey::from_parts(octant.position(), 5);
    let next = MortonKey::root().child(2);
    let block = complete_block(&vec![seed], octant.position(), Some(next));
    assert_eq!(block[0], seed);
    let pass = balance_block(&block, &Vec::new(), octant.position(), Some(next));
    let mut at = octant.position();
    for k in pass.tree.iter() {
        assert_eq!(k.position(), at);
        at = k.position_end();
    }
    assert_eq!(at, next.position());
    assert!(!pass.outgoing.is_empty());
    for k in pass.outgoing.iter() {
        assert!(k.position() < octant.position() || k.position_end() > next.position());
    }
    // the neighbours of the seed across the border of the block push their parents out
    let across = seed.neighbors().into_iter().find(|n| n.position() < octant.position()).unwrap();
    assert!(pass.outgoing.contains(&across.parent()));
    assert_eq!(pass.changed, !same_keys(&pass.tree, &block));
    // a key that another block has sent refines the leaf that holds it
    let sent = block[block.len() - 1].child(3);
    let again = balance_block(&pass.tree, &vec![sent], octant.position(), Some(next));
    assert!(again.tree.iter().any(|k| sent.contains(k)));
    assert!(!again.tree.iter().any(|k| k.is_ancestor(&sent)));
}
