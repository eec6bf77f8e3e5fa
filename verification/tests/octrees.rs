use rusty_tree::arrays::{unique_keys, KeyArray};
use rusty_tree::morton::MortonKey;
use rusty_tree::neighbors::{compute_interaction_list, compute_near_field};
use rusty_tree::octree::{
    compute_complete_regular_tree, compute_interaction_list_map, compute_leaf_map,
    compute_level_information, compute_near_field_map, encode_points, export_to_vtk, leaf_extent,
    regular_octree, OctreeType,
};
use rusty_tree::vtk::{box_corners, vtk_model, CellKind};
use std::collections::HashSet;

fn raw(anchor: [u64; 3], level: u64) -> u64 {
    MortonKey::from_anchor(anchor, level).raw()
}

#[test]
fn key_array_holds_the_items_in_order() {
    let array = KeyArray::from_vec(vec![5, 3, 9, 3]);
    assert_eq!(array.len(), 4);
    assert_eq!(array.to_vec(), vec![5, 3, 9, 3]);
    assert_eq!(KeyArray::from_vec(Vec::new()).len(), 0);
}

#[test]
fn unique_keys_keeps_first_occurrences() {
    assert_eq!(unique_keys(&vec![10, 20, 30, 20, 40, 10, 50]), vec![10, 20, 30, 40, 50]);
    assert_eq!(unique_keys(&vec![7, 7, 7]), vec![7]);
    assert_eq!(unique_keys(&Vec::new()), Vec::<u64>::new());
}

#[test]
fn leaf_map_inverts_the_keys_of_the_particles() {
    let a = raw([0, 0, 0], 3);
    let b = raw([8192, 0, 0], 3);
    let array = KeyArray::from_vec(vec![a, b, a, a, b]);
    let map = compute_leaf_map(&array);
    assert_eq!(map.len(), 2);
    assert_eq!(map[&a], [0usize, 2, 3].iter().copied().collect::<HashSet<usize>>());
    assert_eq!(map[&b], [1usize, 4].iter().copied().collect::<HashSet<usize>>());
    assert_eq!(leaf_extent(&array, &map), (2, 3));
}

#[test]
fn level_information_completes_the_tree_upwards() {
    let a = MortonKey::from_anchor([0, 0, 0], 3);
    let b = MortonKey::from_anchor([65535, 65535, 65535], 2);
    let array = KeyArray::from_vec(vec![a.raw(), b.raw(), a.raw()]);
    let (max_level, all_keys, level_keys) = compute_level_information(&array);
    assert_eq!(max_level, 3);
    let expected: HashSet<u64> = [
        MortonKey::root().raw(),
        a.raw(),
        a.parent().raw(),
        a.parent().parent().raw(),
        b.raw(),
        b.parent().raw(),
    ]
    .iter()
    .copied()
    .collect();
    assert_eq!(all_keys, expected);
    assert_eq!(level_keys.len(), 4);
    assert_eq!(level_keys[&0], [0u64].iter().copied().collect::<HashSet<u64>>());
    assert_eq!(
        level_keys[&1],
        [a.ancestor(1).raw(), b.parent().raw()].iter().copied().collect::<HashSet<u64>>()
    );
    assert_eq!(
        level_keys[&2],
        [a.parent().raw(), b.raw()].iter().copied().collect::<HashSet<u64>>()
    );
    assert_eq!(level_keys[&3], [a.raw()].iter().copied().collect::<HashSet<u64>>());
}

fn regular_level_three() -> HashSet<u64> {
    let mut keys: HashSet<u64> = HashSet::new();
    for i in 0..8u64 {
        for j in 0..8u64 {
            for k in 0..8u64 {
                keys.insert(raw([i * 8192, j * 8192, k * 8192], 3));
            }
        }
    }
    keys
}

#[test]
fn near_field_map_holds_present_keys_only() {
    let a = MortonKey::from_anchor([8192 * 3, 8192 * 4, 8192 * 2], 3);
    let b = MortonKey::root();
    let near = a.neighbors()[0];
    let keys: HashSet<u64> = [a.raw(), b.raw(), near.raw()].iter().copied().collect();
    let map = compute_near_field_map(&keys);
    assert_eq!(map.len(), 3);
    assert_eq!(map[&a.raw()], [a.raw(), near.raw()].iter().copied().collect::<HashSet<u64>>());
    assert_eq!(map[&near.raw()], [a.raw(), near.raw()].iter().copied().collect::<HashSet<u64>>());
    assert_eq!(map[&0], [0u64].iter().copied().collect::<HashSet<u64>>());
    // a single key of level 1: the cells around it are no keys
    let alone = MortonKey::from_anchor([32768, 0, 0], 1);
    let keys: HashSet<u64> = [alone.raw()].iter().copied().collect();
    let map = compute_near_field_map(&keys);
    assert_eq!(map[&alone.raw()], keys);
    assert!(!map[&alone.raw()].contains(&raw([0, 0, 0], 1)));
}

#[test]
fn near_field_map_of_the_regular_octree() {
    let keys = regular_level_three();
    let map = compute_near_field_map(&keys);
    assert_eq!(map.len(), 512);
    for k in keys.iter() {
        let key = MortonKey::from_raw(*k).unwrap();
        let expected: HashSet<u64> = compute_near_field(key).iter().map(|n| n.raw()).collect();
        assert_eq!(map[k], expected);
        for n in map[k].iter() {
            assert!(keys.contains(n));
        }
    }
    assert_eq!(map[&raw([8192 * 3, 8192 * 4, 8192 * 2], 3)].len(), 27);
    assert_eq!(map[&raw([0, 0, 0], 3)].len(), 8);
}

#[test]
fn interaction_list_map_holds_present_keys_only() {
    let a = MortonKey::from_anchor([8192 * 3, 8192 * 4, 8192 * 2], 3);
    let far = compute_interaction_list(a)[0];
    let b = MortonKey::root();
    let keys: HashSet<u64> = [a.raw(), b.raw(), far.raw()].iter().copied().collect();
    let map = compute_interaction_list_map(&keys);
    assert_eq!(map.len(), 3);
    assert_eq!(map[&a.raw()], [far.raw()].iter().copied().collect::<HashSet<u64>>());
    assert_eq!(map[&far.raw()], [a.raw()].iter().copied().collect::<HashSet<u64>>());
    assert!(map[&0].is_empty());
    // a single key of level 2: the cells of its interaction list are no keys
    let alone = MortonKey::from_anchor([0, 0, 0], 2);
    let keys: HashSet<u64> = [alone.raw()].iter().copied().collect();
    let map = compute_interaction_list_map(&keys);
    assert!(map[&alone.raw()].is_empty());
}

#[test]
fn interaction_list_map_of_the_regular_octree() {
    let keys = regular_level_three();
    let map = compute_interaction_list_map(&keys);
    assert_eq!(map.len(), 512);
    for i in 0..8u64 {
        for j in 0..8u64 {
            for k in 0..8u64 {
                let key = raw([i * 8192, j * 8192, k * 8192], 3);
                let list = &map[&key];
                assert!(list.len() <= 189);
                for c in list.iter() {
                    assert!(keys.contains(c));
                    assert_eq!(MortonKey::from_raw(*c).unwrap().level(), 3);
                }
                let interior = i >= 2 && i <= 5 && j >= 2 && j <= 5 && k >= 2 && k <= 5;
                if interior {
                    assert_eq!(list.len(), 189);
                }
            }
        }
    }
}

#[test]
fn encode_points_at_a_level() {
    let points = vec![[0u64, 0, 0], [9000, 0, 0], [8191, 8191, 8191]];
    let keys = encode_points(&points, 3);
    assert_eq!(keys, vec![raw([0, 0, 0], 3), raw([8192, 0, 0], 3), raw([0, 0, 0], 3)]);
}

#[test]
fn complete_regular_tree_of_particles() {
    let points = vec![[0u64, 0, 0], [9000, 0, 0], [8191, 8191, 8191]];
    let all = compute_complete_regular_tree(&points, 3);
    let a = MortonKey::from_anchor([0, 0, 0], 3);
    let b = MortonKey::from_anchor([8192, 0, 0], 3);
    let expected: HashSet<u64> =
        [0, a.raw(), b.raw(), a.parent().raw(), a.ancestor(1).raw()].iter().copied().collect();
    assert_eq!(all, expected);
}

#[test]
fn regular_octree_and_its_figures() {
    let points = vec![[0u64, 0, 0], [9000, 0, 0], [8191, 8191, 8191], [65535, 65535, 65535]];
    let tree = regular_octree(&points, 3);
    assert!(tree.octree_type == OctreeType::Regular);
    assert_eq!(tree.max_level, 3);
    assert_eq!(tree.particle_keys.len(), 4);
    assert_eq!(tree.statistics.number_of_particles, 4);
    assert_eq!(tree.statistics.max_level, 3);
    assert_eq!(tree.statistics.number_of_leafs, 3);
    // the root, two cells of level 1, two of level 2, three of level 3
    assert_eq!(tree.statistics.number_of_keys, 8);
    assert_eq!(tree.statistics.minimum_number_of_particles_in_leaf, 1);
    assert_eq!(tree.statistics.maximum_number_of_particles_in_leaf, 2);
    assert_eq!(tree.all_keys.len(), 8);
    assert_eq!(tree.near_field.len(), 8);
    assert_eq!(tree.interaction_list.len(), 8);
    assert_eq!(tree.leaf_key_to_particles.len(), 3);
    assert_eq!(tree.level_keys[&3].len(), 3);
    let first = raw([0, 0, 0], 3);
    assert_eq!(
        tree.leaf_key_to_particles[&first],
        [0usize, 2].iter().copied().collect::<HashSet<usize>>()
    );
}

#[test]
fn box_corners_of_a_cell() {
    let key = MortonKey::from_anchor([8192, 0, 16384], 3);
    let corners = box_corners(key);
    assert_eq!(
        corners,
        vec![
            [8192, 0, 16384],
            [16384, 0, 16384],
            [8192, 8192, 16384],
            [16384, 8192, 16384],
            [8192, 0, 24576],
            [16384, 0, 24576],
            [8192, 8192, 24576],
            [16384, 8192, 24576],
        ]
    );
    let root = box_corners(MortonKey::root());
    assert_eq!(root[7], [65536, 65536, 65536]);
}

#[test]
fn vtk_model_of_two_keys_and_three_particles() {
    let a = MortonKey::root().child(0);
    let b = MortonKey::root().child(7);
    let model = vtk_model(&vec![a.raw(), b.raw()], 3);
    assert_eq!(model.corners.len(), 16);
    assert_eq!(model.corners[0], [0, 0, 0]);
    assert_eq!(model.corners[8], [32768, 32768, 32768]);
    assert_eq!(model.corners[15], [65536, 65536, 65536]);
    assert_eq!(model.connectivity, (0..19).collect::<Vec<u64>>());
    assert_eq!(model.offsets, vec![8, 16, 19]);
    assert!(model.types == vec![CellKind::Voxel, CellKind::Voxel, CellKind::PolyVertex]);
    assert_eq!(model.colors, vec![0, 0, 1]);
}

#[test]
fn export_to_vtk_has_one_voxel_for_each_leaf() {
    let points = vec![[0u64, 0, 0], [65535, 65535, 65535], [1, 1, 1]];
    let tree = regular_octree(&points, 2);
    assert_eq!(tree.all_keys.len(), 5);
    let (keys, model) = export_to_vtk(&tree);
    assert_eq!(keys, vec![raw([0, 0, 0], 2), raw([65535, 65535, 65535], 2)]);
    assert_eq!(model.corners.len(), 16);
    assert_eq!(model.connectivity.len(), 19);
    assert_eq!(model.offsets, vec![8, 16, 19]);
    assert!(model.types == vec![CellKind::Voxel, CellKind::Voxel, CellKind::PolyVertex]);
    assert_eq!(model.colors, vec![0, 0, 1]);
    for (i, k) in keys.iter().enumerate() {
        let corners = box_corners(MortonKey::from_raw(*k).unwrap());
        assert_eq!(&model.corners[8 * i..8 * i + 8], &corners[..]);
    }
    // one particle at level 1: a voxel for its leaf, none for the root
    let tree = regular_octree(&vec![[40000u64, 0, 0]], 1);
    let (keys, model) = export_to_vtk(&tree);
    assert_eq!(keys, vec![raw([32768, 0, 0], 1)]);
    assert!(!keys.contains(&0));
    assert_eq!(model.offsets, vec![8, 9]);
    assert_eq!(model.colors, vec![0, 1]);
}
