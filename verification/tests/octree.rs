use voxel_octree::magica_voxel::layer_id;
use voxel_octree::{
    dijkstra, write_to_vox, MaskUInt, OctreeError, OctreeNode, OctreePoint, SparseVoxelOctree,
    Voxel, MAX_DEPTH,
};

fn v(x: i32, y: i32, z: i32) -> Voxel {
    Voxel { x, y, z }
}

#[test]
fn scenario_depth_one() {
    let mut tree = SparseVoxelOctree::new(1).unwrap();
    assert_eq!(tree.insert(&v(-2, -2, -2), 7), Ok(()));
    assert_eq!(tree.insert(&v(1, 1, 1), 3), Ok(()));
    assert_eq!(tree.insert(&v(0, 0, 0), 1), Ok(()));
    assert_eq!(tree.get(&v(-2, -2, -2)), Some(7));
    assert_eq!(tree.get(&v(1, 1, 1)), Some(3));
    assert_eq!(tree.get(&v(0, 0, 0)), Some(1));
    assert_eq!(tree.get(&v(-1, 0, 0)), None);
    assert_eq!(tree.try_get(&v(-1, 0, 0)), Ok(None));
    assert_eq!(tree.get(&v(2, 0, 0)), None);
    assert_eq!(tree.try_get(&v(2, 0, 0)), Err(OctreeError::OutOfRange));
    assert_eq!(tree.insert(&v(2, 0, 0), 9), Err(OctreeError::OutOfRange));
}

#[test]
fn bounds_follow_the_depth() {
    for depth in 0..=6u32 {
        let tree = SparseVoxelOctree::new(depth).unwrap();
        let k: i32 = 1 << depth;
        for n in (-k - 2)..(k + 2) {
            let inside = -k <= n && n < k;
            assert_eq!(tree.is_in_bounds(&v(n, 0, 0)), inside);
            assert_eq!(tree.is_in_bounds(&v(0, n, 0)), inside);
            assert_eq!(tree.is_in_bounds(&v(0, 0, n)), inside);
            assert_eq!(tree.is_in_bounds(&v(n, n, n)), inside);
        }
    }
}

#[test]
fn bounds_at_the_deepest_tree_cover_every_coordinate() {
    let tree = SparseVoxelOctree::new(MAX_DEPTH).unwrap();
    assert!(tree.is_in_bounds(&v(i32::MIN, i32::MAX, 0)));
    assert!(tree.is_in_bounds(&v(-1, 0, i32::MIN)));
}

#[test]
fn deepest_tree_stores_the_corners() {
    let mut tree = SparseVoxelOctree::new(MAX_DEPTH).unwrap();
    assert_eq!(tree.insert(&v(i32::MIN, i32::MIN, i32::MIN), 1), Ok(()));
    assert_eq!(tree.insert(&v(i32::MAX, i32::MAX, i32::MAX), 2), Ok(()));
    assert_eq!(tree.insert(&v(-1, 0, -1), 3), Ok(()));
    assert_eq!(tree.get(&v(i32::MIN, i32::MIN, i32::MIN)), Some(1));
    assert_eq!(tree.get(&v(i32::MAX, i32::MAX, i32::MAX)), Some(2));
    assert_eq!(tree.get(&v(-1, 0, -1)), Some(3));
    assert_eq!(tree.get(&v(0, 0, 0)), None);
}

#[test]
fn unsupported_depth_is_refused() {
    assert!(matches!(
        SparseVoxelOctree::new(MAX_DEPTH + 1),
        Err(OctreeError::UnsupportedDepth)
    ));
    assert!(matches!(OctreeNode::new(32), Err(OctreeError::UnsupportedDepth)));
    assert!(OctreeNode::new(31).is_ok());
}

#[test]
fn depth_is_recorded() {
    assert_eq!(SparseVoxelOctree::new(5).unwrap().depth(), 5);
    assert_eq!(OctreeNode::new(0).unwrap().depth(), 0);
    assert_eq!(OctreeNode::new(4).unwrap().depth(), 4);
}

#[test]
fn abs_svo_is_biased() {
    assert_eq!(SparseVoxelOctree::abs_svo(0), 0);
    assert_eq!(SparseVoxelOctree::abs_svo(-1), 0);
    assert_eq!(SparseVoxelOctree::abs_svo(1), 1);
    assert_eq!(SparseVoxelOctree::abs_svo(-2), 1);
    assert_eq!(SparseVoxelOctree::abs_svo(5), 5);
    assert_eq!(SparseVoxelOctree::abs_svo(-6), 5);
    assert_eq!(SparseVoxelOctree::abs_svo(i32::MAX), 2147483647);
    assert_eq!(SparseVoxelOctree::abs_svo(i32::MIN), 2147483647);
}

#[test]
fn abs_svo_on_each_sign_covers_the_magnitudes_once() {
    for bits in 0..6u32 {
        let k: i32 = 1 << bits;
        let mut from_negative = vec![false; k as usize];
        let mut from_positive = vec![false; k as usize];
        for n in -k..0 {
            let m = SparseVoxelOctree::abs_svo(n) as usize;
            assert!(m < k as usize);
            assert!(!from_negative[m]);
            from_negative[m] = true;
        }
        for n in 0..k {
            let m = SparseVoxelOctree::abs_svo(n) as usize;
            assert!(m < k as usize);
            assert!(!from_positive[m]);
            from_positive[m] = true;
        }
        assert!(from_negative.iter().all(|&b| b));
        assert!(from_positive.iter().all(|&b| b));
    }
}

#[test]
fn fresh_tree_is_empty() {
    for depth in 0..4u32 {
        let tree = SparseVoxelOctree::new(depth).unwrap();
        let k: i32 = 1 << depth;
        for x in -k..k {
            for y in -k..k {
                for z in -k..k {
                    assert_eq!(tree.get(&v(x, y, z)), None);
                    assert!(!tree.contains(&v(x, y, z)));
                }
            }
        }
    }
}

#[test]
fn insert_then_get_round_trips_everywhere() {
    let depth = 2u32;
    let k: i32 = 1 << depth;
    let mut tree = SparseVoxelOctree::new(depth).unwrap();
    let mut next = 0u32;
    for x in -k..k {
        for y in -k..k {
            for z in -k..k {
                assert_eq!(tree.insert(&v(x, y, z), next), Ok(()));
                next += 1;
            }
        }
    }
    let mut expect = 0u32;
    for x in -k..k {
        for y in -k..k {
            for z in -k..k {
                assert_eq!(tree.get(&v(x, y, z)), Some(expect));
                assert!(tree.contains(&v(x, y, z)));
                expect += 1;
            }
        }
    }
}

#[test]
fn zero_is_a_value_like_any_other() {
    let mut tree = SparseVoxelOctree::new(3).unwrap();
    assert_eq!(tree.insert(&v(1, -2, 3), 0), Ok(()));
    assert_eq!(tree.get(&v(1, -2, 3)), Some(0));
    assert!(tree.contains(&v(1, -2, 3)));
}

#[test]
fn inserting_twice_is_inserting_once() {
    let mut once = SparseVoxelOctree::new(3).unwrap();
    let mut twice = SparseVoxelOctree::new(3).unwrap();
    once.insert(&v(-3, 2, 7), 11).unwrap();
    twice.insert(&v(-3, 2, 7), 11).unwrap();
    twice.insert(&v(-3, 2, 7), 11).unwrap();
    for x in -8..8 {
        for y in -8..8 {
            for z in -8..8 {
                assert_eq!(once.get(&v(x, y, z)), twice.get(&v(x, y, z)));
            }
        }
    }
}

#[test]
fn second_insert_overwrites() {
    let mut tree = SparseVoxelOctree::new(4).unwrap();
    tree.insert(&v(5, -5, 0), 1).unwrap();
    tree.insert(&v(5, -5, 0), 2).unwrap();
    assert_eq!(tree.get(&v(5, -5, 0)), Some(2));
}

#[test]
fn remove_clears_and_returns_the_value() {
    let mut tree = SparseVoxelOctree::new(4).unwrap();
    tree.insert(&v(5, -5, 0), 1).unwrap();
    tree.insert(&v(5, -5, 1), 2).unwrap();
    assert_eq!(tree.remove(&v(5, -5, 0)), Some(1));
    assert_eq!(tree.get(&v(5, -5, 0)), None);
    assert_eq!(tree.get(&v(5, -5, 1)), Some(2));
    assert_eq!(tree.remove(&v(5, -5, 0)), None);
    assert_eq!(tree.remove(&v(100, 0, 0)), None);
}

#[test]
fn neighbours_across_zero_are_distinct() {
    let mut tree = SparseVoxelOctree::new(2).unwrap();
    tree.insert(&v(-1, -1, -1), 10).unwrap();
    tree.insert(&v(0, 0, 0), 20).unwrap();
    assert_eq!(tree.get(&v(-1, -1, -1)), Some(10));
    assert_eq!(tree.get(&v(0, 0, 0)), Some(20));
    assert_eq!(tree.get(&v(-1, 0, 0)), None);
    assert_eq!(tree.get(&v(0, -1, 0)), None);
}

#[test]
fn mask_uint_checks_its_width() {
    assert!(MaskUInt::try_from(3, 7).is_ok());
    assert!(matches!(MaskUInt::try_from(3, 8), Err(OctreeError::OutOfRange)));
    assert!(MaskUInt::try_from(0, 0).is_ok());
    assert!(matches!(MaskUInt::try_from(0, 1), Err(OctreeError::OutOfRange)));
    assert!(MaskUInt::try_from(32, u32::MAX).is_ok());
    assert!(matches!(
        MaskUInt::try_from(33, 0),
        Err(OctreeError::UnsupportedDepth)
    ));
    let c = MaskUInt::try_from(5, 19).unwrap();
    assert_eq!(c.bits(), 5);
    assert_eq!(c.value(), 19);
}

#[test]
fn mask_uint_top_bit_and_rest() {
    // 0b10110 in five bits: top bit 1, rest 0b0110.
    let c = MaskUInt::try_from(5, 0b10110).unwrap();
    assert_eq!(c.get_top_bit(), 1);
    let r = c.remove_top_bit();
    assert_eq!((r.bits(), r.value()), (4, 0b0110));
    assert_eq!(r.get_top_bit(), 0);
    let r = r.remove_top_bit();
    assert_eq!((r.bits(), r.value()), (3, 0b110));
    let full = MaskUInt::try_from(32, u32::MAX).unwrap();
    assert_eq!(full.get_top_bit(), 1);
    assert_eq!(full.remove_top_bit().value(), u32::MAX >> 1);
    let one = MaskUInt::try_from(1, 1).unwrap();
    assert_eq!(one.get_top_bit(), 1);
    assert_eq!(one.remove_top_bit().value(), 0);
    assert_eq!(one.remove_top_bit().bits(), 0);
}

#[test]
fn octree_point_needs_one_width() {
    let a = MaskUInt::try_from(3, 5).unwrap();
    let b = MaskUInt::try_from(3, 2).unwrap();
    let c = MaskUInt::try_from(4, 2).unwrap();
    assert!(OctreePoint::new(a, b, b).is_ok());
    assert!(matches!(
        OctreePoint::new(a, b, c),
        Err(OctreeError::DepthMismatch)
    ));
    assert!(matches!(
        OctreePoint::new(c, b, b),
        Err(OctreeError::DepthMismatch)
    ));
}

#[test]
fn octree_point_descends_and_indexes() {
    let x = MaskUInt::try_from(3, 0b101).unwrap();
    let y = MaskUInt::try_from(3, 0b011).unwrap();
    let z = MaskUInt::try_from(3, 0b110).unwrap();
    let p = OctreePoint::new(x, y, z).unwrap();
    assert_eq!(OctreeNode::get_idx(&p), 0b101);
    let p = p.decrease_depth();
    assert_eq!((p.x().value(), p.y().value(), p.z().value()), (0b01, 0b11, 0b10));
    assert_eq!(p.x().bits(), 2);
    assert_eq!(OctreeNode::get_idx(&p), 0b011);
    let p = p.decrease_depth();
    assert_eq!(OctreeNode::get_idx(&p), 0b110);
}

#[test]
fn node_level_operations() {
    let mut node = OctreeNode::new(1).unwrap();
    assert!(node.is_empty());
    let at = |x: u32, y: u32, z: u32| {
        OctreePoint::new(
            MaskUInt::try_from(2, x).unwrap(),
            MaskUInt::try_from(2, y).unwrap(),
            MaskUInt::try_from(2, z).unwrap(),
        )
        .unwrap()
    };
    node.insert_inner(at(3, 0, 2), 42);
    assert!(!node.is_empty());
    assert_eq!(node.get_inner(at(3, 0, 2)), Some(42));
    assert_eq!(node.get_inner(at(3, 0, 3)), None);
    assert!(node.contains_inner(at(3, 0, 2)));
    assert!(!node.contains_inner(at(0, 0, 0)));
    assert!(node.contains(Ok(at(3, 0, 2))));
    assert!(!node.contains(Err(OctreeError::OutOfRange)));
    let shallow = OctreePoint::new(
        MaskUInt::try_from(1, 1).unwrap(),
        MaskUInt::try_from(1, 0).unwrap(),
        MaskUInt::try_from(1, 1).unwrap(),
    );
    assert!(!node.contains(shallow));
    assert_eq!(node.remove_inner(at(3, 0, 2)), Some(42));
    assert!(node.is_empty());
    assert_eq!(node.remove_inner(at(3, 0, 2)), None);
}

#[test]
fn scenario_depth_one_iterates_in_octant_order() {
    let mut tree = SparseVoxelOctree::new(1).unwrap();
    tree.insert(&v(-2, -2, -2), 7).unwrap();
    tree.insert(&v(1, 1, 1), 3).unwrap();
    tree.insert(&v(0, 0, 0), 1).unwrap();
    let entries = tree.iterate();
    assert_eq!(
        entries,
        vec![(v(0, 0, 0), 1), (v(1, 1, 1), 3), (v(-2, -2, -2), 7)]
    );
    // A second traversal starts afresh.
    assert_eq!(tree.iterate(), entries);
}

#[test]
fn iterate_on_an_empty_tree_yields_nothing() {
    for depth in [0u32, 1, 5, 31] {
        assert!(SparseVoxelOctree::new(depth).unwrap().iterate().is_empty());
    }
}

#[test]
fn iterate_orders_the_eight_octants_of_a_leaf() {
    let mut tree = SparseVoxelOctree::new(0).unwrap();
    let mut data = 0;
    for x in [-1, 0] {
        for y in [-1, 0] {
            for z in [-1, 0] {
                tree.insert(&v(x, y, z), data).unwrap();
                data += 1;
            }
        }
    }
    // The sign is the octant bit: non-negative first, x before y before z.
    assert_eq!(
        tree.iterate(),
        vec![
            (v(0, 0, 0), 7),
            (v(0, 0, -1), 6),
            (v(0, -1, 0), 5),
            (v(0, -1, -1), 4),
            (v(-1, 0, 0), 3),
            (v(-1, 0, -1), 2),
            (v(-1, -1, 0), 1),
            (v(-1, -1, -1), 0),
        ]
    );
}

#[test]
fn iterate_yields_what_was_inserted_and_not_removed() {
    let mut tree = SparseVoxelOctree::new(3).unwrap();
    let mut expect = Vec::new();
    let mut data = 1u32;
    for x in (-8..8).step_by(3) {
        for y in (-8..8).step_by(5) {
            for z in (-8..8).step_by(7) {
                tree.insert(&v(x, y, z), data).unwrap();
                expect.push((v(x, y, z), data));
                data += 1;
            }
        }
    }
    let removed = expect.split_off(expect.len() / 2);
    for (voxel, d) in &removed {
        assert_eq!(tree.remove(voxel), Some(*d));
    }
    let got = tree.iterate();
    assert_eq!(got.len(), expect.len());
    for pair in &expect {
        assert!(got.contains(pair));
    }
    for (voxel, d) in &got {
        assert_eq!(tree.get(voxel), Some(*d));
    }
}

#[test]
fn iterate_reaches_the_corners_of_the_deepest_tree() {
    let mut tree = SparseVoxelOctree::new(MAX_DEPTH).unwrap();
    tree.insert(&v(i32::MIN, i32::MIN, i32::MIN), 1).unwrap();
    tree.insert(&v(i32::MAX, i32::MAX, i32::MAX), 2).unwrap();
    tree.insert(&v(-1, -1, -1), 3).unwrap();
    tree.insert(&v(0, 0, 0), 4).unwrap();
    assert_eq!(
        tree.iterate(),
        vec![
            (v(0, 0, 0), 4),
            (v(i32::MAX, i32::MAX, i32::MAX), 2),
            (v(-1, -1, -1), 3),
            (v(i32::MIN, i32::MIN, i32::MIN), 1),
        ]
    );
}

#[test]
fn single_insert_allocates_one_node_per_level() {
    for depth in [0u32, 1, 2, 7, 31] {
        let mut tree = SparseVoxelOctree::new(depth).unwrap();
        assert_eq!(tree.count_nodes(), 1);
        tree.insert(&v(-1, 0, -1), 5).unwrap();
        assert_eq!(tree.count_nodes(), depth as usize + 1);
        // The same leaf takes a neighbour without another node.
        let neighbour = if depth == 0 { v(0, 0, 0) } else { v(-2, 1, -1) };
        tree.insert(&neighbour, 6).unwrap();
        assert_eq!(tree.count_nodes(), depth as usize + 1);
        // Inserting again allocates nothing.
        tree.insert(&v(-1, 0, -1), 5).unwrap();
        assert_eq!(tree.count_nodes(), depth as usize + 1);
    }
}

#[test]
fn far_apart_inserts_share_only_the_root() {
    let mut tree = SparseVoxelOctree::new(4).unwrap();
    tree.insert(&v(15, 15, 15), 1).unwrap();
    tree.insert(&v(-16, -16, -16), 2).unwrap();
    assert_eq!(tree.count_nodes(), 1 + 4 + 4);
}

#[test]
fn remove_releases_the_emptied_nodes() {
    let mut tree = SparseVoxelOctree::new(5).unwrap();
    tree.insert(&v(3, 3, 3), 1).unwrap();
    tree.insert(&v(-20, 7, 9), 2).unwrap();
    let both = tree.count_nodes();
    assert_eq!(tree.remove(&v(-20, 7, 9)), Some(2));
    assert_eq!(tree.count_nodes(), 6);
    assert!(both > 6);
    assert_eq!(tree.remove(&v(3, 3, 3)), Some(1));
    assert_eq!(tree.count_nodes(), 1);
    assert!(tree.iterate().is_empty());
}

#[test]
fn node_collects_positions_from_its_base() {
    let mut node = OctreeNode::new(0).unwrap();
    let at = |x: u32, y: u32, z: u32| {
        OctreePoint::new(
            MaskUInt::try_from(1, x).unwrap(),
            MaskUInt::try_from(1, y).unwrap(),
            MaskUInt::try_from(1, z).unwrap(),
        )
        .unwrap()
    };
    node.insert_inner(at(1, 0, 1), 9);
    node.insert_inner(at(0, 1, 0), 8);
    let mut out = vec![(0, 0, 0, 0)];
    node.collect_into(10, 20, 30, &mut out);
    assert_eq!(out, vec![(0, 0, 0, 0), (10, 21, 30, 8), (11, 20, 31, 9)]);
    assert_eq!(node.count_nodes(), 1);
}

#[test]
fn node_refuses_a_point_of_another_depth() {
    let mut node = OctreeNode::new(1).unwrap();
    let right = OctreePoint::new(
        MaskUInt::try_from(2, 2).unwrap(),
        MaskUInt::try_from(2, 1).unwrap(),
        MaskUInt::try_from(2, 0).unwrap(),
    )
    .unwrap();
    let wrong = OctreePoint::new(
        MaskUInt::try_from(3, 2).unwrap(),
        MaskUInt::try_from(3, 1).unwrap(),
        MaskUInt::try_from(3, 0).unwrap(),
    )
    .unwrap();
    assert_eq!(node.insert(wrong, 1), Err(OctreeError::DepthMismatch));
    assert!(node.is_empty());
    assert_eq!(node.get(wrong), Err(OctreeError::DepthMismatch));
    assert_eq!(node.remove(wrong), Err(OctreeError::DepthMismatch));
    assert_eq!(node.insert(right, 1), Ok(()));
    assert_eq!(node.get(right), Ok(Some(1)));
    assert_eq!(node.remove(right), Ok(Some(1)));
    assert_eq!(node.get(right), Ok(None));
    assert!(node.is_empty());
}

#[test]
fn a_path_is_indexed_enumerated_and_encoded() {
    let height_map = vec![
        vec![0, 1, 2, 3],
        vec![1, 1, 2, 3],
        vec![2, 2, 2, 3],
        vec![3, 3, 3, 3],
    ];
    let path = dijkstra((0, 0), (3, 3), &height_map);
    let mut tree = SparseVoxelOctree::new(2).unwrap();
    for &(x, y) in &path {
        let voxel = v(x as i32, y as i32, height_map[x][y]);
        assert_eq!(tree.insert(&voxel, layer_id(0) as u32), Ok(()));
    }
    let entries = tree.iterate();
    assert_eq!(entries.len(), path.len());
    for &(x, y) in &path {
        assert!(entries.contains(&(v(x as i32, y as i32, height_map[x][y]), 50)));
    }
    let layer: Vec<(usize, usize, usize)> = entries
        .iter()
        .map(|(p, _)| (p.x as usize, p.y as usize, p.z as usize))
        .collect();
    let bytes = write_to_vox((4, 4, 4), &vec![layer]);
    assert_eq!(bytes.len(), 8 + 12 + 40 + 4 * path.len());
}
