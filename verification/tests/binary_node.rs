use poisson_recon::binary_node::BinaryNode;

#[test]
fn test_binary_node_indexing() {
    for depth in 0..5 {
        assert_eq!(BinaryNode::center_count(depth), 1 << depth);
        assert_eq!(BinaryNode::corner_count(depth), (1 << depth) + 1);
    }

    assert_eq!(BinaryNode::center_index(0, 0), 0);
    assert_eq!(BinaryNode::center_index(1, 0), 1);
    assert_eq!(BinaryNode::center_index(1, 1), 2);

    let (d, o) = BinaryNode::center_depth_and_offset(2);
    assert_eq!(d, 1);
    assert_eq!(o, 1);
}

#[test]
fn test_cumulative_counts() {
    assert_eq!(
        BinaryNode::cumulative_center_count(2),
        (1 << 0) + (1 << 1) + (1 << 2)
    );
}

#[test]
fn center_index_and_depth_offset_round_trip() {
    for depth in 0..6u32 {
        for offset in 0..(1usize << depth) {
            let idx = BinaryNode::center_index(depth, offset);
            assert_eq!(BinaryNode::center_depth_and_offset(idx), (depth, offset));
        }
    }
    for idx in 0..200usize {
        let (d, o) = BinaryNode::center_depth_and_offset(idx);
        assert_eq!(BinaryNode::center_index(d, o), idx);
    }
}

#[test]
fn corner_index_and_depth_offset_round_trip() {
    for depth in 0..6u32 {
        for offset in 0..=(1usize << depth) {
            let idx = BinaryNode::corner_index(depth, offset);
            assert_eq!(BinaryNode::corner_depth_and_offset(idx), (depth, offset));
        }
    }
    for idx in 0..200usize {
        let (d, o) = BinaryNode::corner_depth_and_offset(idx);
        assert_eq!(BinaryNode::corner_index(d, o), idx);
    }
}

#[test]
fn corner_indices_follow_depths() {
    // Depth 0 has corners 0 and 1; depth 1 starts at 2 and has three.
    assert_eq!(BinaryNode::corner_index(0, 0), 0);
    assert_eq!(BinaryNode::corner_index(0, 1), 1);
    assert_eq!(BinaryNode::corner_index(1, 0), 2);
    assert_eq!(BinaryNode::corner_index(2, 0), 5);
    assert_eq!(BinaryNode::corner_depth_and_offset(4), (1, 2));
    assert_eq!(BinaryNode::corner_depth_and_offset(5), (2, 0));
}

#[test]
fn cumulative_counts_are_sums_of_counts() {
    for max_depth in 0..10u32 {
        let centers: usize = (0..=max_depth).map(BinaryNode::center_count).sum();
        let corners: usize = (0..=max_depth).map(BinaryNode::corner_count).sum();
        assert_eq!(BinaryNode::cumulative_center_count(max_depth), centers);
        assert_eq!(BinaryNode::cumulative_corner_count(max_depth), corners);
    }
    assert_eq!(BinaryNode::cumulative_corner_count(2), 10);
}

#[test]
fn corner_index_at_max_depth_scales_offset() {
    assert_eq!(BinaryNode::corner_index_at_max_depth(5, 2, 3, 1), 4 << 3);
    assert_eq!(BinaryNode::corner_index_at_max_depth(4, 4, 7, 0), 7);
    assert_eq!(BinaryNode::corner_index_at_max_depth(3, 1, 1, -1), 0);
}

#[test]
fn last_index_decomposes() {
    let (d, o) = BinaryNode::corner_depth_and_offset(usize::MAX);
    assert_eq!(BinaryNode::corner_index(d, o), usize::MAX);
    let (d, o) = BinaryNode::center_depth_and_offset(usize::MAX - 1);
    assert_eq!(BinaryNode::center_index(d, o), usize::MAX - 1);
}
