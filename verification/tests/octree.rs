use poisson_recon::octree::{flags, DenseNodeData, FEMNodeData, Octree, OctreeNode, SparseNodeData};

#[test]
fn test_octree_create_root() {
    let root = OctreeNode::new_root();
    assert_eq!(root.depth, 0);
    assert_eq!(root.offset, [0, 0, 0]);
    assert!(root.is_leaf());
}

fn refine_subtree(node: &mut OctreeNode, target: u32) {
    if node.depth < target {
        node.init_children();
        if let Some(ref mut children) = node.children {
            for child in children.iter_mut() {
                refine_subtree(child, target);
            }
        }
    }
}

#[test]
fn test_octree_refine() {
    let mut tree = Octree::new();
    assert_eq!(tree.max_depth, 0);

    let target = 2;
    refine_subtree(&mut tree.root, target);
    tree.max_depth = target;
    assert_eq!(tree.max_depth, 2);
    assert!(!tree.root.is_leaf());

    let count = tree.root.count_nodes();
    let expected = 1 + 8 + 64;
    assert_eq!(count, expected);
}

#[test]
fn test_sorted_tree_nodes() {
    let mut tree = Octree::new();
    {
        let root = &mut tree.root;
        root.init_children();
        tree.max_depth = 1;
    }
    tree.finalize();

    let sorted = tree.sorted();
    assert_eq!(sorted.total_nodes(), 1 + 8);
    assert_eq!(sorted.size_at_depth(0), 1);
    assert_eq!(sorted.size_at_depth(1), 8);
}

#[test]
fn children_sit_in_their_octants() {
    let mut node = OctreeNode::new_child(2, [1, 2, 3]);
    node.init_children();
    let children = node.children.as_ref().unwrap();
    assert_eq!(children.len(), 8);
    for (i, c) in children.iter().enumerate() {
        assert_eq!(c.depth, 3);
        for d in 0..3 {
            assert_eq!(c.offset[d], 2 * node.offset[d] + ((i as u32 >> d) & 1));
            assert_eq!(c.offset[d] >> 1, node.offset[d]);
        }
        assert!(c.is_leaf());
        assert_eq!(c.data().node_index, -1);
    }
    // A second call keeps the children.
    node.children.as_mut().unwrap()[0].data_mut().node_index = 7;
    node.init_children();
    assert_eq!(node.children.as_ref().unwrap()[0].data().node_index, 7);
}

#[test]
fn refine_node_builds_full_subtree_and_raises_max_depth() {
    let mut tree = Octree::new();
    let mut node = OctreeNode::new_root();
    tree.refine_node(&mut node, 2);
    assert_eq!(node.count_nodes(), 73);
    assert_eq!(tree.max_depth, 2);
    // Refining a node that is already deep enough changes nothing.
    let mut leaf = OctreeNode::new_child(3, [0, 0, 0]);
    tree.refine_node(&mut leaf, 2);
    assert!(leaf.is_leaf());
    assert_eq!(tree.max_depth, 2);
}

#[test]
fn sorted_table_lists_nodes_by_depth() {
    let mut tree = Octree::new();
    tree.root.init_children();
    tree.root.children.as_mut().unwrap()[5].init_children();
    tree.finalize();
    let sorted = tree.sorted();
    assert_eq!(sorted.total_nodes(), tree.root.count_nodes());
    assert_eq!(sorted.total_nodes(), 17);
    assert_eq!(sorted.slice_start, vec![0, 1, 9, 17]);
    assert_eq!(sorted.size_at_depth(2), 8);
    assert_eq!(sorted.size_at_depth(3), 0);
    let deep = sorted.nodes_at_depth(2);
    assert_eq!(deep.len(), 8);
    for (i, k) in deep.iter().enumerate() {
        assert_eq!(k.depth, 2);
        assert_eq!(k.offset[0], 2 + (i as u32 & 1));
        assert_eq!(k.offset[1], ((i as u32 >> 1) & 1));
        assert_eq!(k.offset[2], 2 + ((i as u32 >> 2) & 1));
    }
    let mid = sorted.nodes_at_depth(1);
    assert_eq!(mid.len(), 8);
    assert_eq!(sorted.nodes_at_depth(0)[0].depth, 0);
}

#[test]
fn flags_set_and_clear() {
    let mut data = FEMNodeData::default();
    assert_eq!(data.node_index, -1);
    assert!(!data.has_flag(flags::SPACE_FLAG));
    data.set_flag(flags::SPACE_FLAG, true);
    data.set_flag(flags::FEM_FLAG_1, true);
    assert!(data.has_flag(flags::SPACE_FLAG));
    assert!(data.has_flag(flags::FEM_FLAG_1));
    assert!(!data.has_flag(flags::GHOST_FLAG));
    data.set_flag(flags::SPACE_FLAG, false);
    assert!(!data.has_flag(flags::SPACE_FLAG));
    assert!(data.has_flag(flags::FEM_FLAG_1));
    assert_eq!(data.flags, flags::FEM_FLAG_1);
}

#[test]
fn dense_node_data_grows_on_set() {
    let mut d: DenseNodeData<i32> = DenseNodeData::new();
    d.set(3, 9);
    assert_eq!(d.data, vec![0, 0, 0, 9]);
    assert_eq!(*d.get(3), 9);
    *d.get_mut(1) = 4;
    assert_eq!(*d.get(1), 4);
    d.resize(2);
    assert_eq!(d.data, vec![0, 4]);
    d.fill(5);
    assert_eq!(d.data, vec![5, 5]);
    d.set(0, 1);
    assert_eq!(d.data, vec![1, 5]);
}

#[test]
fn sparse_node_data_inserts_once() {
    let mut s: SparseNodeData<u32> = SparseNodeData::new();
    assert!(s.is_empty());
    assert_eq!(s.get(7), None);
    *s.at(7) += 2;
    *s.at(3) += 1;
    *s.at(7) += 5;
    assert_eq!(s.len(), 2);
    assert_eq!(s.get(7), Some(&7));
    assert_eq!(s.get(3), Some(&1));
    assert_eq!(s.indices, vec![7, 3]);
    assert_eq!(s.data, vec![7, 1]);
    s.clear();
    assert!(s.is_empty());
    assert_eq!(s.get(7), None);
}

#[test]
fn fresh_slots_hold_defaults() {
    let mut d: DenseNodeData<i64> = DenseNodeData::new();
    d.resize(3);
    assert_eq!(d.data, vec![0, 0, 0]);
    d.fill(7);
    d.resize(5);
    assert_eq!(d.data, vec![7, 7, 7, 0, 0]);
    let mut s: SparseNodeData<i64> = SparseNodeData::new();
    *s.at(4) = -3;
    s.clear();
    assert_eq!(*s.at(4), 0);
    assert_eq!(s.get(4), Some(&0));
    assert_eq!(*s.at(9), 0);
    assert_eq!(s.data, vec![0, 0]);
}

#[test]
fn sorted_table_never_goes_shallower() {
    let mut tree = Octree::new();
    tree.refine_by_samples(&[[0, 0, 0], [0, 0, 0], [3, 3, 3]], 2, 1);
    tree.finalize();
    let table = tree.sorted();
    assert_eq!(table.tree_nodes.len(), tree.root.count_nodes());
    for w in table.tree_nodes.windows(2) {
        assert!(w[0].depth <= w[1].depth);
    }
}
