use poisson_recon::cube_table::{cube_case, cube_edge_mask, cube_triangles, tri_row, EDGE_TABLE};
use poisson_recon::octree::{flags, Octree, OctreeNode};
use poisson_recon::sparse::{MatrixEntry, SparseMatrix};

fn collect_leaves(node: &OctreeNode, out: &mut Vec<(u32, [u32; 3], i32, u8)>) {
    match &node.children {
        None => out.push((node.depth, node.offset, node.data.node_index, node.data.flags)),
        Some(c) => {
            for child in c {
                collect_leaves(child, out);
            }
        }
    }
}

#[test]
fn refine_by_samples_splits_crowded_nodes_only() {
    let mut tree = Octree::new();
    // Three samples in cell (0,0,0) of the 4x4x4 grid, one in (3,3,3).
    let cells = vec![[0, 0, 0], [0, 0, 0], [1, 0, 0], [3, 3, 3]];
    tree.refine_by_samples(&cells, 2, 1);
    assert_eq!(tree.max_depth, 2);
    // The root holds 4 > 1 samples: split. Octant (0,0,0) holds 3: split.
    // Octant (1,1,1) holds 1: not split.
    let kids = tree.root.children.as_ref().unwrap();
    assert!(!kids[0].is_leaf());
    assert!(kids[7].is_leaf());
    assert!(kids[1].is_leaf());
    assert_eq!(tree.root.count_nodes(), 1 + 8 + 8);
}

#[test]
fn negative_threshold_refines_everything() {
    let mut tree = Octree::new();
    tree.refine_by_samples(&[], 2, -1);
    assert_eq!(tree.root.count_nodes(), 73);
    let mut tree = Octree::new();
    tree.refine_by_samples(&[], 2, 0);
    assert_eq!(tree.root.count_nodes(), 1);
}

#[test]
fn fem_leaves_are_numbered_in_preorder() {
    let mut tree = Octree::new();
    let cells = vec![[0, 0, 0], [0, 0, 0], [3, 3, 3]];
    tree.refine_by_samples(&cells, 2, 1);
    let offsets = tree.number_fem_leaves(2);
    assert_eq!(offsets.len(), 8);
    assert_eq!(offsets[0], [0, 0, 0]);
    assert_eq!(offsets[1], [1, 0, 0]);
    assert_eq!(offsets[7], [1, 1, 1]);
    let mut leaves = Vec::new();
    collect_leaves(&tree.root, &mut leaves);
    let mut next = 0;
    for (depth, offset, index, fl) in leaves {
        if depth == 2 {
            assert_eq!(index, next);
            assert_eq!(offsets[next as usize], offset);
            assert_eq!(fl, flags::SPACE_FLAG | flags::FEM_FLAG_1);
            next += 1;
        } else {
            assert_eq!(index, -1);
            assert_eq!(fl, 0);
        }
    }
    assert_eq!(next, 8);
}

#[test]
fn cube_cases_and_tables() {
    assert_eq!(cube_case([false; 8]), 0);
    assert_eq!(cube_case([true, false, false, false, false, false, false, false]), 1);
    assert_eq!(cube_case([true; 8]), 255);
    assert_eq!(cube_case([false, true, false, true, false, false, false, true]), 2 + 8 + 128);
    assert_eq!(cube_edge_mask(0), 0);
    assert_eq!(cube_edge_mask(1), 0x109);
    assert_eq!(cube_edge_mask(255), 0);
    assert_eq!(EDGE_TABLE[3], 0x30a);
    assert_eq!(tri_row(1), [0, 8, 3, -1, -1, -1, -1, -1, -1, -1, -1, -1, -1, -1, -1, -1]);
    let ev: [usize; 12] = [100, 101, 102, 103, 104, 105, 106, 107, 108, 109, 110, 111];
    assert_eq!(cube_triangles(0, &ev), Vec::<[usize; 3]>::new());
    assert_eq!(cube_triangles(1, &ev), vec![[100, 108, 103]]);
    assert_eq!(cube_triangles(3, &ev), vec![[101, 108, 103], [109, 108, 101]]);
    // Every edge a triangle uses is one the edge table flags.
    for case in 0..256usize {
        let mask = cube_edge_mask(case);
        let tris = cube_triangles(case, &[0, 1, 2, 3, 4, 5, 6, 7, 8, 9, 10, 11]);
        assert!(tris.len() <= 5);
        for t in tris {
            for e in t {
                assert!(mask & (1 << e) != 0, "case {} edge {}", case, e);
            }
        }
    }
}

#[test]
fn rows_are_merged_by_column() {
    let rows = vec![
        vec![(2usize, 1i64), (0, 5), (2, 3), (1, 0)],
        vec![],
        vec![(4, 7), (4, -7)],
    ];
    let m: SparseMatrix<i64> = SparseMatrix::from_row_lists(rows);
    assert_eq!(m.num_rows(), 3);
    assert_eq!(m.row(0), &[MatrixEntry::new(0, 5), MatrixEntry::new(1, 0), MatrixEntry::new(2, 4)][..]);
    assert_eq!(m.row(1).len(), 0);
    assert_eq!(m.row(2), &[MatrixEntry::new(4, 0)][..]);
    assert_eq!(m.nnz(), 4);
    assert_eq!(m.row_size(0), 3);
}
