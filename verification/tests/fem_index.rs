use poisson_recon::fem_index::{FemIndex, Neighbor};
use poisson_recon::octree::Octree;

fn grid() -> FemIndex {
    // a 2x2x1 slab of elements in a grid of resolution 2, plus a repeat of
    // the first offset at the end
    FemIndex::new(vec![[0, 0, 0], [1, 0, 0], [0, 1, 0], [1, 1, 0], [0, 0, 0]])
}

#[test]
fn find_returns_last_position() {
    let idx = grid();
    assert_eq!(idx.len(), 5);
    assert_eq!(idx.find([0, 0, 0]), Some(4));
    assert_eq!(idx.find([1, 1, 0]), Some(3));
    assert_eq!(idx.find([1, 1, 1]), None);
    assert_eq!(idx.find([u32::MAX, 0, 0]), None);
    assert_eq!(idx.offset(2), [0, 1, 0]);
}

#[test]
fn neighbors_in_stencil_order() {
    let idx = grid();
    let nb = idx.neighbors(1, 2);
    let expect = vec![
        Neighbor { index: 4, dx: -1, dy: 0, dz: 0 },
        Neighbor { index: 2, dx: -1, dy: 1, dz: 0 },
        Neighbor { index: 1, dx: 0, dy: 0, dz: 0 },
        Neighbor { index: 3, dx: 0, dy: 1, dz: 0 },
    ];
    assert_eq!(nb, expect);
    // the grid's edge cuts the stencil: resolution 1 keeps only the element itself
    assert_eq!(idx.neighbors(0, 1), vec![Neighbor { index: 4, dx: 0, dy: 0, dz: 0 }]);
}

#[test]
fn empty_index_finds_nothing() {
    let idx = FemIndex::new(Vec::new());
    assert_eq!(idx.len(), 0);
    assert_eq!(idx.find([0, 0, 0]), None);
}

#[test]
fn numbered_elements_are_found_by_offset() {
    let mut tree = Octree::new();
    tree.refine_by_samples(&[], 2, -1);
    let offsets = tree.number_fem_leaves(2);
    assert_eq!(offsets.len(), 64);
    let idx = FemIndex::new(offsets.clone());
    for (k, o) in offsets.iter().enumerate() {
        assert_eq!(idx.find(*o), Some(k));
    }
    // an interior element of the 4x4x4 grid sees all 27 stencil positions
    let k = idx.find([1, 1, 1]).unwrap();
    assert_eq!(idx.neighbors(k, 4).len(), 27);
    // a corner element sees 8
    let c = idx.find([0, 0, 0]).unwrap();
    assert_eq!(idx.neighbors(c, 4).len(), 8);
}
