//! Integer core of a screened Poisson surface reconstruction library:
//! binary-tree indexing, B-spline support sizes, the adaptive octree with its
//! depth-sorted node table and per-node data stores, the refinement of the
//! tree around samples and the lookup of its finite elements, a
//! row-structured sparse matrix with its vector kernels, the marching cubes
//! case tables, the merging of mesh vertices, and the PLY header reader.

pub mod binary_node;
pub mod bspline;
pub mod octree;
pub mod sparse;
pub mod solvers;
pub mod fem_tree;
pub mod fem_index;
pub mod vertex_merge;
pub mod cube_table;
pub mod ply;
