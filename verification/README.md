# poisson_recon

Screened Poisson surface reconstruction from oriented points: an adaptive
octree is refined around the samples, a finite-element system is assembled
over its finest leaves and solved, and the iso-surface of the solution is
extracted with marching cubes.

## Layout

- `src/` is the verified library (Verus). It holds the integer and
  combinatorial core, each public function with a contract:
  - `binary_node`: global indices of centers and corners in a binary tree,
    and their inverse;
  - `bspline`: boundary types and the support sizes of B-spline bases;
  - `octree`: the octree, its refinement, the depth-sorted node table and the
    per-node data stores;
  - `fem_tree`: refinement around sample cells and the numbering of the
    finite elements;
  - `fem_index`: lookup of the elements by grid offset and their 3x3x3
    stencil neighbours;
  - `sparse`: the row-structured sparse matrix, its products, its assembly
    from unsorted row lists, and the laws relating them (`sparse::adjoint`);
  - `solvers`: dot products over any numeric type;
  - `cube_table`: the marching cubes case tables;
  - `vertex_merge`: merging vertices with equal grid keys and renumbering
    the triangles;
  - `ply`: the PLY header reader.
- `app/` is the program around it: command line, file I/O, and the
  floating-point parts (geometry, B-spline evaluation, the iterative solvers,
  the FEM assembly values, surface extraction, rounding vertices to grid
  keys).
- `tests/` exercises the library on concrete values.
