use vstd::prelude::*;

verus! {

/// Node participates in the unit cube partition.
pub const SPACE_FLAG: u8 = 1;
/// Indexes a valid finite element (staggered position 0).
pub const FEM_FLAG_1: u8 = 2;
/// Indexes a valid finite element (staggered position 1).
pub const FEM_FLAG_2: u8 = 4;
/// FEM elements evaluate to zero here.
pub const DIRICHLET_NODE_FLAG: u8 = 8;
/// Coefficient locked to zero.
pub const DIRICHLET_ELEMENT_FLAG: u8 = 16;
/// Support overlaps geometry.
pub const GEOMETRY_SUPPORTED_FLAG: u8 = 32;
/// Children are pruned.
pub const GHOST_FLAG: u8 = 64;
/// Temporary flag.
pub const SCRATCH_FLAG: u8 = 128;

} // verus!
