use vstd::prelude::*;

verus! {

/// Boundary condition type for the FEM basis.
#[derive(Debug, Clone, Copy, PartialEq, Eq, Structural)]
pub enum BoundaryType {
    Free,
    Dirichlet,
    Neumann,
}

impl BoundaryType {
    /// Number of boundary types.
    pub const COUNT: usize = 3;

    /// Free and Neumann bases sum to one everywhere; a Dirichlet basis does not.
    pub fn has_partition_of_unity(&self) -> (r: bool)
        ensures
            r <==> *self != BoundaryType::Dirichlet,
    {
        match self {
            BoundaryType::Dirichlet => false,
            _ => true,
        }
    }
}

/// Support sizes, in cells, of the B-spline basis functions of one degree,
/// and of their children and up-sampling stencils one depth finer.
#[derive(Debug, Clone)]
pub struct BSplineSupport {
    pub support_start: isize,
    pub support_end: isize,
    pub support_size: usize,
    pub child_support_start: isize,
    pub child_support_end: isize,
    pub up_sample_start: isize,
    pub up_sample_end: isize,
    pub up_sample_size: usize,
}

/// First cell, relative to a function's own, that a degree-`degree` basis
/// function covers: for odd degrees the support is `[1 - h, h]`, for even
/// ones `[-h, h]`, where `h = (degree + 1) / 2`.
pub open spec fn spec_support_start(degree: nat) -> int {
    if degree == 0 {
        0
    } else if degree % 2 == 1 {
        1 - (degree + 1) / 2
    } else {
        -((degree + 1) / 2)
    }
}

/// Last cell, relative to a function's own, that a degree-`degree` basis
/// function covers.
pub open spec fn spec_support_end(degree: nat) -> int {
    if degree == 0 { 0 } else { ((degree + 1) / 2) as int }
}

impl BSplineSupport {
    /// The supports of the degree-`degree` basis functions.
    pub fn new(degree: usize) -> (r: Self)
        requires
            4 * ((degree + 1) / 2) + 2 <= isize::MAX,
        ensures
            r.support_start == spec_support_start(degree as nat),
            r.support_end == spec_support_end(degree as nat),
            r.support_size == degree + 1,
            r.support_size == r.support_end - r.support_start + 1,
            degree == 0 ==> {
                &&& r.child_support_start == 0
                &&& r.child_support_end == 0
                &&& r.up_sample_start == 0
                &&& r.up_sample_end == 0
                &&& r.up_sample_size == 1
            },
            degree > 0 ==> {
                &&& r.child_support_start == 2 * r.support_start
                &&& r.child_support_end == 2 * r.support_end + 1
                &&& r.up_sample_start == 2 * r.support_start
                &&& r.up_sample_end == 2 * r.support_end + 1
                &&& r.up_sample_size == r.up_sample_end - r.up_sample_start + 1
                &&& r.up_sample_size == 2 * degree + 2
            },
    {
        if degree == 0 {
            return BSplineSupport {
                support_start: 0,
                support_end: 0,
                support_size: 1,
                child_support_start: 0,
                child_support_end: 0,
                up_sample_start: 0,
                up_sample_end: 0,
                up_sample_size: 1,
            };
        }
        let primal = (degree & 1) == 1;
        proof {
            assert((degree & 1) == degree % 2) by (bit_vector);
        }
        let half = (degree + 1) / 2;

        let (support_start, support_end) = if primal {
            let s = half as isize;
            (-s + 1, s)
        } else {
            let s = half as isize;
            (-s, s)
        };
        let support_size = (support_end - support_start + 1) as usize;

        let child_support_start = support_start * 2;
        let child_support_end = support_end * 2 + 1;

        let up_sample_start = support_start * 2;
        let up_sample_end = support_end * 2 + 1;
        let up_sample_size = (up_sample_end - up_sample_start + 1) as usize;

        BSplineSupport {
            support_start,
            support_end,
            support_size,
            child_support_start,
            child_support_end,
            up_sample_start,
            up_sample_end,
            up_sample_size,
        }
    }
}

} // verus!
