use vstd::prelude::*;
use vstd::arithmetic::power2::{pow2, lemma2_to64, lemma2_to64_rest, lemma_pow2_unfold, lemma_pow2_pos, lemma_pow2_strictly_increases};
use vstd::bits::{lemma_usize_shl_is_mul, lemma_usize_pow2_no_overflow};
use vstd::layout::unsigned_int_max_values;

verus! {

/// 1D binary tree indexing: maps between (depth, offset) pairs and global
/// indices. Centers and corners are indexed separately; the nodes of a depth
/// follow those of all shallower depths.
pub struct BinaryNode;

/// Number of center positions on all depths strictly shallower than `depth`.
pub open spec fn centers_before(depth: nat) -> nat
    decreases depth,
{
    if depth == 0 { 0 } else { centers_before((depth - 1) as nat) + pow2((depth - 1) as nat) }
}

/// Number of corner positions on all depths strictly shallower than `depth`.
pub open spec fn corners_before(depth: nat) -> nat
    decreases depth,
{
    if depth == 0 { 0 } else { corners_before((depth - 1) as nat) + pow2((depth - 1) as nat) + 1 }
}

/// The centers on depths below `depth` are `2^depth - 1` in number.
pub proof fn lemma_centers_before(depth: nat)
    ensures
        centers_before(depth) + 1 == pow2(depth),
    decreases depth,
{
    if depth == 0 {
        lemma2_to64();
    } else {
        lemma_centers_before((depth - 1) as nat);
        lemma_pow2_unfold(depth);
    }
}

/// The corners on depths below `depth` are `2^depth - 1 + depth` in number.
pub proof fn lemma_corners_before(depth: nat)
    ensures
        corners_before(depth) + 1 == pow2(depth) + depth,
    decreases depth,
{
    if depth == 0 {
        lemma2_to64();
    } else {
        lemma_corners_before((depth - 1) as nat);
        lemma_pow2_unfold(depth);
    }
}

/// Shifting a usize left by `k` multiplies it by `2^k` while the product fits.
proof fn lemma_shl(x: usize, k: u32)
    requires
        k < usize::BITS,
        x * pow2(k as nat) <= usize::MAX,
    ensures
        (x << k) == x * pow2(k as nat),
{
    let kk: usize = k as usize;
    assert((x << k) == (x << kk)) by (bit_vector)
        requires
            kk == k,
            k < usize::BITS,
    ;
    lemma_usize_shl_is_mul(x, kk);
}

/// `1 << depth` as a usize is `2^depth`.
proof fn lemma_one_shl(depth: u32)
    requires
        depth < usize::BITS,
    ensures
        (1usize << depth) == pow2(depth as nat),
        pow2(depth as nat) <= usize::MAX,
{
    let d: usize = depth as usize;
    assert((1usize << depth) == (1usize << d)) by (bit_vector)
        requires
            d == depth,
            depth < usize::BITS,
    ;
    unsigned_int_max_values();
    lemma_pow2_strictly_increases(depth as nat, usize::BITS as nat);
    lemma_usize_shl_is_mul(1, d);
}

/// Below the word size, `2^e` leaves room for `e` more.
proof fn lemma_pow2_room(e: nat)
    requires
        e < usize::BITS,
    ensures
        pow2(e) + e <= usize::MAX,
{
    unsigned_int_max_values();
    lemma2_to64();
    lemma2_to64_rest();
    if e + 1 < usize::BITS {
        lemma_pow2_strictly_increases(e, (usize::BITS - 1) as nat);
    }
    lemma_pow2_unfold(usize::BITS as nat);
}

/// A global center index names at most one (depth, offset) pair: the index
/// ranges of distinct depths do not overlap.
pub proof fn lemma_center_ranges_disjoint(d1: nat, o1: nat, d2: nat, o2: nat)
    requires
        o1 < pow2(d1),
        o2 < pow2(d2),
        centers_before(d1) + o1 == centers_before(d2) + o2,
    ensures
        d1 == d2,
        o1 == o2,
    decreases d1 + d2,
{
    if d1 < d2 {
        lemma_centers_before(d1);
        lemma_centers_monotone(d1 + 1, d2);
        lemma_centers_before(d1 + 1);
        lemma_pow2_unfold(d1 + 1);
    } else if d2 < d1 {
        lemma_centers_before(d2);
        lemma_centers_monotone(d2 + 1, d1);
        lemma_centers_before(d2 + 1);
        lemma_pow2_unfold(d2 + 1);
    }
}

proof fn lemma_centers_monotone(a: nat, b: nat)
    requires
        a <= b,
    ensures
        centers_before(a) <= centers_before(b),
    decreases b - a,
{
    if a < b {
        lemma_centers_monotone(a, (b - 1) as nat);
    }
}

proof fn lemma_corners_monotone(a: nat, b: nat)
    requires
        a <= b,
    ensures
        corners_before(a) <= corners_before(b),
    decreases b - a,
{
    if a < b {
        lemma_corners_monotone(a, (b - 1) as nat);
    }
}

/// A global corner index names at most one (depth, offset) pair: the index
/// ranges of distinct depths do not overlap.
pub proof fn lemma_corner_ranges_disjoint(d1: nat, o1: nat, d2: nat, o2: nat)
    requires
        o1 < pow2(d1) + 1,
        o2 < pow2(d2) + 1,
        corners_before(d1) + o1 == corners_before(d2) + o2,
    ensures
        d1 == d2,
        o1 == o2,
{
    if d1 < d2 {
        lemma_corners_monotone(d1 + 1, d2);
    } else if d2 < d1 {
        lemma_corners_monotone(d2 + 1, d1);
    }
}

impl BinaryNode {
    /// Number of center positions at a given depth: `2^depth`.
    pub fn center_count(depth: u32) -> (r: usize)
        requires
            depth < usize::BITS,
        ensures
            r == pow2(depth as nat),
    {
        proof { lemma_one_shl(depth); }
        1usize << depth
    }

    /// Number of corner positions at a given depth: `2^depth + 1`.
    pub fn corner_count(depth: u32) -> (r: usize)
        requires
            depth < usize::BITS,
        ensures
            r == pow2(depth as nat) + 1,
    {
        proof {
            lemma_one_shl(depth);
            lemma_usize_pow2_no_overflow(depth as nat);
        }
        (1usize << depth) + 1
    }

    /// Cumulative centers up to `max_depth`: `2^(max_depth+1) - 1`.
    pub fn cumulative_center_count(max_depth: u32) -> (r: usize)
        requires
            max_depth + 1 < usize::BITS,
        ensures
            r + 1 == pow2(max_depth as nat + 1),
            r == centers_before(max_depth as nat + 1),
    {
        proof {
            lemma_one_shl((max_depth + 1) as u32);
            lemma_pow2_pos(max_depth as nat + 1);
            lemma_centers_before(max_depth as nat + 1);
        }
        (1usize << (max_depth + 1)) - 1
    }

    /// Cumulative corners up to `max_depth`: `2^(max_depth+1) + max_depth`.
    pub fn cumulative_corner_count(max_depth: u32) -> (r: usize)
        requires
            max_depth + 1 < usize::BITS,
        ensures
            r == pow2(max_depth as nat + 1) + max_depth,
            r == corners_before(max_depth as nat + 1),
    {
        proof {
            lemma_one_shl((max_depth + 1) as u32);
            lemma_pow2_room(max_depth as nat + 1);
            lemma_corners_before(max_depth as nat + 1);
        }
        (1usize << (max_depth + 1)) + max_depth as usize
    }

    /// Global index for a center at (depth, offset): `2^depth + offset - 1`.
    pub fn center_index(depth: u32, offset: usize) -> (r: usize)
        requires
            depth < usize::BITS,
            pow2(depth as nat) + offset <= usize::MAX,
        ensures
            r == pow2(depth as nat) + offset - 1,
            r == centers_before(depth as nat) + offset,
    {
        proof {
            lemma_one_shl(depth);
            lemma_pow2_pos(depth as nat);
            lemma_centers_before(depth as nat);
        }
        ((1usize << depth) + offset).wrapping_sub(1)
    }

    /// Global index for a corner at (depth, offset): `2^depth + offset - 1 + depth`.
    pub fn corner_index(depth: u32, offset: usize) -> (r: usize)
        requires
            depth < usize::BITS,
            pow2(depth as nat) + offset <= usize::MAX,
            pow2(depth as nat) + offset - 1 + depth <= usize::MAX,
        ensures
            r == pow2(depth as nat) + offset - 1 + depth,
            r == corners_before(depth as nat) + offset,
    {
        proof {
            lemma_one_shl(depth);
            lemma_pow2_pos(depth as nat);
            lemma_corners_before(depth as nat);
        }
        ((1usize << depth) + offset).wrapping_sub(1) + depth as usize
    }

    /// Corner index at `max_depth` for a corner at (depth, offset, forward_corner):
    /// `(offset + forward_corner) << (max_depth - depth)`.
    pub fn corner_index_at_max_depth(max_depth: u32, depth: u32, offset: usize, forward_corner: i32) -> (r: usize)
        requires
            depth <= max_depth,
            max_depth - depth < usize::BITS,
            isize::MIN <= offset as isize + forward_corner <= isize::MAX,
        ensures
            r == (((offset as isize + forward_corner) as usize) << ((max_depth - depth) as u32)),
            0 <= offset as isize + forward_corner
                && (offset as isize + forward_corner) * pow2((max_depth - depth) as nat) <= usize::MAX
                ==> r == (offset as isize + forward_corner) * pow2((max_depth - depth) as nat),
    {
        let s = offset as isize + forward_corner as isize;
        let k: u32 = max_depth - depth;
        proof {
            if 0 <= s && s * pow2(k as nat) <= usize::MAX {
                lemma_shl(s as usize, k);
            }
        }
        (s as usize) << k
    }

    /// Recover depth and offset from a global center index.
    pub fn center_depth_and_offset(idx: usize) -> (r: (u32, usize))
        requires
            idx < usize::MAX,
        ensures
            r.0 < usize::BITS,
            r.1 < pow2(r.0 as nat),
            centers_before(r.0 as nat) + r.1 == idx,
    {
        let mut offset = idx;
        let mut depth: u32 = 0;
        proof { lemma_one_shl(0); }
        while offset >= (1usize << depth)
            invariant
                idx < usize::MAX,
                depth < usize::BITS,
                centers_before(depth as nat) + offset == idx,
                (1usize << depth) == pow2(depth as nat),
            decreases offset,
        {
            proof {
                unsigned_int_max_values();
                lemma_centers_before(depth as nat);
                lemma_pow2_pos(depth as nat);
                if depth + 1 == usize::BITS {
                    lemma_pow2_unfold(usize::BITS as nat);
                    assert(false);
                }
            }
            offset -= 1usize << depth;
            depth += 1;
            proof { lemma_one_shl(depth); }
        }
        (depth, offset)
    }

    /// Recover depth and offset from a global corner index.
    pub fn corner_depth_and_offset(idx: usize) -> (r: (u32, usize))
        ensures
            r.0 < usize::BITS,
            r.1 < pow2(r.0 as nat) + 1,
            corners_before(r.0 as nat) + r.1 == idx,
    {
        let mut offset = idx;
        let mut depth: u32 = 0;
        proof {
            lemma_one_shl(0);
            lemma_usize_pow2_no_overflow(0);
        }
        while offset >= (1usize << depth) + 1
            invariant
                depth < usize::BITS,
                corners_before(depth as nat) + offset == idx,
                (1usize << depth) == pow2(depth as nat),
                pow2(depth as nat) < usize::MAX,
            decreases offset,
        {
            proof {
                unsigned_int_max_values();
                lemma_corners_before(depth as nat);
                if depth + 1 == usize::BITS {
                    lemma_pow2_unfold(usize::BITS as nat);
                    lemma_pow2_room(depth as nat);
                    assert(false);
                }
            }
            offset -= (1usize << depth) + 1;
            depth += 1;
            proof {
                lemma_one_shl(depth);
                lemma_usize_pow2_no_overflow(depth as nat);
            }
        }
        (depth, offset)
    }
}

} // verus!
