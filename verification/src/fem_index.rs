//! Lookup of the finite elements by their grid offset, and the elements
//! around one element in the 3x3x3 stencil.
use vstd::prelude::*;
use std::collections::HashMap;
use crate::octree::{DIM, OctreeNode};
use crate::fem_tree::{leaf_keys, offsets_of, lemma_leaf_offsets_distinct};

verus! {

/// The key of the offset `(x, y, z)`: the three coordinates side by side in
/// 32-bit fields.
pub open spec fn key3(x: u32, y: u32, z: u32) -> u128 {
    ((x as u128) << 64u128) | ((y as u128) << 32u128) | (z as u128)
}

/// Distinct offsets have distinct keys.
proof fn lemma_key3_injective(x: u32, y: u32, z: u32, a: u32, b: u32, c: u32)
    ensures
        key3(x, y, z) == key3(a, b, c) <==> (x == a && y == b && z == c),
{
    assert({
        &&& ((((x as u128) << 64u128) | ((y as u128) << 32u128) | (z as u128)) >> 64u128) == x as u128
        &&& (((((x as u128) << 64u128) | ((y as u128) << 32u128) | (z as u128)) >> 32u128) & 0xffff_ffffu128) == y as u128
        &&& ((((x as u128) << 64u128) | ((y as u128) << 32u128) | (z as u128)) & 0xffff_ffffu128) == z as u128
    }) by (bit_vector);
    assert({
        &&& ((((a as u128) << 64u128) | ((b as u128) << 32u128) | (c as u128)) >> 64u128) == a as u128
        &&& (((((a as u128) << 64u128) | ((b as u128) << 32u128) | (c as u128)) >> 32u128) & 0xffff_ffffu128) == b as u128
        &&& ((((a as u128) << 64u128) | ((b as u128) << 32u128) | (c as u128)) & 0xffff_ffffu128) == c as u128
    }) by (bit_vector);
}

fn key_of(o: [u32; DIM]) -> (r: u128)
    ensures
        r == key3(o[0], o[1], o[2]),
{
    ((o[0] as u128) << 64u128) | ((o[1] as u128) << 32u128) | (o[2] as u128)
}

/// The last position among the first `n` offsets of `s` that holds
/// `(x, y, z)`, if any.
pub open spec fn last_index_at(s: Seq<[u32; DIM]>, x: int, y: int, z: int, n: int) -> Option<int>
    decreases n,
{
    if n <= 0 {
        None
    } else if s[n - 1][0] == x && s[n - 1][1] == y && s[n - 1][2] == z {
        Some(n - 1)
    } else {
        last_index_at(s, x, y, z, n - 1)
    }
}

/// No offset has a coordinate beyond `u32::MAX`.
proof fn lemma_no_wide_offset(s: Seq<[u32; DIM]>, x: int, y: int, z: int, n: int)
    requires
        x > u32::MAX || y > u32::MAX || z > u32::MAX,
    ensures
        last_index_at(s, x, y, z, n) is None,
    decreases n,
{
    if n > 0 {
        lemma_no_wide_offset(s, x, y, z, n - 1);
    }
}

/// The position of `(x, y, z)` in `s` as a `usize`: the last one, if any.
pub open spec fn position_of(s: Seq<[u32; DIM]>, x: int, y: int, z: int) -> Option<usize> {
    match last_index_at(s, x, y, z, s.len() as int) {
        Some(k) => Some(k as usize),
        None => None,
    }
}

/// Among distinct offsets, each one is found at its own position.
pub proof fn lemma_position_of_distinct(s: Seq<[u32; DIM]>, k: int)
    requires
        0 <= k < s.len(),
        forall|a: int, b: int| 0 <= a < b < s.len() ==> #[trigger] s[a] != #[trigger] s[b],
    ensures
        position_of(s, s[k][0] as int, s[k][1] as int, s[k][2] as int) == Some(k as usize),
{
    lemma_last_index_distinct(s, k, s.len() as int);
}

proof fn lemma_last_index_distinct(s: Seq<[u32; DIM]>, k: int, n: int)
    requires
        0 <= k < n <= s.len(),
        forall|a: int, b: int| 0 <= a < b < s.len() ==> #[trigger] s[a] != #[trigger] s[b],
    ensures
        last_index_at(s, s[k][0] as int, s[k][1] as int, s[k][2] as int, n) == Some(k),
    decreases n,
{
    if n - 1 > k {
        lemma_last_index_distinct(s, k, n - 1);
        if s[n - 1][0] == s[k][0] && s[n - 1][1] == s[k][1] && s[n - 1][2] == s[k][2] {
            assert(s[k] =~= s[n - 1]);
        }
    }
}

/// The finite elements numbered in a well-formed tree are found again by
/// their offsets: element `k` of the offsets that `number_fem_leaves`
/// returns is at position `k`, which is what `find` answers for its offset.
pub proof fn lemma_element_lookup_round_trip(root: OctreeNode, depth: u32, k: int)
    requires
        root.wf(),
        0 <= k < leaf_keys(root, depth).len(),
    ensures
        position_of(offsets_of(leaf_keys(root, depth)), offsets_of(leaf_keys(root, depth))[k][0] as int,
            offsets_of(leaf_keys(root, depth))[k][1] as int, offsets_of(leaf_keys(root, depth))[k][2] as int) == Some(k as usize),
{
    lemma_leaf_offsets_distinct(root, depth);
    lemma_position_of_distinct(offsets_of(leaf_keys(root, depth)), k);
}

/// The shift of stencil position `k` (`0 <= k < 27`) along each axis, in
/// `{-1, 0, 1}`: the first axis changes slowest, the last fastest.
pub open spec fn stencil_shift(k: int) -> (int, int, int) {
    (k / 9 - 1, (k / 3) % 3 - 1, k % 3 - 1)
}

/// An element next to another one, with the shift that leads to it.
#[derive(Debug, Clone, Copy, PartialEq, Eq)]
pub struct Neighbor {
    pub index: usize,
    pub dx: isize,
    pub dy: isize,
    pub dz: isize,
}

/// The elements met at the first `k` stencil positions around offset `o`:
/// for each shift whose target lies in `[0, res)^3` and holds an element,
/// that element (its last position in `s`) and the shift.
pub open spec fn stencil_from(s: Seq<[u32; DIM]>, o: [u32; DIM], res: int, k: int) -> Seq<Neighbor>
    decreases k,
{
    if k <= 0 {
        Seq::empty()
    } else {
        let prev = stencil_from(s, o, res, k - 1);
        let (dx, dy, dz) = stencil_shift(k - 1);
        let x = o[0] + dx;
        let y = o[1] + dy;
        let z = o[2] + dz;
        if 0 <= x < res && 0 <= y < res && 0 <= z < res {
            match position_of(s, x, y, z) {
                Some(j) => prev.push(Neighbor { index: j, dx: dx as isize, dy: dy as isize, dz: dz as isize }),
                None => prev,
            }
        } else {
            prev
        }
    }
}

/// Where `position_of` finds `(x, y, z)`, the offset there is `(x, y, z)`
/// and no later offset is; where it finds nothing, no offset is `(x, y, z)`.
proof fn lemma_position_of_meaning(s: Seq<[u32; DIM]>, x: int, y: int, z: int, n: int)
    requires
        0 <= n <= s.len(),
    ensures
        match last_index_at(s, x, y, z, n) {
            Some(j) => 0 <= j < n && s[j][0] == x && s[j][1] == y && s[j][2] == z
                && forall|t: int| j < t < n ==> !(#[trigger] s[t][0] == x && s[t][1] == y && s[t][2] == z),
            None => forall|t: int| 0 <= t < n ==> !(#[trigger] s[t][0] == x && s[t][1] == y && s[t][2] == z),
        },
    decreases n,
{
    if n > 0 {
        lemma_position_of_meaning(s, x, y, z, n - 1);
    }
}

/// Stencil position `k` is the shift `(a, b, c)` with `k == 9(a+1) + 3(b+1) + (c+1)`.
proof fn lemma_stencil_shift_code(k: int)
    requires
        0 <= k < 27,
    ensures
        -1 <= stencil_shift(k).0 <= 1,
        -1 <= stencil_shift(k).1 <= 1,
        -1 <= stencil_shift(k).2 <= 1,
        9 * (stencil_shift(k).0 + 1) + 3 * (stencil_shift(k).1 + 1) + (stencil_shift(k).2 + 1) == k,
{
}

/// The stencil code of a neighbour's shift: `9(dx+1) + 3(dy+1) + (dz+1)`,
/// in `0..27`.
pub open spec fn shift_code(n: Neighbor) -> int {
    9 * (n.dx + 1) + 3 * (n.dy + 1) + (n.dz + 1)
}

/// The stencil of the first `k` positions: each neighbour's shift leads
/// from `o` to the element reported, inside the grid, and that element is
/// the last with its offset; the shifts come in increasing code order; and
/// every position below `k` whose target holds an element is reported.
proof fn lemma_stencil_prefix(s: Seq<[u32; DIM]>, o: [u32; DIM], res: int, k: int)
    requires
        0 <= k <= 27,
        s.len() <= usize::MAX,
    ensures
        forall|m: int| 0 <= m < stencil_from(s, o, res, k).len() ==> {
            let n = #[trigger] stencil_from(s, o, res, k)[m];
            &&& -1 <= n.dx <= 1 && -1 <= n.dy <= 1 && -1 <= n.dz <= 1
            &&& 0 <= shift_code(n) < k
            &&& n.index < s.len()
            &&& s[n.index as int][0] == o[0] + n.dx && s[n.index as int][1] == o[1] + n.dy && s[n.index as int][2] == o[2] + n.dz
            &&& 0 <= o[0] + n.dx < res && 0 <= o[1] + n.dy < res && 0 <= o[2] + n.dz < res
            &&& forall|t: int| n.index < t < s.len() ==> #[trigger] s[t] != s[n.index as int]
        },
        forall|a: int, b: int| 0 <= a < b < stencil_from(s, o, res, k).len()
            ==> shift_code(#[trigger] stencil_from(s, o, res, k)[a]) < shift_code(#[trigger] stencil_from(s, o, res, k)[b]),
        forall|c: int, t: int| #![trigger stencil_shift(c), s[t]] 0 <= c < k && 0 <= t < s.len() && {
            let (a, b, e) = stencil_shift(c);
            &&& 0 <= o[0] + a < res && 0 <= o[1] + b < res && 0 <= o[2] + e < res
            &&& s[t][0] == o[0] + a && s[t][1] == o[1] + b && s[t][2] == o[2] + e
        } ==> exists|m: int| 0 <= m < stencil_from(s, o, res, k).len() && shift_code(#[trigger] stencil_from(s, o, res, k)[m]) == c,
    decreases k,
{
    if k > 0 {
        lemma_stencil_prefix(s, o, res, k - 1);
        lemma_stencil_shift_code(k - 1);
        let prev = stencil_from(s, o, res, k - 1);
        let cur = stencil_from(s, o, res, k);
        let (dx, dy, dz) = stencil_shift(k - 1);
        let x = o[0] + dx;
        let y = o[1] + dy;
        let z = o[2] + dz;
        lemma_position_of_meaning(s, x, y, z, s.len() as int);
        if 0 <= x < res && 0 <= y < res && 0 <= z < res && position_of(s, x, y, z) is Some {
            let j = position_of(s, x, y, z)->0;
            let nb = Neighbor { index: j, dx: dx as isize, dy: dy as isize, dz: dz as isize };
            assert(cur == prev.push(nb));
            assert(shift_code(nb) == k - 1);
            let j0 = last_index_at(s, x, y, z, s.len() as int)->0;
            assert(j as int == j0);
            assert(s[j0][0] == x && s[j0][1] == y && s[j0][2] == z);
            assert forall|t: int| nb.index < t < s.len() implies #[trigger] s[t] != s[nb.index as int] by {
                if s[t] == s[j0] {
                    assert(s[t][0] == x && s[t][1] == y && s[t][2] == z);
                }
            }
            assert forall|m: int| 0 <= m < cur.len() implies {
                let n = #[trigger] cur[m];
                &&& -1 <= n.dx <= 1 && -1 <= n.dy <= 1 && -1 <= n.dz <= 1
                &&& 0 <= shift_code(n) < k
                &&& n.index < s.len()
                &&& s[n.index as int][0] == o[0] + n.dx && s[n.index as int][1] == o[1] + n.dy && s[n.index as int][2] == o[2] + n.dz
                &&& 0 <= o[0] + n.dx < res && 0 <= o[1] + n.dy < res && 0 <= o[2] + n.dz < res
                &&& forall|t: int| n.index < t < s.len() ==> #[trigger] s[t] != s[n.index as int]
            } by {
                if m < prev.len() {
                    assert(cur[m] == prev[m]);
                }
            }
            assert forall|a: int, b: int| 0 <= a < b < cur.len() implies shift_code(#[trigger] cur[a]) < shift_code(#[trigger] cur[b]) by {
                assert(cur[a] == prev[a]);
                if b < prev.len() {
                    assert(cur[b] == prev[b]);
                }
            }
            assert forall|c: int, t: int| #![trigger stencil_shift(c), s[t]] 0 <= c < k && 0 <= t < s.len() && {
                let (a, b, e) = stencil_shift(c);
                &&& 0 <= o[0] + a < res && 0 <= o[1] + b < res && 0 <= o[2] + e < res
                &&& s[t][0] == o[0] + a && s[t][1] == o[1] + b && s[t][2] == o[2] + e
            } implies exists|m: int| 0 <= m < cur.len() && shift_code(#[trigger] cur[m]) == c by {
                if c < k - 1 {
                    let m = choose|m: int| 0 <= m < prev.len() && shift_code(#[trigger] prev[m]) == c;
                    assert(cur[m] == prev[m]);
                } else {
                    assert(cur[prev.len() as int] == nb);
                }
            }
        } else {
            assert(cur == prev);
            assert forall|c: int, t: int| #![trigger stencil_shift(c), s[t]] 0 <= c < k && 0 <= t < s.len() && {
                let (a, b, e) = stencil_shift(c);
                &&& 0 <= o[0] + a < res && 0 <= o[1] + b < res && 0 <= o[2] + e < res
                &&& s[t][0] == o[0] + a && s[t][1] == o[1] + b && s[t][2] == o[2] + e
            } implies exists|m: int| 0 <= m < cur.len() && shift_code(#[trigger] cur[m]) == c by {
                if c == k - 1 {
                    assert(s[t][0] == x && s[t][1] == y && s[t][2] == z);
                }
            }
        }
    }
}

/// What `neighbors(i, res)` reports around an element at offset `o`, stated
/// for every offset list `s`: each neighbour's shift is in `{-1, 0, 1}` on
/// every axis and leads from `o`, inside the grid `[0, res)^3`, to the
/// offset of the element reported, which is the last element with that
/// offset; the shifts come in stencil order (each at most once); and every
/// shift whose target lies in the grid and holds an element is reported.
/// (`s` is as long as a vector can be.)
pub proof fn lemma_neighbors_meaning(s: Seq<[u32; DIM]>, o: [u32; DIM], res: int)
    requires
        s.len() <= usize::MAX,
    ensures
        forall|m: int| 0 <= m < stencil_from(s, o, res, 27).len() ==> {
            let n = #[trigger] stencil_from(s, o, res, 27)[m];
            &&& -1 <= n.dx <= 1 && -1 <= n.dy <= 1 && -1 <= n.dz <= 1
            &&& n.index < s.len()
            &&& s[n.index as int][0] == o[0] + n.dx && s[n.index as int][1] == o[1] + n.dy && s[n.index as int][2] == o[2] + n.dz
            &&& 0 <= o[0] + n.dx < res && 0 <= o[1] + n.dy < res && 0 <= o[2] + n.dz < res
            &&& forall|t: int| n.index < t < s.len() ==> #[trigger] s[t] != s[n.index as int]
        },
        forall|a: int, b: int| 0 <= a < b < stencil_from(s, o, res, 27).len()
            ==> shift_code(#[trigger] stencil_from(s, o, res, 27)[a]) < shift_code(#[trigger] stencil_from(s, o, res, 27)[b]),
        forall|t: int| 0 <= t < s.len()
            && -1 <= s[t][0] - o[0] <= 1 && -1 <= s[t][1] - o[1] <= 1 && -1 <= s[t][2] - o[2] <= 1
            && s[t][0] < res && s[t][1] < res && s[t][2] < res
            ==> exists|m: int| 0 <= m < stencil_from(s, o, res, 27).len() && {
                let n = #[trigger] stencil_from(s, o, res, 27)[m];
                n.dx == (#[trigger] s[t])[0] - o[0] && n.dy == s[t][1] - o[1] && n.dz == s[t][2] - o[2]
            },
{
    lemma_stencil_prefix(s, o, res, 27);
    let r = stencil_from(s, o, res, 27);
    assert forall|t: int| 0 <= t < s.len()
        && -1 <= s[t][0] - o[0] <= 1 && -1 <= s[t][1] - o[1] <= 1 && -1 <= s[t][2] - o[2] <= 1
        && s[t][0] < res && s[t][1] < res && s[t][2] < res
        implies exists|m: int| 0 <= m < r.len() && {
            let n = #[trigger] r[m];
            n.dx == (#[trigger] s[t])[0] - o[0] && n.dy == s[t][1] - o[1] && n.dz == s[t][2] - o[2]
        } by {
        let dx = s[t][0] - o[0];
        let dy = s[t][1] - o[1];
        let dz = s[t][2] - o[2];
        let c = 9 * (dx + 1) + 3 * (dy + 1) + (dz + 1);
        lemma_stencil_shift_code(c);
        assert(stencil_shift(c) == (dx, dy, dz));
        let m = choose|m: int| 0 <= m < r.len() && shift_code(#[trigger] r[m]) == c;
        let n = r[m];
        assert(-1 <= n.dx <= 1 && -1 <= n.dy <= 1 && -1 <= n.dz <= 1);
        assert(n.dx == dx && n.dy == dy && n.dz == dz);
    }
}

/// The finite elements' offsets, numbered by position, with a table that
/// finds an element from its offset.
pub struct FemIndex {
    offsets: Vec<[u32; DIM]>,
    lookup: HashMap<u128, usize>,
}

impl FemIndex {
    /// The offsets, element by element.
    pub closed spec fn spec_offsets(&self) -> Seq<[u32; DIM]> {
        self.offsets@
    }

    /// The table maps the key of each offset to its last position.
    pub closed spec fn wf(&self) -> bool {
        forall|x: u32, y: u32, z: u32|
            #![trigger key3(x, y, z)]
            {
                &&& self.lookup@.dom().contains(key3(x, y, z)) <==> last_index_at(self.offsets@, x as int, y as int, z as int, self.offsets@.len() as int) is Some
                &&& self.lookup@.dom().contains(key3(x, y, z)) ==> self.lookup@[key3(x, y, z)] == last_index_at(self.offsets@, x as int, y as int, z as int, self.offsets@.len() as int)->0
            }
    }

    /// Index the elements whose offsets are `offsets`, element `k` at
    /// `offsets[k]`.
    pub fn new(offsets: Vec<[u32; DIM]>) -> (r: Self)
        ensures
            r.wf(),
            r.spec_offsets() == offsets@,
    {
        broadcast use vstd::std_specs::hash::group_hash_axioms;
        let mut lookup: HashMap<u128, usize> = HashMap::new();
        let mut k: usize = 0;
        while k < offsets.len()
            invariant
                k <= offsets@.len(),
                forall|x: u32, y: u32, z: u32|
                    #![trigger key3(x, y, z)]
                    {
                        &&& lookup@.dom().contains(key3(x, y, z)) <==> last_index_at(offsets@, x as int, y as int, z as int, k as int) is Some
                        &&& lookup@.dom().contains(key3(x, y, z)) ==> lookup@[key3(x, y, z)] == last_index_at(offsets@, x as int, y as int, z as int, k as int)->0
                    },
            decreases offsets@.len() - k,
        {
            let o = offsets[k];
            let key = key_of(o);
            let ghost before = lookup@;
            lookup.insert(key, k);
            proof {
                assert forall|x: u32, y: u32, z: u32|
                    #![trigger key3(x, y, z)]
                    {
                        &&& lookup@.dom().contains(key3(x, y, z)) <==> last_index_at(offsets@, x as int, y as int, z as int, k + 1) is Some
                        &&& lookup@.dom().contains(key3(x, y, z)) ==> lookup@[key3(x, y, z)] == last_index_at(offsets@, x as int, y as int, z as int, k + 1)->0
                    } by {
                    lemma_key3_injective(x, y, z, o[0], o[1], o[2]);
                }
            }
            k += 1;
        }
        FemIndex { offsets, lookup }
    }

    /// Number of elements.
    pub fn len(&self) -> (r: usize)
        ensures
            r == self.spec_offsets().len(),
    {
        self.offsets.len()
    }

    /// The offset of element `k`.
    pub fn offset(&self, k: usize) -> (r: [u32; DIM])
        requires
            k < self.spec_offsets().len(),
        ensures
            r == self.spec_offsets()[k as int],
    {
        self.offsets[k]
    }

    /// The element at offset `o`: its last position, or `None` when no
    /// element has that offset.
    pub fn find(&self, o: [u32; DIM]) -> (r: Option<usize>)
        requires
            self.wf(),
        ensures
            r == position_of(self.spec_offsets(), o[0] as int, o[1] as int, o[2] as int),
    {
        broadcast use vstd::std_specs::hash::group_hash_axioms;
        let key = key_of(o);
        proof {
            assert(key == key3(o[0], o[1], o[2]));
        }
        match self.lookup.get(&key) {
            Some(j) => Some(*j),
            None => None,
        }
    }

    /// The elements around element `i` in the 3x3x3 stencil, inside the grid
    /// `[0, res)^3`, in stencil order, each with its shift.
    pub fn neighbors(&self, i: usize, res: usize) -> (r: Vec<Neighbor>)
        requires
            self.wf(),
            i < self.spec_offsets().len(),
        ensures
            r@ == stencil_from(self.spec_offsets(), self.spec_offsets()[i as int], res as int, 27),
            forall|m: int| 0 <= m < r@.len() ==> {
                let n = #[trigger] r@[m];
                let s = self.spec_offsets();
                let o = s[i as int];
                &&& -1 <= n.dx <= 1 && -1 <= n.dy <= 1 && -1 <= n.dz <= 1
                &&& n.index < s.len()
                &&& s[n.index as int][0] == o[0] + n.dx && s[n.index as int][1] == o[1] + n.dy && s[n.index as int][2] == o[2] + n.dz
                &&& 0 <= o[0] + n.dx < res && 0 <= o[1] + n.dy < res && 0 <= o[2] + n.dz < res
            },
    {
        let count = self.offsets.len();
        proof {
            assert(self.offsets@.len() == count);
            lemma_neighbors_meaning(self.offsets@, self.offsets@[i as int], res as int);
        }
        let o = self.offsets[i];
        let mut out: Vec<Neighbor> = Vec::new();
        let mut k: usize = 0;
        while k < 27
            invariant
                k <= 27,
                self.wf(),
                o == self.spec_offsets()[i as int],
                out@ == stencil_from(self.spec_offsets(), o, res as int, k as int),
            decreases 27 - k,
        {
            let dx: isize = (k / 9) as isize - 1;
            let dy: isize = ((k / 3) % 3) as isize - 1;
            let dz: isize = (k % 3) as isize - 1;
            let x: i128 = o[0] as i128 + dx as i128;
            let y: i128 = o[1] as i128 + dy as i128;
            let z: i128 = o[2] as i128 + dz as i128;
            if 0 <= x && x < res as i128 && 0 <= y && y < res as i128 && 0 <= z && z < res as i128 {
                if x <= u32::MAX as i128 && y <= u32::MAX as i128 && z <= u32::MAX as i128 {
                    let t: [u32; DIM] = [x as u32, y as u32, z as u32];
                    match self.find(t) {
                        Some(j) => {
                            out.push(Neighbor { index: j, dx, dy, dz });
                        },
                        None => {},
                    }
                } else {
                    proof {
                        lemma_no_wide_offset(self.spec_offsets(), x as int, y as int, z as int, self.spec_offsets().len() as int);
                    }
                }
            }
            k += 1;
        }
        out
    }
}

} // verus!
