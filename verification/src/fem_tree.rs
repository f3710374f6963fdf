//! Integer side of the FEM tree: adaptive refinement of the octree from the
//! grid cells that hold sample points, and the numbering of the finite
//! elements at the finest depth.
use vstd::prelude::*;
use vstd::arithmetic::power2::{pow2, lemma2_to64, lemma_pow2_strictly_increases, lemma_pow2_unfold, lemma_pow2_pos};
use vstd::arithmetic::div_mod::lemma_div_denominator;
use std::collections::HashMap;
use crate::octree::{OctreeNode, Octree, NodeInfo, DIM, MAX_DEPTH, child_bit, info_of, flags};
use crate::octree::laws::{subtree_nodes, lemma_subtree_node_cases};

verus! {

/// Packs three coordinates below `2^21` into one key, 21 bits each.
pub open spec fn pack_spec(x: u32, y: u32, z: u32) -> u64 {
    (x as u64) | ((y as u64) << 21u64) | ((z as u64) << 42u64)
}

/// Distinct coordinate triples below `2^21` have distinct keys.
proof fn lemma_pack_injective(x: u32, y: u32, z: u32, a: u32, b: u32, c: u32)
    requires
        x < 0x20_0000,
        y < 0x20_0000,
        z < 0x20_0000,
        a < 0x20_0000,
        b < 0x20_0000,
        c < 0x20_0000,
    ensures
        pack_spec(x, y, z) == pack_spec(a, b, c) <==> (x == a && y == b && z == c),
{
    let p = pack_spec(x, y, z);
    let q = pack_spec(a, b, c);
    assert(x < 0x20_0000 && y < 0x20_0000 && z < 0x20_0000 ==> {
        &&& (((x as u64) | ((y as u64) << 21u64) | ((z as u64) << 42u64)) & 0x1f_ffffu64) == x as u64
        &&& ((((x as u64) | ((y as u64) << 21u64) | ((z as u64) << 42u64)) >> 21u64) & 0x1f_ffffu64) == y as u64
        &&& (((x as u64) | ((y as u64) << 21u64) | ((z as u64) << 42u64)) >> 42u64) == z as u64
    }) by (bit_vector);
    assert(a < 0x20_0000 && b < 0x20_0000 && c < 0x20_0000 ==> {
        &&& (((a as u64) | ((b as u64) << 21u64) | ((c as u64) << 42u64)) & 0x1f_ffffu64) == a as u64
        &&& ((((a as u64) | ((b as u64) << 21u64) | ((c as u64) << 42u64)) >> 21u64) & 0x1f_ffffu64) == b as u64
        &&& (((a as u64) | ((b as u64) << 21u64) | ((c as u64) << 42u64)) >> 42u64) == c as u64
    }) by (bit_vector);
}

fn pack(x: u32, y: u32, z: u32) -> (r: u64)
    ensures
        r == pack_spec(x, y, z),
{
    (x as u64) | ((y as u64) << 21u64) | ((z as u64) << 42u64)
}

/// Holds of the cells that lie inside the node at offset `(x, y, z)`,
/// `shift` depths above the cells' depth.
pub open spec fn in_node(shift: u32, x: u32, y: u32, z: u32) -> spec_fn([u32; DIM]) -> bool {
    |c: [u32; DIM]| (c[0] >> shift) == x && (c[1] >> shift) == y && (c[2] >> shift) == z
}

/// Holds of the cells whose key, `shift` depths up, is `key`.
pub open spec fn at_key(shift: u32, key: u64) -> spec_fn([u32; DIM]) -> bool {
    |c: [u32; DIM]| pack_spec(c[0] >> shift, c[1] >> shift, c[2] >> shift) == key
}

/// Number of sample cells (at depth `max_depth`) inside the node at `depth`
/// with `offset`.
pub open spec fn sample_count(cells: Seq<[u32; DIM]>, max_depth: u32, depth: u32, offset: [u32; DIM]) -> nat {
    cells.filter(in_node((max_depth - depth) as u32, offset[0], offset[1], offset[2])).len()
}

/// Every cell lies in the grid of depth `max_depth`.
pub open spec fn cells_in_grid(cells: Seq<[u32; DIM]>, max_depth: u32) -> bool {
    forall|i: int, d: int| 0 <= i < cells.len() && 0 <= d < DIM ==> #[trigger] cells[i][d] < pow2(max_depth as nat)
}

/// A node is split when it is shallower than `max_depth` and holds more
/// than `threshold` samples.
pub open spec fn is_split(node: OctreeNode, cells: Seq<[u32; DIM]>, max_depth: u32, threshold: int) -> bool {
    node.depth < max_depth && sample_count(cells, max_depth, node.depth, node.offset) > threshold
}

/// `node` is the `i`-th child of a node at `depth` with `offset`, made by
/// sample refinement: one depth finer, offsets doubled plus the child's bits,
/// default data, and itself refined by the samples.
pub open spec fn is_sampled_child(
    node: OctreeNode,
    depth: u32,
    offset: [u32; DIM],
    i: int,
    cells: Seq<[u32; DIM]>,
    max_depth: u32,
    threshold: int,
) -> bool
    decreases node, 1nat,
{
    &&& node.depth == depth + 1
    &&& forall|d: int| 0 <= d < DIM ==> #[trigger] node.offset[d] == 2 * offset[d] + child_bit(i, d)
    &&& node.data.node_index == -1
    &&& node.data.flags == 0
    &&& is_sampled_tree(node, cells, max_depth, threshold)
}

/// Every node of the subtree at `node` is split exactly when `is_split`
/// holds of it, into eight children made by sample refinement.
pub open spec fn is_sampled_tree(node: OctreeNode, cells: Seq<[u32; DIM]>, max_depth: u32, threshold: int) -> bool
    decreases node, 0nat,
{
    if !is_split(node, cells, max_depth, threshold) {
        node.children is None
    } else {
        match node.children {
            None => false,
            Some(c) => {
                &&& c@.len() == 8
                &&& forall|i: int| 0 <= i < 8 ==> is_sampled_child(#[trigger] c@[i], node.depth, node.offset, i, cells, max_depth, threshold)
            },
        }
    }
}

/// `new` is `old` refined by the samples: a node that is not split is
/// unchanged; a split one keeps its depth, offset and data and has eight
/// children: its own, each refined in turn, or, if it was a leaf, new ones
/// refined by the samples.
pub open spec fn sample_refined(old: OctreeNode, new: OctreeNode, cells: Seq<[u32; DIM]>, max_depth: u32, threshold: int) -> bool
    decreases new,
{
    if !is_split(old, cells, max_depth, threshold) {
        new == old
    } else {
        &&& new.depth == old.depth
        &&& new.offset == old.offset
        &&& new.data == old.data
        &&& match new.children {
            None => false,
            Some(c) => {
                &&& c@.len() == 8
                &&& forall|i: int| 0 <= i < 8 ==> match old.children {
                    Some(oc) => sample_refined(oc@[i], #[trigger] c@[i], cells, max_depth, threshold),
                    None => is_sampled_child(c@[i], old.depth, old.offset, i, cells, max_depth, threshold),
                }
            },
        }
    }
}

/// The count a map gives a key: its entry, or 0 without one.
pub open spec fn count_of(m: Map<u64, u64>, key: u64) -> nat {
    if m.contains_key(key) { m[key] as nat } else { 0 }
}

/// `m` counts, for every key, the cells whose key `shift` depths up is it.
pub open spec fn counts_cells(m: Map<u64, u64>, cells: Seq<[u32; DIM]>, shift: u32) -> bool {
    forall|key: u64| #[trigger] count_of(m, key) == cells.filter(at_key(shift, key)).len()
}

/// Count the cells of each node `shift` depths above the cells, by key.
fn count_cells(cells: &[[u32; DIM]], shift: u32) -> (m: HashMap<u64, u64>)
    requires
        shift < 32,
    ensures
        counts_cells(m@, cells@, shift),
{
    broadcast use vstd::std_specs::hash::group_hash_axioms;
    let mut m: HashMap<u64, u64> = HashMap::new();
    let mut i: usize = 0;
    proof {
        assert forall|key: u64| #[trigger] count_of(m@, key) == cells@.subrange(0, 0).filter(at_key(shift, key)).len() by {
            reveal(Seq::filter);
        }
    }
    while i < cells.len()
        invariant
            i <= cells@.len(),
            shift < 32,
            forall|key: u64| #[trigger] count_of(m@, key) == cells@.subrange(0, i as int).filter(at_key(shift, key)).len(),
        decreases cells@.len() - i,
    {
        let c = cells[i];
        let key = pack(c[0] >> shift, c[1] >> shift, c[2] >> shift);
        let old_count: u64 = match m.get(&key) {
            Some(v) => *v,
            None => 0,
        };
        proof {
            assert(old_count == count_of(m@, key));
            cells@.subrange(0, i as int).lemma_filter_len(at_key(shift, key));
        }
        let ghost before = m@;
        m.insert(key, old_count + 1);
        proof {
            assert(cells@.subrange(0, i + 1) =~= cells@.subrange(0, i as int).push(c));
            assert forall|k: u64| #[trigger] count_of(m@, k) == cells@.subrange(0, i + 1).filter(at_key(shift, k)).len() by {
                cells@.subrange(0, i as int).lemma_filter_push(c, at_key(shift, k));
                if k != key {
                    assert(count_of(m@, k) == count_of(before, k));
                }
            }
        }
        i += 1;
    }
    proof {
        assert(cells@.subrange(0, i as int) =~= cells@);
    }
    m
}

/// Filtering by two predicates that agree on every element gives the same
/// sequence.
proof fn lemma_filter_congruent(s: Seq<[u32; DIM]>, p: spec_fn([u32; DIM]) -> bool, q: spec_fn([u32; DIM]) -> bool)
    requires
        forall|i: int| 0 <= i < s.len() ==> p(#[trigger] s[i]) == q(s[i]),
    ensures
        s.filter(p) == s.filter(q),
    decreases s.len(),
{
    reveal(Seq::filter);
    if s.len() > 0 {
        lemma_filter_congruent(s.drop_last(), p, q);
    }
}

/// Inside the grid, the key count of a node's offset is its sample count.
proof fn lemma_count_is_sample_count(m: Map<u64, u64>, cells: Seq<[u32; DIM]>, max_depth: u32, depth: u32, offset: [u32; DIM])
    requires
        max_depth <= MAX_DEPTH,
        depth <= max_depth,
        cells_in_grid(cells, max_depth),
        forall|d: int| 0 <= d < DIM ==> #[trigger] offset[d] < pow2(depth as nat),
        counts_cells(m, cells, (max_depth - depth) as u32),
    ensures
        count_of(m, pack_spec(offset[0], offset[1], offset[2])) == sample_count(cells, max_depth, depth, offset),
{
    let shift = (max_depth - depth) as u32;
    let key = pack_spec(offset[0], offset[1], offset[2]);
    lemma2_to64();
    if max_depth < 21 {
        lemma_pow2_strictly_increases(max_depth as nat, 21);
    }
    if depth < 21 {
        lemma_pow2_strictly_increases(depth as nat, 21);
    }
    assert forall|i: int| 0 <= i < cells.len() implies at_key(shift, key)(#[trigger] cells[i]) == in_node(shift, offset[0], offset[1], offset[2])(cells[i]) by {
        let c = cells[i];
        assert(c[0] < pow2(max_depth as nat));
        assert(c[1] < pow2(max_depth as nat));
        assert(c[2] < pow2(max_depth as nat));
        let (a, b, e) = (c[0], c[1], c[2]);
        assert((a >> shift) <= a && (b >> shift) <= b && (e >> shift) <= e) by (bit_vector);
        assert(offset[0] < pow2(depth as nat) && offset[1] < pow2(depth as nat) && offset[2] < pow2(depth as nat));
        lemma_pack_injective(a >> shift, b >> shift, e >> shift, offset[0], offset[1], offset[2]);
    }
    lemma_filter_congruent(cells, at_key(shift, key), in_node(shift, offset[0], offset[1], offset[2]));
}

/// Refine the subtree at `node` by the sample counts `counts[d]` of each
/// depth `d`.
fn refine_by_counts(node: &mut OctreeNode, counts: &Vec<HashMap<u64, u64>>, cells: &[[u32; DIM]], max_depth: u32, threshold: i64)
    requires
        old(node).wf(),
        max_depth <= MAX_DEPTH,
        cells_in_grid(cells@, max_depth),
        counts@.len() == max_depth + 1,
        forall|d: int| 0 <= d <= max_depth ==> counts_cells(#[trigger] counts@[d]@, cells@, (max_depth - d) as u32),
    ensures
        sample_refined(*old(node), *final(node), cells@, max_depth, threshold as int),
        final(node).wf(),
    decreases max_depth - old(node).depth,
{
    broadcast use vstd::std_specs::hash::group_hash_axioms;
    if node.depth >= max_depth {
        return;
    }
    let key = pack(node.offset[0], node.offset[1], node.offset[2]);
    let cnt: u64 = match counts[node.depth as usize].get(&key) {
        Some(v) => *v,
        None => 0,
    };
    proof {
        assert(counts_cells(counts@[node.depth as int]@, cells@, (max_depth - node.depth) as u32));
        lemma_count_is_sample_count(counts@[node.depth as int]@, cells@, max_depth, node.depth, node.offset);
    }
    if threshold >= 0 && cnt <= threshold as u64 {
        return;
    }
    let ghost old_node = *node;
    proof {
        lemma2_to64();
        assert forall|d: int| 0 <= d < DIM implies #[trigger] node.offset[d] < 0x8000_0000 by {
            assert(node.offset[d] < pow2(node.depth as nat));
            lemma_pow2_strictly_increases(node.depth as nat, 31);
        }
    }
    node.init_children();
    let ghost mid = *node;
    let mut children = node.children.take().unwrap();
    let mut i: usize = 0;
    while i < children.len()
        invariant
            children@.len() == 8,
            0 <= i <= 8,
            old_node.depth < max_depth,
            old_node.depth == old(node).depth,
            is_split(old_node, cells@, max_depth, threshold as int),
            max_depth <= MAX_DEPTH,
            cells_in_grid(cells@, max_depth),
            counts@.len() == max_depth + 1,
            forall|d: int| 0 <= d <= max_depth ==> counts_cells(#[trigger] counts@[d]@, cells@, (max_depth - d) as u32),
            mid.wf(),
            mid.depth == old_node.depth,
            mid.offset == old_node.offset,
            mid.children is Some,
            mid.children->0@.len() == 8,
            old_node.children is Some ==> mid.children == old_node.children,
            old_node.children is None ==> forall|k: int| 0 <= k < 8 ==> crate::octree::is_fresh_child(#[trigger] mid.children->0@[k], old_node.depth, old_node.offset, k),
            forall|k: int| i <= k < 8 ==> children@[k] == mid.children->0@[k],
            forall|k: int| 0 <= k < i ==> sample_refined(mid.children->0@[k], #[trigger] children@[k], cells@, max_depth, threshold as int),
            forall|k: int| 0 <= k < i ==> (#[trigger] children@[k]).wf(),
        decreases 8 - i,
    {
        assert(mid.children->0@[i as int].wf());
        assert(children@[i as int].depth == old_node.depth + 1);
        refine_by_counts(&mut children[i], counts, cells, max_depth, threshold);
        i += 1;
    }
    node.children = Some(children);
    proof {
        assert forall|k: int| 0 <= k < 8 implies match old_node.children {
            Some(oc) => sample_refined(oc@[k], #[trigger] children@[k], cells@, max_depth, threshold as int),
            None => is_sampled_child(children@[k], old_node.depth, old_node.offset, k, cells@, max_depth, threshold as int),
        } by {
            if old_node.children is None {
                let f = mid.children->0@[k];
                assert(crate::octree::is_fresh_child(f, old_node.depth, old_node.offset, k));
                assert(sample_refined(f, children@[k], cells@, max_depth, threshold as int));
            }
        }
    }
}

/// In a tree refined by the samples, every node has children exactly when
/// it is split, and then eight.
proof fn lemma_sampled_nodes(node: OctreeNode, cells: Seq<[u32; DIM]>, max_depth: u32, threshold: int)
    requires
        is_sampled_tree(node, cells, max_depth, threshold),
    ensures
        forall|m: OctreeNode| #[trigger] subtree_nodes(node).contains(m) ==> {
            &&& (m.children is Some) == is_split(m, cells, max_depth, threshold)
            &&& m.children is Some ==> m.children->0@.len() == 8
        },
    decreases node,
{
    if is_split(node, cells, max_depth, threshold) {
        let c = node.children->0;
        assert forall|i: int| #![trigger c@[i]] 0 <= i < c@.len() implies forall|m: OctreeNode| #[trigger] subtree_nodes(c@[i]).contains(m) ==> {
            &&& (m.children is Some) == is_split(m, cells, max_depth, threshold)
            &&& m.children is Some ==> m.children->0@.len() == 8
        } by {
            assert(is_sampled_child(c@[i], node.depth, node.offset, i, cells, max_depth, threshold));
            assert(decreases_to!(node => c@[i]));
            lemma_sampled_nodes(c@[i], cells, max_depth, threshold);
        }
    }
    assert forall|m: OctreeNode| #[trigger] subtree_nodes(node).contains(m) implies {
        &&& (m.children is Some) == is_split(m, cells, max_depth, threshold)
        &&& m.children is Some ==> m.children->0@.len() == 8
    } by {
        lemma_subtree_node_cases(node, m);
    }
}

/// Refining a single leaf by the samples splits exactly the crowded nodes:
/// in the tree it grows, a node at `(x, y, z)` and depth `d` has children
/// exactly when `d < max_depth` and more than `threshold` sample cells `c`
/// have `c >> (max_depth - d) == (x, y, z)` on every axis; it then has eight.
pub proof fn lemma_refine_from_leaf_splits_crowded_nodes(
    old: OctreeNode,
    new: OctreeNode,
    cells: Seq<[u32; DIM]>,
    max_depth: u32,
    threshold: int,
)
    requires
        old.children is None,
        sample_refined(old, new, cells, max_depth, threshold),
    ensures
        forall|m: OctreeNode| #[trigger] subtree_nodes(new).contains(m) ==> {
            &&& (m.children is Some) == (m.depth < max_depth && cells.filter(|c: [u32; DIM]|
                    (c[0] >> ((max_depth - m.depth) as u32)) == m.offset[0]
                    && (c[1] >> ((max_depth - m.depth) as u32)) == m.offset[1]
                    && (c[2] >> ((max_depth - m.depth) as u32)) == m.offset[2]).len() > threshold)
            &&& m.children is Some ==> m.children->0@.len() == 8
        },
{
    if is_split(old, cells, max_depth, threshold) {
        let c = new.children->0;
        assert forall|i: int| 0 <= i < 8 implies is_sampled_child(#[trigger] c@[i], new.depth, new.offset, i, cells, max_depth, threshold) by {}
    }
    assert(is_sampled_tree(new, cells, max_depth, threshold));
    lemma_sampled_nodes(new, cells, max_depth, threshold);
    assert forall|m: OctreeNode| #[trigger] subtree_nodes(new).contains(m) implies {
        &&& (m.children is Some) == (m.depth < max_depth && cells.filter(|c: [u32; DIM]|
                (c[0] >> ((max_depth - m.depth) as u32)) == m.offset[0]
                && (c[1] >> ((max_depth - m.depth) as u32)) == m.offset[1]
                && (c[2] >> ((max_depth - m.depth) as u32)) == m.offset[2]).len() > threshold)
        &&& m.children is Some ==> m.children->0@.len() == 8
    } by {
        let f = |c: [u32; DIM]|
            (c[0] >> ((max_depth - m.depth) as u32)) == m.offset[0]
            && (c[1] >> ((max_depth - m.depth) as u32)) == m.offset[1]
            && (c[2] >> ((max_depth - m.depth) as u32)) == m.offset[2];
        assert(in_node((max_depth - m.depth) as u32, m.offset[0], m.offset[1], m.offset[2]) =~= f);
    }
}

/// Filtering by a weaker predicate keeps at least as many elements.
proof fn lemma_filter_len_mono(s: Seq<[u32; DIM]>, p: spec_fn([u32; DIM]) -> bool, q: spec_fn([u32; DIM]) -> bool)
    requires
        forall|i: int| 0 <= i < s.len() && p(#[trigger] s[i]) ==> q(s[i]),
    ensures
        s.filter(p).len() <= s.filter(q).len(),
    decreases s.len(),
{
    reveal(Seq::filter);
    if s.len() > 0 {
        lemma_filter_len_mono(s.drop_last(), p, q);
    }
}

/// The cells inside a child lie inside its parent.
proof fn lemma_child_cells_in_parent(c: u32, shift: u32, child: u32, parent: u32, bit: int)
    requires
        shift < 31,
        0 <= bit <= 1,
        child == 2 * parent + bit,
        (c >> shift) == child,
    ensures
        (c >> ((shift + 1) as u32)) == parent,
{
    assert((c >> shift) >> 1u32 == c >> ((shift + 1) as u32)) by (bit_vector)
        requires shift < 31;
    assert(child >> 1u32 == child / 2) by (bit_vector);
}

/// In a well-formed subtree whose root is not crowded, no node shallower
/// than `max_depth` is crowded: a child holds no more samples than its parent.
proof fn lemma_uncrowded_below(node: OctreeNode, cells: Seq<[u32; DIM]>, max_depth: u32, threshold: int)
    requires
        node.wf(),
        max_depth <= MAX_DEPTH,
        !is_split(node, cells, max_depth, threshold),
    ensures
        forall|m: OctreeNode| #[trigger] subtree_nodes(node).contains(m) ==> !is_split(m, cells, max_depth, threshold),
    decreases node,
{
    if node.children is Some {
        let c = node.children->0;
        assert forall|i: int| #![trigger c@[i]] 0 <= i < c@.len() implies
            forall|m: OctreeNode| #[trigger] subtree_nodes(c@[i]).contains(m) ==> !is_split(m, cells, max_depth, threshold) by {
            let ch = c@[i];
            if is_split(ch, cells, max_depth, threshold) {
                let sc = (max_depth - ch.depth) as u32;
                let sp = (max_depth - node.depth) as u32;
                assert(sp == sc + 1);
                let pc = in_node(sc, ch.offset[0], ch.offset[1], ch.offset[2]);
                let pp = in_node(sp, node.offset[0], node.offset[1], node.offset[2]);
                assert forall|j: int| 0 <= j < cells.len() && pc(#[trigger] cells[j]) implies pp(cells[j]) by {
                    let x = cells[j];
                    lemma_child_cells_in_parent(x[0], sc, ch.offset[0], node.offset[0], child_bit(i, 0));
                    lemma_child_cells_in_parent(x[1], sc, ch.offset[1], node.offset[1], child_bit(i, 1));
                    lemma_child_cells_in_parent(x[2], sc, ch.offset[2], node.offset[2], child_bit(i, 2));
                }
                lemma_filter_len_mono(cells, pc, pp);
            }
            assert(decreases_to!(node => c@[i]));
            lemma_uncrowded_below(ch, cells, max_depth, threshold);
        }
    }
    assert forall|m: OctreeNode| #[trigger] subtree_nodes(node).contains(m) implies !is_split(m, cells, max_depth, threshold) by {
        lemma_subtree_node_cases(node, m);
    }
}

/// Refinement by the samples splits every crowded node: in the tree it
/// leaves, a node shallower than `max_depth` with more than `threshold`
/// samples has eight children, whatever the tree held before.
proof fn lemma_sample_refined_splits_crowded(old: OctreeNode, new: OctreeNode, cells: Seq<[u32; DIM]>, max_depth: u32, threshold: int)
    requires
        old.wf(),
        max_depth <= MAX_DEPTH,
        sample_refined(old, new, cells, max_depth, threshold),
    ensures
        forall|m: OctreeNode| #[trigger] subtree_nodes(new).contains(m) && is_split(m, cells, max_depth, threshold)
            ==> m.children is Some && m.children->0@.len() == 8,
    decreases new,
{
    if !is_split(old, cells, max_depth, threshold) {
        lemma_uncrowded_below(old, cells, max_depth, threshold);
    } else {
        let c = new.children->0;
        assert forall|i: int| #![trigger c@[i]] 0 <= i < c@.len() implies
            forall|m: OctreeNode| #[trigger] subtree_nodes(c@[i]).contains(m) && is_split(m, cells, max_depth, threshold)
                ==> m.children is Some && m.children->0@.len() == 8 by {
            assert(decreases_to!(new => c@[i]));
            match old.children {
                Some(oc) => {
                    assert(oc@[i].wf());
                    lemma_sample_refined_splits_crowded(oc@[i], c@[i], cells, max_depth, threshold);
                },
                None => {
                    assert(is_sampled_child(c@[i], old.depth, old.offset, i, cells, max_depth, threshold));
                    lemma_sampled_nodes(c@[i], cells, max_depth, threshold);
                },
            }
        }
        assert forall|m: OctreeNode| #[trigger] subtree_nodes(new).contains(m) && is_split(m, cells, max_depth, threshold)
            implies m.children is Some && m.children->0@.len() == 8 by {
            lemma_subtree_node_cases(new, m);
        }
    }
}

/// Refinement by the samples splits every crowded node, whatever the tree
/// held before: in the tree it leaves, a node at `(x, y, z)` and depth
/// `d < max_depth` with more than `threshold` sample cells `c` such that
/// `c >> (max_depth - d) == (x, y, z)` on every axis has eight children.
pub proof fn lemma_refine_splits_every_crowded_node(
    old: OctreeNode,
    new: OctreeNode,
    cells: Seq<[u32; DIM]>,
    max_depth: u32,
    threshold: int,
)
    requires
        old.wf(),
        max_depth <= MAX_DEPTH,
        sample_refined(old, new, cells, max_depth, threshold),
    ensures
        forall|m: OctreeNode| #[trigger] subtree_nodes(new).contains(m) && m.depth < max_depth
            && cells.filter(|c: [u32; DIM]|
                (c[0] >> ((max_depth - m.depth) as u32)) == m.offset[0]
                && (c[1] >> ((max_depth - m.depth) as u32)) == m.offset[1]
                && (c[2] >> ((max_depth - m.depth) as u32)) == m.offset[2]).len() > threshold
            ==> m.children is Some && m.children->0@.len() == 8,
{
    lemma_sample_refined_splits_crowded(old, new, cells, max_depth, threshold);
    assert forall|m: OctreeNode| #[trigger] subtree_nodes(new).contains(m) && m.depth < max_depth
        && cells.filter(|c: [u32; DIM]|
            (c[0] >> ((max_depth - m.depth) as u32)) == m.offset[0]
            && (c[1] >> ((max_depth - m.depth) as u32)) == m.offset[1]
            && (c[2] >> ((max_depth - m.depth) as u32)) == m.offset[2]).len() > threshold
        implies m.children is Some && m.children->0@.len() == 8 by {
        let f = |c: [u32; DIM]|
            (c[0] >> ((max_depth - m.depth) as u32)) == m.offset[0]
            && (c[1] >> ((max_depth - m.depth) as u32)) == m.offset[1]
            && (c[2] >> ((max_depth - m.depth) as u32)) == m.offset[2];
        assert(in_node((max_depth - m.depth) as u32, m.offset[0], m.offset[1], m.offset[2]) =~= f);
    }
}

impl Octree {
    /// Refine the tree from the cells of the depth-`max_depth` grid that
    /// hold the sample points (one entry per point): a node shallower than
    /// `max_depth` is split when it holds more than `threshold` points, and
    /// its children are refined in turn; `max_depth` of the tree is raised to
    /// `max_depth`.
    pub fn refine_by_samples(&mut self, cells: &[[u32; DIM]], max_depth: u32, threshold: i64)
        requires
            old(self).root.wf(),
            max_depth <= MAX_DEPTH,
            cells_in_grid(cells@, max_depth),
        ensures
            sample_refined(*old(self).root, *final(self).root, cells@, max_depth, threshold as int),
            final(self).root.wf(),
            final(self).max_depth == if old(self).max_depth < max_depth { max_depth } else { old(self).max_depth },
            final(self).sorted_nodes == old(self).sorted_nodes,
    {
        let mut counts: Vec<HashMap<u64, u64>> = Vec::new();
        let mut d: u32 = 0;
        while d <= max_depth
            invariant
                d <= max_depth + 1,
                max_depth <= MAX_DEPTH,
                counts@.len() == d,
                forall|e: int| 0 <= e < d ==> counts_cells(#[trigger] counts@[e]@, cells@, (max_depth - e) as u32),
            decreases max_depth + 1 - d,
        {
            counts.push(count_cells(cells, max_depth - d));
            d += 1;
        }
        refine_by_counts(&mut self.root, &counts, cells, max_depth, threshold);
        if max_depth > self.max_depth {
            self.max_depth = max_depth;
        }
    }
}

/// The records of the leaves at `depth` in the subtree at `node`, in pre-order.
pub open spec fn leaf_keys(node: OctreeNode, depth: u32) -> Seq<NodeInfo>
    decreases node, 1nat,
{
    match node.children {
        None => if node.depth == depth { seq![info_of(node)] } else { Seq::empty() },
        Some(c) => seq_leaf_keys(c@, depth),
    }
}

/// The leaf records at `depth` of the subtrees at the nodes of `s`, one after
/// another.
pub open spec fn seq_leaf_keys(s: Seq<OctreeNode>, depth: u32) -> Seq<NodeInfo>
    decreases s, 0nat,
{
    if s.len() == 0 {
        Seq::empty()
    } else {
        seq_leaf_keys(s.subrange(0, s.len() - 1), depth) + leaf_keys(s[s.len() - 1], depth)
    }
}

/// The flags of a finite element at the finest depth.
pub open spec fn element_flags(flags: u8) -> u8 {
    flags | flags::SPACE_FLAG | flags::FEM_FLAG_1
}

/// `new` is `old` with its leaves at `depth` numbered from `start` in
/// pre-order: each gets the space and first FEM flags and its number as
/// node index; every other node and the shape are unchanged.
pub open spec fn leaves_numbered(old: OctreeNode, new: OctreeNode, depth: u32, start: int) -> bool
    decreases new,
{
    &&& new.depth == old.depth
    &&& new.offset == old.offset
    &&& match old.children {
        None => {
            &&& new.children is None
            &&& if old.depth == depth {
                new.data.flags == element_flags(old.data.flags) && new.data.node_index == start
            } else {
                new.data == old.data
            }
        },
        Some(oc) => {
            &&& new.data == old.data
            &&& match new.children {
                None => false,
                Some(nc) => {
                    &&& nc@.len() == oc@.len()
                    &&& forall|i: int| 0 <= i < oc@.len() ==> leaves_numbered(oc@[i], #[trigger] nc@[i], depth,
                        start + seq_leaf_keys(oc@.subrange(0, i), depth).len())
                },
            }
        },
    }
}

/// The offsets of a sequence of node records.
pub open spec fn offsets_of(keys: Seq<NodeInfo>) -> Seq<[u32; DIM]> {
    keys.map_values(|k: NodeInfo| k.offset)
}

/// Number the leaves at `depth` of the subtree at `node` in pre-order,
/// starting from the length of `offsets`, and append their offsets.
fn number_leaves(node: &mut OctreeNode, depth: u32, offsets: &mut Vec<[u32; DIM]>)
    requires
        old(offsets)@.len() + leaf_keys(*old(node), depth).len() <= i32::MAX,
    ensures
        leaves_numbered(*old(node), *final(node), depth, old(offsets)@.len() as int),
        final(offsets)@ == old(offsets)@ + offsets_of(leaf_keys(*old(node), depth)),
        old(node).wf() ==> final(node).wf(),
    decreases old(node).size(),
{
    let ghost old_node = *node;
    let ghost start = offsets@;
    if node.children.is_none() {
        if node.depth == depth {
            let idx = offsets.len();
            node.data.set_flag(flags::SPACE_FLAG, true);
            node.data.set_flag(flags::FEM_FLAG_1, true);
            node.data.node_index = idx as i32;
            offsets.push(node.offset);
            proof {
                assert(offsets_of(leaf_keys(old_node, depth)) =~= seq![old_node.offset]);
                assert(element_flags(old_node.data.flags) == ((old_node.data.flags | flags::SPACE_FLAG) | flags::FEM_FLAG_1));
            }
        } else {
            proof {
                assert(offsets_of(leaf_keys(old_node, depth)) =~= Seq::<[u32; DIM]>::empty());
                assert(offsets@ =~= start + offsets_of(leaf_keys(old_node, depth)));
            }
        }
        return;
    }
    let mut children = node.children.take().unwrap();
    let ghost oc = children@;
    let mut i: usize = 0;
    proof {
        assert(oc.subrange(0, 0) =~= Seq::<OctreeNode>::empty());
        assert(offsets@ =~= start + offsets_of(seq_leaf_keys(oc.subrange(0, 0), depth)));
        lemma_seq_leaf_keys_prefix(oc, oc.len() as int, depth);
        assert(oc.subrange(0, oc.len() as int) =~= oc);
    }
    while i < children.len()
        invariant
            old_node.children is Some,
            old_node.children->0@ == oc,
            children@.len() == oc.len(),
            i <= oc.len(),
            start.len() + leaf_keys(old_node, depth).len() <= i32::MAX,
            leaf_keys(old_node, depth) == seq_leaf_keys(oc, depth),
            offsets@ == start + offsets_of(seq_leaf_keys(oc.subrange(0, i as int), depth)),
            forall|k: int| i <= k < oc.len() ==> children@[k] == oc[k],
            old_node.size() == 1 + OctreeNode::seq_size(oc),
            old_node.size() == old(node).size(),
            forall|k: int| 0 <= k < i ==> leaves_numbered(oc[k], #[trigger] children@[k], depth,
                (start.len() + seq_leaf_keys(oc.subrange(0, k), depth).len()) as int),
            forall|k: int| 0 <= k < i ==> oc[k].wf() ==> (#[trigger] children@[k]).wf(),
        decreases oc.len() - i,
    {
        proof {
            lemma_seq_leaf_keys_step(oc, i as int, depth);
            lemma_seq_leaf_keys_prefix(oc, i + 1, depth);
            OctreeNode::lemma_seq_size_prefix(oc, i + 1);
            OctreeNode::lemma_seq_size_prefix(oc, oc.len() as int);
            assert(oc.subrange(0, oc.len() as int) =~= oc);
        }
        let ghost before = offsets@;
        number_leaves(&mut children[i], depth, offsets);
        proof {
            let p = seq_leaf_keys(oc.subrange(0, i as int), depth);
            let q = leaf_keys(oc[i as int], depth);
            assert(offsets_of(p + q) =~= offsets_of(p) + offsets_of(q));
            assert(offsets@ =~= start + offsets_of(seq_leaf_keys(oc.subrange(0, i + 1), depth)));
        }
        i += 1;
    }
    node.children = Some(children);
    proof {
        assert(oc.subrange(0, i as int) =~= oc);
        if old_node.wf() {
            assert(oc.len() == 8);
            assert forall|k: int| 0 <= k < 8 implies {
                &&& (#[trigger] children@[k]).depth == node.depth + 1
                &&& forall|d: int| 0 <= d < DIM ==> #[trigger] children@[k].offset[d] == 2 * node.offset[d] + child_bit(k, d)
                &&& children@[k].wf()
            } by {
                assert(oc[k].wf());
                assert(leaves_numbered(oc[k], children@[k], depth, (start.len() + seq_leaf_keys(oc.subrange(0, k), depth).len()) as int));
            }
        }
    }
}

/// Leaf records of a prefix, and their count, grow with the prefix.
proof fn lemma_seq_leaf_keys_prefix(s: Seq<OctreeNode>, i: int, depth: u32)
    requires
        0 <= i <= s.len(),
    ensures
        seq_leaf_keys(s.subrange(0, i), depth).len() <= seq_leaf_keys(s, depth).len(),
    decreases s.len(),
{
    if i < s.len() {
        lemma_seq_leaf_keys_prefix(s.subrange(0, s.len() - 1), i, depth);
        assert(s.subrange(0, s.len() - 1).subrange(0, i) =~= s.subrange(0, i));
    } else {
        assert(s.subrange(0, i) =~= s);
    }
}

proof fn lemma_seq_leaf_keys_step(s: Seq<OctreeNode>, i: int, depth: u32)
    requires
        0 <= i < s.len(),
    ensures
        seq_leaf_keys(s.subrange(0, i + 1), depth) == seq_leaf_keys(s.subrange(0, i), depth) + leaf_keys(s[i], depth),
{
    assert(s.subrange(0, i + 1).subrange(0, i) =~= s.subrange(0, i));
}

/// The record `k` lies in the subtree at `m`: it is no shallower, and its
/// offset, brought up to `m`'s depth, is `m`'s offset.
pub open spec fn lies_under(k: NodeInfo, m: OctreeNode) -> bool {
    &&& m.depth <= k.depth
    &&& forall|d: int| 0 <= d < DIM ==> #[trigger] (k.offset[d] as nat) / pow2((k.depth - m.depth) as nat) == m.offset[d]
}

/// No two records of `s` share an offset.
pub open spec fn distinct_offsets(s: Seq<NodeInfo>) -> bool {
    forall|a: int, b: int| 0 <= a < b < s.len() ==> #[trigger] s[a].offset != #[trigger] s[b].offset
}

/// The leaf records of a sequence of siblings: each lies under one of them
/// and is at `depth`, and no two share an offset when the siblings' own
/// offsets differ.
proof fn lemma_seq_leaf_keys_shape(s: Seq<OctreeNode>, depth: u32, e: u32)
    requires
        forall|j: int| 0 <= j < s.len() ==> (#[trigger] s[j]).depth == e,
        forall|j: int| 0 <= j < s.len() ==> {
            &&& forall|t: int| 0 <= t < leaf_keys(#[trigger] s[j], depth).len() ==> {
                &&& leaf_keys(s[j], depth)[t].depth == depth
                &&& lies_under(leaf_keys(s[j], depth)[t], s[j])
            }
            &&& distinct_offsets(leaf_keys(s[j], depth))
        },
        forall|i: int, j: int| 0 <= i < j < s.len() ==> exists|d: int| 0 <= d < DIM && (#[trigger] s[i]).offset[d] != (#[trigger] s[j]).offset[d],
    ensures
        forall|t: int| 0 <= t < seq_leaf_keys(s, depth).len() ==> {
            &&& seq_leaf_keys(s, depth)[t].depth == depth
            &&& exists|j: int| 0 <= j < s.len() && lies_under(seq_leaf_keys(s, depth)[t], #[trigger] s[j])
        },
        distinct_offsets(seq_leaf_keys(s, depth)),
    decreases s.len(),
{
    if s.len() > 0 {
        let n = s.len() - 1;
        let pre = s.subrange(0, n);
        lemma_seq_leaf_keys_shape(pre, depth, e);
        let a = seq_leaf_keys(pre, depth);
        let b = leaf_keys(s[n], depth);
        let all = seq_leaf_keys(s, depth);
        assert(all == a + b);
        assert forall|t: int| 0 <= t < all.len() implies {
            &&& all[t].depth == depth
            &&& exists|j: int| 0 <= j < s.len() && lies_under(all[t], #[trigger] s[j])
        } by {
            if t < a.len() {
                let j = choose|j: int| 0 <= j < pre.len() && lies_under(a[t], #[trigger] pre[j]);
                assert(s[j] == pre[j]);
            } else {
                assert(all[t] == b[t - a.len()]);
                assert(lies_under(all[t], s[n]));
            }
        }
        assert forall|x: int, y: int| 0 <= x < y < all.len() implies #[trigger] all[x].offset != #[trigger] all[y].offset by {
            if y < a.len() {
                assert(all[x] == a[x] && all[y] == a[y]);
            } else if x >= a.len() {
                assert(all[x] == b[x - a.len()] && all[y] == b[y - a.len()]);
            } else {
                let j = choose|j: int| 0 <= j < pre.len() && lies_under(a[x], #[trigger] pre[j]);
                let kx = a[x];
                let ky = b[y - a.len()];
                assert(all[x] == kx && all[y] == ky);
                assert(lies_under(ky, s[n]));
                assert(s[j] == pre[j]);
                let dd = choose|d: int| 0 <= d < DIM && s[j].offset[d] != s[n].offset[d];
                if kx.offset == ky.offset {
                    assert((kx.offset[dd] as nat) / pow2((kx.depth - s[j].depth) as nat) == s[j].offset[dd]);
                    assert((ky.offset[dd] as nat) / pow2((ky.depth - s[n].depth) as nat) == s[n].offset[dd]);
                    assert(false);
                }
            }
        }
    }
}

/// In a well-formed subtree, every leaf record at `depth` is at `depth` and
/// lies under the subtree's root, and no two share an offset.
proof fn lemma_leaf_keys_shape(node: OctreeNode, depth: u32)
    requires
        node.wf(),
    ensures
        forall|t: int| 0 <= t < leaf_keys(node, depth).len() ==> {
            &&& (#[trigger] leaf_keys(node, depth)[t]).depth == depth
            &&& lies_under(leaf_keys(node, depth)[t], node)
        },
        distinct_offsets(leaf_keys(node, depth)),
    decreases node,
{
    match node.children {
        None => {
            if node.depth == depth {
                assert(leaf_keys(node, depth) == seq![info_of(node)]);
                assert forall|d: int| 0 <= d < DIM implies #[trigger] (node.offset[d] as nat) / pow2(0) == node.offset[d] by {
                    lemma2_to64();
                }
            }
        },
        Some(c) => {
            let s = c@;
            assert forall|j: int| 0 <= j < s.len() implies {
                &&& forall|t: int| 0 <= t < leaf_keys(#[trigger] s[j], depth).len() ==> {
                    &&& leaf_keys(s[j], depth)[t].depth == depth
                    &&& lies_under(leaf_keys(s[j], depth)[t], s[j])
                }
                &&& distinct_offsets(leaf_keys(s[j], depth))
            } by {
                assert(decreases_to!(node => s[j]));
                lemma_leaf_keys_shape(s[j], depth);
            }
            assert forall|i: int, j: int| 0 <= i < j < s.len() implies exists|d: int| 0 <= d < DIM && (#[trigger] s[i]).offset[d] != (#[trigger] s[j]).offset[d] by {
                let d: int = if child_bit(i, 0) != child_bit(j, 0) { 0 } else if child_bit(i, 1) != child_bit(j, 1) { 1 } else { 2 };
                assert(s[i].offset[d] == 2 * node.offset[d] + child_bit(i, d));
                assert(s[j].offset[d] == 2 * node.offset[d] + child_bit(j, d));
            }
            lemma_seq_leaf_keys_shape(s, depth, (node.depth + 1) as u32);
            let all = leaf_keys(node, depth);
            assert forall|t: int| 0 <= t < all.len() implies lies_under(#[trigger] all[t], node) by {
                let k = all[t];
                let j = choose|j: int| 0 <= j < s.len() && lies_under(k, #[trigger] s[j]);
                let e = (k.depth - s[j].depth) as nat;
                lemma_pow2_unfold(e + 1);
                assert forall|d: int| 0 <= d < DIM implies #[trigger] (k.offset[d] as nat) / pow2((k.depth - node.depth) as nat) == node.offset[d] by {
                    assert((k.depth - node.depth) as nat == e + 1);
                    lemma_pow2_pos(e);
                    lemma_div_denominator(k.offset[d] as int, pow2(e) as int, 2);
                    assert(s[j].offset[d] == 2 * node.offset[d] + child_bit(j, d));
                    assert(pow2(e) * 2 == pow2(e + 1));
                }
            }
        },
    }
}

/// The finite elements have distinct offsets: in a well-formed tree no two
/// leaves at `depth` share an offset.
pub proof fn lemma_leaf_offsets_distinct(root: OctreeNode, depth: u32)
    requires
        root.wf(),
    ensures
        distinct_offsets(leaf_keys(root, depth)),
        forall|a: int, b: int| 0 <= a < b < leaf_keys(root, depth).len() ==>
            #[trigger] offsets_of(leaf_keys(root, depth))[a] != #[trigger] offsets_of(leaf_keys(root, depth))[b],
{
    lemma_leaf_keys_shape(root, depth);
}

impl Octree {
    /// Make the leaves at `depth` the finite elements: number them in
    /// pre-order from 0, give each the space and first FEM flags and its
    /// number as node index, and return their offsets in that order.
    pub fn number_fem_leaves(&mut self, depth: u32) -> (r: Vec<[u32; DIM]>)
        requires
            leaf_keys(*old(self).root, depth).len() <= i32::MAX,
        ensures
            leaves_numbered(*old(self).root, *final(self).root, depth, 0),
            r@ == offsets_of(leaf_keys(*old(self).root, depth)),
            old(self).root.wf() ==> final(self).root.wf(),
            final(self).max_depth == old(self).max_depth,
            final(self).sorted_nodes == old(self).sorted_nodes,
    {
        let mut offsets: Vec<[u32; DIM]> = Vec::new();
        number_leaves(&mut self.root, depth, &mut offsets);
        proof {
            assert(offsets@ =~= offsets_of(leaf_keys(*old(self).root, depth)));
        }
        offsets
    }
}

} // verus!
