//! Adaptive octree with FEM node data.
//!
//! The octree is the spatial domain of the finite element method. Each node
//! carries flags saying whether it takes part in the space partition, indexes
//! an FEM basis function, and so on.
use vstd::prelude::*;
use vstd::arithmetic::power2::{pow2, lemma_pow2_unfold};
use std::collections::HashMap;

pub mod flags;
pub mod laws;

verus! {

/// Node index type.
pub type NodeIndex = i32;
/// Matrix entry index type.
pub type MatrixIndex = i32;
/// Depth and offset storage type.
pub type DepthOffset = u16;

/// Dimension of the space the octree partitions.
pub const DIM: usize = 3;

/// Maximum depth of the octree.
pub const MAX_DEPTH: u32 = 15;

/// Data stored in each FEM tree node.
#[derive(Debug, Clone, Copy)]
pub struct FEMNodeData {
    /// The node's index in the flattened node array (-1 if not assigned).
    pub node_index: NodeIndex,
    /// Flags indicating node status.
    pub flags: u8,
}

impl Default for FEMNodeData {
    fn default() -> (r: Self)
        ensures
            r.node_index == -1,
            r.flags == 0,
    {
        FEMNodeData { node_index: -1, flags: 0 }
    }
}

/// The flag byte after `set_flag(flag, value)`.
pub open spec fn flags_after_set(flags: u8, flag: u8, value: bool) -> u8 {
    if value { flags | flag } else { flags & !flag }
}

impl FEMNodeData {
    /// Whether any bit of `flag` is set.
    pub fn has_flag(&self, flag: u8) -> (r: bool)
        ensures
            r == (self.flags & flag != 0),
    {
        (self.flags & flag) != 0
    }

    /// Set (`value`) or clear (`!value`) the bits of `flag`.
    pub fn set_flag(&mut self, flag: u8, value: bool)
        ensures
            final(self).flags == flags_after_set(old(self).flags, flag, value),
            final(self).node_index == old(self).node_index,
    {
        if value {
            self.flags = self.flags | flag;
        } else {
            self.flags = self.flags & !flag;
        }
    }
}

/// After setting a nonzero flag to `value`, testing it gives `value`, and a
/// flag with no bit in common with it reads as before.
pub proof fn lemma_set_flag_then_has_flag(flags: u8, flag: u8, value: bool, other: u8)
    requires
        flag != 0,
    ensures
        (flags_after_set(flags, flag, value) & flag != 0) == value,
        other & flag == 0 ==> (flags_after_set(flags, flag, value) & other != 0) == (flags & other != 0),
{
    assert(flag != 0 ==> ((flags | flag) & flag != 0)) by (bit_vector);
    assert((flags & !flag) & flag == 0) by (bit_vector);
    assert(other & flag == 0 ==> (((flags | flag) & other != 0) == (flags & other != 0))) by (bit_vector);
    assert(other & flag == 0 ==> (((flags & !flag) & other != 0) == (flags & other != 0))) by (bit_vector);
}

/// A node in the adaptive octree: its depth, its offset in each dimension at
/// that depth, its FEM data, and either no children or eight.
pub struct OctreeNode {
    /// Children: 8 in 3D, or `None` for a leaf.
    pub children: Option<Vec<OctreeNode>>,
    /// Depth of this node in the tree.
    pub depth: u32,
    /// Offset in each dimension at this depth, in `[0, 2^depth)`.
    pub offset: [u32; DIM],
    /// FEM node data (flags, node_index).
    pub data: FEMNodeData,
}

/// Bit `d` of child number `i`: child `i` lies in the upper half of its
/// parent along dimension `d` exactly when this bit is 1.
pub open spec fn child_bit(i: int, d: int) -> int {
    if d == 0 { i % 2 } else if d == 1 { (i / 2) % 2 } else { (i / 4) % 2 }
}

/// `child` is the `i`-th child of a node at `depth` with `offset`, as it is
/// first made: one depth finer, offsets doubled plus the child's bits, a leaf
/// with default data.
pub open spec fn is_fresh_child(child: OctreeNode, depth: u32, offset: [u32; DIM], i: int) -> bool {
    &&& child.depth == depth + 1
    &&& forall|d: int| 0 <= d < DIM ==> #[trigger] child.offset[d] == 2 * offset[d] + child_bit(i, d)
    &&& child.children is None
    &&& child.data.node_index == -1
    &&& child.data.flags == 0
}

impl OctreeNode {
    /// Number of nodes in the subtree rooted here.
    pub open spec fn size(self) -> nat
        decreases self, 1nat,
    {
        match self.children {
            None => 1,
            Some(c) => 1 + Self::seq_size(c@),
        }
    }

    /// Number of nodes in the subtrees rooted at the nodes of `s`.
    pub open spec fn seq_size(s: Seq<OctreeNode>) -> nat
        decreases s, 0nat,
    {
        if s.len() == 0 {
            0
        } else {
            Self::seq_size(s.subrange(0, s.len() - 1)) + s[s.len() - 1].size()
        }
    }

    /// The children, where there are any, are eight and sit where
    /// `init_children` puts them; offsets lie in `[0, 2^depth)`; and so on down
    /// the subtree.
    pub open spec fn wf(self) -> bool
        decreases self,
    {
        &&& forall|d: int| 0 <= d < DIM ==> #[trigger] self.offset[d] < pow2(self.depth as nat)
        &&& match self.children {
            None => true,
            Some(c) => {
                &&& c@.len() == 8
                &&& forall|i: int| 0 <= i < 8 ==> {
                    &&& (#[trigger] c@[i]).depth == self.depth + 1
                    &&& forall|d: int| 0 <= d < DIM ==> #[trigger] c@[i].offset[d] == 2 * self.offset[d] + child_bit(i, d)
                    &&& c@[i].wf()
                }
            },
        }
    }

    /// A root: depth 0, offset 0, no children, default data.
    pub fn new_root() -> (r: Self)
        ensures
            r.depth == 0,
            r.offset@ == seq![0u32, 0u32, 0u32],
            r.children is None,
            r.data.node_index == -1,
            r.data.flags == 0,
            r.wf(),
    {
        let r = OctreeNode { children: None, depth: 0, offset: [0, 0, 0], data: FEMNodeData::default() };
        proof {
            vstd::arithmetic::power2::lemma2_to64();
            assert(r.offset@ == seq![0u32, 0u32, 0u32]);
        }
        r
    }

    /// A leaf at `depth` and `offset` with default data.
    pub fn new_child(depth: u32, offset: [u32; DIM]) -> (r: Self)
        ensures
            r.depth == depth,
            r.offset == offset,
            r.children is None,
            r.data.node_index == -1,
            r.data.flags == 0,
    {
        OctreeNode { children: None, depth, offset, data: FEMNodeData::default() }
    }

    /// The node data.
    pub fn data(&self) -> (r: &FEMNodeData)
        ensures
            *r == self.data,
    {
        &self.data
    }

    /// The node data, to change.
    pub fn data_mut(&mut self) -> (r: &mut FEMNodeData)
        ensures
            *r == old(self).data,
            final(self).data == *final(r),
            final(self).children == old(self).children,
            final(self).depth == old(self).depth,
            final(self).offset == old(self).offset,
    {
        &mut self.data
    }

    /// Whether this node is a leaf (no children).
    pub fn is_leaf(&self) -> (r: bool)
        ensures
            r == (self.children is None),
    {
        self.children.is_none()
    }

    /// Offsets of the eight children of a node at `offset`: child `i` has
    /// `2 * offset[d] + bit d of i` along dimension `d`.
    fn child_offsets(offset: [u32; DIM]) -> (r: [[u32; DIM]; 8])
        requires
            forall|d: int| 0 <= d < DIM ==> #[trigger] offset[d] < 0x8000_0000,
        ensures
            forall|i: int, d: int| 0 <= i < 8 && 0 <= d < DIM ==> #[trigger] r[i][d] == 2 * offset[d] + child_bit(i, d),
    {
        let x = offset[0] * 2;
        let y = offset[1] * 2;
        let z = offset[2] * 2;
        [
            [x, y, z],
            [x + 1, y, z],
            [x, y + 1, z],
            [x + 1, y + 1, z],
            [x, y, z + 1],
            [x + 1, y, z + 1],
            [x, y + 1, z + 1],
            [x + 1, y + 1, z + 1],
        ]
    }

    /// Allocate children for this node, unless it has some already.
    pub fn init_children(&mut self)
        requires
            old(self).children is None ==> old(self).depth < u32::MAX,
            old(self).children is None ==> forall|d: int| 0 <= d < DIM ==> #[trigger] old(self).offset[d] < 0x8000_0000,
        ensures
            final(self).depth == old(self).depth,
            final(self).offset == old(self).offset,
            final(self).data == old(self).data,
            old(self).children is Some ==> final(self).children == old(self).children,
            old(self).children is None ==> {
                &&& final(self).children is Some
                &&& final(self).children->0@.len() == 8
                &&& forall|i: int| 0 <= i < 8 ==> is_fresh_child(#[trigger] final(self).children->0@[i], old(self).depth, old(self).offset, i)
            },
            old(self).wf() ==> final(self).wf(),
    {
        if self.children.is_some() {
            return;
        }
        let cdepth = self.depth + 1;
        let coffsets = Self::child_offsets(self.offset);
        let mut children: Vec<OctreeNode> = Vec::new();
        let mut i: usize = 0;
        while i < 8
            invariant
                i <= 8,
                children@.len() == i,
                cdepth == self.depth + 1,
                forall|k: int, d: int| 0 <= k < 8 && 0 <= d < DIM ==> #[trigger] coffsets[k][d] == 2 * self.offset[d] + child_bit(k, d),
                forall|k: int| 0 <= k < i ==> is_fresh_child(#[trigger] children@[k], self.depth, self.offset, k),
            decreases 8 - i,
        {
            let child = OctreeNode::new_child(cdepth, coffsets[i]);
            children.push(child);
            proof {
                assert(is_fresh_child(children@[i as int], self.depth, self.offset, i as int));
            }
            i += 1;
        }
        proof {
            if old(self).wf() {
                lemma_pow2_unfold(self.depth as nat + 1);
                assert forall|k: int| 0 <= k < 8 implies (#[trigger] children@[k]).wf() by {
                    assert forall|d: int| 0 <= d < DIM implies #[trigger] children@[k].offset[d] < pow2(children@[k].depth as nat) by {
                        assert(self.offset[d] < pow2(self.depth as nat));
                        assert(children@[k].offset[d] == 2 * self.offset[d] + child_bit(k, d));
                    }
                }
            }
        }
        self.children = Some(children);
    }

    /// Count total number of nodes in the subtree rooted here.
    pub fn count_nodes(&self) -> (r: usize)
        requires
            self.size() <= usize::MAX,
        ensures
            r == self.size(),
        decreases self,
    {
        let mut count: usize = 1;
        if let Some(ref children) = self.children {
            let mut i: usize = 0;
            proof {
                Self::lemma_seq_size_prefix(children@, children@.len() as int);
                assert(children@.subrange(0, children@.len() as int) =~= children@);
            }
            while i < children.len()
                invariant
                    self.children == Some(*children),
                    self.size() <= usize::MAX,
                    i <= children@.len(),
                    count == 1 + Self::seq_size(children@.subrange(0, i as int)),
                decreases children@.len() - i,
            {
                proof {
                    Self::lemma_seq_size_prefix(children@, i + 1);
                    Self::lemma_seq_size_prefix(children@, children@.len() as int);
                    assert(children@.subrange(0, children@.len() as int) =~= children@);
                    assert(children@.subrange(0, i + 1).subrange(0, i as int) =~= children@.subrange(0, i as int));
                    assert(decreases_to!(self => children@[i as int]));
                }
                let c = children[i].count_nodes();
                count = count + c;
                i += 1;
            }
            proof {
                assert(children@.subrange(0, i as int) =~= children@);
            }
        }
        count
    }

    /// The subtrees of a prefix of `s` hold no more nodes than those of `s`;
    /// one more element adds its own subtree.
    pub proof fn lemma_seq_size_prefix(s: Seq<OctreeNode>, i: int)
        requires
            0 <= i <= s.len(),
        ensures
            Self::seq_size(s.subrange(0, i)) <= Self::seq_size(s),
            i > 0 ==> Self::seq_size(s.subrange(0, i)) == Self::seq_size(s.subrange(0, i - 1)) + s[i - 1].size(),
        decreases s.len(),
    {
        if i > 0 {
            assert(s.subrange(0, i).subrange(0, i - 1) =~= s.subrange(0, i - 1));
        }
        if i < s.len() {
            Self::lemma_seq_size_prefix(s.subrange(0, s.len() - 1), i);
            assert(s.subrange(0, s.len() - 1).subrange(0, i) =~= s.subrange(0, i));
        } else {
            assert(s.subrange(0, i) =~= s);
        }
    }
}

/// `node` is the `i`-th child of a node at `depth` with `offset`, made by
/// refinement: one depth finer, offsets doubled plus the child's bits,
/// default data, and itself fully refined to `target`.
pub open spec fn is_full_child(node: OctreeNode, depth: u32, offset: [u32; DIM], i: int, target: u32) -> bool
    decreases node, 1nat,
{
    &&& node.depth == depth + 1
    &&& forall|d: int| 0 <= d < DIM ==> #[trigger] node.offset[d] == 2 * offset[d] + child_bit(i, d)
    &&& node.data.node_index == -1
    &&& node.data.flags == 0
    &&& is_full(node, target)
}

/// Every node of the subtree at `node` shallower than `target` has eight
/// children made by refinement, and every node at or below `target` is a leaf.
pub open spec fn is_full(node: OctreeNode, target: u32) -> bool
    decreases node, 0nat,
{
    if node.depth >= target {
        node.children is None
    } else {
        match node.children {
            None => false,
            Some(c) => {
                &&& c@.len() == 8
                &&& forall|i: int| 0 <= i < 8 ==> is_full_child(#[trigger] c@[i], node.depth, node.offset, i, target)
            },
        }
    }
}

/// `new` is `old` refined to `target`: a node already at or below `target`
/// is unchanged; a shallower one keeps its depth, offset and data and has
/// eight children: its own, each refined to `target` in turn, or, if it was
/// a leaf, new ones that are fully refined to `target`.
pub open spec fn refined(old: OctreeNode, new: OctreeNode, target: u32) -> bool
    decreases new,
{
    if old.depth >= target {
        new == old
    } else {
        &&& new.depth == old.depth
        &&& new.offset == old.offset
        &&& new.data == old.data
        &&& match new.children {
            None => false,
            Some(c) => {
                &&& c@.len() == 8
                &&& forall|i: int| 0 <= i < 8 ==> match old.children {
                    Some(oc) => refined(oc@[i], #[trigger] c@[i], target),
                    None => is_full_child(c@[i], old.depth, old.offset, i, target),
                }
            },
        }
    }
}

/// Refining a fresh child yields a fully refined child in the same place.
proof fn lemma_refined_fresh_is_full(f: OctreeNode, n: OctreeNode, depth: u32, offset: [u32; DIM], i: int, target: u32)
    requires
        is_fresh_child(f, depth, offset, i),
        refined(f, n, target),
    ensures
        is_full_child(n, depth, offset, i, target),
{
}

/// Nodes of a full octree `k` levels deep: `1 + 8 + ... + 8^k`.
pub open spec fn full_count(k: nat) -> nat
    decreases k,
{
    if k == 0 { 1 } else { 1 + 8 * full_count((k - 1) as nat) }
}

/// Subtrees of equal size add up.
proof fn lemma_seq_size_uniform(s: Seq<OctreeNode>, n: nat)
    requires
        forall|i: int| 0 <= i < s.len() ==> (#[trigger] s[i]).size() == n,
    ensures
        OctreeNode::seq_size(s) == s.len() * n,
    decreases s.len(),
{
    if s.len() > 0 {
        let init = s.subrange(0, s.len() - 1);
        assert forall|i: int| 0 <= i < init.len() implies (#[trigger] init[i]).size() == n by {
            assert(init[i] == s[i]);
        }
        lemma_seq_size_uniform(init, n);
        assert((s.len() - 1) * n + n == s.len() * n) by (nonlinear_arith);
    }
}

/// A fully refined subtree at depth `d` has `full_count(target - d)` nodes.
pub proof fn lemma_full_tree_size(node: OctreeNode, target: u32)
    requires
        is_full(node, target),
        node.depth <= target,
    ensures
        node.size() == full_count((target - node.depth) as nat),
    decreases node,
{
    if node.depth < target {
        let c = node.children->0;
        assert forall|i: int| 0 <= i < c@.len() implies (#[trigger] c@[i]).size() == full_count((target - node.depth - 1) as nat) by {
            assert(is_full_child(c@[i], node.depth, node.offset, i, target));
            lemma_full_tree_size(c@[i], target);
        }
        lemma_seq_size_uniform(c@, full_count((target - node.depth - 1) as nat));
    }
}

/// Refining a leaf at depth `d` to `target` gives a full octree of
/// `1 + 8 + ... + 8^(target - d)` nodes.
pub proof fn lemma_refined_leaf_size(old: OctreeNode, new: OctreeNode, target: u32)
    requires
        old.children is None,
        old.depth <= target,
        refined(old, new, target),
    ensures
        new.size() == full_count((target - old.depth) as nat),
{
    if old.depth < target {
        let c = new.children->0;
        assert forall|i: int| 0 <= i < c@.len() implies (#[trigger] c@[i]).size() == full_count((target - old.depth - 1) as nat) by {
            assert(is_full_child(c@[i], old.depth, old.offset, i, target));
            lemma_full_tree_size(c@[i], target);
        }
        lemma_seq_size_uniform(c@, full_count((target - old.depth - 1) as nat));
    }
}

/// An octree that owns its nodes, with the depth-sorted node table that
/// `finalize` builds.
pub struct Octree {
    pub root: Box<OctreeNode>,
    pub max_depth: u32,
    /// Flattened sorted nodes (set after finalization).
    pub sorted_nodes: Option<SortedTreeNodes>,
}

impl Octree {
    /// A tree of one root node.
    pub fn new() -> (r: Self)
        ensures
            r.root.depth == 0,
            r.root.offset@ == seq![0u32, 0u32, 0u32],
            r.root.children is None,
            r.root.data.node_index == -1,
            r.root.data.flags == 0,
            r.root.wf(),
            r.max_depth == 0,
            r.sorted_nodes is None,
    {
        Octree { root: Box::new(OctreeNode::new_root()), max_depth: 0, sorted_nodes: None }
    }

    /// Refine the subtree at `node` down to `target_depth`, and raise
    /// `max_depth` to `target_depth` when the node was shallower.
    pub fn refine_node(&mut self, node: &mut OctreeNode, target_depth: u32)
        requires
            old(node).wf(),
            target_depth <= 32,
        ensures
            refined(*old(node), *final(node), target_depth),
            final(node).wf(),
            final(self).root == old(self).root,
            final(self).sorted_nodes == old(self).sorted_nodes,
            final(self).max_depth == if old(node).depth < target_depth && old(self).max_depth < target_depth {
                target_depth
            } else {
                old(self).max_depth
            },
        decreases target_depth - old(node).depth,
    {
        if node.depth >= target_depth {
            return;
        }
        let ghost old_node = *node;
        proof {
            vstd::arithmetic::power2::lemma2_to64();
            assert forall|d: int| 0 <= d < DIM implies #[trigger] node.offset[d] < 0x8000_0000 by {
                assert(node.offset[d] < pow2(node.depth as nat));
                if node.depth < 31 {
                    vstd::arithmetic::power2::lemma_pow2_strictly_increases(node.depth as nat, 31);
                }
            }
        }
        node.init_children();
        let ghost mid = *node;
        let mut children = node.children.take().unwrap();
        let mut i: usize = 0;
        while i < children.len()
            invariant
                children@.len() == 8,
                0 <= i <= 8,
                old_node.depth < target_depth,
                old_node.depth == old(node).depth,
                target_depth <= 32,
                mid.wf(),
                mid.depth == old_node.depth,
                mid.offset == old_node.offset,
                mid.children is Some,
                mid.children->0@.len() == 8,
                old_node.children is Some ==> mid.children == old_node.children,
                old_node.children is None ==> forall|k: int| 0 <= k < 8 ==> is_fresh_child(#[trigger] mid.children->0@[k], old_node.depth, old_node.offset, k),
                forall|k: int| i <= k < 8 ==> children@[k] == mid.children->0@[k],
                forall|k: int| 0 <= k < i ==> refined(mid.children->0@[k], #[trigger] children@[k], target_depth),
                forall|k: int| 0 <= k < i ==> (#[trigger] children@[k]).wf(),
                self.root == old(self).root,
                self.sorted_nodes == old(self).sorted_nodes,
                self.max_depth == old(self).max_depth || (self.max_depth == target_depth && old(self).max_depth < target_depth),
            decreases 8 - i,
        {
            assert(mid.children->0@[i as int].wf());
            assert(children@[i as int].depth == old_node.depth + 1);
            self.refine_node(&mut children[i], target_depth);
            i += 1;
        }
        node.children = Some(children);
        proof {
            assert forall|k: int| 0 <= k < 8 implies match old_node.children {
                Some(oc) => refined(oc@[k], #[trigger] children@[k], target_depth),
                None => is_full_child(children@[k], old_node.depth, old_node.offset, k, target_depth),
            } by {
                if old_node.children is None {
                    lemma_refined_fresh_is_full(mid.children->0@[k], children@[k], old_node.depth, old_node.offset, k, target_depth);
                }
            }
        }
        if target_depth > self.max_depth {
            self.max_depth = target_depth;
        }
    }
}

/// What the sorted table records of a node: where it sits (its depth and
/// its offset at that depth) and whether it is a leaf.
#[derive(Debug, Clone, Copy)]
pub struct NodeInfo {
    pub depth: u32,
    pub offset: [u32; DIM],
    pub is_leaf: bool,
}

/// The record of `node`.
pub open spec fn info_of(node: OctreeNode) -> NodeInfo {
    NodeInfo { depth: node.depth, offset: node.offset, is_leaf: node.children is None }
}

/// Holds of the records at depth `d`.
pub open spec fn at_depth(d: nat) -> spec_fn(NodeInfo) -> bool {
    |k: NodeInfo| k.depth == d
}

/// The records of `s` grouped by depth, depths `0..n` in order, each group in
/// the order of `s`.
pub open spec fn grouped_by_depth(s: Seq<NodeInfo>, n: nat) -> Seq<NodeInfo>
    decreases n,
{
    if n == 0 { Seq::empty() } else { grouped_by_depth(s, (n - 1) as nat) + s.filter(at_depth((n - 1) as nat)) }
}

impl OctreeNode {
    /// The records of the subtree rooted here, in depth-first pre-order, children
    /// in their order.
    pub open spec fn preorder(self) -> Seq<NodeInfo>
        decreases self, 1nat,
    {
        match self.children {
            None => seq![info_of(self)],
            Some(c) => seq![info_of(self)] + Self::seq_preorder(c@),
        }
    }

    /// The pre-orders of the subtrees at the nodes of `s`, one after another.
    pub open spec fn seq_preorder(s: Seq<OctreeNode>) -> Seq<NodeInfo>
        decreases s, 0nat,
    {
        if s.len() == 0 {
            Seq::empty()
        } else {
            Self::seq_preorder(s.subrange(0, s.len() - 1)) + s[s.len() - 1].preorder()
        }
    }

    /// The greatest depth of a node in the subtree rooted here.
    pub open spec fn max_depth(self) -> nat
        decreases self, 1nat,
    {
        match self.children {
            None => self.depth as nat,
            Some(c) => if Self::seq_max_depth(c@) > self.depth { Self::seq_max_depth(c@) } else { self.depth as nat },
        }
    }

    /// The greatest depth of a node in the subtrees at the nodes of `s`
    /// (0 for none).
    pub open spec fn seq_max_depth(s: Seq<OctreeNode>) -> nat
        decreases s, 0nat,
    {
        if s.len() == 0 {
            0
        } else {
            let a = Self::seq_max_depth(s.subrange(0, s.len() - 1));
            let b = s[s.len() - 1].max_depth();
            if a > b { a } else { b }
        }
    }

    /// The subtree has as many records in pre-order as it has nodes, each of
    /// depth at most `max_depth`, and one of exactly that depth.
    pub proof fn lemma_preorder(self)
        ensures
            self.preorder().len() == self.size(),
            forall|i: int| 0 <= i < self.preorder().len() ==> #[trigger] self.preorder()[i].depth <= self.max_depth(),
            exists|i: int| 0 <= i < self.preorder().len() && #[trigger] self.preorder()[i].depth == self.max_depth(),
            self.preorder()[0] == info_of(self),
        decreases self, 1nat,
    {
        match self.children {
            None => {
                assert(self.preorder()[0].depth == self.max_depth());
            },
            Some(c) => {
                Self::lemma_seq_preorder(c@);
                let p = self.preorder();
                let q = Self::seq_preorder(c@);
                assert forall|i: int| 0 <= i < p.len() implies #[trigger] p[i].depth <= self.max_depth() by {
                    if i > 0 {
                        assert(p[i] == q[i - 1]);
                    }
                }
                if Self::seq_max_depth(c@) > self.depth {
                    let j = choose|j: int| 0 <= j < q.len() && #[trigger] q[j].depth == Self::seq_max_depth(c@);
                    assert(p[j + 1] == q[j]);
                } else {
                    assert(p[0].depth == self.max_depth());
                }
            },
        }
    }

    /// The same facts for a sequence of subtrees.
    pub proof fn lemma_seq_preorder(s: Seq<OctreeNode>)
        ensures
            Self::seq_preorder(s).len() == Self::seq_size(s),
            forall|i: int| 0 <= i < Self::seq_preorder(s).len() ==> #[trigger] Self::seq_preorder(s)[i].depth <= Self::seq_max_depth(s),
            s.len() > 0 ==> exists|i: int| 0 <= i < Self::seq_preorder(s).len() && #[trigger] Self::seq_preorder(s)[i].depth == Self::seq_max_depth(s),
            forall|j: int| 0 <= j < s.len() ==> #[trigger] s[j].max_depth() <= Self::seq_max_depth(s),
        decreases s, 0nat,
    {
        if s.len() > 0 {
            let init = s.subrange(0, s.len() - 1);
            let last = s[s.len() - 1];
            Self::lemma_seq_preorder(init);
            last.lemma_preorder();
            let a = Self::seq_preorder(init);
            let b = last.preorder();
            let p = Self::seq_preorder(s);
            assert(p == a + b);
            assert forall|i: int| 0 <= i < p.len() implies #[trigger] p[i].depth <= Self::seq_max_depth(s) by {
                if i < a.len() {
                    assert(p[i] == a[i]);
                } else {
                    assert(p[i] == b[i - a.len()]);
                }
            }
            assert forall|j: int| 0 <= j < s.len() implies #[trigger] s[j].max_depth() <= Self::seq_max_depth(s) by {
                if j < s.len() - 1 {
                    assert(s[j] == init[j]);
                }
            }
            if Self::seq_max_depth(init) > last.max_depth() {
                let i = choose|i: int| 0 <= i < a.len() && #[trigger] a[i].depth == Self::seq_max_depth(init);
                assert(p[i] == a[i]);
            } else {
                let i = choose|i: int| 0 <= i < b.len() && #[trigger] b[i].depth == last.max_depth();
                assert(p[a.len() + i] == b[i]);
            }
        }
    }

    /// One more subtree appends its pre-order.
    proof fn lemma_seq_preorder_step(s: Seq<OctreeNode>, i: int)
        requires
            0 <= i < s.len(),
        ensures
            Self::seq_preorder(s.subrange(0, i + 1)) == Self::seq_preorder(s.subrange(0, i)) + s[i].preorder(),
            Self::seq_max_depth(s.subrange(0, i + 1)) == if Self::seq_max_depth(s.subrange(0, i)) > s[i].max_depth() {
                Self::seq_max_depth(s.subrange(0, i))
            } else {
                s[i].max_depth()
            },
    {
        assert(s.subrange(0, i + 1).subrange(0, i) =~= s.subrange(0, i));
    }

    /// Greatest depth of a node in the subtree rooted here.
    fn compute_max_depth(&self) -> (r: u32)
        ensures
            r == self.max_depth(),
        decreases self,
    {
        let mut max_d = self.depth;
        if let Some(ref children) = self.children {
            let mut i: usize = 0;
            while i < children.len()
                invariant
                    self.children == Some(*children),
                    i <= children@.len(),
                    max_d == if i == 0 || Self::seq_max_depth(children@.subrange(0, i as int)) <= self.depth {
                        self.depth as nat
                    } else {
                        Self::seq_max_depth(children@.subrange(0, i as int))
                    },
                decreases children@.len() - i,
            {
                proof {
                    let c = self.children->0;
                    assert(c == *children);
                    assert(decreases_to!(*self => self.children));
                    assert(decreases_to!(self.children => c));
                    assert(decreases_to!(c => c@[i as int]));
                    assert(decreases_to!(self => children@[i as int]));
                    Self::lemma_seq_preorder_step(children@, i as int);
                }
                let cd = children[i].compute_max_depth();
                if cd > max_d {
                    max_d = cd;
                }
                i += 1;
            }
            proof {
                assert(children@.subrange(0, i as int) =~= children@);
            }
        }
        max_d
    }

    /// Push the record of every node of the subtree here onto the list for its
    /// depth, in pre-order.
    fn collect_nodes(&self, nodes_by_depth: &mut Vec<Vec<NodeInfo>>)
        requires
            self.max_depth() < old(nodes_by_depth)@.len(),
        ensures
            final(nodes_by_depth)@.len() == old(nodes_by_depth)@.len(),
            forall|d: int| 0 <= d < old(nodes_by_depth)@.len() ==> #[trigger] final(nodes_by_depth)@[d]@
                == old(nodes_by_depth)@[d]@ + self.preorder().filter(at_depth(d as nat)),
        decreases self,
    {
        let ghost start = *nodes_by_depth;
        let depth = self.depth as usize;
        let key = NodeInfo { depth: self.depth, offset: self.offset, is_leaf: self.children.is_none() };
        nodes_by_depth[depth].push(key);
        proof {
            assert forall|d: int| 0 <= d < start@.len() implies #[trigger] nodes_by_depth@[d]@
                == start@[d]@ + seq![info_of(*self)].filter(at_depth(d as nat)) by {
                reveal_with_fuel(Seq::filter, 2);
                assert(seq![info_of(*self)].drop_last() =~= Seq::<NodeInfo>::empty());
                if d == depth {
                    assert(seq![info_of(*self)].filter(at_depth(d as nat)) =~= seq![info_of(*self)]);
                } else {
                    assert(seq![info_of(*self)].filter(at_depth(d as nat)) =~= Seq::<NodeInfo>::empty());
                }
            }
        }
        if let Some(ref children) = self.children {
            let mut i: usize = 0;
            proof {
                Self::lemma_seq_preorder(children@);
            }
            while i < children.len()
                invariant
                    self.children == Some(*children),
                    i <= children@.len(),
                    self.max_depth() < start@.len(),
                    Self::seq_max_depth(children@) <= self.max_depth(),
                    forall|j: int| 0 <= j < children@.len() ==> #[trigger] children@[j].max_depth() <= Self::seq_max_depth(children@),
                    nodes_by_depth@.len() == start@.len(),
                    forall|d: int| 0 <= d < start@.len() ==> #[trigger] nodes_by_depth@[d]@
                        == start@[d]@ + (seq![info_of(*self)] + Self::seq_preorder(children@.subrange(0, i as int))).filter(at_depth(d as nat)),
                decreases children@.len() - i,
            {
                proof {
                    Self::lemma_seq_preorder_step(children@, i as int);
                    assert(decreases_to!(self => children@[i as int]));
                }
                let ghost before = *nodes_by_depth;
                children[i].collect_nodes(nodes_by_depth);
                proof {
                    assert forall|d: int| 0 <= d < start@.len() implies #[trigger] nodes_by_depth@[d]@
                        == start@[d]@ + (seq![info_of(*self)] + Self::seq_preorder(children@.subrange(0, i + 1))).filter(at_depth(d as nat)) by {
                        let pre = seq![info_of(*self)] + Self::seq_preorder(children@.subrange(0, i as int));
                        assert(seq![info_of(*self)] + Self::seq_preorder(children@.subrange(0, i + 1)) =~= pre + children@[i as int].preorder());
                        Seq::filter_distributes_over_add(pre, children@[i as int].preorder(), at_depth(d as nat));
                        assert(before@[d]@ == start@[d]@ + pre.filter(at_depth(d as nat)));
                    }
                }
                i += 1;
            }
            proof {
                assert(children@.subrange(0, i as int) =~= children@);
            }
        } else {
            proof {
                assert forall|d: int| 0 <= d < start@.len() implies #[trigger] nodes_by_depth@[d]@
                    == start@[d]@ + self.preorder().filter(at_depth(d as nat)) by {
                }
            }
        }
    }
}

/// Sorted table of the records of a tree's nodes, grouped by depth.
///
/// After tree finalization, nodes are listed depth by depth for traversal
/// during multigrid operations.
pub struct SortedTreeNodes {
    /// Keys of all nodes, sorted by depth.
    pub tree_nodes: Vec<NodeInfo>,
    /// `slice_start[d]` = index of the first node at depth `d`; the last entry
    /// is the number of nodes.
    pub slice_start: Vec<usize>,
}

impl SortedTreeNodes {
    /// The slice starts begin at 0, never decrease, and end at the number of
    /// nodes.
    pub open spec fn wf(&self) -> bool {
        &&& self.slice_start@.len() >= 1
        &&& self.slice_start@[0] == 0
        &&& forall|i: int, j: int| 0 <= i <= j < self.slice_start@.len() ==> #[trigger] self.slice_start@[i] <= #[trigger] self.slice_start@[j]
        &&& self.slice_start@[self.slice_start@.len() - 1] == self.tree_nodes@.len()
    }

    /// This table lists the nodes of the tree at `root`: depth by depth up to
    /// the tree's greatest depth, each depth in pre-order, and `slice_start[d]`
    /// counts the nodes shallower than `d`.
    pub open spec fn lists(&self, root: OctreeNode) -> bool {
        &&& self.slice_start@.len() == root.max_depth() + 2
        &&& self.tree_nodes@ == grouped_by_depth(root.preorder(), root.max_depth() + 1)
        &&& forall|d: int| 0 <= d < self.slice_start@.len() ==> #[trigger] self.slice_start@[d] == grouped_by_depth(root.preorder(), d as nat).len()
    }

    /// Number of nodes at `depth` according to the slice starts.
    pub open spec fn count_at(&self, depth: nat) -> int {
        if depth + 1 < self.slice_start@.len() {
            self.slice_start@[depth + 1 as int] - self.slice_start@[depth as int]
        } else {
            0
        }
    }

    /// Build the table for the tree at `root`.
    pub fn build(root: &OctreeNode) -> (r: Self)
        requires
            root.max_depth() + 2 <= usize::MAX,
        ensures
            r.wf(),
            r.lists(*root),
    {
        let max_depth = root.compute_max_depth();
        let n: usize = max_depth as usize + 1;
        let mut nodes_by_depth: Vec<Vec<NodeInfo>> = Vec::new();
        let mut k: usize = 0;
        while k < n
            invariant
                k <= n,
                nodes_by_depth@.len() == k,
                forall|d: int| 0 <= d < k ==> (#[trigger] nodes_by_depth@[d])@ == Seq::<NodeInfo>::empty(),
            decreases n - k,
        {
            nodes_by_depth.push(Vec::new());
            k += 1;
        }
        root.collect_nodes(&mut nodes_by_depth);
        let ghost pre = root.preorder();
        let mut tree_nodes: Vec<NodeInfo> = Vec::new();
        let mut slice_start: Vec<usize> = Vec::new();
        let mut d: usize = 0;
        while d < n
            invariant
                d <= n,
                n == root.max_depth() + 1,
                nodes_by_depth@.len() == n,
                forall|e: int| 0 <= e < n ==> (#[trigger] nodes_by_depth@[e])@ == pre.filter(at_depth(e as nat)),
                tree_nodes@ == grouped_by_depth(pre, d as nat),
                slice_start@.len() == d,
                forall|e: int| 0 <= e < d ==> #[trigger] slice_start@[e] == grouped_by_depth(pre, e as nat).len(),
            decreases n - d,
        {
            slice_start.push(tree_nodes.len());
            let bucket = &nodes_by_depth[d];
            let mut j: usize = 0;
            let ghost base = tree_nodes@;
            while j < bucket.len()
                invariant
                    j <= bucket@.len(),
                    tree_nodes@ == base + bucket@.subrange(0, j as int),
                decreases bucket@.len() - j,
            {
                tree_nodes.push(bucket[j]);
                proof {
                    assert(base + bucket@.subrange(0, j + 1) =~= (base + bucket@.subrange(0, j as int)).push(bucket@[j as int]));
                }
                j += 1;
            }
            proof {
                assert(bucket@.subrange(0, j as int) =~= bucket@);
            }
            d += 1;
        }
        slice_start.push(tree_nodes.len());
        let r = SortedTreeNodes { tree_nodes, slice_start };
        proof {
            assert forall|i: int, j: int| 0 <= i <= j < r.slice_start@.len() implies #[trigger] r.slice_start@[i] <= #[trigger] r.slice_start@[j] by {
                lemma_grouped_prefix(pre, i as nat, j as nat);
            }
        }
        r
    }

    /// Number of nodes at a given depth.
    pub fn size_at_depth(&self, depth: u32) -> (r: usize)
        requires
            self.wf(),
        ensures
            r == self.count_at(depth as nat),
    {
        if (depth as usize) < self.slice_start.len() - 1 {
            self.slice_start[depth as usize + 1] - self.slice_start[depth as usize]
        } else {
            0
        }
    }

    /// Total number of nodes.
    pub fn total_nodes(&self) -> (r: usize)
        ensures
            r == self.tree_nodes@.len(),
    {
        self.tree_nodes.len()
    }

    /// The records of the nodes at a given depth.
    pub fn nodes_at_depth(&self, depth: u32) -> (r: &[NodeInfo])
        requires
            self.wf(),
            depth < self.slice_start@.len(),
        ensures
            r@ == self.tree_nodes@.subrange(
                self.slice_start@[depth as int] as int,
                if depth + 1 < self.slice_start@.len() { self.slice_start@[depth + 1] as int } else { self.tree_nodes@.len() as int },
            ),
    {
        let start = self.slice_start[depth as usize];
        let end = if (depth as usize) < self.slice_start.len() - 1 {
            self.slice_start[depth as usize + 1]
        } else {
            self.tree_nodes.len()
        };
        &self.tree_nodes.as_slice()[start..end]
    }
}

/// Grouping the records of `s` by the depths below `n` keeps exactly the records
/// shallower than `n`.
proof fn lemma_grouped_len(s: Seq<NodeInfo>, n: nat)
    ensures
        grouped_by_depth(s, n).len() == s.filter(|k: NodeInfo| k.depth < n).len(),
    decreases s.len(),
{
    if s.len() == 0 {
        lemma_grouped_empty(s, n);
        reveal(Seq::filter);
    } else {
        let init = s.drop_last();
        let x = s.last();
        assert(s =~= init.push(x));
        lemma_grouped_len(init, n);
        lemma_grouped_push(init, x, n);
        init.lemma_filter_push(x, |k: NodeInfo| k.depth < n);
    }
}

proof fn lemma_grouped_empty(s: Seq<NodeInfo>, n: nat)
    requires
        s.len() == 0,
    ensures
        grouped_by_depth(s, n).len() == 0,
    decreases n,
{
    reveal(Seq::filter);
    if n > 0 {
        lemma_grouped_empty(s, (n - 1) as nat);
    }
}

/// Appending a record adds one grouped record when its depth is below `n`.
proof fn lemma_grouped_push(s: Seq<NodeInfo>, x: NodeInfo, n: nat)
    ensures
        grouped_by_depth(s.push(x), n).len() == grouped_by_depth(s, n).len() + if x.depth < n { 1int } else { 0int },
    decreases n,
{
    if n > 0 {
        lemma_grouped_push(s, x, (n - 1) as nat);
        s.lemma_filter_push(x, at_depth((n - 1) as nat));
    }
}

/// Grouping more depths only appends.
proof fn lemma_grouped_prefix(s: Seq<NodeInfo>, a: nat, b: nat)
    requires
        a <= b,
    ensures
        grouped_by_depth(s, a).len() <= grouped_by_depth(s, b).len(),
        grouped_by_depth(s, b).subrange(0, grouped_by_depth(s, a).len() as int) == grouped_by_depth(s, a),
    decreases b - a,
{
    if a < b {
        lemma_grouped_prefix(s, a, (b - 1) as nat);
        let ga = grouped_by_depth(s, a);
        let gb1 = grouped_by_depth(s, (b - 1) as nat);
        assert(grouped_by_depth(s, b).subrange(0, ga.len() as int) =~= gb1.subrange(0, ga.len() as int));
    } else {
        assert(grouped_by_depth(s, b).subrange(0, grouped_by_depth(s, a).len() as int) =~= grouped_by_depth(s, a));
    }
}

/// The table built for a tree lists every node once: as many records as the
/// tree has nodes, and at each depth as many as the tree has at that depth.
#[verifier::spinoff_prover]
#[verifier::rlimit(40)]
pub proof fn lemma_sorted_table_counts(table: SortedTreeNodes, root: OctreeNode, depth: nat)
    requires
        table.lists(root),
    ensures
        table.tree_nodes@.len() == root.size(),
        table.count_at(depth) == root.preorder().filter(at_depth(depth)).len(),
{
    let pre = root.preorder();
    let n = root.max_depth() + 1;
    root.lemma_preorder();
    lemma_grouped_len(pre, n);
    assert(pre.filter(|k: NodeInfo| k.depth < n) == pre) by {
        lemma_filter_all(pre, |k: NodeInfo| k.depth < n);
    }
    if depth + 1 < table.slice_start@.len() {
        assert(grouped_by_depth(pre, depth + 1) == grouped_by_depth(pre, depth) + pre.filter(at_depth(depth)));
    } else {
        lemma_filter_none(pre, at_depth(depth));
    }
}

/// Filtering by a predicate that every element meets keeps the sequence.
proof fn lemma_filter_all(s: Seq<NodeInfo>, p: spec_fn(NodeInfo) -> bool)
    requires
        forall|i: int| 0 <= i < s.len() ==> p(#[trigger] s[i]),
    ensures
        s.filter(p) == s,
    decreases s.len(),
{
    reveal(Seq::filter);
    if s.len() > 0 {
        lemma_filter_all(s.drop_last(), p);
        assert(s.drop_last().push(s.last()) =~= s);
    }
}

/// Filtering by a predicate that no element meets leaves nothing.
proof fn lemma_filter_none(s: Seq<NodeInfo>, p: spec_fn(NodeInfo) -> bool)
    requires
        forall|i: int| 0 <= i < s.len() ==> !p(#[trigger] s[i]),
    ensures
        s.filter(p).len() == 0,
    decreases s.len(),
{
    reveal(Seq::filter);
    if s.len() > 0 {
        lemma_filter_none(s.drop_last(), p);
    }
}

impl Octree {
    /// Build the depth-sorted node table after the tree is fully built.
    pub fn finalize(&mut self)
        requires
            old(self).root.max_depth() + 2 <= usize::MAX,
        ensures
            final(self).root == old(self).root,
            final(self).max_depth == old(self).max_depth,
            final(self).sorted_nodes is Some,
            final(self).sorted_nodes->0.wf(),
            final(self).sorted_nodes->0.lists(*final(self).root),
    {
        self.sorted_nodes = Some(SortedTreeNodes::build(&self.root));
    }

    /// The depth-sorted node table; the tree must be finalized.
    pub fn sorted(&self) -> (r: &SortedTreeNodes)
        requires
            self.sorted_nodes is Some,
        ensures
            *r == self.sorted_nodes->0,
    {
        self.sorted_nodes.as_ref().unwrap()
    }
}

/// Dense node data: a flat array indexed by node index.
///
/// After finalization each active FEM node has a unique index; this stores
/// per-node data (e.g. solution coefficients) in a flat array.
pub struct DenseNodeData<T: Clone + Default> {
    pub data: Vec<T>,
}

impl<T: Clone + Default> DenseNodeData<T> {
    /// An empty array.
    pub fn new() -> (r: Self)
        ensures
            r.data@ == Seq::<T>::empty(),
    {
        DenseNodeData { data: Vec::new() }
    }

    /// `new` is `old` grown or cut to `size` entries, the new ones clones of
    /// a value that `T::default()` returned.
    pub open spec fn resized(old: Seq<T>, new: Seq<T>, size: nat) -> bool {
        &&& new.len() == size
        &&& size <= old.len() ==> new == old.subrange(0, size as int)
        &&& size > old.len() ==> {
            &&& new.subrange(0, old.len() as int) == old
            &&& exists|d: T| #![trigger cloned::<T>(d, new[old.len() as int])]
                call_ensures(T::default, (), d) && forall|i: int| old.len() <= i < size ==> cloned::<T>(d, #[trigger] new[i])
        }
    }

    /// Grow or cut the array to `size` entries.
    pub fn resize(&mut self, size: usize)
        ensures
            Self::resized(old(self).data@, final(self).data@, size as nat),
    {
        let d = T::default();
        let ghost gd = d;
        self.data.resize(size, d);
        proof {
            if size > old(self).data@.len() {
                assert(self.data@.subrange(0, old(self).data@.len() as int) == old(self).data@);
                assert(cloned::<T>(gd, self.data@[old(self).data@.len() as int]));
            }
        }
    }

    /// Store `value` at `idx`, growing the array with defaults if needed.
    pub fn set(&mut self, idx: usize, value: T)
        requires
            idx < usize::MAX,
        ensures
            final(self).data@.len() == if idx < old(self).data@.len() { old(self).data@.len() as int } else { idx + 1 },
            final(self).data@[idx as int] == value,
            forall|i: int| 0 <= i < old(self).data@.len() && i != idx ==> #[trigger] final(self).data@[i] == old(self).data@[i],
            idx > old(self).data@.len() ==> exists|d: T| #![trigger cloned::<T>(d, final(self).data@[old(self).data@.len() as int])]
                call_ensures(T::default, (), d) && forall|i: int| old(self).data@.len() <= i < idx ==> cloned::<T>(d, #[trigger] final(self).data@[i]),
    {
        let ghost old_len = self.data@.len();
        if idx >= self.data.len() {
            let d = T::default();
            let ghost gd = d;
            self.data.resize(idx + 1, d);
            proof {
                assert(cloned::<T>(gd, self.data@[old_len as int]));
                assert(forall|i: int| 0 <= i < old_len ==> self.data@[i] == self.data@.subrange(0, old_len as int)[i]);
            }
        }
        let ghost mid = self.data@;
        self.data.set(idx, value);
        proof {
            if idx > old_len {
                assert(self.data@[old_len as int] == mid[old_len as int]);
            }
        }
    }

    /// The value at `idx`.
    pub fn get(&self, idx: usize) -> (r: &T)
        requires
            idx < self.data@.len(),
        ensures
            *r == self.data@[idx as int],
    {
        &self.data[idx]
    }

    /// The value at `idx`, to change.
    pub fn get_mut(&mut self, idx: usize) -> (r: &mut T)
        requires
            idx < old(self).data@.len(),
        ensures
            *r == old(self).data@[idx as int],
            final(self).data@ == old(self).data@.update(idx as int, *final(r)),
    {
        &mut self.data[idx]
    }

    /// Overwrite every entry with a clone of `value`.
    pub fn fill(&mut self, value: T)
        ensures
            final(self).data@.len() == old(self).data@.len(),
            forall|i: int| 0 <= i < final(self).data@.len() ==> cloned::<T>(value, #[trigger] final(self).data@[i]),
    {
        let n = self.data.len();
        let mut i: usize = 0;
        while i < n
            invariant
                i <= n,
                n == self.data@.len(),
                forall|j: int| 0 <= j < i ==> cloned::<T>(value, #[trigger] self.data@[j]),
            decreases n - i,
        {
            let v = value.clone();
            self.data.set(i, v);
            i += 1;
        }
    }
}

/// Sparse node data: values for some node indices, kept in insertion order,
/// with a map from node index to position.
pub struct SparseNodeData<T: Clone> {
    pub data: Vec<T>,
    pub indices: Vec<NodeIndex>,
    /// Map from node_index to position in data array.
    index_map: HashMap<NodeIndex, usize>,
}

impl<T: Clone> SparseNodeData<T> {
    /// The positions are consistent: `indices` and `data` run in parallel, no
    /// index occurs twice, and the map sends each index to its position.
    pub closed spec fn wf(&self) -> bool {
        &&& self.data@.len() == self.indices@.len()
        &&& forall|i: int| 0 <= i < self.indices@.len() ==> {
            &&& self.index_map@.contains_key(#[trigger] self.indices@[i])
            &&& self.index_map@[self.indices@[i]] == i
        }
        &&& forall|k: NodeIndex| #[trigger] self.index_map@.contains_key(k) ==> {
            &&& self.index_map@[k] < self.indices@.len()
            &&& self.indices@[self.index_map@[k] as int] == k
        }
    }

    /// The stored values, in insertion order.
    pub closed spec fn values(&self) -> Seq<T> {
        self.data@
    }

    /// The node indices stored, in insertion order.
    pub closed spec fn keys(&self) -> Seq<NodeIndex> {
        self.indices@
    }

    /// The values, by node index.
    pub closed spec fn view(&self) -> Map<NodeIndex, T> {
        Map::new(|k: NodeIndex| self.index_map@.contains_key(k), |k: NodeIndex| self.data@[self.index_map@[k] as int])
    }

    /// In a consistent store each node index occurs once among the keys, the
    /// `i`-th value is the value of the `i`-th key, and the indices with a
    /// value are exactly the keys.
    pub proof fn lemma_keys_values(&self)
        requires
            self.wf(),
        ensures
            self.keys().no_duplicates(),
            self.keys().len() == self.values().len(),
            forall|i: int| 0 <= i < self.keys().len() ==> #[trigger] self@.contains_key(self.keys()[i]) && self@[self.keys()[i]] == self.values()[i],
            forall|k: NodeIndex| #[trigger] self@.contains_key(k) <==> self.keys().contains(k),
    {
        assert forall|k: NodeIndex| #[trigger] self@.contains_key(k) <==> self.keys().contains(k) by {
            if self@.contains_key(k) {
                assert(self.indices@[self.index_map@[k] as int] == k);
            }
            if self.keys().contains(k) {
                let i = choose|i: int| 0 <= i < self.indices@.len() && self.indices@[i] == k;
                assert(self.index_map@.contains_key(self.indices@[i]));
            }
        }
        assert forall|i: int, j: int| 0 <= i < self.keys().len() && 0 <= j < self.keys().len() && i != j
            implies self.keys()[i] != self.keys()[j] by {
            assert(self.index_map@[self.indices@[i]] == i);
            assert(self.index_map@[self.indices@[j]] == j);
        }
    }
}

impl<T: Clone + Default> SparseNodeData<T> {
    /// No entries.
    pub fn new() -> (r: Self)
        ensures
            r.wf(),
            r@ == Map::<NodeIndex, T>::empty(),
            r.values().len() == 0,
            r.keys().len() == 0,
    {
        let r = SparseNodeData { data: Vec::new(), indices: Vec::new(), index_map: HashMap::new() };
        proof {
            assert(r@ =~= Map::<NodeIndex, T>::empty());
        }
        r
    }

    /// The value for `node_idx`, inserting a default value at the end first
    /// if there is none.
    pub fn at(&mut self, node_idx: NodeIndex) -> (r: &mut T)
        requires
            old(self).wf(),
        ensures
            final(self).wf(),
            final(self)@ == old(self)@.insert(node_idx, *final(r)),
            old(self)@.contains_key(node_idx) ==> {
                &&& *r == old(self)@[node_idx]
                &&& final(self).keys() == old(self).keys()
                &&& final(self).values() == old(self).values().update(old(self).keys().index_of(node_idx), *final(r))
            },
            !old(self)@.contains_key(node_idx) ==> {
                &&& call_ensures(T::default, (), *r)
                &&& final(self).keys() == old(self).keys().push(node_idx)
                &&& final(self).values() == old(self).values().push(*final(r))
            },
    {
        broadcast use vstd::std_specs::hash::group_hash_axioms;
        match self.index_map.get(&node_idx) {
            Some(p) => {
                let pos = *p;
                proof {
                    assert(self.index_map@.contains_key(node_idx));
                    let q = self.indices@.index_of(node_idx);
                    assert(self.indices@[pos as int] == node_idx);
                    assert(0 <= q < self.indices@.len() && self.indices@[q] == node_idx);
                    assert(self.index_map@[self.indices@[q]] == q);
                    assert(q == pos);
                }
                let r = &mut self.data[pos];
                r
            },
            None => {
                let pos = self.data.len();
                self.index_map.insert(node_idx, pos);
                self.indices.push(node_idx);
                let d = T::default();
                self.data.push(d);
                let r = &mut self.data[pos];
                r
            },
        }
    }

    /// The value for `node_idx`, if present.
    pub fn get(&self, node_idx: NodeIndex) -> (r: Option<&T>)
        requires
            self.wf(),
        ensures
            match r {
                Some(v) => self@.contains_key(node_idx) && *v == self@[node_idx],
                None => !self@.contains_key(node_idx),
            },
    {
        broadcast use vstd::std_specs::hash::group_hash_axioms;
        match self.index_map.get(&node_idx) {
            Some(p) => Some(&self.data[*p]),
            None => None,
        }
    }

    /// Number of entries.
    pub fn len(&self) -> (r: usize)
        ensures
            r == self.values().len(),
    {
        self.data.len()
    }

    /// Whether there are no entries.
    pub fn is_empty(&self) -> (r: bool)
        ensures
            r == (self.values().len() == 0),
    {
        self.data.is_empty()
    }

    /// Remove all entries.
    pub fn clear(&mut self)
        ensures
            final(self).wf(),
            final(self)@ == Map::<NodeIndex, T>::empty(),
            final(self).values().len() == 0,
            final(self).keys().len() == 0,
    {
        broadcast use vstd::std_specs::hash::group_hash_axioms;
        self.data.clear();
        self.indices.clear();
        self.index_map.clear();
        proof {
            assert(self@ =~= Map::<NodeIndex, T>::empty());
        }
    }
}

/// The grouped records up to depth `n` come depth by depth: the records from
/// position `grouped(d).len()` to `grouped(d + 1).len()` are the records at
/// depth `d`.
proof fn lemma_grouped_slice(s: Seq<NodeInfo>, d: nat, n: nat)
    requires
        d < n,
    ensures
        grouped_by_depth(s, n).subrange(grouped_by_depth(s, d).len() as int, grouped_by_depth(s, d + 1).len() as int)
            == s.filter(at_depth(d)),
{
    lemma_grouped_prefix(s, d + 1, n);
    let g1 = grouped_by_depth(s, d + 1);
    let gn = grouped_by_depth(s, n);
    let g0 = grouped_by_depth(s, d);
    assert(g1 == g0 + s.filter(at_depth(d)));
    assert(gn.subrange(0, g1.len() as int) == g1);
    assert(gn.subrange(g0.len() as int, g1.len() as int) =~= g1.subrange(g0.len() as int, g1.len() as int));
    assert(g1.subrange(g0.len() as int, g1.len() as int) =~= s.filter(at_depth(d)));
}

/// The slice that holds position `i` of the table, searched from depth `d` on.
proof fn lemma_slice_of(table: SortedTreeNodes, root: OctreeNode, i: int, d: nat) -> (e: nat)
    requires
        table.wf(),
        table.lists(root),
        0 <= i < table.tree_nodes@.len(),
        d <= root.max_depth(),
        table.slice_start@[d as int] <= i,
    ensures
        d <= e <= root.max_depth(),
        table.slice_start@[e as int] <= i < table.slice_start@[e + 1int],
    decreases root.max_depth() - d,
{
    if i < table.slice_start@[d + 1int] {
        d
    } else {
        lemma_slice_of(table, root, i, d + 1)
    }
}

/// A table built for a tree is sorted by depth: no node comes before a
/// shallower one.
pub proof fn lemma_sorted_table_depth_order(table: SortedTreeNodes, root: OctreeNode)
    requires
        table.wf(),
        table.lists(root),
    ensures
        forall|i: int, j: int| 0 <= i <= j < table.tree_nodes@.len() ==>
            (#[trigger] table.tree_nodes@[i]).depth <= (#[trigger] table.tree_nodes@[j]).depth,
{
    assert forall|i: int, j: int| 0 <= i <= j < table.tree_nodes@.len() implies
        (#[trigger] table.tree_nodes@[i]).depth <= (#[trigger] table.tree_nodes@[j]).depth by {
        let di = lemma_slice_of(table, root, i, 0);
        let dj = lemma_slice_of(table, root, j, 0);
        lemma_sorted_table_slices(table, root, di);
        lemma_sorted_table_slices(table, root, dj);
        if di > dj {
            assert(table.slice_start@[dj + 1int] <= table.slice_start@[di as int]);
        }
    }
}

/// In a table built for a tree, the slice of each depth lists exactly that
/// depth's nodes, in pre-order; so the table is sorted by depth.
pub proof fn lemma_sorted_table_slices(table: SortedTreeNodes, root: OctreeNode, depth: nat)
    requires
        table.lists(root),
        depth <= root.max_depth(),
    ensures
        table.tree_nodes@.subrange(table.slice_start@[depth as int] as int, table.slice_start@[depth + 1int] as int)
            == root.preorder().filter(at_depth(depth)),
        forall|i: int| table.slice_start@[depth as int] <= i < table.slice_start@[depth + 1int] ==> #[trigger] table.tree_nodes@[i].depth == depth,
{
    let pre = root.preorder();
    lemma_grouped_slice(pre, depth, root.max_depth() + 1);
    lemma_grouped_prefix(pre, depth, depth + 1);
    lemma_grouped_prefix(pre, depth + 1, root.max_depth() + 1);
    let lo = table.slice_start@[depth as int] as int;
    let hi = table.slice_start@[depth + 1int] as int;
    assert forall|i: int| lo <= i < hi implies #[trigger] table.tree_nodes@[i].depth == depth by {
        let f = pre.filter(at_depth(depth));
        assert(table.tree_nodes@.subrange(lo, hi)[i - lo] == table.tree_nodes@[i]);
        pre.lemma_filter_pred(at_depth(depth), i - lo);
    }
}

} // verus!
