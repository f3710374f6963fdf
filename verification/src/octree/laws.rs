//! What the octree operations do, stated over the nodes of the trees they
//! build: the records of the sorted table describe real nodes, and uniform
//! refinement leaves a tree that is full to its target depth.
use vstd::prelude::*;
use crate::octree::{
    OctreeNode, NodeInfo, SortedTreeNodes, grouped_by_depth, at_depth, refined, is_full, is_full_child,
};

verus! {

/// The nodes of the subtree at `node`, in depth-first pre-order, children in
/// their order.
pub open spec fn subtree_nodes(node: OctreeNode) -> Seq<OctreeNode>
    decreases node, 1nat,
{
    match node.children {
        None => seq![node],
        Some(c) => seq![node] + seq_subtree_nodes(c@),
    }
}

/// The nodes of the subtrees at the nodes of `s`, one subtree after another.
pub open spec fn seq_subtree_nodes(s: Seq<OctreeNode>) -> Seq<OctreeNode>
    decreases s, 0nat,
{
    if s.len() == 0 {
        Seq::empty()
    } else {
        seq_subtree_nodes(s.subrange(0, s.len() - 1)) + subtree_nodes(s[s.len() - 1])
    }
}

/// The pre-order records of a subtree describe its nodes one by one: the
/// `k`-th record has the depth and offset of the `k`-th node, and is a leaf
/// record exactly when that node has no children.
pub proof fn lemma_preorder_describes_nodes(node: OctreeNode)
    ensures
        node.preorder().len() == subtree_nodes(node).len(),
        forall|k: int| 0 <= k < node.preorder().len() ==> {
            &&& (#[trigger] node.preorder()[k]).depth == subtree_nodes(node)[k].depth
            &&& node.preorder()[k].offset == subtree_nodes(node)[k].offset
            &&& node.preorder()[k].is_leaf == (subtree_nodes(node)[k].children is None)
        },
    decreases node, 1nat,
{
    match node.children {
        None => {},
        Some(c) => {
            lemma_seq_preorder_describes_nodes(c@);
            let p = node.preorder();
            let q = subtree_nodes(node);
            assert forall|k: int| 0 <= k < p.len() implies {
                &&& (#[trigger] p[k]).depth == q[k].depth
                &&& p[k].offset == q[k].offset
                &&& p[k].is_leaf == (q[k].children is None)
            } by {
                if k > 0 {
                    assert(p[k] == OctreeNode::seq_preorder(c@)[k - 1]);
                    assert(q[k] == seq_subtree_nodes(c@)[k - 1]);
                }
            }
        },
    }
}

proof fn lemma_seq_preorder_describes_nodes(s: Seq<OctreeNode>)
    ensures
        OctreeNode::seq_preorder(s).len() == seq_subtree_nodes(s).len(),
        forall|k: int| 0 <= k < OctreeNode::seq_preorder(s).len() ==> {
            &&& (#[trigger] OctreeNode::seq_preorder(s)[k]).depth == seq_subtree_nodes(s)[k].depth
            &&& OctreeNode::seq_preorder(s)[k].offset == seq_subtree_nodes(s)[k].offset
            &&& OctreeNode::seq_preorder(s)[k].is_leaf == (seq_subtree_nodes(s)[k].children is None)
        },
    decreases s, 0nat,
{
    if s.len() > 0 {
        let init = s.subrange(0, s.len() - 1);
        let last = s[s.len() - 1];
        lemma_seq_preorder_describes_nodes(init);
        lemma_preorder_describes_nodes(last);
        let p = OctreeNode::seq_preorder(s);
        let q = seq_subtree_nodes(s);
        let a = OctreeNode::seq_preorder(init);
        let b = seq_subtree_nodes(init);
        assert forall|k: int| 0 <= k < p.len() implies {
            &&& (#[trigger] p[k]).depth == q[k].depth
            &&& p[k].offset == q[k].offset
            &&& p[k].is_leaf == (q[k].children is None)
        } by {
            if k < a.len() {
                assert(p[k] == a[k]);
                assert(q[k] == b[k]);
            } else {
                assert(p[k] == last.preorder()[k - a.len()]);
                assert(q[k] == subtree_nodes(last)[k - b.len()]);
            }
        }
    }
}

/// A node of the subtree at `node` is `node` itself or a node of the
/// subtree at one of its children.
pub proof fn lemma_subtree_node_cases(node: OctreeNode, m: OctreeNode)
    requires
        subtree_nodes(node).contains(m),
    ensures
        m == node || (node.children is Some && exists|i: int| 0 <= i < node.children->0@.len()
            && #[trigger] subtree_nodes(node.children->0@[i]).contains(m)),
{
    match node.children {
        None => {},
        Some(c) => {
            let q = subtree_nodes(node);
            let k = choose|k: int| 0 <= k < q.len() && q[k] == m;
            if k > 0 {
                assert(seq_subtree_nodes(c@)[k - 1] == m);
                lemma_seq_subtree_node_cases(c@, m);
            }
        },
    }
}

proof fn lemma_seq_subtree_node_cases(s: Seq<OctreeNode>, m: OctreeNode)
    requires
        seq_subtree_nodes(s).contains(m),
    ensures
        exists|i: int| 0 <= i < s.len() && #[trigger] subtree_nodes(s[i]).contains(m),
    decreases s.len(),
{
    if s.len() > 0 {
        let init = s.subrange(0, s.len() - 1);
        let last = s[s.len() - 1];
        let a = seq_subtree_nodes(init);
        let b = subtree_nodes(last);
        let q = seq_subtree_nodes(s);
        let k = choose|k: int| 0 <= k < q.len() && q[k] == m;
        if k < a.len() {
            assert(a[k] == m);
            lemma_seq_subtree_node_cases(init, m);
            let i = choose|i: int| 0 <= i < init.len() && #[trigger] subtree_nodes(init[i]).contains(m);
            assert(init[i] == s[i]);
        } else {
            assert(b[k - a.len()] == m);
            assert(subtree_nodes(s[s.len() - 1]).contains(m));
        }
    }
}

/// Every record of a depth grouping is a record of the sequence grouped.
proof fn lemma_grouped_from(s: Seq<NodeInfo>, n: nat)
    ensures
        forall|i: int| 0 <= i < grouped_by_depth(s, n).len() ==> s.contains(#[trigger] grouped_by_depth(s, n)[i]),
    decreases n,
{
    if n > 0 {
        lemma_grouped_from(s, (n - 1) as nat);
        let g = grouped_by_depth(s, n);
        let a = grouped_by_depth(s, (n - 1) as nat);
        let f = s.filter(at_depth((n - 1) as nat));
        assert forall|i: int| 0 <= i < g.len() implies s.contains(#[trigger] g[i]) by {
            if i < a.len() {
                assert(g[i] == a[i]);
            } else {
                assert(g[i] == f[i - a.len()]);
                assert(f.contains(f[i - a.len()]));
                s.lemma_filter_contains_rev(at_depth((n - 1) as nat), g[i]);
            }
        }
    }
}

/// `r` is the record of some node of the tree at `root`: it has that node's
/// depth and offset, and is a leaf record exactly when the node has no
/// children.
pub open spec fn records_a_node(r: NodeInfo, root: OctreeNode) -> bool {
    exists|k: int| #![trigger subtree_nodes(root)[k]] 0 <= k < subtree_nodes(root).len()
        && r.depth == subtree_nodes(root)[k].depth
        && r.offset == subtree_nodes(root)[k].offset
        && r.is_leaf == (subtree_nodes(root)[k].children is None)
}

/// Each record of a table built for a tree describes a node of that tree:
/// it has the node's depth and offset, and is a leaf record exactly when the
/// node has no children.
pub proof fn lemma_sorted_table_describes_nodes(table: SortedTreeNodes, root: OctreeNode)
    requires
        table.lists(root),
    ensures
        forall|i: int| 0 <= i < table.tree_nodes@.len() ==> #[trigger] records_a_node(table.tree_nodes@[i], root),
{
    let pre = root.preorder();
    lemma_grouped_from(pre, root.max_depth() + 1);
    lemma_preorder_describes_nodes(root);
    assert forall|i: int| 0 <= i < table.tree_nodes@.len() implies #[trigger] records_a_node(table.tree_nodes@[i], root) by {
        let r = table.tree_nodes@[i];
        assert(pre.contains(r));
        let k = choose|k: int| 0 <= k < pre.len() && pre[k] == r;
        assert(pre[k].depth == subtree_nodes(root)[k].depth);
    }
}

proof fn lemma_full_nodes(node: OctreeNode, target: u32)
    requires
        is_full(node, target),
    ensures
        forall|m: OctreeNode| #[trigger] subtree_nodes(node).contains(m) ==> {
            &&& m.depth < target ==> m.children is Some && m.children->0@.len() == 8
            &&& m.depth >= target ==> m.children is None
        },
    decreases node,
{
    if node.depth < target {
        let c = node.children->0;
        assert forall|i: int| #![trigger c@[i]] 0 <= i < c@.len() implies forall|m: OctreeNode| #[trigger] subtree_nodes(c@[i]).contains(m) ==> {
            &&& m.depth < target ==> m.children is Some && m.children->0@.len() == 8
            &&& m.depth >= target ==> m.children is None
        } by {
            assert(is_full_child(c@[i], node.depth, node.offset, i, target));
            assert(decreases_to!(node => c@[i]));
            lemma_full_nodes(c@[i], target);
        }
    }
    assert forall|m: OctreeNode| #[trigger] subtree_nodes(node).contains(m) implies {
        &&& m.depth < target ==> m.children is Some && m.children->0@.len() == 8
        &&& m.depth >= target ==> m.children is None
    } by {
        lemma_subtree_node_cases(node, m);
    }
}

/// A node is no deeper than the deepest node of its subtree, and a child's
/// subtree is no deeper than its parent's.
proof fn lemma_max_depth_bounds(node: OctreeNode)
    ensures
        node.depth <= node.max_depth(),
        node.children is Some ==> forall|i: int| 0 <= i < node.children->0@.len()
            ==> (#[trigger] node.children->0@[i]).max_depth() <= node.max_depth(),
{
    if node.children is Some {
        OctreeNode::lemma_seq_preorder(node.children->0@);
    }
}

/// Uniform refinement fills the tree: after refining a well-formed node to
/// `target`, with no node deeper than `target` before, every node shallower
/// than `target` has eight children and every node at `target` is a leaf,
/// whether or not the node had children before.
pub proof fn lemma_refined_is_full(old: OctreeNode, new: OctreeNode, target: u32)
    requires
        old.wf(),
        old.max_depth() <= target,
        refined(old, new, target),
    ensures
        forall|m: OctreeNode| #[trigger] subtree_nodes(new).contains(m) ==> {
            &&& m.depth < target ==> m.children is Some && m.children->0@.len() == 8
            &&& m.depth >= target ==> m.children is None
        },
    decreases new,
{
    lemma_max_depth_bounds(old);
    if old.depth >= target {
        if old.children is Some {
            let c = old.children->0;
            assert(c@[0].depth == old.depth + 1);
            lemma_max_depth_bounds(c@[0]);
        }
        assert forall|m: OctreeNode| #[trigger] subtree_nodes(new).contains(m) implies {
            &&& m.depth < target ==> m.children is Some && m.children->0@.len() == 8
            &&& m.depth >= target ==> m.children is None
        } by {
            lemma_subtree_node_cases(new, m);
        }
    } else {
        let c = new.children->0;
        assert forall|i: int| #![trigger c@[i]] 0 <= i < c@.len() implies forall|m: OctreeNode| #[trigger] subtree_nodes(c@[i]).contains(m) ==> {
            &&& m.depth < target ==> m.children is Some && m.children->0@.len() == 8
            &&& m.depth >= target ==> m.children is None
        } by {
            assert(decreases_to!(new => c@[i]));
            match old.children {
                Some(oc) => {
                    assert(refined(oc@[i], c@[i], target));
                    assert(oc@[i].wf());
                    lemma_refined_is_full(oc@[i], c@[i], target);
                },
                None => {
                    assert(is_full_child(c@[i], old.depth, old.offset, i, target));
                    lemma_full_nodes(c@[i], target);
                },
            }
        }
        assert forall|m: OctreeNode| #[trigger] subtree_nodes(new).contains(m) implies {
            &&& m.depth < target ==> m.children is Some && m.children->0@.len() == 8
            &&& m.depth >= target ==> m.children is None
        } by {
            lemma_subtree_node_cases(new, m);
        }
    }
}

} // verus!
