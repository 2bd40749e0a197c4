//! Inner nodes, well-formedness of a node store, and the Boolean-function
//! semantics of edges.
//!
//! The store is modeled as a sequence of nodes; an edge's meaning is a
//! Boolean function of a variable assignment.  Two structural invariants
//! carry the whole design: every stored node's true-branch child is tagged
//! `Unchanged` (the complement bit is pushed onto incoming edges), and no
//! two stored nodes hold the same (level, children) triple.

use vstd::prelude::*;
use crate::tag::EdgeTag;
use crate::edge::{BCDDEdge, NodeRef, edge_rank, terminal_edge};

verus! {

/// An inner node: a decision on the variable at `level`, with the child
/// edge `t` for the variable being true and `e` for it being false.
#[derive(Clone, Copy, PartialEq, Eq, Structural, Debug)]
pub struct BCDDNode {
    /// Position of the decision variable in the fixed total order; lower
    /// levels are decided first.
    pub level: u32,
    /// Child edge for the decision variable being true.
    pub t: BCDDEdge,
    /// Child edge for the decision variable being false.
    pub e: BCDDEdge,
}

/// One past the largest value a `u32` level can take: the level of the
/// terminal, below every inner node.
pub open spec fn terminal_level() -> int {
    0x1_0000_0000
}

/// The smaller of two levels.
pub open spec fn level_min(x: int, y: int) -> int {
    if x <= y {
        x
    } else {
        y
    }
}

/// Whether the edge points into the store (or at the terminal).
pub open spec fn valid_edge(nodes: Seq<BCDDNode>, e: BCDDEdge) -> bool {
    match e.node {
        NodeRef::Terminal => true,
        NodeRef::Inner(i) => i < nodes.len(),
    }
}

/// The level of the node an edge references; the terminal sits below all
/// variables.
pub open spec fn edge_level(nodes: Seq<BCDDNode>, e: BCDDEdge) -> int {
    match e.node {
        NodeRef::Terminal => terminal_level(),
        NodeRef::Inner(i) => nodes[i as int].level as int,
    }
}

/// Well-formedness of the stored node at index `i`: children already in the
/// store (strictly below `i`), strictly larger child levels, a reduced
/// triple (distinct children), and the complement-edge invariant that the
/// true-branch child is tagged `Unchanged`.
pub open spec fn node_ok(nodes: Seq<BCDDNode>, i: int) -> bool {
    let n = nodes[i];
    &&& edge_rank(n.t) <= i
    &&& edge_rank(n.e) <= i
    &&& n.t.tag == EdgeTag::Unchanged
    &&& n.t != n.e
    &&& edge_level(nodes, n.t) > n.level
    &&& edge_level(nodes, n.e) > n.level
}

/// Every stored node is well-formed.
pub open spec fn wf_nodes(nodes: Seq<BCDDNode>) -> bool {
    forall|i: int| 0 <= i < nodes.len() ==> #[trigger] node_ok(nodes, i)
}

/// No two stored nodes hold the same (level, children) triple: the
/// content-addressed store keeps one canonical record per triple.
pub open spec fn canonical_nodes(nodes: Seq<BCDDNode>) -> bool {
    forall|i: int, j: int|
        0 <= i < nodes.len() && 0 <= j < nodes.len() && #[trigger] nodes[i] == #[trigger] nodes[j]
            ==> i == j
}

/// The Boolean function an edge denotes, at one variable assignment.  A
/// `Complemented` tag negates the referenced node's value; the terminal
/// denotes "true".  The guard on child ranks makes the recursion total; in
/// a well-formed store it always holds.
pub open spec fn edge_sem(nodes: Seq<BCDDNode>, e: BCDDEdge, a: Map<u32, bool>) -> bool
    decreases edge_rank(e),
{
    match e.node {
        NodeRef::Terminal => e.tag == EdgeTag::Unchanged,
        NodeRef::Inner(i) => {
            let n = nodes[i as int];
            if edge_rank(n.t) <= i && edge_rank(n.e) <= i {
                let b = if a[n.level] {
                    edge_sem(nodes, n.t, a)
                } else {
                    edge_sem(nodes, n.e, a)
                };
                if e.tag == EdgeTag::Unchanged {
                    b
                } else {
                    !b
                }
            } else {
                e.tag == EdgeTag::Unchanged
            }
        }
    }
}

/// A stored child edge, seen through an incoming tag: the tags compose.
pub open spec fn cof_edge(child: BCDDEdge, tag: EdgeTag) -> BCDDEdge {
    BCDDEdge { node: child.node, tag: child.tag.spec_bitxor(tag) }
}

/// Flipping an edge's tag negates its function.
pub proof fn lemma_sem_not(nodes: Seq<BCDDNode>, e: BCDDEdge, a: Map<u32, bool>)
    ensures
        edge_sem(nodes, e.spec_not(), a) == !edge_sem(nodes, e, a),
{
}

/// The semantics of a constant edge.
pub proof fn lemma_sem_terminal(nodes: Seq<BCDDNode>, val: bool, a: Map<u32, bool>)
    ensures
        edge_sem(nodes, terminal_edge(val), a) == val,
{
}

/// Shannon decomposition of an edge into an inner node, as the store
/// represents it: the edge's function decides the node's variable and then
/// follows the matching cofactor, each cofactor being the stored child with
/// the incoming tag composed on.
pub proof fn lemma_cofactor_sem(nodes: Seq<BCDDNode>, i: usize, tag: EdgeTag, a: Map<u32, bool>)
    requires
        wf_nodes(nodes),
        i < nodes.len(),
    ensures
        edge_sem(nodes, BCDDEdge { node: NodeRef::Inner(i), tag }, a) == (if a[nodes[i as int].level] {
            edge_sem(nodes, cof_edge(nodes[i as int].t, tag), a)
        } else {
            edge_sem(nodes, cof_edge(nodes[i as int].e, tag), a)
        }),
{
    let n = nodes[i as int];
    assert(node_ok(nodes, i as int));
    lemma_sem_not(nodes, n.t, a);
    lemma_sem_not(nodes, n.e, a);
    assert(cof_edge(n.t, EdgeTag::Unchanged) == n.t);
    assert(cof_edge(n.e, EdgeTag::Unchanged) == n.e);
    assert(cof_edge(n.t, EdgeTag::Complemented) == n.t.spec_not());
    assert(cof_edge(n.e, EdgeTag::Complemented) == n.e.spec_not());
}

/// An edge's function does not depend on variables decided above the node
/// it references: changing such a variable leaves the value unchanged.
pub proof fn lemma_sem_independent(
    nodes: Seq<BCDDNode>,
    e: BCDDEdge,
    a: Map<u32, bool>,
    v: u32,
    b: bool,
)
    requires
        wf_nodes(nodes),
        valid_edge(nodes, e),
        (v as int) < edge_level(nodes, e),
    ensures
        edge_sem(nodes, e, a.insert(v, b)) == edge_sem(nodes, e, a),
    decreases edge_rank(e),
{
    match e.node {
        NodeRef::Terminal => {}
        NodeRef::Inner(i) => {
            let n = nodes[i as int];
            assert(node_ok(nodes, i as int));
            assert(a.insert(v, b)[n.level] == a[n.level]);
            lemma_sem_independent(nodes, n.t, a, v, b);
            lemma_sem_independent(nodes, n.e, a, v, b);
        }
    }
}

/// How the apply engine splits one operand at a decomposition level: an
/// operand whose node sits exactly at that level contributes its two
/// cofactors, one whose node sits strictly above acts as its own cofactor
/// on both branches.
pub open spec fn split_ok(
    nodes: Seq<BCDDNode>,
    x: BCDDEdge,
    level: u32,
    xt: BCDDEdge,
    xe: BCDDEdge,
) -> bool {
    if edge_level(nodes, x) == level {
        match x.node {
            NodeRef::Inner(i) => xt == cof_edge(nodes[i as int].t, x.tag) && xe == cof_edge(
                nodes[i as int].e,
                x.tag,
            ),
            NodeRef::Terminal => false,
        }
    } else {
        edge_level(nodes, x) > level && xt == x && xe == x
    }
}

/// The two parts of a split are valid edges strictly below the split
/// level, and never rank above the operand; an operand split at its own
/// level ranks strictly down.
pub proof fn lemma_split_props(
    nodes: Seq<BCDDNode>,
    x: BCDDEdge,
    level: u32,
    xt: BCDDEdge,
    xe: BCDDEdge,
)
    requires
        wf_nodes(nodes),
        valid_edge(nodes, x),
        split_ok(nodes, x, level, xt, xe),
    ensures
        valid_edge(nodes, xt),
        valid_edge(nodes, xe),
        edge_level(nodes, xt) > level,
        edge_level(nodes, xe) > level,
        edge_rank(xt) <= edge_rank(x),
        edge_rank(xe) <= edge_rank(x),
        edge_level(nodes, x) == level ==> edge_rank(xt) < edge_rank(x) && edge_rank(xe)
            < edge_rank(x),
{
    if edge_level(nodes, x) == level {
        match x.node {
            NodeRef::Inner(i) => {
                assert(node_ok(nodes, i as int));
                let n = nodes[i as int];
                assert(valid_edge(nodes, n.t)) by {
                    if n.t.node is Inner {
                        assert(edge_rank(n.t) <= i);
                    }
                }
                assert(valid_edge(nodes, n.e)) by {
                    if n.e.node is Inner {
                        assert(edge_rank(n.e) <= i);
                    }
                }
            }
            NodeRef::Terminal => {}
        }
    }
}

/// Splitting is the Shannon decomposition: the operand's function decides
/// the variable at the split level and follows the matching part.
pub proof fn lemma_split_sem(
    nodes: Seq<BCDDNode>,
    x: BCDDEdge,
    level: u32,
    xt: BCDDEdge,
    xe: BCDDEdge,
    a: Map<u32, bool>,
)
    requires
        wf_nodes(nodes),
        valid_edge(nodes, x),
        split_ok(nodes, x, level, xt, xe),
    ensures
        edge_sem(nodes, x, a) == (if a[level] {
            edge_sem(nodes, xt, a)
        } else {
            edge_sem(nodes, xe, a)
        }),
{
    if edge_level(nodes, x) == level {
        match x.node {
            NodeRef::Inner(i) => {
                lemma_cofactor_sem(nodes, i, x.tag, a);
            }
            NodeRef::Terminal => {}
        }
    }
}

/// The second store keeps every node of the first, at the same indices.
pub open spec fn extends(pre: Seq<BCDDNode>, post: Seq<BCDDNode>) -> bool {
    pre.len() <= post.len() && post.subrange(0, pre.len() as int) == pre
}

/// A store extends itself.
pub proof fn lemma_extends_refl(s: Seq<BCDDNode>)
    ensures
        extends(s, s),
{
    assert(s.subrange(0, s.len() as int) =~= s);
}

/// `extends` is transitive.
pub proof fn lemma_extends_chain(a: Seq<BCDDNode>, b: Seq<BCDDNode>, c: Seq<BCDDNode>)
    requires
        extends(a, b),
        extends(b, c),
    ensures
        extends(a, c),
{
    assert(c.subrange(0, a.len() as int) =~= a);
}

/// In an extension, the nodes of the shorter store read the same.
pub proof fn lemma_extends_index(pre: Seq<BCDDNode>, post: Seq<BCDDNode>, i: int)
    requires
        extends(pre, post),
        0 <= i < pre.len(),
    ensures
        post[i] == pre[i],
{
    assert(post.subrange(0, pre.len() as int)[i] == post[i]);
}

/// Growing the store does not disturb an existing edge: it stays valid,
/// keeps its level, and denotes the same function.
pub proof fn lemma_extends_edge(
    pre: Seq<BCDDNode>,
    post: Seq<BCDDNode>,
    e: BCDDEdge,
    a: Map<u32, bool>,
)
    requires
        extends(pre, post),
        valid_edge(pre, e),
    ensures
        valid_edge(post, e),
        edge_level(post, e) == edge_level(pre, e),
        edge_sem(post, e, a) == edge_sem(pre, e, a),
    decreases edge_rank(e),
{
    match e.node {
        NodeRef::Terminal => {}
        NodeRef::Inner(i) => {
            lemma_extends_index(pre, post, i as int);
            let n = pre[i as int];
            if edge_rank(n.t) <= i && edge_rank(n.e) <= i {
                lemma_extends_edge(pre, post, n.t, a);
                lemma_extends_edge(pre, post, n.e, a);
            }
        }
    }
}

/// The pointwise extension fact, for every assignment at once.
pub proof fn lemma_extends_edge_all(pre: Seq<BCDDNode>, post: Seq<BCDDNode>, e: BCDDEdge)
    requires
        extends(pre, post),
        valid_edge(pre, e),
    ensures
        valid_edge(post, e),
        edge_level(post, e) == edge_level(pre, e),
        forall|a: Map<u32, bool>| #[trigger] edge_sem(post, e, a) == edge_sem(pre, e, a),
{
    assert forall|a: Map<u32, bool>| #[trigger] edge_sem(post, e, a) == edge_sem(pre, e, a) by {
        lemma_extends_edge(pre, post, e, a);
    }
    lemma_extends_edge(pre, post, e, Map::empty());
}

} // verus!
