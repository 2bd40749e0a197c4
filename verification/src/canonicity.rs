//! Canonicity: in a well-formed canonical store, an edge is determined by
//! the Boolean function it denotes.  Consequences: repeated or reordered
//! applications of an operator, and any scheduling of a parallel run, must
//! return the identical edge.

use vstd::prelude::*;
use crate::tag::EdgeTag;
use crate::edge::{BCDDEdge, NodeRef, edge_rank};
use crate::node::{
    BCDDNode, valid_edge, edge_level, edge_sem, node_ok, wf_nodes, canonical_nodes, cof_edge,
    lemma_cofactor_sem, lemma_sem_independent,
};
use crate::ops::{BCDDOp, bin_op_sem};
use crate::store::BCDDManager;

verus! {

/// The larger of two edge ranks: the induction measure for walking two
/// diagrams at once.
pub open spec fn rank2(e1: BCDDEdge, e2: BCDDEdge) -> int {
    if edge_rank(e1) >= edge_rank(e2) {
        edge_rank(e1)
    } else {
        edge_rank(e2)
    }
}

/// An inner node's function is not constant: two assignments that differ
/// only in the node's own variable witness both values, because the
/// reduced children denote distinct functions.
proof fn lemma_nonconstant(nodes: Seq<BCDDNode>, i: usize, tag: EdgeTag) -> (r: (
    Map<u32, bool>,
    Map<u32, bool>,
    Map<u32, bool>,
))
    requires
        wf_nodes(nodes),
        canonical_nodes(nodes),
        i < nodes.len(),
    ensures
        r.1 == r.0.insert(nodes[i as int].level, true),
        r.2 == r.0.insert(nodes[i as int].level, false),
        edge_sem(nodes, BCDDEdge { node: NodeRef::Inner(i), tag }, r.1) != edge_sem(
            nodes,
            BCDDEdge { node: NodeRef::Inner(i), tag },
            r.2,
        ),
    decreases i + 1, 1int,
{
    let n = nodes[i as int];
    assert(node_ok(nodes, i as int));
    let ct = cof_edge(n.t, tag);
    let ce = cof_edge(n.e, tag);
    assert(ct != ce);
    assert(valid_edge(nodes, ct) && valid_edge(nodes, ce)) by {
        if n.t.node is Inner {
            assert(edge_rank(n.t) <= i);
        }
        if n.e.node is Inner {
            assert(edge_rank(n.e) <= i);
        }
    }
    let a0 = lemma_distinguishing(nodes, ct, ce);
    let at = a0.insert(n.level, true);
    let ae = a0.insert(n.level, false);
    let x = BCDDEdge { node: NodeRef::Inner(i), tag };
    lemma_cofactor_sem(nodes, i, tag, at);
    lemma_cofactor_sem(nodes, i, tag, ae);
    lemma_sem_independent(nodes, ct, a0, n.level, true);
    lemma_sem_independent(nodes, ce, a0, n.level, false);
    (a0, at, ae)
}

/// A terminal edge denotes a constant, an inner edge does not: some
/// assignment tells them apart.
proof fn lemma_dist_term_inner(nodes: Seq<BCDDNode>, t: BCDDEdge, x: BCDDEdge, i: usize) -> (a:
    Map<u32, bool>)
    requires
        wf_nodes(nodes),
        canonical_nodes(nodes),
        t.node == NodeRef::Terminal,
        x.node == NodeRef::Inner(i),
        i < nodes.len(),
    ensures
        edge_sem(nodes, t, a) != edge_sem(nodes, x, a),
    decreases i + 1, 2int,
{
    let (a0, at, ae) = lemma_nonconstant(nodes, i, x.tag);
    if edge_sem(nodes, t, at) != edge_sem(nodes, x, at) {
        at
    } else {
        ae
    }
}

/// Edges at different levels denote different functions: the lower node's
/// variable moves the lower edge but never the higher one.
proof fn lemma_dist_levels(nodes: Seq<BCDDNode>, lo: BCDDEdge, i: usize, hi: BCDDEdge) -> (a: Map<
    u32,
    bool,
>)
    requires
        wf_nodes(nodes),
        canonical_nodes(nodes),
        lo.node == NodeRef::Inner(i),
        i < nodes.len(),
        valid_edge(nodes, hi),
        edge_level(nodes, lo) < edge_level(nodes, hi),
    ensures
        edge_sem(nodes, lo, a) != edge_sem(nodes, hi, a),
    decreases i + 1, 2int,
{
    let (a0, at, ae) = lemma_nonconstant(nodes, i, lo.tag);
    let l = nodes[i as int].level;
    lemma_sem_independent(nodes, hi, a0, l, true);
    lemma_sem_independent(nodes, hi, a0, l, false);
    if edge_sem(nodes, lo, at) != edge_sem(nodes, hi, at) {
        at
    } else {
        ae
    }
}

/// Distinct edges of a well-formed canonical store denote distinct
/// functions: some assignment tells them apart.  This is the inductive
/// heart of canonicity.
pub proof fn lemma_distinguishing(nodes: Seq<BCDDNode>, e1: BCDDEdge, e2: BCDDEdge) -> (a: Map<
    u32,
    bool,
>)
    requires
        wf_nodes(nodes),
        canonical_nodes(nodes),
        valid_edge(nodes, e1),
        valid_edge(nodes, e2),
        e1 != e2,
    ensures
        edge_sem(nodes, e1, a) != edge_sem(nodes, e2, a),
    decreases rank2(e1, e2), 3int,
{
    match (e1.node, e2.node) {
        (NodeRef::Terminal, NodeRef::Terminal) => Map::empty(),
        (NodeRef::Terminal, NodeRef::Inner(i2)) => lemma_dist_term_inner(nodes, e1, e2, i2),
        (NodeRef::Inner(i1), NodeRef::Terminal) => lemma_dist_term_inner(nodes, e2, e1, i1),
        (NodeRef::Inner(i1), NodeRef::Inner(i2)) => {
            if i1 == i2 {
                // same node, different sign: the functions are pointwise opposite
                Map::empty()
            } else {
                let n1 = nodes[i1 as int];
                let n2 = nodes[i2 as int];
                assert(node_ok(nodes, i1 as int));
                assert(node_ok(nodes, i2 as int));
                if n1.level == n2.level {
                    let l = n1.level;
                    let ct1 = cof_edge(n1.t, e1.tag);
                    let ct2 = cof_edge(n2.t, e2.tag);
                    let ce1 = cof_edge(n1.e, e1.tag);
                    let ce2 = cof_edge(n2.e, e2.tag);
                    assert(valid_edge(nodes, ct1) && valid_edge(nodes, ce1)) by {
                        if n1.t.node is Inner {
                            assert(edge_rank(n1.t) <= i1);
                        }
                        if n1.e.node is Inner {
                            assert(edge_rank(n1.e) <= i1);
                        }
                    }
                    assert(valid_edge(nodes, ct2) && valid_edge(nodes, ce2)) by {
                        if n2.t.node is Inner {
                            assert(edge_rank(n2.t) <= i2);
                        }
                        if n2.e.node is Inner {
                            assert(edge_rank(n2.e) <= i2);
                        }
                    }
                    if ct1 != ct2 {
                        let a0 = lemma_distinguishing(nodes, ct1, ct2);
                        let a = a0.insert(l, true);
                        lemma_cofactor_sem(nodes, i1, e1.tag, a);
                        lemma_cofactor_sem(nodes, i2, e2.tag, a);
                        lemma_sem_independent(nodes, ct1, a0, l, true);
                        lemma_sem_independent(nodes, ct2, a0, l, true);
                        a
                    } else {
                        // the stored true-branch children carry no tag, so equal
                        // true-cofactors force equal signs; equal false-cofactors
                        // would then make the triples equal, against canonicity
                        assert(e1.tag == e2.tag && n1.t == n2.t);
                        assert(ce1 != ce2) by {
                            if ce1 == ce2 {
                                assert(n1.e.tag == n2.e.tag);
                                assert(n1 == n2);
                                assert(false);
                            }
                        }
                        let a0 = lemma_distinguishing(nodes, ce1, ce2);
                        let a = a0.insert(l, false);
                        lemma_cofactor_sem(nodes, i1, e1.tag, a);
                        lemma_cofactor_sem(nodes, i2, e2.tag, a);
                        lemma_sem_independent(nodes, ce1, a0, l, false);
                        lemma_sem_independent(nodes, ce2, a0, l, false);
                        a
                    }
                } else {
                    if n1.level < n2.level {
                        lemma_dist_levels(nodes, e1, i1, e2)
                    } else {
                        lemma_dist_levels(nodes, e2, i2, e1)
                    }
                }
            }
        }
    }
}

/// Canonicity: two edges of a well-formed canonical store that denote the
/// same Boolean function are the same edge, in node identity and tag.
pub proof fn lemma_canonicity(nodes: Seq<BCDDNode>, e1: BCDDEdge, e2: BCDDEdge)
    requires
        wf_nodes(nodes),
        canonical_nodes(nodes),
        valid_edge(nodes, e1),
        valid_edge(nodes, e2),
        forall|a: Map<u32, bool>| #[trigger] edge_sem(nodes, e1, a) == edge_sem(nodes, e2, a),
    ensures
        e1 == e2,
{
    if e1 != e2 {
        let a = lemma_distinguishing(nodes, e1, e2);
        assert(edge_sem(nodes, e1, a) == edge_sem(nodes, e2, a));
    }
}

/// Applying a binary operator is deterministic and idempotent: any two
/// result edges that live in one well-formed manager and both denote the
/// operator over the same operand functions are identical.  Repeating an
/// `apply` call, or racing its two cofactor branches in any schedule,
/// therefore returns the same canonical edge.
pub proof fn lemma_apply_deterministic(
    m: BCDDManager,
    op: BCDDOp,
    f: BCDDEdge,
    g: BCDDEdge,
    r1: BCDDEdge,
    r2: BCDDEdge,
)
    requires
        m.wf(),
        op.is_binary(),
        valid_edge(m.nodes@, f),
        valid_edge(m.nodes@, g),
        valid_edge(m.nodes@, r1),
        valid_edge(m.nodes@, r2),
        forall|a: Map<u32, bool>|
            #[trigger] edge_sem(m.nodes@, r1, a) == bin_op_sem(
                op,
                edge_sem(m.nodes@, f, a),
                edge_sem(m.nodes@, g, a),
            ),
        forall|a: Map<u32, bool>|
            #[trigger] edge_sem(m.nodes@, r2, a) == bin_op_sem(
                op,
                edge_sem(m.nodes@, f, a),
                edge_sem(m.nodes@, g, a),
            ),
    ensures
        r1 == r2,
{
    lemma_canonicity(m.nodes@, r1, r2);
}

/// Canonicity under repetition: apply an operator to two operands, then
/// apply it to the same operands again in the store the first call
/// produced (or any later extension of it): the second result is the first
/// call's edge, node identity and tag alike.
pub proof fn lemma_apply_repeated(
    pre: Seq<BCDDNode>,
    post: Seq<BCDDNode>,
    op: BCDDOp,
    f: BCDDEdge,
    g: BCDDEdge,
    r1: BCDDEdge,
    r2: BCDDEdge,
)
    requires
        wf_nodes(post),
        canonical_nodes(post),
        crate::node::extends(pre, post),
        op.is_binary(),
        valid_edge(pre, f),
        valid_edge(pre, g),
        valid_edge(pre, r1),
        valid_edge(post, r2),
        forall|a: Map<u32, bool>|
            #[trigger] edge_sem(pre, r1, a) == bin_op_sem(
                op,
                edge_sem(pre, f, a),
                edge_sem(pre, g, a),
            ),
        forall|a: Map<u32, bool>|
            #[trigger] edge_sem(post, r2, a) == bin_op_sem(
                op,
                edge_sem(pre, f, a),
                edge_sem(pre, g, a),
            ),
    ensures
        r2 == r1,
{
    crate::node::lemma_extends_edge_all(pre, post, r1);
    lemma_canonicity(post, r1, r2);
}

/// Commutativity: swapping the operands of `And` or `Xor` cannot change
/// the canonical result edge.
pub proof fn lemma_apply_commutative(
    m: BCDDManager,
    op: BCDDOp,
    f: BCDDEdge,
    g: BCDDEdge,
    rfg: BCDDEdge,
    rgf: BCDDEdge,
)
    requires
        m.wf(),
        op.is_binary(),
        valid_edge(m.nodes@, f),
        valid_edge(m.nodes@, g),
        valid_edge(m.nodes@, rfg),
        valid_edge(m.nodes@, rgf),
        forall|a: Map<u32, bool>|
            #[trigger] edge_sem(m.nodes@, rfg, a) == bin_op_sem(
                op,
                edge_sem(m.nodes@, f, a),
                edge_sem(m.nodes@, g, a),
            ),
        forall|a: Map<u32, bool>|
            #[trigger] edge_sem(m.nodes@, rgf, a) == bin_op_sem(
                op,
                edge_sem(m.nodes@, g, a),
                edge_sem(m.nodes@, f, a),
            ),
    ensures
        rfg == rgf,
{
    lemma_canonicity(m.nodes@, rfg, rgf);
}

/// The complement-edge invariant of every stored node, however it was
/// produced: the true-branch child is tagged `Unchanged`.
pub proof fn lemma_stored_true_child_unchanged(m: BCDDManager, i: int)
    requires
        m.wf(),
        0 <= i < m.nodes@.len(),
    ensures
        m.nodes@[i].t.tag == EdgeTag::Unchanged,
{
    assert(node_ok(m.nodes@, i));
}

} // verus!
