//! The memoized recursive apply engine: evaluate an operator over operand
//! edges by shortcut, cache lookup, Shannon decomposition at the smallest
//! operand level, recursion, and reduction into a canonical node.

use vstd::prelude::*;
use crate::tag::EdgeTag;
use crate::edge::{BCDDEdge, NodeRef, terminal_edge};
use crate::node::{
    valid_edge, edge_level, edge_sem, node_ok, level_min, extends, split_ok, lemma_cofactor_sem,
    lemma_split_props, lemma_split_sem, lemma_extends_edge, lemma_extends_edge_all,
    lemma_extends_chain, lemma_extends_refl,
};
use crate::ops::{BCDDOp, bin_op_sem};
use crate::store::{BCDDManager, AllocResult};
use crate::rules::{collect_cofactors, reduce};
use crate::shortcuts::{NodesOrDone, terminal_and, terminal_xor};

verus! {

/// Apply a binary operator (`And` or `Xor`) to two operand edges.
///
/// The result is an edge of the grown store denoting exactly the operator
/// applied to the operands' Boolean functions; nodes reached by the
/// operands are never touched, and the store can only grow.  The
/// structural clauses record the shortcut identities: equal or
/// complementary operands and terminal operands resolve without touching
/// the store at all.  The only failure is space exhaustion in the node
/// store; shortcut inputs therefore never fail.
#[verifier::rlimit(80)]
pub fn apply_bin(m: &mut BCDDManager, op: BCDDOp, f: BCDDEdge, g: BCDDEdge) -> (r: AllocResult<
    BCDDEdge,
>)
    requires
        old(m).wf(),
        op.is_binary(),
        valid_edge(old(m).nodes@, f),
        valid_edge(old(m).nodes@, g),
    ensures
        final(m).wf(),
        extends(old(m).nodes@, final(m).nodes@),
        final(m).capacity == old(m).capacity,
        r matches Ok(res) ==> valid_edge(final(m).nodes@, res) && edge_level(final(m).nodes@, res)
            >= level_min(edge_level(old(m).nodes@, f), edge_level(old(m).nodes@, g)) && forall|
            a: Map<u32, bool>,
        |
            #[trigger] edge_sem(final(m).nodes@, res, a) == bin_op_sem(
                op,
                edge_sem(old(m).nodes@, f, a),
                edge_sem(old(m).nodes@, g, a),
            ),
        r is Err ==> final(m).nodes@.len() == final(m).capacity,
        op == BCDDOp::And && f == g ==> r == AllocResult::<BCDDEdge>::Ok(f) && *final(m) == *old(
            m,
        ),
        op == BCDDOp::And && f.node == g.node && f.tag != g.tag ==> r == AllocResult::<
            BCDDEdge,
        >::Ok(terminal_edge(false)) && *final(m) == *old(m),
        op == BCDDOp::Xor && f.node == g.node ==> r == AllocResult::<BCDDEdge>::Ok(
            terminal_edge(f.tag != g.tag),
        ) && *final(m) == *old(m),
        op == BCDDOp::And && f == terminal_edge(true) ==> r == AllocResult::<BCDDEdge>::Ok(g)
            && *final(m) == *old(m),
        op == BCDDOp::And && f == terminal_edge(false) ==> r == AllocResult::<BCDDEdge>::Ok(
            terminal_edge(false),
        ) && *final(m) == *old(m),
        op == BCDDOp::Xor && f == terminal_edge(false) && g.node != NodeRef::Terminal ==> r
            == AllocResult::<BCDDEdge>::Ok(g) && *final(m) == *old(m),
    decreases crate::edge::edge_rank(f) + crate::edge::edge_rank(g),
{
    let ghost n0 = old(m).nodes@;
    let sc = if op == BCDDOp::And {
        terminal_and(m, f, g)
    } else {
        terminal_xor(m, f, g)
    };
    match sc {
        NodesOrDone::Done(res) => {
            proof {
                lemma_extends_refl(n0);
            }
            Ok(res)
        }
        NodesOrDone::Nodes(fi, gi) => {
            match m.bin_cache_get(op, f, g) {
                Some(res) => {
                    proof {
                        lemma_extends_refl(n0);
                    }
                    Ok(res)
                }
                None => {
                    let fnode = m.nodes[fi];
                    let gnode = m.nodes[gi];
                    let fl = fnode.level;
                    let gl = gnode.level;
                    let level: u32 = if fl <= gl {
                        fl
                    } else {
                        gl
                    };
                    proof {
                        assert(node_ok(n0, fi as int));
                        assert(node_ok(n0, gi as int));
                    }
                    let (fco_t, fco_e) = if fl == level {
                        collect_cofactors(f.tag, &fnode)
                    } else {
                        (f, f)
                    };
                    let (gco_t, gco_e) = if gl == level {
                        collect_cofactors(g.tag, &gnode)
                    } else {
                        (g, g)
                    };
                    let rt = match apply_bin(m, op, fco_t, gco_t) {
                        Ok(x) => x,
                        Err(er) => {
                            return Err(er);
                        }
                    };
                    let ghost n1 = m.nodes@;
                    proof {
                        lemma_extends_edge_all(n0, n1, fco_e);
                        lemma_extends_edge_all(n0, n1, gco_e);
                    }
                    let re = match apply_bin(m, op, fco_e, gco_e) {
                        Ok(x) => x,
                        Err(er) => {
                            proof {
                                lemma_extends_chain(n0, n1, m.nodes@);
                            }
                            return Err(er);
                        }
                    };
                    let ghost n2 = m.nodes@;
                    proof {
                        lemma_extends_chain(n0, n1, n2);
                        lemma_extends_edge_all(n1, n2, rt);
                        assert(edge_level(n2, rt) > level && edge_level(n2, re) > level);
                        lemma_extends_edge_all(n0, n2, f);
                        lemma_extends_edge_all(n0, n2, g);
                    }
                    let res = match reduce(m, level, rt, re, op) {
                        Ok(x) => x,
                        Err(er) => {
                            proof {
                                lemma_extends_chain(n0, n2, m.nodes@);
                            }
                            return Err(er);
                        }
                    };
                    let ghost n3 = m.nodes@;
                    proof {
                        lemma_extends_chain(n0, n2, n3);
                        assert forall|a: Map<u32, bool>| #[trigger] edge_sem(n3, res, a)
                            == bin_op_sem(op, edge_sem(n0, f, a), edge_sem(n0, g, a)) by {
                            lemma_extends_edge(n0, n1, fco_e, a);
                            lemma_extends_edge(n0, n1, gco_e, a);
                            lemma_extends_edge(n1, n2, rt, a);
                            if fl == level {
                                lemma_cofactor_sem(n0, fi, f.tag, a);
                            }
                            if gl == level {
                                lemma_cofactor_sem(n0, gi, g.tag, a);
                            }
                        }
                        lemma_extends_edge_all(n0, n3, f);
                        lemma_extends_edge_all(n0, n3, g);
                    }
                    m.bin_cache_put(op, f, g, res);
                    Ok(res)
                }
            }
        }
    }
}

/// If-then-else over three operand edges: the result denotes "when `f`
/// holds, `g`, otherwise `h`".
///
/// A constant condition selects its branch outright, and equal branches
/// make the condition irrelevant; otherwise the engine decomposes at the
/// smallest operand level exactly as the binary apply does, with its own
/// memoization cache.  The only failure is space exhaustion.
#[verifier::rlimit(100)]
#[verifier::spinoff_prover]
pub fn apply_ite(m: &mut BCDDManager, f: BCDDEdge, g: BCDDEdge, h: BCDDEdge) -> (r: AllocResult<
    BCDDEdge,
>)
    requires
        old(m).wf(),
        valid_edge(old(m).nodes@, f),
        valid_edge(old(m).nodes@, g),
        valid_edge(old(m).nodes@, h),
    ensures
        final(m).wf(),
        extends(old(m).nodes@, final(m).nodes@),
        final(m).capacity == old(m).capacity,
        r matches Ok(res) ==> valid_edge(final(m).nodes@, res) && edge_level(final(m).nodes@, res)
            >= level_min(
            edge_level(old(m).nodes@, f),
            level_min(edge_level(old(m).nodes@, g), edge_level(old(m).nodes@, h)),
        ) && forall|a: Map<u32, bool>|
            #[trigger] edge_sem(final(m).nodes@, res, a) == (if edge_sem(old(m).nodes@, f, a) {
                edge_sem(old(m).nodes@, g, a)
            } else {
                edge_sem(old(m).nodes@, h, a)
            }),
        r is Err ==> final(m).nodes@.len() == final(m).capacity,
        f == terminal_edge(true) ==> r == AllocResult::<BCDDEdge>::Ok(g) && *final(m) == *old(m),
        f == terminal_edge(false) ==> r == AllocResult::<BCDDEdge>::Ok(h) && *final(m) == *old(m),
        g == h ==> r == AllocResult::<BCDDEdge>::Ok(g) && *final(m) == *old(m),
    decreases crate::edge::edge_rank(f) + crate::edge::edge_rank(g) + crate::edge::edge_rank(h), 1int,
{
    let ghost n0 = old(m).nodes@;
    proof {
        lemma_extends_refl(n0);
    }
    match f.node {
        NodeRef::Terminal => {
            if f.tag == EdgeTag::Unchanged {
                Ok(g)
            } else {
                Ok(h)
            }
        }
        NodeRef::Inner(fi) => {
            if g == h {
                return Ok(g);
            }
            match m.ite_cache_get(f, g, h) {
                Some(res) => Ok(res),
                None => ite_descend(m, f, g, h, fi),
            }
        }
    }
}

/// The decomposition step of [`apply_ite`], once every shortcut and the
/// cache have missed: split all three operands at the smallest operand
/// level, recurse on both branches, reduce, and memoize.
#[verifier::rlimit(100)]
#[verifier::spinoff_prover]
fn ite_descend(m: &mut BCDDManager, f: BCDDEdge, g: BCDDEdge, h: BCDDEdge, fi: usize) -> (r:
    AllocResult<BCDDEdge>)
    requires
        old(m).wf(),
        valid_edge(old(m).nodes@, f),
        valid_edge(old(m).nodes@, g),
        valid_edge(old(m).nodes@, h),
        f.node == NodeRef::Inner(fi),
    ensures
        final(m).wf(),
        extends(old(m).nodes@, final(m).nodes@),
        final(m).capacity == old(m).capacity,
        r matches Ok(res) ==> valid_edge(final(m).nodes@, res) && edge_level(final(m).nodes@, res)
            >= level_min(
            edge_level(old(m).nodes@, f),
            level_min(edge_level(old(m).nodes@, g), edge_level(old(m).nodes@, h)),
        ) && forall|a: Map<u32, bool>|
            #[trigger] edge_sem(final(m).nodes@, res, a) == (if edge_sem(old(m).nodes@, f, a) {
                edge_sem(old(m).nodes@, g, a)
            } else {
                edge_sem(old(m).nodes@, h, a)
            }),
        r is Err ==> final(m).nodes@.len() == final(m).capacity,
    decreases crate::edge::edge_rank(f) + crate::edge::edge_rank(g) + crate::edge::edge_rank(h),
        0int,
{
    let ghost n0 = old(m).nodes@;
    let (level, fsp, gsp, hsp) = ite_split(m, f, g, h, fi);
    let (fco_t, fco_e) = fsp;
    let (gco_t, gco_e) = gsp;
    let (hco_t, hco_e) = hsp;
    proof {
        lemma_split_props(n0, f, level, fco_t, fco_e);
        lemma_split_props(n0, g, level, gco_t, gco_e);
        lemma_split_props(n0, h, level, hco_t, hco_e);
    }
    let rt = match apply_ite(m, fco_t, gco_t, hco_t) {
        Ok(x) => x,
        Err(er) => {
            return Err(er);
        }
    };
    let ghost n1 = m.nodes@;
    proof {
        lemma_extends_edge_all(n0, n1, fco_e);
        lemma_extends_edge_all(n0, n1, gco_e);
        lemma_extends_edge_all(n0, n1, hco_e);
    }
    let re = match apply_ite(m, fco_e, gco_e, hco_e) {
        Ok(x) => x,
        Err(er) => {
            proof {
                lemma_extends_chain(n0, n1, m.nodes@);
            }
            return Err(er);
        }
    };
    let ghost n2 = m.nodes@;
    proof {
        lemma_extends_chain(n0, n1, n2);
        lemma_extends_edge_all(n1, n2, rt);
        assert(edge_level(n2, rt) > level && edge_level(n2, re) > level);
        lemma_extends_edge_all(n0, n2, f);
        lemma_extends_edge_all(n0, n2, g);
        lemma_extends_edge_all(n0, n2, h);
    }
    let res = match reduce(m, level, rt, re, BCDDOp::Ite) {
        Ok(x) => x,
        Err(er) => {
            proof {
                lemma_extends_chain(n0, n2, m.nodes@);
            }
            return Err(er);
        }
    };
    let ghost n3 = m.nodes@;
    proof {
        lemma_extends_chain(n0, n2, n3);
        lemma_ite_glue(
            n0, n1, n2, n3, f, g, h, fco_t, fco_e, gco_t, gco_e, hco_t, hco_e, rt, re, res, level,
        );
        lemma_extends_edge_all(n0, n3, f);
        lemma_extends_edge_all(n0, n3, g);
        lemma_extends_edge_all(n0, n3, h);
    }
    m.ite_cache_put(f, g, h, res);
    Ok(res)
}

/// Pick the smallest level among the inner operands and split each operand
/// there: the decomposition step's bookkeeping, shared by both branches.
fn ite_split(m: &BCDDManager, f: BCDDEdge, g: BCDDEdge, h: BCDDEdge, fi: usize) -> (r: (
    u32,
    (BCDDEdge, BCDDEdge),
    (BCDDEdge, BCDDEdge),
    (BCDDEdge, BCDDEdge),
))
    requires
        m.wf(),
        valid_edge(m.nodes@, f),
        valid_edge(m.nodes@, g),
        valid_edge(m.nodes@, h),
        f.node == NodeRef::Inner(fi),
    ensures
        r.0 as int == level_min(
            edge_level(m.nodes@, f),
            level_min(edge_level(m.nodes@, g), edge_level(m.nodes@, h)),
        ),
        split_ok(m.nodes@, f, r.0, r.1.0, r.1.1),
        split_ok(m.nodes@, g, r.0, r.2.0, r.2.1),
        split_ok(m.nodes@, h, r.0, r.3.0, r.3.1),
        edge_level(m.nodes@, f) == r.0 || edge_level(m.nodes@, g) == r.0 || edge_level(m.nodes@, h)
            == r.0,
{
    let ghost n0 = m.nodes@;
    let fnode = m.nodes[fi];
    let mut level: u32 = fnode.level;
    match g.node {
        NodeRef::Inner(gi) => {
            let l = m.nodes[gi].level;
            if l < level {
                level = l;
            }
        }
        NodeRef::Terminal => {}
    }
    match h.node {
        NodeRef::Inner(hi) => {
            let l = m.nodes[hi].level;
            if l < level {
                level = l;
            }
        }
        NodeRef::Terminal => {}
    }
    proof {
        assert(node_ok(n0, fi as int));
    }
    let fsp = if fnode.level == level {
        collect_cofactors(f.tag, &fnode)
    } else {
        (f, f)
    };
    let gsp = match g.node {
        NodeRef::Inner(gi) => {
            let gnode = m.nodes[gi];
            proof {
                assert(node_ok(n0, gi as int));
            }
            if gnode.level == level {
                collect_cofactors(g.tag, &gnode)
            } else {
                (g, g)
            }
        }
        NodeRef::Terminal => (g, g),
    };
    let hsp = match h.node {
        NodeRef::Inner(hi) => {
            let hnode = m.nodes[hi];
            proof {
                assert(node_ok(n0, hi as int));
            }
            if hnode.level == level {
                collect_cofactors(h.tag, &hnode)
            } else {
                (h, h)
            }
        }
        NodeRef::Terminal => (h, h),
    };
    (level, fsp, gsp, hsp)
}

/// Stitch the decomposition back together: when both recursive results are
/// correct over their stores and the reduced edge decides the split level
/// between them, the reduced edge denotes the if-then-else of the original
/// operands.
proof fn lemma_ite_glue(
    n0: Seq<crate::node::BCDDNode>,
    n1: Seq<crate::node::BCDDNode>,
    n2: Seq<crate::node::BCDDNode>,
    n3: Seq<crate::node::BCDDNode>,
    f: BCDDEdge,
    g: BCDDEdge,
    h: BCDDEdge,
    fco_t: BCDDEdge,
    fco_e: BCDDEdge,
    gco_t: BCDDEdge,
    gco_e: BCDDEdge,
    hco_t: BCDDEdge,
    hco_e: BCDDEdge,
    rt: BCDDEdge,
    re: BCDDEdge,
    res: BCDDEdge,
    level: u32,
)
    requires
        crate::node::wf_nodes(n0),
        extends(n0, n1),
        extends(n1, n2),
        extends(n2, n3),
        valid_edge(n0, f),
        valid_edge(n0, g),
        valid_edge(n0, h),
        split_ok(n0, f, level, fco_t, fco_e),
        split_ok(n0, g, level, gco_t, gco_e),
        split_ok(n0, h, level, hco_t, hco_e),
        valid_edge(n1, rt),
        forall|a: Map<u32, bool>|
            #[trigger] edge_sem(n1, rt, a) == (if edge_sem(n0, fco_t, a) {
                edge_sem(n0, gco_t, a)
            } else {
                edge_sem(n0, hco_t, a)
            }),
        forall|a: Map<u32, bool>|
            #[trigger] edge_sem(n2, re, a) == (if edge_sem(n1, fco_e, a) {
                edge_sem(n1, gco_e, a)
            } else {
                edge_sem(n1, hco_e, a)
            }),
        forall|a: Map<u32, bool>|
            #[trigger] edge_sem(n3, res, a) == (if a[level] {
                edge_sem(n2, rt, a)
            } else {
                edge_sem(n2, re, a)
            }),
    ensures
        forall|a: Map<u32, bool>|
            #[trigger] edge_sem(n3, res, a) == (if edge_sem(n0, f, a) {
                edge_sem(n0, g, a)
            } else {
                edge_sem(n0, h, a)
            }),
{
    lemma_split_props(n0, f, level, fco_t, fco_e);
    lemma_split_props(n0, g, level, gco_t, gco_e);
    lemma_split_props(n0, h, level, hco_t, hco_e);
    assert forall|a: Map<u32, bool>| #[trigger] edge_sem(n3, res, a) == (if edge_sem(n0, f, a) {
        edge_sem(n0, g, a)
    } else {
        edge_sem(n0, h, a)
    }) by {
        lemma_extends_edge(n0, n1, fco_e, a);
        lemma_extends_edge(n0, n1, gco_e, a);
        lemma_extends_edge(n0, n1, hco_e, a);
        lemma_extends_edge(n1, n2, rt, a);
        lemma_split_sem(n0, f, level, fco_t, fco_e, a);
        lemma_split_sem(n0, g, level, gco_t, gco_e, a);
        lemma_split_sem(n0, h, level, hco_t, hco_e, a);
    }
}

} // verus!
