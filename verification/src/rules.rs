//! The reduction rule that canonicalizes candidate nodes, and cofactor
//! extraction through a tagged incoming edge.

use vstd::prelude::*;
use crate::tag::EdgeTag;
use crate::edge::{BCDDEdge, NodeRef, edge_rank};
use crate::node::{
    BCDDNode, valid_edge, edge_level, edge_sem, node_ok, cof_edge, extends, lemma_sem_not,
    lemma_extends_edge, lemma_extends_refl,
};
use crate::ops::BCDDOp;
use crate::store::{BCDDManager, AllocResult};

verus! {

/// Outcome of the reduction rule: an existing edge reused as is, or a
/// candidate node that still has to pass through the canonical store,
/// together with the tag the resulting edge must carry.
pub enum ReducedOrNew {
    Reduced(BCDDEdge),
    New(BCDDNode, EdgeTag),
}

/// The diagram rules of complement edge BDDs.
pub struct BCDDRules;

impl BCDDRules {
    /// Canonicalize a candidate (level, children) triple.
    ///
    /// Equal children make the test redundant: the child edge itself is the
    /// result.  Otherwise the complement-edge invariant is enforced: a
    /// `Complemented` tag on the true-branch child is stripped by inverting
    /// both children and pushing the complement onto the resulting edge.
    pub fn reduce(level: u32, t: BCDDEdge, e: BCDDEdge) -> (r: ReducedOrNew)
        ensures
            t == e ==> r == ReducedOrNew::Reduced(t),
            t != e && t.tag == EdgeTag::Complemented ==> r == ReducedOrNew::New(
                BCDDNode { level, t: t.spec_not(), e: e.spec_not() },
                EdgeTag::Complemented,
            ),
            t != e && t.tag == EdgeTag::Unchanged ==> r == ReducedOrNew::New(
                BCDDNode { level, t, e },
                EdgeTag::Unchanged,
            ),
            r matches ReducedOrNew::New(n, tag) ==> n.t.tag == EdgeTag::Unchanged,
    {
        if t == e {
            return ReducedOrNew::Reduced(t);
        }
        if t.tag == EdgeTag::Complemented {
            let node = BCDDNode { level, t: crate::edge::not_owned(t), e: crate::edge::not_owned(e) };
            ReducedOrNew::New(node, EdgeTag::Complemented)
        } else {
            ReducedOrNew::New(BCDDNode { level, t, e }, EdgeTag::Unchanged)
        }
    }

    /// The cofactor of a node seen through an incoming tag: child `0` is
    /// the true-branch child, child `1` the false-branch child, each with
    /// the incoming tag composed onto its own.  The stored node is never
    /// changed.
    pub fn cofactor(tag: EdgeTag, node: &BCDDNode, n: usize) -> (r: BCDDEdge)
        requires
            n < 2,
        ensures
            n == 0 ==> r == cof_edge(node.t, tag),
            n == 1 ==> r == cof_edge(node.e, tag),
    {
        let c = if n == 0 {
            node.t
        } else {
            node.e
        };
        if tag == EdgeTag::Unchanged {
            c
        } else {
            let ct = c.tag;
            BCDDEdge { node: c.node, tag: ct.not() }
        }
    }

    /// Both cofactors, ordered (true-branch, false-branch).
    pub fn cofactors(tag: EdgeTag, node: &BCDDNode) -> (r: (BCDDEdge, BCDDEdge))
        ensures
            r.0 == cof_edge(node.t, tag),
            r.1 == cof_edge(node.e, tag),
    {
        (Self::cofactor(tag, node, 0), Self::cofactor(tag, node, 1))
    }
}

/// Collect the two cofactors `(t, e)` assuming that the incoming edge is
/// tagged as `tag`.
#[must_use]
pub fn collect_cofactors(tag: EdgeTag, node: &BCDDNode) -> (r: (BCDDEdge, BCDDEdge))
    ensures
        r.0 == cof_edge(node.t, tag),
        r.1 == cof_edge(node.e, tag),
{
    BCDDRules::cofactors(tag, node)
}

/// Apply the reduction rule, creating a node in `m` if necessary.
///
/// The result edge denotes the Shannon triple: decide the variable at
/// `level`, follow `t` when it is true and `e` when it is false.  A
/// `Reduced` outcome increments the per-operator statistic and allocates
/// nothing; a `New` outcome goes through the canonical store, which fails
/// exactly when a fresh node is needed and the store is full.
pub fn reduce(
    m: &mut BCDDManager,
    level: u32,
    t: BCDDEdge,
    e: BCDDEdge,
    op: BCDDOp,
) -> (r: AllocResult<BCDDEdge>)
    requires
        old(m).wf(),
        valid_edge(old(m).nodes@, t),
        valid_edge(old(m).nodes@, e),
        edge_level(old(m).nodes@, t) > level,
        edge_level(old(m).nodes@, e) > level,
    ensures
        final(m).wf(),
        extends(old(m).nodes@, final(m).nodes@),
        final(m).capacity == old(m).capacity,
        r matches Ok(res) ==> valid_edge(final(m).nodes@, res) && edge_level(final(m).nodes@, res)
            >= level && forall|a: Map<u32, bool>|
            #[trigger] edge_sem(final(m).nodes@, res, a) == (if a[level] {
                edge_sem(old(m).nodes@, t, a)
            } else {
                edge_sem(old(m).nodes@, e, a)
            }),
        r is Err ==> final(m).nodes@ == old(m).nodes@ && old(m).nodes@.len() == old(m).capacity,
        old(m).nodes@.len() < old(m).capacity ==> r is Ok,
        t == e ==> r == AllocResult::<BCDDEdge>::Ok(t) && final(m).nodes@ == old(m).nodes@,
{
    let tmp = BCDDRules::reduce(level, t, e);
    match tmp {
        ReducedOrNew::Reduced(res) => {
            m.count_reduced(op);
            proof {
                lemma_extends_refl(m.nodes@);
            }
            Ok(res)
        }
        ReducedOrNew::New(node, tag) => {
            proof {
                if t.tag == EdgeTag::Complemented {
                    assert(node.t == t.spec_not() && node.e == e.spec_not());
                }
                assert(edge_rank(node.t) <= old(m).nodes@.len() && edge_rank(node.e) <= old(
                    m,
                ).nodes@.len()) by {
                    if node.t.node is Inner {
                        assert(valid_edge(old(m).nodes@, node.t));
                    }
                    if node.e.node is Inner {
                        assert(valid_edge(old(m).nodes@, node.e));
                    }
                }
            }
            match m.register_node(node) {
                Ok(i) => {
                    let res = BCDDEdge { node: NodeRef::Inner(i), tag };
                    proof {
                        let pre = old(m).nodes@;
                        let post = m.nodes@;
                        assert(node_ok(post, i as int));
                        assert forall|a: Map<u32, bool>| #[trigger] edge_sem(post, res, a) == (
                        if a[level] {
                            edge_sem(pre, t, a)
                        } else {
                            edge_sem(pre, e, a)
                        }) by {
                            lemma_extends_edge(pre, post, node.t, a);
                            lemma_extends_edge(pre, post, node.e, a);
                            if t.tag == EdgeTag::Complemented {
                                lemma_sem_not(pre, t, a);
                                lemma_sem_not(pre, e, a);
                            }
                        }
                    }
                    Ok(res)
                }
                Err(er) => Err(er),
            }
        }
    }
}

} // verus!
