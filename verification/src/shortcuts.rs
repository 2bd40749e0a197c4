//! Terminal-case shortcuts: O(1) structural and terminal checks that
//! resolve a binary operation without descending into children.

use vstd::prelude::*;
use crate::tag::EdgeTag;
use crate::edge::{BCDDEdge, NodeRef, get_terminal, not_owned, terminal_edge};
use crate::node::{valid_edge, edge_level, edge_sem, level_min, lemma_sem_not};
use crate::store::BCDDManager;

verus! {

/// Result of a shortcut: the operation is done, or both operands are
/// distinct inner nodes whose indices the caller decomposes via cofactors.
pub enum NodesOrDone {
    Nodes(usize, usize),
    Done(BCDDEdge),
}

/// Terminal case for 'and'.
///
/// Operands over the same node resolve by sign alone; a terminal operand
/// is an absorbing "false" or a neutral "true".  Only two distinct inner
/// nodes are left to the recursive engine.
pub fn terminal_and(m: &BCDDManager, f: BCDDEdge, g: BCDDEdge) -> (r: NodesOrDone)
    requires
        m.wf(),
        valid_edge(m.nodes@, f),
        valid_edge(m.nodes@, g),
    ensures
        f.node == g.node && f.tag == g.tag ==> r == NodesOrDone::Done(g),
        f.node == g.node && f.tag != g.tag ==> r == NodesOrDone::Done(terminal_edge(false)),
        f.node == NodeRef::Terminal && f.tag == EdgeTag::Unchanged ==> r == NodesOrDone::Done(g),
        f.node == NodeRef::Terminal && f.tag == EdgeTag::Complemented ==> r == NodesOrDone::Done(
            terminal_edge(false),
        ),
        g.node == NodeRef::Terminal && g.tag == EdgeTag::Unchanged ==> r == NodesOrDone::Done(f),
        g.node == NodeRef::Terminal && g.tag == EdgeTag::Complemented ==> r == NodesOrDone::Done(
            terminal_edge(false),
        ),
        r matches NodesOrDone::Nodes(fi, gi) ==> f.node == NodeRef::Inner(fi) && g.node
            == NodeRef::Inner(gi) && f.node != g.node,
        r matches NodesOrDone::Done(res) ==> valid_edge(m.nodes@, res) && edge_level(m.nodes@, res)
            >= level_min(edge_level(m.nodes@, f), edge_level(m.nodes@, g)) && forall|
            a: Map<u32, bool>,
        |
            #[trigger] edge_sem(m.nodes@, res, a) == (edge_sem(m.nodes@, f, a) && edge_sem(
                m.nodes@,
                g,
                a,
            )),
{
    let ft = f.tag;
    let gt = g.tag;
    if f.node == g.node {
        if ft == gt {
            return NodesOrDone::Done(g);
        }
        proof {
            assert(g == f.spec_not());
            assert forall|a: Map<u32, bool>| #[trigger] edge_sem(m.nodes@, terminal_edge(false), a)
                == (edge_sem(m.nodes@, f, a) && edge_sem(m.nodes@, g, a)) by {
                lemma_sem_not(m.nodes@, f, a);
            }
        }
        return NodesOrDone::Done(get_terminal(false));
    }
    match (f.node, g.node) {
        (NodeRef::Inner(fi), NodeRef::Inner(gi)) => NodesOrDone::Nodes(fi, gi),
        (NodeRef::Inner(_), NodeRef::Terminal) => {
            if gt == EdgeTag::Complemented {
                NodesOrDone::Done(get_terminal(false))
            } else {
                NodesOrDone::Done(f)
            }
        }
        (NodeRef::Terminal, _) => {
            if ft == EdgeTag::Complemented {
                NodesOrDone::Done(get_terminal(false))
            } else {
                NodesOrDone::Done(g)
            }
        }
    }
}

/// Terminal case for 'xor'.
///
/// Operands over the same node resolve to a constant by comparing signs; a
/// terminal operand passes the other operand through, inverted when the
/// terminal side is "true".
pub fn terminal_xor(m: &BCDDManager, f: BCDDEdge, g: BCDDEdge) -> (r: NodesOrDone)
    requires
        m.wf(),
        valid_edge(m.nodes@, f),
        valid_edge(m.nodes@, g),
    ensures
        f.node == g.node ==> r == NodesOrDone::Done(terminal_edge(f.tag != g.tag)),
        f.node == NodeRef::Terminal && g.node != NodeRef::Terminal ==> r == NodesOrDone::Done(
            if f.tag == EdgeTag::Unchanged {
                g.spec_not()
            } else {
                g
            },
        ),
        g.node == NodeRef::Terminal && f.node != NodeRef::Terminal ==> r == NodesOrDone::Done(
            if g.tag == EdgeTag::Unchanged {
                f.spec_not()
            } else {
                f
            },
        ),
        r matches NodesOrDone::Nodes(fi, gi) ==> f.node == NodeRef::Inner(fi) && g.node
            == NodeRef::Inner(gi) && f.node != g.node,
        r matches NodesOrDone::Done(res) ==> valid_edge(m.nodes@, res) && edge_level(m.nodes@, res)
            >= level_min(edge_level(m.nodes@, f), edge_level(m.nodes@, g)) && forall|
            a: Map<u32, bool>,
        |
            #[trigger] edge_sem(m.nodes@, res, a) == (edge_sem(m.nodes@, f, a) != edge_sem(
                m.nodes@,
                g,
                a,
            )),
{
    let ft = f.tag;
    let gt = g.tag;
    if f.node == g.node {
        proof {
            let res = terminal_edge(f.tag != g.tag);
            assert forall|a: Map<u32, bool>| #[trigger] edge_sem(m.nodes@, res, a) == (edge_sem(
                m.nodes@,
                f,
                a,
            ) != edge_sem(m.nodes@, g, a)) by {
                if f.tag != g.tag {
                    assert(g == f.spec_not());
                    lemma_sem_not(m.nodes@, f, a);
                }
            }
        }
        return NodesOrDone::Done(get_terminal(ft != gt));
    }
    match (f.node, g.node) {
        (NodeRef::Inner(fi), NodeRef::Inner(gi)) => NodesOrDone::Nodes(fi, gi),
        (NodeRef::Inner(_), NodeRef::Terminal) => {
            proof {
                assert forall|a: Map<u32, bool>| #[trigger] edge_sem(m.nodes@, f.spec_not(), a) == (
                edge_sem(m.nodes@, f, a) != true) by {
                    lemma_sem_not(m.nodes@, f, a);
                }
            }
            if gt == EdgeTag::Complemented {
                NodesOrDone::Done(f)
            } else {
                NodesOrDone::Done(not_owned(f))
            }
        }
        (NodeRef::Terminal, _) => {
            proof {
                assert forall|a: Map<u32, bool>| #[trigger] edge_sem(m.nodes@, g.spec_not(), a) == (
                true != edge_sem(m.nodes@, g, a)) by {
                    lemma_sem_not(m.nodes@, g, a);
                }
            }
            if ft == EdgeTag::Complemented {
                NodesOrDone::Done(g)
            } else {
                NodesOrDone::Done(not_owned(g))
            }
        }
    }
}

} // verus!
