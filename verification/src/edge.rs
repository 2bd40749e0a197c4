//! Edges: tagged references to an inner node or to the single terminal.

use vstd::prelude::*;
use crate::tag::EdgeTag;

verus! {

/// What an edge points at: the single stored terminal, or an inner node
/// identified by its position in the store.
#[derive(Clone, Copy, PartialEq, Eq, Structural, Debug)]
pub enum NodeRef {
    /// The one stored terminal node, denoting Boolean "true".
    Terminal,
    /// The inner node at this index of the store.
    Inner(usize),
}

/// An edge: a node reference together with a tag.  Edges are plain values
/// compared by identity plus tag; reference counting is the storage
/// manager's concern and does not appear in this model.
#[derive(Clone, Copy, PartialEq, Eq, Structural, Debug)]
pub struct BCDDEdge {
    /// The referenced node.
    pub node: NodeRef,
    /// Whether the edge denotes the node's function or its negation.
    pub tag: EdgeTag,
}

impl BCDDEdge {
    /// The same edge with the tag flipped.
    pub open spec fn spec_not(self) -> BCDDEdge {
        BCDDEdge { node: self.node, tag: self.tag.spec_not() }
    }
}

/// Invert an edge: same node, flipped tag.
#[must_use]
pub fn not_owned(e: BCDDEdge) -> (r: BCDDEdge)
    ensures
        r == e.spec_not(),
{
    let tag = e.tag;
    BCDDEdge { node: e.node, tag: tag.not() }
}

/// Double negation: inverting an edge twice yields an edge equal to the
/// original, in identity and tag.
pub proof fn lemma_double_negation(e: BCDDEdge)
    ensures
        e.spec_not().spec_not() == e,
{
}

/// A rank that orders edges by the index of the node they reference, with
/// the terminal lowest.  A well-formed store only lets nodes point at
/// strictly lower-ranked children, so the rank is the termination measure
/// for every traversal.
pub open spec fn edge_rank(e: BCDDEdge) -> int {
    match e.node {
        NodeRef::Terminal => 0,
        NodeRef::Inner(i) => i + 1,
    }
}

/// The edge denoting the given Boolean constant: the terminal, tagged
/// `Unchanged` for "true" and `Complemented` for "false".
pub open spec fn terminal_edge(val: bool) -> BCDDEdge {
    BCDDEdge {
        node: NodeRef::Terminal,
        tag: if val {
            EdgeTag::Unchanged
        } else {
            EdgeTag::Complemented
        },
    }
}

/// Terminal nodes in complement edge binary decision diagrams.  There is
/// exactly one, denoting "true"; "false" is an edge to it tagged
/// `Complemented`.
#[derive(Clone, Copy, PartialEq, Eq, Structural, Hash, Debug)]
pub struct BCDDTerminal;

/// The edge for the Boolean constant `val`.  Never allocates and never
/// fails: both constants are tagged views of the one stored terminal.
#[must_use]
pub fn get_terminal(val: bool) -> (r: BCDDEdge)
    ensures
        r == terminal_edge(val),
{
    let t = BCDDEdge { node: NodeRef::Terminal, tag: EdgeTag::Unchanged };
    if val {
        t
    } else {
        not_owned(t)
    }
}

} // verus!
