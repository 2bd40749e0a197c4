//! The two-valued edge tag and its group structure.

use vstd::prelude::*;

verus! {

/// Edge tag in complement edge BDDs.
///
/// An edge carries one of two tags: `Unchanged` means the edge denotes the
/// function of the referenced node, `Complemented` means it denotes the
/// negation.  Under [`EdgeTag::bitxor`] the tags form a two-element group
/// with `Unchanged` as identity; [`EdgeTag::not`] is the self-inverse flip.
#[derive(Clone, Copy, PartialEq, Eq, Structural, Debug)]
pub enum EdgeTag {
    /// The edge's semantics is the semantics of the referenced node
    Unchanged,
    /// The edge's semantics is the negation of the referenced node
    Complemented,
}

impl EdgeTag {
    /// The flipped tag.
    pub open spec fn spec_not(self) -> EdgeTag {
        match self {
            EdgeTag::Unchanged => EdgeTag::Complemented,
            EdgeTag::Complemented => EdgeTag::Unchanged,
        }
    }

    /// Flip the tag.
    #[verifier::when_used_as_spec(spec_not)]
    pub fn not(self) -> (r: EdgeTag)
        ensures
            r == self.spec_not(),
    {
        match self {
            EdgeTag::Unchanged => EdgeTag::Complemented,
            EdgeTag::Complemented => EdgeTag::Unchanged,
        }
    }

    /// The group operation: composition of two negation annotations.
    pub open spec fn spec_bitxor(self, rhs: EdgeTag) -> EdgeTag {
        if self == rhs {
            EdgeTag::Unchanged
        } else {
            EdgeTag::Complemented
        }
    }

    /// Combine two tags: the result is `Complemented` exactly when the two
    /// tags differ.
    #[verifier::when_used_as_spec(spec_bitxor)]
    pub fn bitxor(self, rhs: EdgeTag) -> (r: EdgeTag)
        ensures
            r == self.spec_bitxor(rhs),
    {
        match (self, rhs) {
            (EdgeTag::Unchanged, EdgeTag::Unchanged) => EdgeTag::Unchanged,
            (EdgeTag::Unchanged, EdgeTag::Complemented) => EdgeTag::Complemented,
            (EdgeTag::Complemented, EdgeTag::Unchanged) => EdgeTag::Complemented,
            (EdgeTag::Complemented, EdgeTag::Complemented) => EdgeTag::Unchanged,
        }
    }
}

/// The tags form a commutative group under `bitxor` with identity
/// `Unchanged`, and `not` is the self-inverse flip (composition with
/// `Complemented`).
pub proof fn lemma_tag_group(a: EdgeTag, b: EdgeTag, c: EdgeTag)
    ensures
        EdgeTag::Unchanged.spec_bitxor(a) == a,
        a.spec_bitxor(b) == b.spec_bitxor(a),
        a.spec_bitxor(b).spec_bitxor(c) == a.spec_bitxor(b.spec_bitxor(c)),
        a.spec_bitxor(a) == EdgeTag::Unchanged,
        a.spec_not() == a.spec_bitxor(EdgeTag::Complemented),
        a.spec_not().spec_not() == a,
{
}

} // verus!
