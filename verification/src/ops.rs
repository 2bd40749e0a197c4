//! The closed catalog of operators.

use vstd::prelude::*;

verus! {

/// Native operators of this BDD implementation.  The set is fixed; a value
/// only selects shortcut and decomposition behavior and is part of the
/// memoization key.
#[derive(Clone, Copy, PartialEq, Eq, Structural, PartialOrd, Ord, Hash, Debug)]
pub enum BCDDOp {
    And,
    Xor,
    /// If-then-else
    Ite,
    Restrict,
    /// Forall quantification
    Forall,
    /// Existential quantification
    Exist,
    /// Unique quantification
    Unique,
}

/// How many operators the catalog holds.
pub const OP_COUNT: usize = 7;

impl BCDDOp {
    /// The operator's position in the catalog.
    pub open spec fn spec_index(self) -> int {
        match self {
            BCDDOp::And => 0,
            BCDDOp::Xor => 1,
            BCDDOp::Ite => 2,
            BCDDOp::Restrict => 3,
            BCDDOp::Forall => 4,
            BCDDOp::Exist => 5,
            BCDDOp::Unique => 6,
        }
    }

    /// The operator's position in the catalog, for indexing the per-operator
    /// statistics.
    pub fn index(self) -> (i: usize)
        ensures
            i as int == self.spec_index(),
            i < OP_COUNT,
    {
        match self {
            BCDDOp::And => 0,
            BCDDOp::Xor => 1,
            BCDDOp::Ite => 2,
            BCDDOp::Restrict => 3,
            BCDDOp::Forall => 4,
            BCDDOp::Exist => 5,
            BCDDOp::Unique => 6,
        }
    }

    /// Whether this operator is one of the two-operand Boolean connectives
    /// the apply engine decomposes directly.
    pub open spec fn is_binary(self) -> bool {
        self == BCDDOp::And || self == BCDDOp::Xor
    }
}

/// The truth table of a binary operator.
pub open spec fn bin_op_sem(op: BCDDOp, x: bool, y: bool) -> bool
    recommends
        op.is_binary(),
{
    match op {
        BCDDOp::And => x && y,
        BCDDOp::Xor => x != y,
        _ => arbitrary(),
    }
}

} // verus!
