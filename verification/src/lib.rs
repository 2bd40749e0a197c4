//! Complement-edge binary decision diagrams: the tag algebra, the reduction
//! rule that keeps nodes canonical, cofactor extraction, terminal-case
//! shortcuts for the binary operators, and the memoized recursive apply
//! engine, together with proofs that the stored diagrams stay reduced and
//! canonical and that every operator returns the edge its Boolean semantics
//! demands.

pub mod tag;
pub mod edge;
pub mod node;
pub mod ops;
pub mod store;
pub mod rules;
pub mod shortcuts;
pub mod apply;
pub mod canonicity;
