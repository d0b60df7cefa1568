//! Numberlink solving by reduction to propositional satisfiability.
use vstd::prelude::*;

pub mod decode;
pub mod field;
pub mod arcs;
pub mod cardinality;
pub mod encode;
pub mod sat;
pub mod solution;

verus! {

/// Ways in which solving a puzzle can fail.
#[derive(Debug, Clone, Copy, PartialEq, Eq, Structural)]
pub enum NumberlinkError {
    /// The descriptor lacks segments, has a dimension that is not a positive
    /// decimal, or a field code with characters outside `[0-9a-zA-Z]`.
    MalformedUrl,
    /// A label occurs other than twice, or the field has no endpoint pair.
    MalformedField,
    /// No assignment satisfies the formula.
    Unsatisfiable,
    /// The grid has more arcs than the solver has variables for.
    EngineFailure,
    /// The model holds a loop apart from every endpoint chain, or a chain
    /// cannot be followed to its target.
    ReconstructionFailure,
}

} // verus!
