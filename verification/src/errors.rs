//! Failure taxonomy of the core: every failure is an explicit, typed result.

use vstd::prelude::*;

verus! {

/// An error raised while analysing or interpreting a component.
///
/// None of these is ever swallowed: each aborts the enclosing analysis or
/// interpretation immediately.
#[derive(Clone, Copy, Debug, PartialEq, Eq, Structural)]
pub enum IrError {
    /// A port or group was referenced that does not exist.
    UndefinedReference,
    /// A topological order was requested of a graph that contains a cycle.
    CyclicGraph,
    /// Two parallel branches wrote different values to the same port since
    /// their common fork point.
    MergeConflict,
    /// A set of guarded assignments failed to settle within its iteration
    /// budget.
    NonConvergence,
    /// A control variant whose semantics are not defined by this core.
    UnsupportedControl,
}

impl IrError {
    /// A short description of the error.
    pub fn message(&self) -> (r: &'static str)
        ensures
            r@.len() > 0,
    {
        proof {
            reveal_strlit("undefined port or group reference");
            reveal_strlit("toposort requested on a cyclic graph");
            reveal_strlit("parallel branches disagree on a port value");
            reveal_strlit("assignments failed to settle");
            reveal_strlit("control variant has no defined semantics");
        }
        match self {
            IrError::UndefinedReference => "undefined port or group reference",
            IrError::CyclicGraph => "toposort requested on a cyclic graph",
            IrError::MergeConflict => "parallel branches disagree on a port value",
            IrError::NonConvergence => "assignments failed to settle",
            IrError::UnsupportedControl => "control variant has no defined semantics",
        }
    }
}

} // verus!
