//! The errors of the engine.

use vstd::prelude::*;

verus! {

/// Everything that can go wrong while a module is defined, composed or
/// resolved.
#[derive(Debug, PartialEq, Eq)]
pub enum EngineError {
    /// A dependency slot names an interface that nothing in scope is bound to.
    UnboundDependency { component: u64, slot: u64, interface: u64 },
    /// The requested interface has no binding in scope.
    UnboundInterface { interface: u64 },
    /// Two singleton components of one module claim the same interface.
    DuplicateSingletonBinding { interface: u64 },
    /// The generic parameter with this index is used beyond its bounds, or
    /// was given a type that does not meet them.
    UnsatisfiedGenericBound { parameter: usize },
    /// The dependency relation has a cycle; the interfaces on it, each
    /// depending on the next and the last on the first.
    CyclicDependency { cycle: Vec<u64> },
    /// A configuration slot has neither a default nor an override.
    MissingRequiredParameter { component: u64, slot: u64 },
    /// The build operation of the component bound to `interface` failed.
    ComponentBuildFailed { interface: u64, cause: u64 },
    /// An invariant of the engine was violated.
    InternalError,
}

} // verus!
