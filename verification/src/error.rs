//! The ways in which a request to the engine fails.

use crate::sym::Sym;
use vstd::prelude::*;

verus! {

/// Why a request was refused. None of these is worth a retry: each says
/// that the graph is being used in a way it does not allow.
#[derive(Clone, Copy, Debug, PartialEq, Eq, Structural)]
pub enum RxError {
    /// The symbol was looked up in the working graph, which has no record
    /// of it.
    BadReference(Sym),
    /// The nodes to send cannot be put in an order in which every child
    /// comes before its parents.
    CycleViolation,
    /// The engine does not offer the operation: the minimal variant cannot
    /// change a node, no engine knows a schema type beyond its table, and a
    /// counter at the end of its range mints no further symbol.
    UnsupportedOperation,
    /// The reasoning engine rejected the text it was sent.
    BackendRejection,
}

} // verus!
