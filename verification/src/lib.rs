//! A fine-grained reactive runtime: signals, memos, effects and scopes,
//! connected by a dependency graph that is rebuilt on every run of a
//! computation, with glitch-free, batched update propagation and
//! incremental list diffing.
//!
//! The runtime owns all reactive nodes in a single arena and is driven
//! through an explicit handle: user computations (memo bodies, effect
//! bodies, cleanup callbacks) live with the caller, which runs them when
//! the runtime asks and reports reads and results back through the
//! tracking interface. This keeps every scheduling and dependency
//! decision inside the verified core while no closure is ever stored in
//! it.

use vstd::prelude::*;

pub mod diff;
pub mod idents;
pub mod node;
pub mod runtime;
pub mod value;

verus! {

/// The errors a runtime operation can report.
///
/// All three classes are programmer errors: they are surfaced at the
/// call site and never retried or swallowed.
#[derive(Clone, Copy, PartialEq, Eq, Structural, Debug)]
pub enum RuntimeError {
    /// A node or scope was used after its owning scope was disposed.
    UseAfterDispose,
    /// Update propagation reached a computation that already settled in
    /// the same batch (or is currently running), so the dependency
    /// graph is cyclic for this batch.
    CyclicDependency,
    /// A singleton slot was initialized a second time.
    DoubleInitialization,
}

} // verus!
