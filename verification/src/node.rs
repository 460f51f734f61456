//! Nodes and scopes of the reactive arena.
//!
//! Every reactive node (signal, memo or effect) lives in one slot of
//! the runtime's arena. A slot can be reclaimed after disposal; a
//! generation counter per slot lets a stale handle be detected instead
//! of silently reading the slot's new tenant. Scopes form the ownership
//! tree along which disposal cascades; scope slots are never reused.

use crate::value::Value;
use vstd::prelude::*;

verus! {

/// A handle to a reactive node: arena slot plus the generation the
/// slot had when the node was created.
#[derive(Clone, Copy, PartialEq, Eq, Structural, Debug)]
pub struct NodeId {
    pub slot: usize,
    pub generation: u64,
}

/// A handle to a scope. Scope slots are never reused, so the slot
/// index alone identifies the scope for the lifetime of the runtime.
#[derive(Clone, Copy, PartialEq, Eq, Structural, Debug)]
pub struct ScopeId {
    pub slot: usize,
}

/// What a node is: a mutable cell, a cached derived value, or a
/// side-effecting subscriber.
#[derive(Clone, Copy, PartialEq, Eq, Structural, Debug)]
pub enum NodeKind {
    Signal,
    Memo,
    Effect,
}

/// A memo's dirtiness. `Clean` means the cached value is settled;
/// `Stale` means some transitive source changed and the cache must be
/// re-validated against source versions on the next read; `Dirty`
/// means a direct source's value changed and the memo must recompute
/// on the next read.
#[derive(Clone, Copy, PartialEq, Eq, Structural, Debug)]
pub enum NodeState {
    Clean,
    Stale,
    Dirty,
}

/// One arena slot.
pub(crate) struct Node {
    /// What the slot currently holds.
    pub(crate) kind: NodeKind,
    /// False once the owning scope was disposed; the slot may then be
    /// reclaimed for a new node under a higher generation.
    pub(crate) alive: bool,
    /// Bumped each time the slot is reclaimed.
    pub(crate) generation: u64,
    /// Slot of the owning scope.
    pub(crate) scope: usize,
    /// A signal's current value, or a memo's cached value.
    pub(crate) value: Value,
    /// Whether `value` is meaningful. Signals always carry a value; a
    /// memo carries none until its first computation finishes.
    pub(crate) has_value: bool,
    /// A memo's dirtiness; signals and effects stay `Clean`.
    pub(crate) state: NodeState,
    /// Bumped whenever the node's value actually changes. Observers
    /// remember the version they read, which lets an unchanged memo
    /// value stop dirtiness from propagating.
    pub(crate) version: u64,
    /// When set, every write counts as a change even if the new value
    /// equals the old one.
    pub(crate) always_notify: bool,
    /// True while this memo or effect is being (re)computed.
    pub(crate) running: bool,
    /// True while this effect sits in the pending queue of the current
    /// batch.
    pub(crate) queued: bool,
    /// True once this effect ran in the current batch; cleared when
    /// the batch ends. A batch never runs an effect twice: marking a
    /// resolved effect dirty again is a cycle error.
    pub(crate) resolved: bool,
    /// The nodes this computation read during its last run, as
    /// generation-stamped slots, and the version of each at the moment
    /// it was read. A stamped edge whose target slot was since disposed
    /// (or reclaimed under a new generation) is stale and ignored.
    pub(crate) sources: Vec<(usize, u64)>,
    pub(crate) source_versions: Vec<u64>,
    /// The computations that read this node during their last run, as
    /// generation-stamped slots.
    pub(crate) observers: Vec<(usize, u64)>,
    /// Cleanup callbacks (caller-owned tokens) registered during this
    /// effect's last run, in registration order.
    pub(crate) cleanups: Vec<u64>,
}

/// One scope: a disposal unit owning nodes, cleanup callbacks and
/// child scopes.
pub(crate) struct ScopeData {
    /// False once disposed. Disposal is permanent for a scope slot.
    pub(crate) alive: bool,
    /// Slot of the parent scope; the root scope points at itself.
    pub(crate) parent: usize,
    /// Owned node slots, in creation order.
    pub(crate) nodes: Vec<usize>,
    /// Owned child scope slots, in creation order. Children are
    /// created after their parent, so a child's slot index is always
    /// greater than its parent's.
    pub(crate) children: Vec<usize>,
    /// Cleanup callbacks (caller-owned tokens), in registration order.
    pub(crate) cleanups: Vec<u64>,
}

} // verus!
