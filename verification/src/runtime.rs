//! The reactive runtime: arena, scope tree, dependency graph and
//! scheduler.
//!
//! # Driving protocol
//!
//! The runtime stores no closures. User computations live with the
//! caller, which drives them against this handle:
//!
//! - a memo body runs between [`Runtime::begin_compute`] and
//!   [`Runtime::finish_memo`]; an effect body runs after
//!   [`Runtime::next_effect`] hands it out and ends with
//!   [`Runtime::finish_effect`]; every [`Runtime::get`] issued in
//!   between is tracked as a dependency edge of the running node;
//! - [`Runtime::get`] on a memo whose cache cannot be re-validated
//!   answers [`ReadOutcome::Compute`], asking the caller to run that
//!   memo's body first — a memo is never computed except on a read;
//! - after a write, the caller drains [`Runtime::next_effect`] and runs
//!   each returned effect; cleanup callbacks are likewise returned as
//!   caller-owned tokens in the exact order they must be invoked.
//!
//! # Update propagation
//!
//! Writing a signal bumps its version and marks its direct observers
//! dirty, transitive observers stale, and queues every effect
//! downstream, each at most once per batch. Memos are pull-based: a
//! read re-validates a stale memo by comparing the versions its last
//! run recorded against its sources' current versions, recomputing only
//! when a source value actually changed; an unchanged recomputation
//! keeps the memo's version, which stops propagation ("glitch-free"
//! short-circuit). Effects are push-based and run exactly once per
//! batch, after their sources settled; propagation that reaches a node
//! already settled in the same batch is a cycle and is reported as
//! [`RuntimeError::CyclicDependency`] — a fatal error that leaves the
//! runtime unusable.
//!
//! # Edges
//!
//! Dependency edges are generation-stamped slot pairs kept on both
//! endpoints. An edge whose target slot was disposed (or reclaimed
//! under a new generation) is stale; every reader of an edge list
//! checks the stamp and ignores stale entries, which is what lets
//! disposal simply mark nodes dead without rewriting the lists of
//! every neighbour.

use crate::node::{Node, NodeId, NodeKind, NodeState, ScopeData, ScopeId};
use crate::value::{Value, ValueView};
use crate::RuntimeError;
use vstd::prelude::*;

verus! {


/// Whether any stamped edge in the list names the slot.
pub open spec fn seq_slots_contain(s: Seq<(usize, u64)>, slot: int) -> bool {
    exists|j: int| 0 <= j < s.len() && (#[trigger] s[j]).0 as int == slot
}

/// What a tracked read returns: either the settled value, or a request
/// that the caller run the named memo's compute body first.
#[derive(Debug)]
pub enum ReadOutcome {
    Ready(Value),
    Compute(NodeId),
}

/// The reactive runtime. See the module documentation for the driving
/// protocol.
pub struct Runtime {
    /// The node arena. Slots of disposed nodes are reclaimed under a
    /// bumped generation.
    pub(crate) nodes: Vec<Node>,
    /// Dead slots available for reuse.
    pub(crate) free_slots: Vec<usize>,
    /// The scope tree. Scope slots are never reused.
    pub(crate) scopes: Vec<ScopeData>,
    /// The computations currently running, innermost last, as
    /// generation-stamped slots.
    pub(crate) running_stack: Vec<(usize, u64)>,
    /// Effects awaiting execution in the current batch, in queue
    /// order, generation-stamped; entries before `cursor` already ran.
    pub(crate) pending: Vec<(usize, u64)>,
    pub(crate) cursor: usize,
    /// True from the first write of a batch until the pending queue is
    /// drained.
    pub(crate) batch_active: bool,
    /// Set when a cycle was detected; every later operation fails.
    pub(crate) poisoned: bool,
    /// Keys of singleton slots already claimed.
    pub(crate) singletons: Vec<u64>,
    /// Index of the currently open (or next) batch.
    pub(crate) batch_no: Ghost<int>,
    /// Every effect execution so far, as (batch, slot, generation)
    /// triples in execution order.
    pub(crate) run_log: Ghost<Seq<(int, int, u64)>>,
}

impl Runtime {
    // ----- spec-level vocabulary -------------------------------------

    /// Number of arena slots.
    pub closed spec fn num_slots(self) -> int {
        self.nodes@.len() as int
    }

    /// The slot holds a live (not disposed) node.
    pub closed spec fn slot_live(self, i: int) -> bool {
        0 <= i < self.nodes@.len() && self.nodes@[i].alive
    }

    pub closed spec fn slot_kind(self, i: int) -> NodeKind {
        self.nodes@[i].kind
    }

    pub closed spec fn slot_value(self, i: int) -> ValueView {
        self.nodes@[i].value@
    }

    pub closed spec fn slot_has_value(self, i: int) -> bool {
        self.nodes@[i].has_value
    }

    pub closed spec fn slot_version(self, i: int) -> u64 {
        self.nodes@[i].version
    }

    pub closed spec fn slot_state(self, i: int) -> NodeState {
        self.nodes@[i].state
    }

    pub closed spec fn slot_running(self, i: int) -> bool {
        self.nodes@[i].running
    }

    pub closed spec fn slot_queued(self, i: int) -> bool {
        self.nodes@[i].queued
    }

    pub closed spec fn slot_resolved(self, i: int) -> bool {
        self.nodes@[i].resolved
    }

    pub closed spec fn slot_generation(self, i: int) -> u64 {
        self.nodes@[i].generation
    }

    /// Whether the node notifies observers even on a write of an equal
    /// value.
    pub closed spec fn slot_always_notify(self, i: int) -> bool {
        self.nodes@[i].always_notify
    }

    /// The slot of the scope that owns the node.
    pub closed spec fn slot_scope(self, i: int) -> int {
        self.nodes@[i].scope as int
    }

    /// The generation-stamped source edges of a computation.
    pub closed spec fn slot_sources(self, i: int) -> Seq<(usize, u64)> {
        self.nodes@[i].sources@
    }

    /// The versions recorded for those reads.
    pub closed spec fn slot_source_versions(self, i: int) -> Seq<u64> {
        self.nodes@[i].source_versions@
    }

    /// The generation-stamped observer edges of a node.
    pub closed spec fn slot_observers(self, i: int) -> Seq<(usize, u64)> {
        self.nodes@[i].observers@
    }

    /// Cleanup tokens an effect's last run registered, in registration
    /// order.
    pub closed spec fn slot_cleanups(self, i: int) -> Seq<u64> {
        self.nodes@[i].cleanups@
    }

    /// The handle denotes a live node: its slot is live and still on
    /// the generation the handle was created with.
    pub closed spec fn valid(self, n: NodeId) -> bool {
        &&& self.slot_live(n.slot as int)
        &&& self.nodes@[n.slot as int].generation == n.generation
    }

    pub open spec fn is_signal(self, n: NodeId) -> bool {
        self.valid(n) && self.slot_kind(n.slot as int) == NodeKind::Signal
    }

    pub open spec fn is_memo(self, n: NodeId) -> bool {
        self.valid(n) && self.slot_kind(n.slot as int) == NodeKind::Memo
    }

    pub open spec fn is_effect(self, n: NodeId) -> bool {
        self.valid(n) && self.slot_kind(n.slot as int) == NodeKind::Effect
    }

    /// The current value of a live signal or memo.
    pub open spec fn value_of(self, n: NodeId) -> ValueView {
        self.slot_value(n.slot as int)
    }

    /// A valid handle always names a live slot inside the arena. Stated
    /// once so that callers can move from a handle to the slot-indexed
    /// frame clauses (`only_dirt_changed`, `cell_preserved`,
    /// `live_nodes_preserved`).
    pub proof fn lemma_valid_slot(self, n: NodeId)
        requires
            self.valid(n),
        ensures
            (n.slot as int) < self.num_slots(),
            self.slot_live(n.slot as int),
            self.slot_generation(n.slot as int) == n.generation,
    {
    }

    /// The stamped edge still points at the node it was created for:
    /// the slot is live and the generation matches.
    pub open spec fn edge_live(self, e: (usize, u64)) -> bool {
        self.slot_live(e.0 as int) && self.slot_generation(e.0 as int) == e.1
    }

    /// The computation at slot `o` has been notified of upstream dirt:
    /// a memo by a non-clean state, an effect by sitting in the batch's
    /// queue or having already run in it.
    pub open spec fn notified(self, o: int) -> bool {
        if self.slot_kind(o) == NodeKind::Memo {
            self.slot_state(o) != NodeState::Clean
        } else {
            self.slot_queued(o) || self.slot_resolved(o)
        }
    }

    /// Every computation still observing the node at slot `i` has been
    /// notified: what a successful write leaves behind.
    pub open spec fn observers_notified(self, i: int) -> bool {
        forall|k: int|
            0 <= k < self.slot_observers(i).len() && self.edge_live(
                #[trigger] self.slot_observers(i)[k],
            ) && self.slot_kind(self.slot_observers(i)[k].0 as int) != NodeKind::Signal
                ==> self.notified(self.slot_observers(i)[k].0 as int)
    }

    pub closed spec fn scope_live(self, s: ScopeId) -> bool {
        0 <= (s.slot as int) < self.scopes@.len() && self.scopes@[s.slot as int].alive
    }

    /// Cleanup tokens registered on a scope, in registration order.
    pub closed spec fn scope_cleanups(self, s: ScopeId) -> Seq<u64> {
        self.scopes@[s.slot as int].cleanups@
    }

    pub closed spec fn num_scopes(self) -> int {
        self.scopes@.len() as int
    }

    /// A cycle was detected; the runtime is dead.
    pub closed spec fn is_poisoned(self) -> bool {
        self.poisoned
    }

    pub closed spec fn in_batch(self) -> bool {
        self.batch_active
    }

    /// A computation is currently running (reads are being tracked).
    pub closed spec fn tracking(self) -> bool {
        self.running_stack@.len() > 0
    }

    /// The innermost running computation's slot.
    pub closed spec fn current_observer(self) -> int {
        self.running_stack@[self.running_stack@.len() - 1].0 as int
    }

    /// The stack of running computations, as stamped slots.
    pub closed spec fn run_stack(self) -> Seq<(usize, u64)> {
        self.running_stack@
    }

    pub closed spec fn singleton_taken(self, key: u64) -> bool {
        self.singletons@.contains(key)
    }

    /// Index of the batch currently open (or the next to open).
    pub closed spec fn batch_index(self) -> int {
        self.batch_no@
    }

    /// The history of effect executions, as (batch, slot, generation)
    /// triples in execution order.
    pub closed spec fn effect_runs(self) -> Seq<(int, int, u64)> {
        self.run_log@
    }

    /// A vector never holds more than `usize::MAX` elements.
    proof fn lemma_len_bound(self)
        ensures
            self.nodes@.len() <= usize::MAX,
    {
        assert(vstd::std_specs::vec::spec_vec_len(&self.nodes) == self.nodes@.len());
    }

    // ----- well-formedness -------------------------------------------

    /// The stamped edge still points at the node it was created for.
    pub(crate) open spec fn entry_valid(self, e: (usize, u64)) -> bool {
        self.slot_live(e.0 as int) && self.nodes@[e.0 as int].generation == e.1
    }

    /// Structural facts about one live node.
    pub(crate) open spec fn node_wf(self, i: int) -> bool {
        let nd = self.nodes@[i];
        &&& nd.scope < self.scopes@.len()
        &&& nd.sources@.len() == nd.source_versions@.len()
        &&& (nd.kind == NodeKind::Signal ==> nd.sources@.len() == 0 && nd.has_value && nd.state
            == NodeState::Clean && !nd.running && !nd.queued && !nd.resolved)
        &&& (nd.kind == NodeKind::Effect ==> nd.observers@.len() == 0 && nd.state
            == NodeState::Clean && nd.has_value)
        &&& (nd.kind == NodeKind::Memo ==> !nd.queued && !nd.resolved)
        &&& (nd.kind == NodeKind::Memo && !nd.has_value ==> nd.state == NodeState::Dirty)
        &&& (nd.kind == NodeKind::Memo && nd.running ==> nd.state == NodeState::Dirty)
        &&& (nd.kind == NodeKind::Effect && nd.running ==> nd.resolved && !nd.queued)
        &&& (forall|k: int|
            0 <= k < nd.sources@.len() ==> (#[trigger] nd.sources@[k]).0 < self.nodes@.len()
                && nd.sources@[k].1 <= self.nodes@[nd.sources@[k].0 as int].generation)
        &&& (forall|k: int|
            0 <= k < nd.observers@.len() ==> (#[trigger] nd.observers@[k]).0 < self.nodes@.len()
                && nd.observers@[k].1 <= self.nodes@[nd.observers@[k].0 as int].generation)
    }

    /// A memo's live source edges are mutual: the source lists the
    /// memo back, so a change of the source is guaranteed to notify it.
    pub(crate) open spec fn settled_edges_at(self, i: int) -> bool {
        let nd = self.nodes@[i];
        nd.kind == NodeKind::Memo ==> forall|k: int|
            0 <= k < nd.sources@.len() && self.entry_valid(#[trigger] nd.sources@[k])
                ==> self.nodes@[nd.sources@[k].0 as int].observers@.contains(
                (i as usize, nd.generation),
            )
    }

    /// The inverse direction: every live memo observer edge is backed
    /// by a source edge on the observer's side, stamped with this
    /// node's current generation.
    pub(crate) open spec fn observer_backed_at(self, i: int) -> bool {
        let nd = self.nodes@[i];
        forall|k: int|
            0 <= k < nd.observers@.len() && self.entry_valid(#[trigger] nd.observers@[k])
                && self.nodes@[nd.observers@[k].0 as int].kind == NodeKind::Memo
                ==> self.nodes@[nd.observers@[k].0 as int].sources@.contains(
                (i as usize, nd.generation),
            )
    }

    /// A settled memo's recorded versions agree with its live sources'
    /// current versions: its cache has seen every change so far.
    pub(crate) open spec fn records_current_at(self, i: int) -> bool {
        let nd = self.nodes@[i];
        nd.kind == NodeKind::Memo && (nd.state == NodeState::Clean || nd.running) ==> forall|
            k: int,
        |
            0 <= k < nd.sources@.len() && self.entry_valid(#[trigger] nd.sources@[k])
                ==> nd.source_versions@[k] == self.nodes@[nd.sources@[k].0 as int].version
    }

    /// A computation counts as notified of upstream dirt: a memo by a
    /// non-clean state, an effect by sitting in the queue or having
    /// already run this batch.
    pub(crate) open spec fn marked(self, o: int) -> bool {
        if self.nodes@[o].kind == NodeKind::Memo {
            self.nodes@[o].state != NodeState::Clean
        } else {
            self.nodes@[o].queued || self.nodes@[o].resolved
        }
    }

    /// Dirtiness is closed under live observer edges: every observer of
    /// a non-clean memo has been notified. Together with
    /// `records_current_at` this is the glitch-freedom invariant: a
    /// clean memo can have no transitive source whose change it has not
    /// seen.
    pub(crate) open spec fn dirt_closed_at(self, i: int) -> bool {
        let nd = self.nodes@[i];
        nd.kind == NodeKind::Memo && nd.state != NodeState::Clean ==> forall|k: int|
            0 <= k < nd.observers@.len() && self.entry_valid(#[trigger] nd.observers@[k])
                && self.nodes@[nd.observers@[k].0 as int].kind == NodeKind::Memo
                ==> self.marked(nd.observers@[k].0 as int)
    }

    /// Every live node is listed by its (live) owning scope.
    pub(crate) open spec fn owned_at(self, i: int) -> bool {
        let nd = self.nodes@[i];
        &&& (nd.scope as int) < self.scopes@.len()
        &&& self.scopes@[nd.scope as int].alive
        &&& self.scopes@[nd.scope as int].nodes@.contains(i as usize)
    }

    /// Structural facts about one live scope.
    pub(crate) open spec fn scope_wf(self, s: int) -> bool {
        let sc = self.scopes@[s];
        &&& sc.parent <= s
        &&& (forall|k: int|
            0 <= k < sc.children@.len() ==> s < (#[trigger] sc.children@[k] as int)
                < self.scopes@.len())
        &&& (forall|k: int|
            0 <= k < sc.nodes@.len() ==> (#[trigger] sc.nodes@[k] as int) < self.nodes@.len())
    }

    /// One pending-queue entry that has not run yet.
    pub(crate) open spec fn pending_entry_wf(self, j: int) -> bool {
        let e = self.pending@[j];
        &&& (e.0 as int) < self.nodes@.len()
        &&& e.1 <= self.nodes@[e.0 as int].generation
        &&& (self.entry_valid(e) ==> self.nodes@[e.0 as int].kind == NodeKind::Effect
            && self.nodes@[e.0 as int].queued && !self.nodes@[e.0 as int].resolved
            && !self.nodes@[e.0 as int].running)
    }

    /// One running-stack entry.
    pub(crate) open spec fn running_entry_wf(self, j: int) -> bool {
        let e = self.running_stack@[j];
        &&& (e.0 as int) < self.nodes@.len()
        &&& e.1 <= self.nodes@[e.0 as int].generation
        &&& (self.entry_valid(e) ==> self.nodes@[e.0 as int].running && self.nodes@[e.0 as int].kind
            != NodeKind::Signal)
    }

    pub(crate) open spec fn scheduler_wf(self) -> bool {
        &&& self.cursor <= self.pending@.len()
        &&& (forall|j: int| self.cursor <= j < self.pending@.len() ==> self.pending_entry_wf(j))
        &&& (forall|j1: int, j2: int|
            self.cursor <= j1 < self.pending@.len() && self.cursor <= j2 < self.pending@.len()
                && j1 != j2 && self.entry_valid(self.pending@[j1]) && self.entry_valid(
                self.pending@[j2],
            ) ==> self.pending@[j1].0 != self.pending@[j2].0)
        &&& (forall|i: int|
            #![trigger self.nodes@[i].queued]
            self.slot_live(i) && self.nodes@[i].queued ==> exists|j: int|
                self.cursor <= j < self.pending@.len() && self.pending@[j] == (
                i as usize,
                self.nodes@[i].generation,
                ))
        &&& (forall|j: int| 0 <= j < self.running_stack@.len() ==> self.running_entry_wf(j))
        &&& (forall|j1: int, j2: int|
            0 <= j1 < self.running_stack@.len() && 0 <= j2 < self.running_stack@.len() && j1 != j2
                && self.entry_valid(self.running_stack@[j1]) && self.entry_valid(
                self.running_stack@[j2],
            ) ==> self.running_stack@[j1].0 != self.running_stack@[j2].0)
        &&& (forall|i: int|
            #![trigger self.nodes@[i].running]
            self.slot_live(i) && self.nodes@[i].running ==> exists|j: int|
                0 <= j < self.running_stack@.len() && self.running_stack@[j] == (
                i as usize,
                self.nodes@[i].generation,
                ))
        &&& (!self.batch_active ==> self.pending@.len() == self.cursor && (forall|i: int|
            self.slot_live(i) ==> !(#[trigger] self.nodes@[i].resolved) && !self.nodes@[i].queued))
    }

    /// The once-per-batch bookkeeping: the run log never repeats a
    /// (batch, slot, generation) triple, logs only past or current
    /// batches, and an effect is flagged resolved exactly when the
    /// current batch already logged it.
    pub(crate) open spec fn log_wf(self) -> bool {
        &&& (forall|j1: int, j2: int|
            0 <= j1 < self.run_log@.len() && 0 <= j2 < self.run_log@.len() && j1 != j2
                ==> self.run_log@[j1] != self.run_log@[j2])
        &&& (forall|j: int|
            0 <= j < self.run_log@.len() ==> (#[trigger] self.run_log@[j]).0 <= self.batch_no@
                && 0 <= self.run_log@[j].1 < self.nodes@.len() && self.run_log@[j].2
                <= self.nodes@[self.run_log@[j].1].generation)
        &&& (forall|j: int|
            0 <= j < self.run_log@.len() && (#[trigger] self.run_log@[j]).0 == self.batch_no@ ==> {
                let e = self.run_log@[j].1;
                0 <= e < self.nodes@.len() && (self.nodes@[e].alive && self.nodes@[e].generation
                    == self.run_log@[j].2 ==> self.nodes@[e].resolved)
            })
        &&& (forall|i: int|
            #![trigger self.nodes@[i].resolved]
            self.slot_live(i) && self.nodes@[i].resolved ==> self.run_log@.contains(
                (self.batch_no@, i, self.nodes@[i].generation),
            ))
    }

    pub(crate) open spec fn free_wf(self) -> bool {
        &&& (forall|j: int|
            0 <= j < self.free_slots@.len() ==> (#[trigger] self.free_slots@[j] as int)
                < self.nodes@.len() && !self.nodes@[self.free_slots@[j] as int].alive)
        &&& (forall|j1: int, j2: int|
            0 <= j1 < self.free_slots@.len() && 0 <= j2 < self.free_slots@.len() && j1 != j2
                ==> self.free_slots@[j1] != self.free_slots@[j2])
    }

    /// Entries of the pending queue that already ran (before the
    /// cursor) are unconstrained; this strips them.
    pub closed spec fn pending_left(self) -> Seq<(usize, u64)> {
        self.pending@.subrange(self.cursor as int, self.pending@.len() as int)
    }

    /// Dirtiness closure over the whole arena.
    pub(crate) open spec fn dirt_all(self) -> bool {
        forall|i: int| #![trigger self.dirt_closed_at(i)] self.slot_live(i) ==> self.dirt_closed_at(i)
    }

    /// Everything in the invariant except the dirtiness closure (which
    /// the marking traversal re-establishes only when it finishes).
    pub(crate) open spec fn wf_but_dirt(self) -> bool {
        &&& (forall|i: int| #![trigger self.node_wf(i)] self.slot_live(i) ==> self.node_wf(i))
        &&& (forall|i: int|
            #![trigger self.settled_edges_at(i)]
            self.slot_live(i) ==> self.settled_edges_at(i))
        &&& (forall|i: int|
            #![trigger self.observer_backed_at(i)]
            self.slot_live(i) ==> self.observer_backed_at(i))
        &&& (forall|i: int|
            #![trigger self.records_current_at(i)]
            self.slot_live(i) ==> self.records_current_at(i))
        &&& (forall|i: int| #![trigger self.owned_at(i)] self.slot_live(i) ==> self.owned_at(i))
        &&& (forall|s: int|
            #![trigger self.scope_wf(s)]
            0 <= s < self.scopes@.len() && self.scopes@[s].alive ==> self.scope_wf(s))
        &&& self.free_wf()
        &&& self.scheduler_wf()
        &&& self.log_wf()
        &&& self.scopes@.len() >= 1
    }

    pub(crate) open spec fn wf_inner(self) -> bool {
        self.wf_but_dirt() && self.dirt_all()
    }

    /// The runtime's invariant. Every public operation preserves it; a
    /// poisoned (cycle-stricken) runtime only ever answers errors, so
    /// nothing further is claimed of it.
    pub closed spec fn wf(self) -> bool {
        !self.poisoned ==> self.wf_inner()
    }

    // ----- construction ----------------------------------------------

    /// Creates a runtime with one live root scope and returns both.
    pub fn new() -> (r: (Runtime, ScopeId))
        ensures
            r.0.wf(),
            !r.0.is_poisoned(),
            !r.0.in_batch(),
            !r.0.tracking(),
            r.0.scope_live(r.1),
            r.0.scope_cleanups(r.1) == Seq::<u64>::empty(),
            r.0.num_slots() == 0,
            r.0.effect_runs() == Seq::<(int, int, u64)>::empty(),
    {
        let mut scopes: Vec<ScopeData> = Vec::new();
        scopes.push(
            ScopeData {
                alive: true,
                parent: 0,
                nodes: Vec::new(),
                children: Vec::new(),
                cleanups: Vec::new(),
            },
        );
        let rt = Runtime {
            nodes: Vec::new(),
            free_slots: Vec::new(),
            scopes,
            running_stack: Vec::new(),
            pending: Vec::new(),
            cursor: 0,
            batch_active: false,
            poisoned: false,
            singletons: Vec::new(),
            batch_no: Ghost(0int),
            run_log: Ghost(Seq::empty()),
        };
        let root = ScopeId { slot: 0 };
        (rt, root)
    }

    /// The node arena and every node in it are unchanged.
    pub closed spec fn same_nodes(self, other: Runtime) -> bool {
        self.nodes@ == other.nodes@ && self.free_slots@ == other.free_slots@
    }

    /// The scope tree is unchanged.
    pub closed spec fn same_scopes(self, other: Runtime) -> bool {
        self.scopes@ == other.scopes@
    }

    /// Queue, running stack, batch state, log and singletons are
    /// unchanged.
    pub closed spec fn same_scheduler(self, other: Runtime) -> bool {
        &&& self.pending@ == other.pending@
        &&& self.cursor == other.cursor
        &&& self.running_stack@ == other.running_stack@
        &&& self.batch_active == other.batch_active
        &&& self.batch_no@ == other.batch_no@
        &&& self.run_log@ == other.run_log@
        &&& self.singletons@ == other.singletons@
    }

    /// The invariant does not watch the singleton table, and watches
    /// scopes only through liveness, node lists and children bounds:
    /// an operation that leaves the arena and the scheduler alone and
    /// only appends scopes, appends in-bounds children, or extends
    /// cleanup lists preserves it.
    proof fn lemma_nodes_untouched_wf(self, pre: Runtime)
        requires
            pre.wf_inner(),
            self.nodes@ == pre.nodes@,
            self.free_slots@ == pre.free_slots@,
            self.pending@ == pre.pending@,
            self.cursor == pre.cursor,
            self.running_stack@ == pre.running_stack@,
            self.batch_active == pre.batch_active,
            self.batch_no@ == pre.batch_no@,
            self.run_log@ == pre.run_log@,
            self.scopes@.len() >= pre.scopes@.len(),
            forall|s: int|
                0 <= s < pre.scopes@.len() ==> (#[trigger] self.scopes@[s]).alive
                    == pre.scopes@[s].alive && self.scopes@[s].parent == pre.scopes@[s].parent
                    && self.scopes@[s].nodes@ == pre.scopes@[s].nodes@,
            forall|s: int, k: int|
                #![trigger self.scopes@[s].children@[k]]
                0 <= s < pre.scopes@.len() && self.scopes@[s].alive && 0 <= k
                    < self.scopes@[s].children@.len() ==> s < (
                self.scopes@[s].children@[k] as int) < self.scopes@.len(),
            forall|s: int|
                pre.scopes@.len() <= s < self.scopes@.len() && (#[trigger] self.scopes@[s]).alive
                    ==> self.scopes@[s].parent <= s && self.scopes@[s].children@.len() == 0
                    && self.scopes@[s].nodes@.len() == 0,
        ensures
            self.wf_inner(),
    {
        assert forall|i: int| self.slot_live(i) implies self.node_wf(i) by {
            assert(pre.node_wf(i));
        }
        assert forall|i: int| self.slot_live(i) implies self.settled_edges_at(i) by {
            assert(pre.settled_edges_at(i));
        }
        assert forall|i: int| self.slot_live(i) implies self.observer_backed_at(i) by {
            assert(pre.observer_backed_at(i));
            let nd = self.nodes@[i];
            assert forall|k: int|
                0 <= k < nd.observers@.len() && self.entry_valid(#[trigger] nd.observers@[k])
                    && self.nodes@[nd.observers@[k].0 as int].kind
                    == NodeKind::Memo implies self.nodes@[nd.observers@[k].0 as int].sources@.contains(
                (i as usize, nd.generation),
            ) by {
                assert(nd.observers@ == pre.nodes@[i].observers@);
                assert(nd.generation == pre.nodes@[i].generation);
                assert(pre.entry_valid(nd.observers@[k]));
                assert(pre.nodes@[nd.observers@[k].0 as int].sources@
                    == self.nodes@[nd.observers@[k].0 as int].sources@);
            }
        }
        assert forall|i: int| self.slot_live(i) implies self.records_current_at(i) by {
            assert(pre.records_current_at(i));
        }
        assert forall|i: int| self.slot_live(i) implies self.dirt_closed_at(i) by {
            assert(pre.dirt_closed_at(i));
        }
        assert forall|i: int| self.slot_live(i) implies self.owned_at(i) by {
            assert(pre.owned_at(i));
            assert(self.scopes@[self.nodes@[i].scope as int].nodes@ == pre.scopes@[pre.nodes@[i].scope as int].nodes@);
        }
        assert forall|s: int|
            0 <= s < self.scopes@.len() && self.scopes@[s].alive implies self.scope_wf(s) by {
            if s < pre.scopes@.len() {
                assert(pre.scope_wf(s));
                assert forall|k: int|
                    0 <= k < self.scopes@[s].nodes@.len() implies (
                #[trigger] self.scopes@[s].nodes@[k] as int) < self.nodes@.len() by {
                    assert(self.scopes@[s].nodes@ == pre.scopes@[s].nodes@);
                }
            }
        }
        assert(self.free_wf()) by {
            assert forall|j: int|
                0 <= j < self.free_slots@.len() implies (#[trigger] self.free_slots@[j] as int)
                < self.nodes@.len() && !self.nodes@[self.free_slots@[j] as int].alive by {
                assert(pre.free_slots@[j] == self.free_slots@[j]);
            }
        }
        assert(self.scheduler_wf()) by {
            assert forall|j: int|
                self.cursor <= j < self.pending@.len() implies self.pending_entry_wf(j) by {
                assert(pre.pending_entry_wf(j));
            }
            assert forall|j: int|
                0 <= j < self.running_stack@.len() implies self.running_entry_wf(j) by {
                assert(pre.running_entry_wf(j));
            }
            assert forall|i: int|
                self.slot_live(i) && self.nodes@[i].queued implies exists|j: int|
                self.cursor <= j < self.pending@.len() && self.pending@[j] == (
                i as usize,
                self.nodes@[i].generation,
            ) by {
                assert(pre.slot_live(i) && pre.nodes@[i].queued);
            }
        }
        assert(self.log_wf()) by {
            assert forall|i: int|
                self.slot_live(i) && self.nodes@[i].resolved implies self.run_log@.contains(
                (self.batch_no@, i, self.nodes@[i].generation),
            ) by {
                assert(pre.slot_live(i) && pre.nodes@[i].resolved);
            }
        }
    }

    // ----- scopes ----------------------------------------------------

    /// Creates a child scope of `parent`. Fails with `UseAfterDispose`
    /// exactly when `parent` is already disposed.
    pub fn create_child_scope(&mut self, parent: ScopeId) -> (r: Result<ScopeId, RuntimeError>)
        requires
            old(self).wf(),
        ensures
            final(self).wf(),
            old(self).is_poisoned() ==> r == Err::<ScopeId, _>(RuntimeError::CyclicDependency)
                && *final(self) == *old(self),
            !old(self).is_poisoned() && !old(self).scope_live(parent) ==> r == Err::<
                ScopeId,
                _,
            >(RuntimeError::UseAfterDispose) && *final(self) == *old(self),
            !old(self).is_poisoned() && old(self).scope_live(parent) ==> {
                &&& r is Ok
                &&& final(self).scope_live(r->Ok_0)
                &&& r->Ok_0.slot == old(self).num_scopes()
                &&& final(self).scope_cleanups(r->Ok_0) == Seq::<u64>::empty()
                &&& final(self).num_scopes() == old(self).num_scopes() + 1
                &&& final(self).same_nodes(*old(self))
                &&& final(self).same_scheduler(*old(self))
                &&& !final(self).is_poisoned()
                &&& (forall|s: ScopeId| old(self).scope_live(s) ==> final(self).scope_live(s))
                &&& (forall|s: ScopeId|
                    old(self).scope_live(s) ==> final(self).scope_cleanups(s) == old(
                        self,
                    ).scope_cleanups(s))
            },
    {
        if self.poisoned {
            return Err(RuntimeError::CyclicDependency);
        }
        if parent.slot >= self.scopes.len() || !self.scopes[parent.slot].alive {
            return Err(RuntimeError::UseAfterDispose);
        }
        let child_slot = self.scopes.len();
        self.scopes.push(
            ScopeData {
                alive: true,
                parent: parent.slot,
                nodes: Vec::new(),
                children: Vec::new(),
                cleanups: Vec::new(),
            },
        );
        self.scopes[parent.slot].children.push(child_slot);
        proof {
            let pre = *old(self);
            assert forall|s: int, k: int|
                #![trigger self.scopes@[s].children@[k]]
                0 <= s < pre.scopes@.len() && self.scopes@[s].alive && 0 <= k
                    < self.scopes@[s].children@.len() implies s < (
            self.scopes@[s].children@[k] as int) < self.scopes@.len() by {
                assert(pre.scope_wf(s));
                if s == parent.slot as int {
                    assert(self.scopes@[s].children@ == pre.scopes@[s].children@.push(child_slot));
                    if k < pre.scopes@[s].children@.len() {
                        assert(self.scopes@[s].children@[k] == pre.scopes@[s].children@[k]);
                    } else {
                        assert(self.scopes@[s].children@[k] == child_slot);
                    }
                } else {
                    assert(self.scopes@[s].children@ == pre.scopes@[s].children@);
                }
            }
            self.lemma_nodes_untouched_wf(pre);
        }
        Ok(ScopeId { slot: child_slot })
    }

    /// Registers a cleanup callback (a caller-owned token) on a scope.
    /// Tokens are later handed back in the order the callbacks must
    /// run. Fails with `UseAfterDispose` exactly when the scope is
    /// disposed.
    pub fn on_cleanup(&mut self, scope: ScopeId, token: u64) -> (r: Result<(), RuntimeError>)
        requires
            old(self).wf(),
        ensures
            final(self).wf(),
            old(self).is_poisoned() ==> r == Err::<(), _>(RuntimeError::CyclicDependency) && *final(self) == *old(self),
            !old(self).is_poisoned() && !old(self).scope_live(scope) ==> r == Err::<
                (),
                _,
            >(RuntimeError::UseAfterDispose) && *final(self) == *old(self),
            !old(self).is_poisoned() && old(self).scope_live(scope) ==> {
                &&& r == Ok::<_, RuntimeError>(())
                &&& final(self).scope_cleanups(scope) == old(self).scope_cleanups(scope).push(
                    token,
                )
                &&& final(self).same_nodes(*old(self))
                &&& final(self).same_scheduler(*old(self))
                &&& !final(self).is_poisoned()
                &&& final(self).num_scopes() == old(self).num_scopes()
                &&& (forall|s: ScopeId| final(self).scope_live(s) == old(self).scope_live(s))
                &&& (forall|s: ScopeId|
                    s.slot != scope.slot && old(self).scope_live(s)
                        ==> final(self).scope_cleanups(s) == old(self).scope_cleanups(s))
            },
    {
        if self.poisoned {
            return Err(RuntimeError::CyclicDependency);
        }
        if scope.slot >= self.scopes.len() || !self.scopes[scope.slot].alive {
            return Err(RuntimeError::UseAfterDispose);
        }
        self.scopes[scope.slot].cleanups.push(token);
        proof {
            let pre = *old(self);
            assert forall|s: int, k: int|
                #![trigger self.scopes@[s].children@[k]]
                0 <= s < pre.scopes@.len() && self.scopes@[s].alive && 0 <= k
                    < self.scopes@[s].children@.len() implies s < (
            self.scopes@[s].children@[k] as int) < self.scopes@.len() by {
                assert(pre.scope_wf(s));
                assert(self.scopes@[s].children@ == pre.scopes@[s].children@);
            }
            self.lemma_nodes_untouched_wf(pre);
        }
        Ok(())
    }

    // ----- singleton slots -------------------------------------------

    /// Claims a process-wide singleton slot (integration points that
    /// must exist at most once). Fails with `DoubleInitialization`
    /// exactly when the key was already claimed.
    pub fn init_singleton(&mut self, key: u64) -> (r: Result<(), RuntimeError>)
        requires
            old(self).wf(),
        ensures
            final(self).wf(),
            old(self).is_poisoned() ==> r == Err::<(), _>(RuntimeError::CyclicDependency) && *final(self) == *old(self),
            !old(self).is_poisoned() && old(self).singleton_taken(key) ==> r == Err::<
                (),
                _,
            >(RuntimeError::DoubleInitialization) && *final(self) == *old(self),
            !old(self).is_poisoned() && !old(self).singleton_taken(key) ==> {
                &&& r == Ok::<_, RuntimeError>(())
                &&& final(self).singleton_taken(key)
                &&& final(self).same_nodes(*old(self))
                &&& !final(self).is_poisoned()
                &&& (forall|k: u64|
                    k != key ==> final(self).singleton_taken(k) == old(self).singleton_taken(k))
            },
    {
        if self.poisoned {
            return Err(RuntimeError::CyclicDependency);
        }
        let mut j: usize = 0;
        while j < self.singletons.len()
            invariant
                *self == *old(self),
                old(self).wf(),
                !old(self).is_poisoned(),
                j <= self.singletons@.len(),
                forall|t: int| 0 <= t < j ==> self.singletons@[t] != key,
            decreases self.singletons@.len() - j,
        {
            if self.singletons[j] == key {
                assert(old(self).singleton_taken(key)) by {
                    assert(old(self).singletons@[j as int] == key);
                }
                return Err(RuntimeError::DoubleInitialization);
            }
            j = j + 1;
        }
        proof {
            if old(self).singleton_taken(key) {
                let w = choose|w: int|
                    0 <= w < old(self).singletons@.len() && old(self).singletons@[w] == key;
                assert(false);
            }
        }
        self.singletons.push(key);
        proof {
            let pre = *old(self);
            assert(self.singletons@ == pre.singletons@.push(key));
            assert(self.singletons@.contains(key)) by {
                assert(self.singletons@[self.singletons@.len() - 1] == key);
            }
            assert forall|k: u64| k != key implies self.singleton_taken(k) == pre.singleton_taken(
                k,
            ) by {
                if pre.singletons@.contains(k) {
                    let w = choose|w: int| 0 <= w < pre.singletons@.len() && pre.singletons@[w] == k;
                    assert(self.singletons@[w] == k);
                }
                if self.singletons@.contains(k) {
                    let w = choose|w: int| 0 <= w < self.singletons@.len() && self.singletons@[w] == k;
                    assert(pre.singletons@[w] == k);
                }
            }
            assert(self.wf()) by {
                if !self.poisoned {
                    assert forall|s: int, k: int|
                        #![trigger self.scopes@[s].children@[k]]
                        0 <= s < pre.scopes@.len() && self.scopes@[s].alive && 0 <= k
                            < self.scopes@[s].children@.len() implies s < (
                    self.scopes@[s].children@[k] as int) < self.scopes@.len() by {
                        assert(pre.scope_wf(s));
                        assert(self.scopes@[s].children@ == pre.scopes@[s].children@);
                    }
                    self.lemma_nodes_untouched_wf(pre);
                }
            }
        }
        Ok(())
    }

    /// Releases a singleton slot, so it can be claimed again (for
    /// integration points torn down with their scope).
    pub fn release_singleton(&mut self, key: u64) -> (r: Result<(), RuntimeError>)
        requires
            old(self).wf(),
        ensures
            final(self).wf(),
            old(self).is_poisoned() ==> r == Err::<(), _>(RuntimeError::CyclicDependency) && *final(self) == *old(self),
            !old(self).is_poisoned() ==> {
                &&& r == Ok::<_, RuntimeError>(())
                &&& !final(self).singleton_taken(key)
                &&& final(self).same_nodes(*old(self))
                &&& !final(self).is_poisoned()
                &&& (forall|k: u64|
                    k != key ==> final(self).singleton_taken(k) == old(self).singleton_taken(k))
            },
    {
        if self.poisoned {
            return Err(RuntimeError::CyclicDependency);
        }
        let mut kept: Vec<u64> = Vec::new();
        let mut j: usize = 0;
        while j < self.singletons.len()
            invariant
                *self == *old(self),
                old(self).wf(),
                !old(self).is_poisoned(),
                j <= self.singletons@.len(),
                forall|t: int| 0 <= t < kept@.len() ==> kept@[t] != key,
                forall|k: u64|
                    #![trigger kept@.contains(k)]
                    kept@.contains(k) == (self.singletons@.subrange(0, j as int).contains(k) && k
                        != key),
            decreases self.singletons@.len() - j,
        {
            let ghost pre_kept = kept@;
            let ghost pre_sub = self.singletons@.subrange(0, j as int);
            let ghost post_sub = self.singletons@.subrange(0, j + 1);
            let v = self.singletons[j];
            if v != key {
                kept.push(v);
            }
            proof {
                assert(post_sub == pre_sub.push(v));
                assert forall|k: u64| #![trigger kept@.contains(k)]
                    kept@.contains(k) == (post_sub.contains(k) && k != key) by {
                    if kept@.contains(k) {
                        let w = choose|w: int| 0 <= w < kept@.len() && kept@[w] == k;
                        if w < pre_kept.len() {
                            assert(pre_kept[w] == k);
                            assert(pre_kept.contains(k));
                            let u = choose|u: int| 0 <= u < pre_sub.len() && pre_sub[u] == k;
                            assert(post_sub[u] == k);
                        } else {
                            assert(k == v);
                            assert(post_sub[post_sub.len() - 1] == v);
                        }
                        assert(post_sub.contains(k));
                    }
                    if post_sub.contains(k) && k != key {
                        let w = choose|w: int| 0 <= w < post_sub.len() && post_sub[w] == k;
                        if w < pre_sub.len() {
                            assert(pre_sub[w] == k);
                            assert(pre_sub.contains(k));
                            assert(pre_kept.contains(k));
                            let u = choose|u: int| 0 <= u < pre_kept.len() && pre_kept[u] == k;
                            assert(kept@[u] == k);
                        } else {
                            assert(k == v && v != key);
                            assert(kept@[kept@.len() - 1] == v);
                        }
                        assert(kept@.contains(k));
                    }
                }
            }
            j = j + 1;
        }
        proof {
            assert(self.singletons@.subrange(0, self.singletons@.len() as int) == self.singletons@);
        }
        self.singletons = kept;
        proof {
            let pre = *old(self);
            assert(!self.singleton_taken(key)) by {
                if self.singletons@.contains(key) {
                    let w = choose|w: int|
                        0 <= w < self.singletons@.len() && self.singletons@[w] == key;
                }
            }
            assert(self.wf()) by {
                if !self.poisoned {
                    assert forall|s: int, k: int|
                        #![trigger self.scopes@[s].children@[k]]
                        0 <= s < pre.scopes@.len() && self.scopes@[s].alive && 0 <= k
                            < self.scopes@[s].children@.len() implies s < (
                    self.scopes@[s].children@[k] as int) < self.scopes@.len() by {
                        assert(pre.scope_wf(s));
                        assert(self.scopes@[s].children@ == pre.scopes@[s].children@);
                    }
                    self.lemma_nodes_untouched_wf(pre);
                }
            }
        }
        Ok(())
    }

    // ----- node creation ---------------------------------------------

    /// The node at slot `i` is the same in both runtimes (the slot may
    /// be dead in both).
    pub open spec fn node_preserved(self, post: Runtime, i: int) -> bool {
        &&& post.slot_live(i) == self.slot_live(i)
        &&& post.slot_kind(i) == self.slot_kind(i)
        &&& post.slot_value(i) == self.slot_value(i)
        &&& post.slot_has_value(i) == self.slot_has_value(i)
        &&& post.slot_version(i) == self.slot_version(i)
        &&& post.slot_state(i) == self.slot_state(i)
        &&& post.slot_running(i) == self.slot_running(i)
        &&& post.slot_queued(i) == self.slot_queued(i)
        &&& post.slot_resolved(i) == self.slot_resolved(i)
        &&& post.slot_generation(i) == self.slot_generation(i)
        &&& post.slot_sources(i) == self.slot_sources(i)
        &&& post.slot_source_versions(i) == self.slot_source_versions(i)
        &&& post.slot_observers(i) == self.slot_observers(i)
        &&& post.slot_cleanups(i) == self.slot_cleanups(i)
    }

    /// Every node live before is preserved (so in particular every
    /// valid handle stays valid and means the same node).
    pub open spec fn live_nodes_preserved(self, post: Runtime) -> bool {
        forall|i: int| self.slot_live(i) ==> #[trigger] self.node_preserved(post, i)
    }

    /// What a freshly created node looks like.
    pub open spec fn fresh_node(
        self,
        id: NodeId,
        kind: NodeKind,
        v: ValueView,
        has_value: bool,
        state: NodeState,
        scope: ScopeId,
    ) -> bool {
        &&& self.valid(id)
        &&& self.slot_kind(id.slot as int) == kind
        &&& self.slot_value(id.slot as int) == v
        &&& self.slot_has_value(id.slot as int) == has_value
        &&& self.slot_state(id.slot as int) == state
        &&& self.slot_version(id.slot as int) == 0
        &&& !self.slot_running(id.slot as int)
        &&& !self.slot_resolved(id.slot as int)
        &&& self.slot_sources(id.slot as int) == Seq::<(usize, u64)>::empty()
        &&& self.slot_observers(id.slot as int) == Seq::<(usize, u64)>::empty()
        &&& self.slot_cleanups(id.slot as int) == Seq::<u64>::empty()
    }

    /// Allocates one arena slot for a new node owned by `scope`,
    /// reusing a dead slot under a bumped generation when one is
    /// available.
    fn alloc_node(
        &mut self,
        scope: ScopeId,
        kind: NodeKind,
        value: Value,
        has_value: bool,
        state: NodeState,
        always_notify: bool,
    ) -> (r: Result<NodeId, RuntimeError>)
        requires
            old(self).wf(),
            kind == NodeKind::Signal ==> has_value && state == NodeState::Clean,
            kind == NodeKind::Memo ==> !has_value && state == NodeState::Dirty,
            kind == NodeKind::Effect ==> has_value && state == NodeState::Clean,
        ensures
            final(self).wf(),
            old(self).is_poisoned() ==> r == Err::<NodeId, _>(RuntimeError::CyclicDependency)
                && *final(self) == *old(self),
            !old(self).is_poisoned() && !old(self).scope_live(scope) ==> r == Err::<
                NodeId,
                _,
            >(RuntimeError::UseAfterDispose) && *final(self) == *old(self),
            !old(self).is_poisoned() && old(self).scope_live(scope) ==> {
                &&& r is Ok
                &&& !old(self).valid(r->Ok_0)
                &&& !old(self).slot_live(r->Ok_0.slot as int)
                &&& final(self).fresh_node(r->Ok_0, kind, value@, has_value, state, scope)
                &&& final(self).slot_always_notify(r->Ok_0.slot as int) == always_notify
                &&& !final(self).slot_queued(r->Ok_0.slot as int)
                &&& old(self).live_nodes_preserved(*final(self))
                &&& final(self).same_scheduler(*old(self))
                &&& !final(self).is_poisoned()
                &&& final(self).num_scopes() == old(self).num_scopes()
                &&& (forall|sc: ScopeId| final(self).scope_live(sc) == old(self).scope_live(sc))
                &&& (forall|sc: ScopeId|
                    old(self).scope_live(sc) ==> final(self).scope_cleanups(sc) == old(
                        self,
                    ).scope_cleanups(sc))
            },
    {
        if self.poisoned {
            return Err(RuntimeError::CyclicDependency);
        }
        if scope.slot >= self.scopes.len() || !self.scopes[scope.slot].alive {
            return Err(RuntimeError::UseAfterDispose);
        }
        let ghost pre = *old(self);
        let mut reuse: Option<usize> = None;
        if self.free_slots.len() > 0 {
            let cand = match self.free_slots.pop() {
                Some(c) => c,
                None => 0,
            };
            if self.nodes[cand].generation < u64::MAX {
                reuse = Some(cand);
            }
        }
        let ghost mid = *self;
        let slot: usize;
        let generation: u64;
        match reuse {
            Some(cand) => {
                slot = cand;
                generation = self.nodes[cand].generation + 1;
                self.nodes[cand] = Node {
                    kind,
                    alive: true,
                    generation,
                    scope: scope.slot,
                    value,
                    has_value,
                    state,
                    version: 0,
                    always_notify,
                    running: false,
                    queued: false,
                    resolved: false,
                    sources: Vec::new(),
                    source_versions: Vec::new(),
                    observers: Vec::new(),
                    cleanups: Vec::new(),
                };
            },
            None => {
                slot = self.nodes.len();
                generation = 0;
                self.nodes.push(
                    Node {
                        kind,
                        alive: true,
                        generation,
                        scope: scope.slot,
                        value,
                        has_value,
                        state,
                        version: 0,
                        always_notify,
                        running: false,
                        queued: false,
                        resolved: false,
                        sources: Vec::new(),
                        source_versions: Vec::new(),
                        observers: Vec::new(),
                        cleanups: Vec::new(),
                    },
                );
            },
        }
        self.scopes[scope.slot].nodes.push(slot);
        let id = NodeId { slot, generation };
        proof {
            self.lemma_alloc_wf(pre, mid, slot as int, scope.slot as int);
            assert(pre.live_nodes_preserved(*self)) by {
                assert forall|i: int| pre.slot_live(i) implies #[trigger] pre.node_preserved(
                    *self,
                    i,
                ) by {
                    assert(self.nodes@[i] == pre.nodes@[i]);
                }
            }
            assert(self.fresh_node(id, kind, value@, has_value, state, scope));
        }
        Ok(id)
    }

    /// The well-formedness argument for `alloc_node`: `mid` is `pre`
    /// with at most the last free-list entry popped, and `self` is
    /// `mid` with one fresh node written to `slot` (a dead slot under a
    /// bumped generation, or a newly pushed slot) and `slot` appended
    /// to the owning scope's node list.
    proof fn lemma_alloc_wf(self, pre: Runtime, mid: Runtime, slot: int, scope_slot: int)
        requires
            pre.wf_inner(),
            !pre.poisoned,
            0 <= slot <= usize::MAX,
            0 <= scope_slot <= usize::MAX,
            0 <= scope_slot < pre.scopes@.len(),
            pre.scopes@[scope_slot].alive,
            mid == (Runtime { free_slots: mid.free_slots, ..pre }),
            mid.free_slots@ == pre.free_slots@ || (pre.free_slots@.len() > 0 && mid.free_slots@
                == pre.free_slots@.drop_last()),
            self.free_slots@ == mid.free_slots@,
            self.pending@ == pre.pending@,
            self.cursor == pre.cursor,
            self.running_stack@ == pre.running_stack@,
            self.batch_active == pre.batch_active,
            self.poisoned == pre.poisoned,
            self.batch_no@ == pre.batch_no@,
            self.run_log@ == pre.run_log@,
            0 <= slot < self.nodes@.len(),
            slot < pre.nodes@.len() ==> self.nodes@.len() == pre.nodes@.len(),
            slot < pre.nodes@.len() ==> !pre.nodes@[slot].alive,
            slot < pre.nodes@.len() ==> mid.free_slots@ == pre.free_slots@.drop_last()
                && pre.free_slots@.len() > 0 && pre.free_slots@.last() == slot as usize,
            slot < pre.nodes@.len() ==> pre.nodes@[slot].generation < u64::MAX,
            slot < pre.nodes@.len() ==> self.nodes@[slot].generation == pre.nodes@[slot].generation
                + 1,
            slot >= pre.nodes@.len() ==> self.nodes@.len() == pre.nodes@.len() + 1 && slot
                == pre.nodes@.len() && self.nodes@[slot].generation == 0,
            forall|i: int| 0 <= i < pre.nodes@.len() && i != slot ==> self.nodes@[i] == pre.nodes@[i],
            self.nodes@[slot].alive,
            self.nodes@[slot].scope == scope_slot as usize,
            self.nodes@[slot].version == 0,
            !self.nodes@[slot].running,
            !self.nodes@[slot].queued,
            !self.nodes@[slot].resolved,
            self.nodes@[slot].sources@.len() == 0,
            self.nodes@[slot].source_versions@.len() == 0,
            self.nodes@[slot].observers@.len() == 0,
            self.nodes@[slot].cleanups@.len() == 0,
            self.nodes@[slot].kind == NodeKind::Signal ==> self.nodes@[slot].has_value
                && self.nodes@[slot].state == NodeState::Clean,
            self.nodes@[slot].kind == NodeKind::Memo ==> !self.nodes@[slot].has_value
                && self.nodes@[slot].state == NodeState::Dirty,
            self.nodes@[slot].kind == NodeKind::Effect ==> self.nodes@[slot].has_value
                && self.nodes@[slot].state == NodeState::Clean,
            self.scopes@.len() == pre.scopes@.len(),
            forall|s: int|
                0 <= s < pre.scopes@.len() && s != scope_slot ==> self.scopes@[s] == pre.scopes@[s],
            self.scopes@[scope_slot].alive == pre.scopes@[scope_slot].alive,
            self.scopes@[scope_slot].parent == pre.scopes@[scope_slot].parent,
            self.scopes@[scope_slot].children@ == pre.scopes@[scope_slot].children@,
            self.scopes@[scope_slot].cleanups@ == pre.scopes@[scope_slot].cleanups@,
            self.scopes@[scope_slot].nodes@ == pre.scopes@[scope_slot].nodes@.push(slot as usize),
        ensures
            self.wf_inner(),
    {
        let n = self.nodes@.len() as int;
        assert forall|i: int| self.slot_live(i) implies self.node_wf(i) by {
            if i != slot {
                assert(pre.node_wf(i));
                let nd = self.nodes@[i];
                assert forall|k: int| 0 <= k < nd.sources@.len() implies (
                #[trigger] nd.sources@[k]).0 < self.nodes@.len() && nd.sources@[k].1
                    <= self.nodes@[nd.sources@[k].0 as int].generation by {
                    assert(pre.nodes@[i].sources@[k] == nd.sources@[k]);
                    if nd.sources@[k].0 as int == slot && slot < pre.nodes@.len() {
                        assert(nd.sources@[k].1 <= pre.nodes@[slot].generation);
                    }
                }
                assert forall|k: int| 0 <= k < nd.observers@.len() implies (
                #[trigger] nd.observers@[k]).0 < self.nodes@.len() && nd.observers@[k].1
                    <= self.nodes@[nd.observers@[k].0 as int].generation by {
                    assert(pre.nodes@[i].observers@[k] == nd.observers@[k]);
                    if nd.observers@[k].0 as int == slot && slot < pre.nodes@.len() {
                        assert(nd.observers@[k].1 <= pre.nodes@[slot].generation);
                    }
                }
            }
        }
        assert forall|i: int| self.slot_live(i) implies self.settled_edges_at(i) by {
            if i != slot {
                assert(pre.settled_edges_at(i));
                let nd = self.nodes@[i];
                if nd.kind == NodeKind::Memo {
                    assert forall|k: int|
                        0 <= k < nd.sources@.len() && self.entry_valid(
                            #[trigger] nd.sources@[k],
                        ) implies self.nodes@[nd.sources@[k].0 as int].observers@.contains(
                        (i as usize, nd.generation),
                    ) by {
                        let e = nd.sources@[k];
                        assert(pre.node_wf(i));
                        if e.0 as int == slot {
                            // the slot was dead or out of range before, and its
                            // generation grew past every old stamp
                            assert(e.1 <= pre.nodes@[slot].generation || slot >= pre.nodes@.len());
                            assert(!self.entry_valid(e));
                        } else {
                            assert(pre.entry_valid(e));
                        }
                    }
                }
            }
        }
        assert forall|i: int| self.slot_live(i) implies self.observer_backed_at(i) by {
            let nd = self.nodes@[i];
            if i != slot {
                assert(pre.observer_backed_at(i));
                assert(pre.node_wf(i));
                assert forall|k: int|
                    0 <= k < nd.observers@.len() && self.entry_valid(#[trigger] nd.observers@[k])
                        && self.nodes@[nd.observers@[k].0 as int].kind
                        == NodeKind::Memo implies self.nodes@[nd.observers@[k].0 as int].sources@.contains(
                    (i as usize, nd.generation),
                ) by {
                    let e = nd.observers@[k];
                    assert(nd.observers@ == pre.nodes@[i].observers@);
                    assert(nd.generation == pre.nodes@[i].generation);
                    if e.0 as int == slot {
                        assert(e.1 <= pre.nodes@[slot].generation || slot >= pre.nodes@.len());
                        assert(!self.entry_valid(e));
                    } else {
                        assert(pre.entry_valid(e));
                        assert(pre.nodes@[e.0 as int].sources@ == self.nodes@[e.0 as int].sources@);
                    }
                }
            } else {
                assert(nd.observers@.len() == 0);
            }
        }
        assert forall|i: int| self.slot_live(i) implies self.records_current_at(i) by {
            if i != slot {
                assert(pre.records_current_at(i));
                let nd = self.nodes@[i];
                if nd.kind == NodeKind::Memo && (nd.state == NodeState::Clean || nd.running) {
                    assert forall|k: int|
                        0 <= k < nd.sources@.len() && self.entry_valid(
                            #[trigger] nd.sources@[k],
                        ) implies nd.source_versions@[k] == self.nodes@[nd.sources@[k].0 as int].version by {
                        let e = nd.sources@[k];
                        assert(pre.node_wf(i));
                        if e.0 as int == slot {
                            assert(e.1 <= pre.nodes@[slot].generation || slot >= pre.nodes@.len());
                            assert(!self.entry_valid(e));
                        } else {
                            assert(pre.entry_valid(e));
                        }
                    }
                }
            }
        }
        assert forall|i: int| self.slot_live(i) implies self.dirt_closed_at(i) by {
            if i != slot {
                assert(pre.dirt_closed_at(i));
                let nd = self.nodes@[i];
                if nd.kind == NodeKind::Memo && nd.state != NodeState::Clean {
                    assert forall|k: int|
                        0 <= k < nd.observers@.len() && self.entry_valid(
                            #[trigger] nd.observers@[k],
                        ) && self.nodes@[nd.observers@[k].0 as int].kind
                            == NodeKind::Memo implies self.marked(nd.observers@[k].0 as int) by {
                        let e = nd.observers@[k];
                        assert(pre.node_wf(i));
                        if e.0 as int == slot {
                            assert(e.1 <= pre.nodes@[slot].generation || slot >= pre.nodes@.len());
                            assert(!self.entry_valid(e));
                        } else {
                            assert(pre.entry_valid(e));
                            assert(pre.marked(e.0 as int));
                        }
                    }
                }
            }
        }
        assert forall|i: int| self.slot_live(i) implies self.owned_at(i) by {
            if i != slot {
                assert(pre.owned_at(i));
                let sc = self.nodes@[i].scope as int;
                if sc == scope_slot {
                    assert(pre.scopes@[sc].nodes@.contains(i as usize));
                    let w = choose|w: int|
                        0 <= w < pre.scopes@[sc].nodes@.len() && pre.scopes@[sc].nodes@[w]
                            == i as usize;
                    assert(self.scopes@[sc].nodes@[w] == i as usize);
                } else {
                    assert(self.scopes@[sc].nodes@ == pre.scopes@[sc].nodes@);
                }
            } else {
                assert(self.nodes@[slot].scope as int == scope_slot);
                assert(self.scopes@[scope_slot].alive);
                assert(self.scopes@[scope_slot].nodes@[self.scopes@[scope_slot].nodes@.len() - 1]
                    == slot as usize);
                assert(self.scopes@[scope_slot].nodes@.contains(slot as usize));
            }
        }
        assert forall|s: int|
            0 <= s < self.scopes@.len() && self.scopes@[s].alive implies self.scope_wf(s) by {
            assert(pre.scope_wf(s));
            assert forall|k: int| 0 <= k < self.scopes@[s].nodes@.len() implies (
            #[trigger] self.scopes@[s].nodes@[k] as int) < self.nodes@.len() by {
                if s == scope_slot && k == pre.scopes@[s].nodes@.len() {
                    assert(self.scopes@[s].nodes@[k] == slot as usize);
                } else {
                    assert(self.scopes@[s].nodes@[k] == pre.scopes@[s].nodes@[k]);
                }
            }
        }
        assert(self.free_wf()) by {
            assert forall|j: int|
                0 <= j < self.free_slots@.len() implies (#[trigger] self.free_slots@[j] as int)
                < self.nodes@.len() && !self.nodes@[self.free_slots@[j] as int].alive by {
                assert(self.free_slots@[j] == pre.free_slots@[j]);
                if self.free_slots@[j] as int == slot {
                    if slot < pre.nodes@.len() {
                        // a reused slot was the popped last entry, and the
                        // free list never repeats a slot
                        assert(pre.free_slots@[pre.free_slots@.len() - 1] == slot as usize);
                        assert(j < pre.free_slots@.len() - 1);
                        assert(false);
                    } else {
                        assert(false);
                    }
                }
            }
            assert forall|j1: int, j2: int|
                0 <= j1 < self.free_slots@.len() && 0 <= j2 < self.free_slots@.len() && j1
                    != j2 implies self.free_slots@[j1] != self.free_slots@[j2] by {
                if mid.free_slots@ == pre.free_slots@ {
                    assert(self.free_slots@[j1] == pre.free_slots@[j1]);
                    assert(self.free_slots@[j2] == pre.free_slots@[j2]);
                } else {
                    assert(self.free_slots@ == pre.free_slots@.drop_last());
                    assert(self.free_slots@[j1] == pre.free_slots@[j1]);
                    assert(self.free_slots@[j2] == pre.free_slots@[j2]);
                }
            }
        }
        assert(self.scheduler_wf()) by {
            assert forall|j: int|
                self.cursor <= j < self.pending@.len() implies self.pending_entry_wf(j) by {
                assert(pre.pending_entry_wf(j));
                let e = self.pending@[j];
                if e.0 as int == slot {
                    if slot < pre.nodes@.len() {
                        assert(e.1 <= pre.nodes@[slot].generation);
                        assert(!self.entry_valid(e));
                    }
                }
            }
            assert forall|j1: int, j2: int|
                self.cursor <= j1 < self.pending@.len() && self.cursor <= j2 < self.pending@.len()
                    && j1 != j2 && self.entry_valid(self.pending@[j1]) && self.entry_valid(
                self.pending@[j2],
            ) implies self.pending@[j1].0 != self.pending@[j2].0 by {
                assert(pre.pending_entry_wf(j1));
                assert(pre.pending_entry_wf(j2));
                if self.pending@[j1].0 as int == slot || self.pending@[j2].0 as int == slot {
                } else {
                    assert(pre.entry_valid(self.pending@[j1]));
                    assert(pre.entry_valid(self.pending@[j2]));
                }
            }
            assert forall|i: int|
                self.slot_live(i) && self.nodes@[i].queued implies exists|j: int|
                self.cursor <= j < self.pending@.len() && self.pending@[j] == (
                i as usize,
                self.nodes@[i].generation,
            ) by {
                assert(i != slot);
                assert(pre.slot_live(i) && pre.nodes@[i].queued);
            }
            assert forall|j: int|
                0 <= j < self.running_stack@.len() implies self.running_entry_wf(j) by {
                assert(pre.running_entry_wf(j));
                let e = self.running_stack@[j];
                if e.0 as int == slot {
                    if slot < pre.nodes@.len() {
                        assert(e.1 <= pre.nodes@[slot].generation);
                        assert(!self.entry_valid(e));
                    }
                }
            }
            assert forall|j1: int, j2: int|
                0 <= j1 < self.running_stack@.len() && 0 <= j2 < self.running_stack@.len() && j1
                    != j2 && self.entry_valid(self.running_stack@[j1]) && self.entry_valid(
                self.running_stack@[j2],
            ) implies self.running_stack@[j1].0 != self.running_stack@[j2].0 by {
                assert(pre.running_entry_wf(j1));
                assert(pre.running_entry_wf(j2));
                if self.running_stack@[j1].0 as int == slot || self.running_stack@[j2].0 as int
                    == slot {
                } else {
                    assert(pre.entry_valid(self.running_stack@[j1]));
                    assert(pre.entry_valid(self.running_stack@[j2]));
                }
            }
        }
        assert(self.log_wf()) by {
            assert forall|j: int| 0 <= j < self.run_log@.len() implies (
            #[trigger] self.run_log@[j]).0 <= self.batch_no@ && 0 <= self.run_log@[j].1
                < self.nodes@.len() && self.run_log@[j].2
                <= self.nodes@[self.run_log@[j].1].generation by {
                assert(pre.run_log@[j] == self.run_log@[j]);
            }
            assert forall|j: int|
                0 <= j < self.run_log@.len() && (#[trigger] self.run_log@[j]).0
                    == self.batch_no@ implies {
                let e = self.run_log@[j].1;
                0 <= e < self.nodes@.len() && (self.nodes@[e].alive && self.nodes@[e].generation
                    == self.run_log@[j].2 ==> self.nodes@[e].resolved)
            } by {
                let e = self.run_log@[j].1;
                if e == slot {
                    if slot < pre.nodes@.len() {
                        assert(self.run_log@[j].2 <= pre.nodes@[slot].generation);
                    }
                }
            }
            assert forall|i: int|
                self.slot_live(i) && self.nodes@[i].resolved implies self.run_log@.contains(
                (self.batch_no@, i, self.nodes@[i].generation),
            ) by {
                assert(i != slot);
                assert(pre.slot_live(i) && pre.nodes@[i].resolved);
            }
        }
    }

    /// Creates a signal holding `initial`, owned by `scope`, with the
    /// default change-detection policy (structural value equality).
    /// Fails with `UseAfterDispose` exactly when the scope is disposed.
    pub fn create_signal(&mut self, scope: ScopeId, initial: Value) -> (r: Result<
        NodeId,
        RuntimeError,
    >)
        requires
            old(self).wf(),
        ensures
            final(self).wf(),
            old(self).is_poisoned() ==> r == Err::<NodeId, _>(RuntimeError::CyclicDependency)
                && *final(self) == *old(self),
            !old(self).is_poisoned() && !old(self).scope_live(scope) ==> r == Err::<
                NodeId,
                _,
            >(RuntimeError::UseAfterDispose) && *final(self) == *old(self),
            !old(self).is_poisoned() && old(self).scope_live(scope) ==> {
                &&& r is Ok
                &&& !old(self).valid(r->Ok_0)
                &&& final(self).is_signal(r->Ok_0)
                &&& final(self).value_of(r->Ok_0) == initial@
                &&& final(self).fresh_node(
                    r->Ok_0,
                    NodeKind::Signal,
                    initial@,
                    true,
                    NodeState::Clean,
                    scope,
                )
                &&& !final(self).slot_always_notify(r->Ok_0.slot as int)
                &&& old(self).live_nodes_preserved(*final(self))
                &&& final(self).same_scheduler(*old(self))
                &&& !final(self).is_poisoned()
                &&& (forall|sc: ScopeId| final(self).scope_live(sc) == old(self).scope_live(sc))
            },
    {
        self.alloc_node(scope, NodeKind::Signal, initial, true, NodeState::Clean, false)
    }

    /// Creates a signal that notifies its observers on every write,
    /// even one that stores an equal value.
    pub fn create_signal_always(&mut self, scope: ScopeId, initial: Value) -> (r: Result<
        NodeId,
        RuntimeError,
    >)
        requires
            old(self).wf(),
        ensures
            final(self).wf(),
            old(self).is_poisoned() ==> r == Err::<NodeId, _>(RuntimeError::CyclicDependency)
                && *final(self) == *old(self),
            !old(self).is_poisoned() && !old(self).scope_live(scope) ==> r == Err::<
                NodeId,
                _,
            >(RuntimeError::UseAfterDispose) && *final(self) == *old(self),
            !old(self).is_poisoned() && old(self).scope_live(scope) ==> {
                &&& r is Ok
                &&& !old(self).valid(r->Ok_0)
                &&& final(self).is_signal(r->Ok_0)
                &&& final(self).value_of(r->Ok_0) == initial@
                &&& final(self).fresh_node(
                    r->Ok_0,
                    NodeKind::Signal,
                    initial@,
                    true,
                    NodeState::Clean,
                    scope,
                )
                &&& final(self).slot_always_notify(r->Ok_0.slot as int)
                &&& old(self).live_nodes_preserved(*final(self))
                &&& final(self).same_scheduler(*old(self))
                &&& !final(self).is_poisoned()
                &&& (forall|sc: ScopeId| final(self).scope_live(sc) == old(self).scope_live(sc))
            },
    {
        self.alloc_node(scope, NodeKind::Signal, initial, true, NodeState::Clean, true)
    }

    /// Creates a memo owned by `scope`. The memo starts dirty and
    /// without a cached value: its compute body is first requested when
    /// the memo is first read. Fails with `UseAfterDispose` exactly
    /// when the scope is disposed.
    pub fn create_memo(&mut self, scope: ScopeId) -> (r: Result<NodeId, RuntimeError>)
        requires
            old(self).wf(),
        ensures
            final(self).wf(),
            old(self).is_poisoned() ==> r == Err::<NodeId, _>(RuntimeError::CyclicDependency)
                && *final(self) == *old(self),
            !old(self).is_poisoned() && !old(self).scope_live(scope) ==> r == Err::<
                NodeId,
                _,
            >(RuntimeError::UseAfterDispose) && *final(self) == *old(self),
            !old(self).is_poisoned() && old(self).scope_live(scope) ==> {
                &&& r is Ok
                &&& !old(self).valid(r->Ok_0)
                &&& final(self).is_memo(r->Ok_0)
                &&& !final(self).slot_has_value(r->Ok_0.slot as int)
                &&& final(self).slot_state(r->Ok_0.slot as int) == NodeState::Dirty
                &&& final(self).fresh_node(
                    r->Ok_0,
                    NodeKind::Memo,
                    final(self).value_of(r->Ok_0),
                    false,
                    NodeState::Dirty,
                    scope,
                )
                &&& !final(self).slot_always_notify(r->Ok_0.slot as int)
                &&& old(self).live_nodes_preserved(*final(self))
                &&& final(self).same_scheduler(*old(self))
                &&& !final(self).is_poisoned()
                &&& (forall|sc: ScopeId| final(self).scope_live(sc) == old(self).scope_live(sc))
            },
    {
        self.alloc_node(scope, NodeKind::Memo, Value::Int(0), false, NodeState::Dirty, false)
    }

    /// Creates an effect owned by `scope` and queues its first run:
    /// the effect is handed out by [`Runtime::next_effect`], which the
    /// caller drains right away, so the body runs synchronously at
    /// creation. Fails with `UseAfterDispose` exactly when the scope is
    /// disposed.
    pub fn create_effect(&mut self, scope: ScopeId) -> (r: Result<NodeId, RuntimeError>)
        requires
            old(self).wf(),
        ensures
            final(self).wf(),
            old(self).is_poisoned() ==> r == Err::<NodeId, _>(RuntimeError::CyclicDependency)
                && *final(self) == *old(self),
            !old(self).is_poisoned() && !old(self).scope_live(scope) ==> r == Err::<
                NodeId,
                _,
            >(RuntimeError::UseAfterDispose) && *final(self) == *old(self),
            !old(self).is_poisoned() && old(self).scope_live(scope) ==> {
                &&& r is Ok
                &&& !old(self).valid(r->Ok_0)
                &&& final(self).is_effect(r->Ok_0)
                &&& final(self).slot_queued(r->Ok_0.slot as int)
                &&& !final(self).slot_resolved(r->Ok_0.slot as int)
                &&& final(self).slot_cleanups(r->Ok_0.slot as int) == Seq::<u64>::empty()
                &&& final(self).in_batch()
                &&& old(self).live_nodes_preserved(*final(self))
                &&& !final(self).is_poisoned()
                &&& final(self).batch_index() == old(self).batch_index()
                &&& final(self).effect_runs() == old(self).effect_runs()
                &&& (forall|sc: ScopeId| final(self).scope_live(sc) == old(self).scope_live(sc))
            },
    {
        let id = match self.alloc_node(
            scope,
            NodeKind::Effect,
            Value::Int(0),
            true,
            NodeState::Clean,
            false,
        ) {
            Ok(id) => id,
            Err(e) => {
                return Err(e);
            },
        };
        let ghost pre = *self;
        self.nodes[id.slot].queued = true;
        self.pending.push((id.slot, id.generation));
        self.batch_active = true;
        proof {
            self.lemma_enqueue_wf(pre, id.slot as int);
            assert(old(self).live_nodes_preserved(*self)) by {
                assert forall|i: int| old(self).slot_live(i) implies #[trigger] old(
                    self,
                ).node_preserved(*self, i) by {
                    assert(old(self).node_preserved(pre, i));
                    assert(i != id.slot as int);
                    assert(self.nodes@[i] == pre.nodes@[i]);
                    assert(pre.node_preserved(*self, i));
                }
            }
        }
        Ok(id)
    }

    /// Queueing a fresh, unqueued, unresolved, non-running live effect
    /// (and opening a batch) preserves the invariant.
    proof fn lemma_enqueue_wf(self, pre: Runtime, slot: int)
        requires
            pre.wf_inner(),
            !pre.poisoned,
            0 <= slot <= usize::MAX,
            0 <= slot < pre.nodes@.len(),
            pre.nodes@[slot].alive,
            pre.nodes@[slot].kind == NodeKind::Effect,
            !pre.nodes@[slot].queued,
            !pre.nodes@[slot].resolved,
            !pre.nodes@[slot].running,
            self.nodes@ == pre.nodes@.update(
                slot,
                (Node { queued: true, ..pre.nodes@[slot] }),
            ),
            self.free_slots@ == pre.free_slots@,
            self.scopes@ == pre.scopes@,
            self.running_stack@ == pre.running_stack@,
            self.pending@ == pre.pending@.push((slot as usize, pre.nodes@[slot].generation)),
            self.cursor == pre.cursor,
            self.batch_active == true,
            self.poisoned == pre.poisoned,
            self.batch_no@ == pre.batch_no@,
            self.run_log@ == pre.run_log@,
        ensures
            self.wf_inner(),
    {
        let n = self.nodes@.len() as int;
        assert forall|i: int| self.slot_live(i) implies self.node_wf(i) by {
            assert(pre.node_wf(i));
        }
        assert forall|i: int| self.slot_live(i) implies self.settled_edges_at(i) by {
            assert(pre.settled_edges_at(i));
            let nd = self.nodes@[i];
            if nd.kind == NodeKind::Memo {
                assert forall|k: int|
                    0 <= k < nd.sources@.len() && self.entry_valid(
                        #[trigger] nd.sources@[k],
                    ) implies self.nodes@[nd.sources@[k].0 as int].observers@.contains(
                    (i as usize, nd.generation),
                ) by {
                    assert(pre.nodes@[i] == nd);
                    assert(pre.entry_valid(nd.sources@[k]));
                    assert(pre.nodes@[nd.sources@[k].0 as int].observers@ == self.nodes@[nd.sources@[k].0 as int].observers@);
                }
            }
        }
        assert forall|i: int| self.slot_live(i) implies self.observer_backed_at(i) by {
            assert(pre.observer_backed_at(i));
            let nd = self.nodes@[i];
            assert forall|k: int|
                0 <= k < nd.observers@.len() && self.entry_valid(#[trigger] nd.observers@[k])
                    && self.nodes@[nd.observers@[k].0 as int].kind
                    == NodeKind::Memo implies self.nodes@[nd.observers@[k].0 as int].sources@.contains(
                (i as usize, nd.generation),
            ) by {
                assert(nd.observers@ == pre.nodes@[i].observers@);
                assert(nd.generation == pre.nodes@[i].generation);
                assert(pre.entry_valid(nd.observers@[k]));
                assert(pre.nodes@[nd.observers@[k].0 as int].sources@
                    == self.nodes@[nd.observers@[k].0 as int].sources@);
            }
        }
        assert forall|i: int| self.slot_live(i) implies self.records_current_at(i) by {
            assert(pre.records_current_at(i));
            let nd = self.nodes@[i];
            if nd.kind == NodeKind::Memo && (nd.state == NodeState::Clean || nd.running) {
                assert forall|k: int|
                    0 <= k < nd.sources@.len() && self.entry_valid(
                        #[trigger] nd.sources@[k],
                    ) implies nd.source_versions@[k] == self.nodes@[nd.sources@[k].0 as int].version by {
                    assert(pre.nodes@[i] == nd);
                    assert(pre.entry_valid(nd.sources@[k]));
                }
            }
        }
        assert forall|i: int| self.slot_live(i) implies self.dirt_closed_at(i) by {
            assert(pre.dirt_closed_at(i));
            let nd = self.nodes@[i];
            if nd.kind == NodeKind::Memo && nd.state != NodeState::Clean {
                assert forall|k: int|
                    0 <= k < nd.observers@.len() && self.entry_valid(
                        #[trigger] nd.observers@[k],
                    ) && self.nodes@[nd.observers@[k].0 as int].kind
                        == NodeKind::Memo implies self.marked(nd.observers@[k].0 as int) by {
                    assert(pre.nodes@[i] == nd);
                    assert(pre.entry_valid(nd.observers@[k]));
                    if nd.observers@[k].0 as int == slot {
                        assert(self.marked(slot));
                    } else {
                        assert(pre.marked(nd.observers@[k].0 as int));
                    }
                }
            }
        }
        assert forall|i: int| self.slot_live(i) implies self.owned_at(i) by {
            assert(pre.owned_at(i));
        }
        assert forall|s: int|
            0 <= s < self.scopes@.len() && self.scopes@[s].alive implies self.scope_wf(s) by {
            assert(pre.scope_wf(s));
        }
        assert(self.free_wf()) by {
            assert forall|j: int|
                0 <= j < self.free_slots@.len() implies (#[trigger] self.free_slots@[j] as int)
                < self.nodes@.len() && !self.nodes@[self.free_slots@[j] as int].alive by {
                assert(pre.free_slots@[j] == self.free_slots@[j]);
                assert(self.free_slots@[j] as int != slot);
            }
        }
        assert(self.scheduler_wf()) by {
            let m = self.pending@.len() as int;
            assert forall|j: int| self.cursor <= j < m implies self.pending_entry_wf(j) by {
                if j < m - 1 {
                    assert(self.pending@[j] == pre.pending@[j]);
                    assert(pre.pending_entry_wf(j));
                    let e = self.pending@[j];
                    if e.0 as int == slot && self.entry_valid(e) {
                        assert(self.nodes@[slot].generation == pre.nodes@[slot].generation);
                        assert(pre.entry_valid(e));
                        assert(pre.nodes@[slot].queued);
                        assert(false);
                    }
                } else {
                    assert(self.pending@[j] == (slot as usize, pre.nodes@[slot].generation));
                    assert(self.entry_valid(self.pending@[j]));
                }
            }
            assert forall|j1: int, j2: int|
                self.cursor <= j1 < m && self.cursor <= j2 < m && j1 != j2 && self.entry_valid(
                    self.pending@[j1],
                ) && self.entry_valid(self.pending@[j2]) implies self.pending@[j1].0
                != self.pending@[j2].0 by {
                if j1 < m - 1 && j2 < m - 1 {
                    assert(pre.pending_entry_wf(j1));
                    assert(pre.pending_entry_wf(j2));
                    assert(pre.entry_valid(pre.pending@[j1]) == self.entry_valid(self.pending@[j1])
                        || pre.pending@[j1].0 as int == slot);
                    if self.pending@[j1].0 as int != slot && self.pending@[j2].0 as int != slot {
                        assert(pre.entry_valid(pre.pending@[j1]));
                        assert(pre.entry_valid(pre.pending@[j2]));
                    } else {
                        // an old valid entry at the new effect's slot would
                        // say the effect was queued before
                        if self.pending@[j1].0 as int == slot {
                            assert(pre.entry_valid(pre.pending@[j1]));
                            assert(pre.nodes@[slot].queued);
                            assert(false);
                        }
                        if self.pending@[j2].0 as int == slot {
                            assert(pre.entry_valid(pre.pending@[j2]));
                            assert(pre.nodes@[slot].queued);
                            assert(false);
                        }
                    }
                } else {
                    let jo = if j1 < m - 1 {
                        j1
                    } else {
                        j2
                    };
                    assert(pre.pending_entry_wf(jo));
                    if self.pending@[jo].0 as int == slot {
                        assert(pre.entry_valid(pre.pending@[jo]));
                        assert(pre.nodes@[slot].queued);
                        assert(false);
                    }
                }
            }
            assert forall|i: int|
                self.slot_live(i) && self.nodes@[i].queued implies exists|j: int|
                self.cursor <= j < self.pending@.len() && self.pending@[j] == (
                i as usize,
                self.nodes@[i].generation,
            ) by {
                if i == slot {
                    assert(self.pending@[m - 1] == (i as usize, self.nodes@[i].generation));
                } else {
                    assert(pre.slot_live(i) && pre.nodes@[i].queued);
                    let j = choose|j: int|
                        pre.cursor <= j < pre.pending@.len() && pre.pending@[j] == (
                        i as usize,
                        pre.nodes@[i].generation,
                        );
                    assert(self.pending@[j] == (i as usize, self.nodes@[i].generation));
                }
            }
            assert forall|j: int|
                0 <= j < self.running_stack@.len() implies self.running_entry_wf(j) by {
                assert(pre.running_entry_wf(j));
                if self.running_stack@[j].0 as int == slot && self.entry_valid(
                    self.running_stack@[j],
                ) {
                    assert(pre.entry_valid(pre.running_stack@[j]));
                    assert(false);
                }
            }
            assert forall|j1: int, j2: int|
                0 <= j1 < self.running_stack@.len() && 0 <= j2 < self.running_stack@.len() && j1
                    != j2 && self.entry_valid(self.running_stack@[j1]) && self.entry_valid(
                self.running_stack@[j2],
            ) implies self.running_stack@[j1].0 != self.running_stack@[j2].0 by {
                assert(pre.running_entry_wf(j1));
                assert(pre.running_entry_wf(j2));
                if self.running_stack@[j1].0 as int != slot && self.running_stack@[j2].0 as int
                    != slot {
                    assert(pre.entry_valid(pre.running_stack@[j1]));
                    assert(pre.entry_valid(pre.running_stack@[j2]));
                } else {
                    if self.running_stack@[j1].0 as int == slot {
                        assert(pre.entry_valid(pre.running_stack@[j1]));
                        assert(pre.nodes@[slot].running);
                        assert(false);
                    }
                    if self.running_stack@[j2].0 as int == slot {
                        assert(pre.entry_valid(pre.running_stack@[j2]));
                        assert(pre.nodes@[slot].running);
                        assert(false);
                    }
                }
            }
        }
        assert(self.log_wf()) by {
            assert forall|i: int|
                self.slot_live(i) && self.nodes@[i].resolved implies self.run_log@.contains(
                (self.batch_no@, i, self.nodes@[i].generation),
            ) by {
                assert(pre.slot_live(i) && pre.nodes@[i].resolved);
            }
        }
    }

    // ----- writes ----------------------------------------------------

    /// The arena's shape is unchanged: only memo dirtiness states and
    /// effect queue flags may differ, and only the node written to may
    /// hold a new value and version. Everything else — liveness, kinds,
    /// generations, edges, cached flags, cleanups, run state — is the
    /// same. In particular a write never invokes or changes any memo's
    /// cached value: memos are recomputed only when read.
    pub open spec fn only_dirt_changed(self, post: Runtime, written: int) -> bool {
        &&& post.num_slots() == self.num_slots()
        &&& (forall|i: int|
            #![trigger post.slot_kind(i)]
            0 <= i < self.num_slots() ==> {
                &&& post.slot_live(i) == self.slot_live(i)
                &&& post.slot_kind(i) == self.slot_kind(i)
                &&& post.slot_has_value(i) == self.slot_has_value(i)
                &&& post.slot_generation(i) == self.slot_generation(i)
                &&& post.slot_sources(i) == self.slot_sources(i)
                &&& post.slot_source_versions(i) == self.slot_source_versions(i)
                &&& post.slot_observers(i) == self.slot_observers(i)
                &&& post.slot_cleanups(i) == self.slot_cleanups(i)
                &&& post.slot_running(i) == self.slot_running(i)
                &&& post.slot_resolved(i) == self.slot_resolved(i)
                &&& (i != written ==> post.slot_value(i) == self.slot_value(i)
                    && post.slot_version(i) == self.slot_version(i))
            })
    }

    /// The frame the marking traversal maintains: everything but memo
    /// states and effect queue flags is untouched, and the pending
    /// queue only grows.
    pub(crate) open spec fn mark_frame(self, pre: Runtime) -> bool {
        &&& self.nodes@.len() == pre.nodes@.len()
        &&& (forall|i: int|
            #![trigger self.nodes@[i]]
            0 <= i < pre.nodes@.len() ==> {
                &&& self.nodes@[i].alive == pre.nodes@[i].alive
                &&& self.nodes@[i].kind == pre.nodes@[i].kind
                &&& self.nodes@[i].generation == pre.nodes@[i].generation
                &&& self.nodes@[i].scope == pre.nodes@[i].scope
                &&& self.nodes@[i].value == pre.nodes@[i].value
                &&& self.nodes@[i].has_value == pre.nodes@[i].has_value
                &&& self.nodes@[i].version == pre.nodes@[i].version
                &&& self.nodes@[i].always_notify == pre.nodes@[i].always_notify
                &&& self.nodes@[i].running == pre.nodes@[i].running
                &&& self.nodes@[i].resolved == pre.nodes@[i].resolved
                &&& self.nodes@[i].sources@ == pre.nodes@[i].sources@
                &&& self.nodes@[i].source_versions@ == pre.nodes@[i].source_versions@
                &&& self.nodes@[i].observers@ == pre.nodes@[i].observers@
                &&& self.nodes@[i].cleanups@ == pre.nodes@[i].cleanups@
            })
        &&& self.free_slots@ == pre.free_slots@
        &&& self.scopes@ == pre.scopes@
        &&& self.running_stack@ == pre.running_stack@
        &&& self.cursor == pre.cursor
        &&& self.batch_active == pre.batch_active
        &&& self.batch_no@ == pre.batch_no@
        &&& self.run_log@ == pre.run_log@
        &&& self.singletons@ == pre.singletons@
        &&& pre.pending@.is_prefix_of(self.pending@)
    }

    /// `mark_frame` with the arguments flipped, so it can stand in an
    /// ensures clause about `final(self)`.
    pub(crate) open spec fn mark_frame_of(self, post: Runtime) -> bool {
        post.mark_frame(self)
    }

    /// How many worklist pushes the marking traversal can still make:
    /// a node expands its observer list at most once, on its move out
    /// of `Clean`, so the sum of the observer-list lengths of the live
    /// clean memos among the first `upto` slots bounds them.
    spec fn mark_weight(nodes: Seq<Node>, upto: int) -> int
        decreases upto,
    {
        if upto <= 0 {
            0
        } else {
            Runtime::mark_weight(nodes, upto - 1) + if nodes[upto - 1].alive && nodes[upto
                - 1].kind == NodeKind::Memo && nodes[upto - 1].state == NodeState::Clean {
                nodes[upto - 1].observers@.len() as int
            } else {
                0
            }
        }
    }

    proof fn lemma_mark_weight_nonneg(nodes: Seq<Node>, upto: int)
        ensures
            Runtime::mark_weight(nodes, upto) >= 0,
        decreases upto,
    {
        if upto > 0 {
            Runtime::lemma_mark_weight_nonneg(nodes, upto - 1);
        }
    }

    /// The weight only looks at liveness, kind, cleanness and the
    /// observer lists.
    proof fn lemma_mark_weight_same(a: Seq<Node>, b: Seq<Node>, upto: int)
        requires
            forall|i: int|
                0 <= i < upto ==> (#[trigger] b[i]).alive == a[i].alive && b[i].kind == a[i].kind
                    && (b[i].state == NodeState::Clean) == (a[i].state == NodeState::Clean)
                    && b[i].observers@ == a[i].observers@,
        ensures
            Runtime::mark_weight(b, upto) == Runtime::mark_weight(a, upto),
        decreases upto,
    {
        if upto > 0 {
            Runtime::lemma_mark_weight_same(a, b, upto - 1);
        }
    }

    /// Marking one clean live memo pays for the expansion of exactly
    /// its observer list.
    proof fn lemma_mark_weight_mark(a: Seq<Node>, b: Seq<Node>, upto: int, o: int)
        requires
            0 <= o < upto,
            forall|i: int|
                0 <= i < upto && i != o ==> (#[trigger] b[i]).alive == a[i].alive && b[i].kind
                    == a[i].kind && (b[i].state == NodeState::Clean) == (a[i].state
                    == NodeState::Clean) && b[i].observers@ == a[i].observers@,
            a[o].alive && a[o].kind == NodeKind::Memo && a[o].state == NodeState::Clean,
            b[o].alive && b[o].kind == NodeKind::Memo && b[o].state != NodeState::Clean,
            b[o].observers@ == a[o].observers@,
        ensures
            Runtime::mark_weight(b, upto) == Runtime::mark_weight(a, upto)
                - a[o].observers@.len(),
        decreases upto,
    {
        if upto > 0 {
            if o == upto - 1 {
                Runtime::lemma_mark_weight_same(a, b, upto - 1);
            } else {
                Runtime::lemma_mark_weight_mark(a, b, upto - 1, o);
            }
        }
    }

    /// The worklist holds the stamped edge `e`.
    pub(crate) open spec fn wl_has(wl: Seq<(usize, u64, bool)>, e: (usize, u64)) -> bool {
        exists|t: int| 0 <= t < wl.len() && ((#[trigger] wl[t]).0, wl[t].1) == e
    }

    /// Mid-traversal replacement for the dirtiness closure: every live
    /// observer of a non-clean memo is either already marked or still
    /// on the worklist.
    pub(crate) open spec fn dirt_pending(self, wl: Seq<(usize, u64, bool)>) -> bool {
        forall|i: int, k: int|
            #![trigger self.nodes@[i].observers@[k]]
            self.slot_live(i) && self.nodes@[i].kind == NodeKind::Memo && self.nodes@[i].state
                != NodeState::Clean && 0 <= k < self.nodes@[i].observers@.len()
                && self.entry_valid(self.nodes@[i].observers@[k])
                && self.nodes@[self.nodes@[i].observers@[k].0 as int].kind == NodeKind::Memo
                ==> self.marked(self.nodes@[i].observers@[k].0 as int) || Runtime::wl_has(
                wl,
                self.nodes@[i].observers@[k],
            )
    }

    /// Mid-traversal bookkeeping for the written node's own observers,
    /// which additionally must not be running when the traversal
    /// succeeds (a running observer is a cycle).
    pub(crate) open spec fn start_obs_pending(
        self,
        wl: Seq<(usize, u64, bool)>,
        start: int,
    ) -> bool {
        forall|k: int|
            #![trigger self.nodes@[start].observers@[k]]
            0 <= k < self.nodes@[start].observers@.len() && self.entry_valid(
                self.nodes@[start].observers@[k],
            ) && self.nodes@[self.nodes@[start].observers@[k].0 as int].kind != NodeKind::Signal
                ==> (self.marked(self.nodes@[start].observers@[k].0 as int)
                && !self.nodes@[self.nodes@[start].observers@[k].0 as int].running)
                || Runtime::wl_has(wl, self.nodes@[start].observers@[k])
    }

    /// All of the written node's live observers are marked and none is
    /// running: the state a successful traversal leaves behind.
    pub(crate) open spec fn start_obs_marked(self, start: int) -> bool {
        forall|k: int|
            #![trigger self.nodes@[start].observers@[k]]
            0 <= k < self.nodes@[start].observers@.len() && self.entry_valid(
                self.nodes@[start].observers@[k],
            ) && self.nodes@[self.nodes@[start].observers@[k].0 as int].kind != NodeKind::Signal
                ==> self.marked(self.nodes@[start].observers@[k].0 as int)
                && !self.nodes@[self.nodes@[start].observers@[k].0 as int].running
    }

    /// Marks everything downstream of `start` as dirty: direct memo
    /// observers become dirty, transitive ones stale, and every effect
    /// reached is queued once. Reaching a computation that is running
    /// or already ran this batch is a cycle: the runtime is poisoned
    /// and `CyclicDependency` returned.
    fn mark_observers(&mut self, start: usize) -> (r: Result<(), RuntimeError>)
        requires
            old(self).wf_but_dirt(),
            old(self).dirt_all(),
            !old(self).is_poisoned(),
            old(self).in_batch(),
            (start as int) < old(self).num_slots(),
            old(self).slot_live(start as int),
            old(self).slot_kind(start as int) != NodeKind::Effect,
        ensures
            old(self).mark_frame_of(*final(self)),
            r is Ok ==> final(self).wf_but_dirt() && final(self).dirt_all()
                && !final(self).is_poisoned() && final(self).start_obs_marked(start as int),
            r is Err ==> r == Err::<(), RuntimeError>(RuntimeError::CyclicDependency)
                && final(self).is_poisoned(),
            (forall|i: int|
                #![trigger final(self).slot_live(i)]
                final(self).slot_live(i) ==> !final(self).slot_running(i)
                    && !final(self).slot_resolved(i)) ==> r is Ok,
    {
        let mut wl: Vec<(usize, u64, bool)> = Vec::new();
        let mut oi: usize = 0;
        let ghost pre = *old(self);
        while oi < self.nodes[start].observers.len()
            invariant
                *self == pre,
                pre == *old(self),
                pre.wf_but_dirt(),
                !pre.poisoned,
                (start as int) < pre.nodes@.len(),
                pre.nodes@[start as int].alive,
                oi <= pre.nodes@[start as int].observers@.len(),
                forall|t: int|
                    0 <= t < wl@.len() ==> ((#[trigger] wl@[t]).0, wl@[t].1)
                        == pre.nodes@[start as int].observers@[t] && wl@[t].2 == true,
                wl@.len() == oi,
            decreases pre.nodes@[start as int].observers@.len() - oi,
        {
            let e = self.nodes[start].observers[oi];
            wl.push((e.0, e.1, true));
            oi = oi + 1;
        }
        proof {
            assert forall|t: int| 0 <= t < wl@.len() implies ((#[trigger] wl@[t]).0 as int)
                < self.nodes@.len() && wl@[t].1 <= self.nodes@[wl@[t].0 as int].generation by {
                assert(pre.node_wf(start as int));
                assert(pre.nodes@[start as int].observers@[t] == (wl@[t].0, wl@[t].1));
            }
            assert(self.dirt_pending(wl@)) by {
                assert forall|i: int, k: int|
                    self.slot_live(i) && self.nodes@[i].kind == NodeKind::Memo
                        && self.nodes@[i].state != NodeState::Clean && 0 <= k
                        < self.nodes@[i].observers@.len() && self.entry_valid(
                        #[trigger] self.nodes@[i].observers@[k],
                    ) && self.nodes@[self.nodes@[i].observers@[k].0 as int].kind
                        == NodeKind::Memo implies self.marked(
                    self.nodes@[i].observers@[k].0 as int,
                ) || Runtime::wl_has(wl@, self.nodes@[i].observers@[k]) by {
                    assert(pre.dirt_closed_at(i));
                }
            }
            assert(self.start_obs_pending(wl@, start as int)) by {
                assert forall|k: int|
                    0 <= k < self.nodes@[start as int].observers@.len() && self.entry_valid(
                        #[trigger] self.nodes@[start as int].observers@[k],
                    ) && self.nodes@[self.nodes@[start as int].observers@[k].0 as int].kind
                        != NodeKind::Signal implies (self.marked(
                    self.nodes@[start as int].observers@[k].0 as int,
                ) && !self.nodes@[self.nodes@[start as int].observers@[k].0 as int].running)
                    || Runtime::wl_has(wl@, self.nodes@[start as int].observers@[k]) by {
                    assert((wl@[k].0, wl@[k].1) == self.nodes@[start as int].observers@[k]);
                }
            }
        }
        while wl.len() > 0
            invariant
                pre == *old(self),
                pre.wf_but_dirt(),
                !pre.poisoned,
                pre.batch_active,
                (start as int) < pre.nodes@.len(),
                pre.nodes@[start as int].alive,
                pre.nodes@[start as int].kind != NodeKind::Effect,
                pre.mark_frame_of(*self),
                !self.poisoned,
                self.wf_but_dirt(),
                self.dirt_pending(wl@),
                self.start_obs_pending(wl@, start as int),
                forall|t: int|
                    0 <= t < wl@.len() ==> ((#[trigger] wl@[t]).0 as int) < self.nodes@.len()
                        && wl@[t].1 <= self.nodes@[wl@[t].0 as int].generation,
            decreases wl@.len() + Runtime::mark_weight(self.nodes@, self.nodes@.len() as int),
        {
            proof {
                Runtime::lemma_mark_weight_nonneg(self.nodes@, self.nodes@.len() as int);
            }
            let ghost wl_head = wl@;
            let popped = match wl.pop() {
                Some(item) => item,
                None => {
                    return Ok(());
                },
            };
            let o = popped.0;
            let g = popped.1;
            let direct = popped.2;
            let ghost wl_before = wl@.push((o, g, direct));
            proof {
                assert(wl_before =~= wl_head);
            }
            let ghost step_pre = *self;
            if !self.nodes[o].alive || self.nodes[o].generation != g {
                // stale edge: its target is gone; nothing can rely on it
                proof {
                    assert(wl_before.drop_last() =~= wl@);
                    self.lemma_noop_step(step_pre, pre, o as int, g, wl_before, wl@, start as int);
                }
                continue;
            }
            if self.nodes[o].running || self.nodes[o].resolved {
                // the propagation reached a computation that already
                // settled (or is settling) in this very batch
                self.poisoned = true;
                proof {
                    assert(self.slot_live(o as int));
                    assert(self.slot_running(o as int) || self.slot_resolved(o as int));
                    if (forall|i: int|
                        #![trigger self.slot_live(i)]
                        self.slot_live(i) ==> !self.slot_running(i) && !self.slot_resolved(i)) {
                        assert(!self.slot_running(o as int) && !self.slot_resolved(o as int));
                        assert(false);
                    }
                }
                return Err(RuntimeError::CyclicDependency);
            }
            let is_memo = match self.nodes[o].kind {
                NodeKind::Memo => true,
                _ => false,
            };
            let is_effect = match self.nodes[o].kind {
                NodeKind::Effect => true,
                _ => false,
            };
            if is_memo {
                let was_clean = match self.nodes[o].state {
                    NodeState::Clean => true,
                    _ => false,
                };
                if was_clean {
                    // expand first, then mark, so the pending-dirt
                    // bookkeeping never has a gap
                    let mut k: usize = 0;
                    while k < self.nodes[o].observers.len()
                        invariant
                            *self == step_pre,
                            (o as int) < step_pre.nodes@.len(),
                            k <= step_pre.nodes@[o as int].observers@.len(),
                            wl@.len() == wl_before.len() - 1 + k,
                            wl_before.len() >= 1,
                            forall|t: int| 0 <= t < wl_before.len() - 1 ==> wl@[t] == wl_before[t],
                            forall|t: int|
                                wl_before.len() - 1 <= t < wl@.len() ==> ((#[trigger] wl@[t]).0,
                                wl@[t].1) == step_pre.nodes@[o as int].observers@[t - (
                                wl_before.len() - 1)],
                        decreases step_pre.nodes@[o as int].observers@.len() - k,
                    {
                        let e = self.nodes[o].observers[k];
                        wl.push((e.0, e.1, false));
                        k = k + 1;
                    }
                    let ghost wl_mid = wl@;
                    if direct {
                        self.nodes[o].state = NodeState::Dirty;
                    } else {
                        self.nodes[o].state = NodeState::Stale;
                    }
                    proof {
                        self.lemma_mark_step(
                            step_pre,
                            pre,
                            o as int,
                            g,
                            wl_before,
                            wl_mid,
                            start as int,
                        );
                        assert forall|i: int|
                            0 <= i < self.nodes@.len() && i != o as int implies self.nodes@[i]
                            == step_pre.nodes@[i] by {}
                        Runtime::lemma_mark_weight_mark(
                            step_pre.nodes@,
                            self.nodes@,
                            self.nodes@.len() as int,
                            o as int,
                        );
                        Runtime::lemma_mark_weight_nonneg(
                            self.nodes@,
                            self.nodes@.len() as int,
                        );
                    }
                } else {
                    if direct {
                        let was_stale = match self.nodes[o].state {
                            NodeState::Stale => true,
                            _ => false,
                        };
                        if was_stale {
                            self.nodes[o].state = NodeState::Dirty;
                        }
                    }
                    proof {
                        assert(wl_before.drop_last() =~= wl@);
                        self.lemma_remark_step(
                            step_pre,
                            pre,
                            o as int,
                            g,
                            wl_before,
                            wl@,
                            start as int,
                        );
                        assert forall|i: int|
                            0 <= i < self.nodes@.len() && i != o as int implies self.nodes@[i]
                            == step_pre.nodes@[i] by {}
                        Runtime::lemma_mark_weight_same(
                            step_pre.nodes@,
                            self.nodes@,
                            self.nodes@.len() as int,
                        );
                    }
                }
            } else if is_effect {
                if !self.nodes[o].queued {
                    self.nodes[o].queued = true;
                    self.pending.push((o, g));
                }
                proof {
                    assert(wl_before.drop_last() =~= wl@);
                    self.lemma_queue_step(step_pre, pre, o as int, g, wl_before, wl@, start as int);
                    assert forall|i: int|
                        0 <= i < self.nodes@.len() && i != o as int implies self.nodes@[i]
                        == step_pre.nodes@[i] by {}
                    Runtime::lemma_mark_weight_same(
                        step_pre.nodes@,
                        self.nodes@,
                        self.nodes@.len() as int,
                    );
                }
            } else {
                // a signal never observes anything; a stamped entry
                // naming one can only be a leftover and is ignored
                proof {
                    assert(wl_before.drop_last() =~= wl@);
                    self.lemma_noop_step(step_pre, pre, o as int, g, wl_before, wl@, start as int);
                }
            }
        }
        proof {
            assert(self.start_obs_marked(start as int)) by {
                assert forall|k: int|
                    0 <= k < self.nodes@[start as int].observers@.len() && self.entry_valid(
                        #[trigger] self.nodes@[start as int].observers@[k],
                    ) && self.nodes@[self.nodes@[start as int].observers@[k].0 as int].kind
                        == NodeKind::Memo implies self.marked(
                    self.nodes@[start as int].observers@[k].0 as int,
                ) && !self.nodes@[self.nodes@[start as int].observers@[k].0 as int].running by {
                    assert(!Runtime::wl_has(wl@, self.nodes@[start as int].observers@[k]));
                }
            }
            assert(self.dirt_all()) by {
                assert forall|i: int| self.slot_live(i) implies self.dirt_closed_at(i) by {
                    assert forall|k: int|
                        self.nodes@[i].kind == NodeKind::Memo && self.nodes@[i].state
                            != NodeState::Clean && 0 <= k < self.nodes@[i].observers@.len()
                            && self.entry_valid(#[trigger] self.nodes@[i].observers@[k])
                            && self.nodes@[self.nodes@[i].observers@[k].0 as int].kind
                            == NodeKind::Memo implies self.marked(
                        self.nodes@[i].observers@[k].0 as int,
                    ) by {
                        assert(!Runtime::wl_has(wl@, self.nodes@[i].observers@[k]));
                    }
                }
            }
        }
        Ok(())
    }

    /// A traversal step that changed nothing: the popped edge was
    /// stale, or named a signal.
    proof fn lemma_noop_step(
        self,
        step_pre: Runtime,
        pre: Runtime,
        o: int,
        g: u64,
        wl_before: Seq<(usize, u64, bool)>,
        wl_after: Seq<(usize, u64, bool)>,
        start: int,
    )
        requires
            self == step_pre,
            step_pre.wf_but_dirt(),
            step_pre.dirt_pending(wl_before),
            step_pre.start_obs_pending(wl_before, start),
            0 <= start < step_pre.nodes@.len(),
            0 <= o <= usize::MAX,
            wl_before.len() >= 1,
            wl_after == wl_before.drop_last(),
            wl_before.last().0 == o as usize,
            wl_before.last().1 == g,
            !step_pre.entry_valid((o as usize, g)) || step_pre.nodes@[o].kind == NodeKind::Signal,
        ensures
            self.dirt_pending(wl_after),
            self.start_obs_pending(wl_after, start),
    {
        assert forall|i: int, k: int|
            self.slot_live(i) && self.nodes@[i].kind == NodeKind::Memo && self.nodes@[i].state
                != NodeState::Clean && 0 <= k < self.nodes@[i].observers@.len()
                && self.entry_valid(#[trigger] self.nodes@[i].observers@[k])
                && self.nodes@[self.nodes@[i].observers@[k].0 as int].kind
                == NodeKind::Memo implies self.marked(self.nodes@[i].observers@[k].0 as int)
            || Runtime::wl_has(wl_after, self.nodes@[i].observers@[k]) by {
            let e = self.nodes@[i].observers@[k];
            if !self.marked(e.0 as int) {
                assert(Runtime::wl_has(wl_before, e));
                let t = choose|t: int|
                    0 <= t < wl_before.len() && ((#[trigger] wl_before[t]).0, wl_before[t].1) == e;
                if t == wl_before.len() - 1 {
                    assert(e == (o as usize, g));
                    assert(false);
                } else {
                    assert((wl_after[t].0, wl_after[t].1) == e);
                }
            }
        }
        assert forall|k: int|
            0 <= k < self.nodes@[start].observers@.len() && self.entry_valid(
                #[trigger] self.nodes@[start].observers@[k],
            ) && self.nodes@[self.nodes@[start].observers@[k].0 as int].kind
                != NodeKind::Signal implies (self.marked(
            self.nodes@[start].observers@[k].0 as int,
        ) && !self.nodes@[self.nodes@[start].observers@[k].0 as int].running) || Runtime::wl_has(
            wl_after,
            self.nodes@[start].observers@[k],
        ) by {
            let e = self.nodes@[start].observers@[k];
            if !(self.marked(e.0 as int) && !self.nodes@[e.0 as int].running) {
                assert(Runtime::wl_has(wl_before, e));
                let t = choose|t: int|
                    0 <= t < wl_before.len() && ((#[trigger] wl_before[t]).0, wl_before[t].1) == e;
                if t == wl_before.len() - 1 {
                    assert(e == (o as usize, g));
                    assert(false);
                } else {
                    assert((wl_after[t].0, wl_after[t].1) == e);
                }
            }
        }
    }

    /// A traversal step that marked a previously clean memo (dirty for
    /// a direct observer of the write, stale further away) after
    /// appending all of the memo's own observers to the worklist.
    proof fn lemma_mark_step(
        self,
        step_pre: Runtime,
        pre: Runtime,
        o: int,
        g: u64,
        wl_before: Seq<(usize, u64, bool)>,
        wl_after: Seq<(usize, u64, bool)>,
        start: int,
    )
        requires
            step_pre.wf_but_dirt(),
            step_pre.dirt_pending(wl_before),
            step_pre.start_obs_pending(wl_before, start),
            pre.mark_frame_of(step_pre),
            !step_pre.poisoned,
            0 <= start < step_pre.nodes@.len(),
            0 <= o <= usize::MAX,
            wl_before.len() >= 1,
            wl_before.last().0 == o as usize,
            wl_before.last().1 == g,
            forall|t: int|
                0 <= t < wl_before.len() ==> ((#[trigger] wl_before[t]).0 as int)
                    < step_pre.nodes@.len() && wl_before[t].1
                    <= step_pre.nodes@[wl_before[t].0 as int].generation,
            0 <= o < step_pre.nodes@.len(),
            step_pre.entry_valid((o as usize, g)),
            step_pre.nodes@[o].kind == NodeKind::Memo,
            step_pre.nodes@[o].state == NodeState::Clean,
            !step_pre.nodes@[o].running,
            !step_pre.nodes@[o].resolved,
            // the worklist was extended with o's whole observer list
            wl_after.len() == wl_before.len() - 1 + step_pre.nodes@[o].observers@.len(),
            forall|t: int| 0 <= t < wl_before.len() - 1 ==> wl_after[t] == wl_before[t],
            forall|t: int|
                wl_before.len() - 1 <= t < wl_after.len() ==> ((#[trigger] wl_after[t]).0,
                wl_after[t].1) == step_pre.nodes@[o].observers@[t - (wl_before.len() - 1)],
            self.nodes@ == step_pre.nodes@.update(
                o,
                (Node {
                    state: if wl_before.last().2 {
                        NodeState::Dirty
                    } else {
                        NodeState::Stale
                    },
                    ..step_pre.nodes@[o]
                }),
            ),
            self == (Runtime { nodes: self.nodes, ..step_pre }),
        ensures
            self.wf_but_dirt(),
            self.dirt_pending(wl_after),
            self.start_obs_pending(wl_after, start),
            pre.mark_frame_of(self),
            forall|t: int|
                0 <= t < wl_after.len() ==> ((#[trigger] wl_after[t]).0 as int)
                    < self.nodes@.len() && wl_after[t].1
                    <= self.nodes@[wl_after[t].0 as int].generation,
            !self.poisoned,
    {
        let n = self.nodes@.len() as int;
        assert(step_pre.node_wf(o));
        assert forall|i: int| self.slot_live(i) implies self.node_wf(i) by {
            assert(step_pre.node_wf(i));
        }
        assert forall|i: int| self.slot_live(i) implies self.settled_edges_at(i) by {
            assert(step_pre.settled_edges_at(i));
            let nd = self.nodes@[i];
            if nd.kind == NodeKind::Memo {
                assert forall|k: int|
                    0 <= k < nd.sources@.len() && self.entry_valid(
                        #[trigger] nd.sources@[k],
                    ) implies self.nodes@[nd.sources@[k].0 as int].observers@.contains(
                    (i as usize, nd.generation),
                ) by {
                    assert(nd.sources@ == step_pre.nodes@[i].sources@);
                    assert(nd.generation == step_pre.nodes@[i].generation);
                    assert(step_pre.entry_valid(nd.sources@[k]));
                    assert(step_pre.nodes@[nd.sources@[k].0 as int].observers@
                        == self.nodes@[nd.sources@[k].0 as int].observers@);
                }
            }
        }
        assert forall|i: int| self.slot_live(i) implies self.observer_backed_at(i) by {
            assert(step_pre.observer_backed_at(i));
            let nd = self.nodes@[i];
            assert forall|k: int|
                0 <= k < nd.observers@.len() && self.entry_valid(#[trigger] nd.observers@[k])
                    && self.nodes@[nd.observers@[k].0 as int].kind
                    == NodeKind::Memo implies self.nodes@[nd.observers@[k].0 as int].sources@.contains(
                (i as usize, nd.generation),
            ) by {
                assert(nd.observers@ == step_pre.nodes@[i].observers@);
                assert(nd.generation == step_pre.nodes@[i].generation);
                assert(step_pre.entry_valid(nd.observers@[k]));
                assert(step_pre.nodes@[nd.observers@[k].0 as int].sources@
                    == self.nodes@[nd.observers@[k].0 as int].sources@);
            }
        }
        assert forall|i: int| self.slot_live(i) implies self.records_current_at(i) by {
            assert(step_pre.records_current_at(i));
            let nd = self.nodes@[i];
            if i != o && nd.kind == NodeKind::Memo && (nd.state == NodeState::Clean
                || nd.running) {
                assert forall|k: int|
                    0 <= k < nd.sources@.len() && self.entry_valid(
                        #[trigger] nd.sources@[k],
                    ) implies nd.source_versions@[k]
                    == self.nodes@[nd.sources@[k].0 as int].version by {
                    assert(nd == step_pre.nodes@[i]);
                    assert(step_pre.entry_valid(nd.sources@[k]));
                }
            }
        }
        assert forall|i: int| self.slot_live(i) implies self.owned_at(i) by {
            assert(step_pre.owned_at(i));
        }
        assert forall|s: int|
            0 <= s < self.scopes@.len() && self.scopes@[s].alive implies self.scope_wf(s) by {
            assert(step_pre.scope_wf(s));
        }
        assert(self.free_wf()) by {
            assert forall|j: int|
                0 <= j < self.free_slots@.len() implies (#[trigger] self.free_slots@[j] as int)
                < self.nodes@.len() && !self.nodes@[self.free_slots@[j] as int].alive by {
                assert(step_pre.free_slots@[j] == self.free_slots@[j]);
            }
        }
        assert(self.scheduler_wf()) by {
            assert forall|j: int|
                self.cursor <= j < self.pending@.len() implies self.pending_entry_wf(j) by {
                assert(step_pre.pending_entry_wf(j));
            }
            assert forall|j1: int, j2: int|
                self.cursor <= j1 < self.pending@.len() && self.cursor <= j2 < self.pending@.len()
                    && j1 != j2 && self.entry_valid(self.pending@[j1]) && self.entry_valid(
                self.pending@[j2],
            ) implies self.pending@[j1].0 != self.pending@[j2].0 by {
                assert(step_pre.pending_entry_wf(j1));
                assert(step_pre.pending_entry_wf(j2));
                assert(step_pre.entry_valid(step_pre.pending@[j1]));
                assert(step_pre.entry_valid(step_pre.pending@[j2]));
            }
            assert forall|i: int|
                self.slot_live(i) && self.nodes@[i].queued implies exists|j: int|
                self.cursor <= j < self.pending@.len() && self.pending@[j] == (
                i as usize,
                self.nodes@[i].generation,
            ) by {
                assert(step_pre.slot_live(i) && step_pre.nodes@[i].queued);
            }
            assert forall|j: int|
                0 <= j < self.running_stack@.len() implies self.running_entry_wf(j) by {
                assert(step_pre.running_entry_wf(j));
            }
            assert forall|j1: int, j2: int|
                0 <= j1 < self.running_stack@.len() && 0 <= j2 < self.running_stack@.len() && j1
                    != j2 && self.entry_valid(self.running_stack@[j1]) && self.entry_valid(
                self.running_stack@[j2],
            ) implies self.running_stack@[j1].0 != self.running_stack@[j2].0 by {
                assert(step_pre.running_entry_wf(j1));
                assert(step_pre.running_entry_wf(j2));
                assert(step_pre.entry_valid(step_pre.running_stack@[j1]));
                assert(step_pre.entry_valid(step_pre.running_stack@[j2]));
            }
            assert(!self.batch_active ==> self.pending@.len() == self.cursor && (forall|i: int|
                self.slot_live(i) ==> !(#[trigger] self.nodes@[i].resolved)
                    && !self.nodes@[i].queued)) by {
                if !self.batch_active {
                    assert forall|i: int| self.slot_live(i) implies !(
                    #[trigger] self.nodes@[i].resolved) && !self.nodes@[i].queued by {
                        assert(step_pre.slot_live(i));
                    }
                }
            }
        }
        assert(self.log_wf()) by {
            assert forall|i: int|
                self.slot_live(i) && self.nodes@[i].resolved implies self.run_log@.contains(
                (self.batch_no@, i, self.nodes@[i].generation),
            ) by {
                assert(step_pre.slot_live(i) && step_pre.nodes@[i].resolved);
            }
        }
        assert(self.dirt_pending(wl_after)) by {
            assert forall|i: int, k: int|
                self.slot_live(i) && self.nodes@[i].kind == NodeKind::Memo && self.nodes@[i].state
                    != NodeState::Clean && 0 <= k < self.nodes@[i].observers@.len()
                    && self.entry_valid(#[trigger] self.nodes@[i].observers@[k])
                    && self.nodes@[self.nodes@[i].observers@[k].0 as int].kind
                    == NodeKind::Memo implies self.marked(self.nodes@[i].observers@[k].0 as int)
                || Runtime::wl_has(wl_after, self.nodes@[i].observers@[k]) by {
                let e = self.nodes@[i].observers@[k];
                if !self.marked(e.0 as int) {
                    if i == o {
                        // o's observers were all appended to the worklist
                        assert(self.nodes@[o].observers@ == step_pre.nodes@[o].observers@);
                        let t = wl_before.len() - 1 + k;
                        assert((wl_after[t].0, wl_after[t].1)
                            == step_pre.nodes@[o].observers@[k]);
                        assert(Runtime::wl_has(wl_after, e));
                    } else {
                        assert(step_pre.nodes@[i] == self.nodes@[i]);
                        assert(step_pre.entry_valid(e));
                        assert(step_pre.marked(e.0 as int) || Runtime::wl_has(wl_before, e));
                        if step_pre.marked(e.0 as int) {
                            // only o moved from unmarked to marked, never back
                            assert(e.0 as int == o);
                            assert(self.marked(o));
                            assert(false);
                        } else {
                            let t = choose|t: int|
                                0 <= t < wl_before.len() && ((#[trigger] wl_before[t]).0,
                                wl_before[t].1) == e;
                            if t == wl_before.len() - 1 {
                                assert(e == (o as usize, g));
                                assert(self.marked(o));
                                assert(false);
                            } else {
                                assert((wl_after[t].0, wl_after[t].1) == e);
                            }
                        }
                    }
                }
            }
        }
        assert(self.start_obs_pending(wl_after, start)) by {
            assert forall|k: int|
                0 <= k < self.nodes@[start].observers@.len() && self.entry_valid(
                    #[trigger] self.nodes@[start].observers@[k],
                ) && self.nodes@[self.nodes@[start].observers@[k].0 as int].kind
                    != NodeKind::Signal implies (self.marked(
                self.nodes@[start].observers@[k].0 as int,
            ) && !self.nodes@[self.nodes@[start].observers@[k].0 as int].running)
                || Runtime::wl_has(wl_after, self.nodes@[start].observers@[k]) by {
                let e = self.nodes@[start].observers@[k];
                assert(self.nodes@[start].observers@ == step_pre.nodes@[start].observers@);
                if !(self.marked(e.0 as int) && !self.nodes@[e.0 as int].running) {
                    assert(step_pre.entry_valid(e));
                    if step_pre.marked(e.0 as int) && !step_pre.nodes@[e.0 as int].running {
                        assert(e.0 as int == o);
                        assert(false);
                    } else {
                        assert(Runtime::wl_has(wl_before, e));
                        let t = choose|t: int|
                            0 <= t < wl_before.len() && ((#[trigger] wl_before[t]).0,
                            wl_before[t].1) == e;
                        if t == wl_before.len() - 1 {
                            assert(e == (o as usize, g));
                            assert(self.marked(o) && !self.nodes@[o].running);
                            assert(false);
                        } else {
                            assert((wl_after[t].0, wl_after[t].1) == e);
                        }
                    }
                }
            }
        }
        assert forall|t: int| 0 <= t < wl_after.len() implies ((#[trigger] wl_after[t]).0 as int)
            < self.nodes@.len() && wl_after[t].1
            <= self.nodes@[wl_after[t].0 as int].generation by {
            if t < wl_before.len() - 1 {
                assert(wl_after[t] == wl_before[t]);
                assert(((wl_before[t]).0 as int) < step_pre.nodes@.len() && wl_before[t].1
                    <= step_pre.nodes@[wl_before[t].0 as int].generation);
            } else {
                assert((wl_after[t].0, wl_after[t].1) == step_pre.nodes@[o].observers@[t - (
                wl_before.len() - 1)]);
            }
        }
    }

    /// A traversal step on an already marked memo: at most its state is
    /// upgraded from stale to dirty (for a direct observer); nothing is
    /// expanded, because its observers were already notified when it
    /// was first marked.
    proof fn lemma_remark_step(
        self,
        step_pre: Runtime,
        pre: Runtime,
        o: int,
        g: u64,
        wl_before: Seq<(usize, u64, bool)>,
        wl_after: Seq<(usize, u64, bool)>,
        start: int,
    )
        requires
            step_pre.wf_but_dirt(),
            step_pre.dirt_pending(wl_before),
            step_pre.start_obs_pending(wl_before, start),
            pre.mark_frame_of(step_pre),
            !step_pre.poisoned,
            0 <= start < step_pre.nodes@.len(),
            0 <= o <= usize::MAX,
            wl_before.len() >= 1,
            wl_after == wl_before.drop_last(),
            wl_before.last().0 == o as usize,
            wl_before.last().1 == g,
            forall|t: int|
                0 <= t < wl_before.len() ==> ((#[trigger] wl_before[t]).0 as int)
                    < step_pre.nodes@.len() && wl_before[t].1
                    <= step_pre.nodes@[wl_before[t].0 as int].generation,
            0 <= o < step_pre.nodes@.len(),
            step_pre.entry_valid((o as usize, g)),
            step_pre.nodes@[o].kind == NodeKind::Memo,
            step_pre.nodes@[o].state != NodeState::Clean,
            !step_pre.nodes@[o].running,
            !step_pre.nodes@[o].resolved,
            self.nodes@ == step_pre.nodes@ || self.nodes@ == step_pre.nodes@.update(
                o,
                (Node { state: NodeState::Dirty, ..step_pre.nodes@[o] }),
            ),
            self == (Runtime { nodes: self.nodes, ..step_pre }),
        ensures
            self.wf_but_dirt(),
            self.dirt_pending(wl_after),
            self.start_obs_pending(wl_after, start),
            pre.mark_frame_of(self),
            forall|t: int|
                0 <= t < wl_after.len() ==> ((#[trigger] wl_after[t]).0 as int)
                    < self.nodes@.len() && wl_after[t].1
                    <= self.nodes@[wl_after[t].0 as int].generation,
            !self.poisoned,
    {
        assert(step_pre.node_wf(o));
        assert forall|i: int| self.slot_live(i) implies self.node_wf(i) by {
            assert(step_pre.node_wf(i));
        }
        assert forall|i: int| self.slot_live(i) implies self.settled_edges_at(i) by {
            assert(step_pre.settled_edges_at(i));
            let nd = self.nodes@[i];
            if nd.kind == NodeKind::Memo {
                assert forall|k: int|
                    0 <= k < nd.sources@.len() && self.entry_valid(
                        #[trigger] nd.sources@[k],
                    ) implies self.nodes@[nd.sources@[k].0 as int].observers@.contains(
                    (i as usize, nd.generation),
                ) by {
                    assert(nd.sources@ == step_pre.nodes@[i].sources@);
                    assert(nd.generation == step_pre.nodes@[i].generation);
                    assert(step_pre.entry_valid(nd.sources@[k]));
                    assert(step_pre.nodes@[nd.sources@[k].0 as int].observers@
                        == self.nodes@[nd.sources@[k].0 as int].observers@);
                }
            }
        }
        assert forall|i: int| self.slot_live(i) implies self.observer_backed_at(i) by {
            assert(step_pre.observer_backed_at(i));
            let nd = self.nodes@[i];
            assert forall|k: int|
                0 <= k < nd.observers@.len() && self.entry_valid(#[trigger] nd.observers@[k])
                    && self.nodes@[nd.observers@[k].0 as int].kind
                    == NodeKind::Memo implies self.nodes@[nd.observers@[k].0 as int].sources@.contains(
                (i as usize, nd.generation),
            ) by {
                assert(nd.observers@ == step_pre.nodes@[i].observers@);
                assert(nd.generation == step_pre.nodes@[i].generation);
                assert(step_pre.entry_valid(nd.observers@[k]));
                assert(step_pre.nodes@[nd.observers@[k].0 as int].sources@
                    == self.nodes@[nd.observers@[k].0 as int].sources@);
            }
        }
        assert forall|i: int| self.slot_live(i) implies self.records_current_at(i) by {
            assert(step_pre.records_current_at(i));
            let nd = self.nodes@[i];
            if i != o && nd.kind == NodeKind::Memo && (nd.state == NodeState::Clean
                || nd.running) {
                assert forall|k: int|
                    0 <= k < nd.sources@.len() && self.entry_valid(
                        #[trigger] nd.sources@[k],
                    ) implies nd.source_versions@[k]
                    == self.nodes@[nd.sources@[k].0 as int].version by {
                    assert(nd == step_pre.nodes@[i]);
                    assert(step_pre.entry_valid(nd.sources@[k]));
                }
            }
        }
        assert forall|i: int| self.slot_live(i) implies self.owned_at(i) by {
            assert(step_pre.owned_at(i));
        }
        assert forall|s: int|
            0 <= s < self.scopes@.len() && self.scopes@[s].alive implies self.scope_wf(s) by {
            assert(step_pre.scope_wf(s));
        }
        assert(self.free_wf()) by {
            assert forall|j: int|
                0 <= j < self.free_slots@.len() implies (#[trigger] self.free_slots@[j] as int)
                < self.nodes@.len() && !self.nodes@[self.free_slots@[j] as int].alive by {
                assert(step_pre.free_slots@[j] == self.free_slots@[j]);
            }
        }
        assert(self.scheduler_wf()) by {
            assert forall|j: int|
                self.cursor <= j < self.pending@.len() implies self.pending_entry_wf(j) by {
                assert(step_pre.pending_entry_wf(j));
            }
            assert forall|j1: int, j2: int|
                self.cursor <= j1 < self.pending@.len() && self.cursor <= j2 < self.pending@.len()
                    && j1 != j2 && self.entry_valid(self.pending@[j1]) && self.entry_valid(
                self.pending@[j2],
            ) implies self.pending@[j1].0 != self.pending@[j2].0 by {
                assert(step_pre.pending_entry_wf(j1));
                assert(step_pre.pending_entry_wf(j2));
                assert(step_pre.entry_valid(step_pre.pending@[j1]));
                assert(step_pre.entry_valid(step_pre.pending@[j2]));
            }
            assert forall|i: int|
                self.slot_live(i) && self.nodes@[i].queued implies exists|j: int|
                self.cursor <= j < self.pending@.len() && self.pending@[j] == (
                i as usize,
                self.nodes@[i].generation,
            ) by {
                assert(step_pre.slot_live(i) && step_pre.nodes@[i].queued);
            }
            assert forall|j: int|
                0 <= j < self.running_stack@.len() implies self.running_entry_wf(j) by {
                assert(step_pre.running_entry_wf(j));
            }
            assert forall|j1: int, j2: int|
                0 <= j1 < self.running_stack@.len() && 0 <= j2 < self.running_stack@.len() && j1
                    != j2 && self.entry_valid(self.running_stack@[j1]) && self.entry_valid(
                self.running_stack@[j2],
            ) implies self.running_stack@[j1].0 != self.running_stack@[j2].0 by {
                assert(step_pre.running_entry_wf(j1));
                assert(step_pre.running_entry_wf(j2));
                assert(step_pre.entry_valid(step_pre.running_stack@[j1]));
                assert(step_pre.entry_valid(step_pre.running_stack@[j2]));
            }
            assert(!self.batch_active ==> self.pending@.len() == self.cursor && (forall|i: int|
                self.slot_live(i) ==> !(#[trigger] self.nodes@[i].resolved)
                    && !self.nodes@[i].queued)) by {
                if !self.batch_active {
                    assert forall|i: int| self.slot_live(i) implies !(
                    #[trigger] self.nodes@[i].resolved) && !self.nodes@[i].queued by {
                        assert(step_pre.slot_live(i));
                    }
                }
            }
        }
        assert(self.log_wf()) by {
            assert forall|i: int|
                self.slot_live(i) && self.nodes@[i].resolved implies self.run_log@.contains(
                (self.batch_no@, i, self.nodes@[i].generation),
            ) by {
                assert(step_pre.slot_live(i) && step_pre.nodes@[i].resolved);
            }
        }
        assert(self.dirt_pending(wl_after)) by {
            assert forall|i: int, k: int|
                self.slot_live(i) && self.nodes@[i].kind == NodeKind::Memo && self.nodes@[i].state
                    != NodeState::Clean && 0 <= k < self.nodes@[i].observers@.len()
                    && self.entry_valid(#[trigger] self.nodes@[i].observers@[k])
                    && self.nodes@[self.nodes@[i].observers@[k].0 as int].kind
                    == NodeKind::Memo implies self.marked(self.nodes@[i].observers@[k].0 as int)
                || Runtime::wl_has(wl_after, self.nodes@[i].observers@[k]) by {
                let e = self.nodes@[i].observers@[k];
                if !self.marked(e.0 as int) {
                    assert(self.nodes@[i].observers@ == step_pre.nodes@[i].observers@);
                    assert(step_pre.entry_valid(e));
                    assert(step_pre.nodes@[i].kind == NodeKind::Memo && step_pre.nodes@[i].state
                        != NodeState::Clean);
                    assert(step_pre.marked(e.0 as int) || Runtime::wl_has(wl_before, e));
                    if step_pre.marked(e.0 as int) {
                        assert(e.0 as int == o);
                        assert(self.marked(o));
                        assert(false);
                    } else {
                        let t = choose|t: int|
                            0 <= t < wl_before.len() && ((#[trigger] wl_before[t]).0,
                            wl_before[t].1) == e;
                        if t == wl_before.len() - 1 {
                            assert(e == (o as usize, g));
                            assert(self.marked(o));
                            assert(false);
                        } else {
                            assert((wl_after[t].0, wl_after[t].1) == e);
                        }
                    }
                }
            }
        }
        assert(self.start_obs_pending(wl_after, start)) by {
            assert forall|k: int|
                0 <= k < self.nodes@[start].observers@.len() && self.entry_valid(
                    #[trigger] self.nodes@[start].observers@[k],
                ) && self.nodes@[self.nodes@[start].observers@[k].0 as int].kind
                    != NodeKind::Signal implies (self.marked(
                self.nodes@[start].observers@[k].0 as int,
            ) && !self.nodes@[self.nodes@[start].observers@[k].0 as int].running)
                || Runtime::wl_has(wl_after, self.nodes@[start].observers@[k]) by {
                let e = self.nodes@[start].observers@[k];
                assert(self.nodes@[start].observers@ == step_pre.nodes@[start].observers@);
                if !(self.marked(e.0 as int) && !self.nodes@[e.0 as int].running) {
                    assert(step_pre.entry_valid(e));
                    if step_pre.marked(e.0 as int) && !step_pre.nodes@[e.0 as int].running {
                        assert(e.0 as int == o);
                        assert(false);
                    } else {
                        assert(Runtime::wl_has(wl_before, e));
                        let t = choose|t: int|
                            0 <= t < wl_before.len() && ((#[trigger] wl_before[t]).0,
                            wl_before[t].1) == e;
                        if t == wl_before.len() - 1 {
                            assert(e == (o as usize, g));
                            assert(self.marked(o) && !self.nodes@[o].running);
                            assert(false);
                        } else {
                            assert((wl_after[t].0, wl_after[t].1) == e);
                        }
                    }
                }
            }
        }
        assert forall|t: int| 0 <= t < wl_after.len() implies ((#[trigger] wl_after[t]).0 as int)
            < self.nodes@.len() && wl_after[t].1
            <= self.nodes@[wl_after[t].0 as int].generation by {
            assert(wl_after[t] == wl_before[t]);
            assert(((wl_before[t]).0 as int) < step_pre.nodes@.len() && wl_before[t].1
                <= step_pre.nodes@[wl_before[t].0 as int].generation);
        }
    }

    /// A traversal step on an effect: it is queued for this batch if it
    /// was not already.
    proof fn lemma_queue_step(
        self,
        step_pre: Runtime,
        pre: Runtime,
        o: int,
        g: u64,
        wl_before: Seq<(usize, u64, bool)>,
        wl_after: Seq<(usize, u64, bool)>,
        start: int,
    )
        requires
            step_pre.wf_but_dirt(),
            step_pre.dirt_pending(wl_before),
            step_pre.start_obs_pending(wl_before, start),
            pre.mark_frame_of(step_pre),
            !step_pre.poisoned,
            step_pre.batch_active,
            0 <= start < step_pre.nodes@.len(),
            0 <= o <= usize::MAX,
            wl_before.len() >= 1,
            wl_after == wl_before.drop_last(),
            wl_before.last().0 == o as usize,
            wl_before.last().1 == g,
            forall|t: int|
                0 <= t < wl_before.len() ==> ((#[trigger] wl_before[t]).0 as int)
                    < step_pre.nodes@.len() && wl_before[t].1
                    <= step_pre.nodes@[wl_before[t].0 as int].generation,
            0 <= o < step_pre.nodes@.len(),
            step_pre.entry_valid((o as usize, g)),
            step_pre.nodes@[o].kind == NodeKind::Effect,
            !step_pre.nodes@[o].running,
            !step_pre.nodes@[o].resolved,
            step_pre.nodes@[o].queued ==> self == step_pre,
            !step_pre.nodes@[o].queued ==> self.nodes@ == step_pre.nodes@.update(
                o,
                (Node { queued: true, ..step_pre.nodes@[o] }),
            ) && self.pending@ == step_pre.pending@.push((o as usize, g)) && self == (Runtime {
                nodes: self.nodes,
                pending: self.pending,
                ..step_pre
            }),
        ensures
            self.wf_but_dirt(),
            self.dirt_pending(wl_after),
            self.start_obs_pending(wl_after, start),
            pre.mark_frame_of(self),
            forall|t: int|
                0 <= t < wl_after.len() ==> ((#[trigger] wl_after[t]).0 as int)
                    < self.nodes@.len() && wl_after[t].1
                    <= self.nodes@[wl_after[t].0 as int].generation,
            !self.poisoned,
    {
        assert(step_pre.node_wf(o));
        if step_pre.nodes@[o].queued {
            assert(self.wf_but_dirt());
            self.lemma_noop_queue_pending(step_pre, o, g, wl_before, wl_after, start);
        } else {
            self.lemma_enqueue_wf_but_dirt(step_pre, o);
            self.lemma_noop_queue_pending(step_pre, o, g, wl_before, wl_after, start);
            assert(pre.mark_frame_of(self)) by {
                assert(pre.pending@.is_prefix_of(step_pre.pending@));
                assert forall|t: int| 0 <= t < pre.pending@.len() implies pre.pending@[t]
                    == self.pending@[t] by {
                    assert(pre.pending@[t] == step_pre.pending@[t]);
                }
                assert(pre.pending@.is_prefix_of(self.pending@));
            }
        }
        assert forall|t: int| 0 <= t < wl_after.len() implies ((#[trigger] wl_after[t]).0 as int)
            < self.nodes@.len() && wl_after[t].1
            <= self.nodes@[wl_after[t].0 as int].generation by {
            assert(wl_after[t] == wl_before[t]);
            assert(((wl_before[t]).0 as int) < step_pre.nodes@.len() && wl_before[t].1
                <= step_pre.nodes@[wl_before[t].0 as int].generation);
        }
    }

    /// After an effect step, the pending-dirt bookkeeping still holds
    /// with the popped entry gone: the effect is now marked (queued).
    proof fn lemma_noop_queue_pending(
        self,
        step_pre: Runtime,
        o: int,
        g: u64,
        wl_before: Seq<(usize, u64, bool)>,
        wl_after: Seq<(usize, u64, bool)>,
        start: int,
    )
        requires
            step_pre.wf_but_dirt(),
            step_pre.dirt_pending(wl_before),
            step_pre.start_obs_pending(wl_before, start),
            0 <= start < step_pre.nodes@.len(),
            0 <= o <= usize::MAX,
            wl_before.len() >= 1,
            wl_after == wl_before.drop_last(),
            wl_before.last().0 == o as usize,
            wl_before.last().1 == g,
            0 <= o < step_pre.nodes@.len(),
            step_pre.nodes@[o].kind == NodeKind::Effect,
            !step_pre.nodes@[o].running,
            self.nodes@.len() == step_pre.nodes@.len(),
            forall|i: int| 0 <= i < step_pre.nodes@.len() && i != o ==> self.nodes@[i]
                == step_pre.nodes@[i],
            self.nodes@[o].observers@ == step_pre.nodes@[o].observers@,
            self.nodes@[o].kind == step_pre.nodes@[o].kind,
            self.nodes@[o].state == step_pre.nodes@[o].state,
            self.nodes@[o].alive == step_pre.nodes@[o].alive,
            self.nodes@[o].generation == step_pre.nodes@[o].generation,
            self.nodes@[o].running == step_pre.nodes@[o].running,
            self.nodes@[o].queued,
        ensures
            self.dirt_pending(wl_after),
            self.start_obs_pending(wl_after, start),
    {
        assert forall|i: int, k: int|
            self.slot_live(i) && self.nodes@[i].kind == NodeKind::Memo && self.nodes@[i].state
                != NodeState::Clean && 0 <= k < self.nodes@[i].observers@.len()
                && self.entry_valid(#[trigger] self.nodes@[i].observers@[k])
                && self.nodes@[self.nodes@[i].observers@[k].0 as int].kind
                == NodeKind::Memo implies self.marked(self.nodes@[i].observers@[k].0 as int)
            || Runtime::wl_has(wl_after, self.nodes@[i].observers@[k]) by {
            let e = self.nodes@[i].observers@[k];
            if !self.marked(e.0 as int) {
                assert(e.0 as int != o);
                assert(self.nodes@[i].observers@ == step_pre.nodes@[i].observers@);
                assert(step_pre.entry_valid(e));
                assert(step_pre.marked(e.0 as int) || Runtime::wl_has(wl_before, e));
                assert(!step_pre.marked(e.0 as int));
                let t = choose|t: int|
                    0 <= t < wl_before.len() && ((#[trigger] wl_before[t]).0, wl_before[t].1) == e;
                if t == wl_before.len() - 1 {
                    assert(e == (o as usize, g));
                    assert(false);
                } else {
                    assert((wl_after[t].0, wl_after[t].1) == e);
                }
            }
        }
        assert forall|k: int|
            0 <= k < self.nodes@[start].observers@.len() && self.entry_valid(
                #[trigger] self.nodes@[start].observers@[k],
            ) && self.nodes@[self.nodes@[start].observers@[k].0 as int].kind
                != NodeKind::Signal implies (self.marked(
            self.nodes@[start].observers@[k].0 as int,
        ) && !self.nodes@[self.nodes@[start].observers@[k].0 as int].running) || Runtime::wl_has(
            wl_after,
            self.nodes@[start].observers@[k],
        ) by {
            let e = self.nodes@[start].observers@[k];
            assert(self.nodes@[start].observers@ == step_pre.nodes@[start].observers@);
            if !(self.marked(e.0 as int) && !self.nodes@[e.0 as int].running) {
                assert(e.0 as int != o);
                assert(step_pre.entry_valid(e));
                assert(!(step_pre.marked(e.0 as int) && !step_pre.nodes@[e.0 as int].running));
                assert(Runtime::wl_has(wl_before, e));
                let t = choose|t: int|
                    0 <= t < wl_before.len() && ((#[trigger] wl_before[t]).0, wl_before[t].1) == e;
                if t == wl_before.len() - 1 {
                    assert(e == (o as usize, g));
                    assert(false);
                } else {
                    assert((wl_after[t].0, wl_after[t].1) == e);
                }
            }
        }
    }

    /// Queueing a live, unqueued, unresolved, non-running effect
    /// preserves everything but the dirtiness closure (which it also
    /// preserves, but that is argued where the worklist is known).
    proof fn lemma_enqueue_wf_but_dirt(self, pre: Runtime, slot: int)
        requires
            pre.wf_but_dirt(),
            pre.batch_active,
            0 <= slot <= usize::MAX,
            0 <= slot < pre.nodes@.len(),
            pre.nodes@[slot].alive,
            pre.nodes@[slot].kind == NodeKind::Effect,
            !pre.nodes@[slot].queued,
            !pre.nodes@[slot].resolved,
            !pre.nodes@[slot].running,
            self.nodes@ == pre.nodes@.update(
                slot,
                (Node { queued: true, ..pre.nodes@[slot] }),
            ),
            self.pending@ == pre.pending@.push((slot as usize, pre.nodes@[slot].generation)),
            self == (Runtime { nodes: self.nodes, pending: self.pending, ..pre }),
        ensures
            self.wf_but_dirt(),
    {
        assert(pre.node_wf(slot));
        assert forall|i: int| self.slot_live(i) implies self.node_wf(i) by {
            assert(pre.node_wf(i));
        }
        assert forall|i: int| self.slot_live(i) implies self.settled_edges_at(i) by {
            assert(pre.settled_edges_at(i));
            let nd = self.nodes@[i];
            if nd.kind == NodeKind::Memo {
                assert forall|k: int|
                    0 <= k < nd.sources@.len() && self.entry_valid(
                        #[trigger] nd.sources@[k],
                    ) implies self.nodes@[nd.sources@[k].0 as int].observers@.contains(
                    (i as usize, nd.generation),
                ) by {
                    assert(pre.nodes@[i] == nd);
                    assert(pre.entry_valid(nd.sources@[k]));
                    assert(pre.nodes@[nd.sources@[k].0 as int].observers@
                        == self.nodes@[nd.sources@[k].0 as int].observers@);
                }
            }
        }
        assert forall|i: int| self.slot_live(i) implies self.observer_backed_at(i) by {
            assert(pre.observer_backed_at(i));
            let nd = self.nodes@[i];
            assert forall|k: int|
                0 <= k < nd.observers@.len() && self.entry_valid(#[trigger] nd.observers@[k])
                    && self.nodes@[nd.observers@[k].0 as int].kind
                    == NodeKind::Memo implies self.nodes@[nd.observers@[k].0 as int].sources@.contains(
                (i as usize, nd.generation),
            ) by {
                assert(nd.observers@ == pre.nodes@[i].observers@);
                assert(nd.generation == pre.nodes@[i].generation);
                assert(pre.entry_valid(nd.observers@[k]));
                assert(pre.nodes@[nd.observers@[k].0 as int].sources@
                    == self.nodes@[nd.observers@[k].0 as int].sources@);
            }
        }
        assert forall|i: int| self.slot_live(i) implies self.records_current_at(i) by {
            assert(pre.records_current_at(i));
            let nd = self.nodes@[i];
            if nd.kind == NodeKind::Memo && (nd.state == NodeState::Clean || nd.running) {
                assert forall|k: int|
                    0 <= k < nd.sources@.len() && self.entry_valid(
                        #[trigger] nd.sources@[k],
                    ) implies nd.source_versions@[k]
                    == self.nodes@[nd.sources@[k].0 as int].version by {
                    assert(pre.nodes@[i] == nd);
                    assert(pre.entry_valid(nd.sources@[k]));
                }
            }
        }
        assert forall|i: int| self.slot_live(i) implies self.owned_at(i) by {
            assert(pre.owned_at(i));
        }
        assert forall|s: int|
            0 <= s < self.scopes@.len() && self.scopes@[s].alive implies self.scope_wf(s) by {
            assert(pre.scope_wf(s));
        }
        assert(self.free_wf()) by {
            assert forall|j: int|
                0 <= j < self.free_slots@.len() implies (#[trigger] self.free_slots@[j] as int)
                < self.nodes@.len() && !self.nodes@[self.free_slots@[j] as int].alive by {
                assert(pre.free_slots@[j] == self.free_slots@[j]);
                assert(self.free_slots@[j] as int != slot);
            }
        }
        assert(self.scheduler_wf()) by {
            let m = self.pending@.len() as int;
            assert forall|j: int| self.cursor <= j < m implies self.pending_entry_wf(j) by {
                if j < m - 1 {
                    assert(self.pending@[j] == pre.pending@[j]);
                    assert(pre.pending_entry_wf(j));
                    let e = self.pending@[j];
                    if e.0 as int == slot && self.entry_valid(e) {
                        assert(self.nodes@[slot].generation == pre.nodes@[slot].generation);
                        assert(pre.entry_valid(e));
                        assert(pre.nodes@[slot].queued);
                        assert(false);
                    }
                } else {
                    assert(self.pending@[j] == (slot as usize, pre.nodes@[slot].generation));
                    assert(self.entry_valid(self.pending@[j]));
                }
            }
            assert forall|j1: int, j2: int|
                self.cursor <= j1 < m && self.cursor <= j2 < m && j1 != j2 && self.entry_valid(
                    self.pending@[j1],
                ) && self.entry_valid(self.pending@[j2]) implies self.pending@[j1].0
                != self.pending@[j2].0 by {
                if j1 < m - 1 && j2 < m - 1 {
                    assert(pre.pending_entry_wf(j1));
                    assert(pre.pending_entry_wf(j2));
                    if self.pending@[j1].0 as int != slot && self.pending@[j2].0 as int != slot {
                        assert(pre.entry_valid(pre.pending@[j1]));
                        assert(pre.entry_valid(pre.pending@[j2]));
                    } else {
                        if self.pending@[j1].0 as int == slot {
                            assert(pre.entry_valid(pre.pending@[j1]));
                            assert(pre.nodes@[slot].queued);
                            assert(false);
                        }
                        if self.pending@[j2].0 as int == slot {
                            assert(pre.entry_valid(pre.pending@[j2]));
                            assert(pre.nodes@[slot].queued);
                            assert(false);
                        }
                    }
                } else {
                    let jo = if j1 < m - 1 {
                        j1
                    } else {
                        j2
                    };
                    assert(pre.pending_entry_wf(jo));
                    if self.pending@[jo].0 as int == slot {
                        assert(pre.entry_valid(pre.pending@[jo]));
                        assert(pre.nodes@[slot].queued);
                        assert(false);
                    }
                }
            }
            assert forall|i: int|
                self.slot_live(i) && self.nodes@[i].queued implies exists|j: int|
                self.cursor <= j < self.pending@.len() && self.pending@[j] == (
                i as usize,
                self.nodes@[i].generation,
            ) by {
                if i == slot {
                    assert(self.pending@[m - 1] == (i as usize, self.nodes@[i].generation));
                } else {
                    assert(pre.slot_live(i) && pre.nodes@[i].queued);
                    let j = choose|j: int|
                        pre.cursor <= j < pre.pending@.len() && pre.pending@[j] == (
                        i as usize,
                        pre.nodes@[i].generation,
                        );
                    assert(self.pending@[j] == (i as usize, self.nodes@[i].generation));
                }
            }
            assert forall|j: int|
                0 <= j < self.running_stack@.len() implies self.running_entry_wf(j) by {
                assert(pre.running_entry_wf(j));
                if self.running_stack@[j].0 as int == slot && self.entry_valid(
                    self.running_stack@[j],
                ) {
                    assert(pre.entry_valid(pre.running_stack@[j]));
                    assert(false);
                }
            }
            assert forall|j1: int, j2: int|
                0 <= j1 < self.running_stack@.len() && 0 <= j2 < self.running_stack@.len() && j1
                    != j2 && self.entry_valid(self.running_stack@[j1]) && self.entry_valid(
                self.running_stack@[j2],
            ) implies self.running_stack@[j1].0 != self.running_stack@[j2].0 by {
                assert(pre.running_entry_wf(j1));
                assert(pre.running_entry_wf(j2));
                if self.running_stack@[j1].0 as int != slot && self.running_stack@[j2].0 as int
                    != slot {
                    assert(pre.entry_valid(pre.running_stack@[j1]));
                    assert(pre.entry_valid(pre.running_stack@[j2]));
                } else {
                    if self.running_stack@[j1].0 as int == slot {
                        assert(pre.entry_valid(pre.running_stack@[j1]));
                        assert(pre.nodes@[slot].running);
                        assert(false);
                    }
                    if self.running_stack@[j2].0 as int == slot {
                        assert(pre.entry_valid(pre.running_stack@[j2]));
                        assert(pre.nodes@[slot].running);
                        assert(false);
                    }
                }
            }
        }
        assert(self.log_wf()) by {
            assert forall|i: int|
                self.slot_live(i) && self.nodes@[i].resolved implies self.run_log@.contains(
                (self.batch_no@, i, self.nodes@[i].generation),
            ) by {
                assert(pre.slot_live(i) && pre.nodes@[i].resolved);
            }
        }
    }

    /// Opening a batch changes nothing the invariant watches except
    /// the flag that only constrains idle runtimes.
    proof fn lemma_open_batch(self, pre: Runtime)
        requires
            pre.wf_inner(),
            self == (Runtime { batch_active: true, ..pre }),
        ensures
            self.wf_inner(),
    {
        assert forall|i: int| self.slot_live(i) implies self.node_wf(i) by {
            assert(pre.node_wf(i));
        }
        assert forall|i: int| self.slot_live(i) implies self.settled_edges_at(i) by {
            assert(pre.settled_edges_at(i));
        }
        assert forall|i: int| self.slot_live(i) implies self.observer_backed_at(i) by {
            assert(pre.observer_backed_at(i));
            let nd = self.nodes@[i];
            assert forall|k: int|
                0 <= k < nd.observers@.len() && self.entry_valid(#[trigger] nd.observers@[k])
                    && self.nodes@[nd.observers@[k].0 as int].kind
                    == NodeKind::Memo implies self.nodes@[nd.observers@[k].0 as int].sources@.contains(
                (i as usize, nd.generation),
            ) by {
                assert(nd.observers@ == pre.nodes@[i].observers@);
                assert(nd.generation == pre.nodes@[i].generation);
                assert(pre.entry_valid(nd.observers@[k]));
                assert(pre.nodes@[nd.observers@[k].0 as int].sources@
                    == self.nodes@[nd.observers@[k].0 as int].sources@);
            }
        }
        assert forall|i: int| self.slot_live(i) implies self.records_current_at(i) by {
            assert(pre.records_current_at(i));
        }
        assert forall|i: int| self.slot_live(i) implies self.dirt_closed_at(i) by {
            assert(pre.dirt_closed_at(i));
        }
        assert forall|i: int| self.slot_live(i) implies self.owned_at(i) by {
            assert(pre.owned_at(i));
        }
        assert forall|s: int|
            0 <= s < self.scopes@.len() && self.scopes@[s].alive implies self.scope_wf(s) by {
            assert(pre.scope_wf(s));
        }
        assert(self.free_wf()) by {
            assert forall|j: int|
                0 <= j < self.free_slots@.len() implies (#[trigger] self.free_slots@[j] as int)
                < self.nodes@.len() && !self.nodes@[self.free_slots@[j] as int].alive by {
                assert(pre.free_slots@[j] == self.free_slots@[j]);
            }
        }
        assert(self.scheduler_wf()) by {
            assert forall|j: int|
                self.cursor <= j < self.pending@.len() implies self.pending_entry_wf(j) by {
                assert(pre.pending_entry_wf(j));
            }
            assert forall|j1: int, j2: int|
                self.cursor <= j1 < self.pending@.len() && self.cursor <= j2 < self.pending@.len()
                    && j1 != j2 && self.entry_valid(self.pending@[j1]) && self.entry_valid(
                self.pending@[j2],
            ) implies self.pending@[j1].0 != self.pending@[j2].0 by {
                assert(pre.pending_entry_wf(j1));
                assert(pre.pending_entry_wf(j2));
            }
            assert forall|i: int|
                self.slot_live(i) && self.nodes@[i].queued implies exists|j: int|
                self.cursor <= j < self.pending@.len() && self.pending@[j] == (
                i as usize,
                self.nodes@[i].generation,
            ) by {
                assert(pre.slot_live(i) && pre.nodes@[i].queued);
            }
            assert forall|j: int|
                0 <= j < self.running_stack@.len() implies self.running_entry_wf(j) by {
                assert(pre.running_entry_wf(j));
            }
        }
        assert(self.log_wf()) by {
            assert forall|i: int|
                self.slot_live(i) && self.nodes@[i].resolved implies self.run_log@.contains(
                (self.batch_no@, i, self.nodes@[i].generation),
            ) by {
                assert(pre.slot_live(i) && pre.nodes@[i].resolved);
            }
        }
    }

    /// Committing a write to a signal whose live observers have all
    /// been marked (and none is running) keeps the invariant: in
    /// particular no settled memo can still hold a record of the
    /// signal, so bumping its version invalidates nothing.
    proof fn lemma_commit_write(self, mid: Runtime, slot: int)
        requires
            mid.wf_but_dirt(),
            mid.dirt_all(),
            !mid.poisoned,
            0 <= slot <= usize::MAX,
            0 <= slot < mid.nodes@.len(),
            mid.nodes@[slot].alive,
            mid.nodes@[slot].kind == NodeKind::Signal,
            mid.start_obs_marked(slot),
            mid.nodes@[slot].version < u64::MAX,
            self.nodes@ == mid.nodes@.update(
                slot,
                (Node {
                    value: self.nodes@[slot].value,
                    version: (mid.nodes@[slot].version + 1) as u64,
                    ..mid.nodes@[slot]
                }),
            ),
            self == (Runtime { nodes: self.nodes, ..mid }),
        ensures
            self.wf_inner(),
    {
        assert(mid.node_wf(slot));
        assert forall|i: int| self.slot_live(i) implies self.node_wf(i) by {
            assert(mid.node_wf(i));
        }
        assert forall|i: int| self.slot_live(i) implies self.settled_edges_at(i) by {
            assert(mid.settled_edges_at(i));
            let nd = self.nodes@[i];
            if nd.kind == NodeKind::Memo {
                assert forall|k: int|
                    0 <= k < nd.sources@.len() && self.entry_valid(
                        #[trigger] nd.sources@[k],
                    ) implies self.nodes@[nd.sources@[k].0 as int].observers@.contains(
                    (i as usize, nd.generation),
                ) by {
                    assert(nd.sources@ == mid.nodes@[i].sources@);
                    assert(nd.generation == mid.nodes@[i].generation);
                    assert(mid.entry_valid(nd.sources@[k]));
                    assert(mid.nodes@[nd.sources@[k].0 as int].observers@
                        == self.nodes@[nd.sources@[k].0 as int].observers@);
                }
            }
        }
        assert forall|i: int| self.slot_live(i) implies self.observer_backed_at(i) by {
            assert(mid.observer_backed_at(i));
            let nd = self.nodes@[i];
            assert forall|k: int|
                0 <= k < nd.observers@.len() && self.entry_valid(#[trigger] nd.observers@[k])
                    && self.nodes@[nd.observers@[k].0 as int].kind
                    == NodeKind::Memo implies self.nodes@[nd.observers@[k].0 as int].sources@.contains(
                (i as usize, nd.generation),
            ) by {
                assert(nd.observers@ == mid.nodes@[i].observers@);
                assert(nd.generation == mid.nodes@[i].generation);
                assert(mid.entry_valid(nd.observers@[k]));
                assert(mid.nodes@[nd.observers@[k].0 as int].sources@
                    == self.nodes@[nd.observers@[k].0 as int].sources@);
            }
        }
        assert forall|i: int| self.slot_live(i) implies self.records_current_at(i) by {
            assert(mid.records_current_at(i));
            let nd = self.nodes@[i];
            if nd.kind == NodeKind::Memo && (nd.state == NodeState::Clean || nd.running) {
                assert forall|k: int|
                    0 <= k < nd.sources@.len() && self.entry_valid(
                        #[trigger] nd.sources@[k],
                    ) implies nd.source_versions@[k]
                    == self.nodes@[nd.sources@[k].0 as int].version by {
                    assert(i != slot);
                    assert(mid.nodes@[i] == nd);
                    assert(mid.entry_valid(nd.sources@[k]));
                    if nd.sources@[k].0 as int == slot {
                        // a settled memo still recording the written
                        // signal would have been marked by the traversal
                        mid.lemma_len_bound();
                        assert((i as usize) as int == i);
                        assert(mid.settled_edges_at(i));
                        assert(mid.nodes@[slot].observers@.contains((i as usize, nd.generation)));
                        let w = choose|w: int|
                            0 <= w < mid.nodes@[slot].observers@.len()
                                && mid.nodes@[slot].observers@[w] == (i as usize, nd.generation);
                        assert(mid.entry_valid(mid.nodes@[slot].observers@[w]));
                        assert(mid.marked(i) && !mid.nodes@[i].running);
                        assert(mid.nodes@[i].state != NodeState::Clean);
                        assert(false);
                    }
                }
            }
        }
        assert forall|i: int| self.slot_live(i) implies self.dirt_closed_at(i) by {
            assert(mid.dirt_closed_at(i));
            let nd = self.nodes@[i];
            if nd.kind == NodeKind::Memo && nd.state != NodeState::Clean {
                assert forall|k: int|
                    0 <= k < nd.observers@.len() && self.entry_valid(#[trigger] nd.observers@[k])
                        && self.nodes@[nd.observers@[k].0 as int].kind
                        == NodeKind::Memo implies self.marked(nd.observers@[k].0 as int) by {
                    assert(i != slot);
                    assert(mid.nodes@[i] == nd);
                    assert(mid.entry_valid(nd.observers@[k]));
                    assert(mid.marked(nd.observers@[k].0 as int));
                }
            }
        }
        assert forall|i: int| self.slot_live(i) implies self.owned_at(i) by {
            assert(mid.owned_at(i));
        }
        assert forall|s: int|
            0 <= s < self.scopes@.len() && self.scopes@[s].alive implies self.scope_wf(s) by {
            assert(mid.scope_wf(s));
        }
        assert(self.free_wf()) by {
            assert forall|j: int|
                0 <= j < self.free_slots@.len() implies (#[trigger] self.free_slots@[j] as int)
                < self.nodes@.len() && !self.nodes@[self.free_slots@[j] as int].alive by {
                assert(mid.free_slots@[j] == self.free_slots@[j]);
                assert(self.free_slots@[j] as int != slot);
            }
        }
        assert(self.scheduler_wf()) by {
            assert forall|j: int|
                self.cursor <= j < self.pending@.len() implies self.pending_entry_wf(j) by {
                assert(mid.pending_entry_wf(j));
            }
            assert forall|j1: int, j2: int|
                self.cursor <= j1 < self.pending@.len() && self.cursor <= j2 < self.pending@.len()
                    && j1 != j2 && self.entry_valid(self.pending@[j1]) && self.entry_valid(
                self.pending@[j2],
            ) implies self.pending@[j1].0 != self.pending@[j2].0 by {
                assert(mid.pending_entry_wf(j1));
                assert(mid.pending_entry_wf(j2));
                assert(mid.entry_valid(mid.pending@[j1]));
                assert(mid.entry_valid(mid.pending@[j2]));
            }
            assert forall|i: int|
                self.slot_live(i) && self.nodes@[i].queued implies exists|j: int|
                self.cursor <= j < self.pending@.len() && self.pending@[j] == (
                i as usize,
                self.nodes@[i].generation,
            ) by {
                assert(mid.slot_live(i) && mid.nodes@[i].queued);
            }
            assert forall|j: int|
                0 <= j < self.running_stack@.len() implies self.running_entry_wf(j) by {
                assert(mid.running_entry_wf(j));
            }
            assert forall|j1: int, j2: int|
                0 <= j1 < self.running_stack@.len() && 0 <= j2 < self.running_stack@.len() && j1
                    != j2 && self.entry_valid(self.running_stack@[j1]) && self.entry_valid(
                self.running_stack@[j2],
            ) implies self.running_stack@[j1].0 != self.running_stack@[j2].0 by {
                assert(mid.running_entry_wf(j1));
                assert(mid.running_entry_wf(j2));
                assert(mid.entry_valid(mid.running_stack@[j1]));
                assert(mid.entry_valid(mid.running_stack@[j2]));
            }
            assert(!self.batch_active ==> self.pending@.len() == self.cursor && (forall|i: int|
                self.slot_live(i) ==> !(#[trigger] self.nodes@[i].resolved)
                    && !self.nodes@[i].queued)) by {
                if !self.batch_active {
                    assert forall|i: int| self.slot_live(i) implies !(
                    #[trigger] self.nodes@[i].resolved) && !self.nodes@[i].queued by {
                        assert(mid.slot_live(i));
                    }
                }
            }
        }
        assert(self.log_wf()) by {
            assert forall|i: int|
                self.slot_live(i) && self.nodes@[i].resolved implies self.run_log@.contains(
                (self.batch_no@, i, self.nodes@[i].generation),
            ) by {
                assert(mid.slot_live(i) && mid.nodes@[i].resolved);
            }
        }
    }

    /// Writes a signal. An equal value (under the signal's policy) is a
    /// complete no-op: no observer is marked, nothing runs. A changed
    /// value opens (or extends) the batch, marks direct memo observers
    /// dirty and transitive ones stale, queues every effect downstream
    /// once, then stores the value under a bumped version. No memo is
    /// computed or changed by a write: memos are pull-based. If the
    /// propagation reaches a computation that is running or already ran
    /// this batch, the graph is cyclic for this batch: the write does
    /// not happen, `CyclicDependency` is reported and the runtime stays
    /// unusable.
    pub fn set(&mut self, n: NodeId, v: Value) -> (r: Result<(), RuntimeError>)
        requires
            old(self).wf(),
            old(self).valid(n) ==> old(self).is_signal(n),
            old(self).valid(n) ==> old(self).slot_version(n.slot as int) < u64::MAX,
        ensures
            final(self).wf(),
            old(self).is_poisoned() ==> r == Err::<(), _>(RuntimeError::CyclicDependency) && *final(self) == *old(self),
            !old(self).is_poisoned() && !old(self).valid(n) ==> r == Err::<
                (),
                _,
            >(RuntimeError::UseAfterDispose) && *final(self) == *old(self),
            !old(self).is_poisoned() && old(self).valid(n) && !old(self).slot_always_notify(
                n.slot as int,
            ) && old(self).value_of(n) == v@ ==> r == Ok::<_, RuntimeError>(()) && *final(self)
                == *old(self),
            !old(self).is_poisoned() && old(self).valid(n) && (old(self).slot_always_notify(
                n.slot as int,
            ) || old(self).value_of(n) != v@) ==> {
                &&& old(self).only_dirt_changed(*final(self), n.slot as int)
                &&& final(self).same_scopes(*old(self))
                &&& (r is Ok || r == Err::<(), RuntimeError>(RuntimeError::CyclicDependency))
                &&& (r is Err ==> final(self).is_poisoned())
                &&& (r is Ok ==> {
                    &&& !final(self).is_poisoned()
                    &&& final(self).valid(n)
                    &&& final(self).value_of(n) == v@
                    &&& final(self).slot_version(n.slot as int) == old(self).slot_version(
                        n.slot as int,
                    ) + 1
                    &&& final(self).in_batch()
                    &&& final(self).batch_index() == old(self).batch_index()
                    &&& final(self).effect_runs() == old(self).effect_runs()
                    &&& final(self).observers_notified(n.slot as int)
                })
            },
            !old(self).is_poisoned() && old(self).valid(n) && !old(self).in_batch() && !old(
                self,
            ).tracking() ==> r is Ok,
    {
        if self.poisoned {
            return Err(RuntimeError::CyclicDependency);
        }
        if n.slot >= self.nodes.len() || !self.nodes[n.slot].alive || self.nodes[n.slot].generation
            != n.generation {
            return Err(RuntimeError::UseAfterDispose);
        }
        if !self.nodes[n.slot].always_notify {
            let same = self.nodes[n.slot].value.equal_to(&v);
            if same {
                return Ok(());
            }
        }
        let ghost pre = *old(self);
        self.batch_active = true;
        proof {
            self.lemma_open_batch(pre);
        }
        let ghost opened = *self;
        match self.mark_observers(n.slot) {
            Ok(()) => {},
            Err(e) => {
                proof {
                    assert(pre.only_dirt_changed(*self, n.slot as int)) by {
                        assert(opened.mark_frame_of(*self));
                    }
                    if !pre.in_batch() && !pre.tracking() {
                        assert forall|i: int| #![trigger self.slot_live(i)]
                            self.slot_live(i) implies !self.slot_running(i)
                            && !self.slot_resolved(i) by {
                            assert(self.nodes@[i].alive == pre.nodes@[i].alive
                                && self.nodes@[i].running == pre.nodes@[i].running
                                && self.nodes@[i].resolved == pre.nodes@[i].resolved);
                            assert(pre.slot_live(i) && !pre.nodes@[i].resolved);
                            if pre.nodes@[i].running {
                                let j = choose|j: int|
                                    0 <= j < pre.running_stack@.len() && pre.running_stack@[j] == (
                                    i as usize,
                                    pre.nodes@[i].generation,
                                    );
                                assert(false);
                            }
                        }
                        assert(false);
                    }
                }
                return Err(e);
            },
        }
        let ghost marked_state = *self;
        let bumped = self.nodes[n.slot].version + 1;
        self.nodes[n.slot].value = v;
        self.nodes[n.slot].version = bumped;
        proof {
            assert(self.nodes@ =~= marked_state.nodes@.update(
                n.slot as int,
                (Node {
                    value: self.nodes@[n.slot as int].value,
                    version: bumped,
                    ..marked_state.nodes@[n.slot as int]
                }),
            ));
            self.lemma_commit_write(marked_state, n.slot as int);
            assert(pre.only_dirt_changed(*self, n.slot as int)) by {
                assert(opened.mark_frame_of(marked_state));
            }
            assert(self.observers_notified(n.slot as int)) by {
                let sl = n.slot as int;
                assert forall|k: int|
                    0 <= k < self.slot_observers(sl).len() && self.edge_live(
                        #[trigger] self.slot_observers(sl)[k],
                    ) && self.slot_kind(self.slot_observers(sl)[k].0 as int)
                        != NodeKind::Signal implies self.notified(
                    self.slot_observers(sl)[k].0 as int,
                ) by {
                    let e = marked_state.nodes@[sl].observers@[k];
                    assert(self.slot_observers(sl)[k] == e);
                    assert(marked_state.entry_valid(e));
                    assert(marked_state.marked(e.0 as int));
                    assert(e.0 as int != sl);
                }
            }
        }
        Ok(())
    }

    // ----- reads -----------------------------------------------------

    /// Everything a read may never change: liveness, kinds, values,
    /// cached flags, versions, generations, cleanups and the whole
    /// scheduler state. A read settles dirtiness states and records
    /// dependency edges, nothing else.
    pub open spec fn same_values(self, post: Runtime) -> bool {
        &&& post.num_slots() == self.num_slots()
        &&& (forall|i: int|
            #![trigger post.slot_kind(i)]
            0 <= i < self.num_slots() ==> {
                &&& post.slot_live(i) == self.slot_live(i)
                &&& post.slot_kind(i) == self.slot_kind(i)
                &&& post.slot_value(i) == self.slot_value(i)
                &&& post.slot_has_value(i) == self.slot_has_value(i)
                &&& post.slot_version(i) == self.slot_version(i)
                &&& post.slot_generation(i) == self.slot_generation(i)
                &&& post.slot_cleanups(i) == self.slot_cleanups(i)
                &&& post.slot_queued(i) == self.slot_queued(i)
                &&& post.slot_resolved(i) == self.slot_resolved(i)
                &&& post.slot_running(i) == self.slot_running(i)
            })
    }

    /// The outcome is a settled value equal to `v`.
    pub open spec fn is_ready_with(r: Result<ReadOutcome, RuntimeError>, v: ValueView) -> bool {
        match r {
            Ok(ReadOutcome::Ready(val)) => val@ == v,
            _ => false,
        }
    }

    /// A stale memo found a changed (or vanished) source: it becomes
    /// dirty and will be recomputed on this read.
    proof fn lemma_state_dirty(self, pre: Runtime, t: int)
        requires
            pre.wf_inner(),
            0 <= t <= usize::MAX,
            0 <= t < pre.nodes@.len(),
            pre.nodes@[t].alive,
            pre.nodes@[t].kind == NodeKind::Memo,
            pre.nodes@[t].state == NodeState::Stale,
            !pre.nodes@[t].running,
            self.nodes@ == pre.nodes@.update(t, (Node { state: NodeState::Dirty, ..pre.nodes@[t] })),
            self == (Runtime { nodes: self.nodes, ..pre }),
        ensures
            self.wf_inner(),
    {
        assert(pre.node_wf(t));
        assert forall|i: int| self.slot_live(i) implies self.node_wf(i) by {
            assert(pre.node_wf(i));
        }
        assert forall|i: int| self.slot_live(i) implies self.settled_edges_at(i) by {
            assert(pre.settled_edges_at(i));
            let nd = self.nodes@[i];
            if nd.kind == NodeKind::Memo {
                assert forall|k: int|
                    0 <= k < nd.sources@.len() && self.entry_valid(
                        #[trigger] nd.sources@[k],
                    ) implies self.nodes@[nd.sources@[k].0 as int].observers@.contains(
                    (i as usize, nd.generation),
                ) by {
                    assert(nd.sources@ == pre.nodes@[i].sources@);
                    assert(nd.generation == pre.nodes@[i].generation);
                    assert(pre.entry_valid(nd.sources@[k]));
                    assert(pre.nodes@[nd.sources@[k].0 as int].observers@
                        == self.nodes@[nd.sources@[k].0 as int].observers@);
                }
            }
        }
        assert forall|i: int| self.slot_live(i) implies self.observer_backed_at(i) by {
            assert(pre.observer_backed_at(i));
            let nd = self.nodes@[i];
            assert forall|k: int|
                0 <= k < nd.observers@.len() && self.entry_valid(#[trigger] nd.observers@[k])
                    && self.nodes@[nd.observers@[k].0 as int].kind
                    == NodeKind::Memo implies self.nodes@[nd.observers@[k].0 as int].sources@.contains(
                (i as usize, nd.generation),
            ) by {
                assert(nd.observers@ == pre.nodes@[i].observers@);
                assert(nd.generation == pre.nodes@[i].generation);
                assert(pre.entry_valid(nd.observers@[k]));
                assert(pre.nodes@[nd.observers@[k].0 as int].sources@
                    == self.nodes@[nd.observers@[k].0 as int].sources@);
            }
        }
        assert forall|i: int| self.slot_live(i) implies self.records_current_at(i) by {
            assert(pre.records_current_at(i));
            let nd = self.nodes@[i];
            if nd.kind == NodeKind::Memo && (nd.state == NodeState::Clean || nd.running) {
                assert forall|k: int|
                    0 <= k < nd.sources@.len() && self.entry_valid(
                        #[trigger] nd.sources@[k],
                    ) implies nd.source_versions@[k]
                    == self.nodes@[nd.sources@[k].0 as int].version by {
                    assert(i != t);
                    assert(nd == pre.nodes@[i]);
                    assert(pre.entry_valid(nd.sources@[k]));
                }
            }
        }
        assert forall|i: int| self.slot_live(i) implies self.dirt_closed_at(i) by {
            assert(pre.dirt_closed_at(i));
            let nd = self.nodes@[i];
            if nd.kind == NodeKind::Memo && nd.state != NodeState::Clean {
                assert forall|k: int|
                    0 <= k < nd.observers@.len() && self.entry_valid(#[trigger] nd.observers@[k])
                        && self.nodes@[nd.observers@[k].0 as int].kind
                        == NodeKind::Memo implies self.marked(nd.observers@[k].0 as int) by {
                    assert(nd.observers@ == pre.nodes@[i].observers@);
                    assert(pre.nodes@[i].kind == NodeKind::Memo && pre.nodes@[i].state
                        != NodeState::Clean);
                    assert(pre.entry_valid(nd.observers@[k]));
                    assert(pre.marked(nd.observers@[k].0 as int));
                }
            }
        }
        assert forall|i: int| self.slot_live(i) implies self.owned_at(i) by {
            assert(pre.owned_at(i));
        }
        assert forall|sc: int|
            0 <= sc < self.scopes@.len() && self.scopes@[sc].alive implies self.scope_wf(sc) by {
            assert(pre.scope_wf(sc));
        }
        assert(self.free_wf()) by {
            assert forall|j: int|
                0 <= j < self.free_slots@.len() implies (#[trigger] self.free_slots@[j] as int)
                < self.nodes@.len() && !self.nodes@[self.free_slots@[j] as int].alive by {
                assert(pre.free_slots@[j] == self.free_slots@[j]);
                assert(self.free_slots@[j] as int != t);
            }
        }
        assert(self.scheduler_wf()) by {
            assert forall|j: int|
                self.cursor <= j < self.pending@.len() implies self.pending_entry_wf(j) by {
                assert(pre.pending_entry_wf(j));
            }
            assert forall|j1: int, j2: int|
                self.cursor <= j1 < self.pending@.len() && self.cursor <= j2 < self.pending@.len()
                    && j1 != j2 && self.entry_valid(self.pending@[j1]) && self.entry_valid(
                self.pending@[j2],
            ) implies self.pending@[j1].0 != self.pending@[j2].0 by {
                assert(pre.pending_entry_wf(j1));
                assert(pre.pending_entry_wf(j2));
                assert(pre.entry_valid(pre.pending@[j1]));
                assert(pre.entry_valid(pre.pending@[j2]));
            }
            assert forall|i: int|
                self.slot_live(i) && self.nodes@[i].queued implies exists|j: int|
                self.cursor <= j < self.pending@.len() && self.pending@[j] == (
                i as usize,
                self.nodes@[i].generation,
            ) by {
                assert(pre.slot_live(i) && pre.nodes@[i].queued);
            }
            assert forall|j: int|
                0 <= j < self.running_stack@.len() implies self.running_entry_wf(j) by {
                assert(pre.running_entry_wf(j));
            }
            assert forall|j1: int, j2: int|
                0 <= j1 < self.running_stack@.len() && 0 <= j2 < self.running_stack@.len() && j1
                    != j2 && self.entry_valid(self.running_stack@[j1]) && self.entry_valid(
                self.running_stack@[j2],
            ) implies self.running_stack@[j1].0 != self.running_stack@[j2].0 by {
                assert(pre.running_entry_wf(j1));
                assert(pre.running_entry_wf(j2));
                assert(pre.entry_valid(pre.running_stack@[j1]));
                assert(pre.entry_valid(pre.running_stack@[j2]));
            }
            assert(!self.batch_active ==> self.pending@.len() == self.cursor && (forall|i: int|
                self.slot_live(i) ==> !(#[trigger] self.nodes@[i].resolved)
                    && !self.nodes@[i].queued)) by {
                if !self.batch_active {
                    assert forall|i: int| self.slot_live(i) implies !(
                    #[trigger] self.nodes@[i].resolved) && !self.nodes@[i].queued by {
                        assert(pre.slot_live(i));
                    }
                }
            }
        }
        assert(self.log_wf()) by {
            assert forall|i: int|
                self.slot_live(i) && self.nodes@[i].resolved implies self.run_log@.contains(
                (self.batch_no@, i, self.nodes@[i].generation),
            ) by {
                assert(pre.slot_live(i) && pre.nodes@[i].resolved);
            }
        }
    }

    /// A stale memo re-validated its cache: every live source is a
    /// settled clean memo or a signal, and every recorded version is
    /// current, so the memo becomes clean without recomputation — the
    /// short-circuit that stops propagation of unchanged values.
    proof fn lemma_state_clean(self, pre: Runtime, t: int)
        requires
            pre.wf_inner(),
            0 <= t <= usize::MAX,
            0 <= t < pre.nodes@.len(),
            pre.nodes@[t].alive,
            pre.nodes@[t].kind == NodeKind::Memo,
            pre.nodes@[t].state == NodeState::Stale,
            !pre.nodes@[t].running,
            pre.nodes@[t].has_value,
            forall|k: int|
                0 <= k < pre.nodes@[t].sources@.len() && pre.entry_valid(
                    #[trigger] pre.nodes@[t].sources@[k],
                ) ==> (pre.nodes@[pre.nodes@[t].sources@[k].0 as int].kind == NodeKind::Memo
                    ==> pre.nodes@[pre.nodes@[t].sources@[k].0 as int].state == NodeState::Clean
                    && !pre.nodes@[pre.nodes@[t].sources@[k].0 as int].running)
                    && pre.nodes@[t].source_versions@[k]
                    == pre.nodes@[pre.nodes@[t].sources@[k].0 as int].version,
            self.nodes@ == pre.nodes@.update(t, (Node { state: NodeState::Clean, ..pre.nodes@[t] })),
            self == (Runtime { nodes: self.nodes, ..pre }),
        ensures
            self.wf_inner(),
    {
        assert(pre.node_wf(t));
        assert forall|i: int| self.slot_live(i) implies self.node_wf(i) by {
            assert(pre.node_wf(i));
        }
        assert forall|i: int| self.slot_live(i) implies self.settled_edges_at(i) by {
            assert(pre.settled_edges_at(i));
            let nd = self.nodes@[i];
            if nd.kind == NodeKind::Memo {
                assert forall|k: int|
                    0 <= k < nd.sources@.len() && self.entry_valid(
                        #[trigger] nd.sources@[k],
                    ) implies self.nodes@[nd.sources@[k].0 as int].observers@.contains(
                    (i as usize, nd.generation),
                ) by {
                    assert(nd.sources@ == pre.nodes@[i].sources@);
                    assert(nd.generation == pre.nodes@[i].generation);
                    assert(pre.entry_valid(nd.sources@[k]));
                    assert(pre.nodes@[nd.sources@[k].0 as int].observers@
                        == self.nodes@[nd.sources@[k].0 as int].observers@);
                }
            }
        }
        assert forall|i: int| self.slot_live(i) implies self.observer_backed_at(i) by {
            assert(pre.observer_backed_at(i));
            let nd = self.nodes@[i];
            assert forall|k: int|
                0 <= k < nd.observers@.len() && self.entry_valid(#[trigger] nd.observers@[k])
                    && self.nodes@[nd.observers@[k].0 as int].kind
                    == NodeKind::Memo implies self.nodes@[nd.observers@[k].0 as int].sources@.contains(
                (i as usize, nd.generation),
            ) by {
                assert(nd.observers@ == pre.nodes@[i].observers@);
                assert(nd.generation == pre.nodes@[i].generation);
                assert(pre.entry_valid(nd.observers@[k]));
                assert(pre.nodes@[nd.observers@[k].0 as int].sources@
                    == self.nodes@[nd.observers@[k].0 as int].sources@);
            }
        }
        assert forall|i: int| self.slot_live(i) implies self.records_current_at(i) by {
            assert(pre.records_current_at(i));
            let nd = self.nodes@[i];
            if nd.kind == NodeKind::Memo && (nd.state == NodeState::Clean || nd.running) {
                assert forall|k: int|
                    0 <= k < nd.sources@.len() && self.entry_valid(
                        #[trigger] nd.sources@[k],
                    ) implies nd.source_versions@[k]
                    == self.nodes@[nd.sources@[k].0 as int].version by {
                    if i == t {
                        assert(pre.entry_valid(nd.sources@[k]));
                        assert(pre.nodes@[t].source_versions@[k]
                            == pre.nodes@[pre.nodes@[t].sources@[k].0 as int].version);
                    } else {
                        assert(nd == pre.nodes@[i]);
                        assert(pre.entry_valid(nd.sources@[k]));
                    }
                }
            }
        }
        assert forall|i: int| self.slot_live(i) implies self.dirt_closed_at(i) by {
            assert(pre.dirt_closed_at(i));
            let nd = self.nodes@[i];
            if nd.kind == NodeKind::Memo && nd.state != NodeState::Clean {
                assert forall|k: int|
                    0 <= k < nd.observers@.len() && self.entry_valid(#[trigger] nd.observers@[k])
                        && self.nodes@[nd.observers@[k].0 as int].kind
                        == NodeKind::Memo implies self.marked(nd.observers@[k].0 as int) by {
                    assert(i != t);
                    assert(nd == pre.nodes@[i]);
                    assert(pre.entry_valid(nd.observers@[k]));
                    assert(pre.marked(nd.observers@[k].0 as int));
                    if nd.observers@[k].0 as int == t {
                        // a non-clean memo observed by t would have kept
                        // t non-clean: t's record of it is live and the
                        // validation found every live memo source clean
                        self.lemma_len_bound();
                        assert(pre.observer_backed_at(i));
                        assert(pre.nodes@[t].sources@.contains((i as usize, nd.generation)));
                        let w = choose|w: int|
                            0 <= w < pre.nodes@[t].sources@.len() && pre.nodes@[t].sources@[w] == (
                            i as usize,
                            nd.generation,
                            );
                        assert(pre.entry_valid(pre.nodes@[t].sources@[w]));
                        assert(pre.nodes@[i].state == NodeState::Clean);
                        assert(false);
                    }
                }
            }
        }
        assert forall|i: int| self.slot_live(i) implies self.owned_at(i) by {
            assert(pre.owned_at(i));
        }
        assert forall|sc: int|
            0 <= sc < self.scopes@.len() && self.scopes@[sc].alive implies self.scope_wf(sc) by {
            assert(pre.scope_wf(sc));
        }
        assert(self.free_wf()) by {
            assert forall|j: int|
                0 <= j < self.free_slots@.len() implies (#[trigger] self.free_slots@[j] as int)
                < self.nodes@.len() && !self.nodes@[self.free_slots@[j] as int].alive by {
                assert(pre.free_slots@[j] == self.free_slots@[j]);
                assert(self.free_slots@[j] as int != t);
            }
        }
        assert(self.scheduler_wf()) by {
            assert forall|j: int|
                self.cursor <= j < self.pending@.len() implies self.pending_entry_wf(j) by {
                assert(pre.pending_entry_wf(j));
            }
            assert forall|j1: int, j2: int|
                self.cursor <= j1 < self.pending@.len() && self.cursor <= j2 < self.pending@.len()
                    && j1 != j2 && self.entry_valid(self.pending@[j1]) && self.entry_valid(
                self.pending@[j2],
            ) implies self.pending@[j1].0 != self.pending@[j2].0 by {
                assert(pre.pending_entry_wf(j1));
                assert(pre.pending_entry_wf(j2));
                assert(pre.entry_valid(pre.pending@[j1]));
                assert(pre.entry_valid(pre.pending@[j2]));
            }
            assert forall|i: int|
                self.slot_live(i) && self.nodes@[i].queued implies exists|j: int|
                self.cursor <= j < self.pending@.len() && self.pending@[j] == (
                i as usize,
                self.nodes@[i].generation,
            ) by {
                assert(pre.slot_live(i) && pre.nodes@[i].queued);
            }
            assert forall|j: int|
                0 <= j < self.running_stack@.len() implies self.running_entry_wf(j) by {
                assert(pre.running_entry_wf(j));
            }
            assert forall|j1: int, j2: int|
                0 <= j1 < self.running_stack@.len() && 0 <= j2 < self.running_stack@.len() && j1
                    != j2 && self.entry_valid(self.running_stack@[j1]) && self.entry_valid(
                self.running_stack@[j2],
            ) implies self.running_stack@[j1].0 != self.running_stack@[j2].0 by {
                assert(pre.running_entry_wf(j1));
                assert(pre.running_entry_wf(j2));
                assert(pre.entry_valid(pre.running_stack@[j1]));
                assert(pre.entry_valid(pre.running_stack@[j2]));
            }
            assert(!self.batch_active ==> self.pending@.len() == self.cursor && (forall|i: int|
                self.slot_live(i) ==> !(#[trigger] self.nodes@[i].resolved)
                    && !self.nodes@[i].queued)) by {
                if !self.batch_active {
                    assert forall|i: int| self.slot_live(i) implies !(
                    #[trigger] self.nodes@[i].resolved) && !self.nodes@[i].queued by {
                        assert(pre.slot_live(i));
                    }
                }
            }
        }
        assert(self.log_wf()) by {
            assert forall|i: int|
                self.slot_live(i) && self.nodes@[i].resolved implies self.run_log@.contains(
                (self.batch_no@, i, self.nodes@[i].generation),
            ) by {
                assert(pre.slot_live(i) && pre.nodes@[i].resolved);
            }
        }
    }

    /// Records that the running computation `obs` read `src`: adds the
    /// mutual stamped edge (or refreshes the recorded version) on both
    /// sides.
    fn track_edge(&mut self, obs: usize, src: usize)
        requires
            old(self).wf_inner(),
            !old(self).is_poisoned(),
            (obs as int) < old(self).num_slots(),
            (src as int) < old(self).num_slots(),
            obs != src,
            old(self).slot_live(obs as int),
            old(self).slot_live(src as int),
            old(self).slot_running(obs as int),
            old(self).slot_kind(obs as int) != NodeKind::Signal,
            old(self).slot_kind(src as int) != NodeKind::Effect,
            old(self).slot_kind(src as int) == NodeKind::Memo ==> old(self).slot_state(
                src as int,
            ) == NodeState::Clean && !old(self).slot_running(src as int),
        ensures
            final(self).wf_inner(),
            !final(self).is_poisoned(),
            old(self).same_values(*final(self)),
            final(self).same_scopes(*old(self)),
            final(self).same_scheduler(*old(self)),
            forall|i: int|
                0 <= i < old(self).num_slots() && i != obs as int ==> final(self).slot_sources(i)
                    == old(self).slot_sources(i) && final(self).slot_source_versions(i) == old(
                    self,
                ).slot_source_versions(i),
            forall|i: int|
                0 <= i < old(self).num_slots() && i != src as int ==> final(self).slot_observers(i)
                    == old(self).slot_observers(i),
            forall|i: int| 0 <= i < old(self).num_slots() ==> final(self).slot_state(i) == old(
                self,
            ).slot_state(i),
            final(self).slot_sources(obs as int).contains(
                (src, old(self).slot_generation(src as int)),
            ),
    {
        let ghost pre = *old(self);
        proof {
            assert(pre.node_wf(obs as int));
            assert(pre.node_wf(src as int));
        }
        let src_gen = self.nodes[src].generation;
        let src_version = self.nodes[src].version;
        let obs_gen = self.nodes[obs].generation;
        // source side: record (or refresh) the read
        let mut k: usize = 0;
        let mut found: bool = false;
        let slen = self.nodes[obs].sources.len();
        while k < slen && !found
            invariant
                *self == pre,
                slen == pre.nodes@[obs as int].sources@.len(),
                (obs as int) < pre.nodes@.len(),
                k <= slen,
                !found ==> forall|j: int|
                    0 <= j < k ==> pre.nodes@[obs as int].sources@[j] != (src, src_gen),
                found ==> k < slen && pre.nodes@[obs as int].sources@[k as int] == (src, src_gen),
            decreases slen - k + (if found { 0int } else { 1int }),
        {
            let e = self.nodes[obs].sources[k];
            if e.0 == src && e.1 == src_gen {
                found = true;
            } else {
                k = k + 1;
            }
        }
        if found {
            self.nodes[obs].source_versions[k] = src_version;
        } else {
            self.nodes[obs].sources.push((src, src_gen));
            self.nodes[obs].source_versions.push(src_version);
        }
        let ghost mid = *self;
        // observer side: make sure the source lists the reader back
        let mut k2: usize = 0;
        let mut found2: bool = false;
        let olen = self.nodes[src].observers.len();
        while k2 < olen && !found2
            invariant
                *self == mid,
                olen == mid.nodes@[src as int].observers@.len(),
                (src as int) < mid.nodes@.len(),
                k2 <= olen,
                !found2 ==> forall|j: int|
                    0 <= j < k2 ==> mid.nodes@[src as int].observers@[j] != (obs, obs_gen),
                found2 ==> mid.nodes@[src as int].observers@.contains((obs, obs_gen)),
            decreases olen - k2 + (if found2 { 0int } else { 1int }),
        {
            let e = self.nodes[src].observers[k2];
            if e.0 == obs && e.1 == obs_gen {
                found2 = true;
                proof {
                    assert(mid.nodes@[src as int].observers@[k2 as int] == (obs, obs_gen));
                }
            } else {
                k2 = k2 + 1;
            }
        }
        if !found2 {
            self.nodes[src].observers.push((obs, obs_gen));
        }
        proof {
            if found {
                assert(mid.nodes@ =~= pre.nodes@.update(
                    obs as int,
                    (Node {
                        source_versions: mid.nodes@[obs as int].source_versions,
                        ..pre.nodes@[obs as int]
                    }),
                ));
            } else {
                assert(mid.nodes@ =~= pre.nodes@.update(
                    obs as int,
                    (Node {
                        sources: mid.nodes@[obs as int].sources,
                        source_versions: mid.nodes@[obs as int].source_versions,
                        ..pre.nodes@[obs as int]
                    }),
                ));
            }
            if !found2 {
                assert(self.nodes@ =~= mid.nodes@.update(
                    src as int,
                    (Node {
                        observers: self.nodes@[src as int].observers,
                        ..mid.nodes@[src as int]
                    }),
                ));
            }
            self.lemma_track_wf(pre, mid, obs as int, src as int, found, found2, k as int);
            assert(self.nodes@[obs as int].sources@.contains((src, src_gen))) by {
                if found {
                    assert(self.nodes@[obs as int].sources@[k as int] == (src, src_gen));
                } else {
                    assert(self.nodes@[obs as int].sources@.last() == (src, src_gen));
                }
            }
        }
    }

    /// The well-formedness argument for `track_edge`.
    #[verifier::rlimit(80)]
    proof fn lemma_track_wf(
        self,
        pre: Runtime,
        mid: Runtime,
        obs: int,
        src: int,
        found: bool,
        found2: bool,
        k: int,
    )
        requires
            pre.wf_inner(),
            !pre.poisoned,
            0 <= obs <= usize::MAX,
            0 <= src <= usize::MAX,
            obs != src,
            0 <= obs < pre.nodes@.len(),
            0 <= src < pre.nodes@.len(),
            pre.nodes@[obs].alive,
            pre.nodes@[src].alive,
            pre.nodes@[obs].running,
            pre.nodes@[obs].kind != NodeKind::Signal,
            pre.nodes@[src].kind != NodeKind::Effect,
            pre.nodes@[src].kind == NodeKind::Memo ==> pre.nodes@[src].state == NodeState::Clean
                && !pre.nodes@[src].running,
            found ==> 0 <= k < pre.nodes@[obs].sources@.len() && pre.nodes@[obs].sources@[k] == (
                src as usize,
                pre.nodes@[src].generation,
            ) && mid.nodes@ == pre.nodes@.update(
                obs,
                (Node {
                    source_versions: mid.nodes@[obs].source_versions,
                    ..pre.nodes@[obs]
                }),
            ) && mid.nodes@[obs].source_versions@
                == pre.nodes@[obs].source_versions@.update(k, pre.nodes@[src].version),
            !found ==> mid.nodes@ == pre.nodes@.update(
                obs,
                (Node {
                    sources: mid.nodes@[obs].sources,
                    source_versions: mid.nodes@[obs].source_versions,
                    ..pre.nodes@[obs]
                }),
            ) && mid.nodes@[obs].sources@ == pre.nodes@[obs].sources@.push(
                (src as usize, pre.nodes@[src].generation),
            ) && mid.nodes@[obs].source_versions@ == pre.nodes@[obs].source_versions@.push(
                pre.nodes@[src].version,
            ),
            mid == (Runtime { nodes: mid.nodes, ..pre }),
            found2 ==> self == mid && mid.nodes@[src].observers@.contains(
                (obs as usize, pre.nodes@[obs].generation),
            ),
            !found2 ==> self.nodes@ == mid.nodes@.update(
                src,
                (Node { observers: self.nodes@[src].observers, ..mid.nodes@[src] }),
            ) && self.nodes@[src].observers@ == mid.nodes@[src].observers@.push(
                (obs as usize, pre.nodes@[obs].generation),
            ) && self == (Runtime { nodes: self.nodes, ..mid }),
        ensures
            self.wf_inner(),
            !self.poisoned,
            pre.same_values(self),
            self.same_scopes(pre),
            self.same_scheduler(pre),
            forall|i: int|
                0 <= i < pre.nodes@.len() && i != obs ==> self.nodes@[i].sources@
                    == pre.nodes@[i].sources@ && self.nodes@[i].source_versions@
                    == pre.nodes@[i].source_versions@,
            forall|i: int|
                0 <= i < pre.nodes@.len() && i != src ==> self.nodes@[i].observers@
                    == pre.nodes@[i].observers@,
            forall|i: int| 0 <= i < pre.nodes@.len() ==> self.nodes@[i].state == pre.nodes@[i].state,
        decreases 0int,
    {
        pre.lemma_len_bound();
        assert(pre.node_wf(obs));
        assert(pre.node_wf(src));
        let n = self.nodes@.len() as int;
        assert(self.nodes@[src].observers@.contains((obs as usize, pre.nodes@[obs].generation)))
            by {
            if found2 {
            } else {
                assert(self.nodes@[src].observers@[self.nodes@[src].observers@.len() - 1] == (
                    obs as usize,
                    pre.nodes@[obs].generation,
                ));
            }
        }
        assert(self.nodes@[obs].sources@.contains((src as usize, pre.nodes@[src].generation)))
            by {
            if found {
                assert(self.nodes@[obs].sources@[k] == (src as usize, pre.nodes@[src].generation));
            } else {
                assert(self.nodes@[obs].sources@[self.nodes@[obs].sources@.len() - 1] == (
                    src as usize,
                    pre.nodes@[src].generation,
                ));
            }
        }
        assert forall|i: int| self.slot_live(i) implies self.node_wf(i) by {
            assert(pre.node_wf(i));
            let nd = self.nodes@[i];
            assert forall|t: int| 0 <= t < nd.sources@.len() implies (
            #[trigger] nd.sources@[t]).0 < self.nodes@.len() && nd.sources@[t].1
                <= self.nodes@[nd.sources@[t].0 as int].generation by {
                if i == obs && !found && t == nd.sources@.len() - 1 {
                    assert(nd.sources@[t] == (src as usize, pre.nodes@[src].generation));
                } else {
                    assert(nd.sources@[t] == pre.nodes@[i].sources@[t]);
                }
            }
            assert forall|t: int| 0 <= t < nd.observers@.len() implies (
            #[trigger] nd.observers@[t]).0 < self.nodes@.len() && nd.observers@[t].1
                <= self.nodes@[nd.observers@[t].0 as int].generation by {
                if i == src && !found2 && t == nd.observers@.len() - 1 {
                    assert(nd.observers@[t] == (obs as usize, pre.nodes@[obs].generation));
                } else {
                    assert(nd.observers@[t] == pre.nodes@[i].observers@[t]);
                }
            }
        }
        assert forall|i: int| self.slot_live(i) implies self.settled_edges_at(i) by {
            assert(pre.settled_edges_at(i));
            let nd = self.nodes@[i];
            if nd.kind == NodeKind::Memo {
                assert forall|t: int|
                    0 <= t < nd.sources@.len() && self.entry_valid(
                        #[trigger] nd.sources@[t],
                    ) implies self.nodes@[nd.sources@[t].0 as int].observers@.contains(
                    (i as usize, nd.generation),
                ) by {
                    let e = nd.sources@[t];
                    if i == obs && !found && t == nd.sources@.len() - 1 {
                        assert(e == (src as usize, pre.nodes@[src].generation));
                        assert(self.nodes@[src].observers@.contains(
                            (obs as usize, pre.nodes@[obs].generation),
                        ));
                    } else {
                        assert(e == pre.nodes@[i].sources@[t]);
                        assert(pre.entry_valid(e));
                        assert(pre.nodes@[e.0 as int].observers@.contains(
                            (i as usize, nd.generation),
                        ));
                        if e.0 as int == src && !found2 {
                            let w = choose|w: int|
                                0 <= w < pre.nodes@[src].observers@.len()
                                    && pre.nodes@[src].observers@[w] == (i as usize, nd.generation);
                            assert(self.nodes@[src].observers@[w] == (i as usize, nd.generation));
                        } else {
                            assert(self.nodes@[e.0 as int].observers@
                                == pre.nodes@[e.0 as int].observers@);
                        }
                    }
                }
            }
        }
        assert forall|i: int| self.slot_live(i) implies self.observer_backed_at(i) by {
            assert(pre.observer_backed_at(i));
            let nd = self.nodes@[i];
            assert forall|t: int|
                0 <= t < nd.observers@.len() && self.entry_valid(#[trigger] nd.observers@[t])
                    && self.nodes@[nd.observers@[t].0 as int].kind
                    == NodeKind::Memo implies self.nodes@[nd.observers@[t].0 as int].sources@.contains(
                (i as usize, nd.generation),
            ) by {
                let e = nd.observers@[t];
                if i == src && !found2 && t == nd.observers@.len() - 1 {
                    assert(e == (obs as usize, pre.nodes@[obs].generation));
                    assert(self.nodes@[obs].sources@.contains(
                        (src as usize, pre.nodes@[src].generation),
                    ));
                    assert(nd.generation == pre.nodes@[src].generation);
                } else {
                    assert(e == pre.nodes@[i].observers@[t]);
                    assert(pre.entry_valid(e));
                    assert(pre.nodes@[e.0 as int].sources@.contains((i as usize, nd.generation)));
                    if e.0 as int == obs && !found {
                        let w = choose|w: int|
                            0 <= w < pre.nodes@[obs].sources@.len() && pre.nodes@[obs].sources@[w]
                                == (i as usize, nd.generation);
                        assert(self.nodes@[obs].sources@[w] == (i as usize, nd.generation));
                    } else {
                        assert(self.nodes@[e.0 as int].sources@ == pre.nodes@[e.0 as int].sources@);
                    }
                }
            }
        }
        assert forall|i: int| self.slot_live(i) implies self.records_current_at(i) by {
            assert(pre.records_current_at(i));
            let nd = self.nodes@[i];
            if nd.kind == NodeKind::Memo && (nd.state == NodeState::Clean || nd.running) {
                assert forall|t: int|
                    0 <= t < nd.sources@.len() && self.entry_valid(
                        #[trigger] nd.sources@[t],
                    ) implies nd.source_versions@[t]
                    == self.nodes@[nd.sources@[t].0 as int].version by {
                    if i == obs {
                        if found && t == k {
                            assert(nd.source_versions@[t] == pre.nodes@[src].version);
                            assert(nd.sources@[t] == (src as usize, pre.nodes@[src].generation));
                        } else if !found && t == nd.sources@.len() - 1 {
                            assert(nd.sources@[t] == (src as usize, pre.nodes@[src].generation));
                            assert(nd.source_versions@[t] == pre.nodes@[src].version);
                        } else {
                            assert(nd.sources@[t] == pre.nodes@[obs].sources@[t]);
                            assert(nd.source_versions@[t] == pre.nodes@[obs].source_versions@[t]);
                            assert(pre.entry_valid(nd.sources@[t]));
                        }
                    } else {
                        assert(nd.sources@[t] == pre.nodes@[i].sources@[t]);
                        assert(nd.source_versions@[t] == pre.nodes@[i].source_versions@[t]);
                        assert(pre.entry_valid(nd.sources@[t]));
                    }
                }
            }
        }
        assert forall|i: int| self.slot_live(i) implies self.dirt_closed_at(i) by {
            assert(pre.dirt_closed_at(i));
            let nd = self.nodes@[i];
            if nd.kind == NodeKind::Memo && nd.state != NodeState::Clean {
                assert forall|t: int|
                    0 <= t < nd.observers@.len() && self.entry_valid(#[trigger] nd.observers@[t])
                        && self.nodes@[nd.observers@[t].0 as int].kind
                        == NodeKind::Memo implies self.marked(nd.observers@[t].0 as int) by {
                    assert(i != src);
                    assert(nd.observers@ == pre.nodes@[i].observers@);
                    assert(pre.entry_valid(nd.observers@[t]));
                    assert(pre.marked(nd.observers@[t].0 as int));
                }
            }
        }
        assert forall|i: int| self.slot_live(i) implies self.owned_at(i) by {
            assert(pre.owned_at(i));
        }
        assert forall|sc: int|
            0 <= sc < self.scopes@.len() && self.scopes@[sc].alive implies self.scope_wf(sc) by {
            assert(pre.scope_wf(sc));
        }
        assert(self.free_wf()) by {
            assert forall|j: int|
                0 <= j < self.free_slots@.len() implies (#[trigger] self.free_slots@[j] as int)
                < self.nodes@.len() && !self.nodes@[self.free_slots@[j] as int].alive by {
                assert(pre.free_slots@[j] == self.free_slots@[j]);
                assert(self.free_slots@[j] as int != obs && self.free_slots@[j] as int != src);
            }
        }
        assert(self.scheduler_wf()) by {
            assert forall|j: int|
                self.cursor <= j < self.pending@.len() implies self.pending_entry_wf(j) by {
                assert(pre.pending_entry_wf(j));
            }
            assert forall|j1: int, j2: int|
                self.cursor <= j1 < self.pending@.len() && self.cursor <= j2 < self.pending@.len()
                    && j1 != j2 && self.entry_valid(self.pending@[j1]) && self.entry_valid(
                self.pending@[j2],
            ) implies self.pending@[j1].0 != self.pending@[j2].0 by {
                assert(pre.pending_entry_wf(j1));
                assert(pre.pending_entry_wf(j2));
                assert(pre.entry_valid(pre.pending@[j1]));
                assert(pre.entry_valid(pre.pending@[j2]));
            }
            assert forall|i: int|
                self.slot_live(i) && self.nodes@[i].queued implies exists|j: int|
                self.cursor <= j < self.pending@.len() && self.pending@[j] == (
                i as usize,
                self.nodes@[i].generation,
            ) by {
                assert(pre.slot_live(i) && pre.nodes@[i].queued);
            }
            assert forall|j: int|
                0 <= j < self.running_stack@.len() implies self.running_entry_wf(j) by {
                assert(pre.running_entry_wf(j));
            }
            assert forall|j1: int, j2: int|
                0 <= j1 < self.running_stack@.len() && 0 <= j2 < self.running_stack@.len() && j1
                    != j2 && self.entry_valid(self.running_stack@[j1]) && self.entry_valid(
                self.running_stack@[j2],
            ) implies self.running_stack@[j1].0 != self.running_stack@[j2].0 by {
                assert(pre.running_entry_wf(j1));
                assert(pre.running_entry_wf(j2));
                assert(pre.entry_valid(pre.running_stack@[j1]));
                assert(pre.entry_valid(pre.running_stack@[j2]));
            }
            assert(!self.batch_active ==> self.pending@.len() == self.cursor && (forall|i: int|
                self.slot_live(i) ==> !(#[trigger] self.nodes@[i].resolved)
                    && !self.nodes@[i].queued)) by {
                if !self.batch_active {
                    assert forall|i: int| self.slot_live(i) implies !(
                    #[trigger] self.nodes@[i].resolved) && !self.nodes@[i].queued by {
                        assert(pre.slot_live(i));
                    }
                }
            }
        }
        assert(self.log_wf()) by {
            assert forall|i: int|
                self.slot_live(i) && self.nodes@[i].resolved implies self.run_log@.contains(
                (self.batch_no@, i, self.nodes@[i].generation),
            ) by {
                assert(pre.slot_live(i) && pre.nodes@[i].resolved);
            }
        }
    }


    /// `same_values` composes.
    proof fn lemma_same_values_trans(a: Runtime, b: Runtime, c: Runtime)
        requires
            a.same_values(b),
            b.same_values(c),
        ensures
            a.same_values(c),
    {
        assert forall|i: int|
            #![trigger c.slot_kind(i)]
            0 <= i < a.num_slots() implies {
            &&& c.slot_live(i) == a.slot_live(i)
            &&& c.slot_kind(i) == a.slot_kind(i)
            &&& c.slot_value(i) == a.slot_value(i)
            &&& c.slot_has_value(i) == a.slot_has_value(i)
            &&& c.slot_version(i) == a.slot_version(i)
            &&& c.slot_generation(i) == a.slot_generation(i)
            &&& c.slot_cleanups(i) == a.slot_cleanups(i)
            &&& c.slot_queued(i) == a.slot_queued(i)
            &&& c.slot_resolved(i) == a.slot_resolved(i)
            &&& c.slot_running(i) == a.slot_running(i)
        } by {
            assert(b.slot_kind(i) == a.slot_kind(i));
        }
    }

    /// Changing only dirtiness states (and fields outside the arena)
    /// keeps all values.
    proof fn lemma_states_same_values(a: Runtime, b: Runtime)
        requires
            a.nodes@.len() == b.nodes@.len(),
            forall|i: int|
                0 <= i < a.nodes@.len() ==> b.nodes@[i] == a.nodes@[i] || b.nodes@[i] == (Node {
                    state: b.nodes@[i].state,
                    ..a.nodes@[i]
                }),
        ensures
            a.same_values(b),
    {
        assert forall|i: int|
            #![trigger b.slot_kind(i)]
            0 <= i < a.num_slots() implies {
            &&& b.slot_live(i) == a.slot_live(i)
            &&& b.slot_kind(i) == a.slot_kind(i)
            &&& b.slot_value(i) == a.slot_value(i)
            &&& b.slot_has_value(i) == a.slot_has_value(i)
            &&& b.slot_version(i) == a.slot_version(i)
            &&& b.slot_generation(i) == a.slot_generation(i)
            &&& b.slot_cleanups(i) == a.slot_cleanups(i)
            &&& b.slot_queued(i) == a.slot_queued(i)
            &&& b.slot_resolved(i) == a.slot_resolved(i)
            &&& b.slot_running(i) == a.slot_running(i)
        } by {
            assert(b.nodes@[i] == a.nodes@[i] || b.nodes@[i] == (Node {
                state: b.nodes@[i].state,
                ..a.nodes@[i]
            }));
        }
    }

    /// A valid handle stays valid across value-preserving changes.
    proof fn lemma_valid_preserved(a: Runtime, b: Runtime, n: NodeId)
        requires
            a.same_values(b),
            a.valid(n),
        ensures
            b.valid(n),
            b.slot_kind(n.slot as int) == a.slot_kind(n.slot as int),
    {
        assert(b.slot_kind(n.slot as int) == a.slot_kind(n.slot as int));
        assert(b.slot_live(n.slot as int) == a.slot_live(n.slot as int));
        assert(b.slot_generation(n.slot as int) == a.slot_generation(n.slot as int));
    }

    /// Reads a signal or memo, tracking the read as a dependency edge
    /// of the computation currently running (if any).
    ///
    /// A signal read always answers `Ready` with the current value. A
    /// memo read first settles the memo: a stale cache is re-validated
    /// against the recorded source versions (recursively settling stale
    /// sources), and only if a source value actually changed — or the
    /// memo never computed — does the read answer `Compute`, asking the
    /// caller to run the memo's body (see [`Runtime::begin_compute`])
    /// and retry. A read never changes any value, version or cached
    /// flag, and never runs anything itself: `Ready` is answered
    /// exactly when the memo is settled, which with the runtime
    /// invariant means every transitive source has been seen at its
    /// current version — a reader can never observe a half-propagated
    /// update. Reading a node whose own computation is in progress (or
    /// reaching one through stale sources) is a cycle.
    pub fn get(&mut self, n: NodeId) -> (r: Result<ReadOutcome, RuntimeError>)
        requires
            old(self).wf(),
            old(self).valid(n) ==> !old(self).is_effect(n),
        ensures
            final(self).wf(),
            old(self).is_poisoned() ==> r == Err::<ReadOutcome, _>(RuntimeError::CyclicDependency)
                && *final(self) == *old(self),
            !old(self).is_poisoned() && !old(self).valid(n) ==> r == Err::<
                ReadOutcome,
                _,
            >(RuntimeError::UseAfterDispose) && *final(self) == *old(self),
            !old(self).is_poisoned() && old(self).valid(n) ==> {
                &&& old(self).same_values(*final(self))
                &&& final(self).same_scopes(*old(self))
                &&& final(self).valid(n)
                &&& (match r {
                    Ok(ReadOutcome::Ready(v)) => {
                        &&& v@ == old(self).value_of(n)
                        &&& old(self).slot_has_value(n.slot as int)
                        &&& !final(self).is_poisoned()
                        &&& (old(self).is_memo(n) ==> final(self).slot_state(n.slot as int)
                            == NodeState::Clean)
                    },
                    Ok(ReadOutcome::Compute(m)) => {
                        &&& old(self).is_memo(n)
                        &&& final(self).is_memo(m)
                        &&& final(self).slot_state(m.slot as int) == NodeState::Dirty
                        &&& !final(self).slot_running(m.slot as int)
                        &&& !final(self).is_poisoned()
                    },
                    Err(e) => e == RuntimeError::CyclicDependency && final(self).is_poisoned(),
                })
                &&& (old(self).is_signal(n) ==> Runtime::is_ready_with(r, old(self).value_of(n)))
                &&& (old(self).is_memo(n) && old(self).slot_state(n.slot as int)
                    == NodeState::Clean && !old(self).slot_running(n.slot as int)
                    ==> Runtime::is_ready_with(r, old(self).value_of(n)))
                &&& (old(self).is_memo(n) && old(self).slot_state(n.slot as int)
                    == NodeState::Dirty && !old(self).slot_running(n.slot as int) ==> r
                    == Ok::<_, RuntimeError>(ReadOutcome::Compute(n)))
                &&& ((r matches Ok(ReadOutcome::Ready(_))) && old(self).tracking() && old(
                    self,
                ).edge_live(old(self).run_stack().last()) && old(self).run_stack().last().0
                    != n.slot ==> final(self).slot_sources(
                    old(self).run_stack().last().0 as int,
                ).contains((n.slot, n.generation)))
            },
    {
        if self.poisoned {
            return Err(RuntimeError::CyclicDependency);
        }
        if n.slot >= self.nodes.len() || !self.nodes[n.slot].alive || self.nodes[n.slot].generation
            != n.generation {
            return Err(RuntimeError::UseAfterDispose);
        }
        let ghost pre = *old(self);
        if self.nodes[n.slot].running {
            // the computation being read is itself being computed
            self.poisoned = true;
            proof {
                assert(pre.node_wf(n.slot as int));
                Runtime::lemma_states_same_values(pre, *self);
                Runtime::lemma_valid_preserved(pre, *self, n);
                assert(self.same_scopes(pre));
            }
            return Err(RuntimeError::CyclicDependency);
        }
        let is_memo_node = match self.nodes[n.slot].kind {
            NodeKind::Memo => true,
            _ => false,
        };
        let needs_settle = match self.nodes[n.slot].state {
            NodeState::Clean => false,
            _ => true,
        };
        if is_memo_node && needs_settle {
            // settle: validate stale caches depth-first along recorded
            // source edges; the budget covers one validation per node
            let mut fuel: usize = 1;
            let mut fi: usize = 0;
            while fi < self.nodes.len()
                invariant
                    *self == pre,
                    fi <= self.nodes@.len(),
                    fuel >= 1,
                decreases self.nodes@.len() - fi,
            {
                let add = self.nodes[fi].sources.len();
                fuel = if fuel <= usize::MAX - add {
                    fuel + add
                } else {
                    usize::MAX
                };
                fuel = if fuel < usize::MAX {
                    fuel + 1
                } else {
                    usize::MAX
                };
                fi = fi + 1;
            }
            let mut stack: Vec<usize> = Vec::new();
            stack.push(n.slot);
            while stack.len() > 0
                invariant
                    pre == *old(self),
                    pre.wf_inner(),
                    !pre.poisoned,
                    pre.valid(n),
                    pre.nodes@[n.slot as int].kind == NodeKind::Memo,
                    pre.nodes@[n.slot as int].state != NodeState::Clean,
                    self.wf_inner(),
                    !self.poisoned,
                    pre.same_values(*self),
                    self.same_scopes(pre),
                    self.same_scheduler(pre),
                    forall|i: int|
                        0 <= i < pre.nodes@.len() ==> self.nodes@[i].sources@
                            == pre.nodes@[i].sources@ && self.nodes@[i].source_versions@
                            == pre.nodes@[i].source_versions@ && self.nodes@[i].observers@
                            == pre.nodes@[i].observers@,
                    forall|t: int|
                        0 <= t < stack@.len() ==> ((#[trigger] stack@[t]) as int)
                            < self.nodes@.len() && self.nodes@[stack@[t] as int].alive
                            && self.nodes@[stack@[t] as int].kind == NodeKind::Memo
                            && !self.nodes@[stack@[t] as int].running,
                    stack@.len() > 0 ==> stack@[0] == n.slot,
                    stack@.len() == 0 ==> self.nodes@[n.slot as int].state == NodeState::Clean,
                    pre.slot_state(n.slot as int) == NodeState::Dirty && !pre.slot_running(
                        n.slot as int,
                    ) ==> fuel >= 1 && stack@.len() > 0 && stack@[stack@.len() - 1] == n.slot
                        && self.nodes@[n.slot as int].state == NodeState::Dirty,
                decreases fuel,
            {
                if fuel == 0 {
                    let ghost at_head = *self;
                    self.poisoned = true;
                    proof {
                        Runtime::lemma_states_same_values(at_head, *self);
                        Runtime::lemma_same_values_trans(pre, at_head, *self);
                        Runtime::lemma_valid_preserved(pre, *self, n);
                        assert(self.same_scopes(pre));
                    }
                    return Err(RuntimeError::CyclicDependency);
                }
                fuel = fuel - 1;
                let t = stack[stack.len() - 1];
                let st = self.nodes[t].state;
                match st {
                    NodeState::Clean => {
                        let popped = stack.pop();
                        if stack.len() == 0 {
                            proof {
                                assert(stack@ =~= Seq::<usize>::empty());
                            }
                        }
                    },
                    NodeState::Dirty => {
                        let gen = self.nodes[t].generation;
                        proof {
                            Runtime::lemma_valid_preserved(pre, *self, n);
                            assert(self.valid(NodeId { slot: t, generation: gen }));
                            assert(self.same_scopes(pre));
                            if pre.slot_state(n.slot as int) == NodeState::Dirty
                                && !pre.slot_running(n.slot as int) {
                                assert(t == n.slot);
                                assert(gen == n.generation);
                            }
                        }
                        return Ok(ReadOutcome::Compute(NodeId { slot: t, generation: gen }));
                    },
                    NodeState::Stale => {
                        let ghost loop_pre = *self;
                        let mut k: usize = 0;
                        let slen = self.nodes[t].sources.len();
                        let mut decide: usize = 0;  // 0: validate on; 1: push; 2: dirty
                        let mut child: usize = 0;
                        while k < slen && decide == 0
                            invariant
                                *self == loop_pre,
                                pre == *old(self),
                                pre.wf_inner(),
                                !pre.poisoned,
                                pre.valid(n),
                                pre.nodes@[n.slot as int].kind == NodeKind::Memo,
                                pre.nodes@[n.slot as int].state != NodeState::Clean,
                                pre.same_values(loop_pre),
                                loop_pre.same_scopes(pre),
                                loop_pre.wf_inner(),
                                !loop_pre.poisoned,
                                (t as int) < loop_pre.nodes@.len(),
                                loop_pre.nodes@[t as int].alive,
                                loop_pre.nodes@[t as int].kind == NodeKind::Memo,
                                loop_pre.nodes@[t as int].state == NodeState::Stale,
                                !(pre.slot_state(n.slot as int) == NodeState::Dirty
                                    && !pre.slot_running(n.slot as int)),
                                slen == loop_pre.nodes@[t as int].sources@.len(),
                                k <= slen,
                                decide == 0 ==> forall|j: int|
                                    0 <= j < k ==> loop_pre.entry_valid(
                                        #[trigger] loop_pre.nodes@[t as int].sources@[j],
                                    ) ==> (loop_pre.nodes@[loop_pre.nodes@[t as int].sources@[j].0 as int].kind
                                        == NodeKind::Memo
                                        ==> loop_pre.nodes@[loop_pre.nodes@[t as int].sources@[j].0 as int].state
                                        == NodeState::Clean
                                        && !loop_pre.nodes@[loop_pre.nodes@[t as int].sources@[j].0 as int].running)
                                        && loop_pre.nodes@[t as int].source_versions@[j]
                                        == loop_pre.nodes@[loop_pre.nodes@[t as int].sources@[j].0 as int].version,
                                decide <= 2,
                                decide == 1 ==> (child as int) < loop_pre.nodes@.len()
                                    && loop_pre.nodes@[child as int].alive
                                    && loop_pre.nodes@[child as int].kind == NodeKind::Memo
                                    && !loop_pre.nodes@[child as int].running,
                            decreases slen - k, (if decide == 0 { 1int } else { 0int }),
                        {
                            proof {
                                assert(loop_pre.node_wf(t as int));
                            }
                            let e = self.nodes[t].sources[k];
                            if !self.nodes[e.0].alive || self.nodes[e.0].generation != e.1 {
                                // a recorded source was disposed: treat
                                // the dependency as changed
                                decide = 2;
                            } else {
                                let src_is_memo = match self.nodes[e.0].kind {
                                    NodeKind::Memo => true,
                                    _ => false,
                                };
                                if src_is_memo && self.nodes[e.0].running {
                                    self.poisoned = true;
                                    proof {
                                        Runtime::lemma_states_same_values(loop_pre, *self);
                                        Runtime::lemma_same_values_trans(pre, loop_pre, *self);
                                        Runtime::lemma_valid_preserved(pre, *self, n);
                                        assert(self.same_scopes(pre));
                                    }
                                    return Err(RuntimeError::CyclicDependency);
                                }
                                let src_clean = match self.nodes[e.0].state {
                                    NodeState::Clean => true,
                                    _ => false,
                                };
                                if src_is_memo && !src_clean {
                                    child = e.0;
                                    decide = 1;
                                } else if self.nodes[t].source_versions[k] != self.nodes[e.0].version {
                                    decide = 2;
                                } else {
                                    k = k + 1;
                                }
                            }
                        }
                        if decide == 1 {
                            stack.push(child);
                        } else if decide == 2 {
                            let ghost before = *self;
                            self.nodes[t].state = NodeState::Dirty;
                            proof {
                                assert(self.nodes@ =~= before.nodes@.update(
                                    t as int,
                                    (Node { state: NodeState::Dirty, ..before.nodes@[t as int] }),
                                ));
                                self.lemma_state_dirty(before, t as int);
                                Runtime::lemma_states_same_values(before, *self);
                                Runtime::lemma_same_values_trans(pre, before, *self);
                            }
                            let gen = self.nodes[t].generation;
                            proof {
                                Runtime::lemma_states_same_values(loop_pre, *self);
                                Runtime::lemma_same_values_trans(pre, loop_pre, *self);
                                Runtime::lemma_valid_preserved(pre, *self, n);
                                assert(self.valid(NodeId { slot: t, generation: gen }));
                                assert(self.same_scopes(pre));
                            }
                            return Ok(ReadOutcome::Compute(NodeId { slot: t, generation: gen }));
                        } else {
                            // every live source is settled at its
                            // recorded version: the cache is current
                            let ghost before = *self;
                            self.nodes[t].state = NodeState::Clean;
                            proof {
                                assert(self.nodes@ =~= before.nodes@.update(
                                    t as int,
                                    (Node { state: NodeState::Clean, ..before.nodes@[t as int] }),
                                ));
                                assert(before.nodes@[t as int].has_value) by {
                                    assert(before.node_wf(t as int));
                                }
                                self.lemma_state_clean(before, t as int);
                                Runtime::lemma_states_same_values(before, *self);
                                Runtime::lemma_same_values_trans(pre, before, *self);
                            }
                            let popped = stack.pop();
                            if stack.len() == 0 {
                                proof {
                                    assert(stack@ =~= Seq::<usize>::empty());
                                }
                            }
                        }
                    },
                }
            }
        }
        // deliver the settled value, tracking the read
        let ghost settled = *self;
        proof {
            assert(pre.same_values(settled)) by {
                if pre == settled {
                    Runtime::lemma_states_same_values(pre, settled);
                }
            }
            Runtime::lemma_valid_preserved(pre, settled, n);
            if pre.tracking() && pre.edge_live(pre.run_stack().last()) {
                let ts = pre.run_stack().last().0 as int;
                assert(self.slot_kind(ts) == pre.slot_kind(ts));
                assert(self.slot_live(ts) && self.slot_generation(ts) == pre.slot_generation(ts));
            }
        }
        let v = self.nodes[n.slot].value.duplicate();
        if self.running_stack.len() > 0 {
            let top = self.running_stack[self.running_stack.len() - 1];
            if top.0 < self.nodes.len() && self.nodes[top.0].alive && self.nodes[top.0].generation
                == top.1 && top.0 != n.slot {
                proof {
                    assert(self.running_entry_wf(self.running_stack@.len() - 1));
                }
                self.track_edge(top.0, n.slot);
                proof {
                    assert(self.slot_sources(top.0 as int).contains((n.slot, n.generation))) by {
                        assert(settled.slot_generation(n.slot as int) == n.generation);
                    }
                    assert(top == pre.run_stack().last());
                    assert(pre.same_values(*self)) by {
                        assert forall|i: int|
                            #![trigger self.slot_kind(i)]
                            0 <= i < pre.num_slots() implies {
                            &&& self.slot_live(i) == pre.slot_live(i)
                            &&& self.slot_kind(i) == pre.slot_kind(i)
                            &&& self.slot_value(i) == pre.slot_value(i)
                            &&& self.slot_has_value(i) == pre.slot_has_value(i)
                            &&& self.slot_version(i) == pre.slot_version(i)
                            &&& self.slot_generation(i) == pre.slot_generation(i)
                            &&& self.slot_cleanups(i) == pre.slot_cleanups(i)
                            &&& self.slot_queued(i) == pre.slot_queued(i)
                            &&& self.slot_resolved(i) == pre.slot_resolved(i)
                            &&& self.slot_running(i) == pre.slot_running(i)
                        } by {
                            assert(settled.slot_kind(i) == pre.slot_kind(i));
                        }
                    }
                }
            }
        }
        proof {
            Runtime::lemma_valid_preserved(pre, *self, n);
            assert(self.same_scopes(pre));
            assert(pre.nodes@[n.slot as int].kind == NodeKind::Memo ==> self.slot_state(
                n.slot as int,
            ) == NodeState::Clean);
            assert(self.nodes@[n.slot as int].has_value) by {
                assert(self.wf_inner());
                assert(self.node_wf(n.slot as int));
            }
            if pre.tracking() && pre.edge_live(pre.run_stack().last()) && pre.run_stack().last().0
                != n.slot {
                assert(self.running_stack@ == pre.running_stack@);
                assert(self.slot_sources(pre.run_stack().last().0 as int).contains(
                    (n.slot, n.generation),
                ));
            }
        }
        Ok(ReadOutcome::Ready(v))
    }

    /// Reads a signal without registering a dependency edge: the read
    /// half of a read-modify-write (`update`-style) step, which must
    /// not make the writer depend on its own signal.
    pub fn get_untracked(&self, n: NodeId) -> (r: Result<Value, RuntimeError>)
        requires
            self.wf(),
            self.valid(n) ==> self.is_signal(n),
        ensures
            self.is_poisoned() ==> r == Err::<Value, _>(RuntimeError::CyclicDependency),
            !self.is_poisoned() && !self.valid(n) ==> r == Err::<Value, _>(
                RuntimeError::UseAfterDispose,
            ),
            !self.is_poisoned() && self.valid(n) ==> (match r {
                Ok(v) => v@ == self.value_of(n),
                Err(_) => false,
            }),
    {
        if self.poisoned {
            return Err(RuntimeError::CyclicDependency);
        }
        if n.slot >= self.nodes.len() || !self.nodes[n.slot].alive || self.nodes[n.slot].generation
            != n.generation {
            return Err(RuntimeError::UseAfterDispose);
        }
        Ok(self.nodes[n.slot].value.duplicate())
    }

    // ----- running computations ----------------------------------------

    /// Removes every occurrence of one stamped edge from a node's
    /// observer list, keeping everything else.
    fn remove_observer_edge(&mut self, target: usize, x: (usize, u64))
        requires
            (target as int) < old(self).num_slots(),
        ensures
            final(self).nodes@ == old(self).nodes@.update(
                target as int,
                (Node {
                    observers: final(self).nodes@[target as int].observers,
                    ..old(self).nodes@[target as int]
                }),
            ),
            *final(self) == (Runtime { nodes: final(self).nodes, ..*old(self) }),
            forall|e: (usize, u64)| #[trigger]
                final(self).nodes@[target as int].observers@.contains(e) ==> old(
                    self,
                ).nodes@[target as int].observers@.contains(e) && e != x,
            forall|e: (usize, u64)|
                #[trigger] old(self).nodes@[target as int].observers@.contains(e) && e != x
                    ==> final(self).nodes@[target as int].observers@.contains(e),
    {
        let ghost pre = *old(self);
        let mut kept: Vec<(usize, u64)> = Vec::new();
        let mut j: usize = 0;
        let olen = self.nodes[target].observers.len();
        while j < olen
            invariant
                *self == pre,
                (target as int) < pre.nodes@.len(),
                olen == pre.nodes@[target as int].observers@.len(),
                j <= olen,
                forall|e: (usize, u64)| #[trigger]
                    kept@.contains(e) ==> pre.nodes@[target as int].observers@.subrange(
                        0,
                        j as int,
                    ).contains(e) && e != x,
                forall|e: (usize, u64)|
                    #[trigger] pre.nodes@[target as int].observers@.subrange(0, j as int).contains(
                        e,
                    ) && e != x ==> kept@.contains(e),
            decreases olen - j,
        {
            let ghost pre_kept = kept@;
            let ghost pre_sub = pre.nodes@[target as int].observers@.subrange(0, j as int);
            let ghost post_sub = pre.nodes@[target as int].observers@.subrange(0, j + 1);
            let e = self.nodes[target].observers[j];
            if !(e.0 == x.0 && e.1 == x.1) {
                kept.push(e);
            }
            proof {
                assert(post_sub == pre_sub.push(e));
                assert forall|y: (usize, u64)| #[trigger]
                    kept@.contains(y) implies post_sub.contains(y) && y != x by {
                    let w = choose|w: int| 0 <= w < kept@.len() && kept@[w] == y;
                    if w < pre_kept.len() {
                        assert(pre_kept[w] == y);
                        assert(pre_kept.contains(y));
                        let u = choose|u: int| 0 <= u < pre_sub.len() && pre_sub[u] == y;
                        assert(post_sub[u] == y);
                    } else {
                        assert(y == e);
                        assert(post_sub[post_sub.len() - 1] == e);
                    }
                }
                assert forall|y: (usize, u64)|
                    #[trigger] post_sub.contains(y) && y != x implies kept@.contains(y) by {
                    let w = choose|w: int| 0 <= w < post_sub.len() && post_sub[w] == y;
                    if w < pre_sub.len() {
                        assert(pre_sub[w] == y);
                        assert(pre_sub.contains(y));
                        assert(pre_kept.contains(y));
                        let u = choose|u: int| 0 <= u < pre_kept.len() && pre_kept[u] == y;
                        assert(kept@[u] == y);
                    } else {
                        assert(y == e && e != x);
                        assert(kept@[kept@.len() - 1] == e);
                    }
                }
            }
            j = j + 1;
        }
        proof {
            assert(pre.nodes@[target as int].observers@.subrange(
                0,
                pre.nodes@[target as int].observers@.len() as int,
            ) == pre.nodes@[target as int].observers@);
        }
        self.nodes[target].observers = kept;
        proof {
            assert(self.nodes@ =~= pre.nodes@.update(
                target as int,
                (Node {
                    observers: self.nodes@[target as int].observers,
                    ..pre.nodes@[target as int]
                }),
            ));
        }
    }

    /// `observer_backed_at` with every edge naming `m` exempted: the
    /// state in the middle of clearing `m`'s previous dependencies.
    pub(crate) open spec fn backed_except_at(self, i: int, m: int) -> bool {
        let nd = self.nodes@[i];
        forall|k: int|
            0 <= k < nd.observers@.len() && self.entry_valid(#[trigger] nd.observers@[k])
                && self.nodes@[nd.observers@[k].0 as int].kind == NodeKind::Memo
                && nd.observers@[k].0 as int != m ==> self.nodes@[nd.observers@[k].0 as int].sources@.contains(
                (i as usize, nd.generation),
            )
    }

    /// Drops every dependency edge of a computation, on both sides:
    /// "before executing, all of the node's prior source edges are
    /// removed", so that a re-run rebuilds its dependency set from what
    /// it actually reads.
    fn clear_sources(&mut self, m: usize)
        requires
            old(self).wf_inner(),
            !old(self).is_poisoned(),
            (m as int) < old(self).num_slots(),
            old(self).slot_live(m as int),
            old(self).slot_kind(m as int) != NodeKind::Signal,
            old(self).slot_kind(m as int) == NodeKind::Memo ==> old(self).slot_state(m as int)
                == NodeState::Dirty && !old(self).slot_running(m as int),
        ensures
            final(self).wf_inner(),
            !final(self).is_poisoned(),
            old(self).same_values(*final(self)),
            final(self).same_scopes(*old(self)),
            final(self).same_scheduler(*old(self)),
            final(self).slot_sources(m as int) == Seq::<(usize, u64)>::empty(),
            final(self).slot_source_versions(m as int) == Seq::<u64>::empty(),
            forall|i: int| 0 <= i < old(self).num_slots() ==> final(self).slot_state(i) == old(
                self,
            ).slot_state(i),
            forall|i: int|
                0 <= i < old(self).num_slots() && i != m as int ==> final(self).slot_sources(i)
                    == old(self).slot_sources(i) && final(self).slot_source_versions(i) == old(
                    self,
                ).slot_source_versions(i),
    {
        let ghost pre = *old(self);
        proof {
            assert(pre.node_wf(m as int));
        }
        // take the old source list out, leaving the node without edges
        let mut srcs: Vec<(usize, u64)> = Vec::new();
        let mut si: usize = 0;
        let slen = self.nodes[m].sources.len();
        while si < slen
            invariant
                *self == pre,
                pre.wf_inner(),
                slen == pre.nodes@[m as int].sources@.len(),
                (m as int) < pre.nodes@.len(),
                si <= slen,
                srcs@ == pre.nodes@[m as int].sources@.subrange(0, si as int),
            decreases slen - si,
        {
            proof {
                assert(pre.nodes@[m as int].sources@.subrange(0, si + 1)
                    == pre.nodes@[m as int].sources@.subrange(0, si as int).push(
                    pre.nodes@[m as int].sources@[si as int],
                ));
            }
            let e = self.nodes[m].sources[si];
            srcs.push(e);
            si = si + 1;
        }
        proof {
            assert(srcs@ == pre.nodes@[m as int].sources@) by {
                assert(pre.nodes@[m as int].sources@.subrange(0, slen as int)
                    == pre.nodes@[m as int].sources@);
            }
        }
        self.nodes[m].sources = Vec::new();
        self.nodes[m].source_versions = Vec::new();
        let m_gen = self.nodes[m].generation;
        proof {
            assert(self.nodes@ =~= pre.nodes@.update(
                m as int,
                (Node {
                    sources: self.nodes@[m as int].sources,
                    source_versions: self.nodes@[m as int].source_versions,
                    ..pre.nodes@[m as int]
                }),
            ));
            self.lemma_clear_start(pre, m as int);
        }
        let ghost emptied = *self;
        // unhook the reverse half of each old edge
        let mut k: usize = 0;
        while k < srcs.len()
            invariant
                srcs@ == pre.nodes@[m as int].sources@,
                pre.wf_inner(),
                !pre.poisoned,
                (m as int) < pre.nodes@.len(),
                pre.nodes@[m as int].alive,
                pre.nodes@[m as int].kind != NodeKind::Signal,
                m_gen == pre.nodes@[m as int].generation,
                k <= srcs@.len(),
                forall|j: int| 0 <= j < srcs@.len() ==> (#[trigger] srcs@[j]).0
                    < pre.nodes@.len(),
                self.clearing_inv(pre, m as int),
                pre.nodes@[m as int].kind == NodeKind::Memo ==> pre.nodes@[m as int].state
                    == NodeState::Dirty && !pre.nodes@[m as int].running,
                forall|j: int|
                    0 <= j < k ==> !self.nodes@[(#[trigger] srcs@[j]).0 as int].observers@.contains(
                        (m, m_gen),
                    ),
                forall|i: int|
                    0 <= i < pre.nodes@.len() && !seq_slots_contain(srcs@, i)
                        ==> self.nodes@[i].observers@ == pre.nodes@[i].observers@,
            decreases srcs@.len() - k,
        {
            let ghost step_pre = *self;
            let target = srcs[k].0;
            self.remove_observer_edge(target, (m, m_gen));
            let ghost removed = self.nodes@[target as int].observers@;
            proof {
                self.lemma_clear_step(step_pre, pre, m as int, target as int, removed);
                assert forall|j: int|
                    0 <= j < k + 1 implies !self.nodes@[(#[trigger] srcs@[j]).0 as int].observers@.contains(
                    (m, m_gen),
                ) by {
                    if srcs@[j].0 as int == target as int {
                    } else {
                        assert(!step_pre.nodes@[srcs@[j].0 as int].observers@.contains((m, m_gen))
                            || j >= k);
                        if j < k {
                            assert(self.nodes@[srcs@[j].0 as int].observers@
                                == step_pre.nodes@[srcs@[j].0 as int].observers@);
                        }
                    }
                }
                assert forall|i: int|
                    0 <= i < pre.nodes@.len() && !seq_slots_contain(srcs@, i)
                        implies self.nodes@[i].observers@ == pre.nodes@[i].observers@ by {
                    assert(srcs@[k as int].0 as int == target as int);
                    assert(seq_slots_contain(srcs@, target as int));
                    assert(i != target as int);
                    assert(self.nodes@[i].observers@ == step_pre.nodes@[i].observers@);
                }
            }
            k = k + 1;
        }
        proof {
            self.lemma_clear_finish(pre, m as int, srcs@);
        }
    }

    /// The invariant carried while old edges are being unhooked: full
    /// well-formedness except that observer entries naming `m` need not
    /// be backed, plus the frame of the operation.
    pub(crate) open spec fn clearing_inv(self, pre: Runtime, m: int) -> bool {
        &&& self.nodes@.len() == pre.nodes@.len()
        &&& !self.poisoned
        &&& (forall|i: int|
            #![trigger self.nodes@[i]]
            0 <= i < pre.nodes@.len() ==> {
                &&& self.nodes@[i].alive == pre.nodes@[i].alive
                &&& self.nodes@[i].kind == pre.nodes@[i].kind
                &&& self.nodes@[i].generation == pre.nodes@[i].generation
                &&& self.nodes@[i].scope == pre.nodes@[i].scope
                &&& self.nodes@[i].value == pre.nodes@[i].value
                &&& self.nodes@[i].has_value == pre.nodes@[i].has_value
                &&& self.nodes@[i].version == pre.nodes@[i].version
                &&& self.nodes@[i].always_notify == pre.nodes@[i].always_notify
                &&& self.nodes@[i].running == pre.nodes@[i].running
                &&& self.nodes@[i].queued == pre.nodes@[i].queued
                &&& self.nodes@[i].resolved == pre.nodes@[i].resolved
                &&& self.nodes@[i].state == pre.nodes@[i].state
                &&& self.nodes@[i].cleanups@ == pre.nodes@[i].cleanups@
                &&& (i != m ==> self.nodes@[i].sources@ == pre.nodes@[i].sources@
                    && self.nodes@[i].source_versions@ == pre.nodes@[i].source_versions@)
                &&& (forall|e: (usize, u64)| #[trigger]
                    self.nodes@[i].observers@.contains(e) ==> pre.nodes@[i].observers@.contains(e))
                &&& (forall|e: (usize, u64)| #[trigger]
                    pre.nodes@[i].observers@.contains(e) && e.0 as int != m
                        ==> self.nodes@[i].observers@.contains(e))
            })
        &&& self.nodes@[m].sources@ == Seq::<(usize, u64)>::empty()
        &&& self.nodes@[m].source_versions@ == Seq::<u64>::empty()
        &&& self.free_slots@ == pre.free_slots@
        &&& self.scopes@ == pre.scopes@
        &&& self.running_stack@ == pre.running_stack@
        &&& self.pending@ == pre.pending@
        &&& self.cursor == pre.cursor
        &&& self.batch_active == pre.batch_active
        &&& self.batch_no@ == pre.batch_no@
        &&& self.run_log@ == pre.run_log@
        &&& self.singletons@ == pre.singletons@
    }

    /// Emptying the source list of a dirty (or effect) node enters the
    /// clearing state.
    proof fn lemma_clear_start(self, pre: Runtime, m: int)
        requires
            pre.wf_inner(),
            !pre.poisoned,
            0 <= m <= usize::MAX,
            0 <= m < pre.nodes@.len(),
            pre.nodes@[m].alive,
            pre.nodes@[m].kind != NodeKind::Signal,
            pre.nodes@[m].kind == NodeKind::Memo ==> pre.nodes@[m].state == NodeState::Dirty
                && !pre.nodes@[m].running,
            self.nodes@ == pre.nodes@.update(
                m,
                (Node {
                    sources: self.nodes@[m].sources,
                    source_versions: self.nodes@[m].source_versions,
                    ..pre.nodes@[m]
                }),
            ),
            self.nodes@[m].sources@ == Seq::<(usize, u64)>::empty(),
            self.nodes@[m].source_versions@ == Seq::<u64>::empty(),
            self == (Runtime { nodes: self.nodes, ..pre }),
        ensures
            self.clearing_inv(pre, m),
    {
        assert forall|i: int| #![trigger self.nodes@[i]] 0 <= i < pre.nodes@.len() implies {
            &&& (forall|e: (usize, u64)| #[trigger]
                self.nodes@[i].observers@.contains(e) ==> pre.nodes@[i].observers@.contains(e))
            &&& (forall|e: (usize, u64)| #[trigger]
                pre.nodes@[i].observers@.contains(e) && e.0 as int != m
                    ==> self.nodes@[i].observers@.contains(e))
        } by {
            assert(self.nodes@[i].observers@ == pre.nodes@[i].observers@);
        }
    }

    /// One unhook step keeps the clearing state.
    proof fn lemma_clear_step(
        self,
        step_pre: Runtime,
        pre: Runtime,
        m: int,
        target: int,
        removed: Seq<(usize, u64)>,
    )
        requires
            step_pre.clearing_inv(pre, m),
            pre.wf_inner(),
            !pre.poisoned,
            0 <= m <= usize::MAX,
            0 <= m < pre.nodes@.len(),
            pre.nodes@[m].alive,
            pre.nodes@[m].kind != NodeKind::Signal,
            pre.nodes@[m].kind == NodeKind::Memo ==> pre.nodes@[m].state == NodeState::Dirty
                && !pre.nodes@[m].running,
            0 <= target <= usize::MAX,
            0 <= target < pre.nodes@.len(),
            forall|e: (usize, u64)| #[trigger]
                removed.contains(e) ==> step_pre.nodes@[target].observers@.contains(e) && e != (
                    m as usize,
                    pre.nodes@[m].generation,
                ),
            forall|e: (usize, u64)| #[trigger]
                step_pre.nodes@[target].observers@.contains(e) && e != (
                    m as usize,
                    pre.nodes@[m].generation,
                ) ==> removed.contains(e),
            self.nodes@ == step_pre.nodes@.update(
                target,
                (Node { observers: self.nodes@[target].observers, ..step_pre.nodes@[target] }),
            ),
            self.nodes@[target].observers@ == removed,
            self == (Runtime { nodes: self.nodes, ..step_pre }),
        ensures
            self.clearing_inv(pre, m),
            !self.nodes@[target].observers@.contains((m as usize, pre.nodes@[m].generation)),
    {
        assert forall|i: int| #![trigger self.nodes@[i]] 0 <= i < pre.nodes@.len() implies {
            &&& (forall|e: (usize, u64)| #[trigger]
                self.nodes@[i].observers@.contains(e) ==> pre.nodes@[i].observers@.contains(e))
            &&& (forall|e: (usize, u64)| #[trigger]
                pre.nodes@[i].observers@.contains(e) && e.0 as int != m
                    ==> self.nodes@[i].observers@.contains(e))
        } by {
            if i == target {
                assert forall|e: (usize, u64)| #[trigger]
                    self.nodes@[i].observers@.contains(e) implies pre.nodes@[i].observers@.contains(
                    e,
                ) by {
                    assert(removed.contains(e));
                    assert(step_pre.nodes@[target].observers@.contains(e));
                }
                assert forall|e: (usize, u64)| #[trigger]
                    pre.nodes@[i].observers@.contains(e) && e.0 as int
                        != m implies self.nodes@[i].observers@.contains(e) by {
                    assert(step_pre.nodes@[i].observers@.contains(e));
                    assert(e != (m as usize, pre.nodes@[m].generation));
                    assert(removed.contains(e));
                }
            } else {
                assert(self.nodes@[i].observers@ == step_pre.nodes@[i].observers@);
            }
        }
        assert(!self.nodes@[target].observers@.contains((m as usize, pre.nodes@[m].generation)))
            by {
            if self.nodes@[target].observers@.contains((m as usize, pre.nodes@[m].generation)) {
                assert(removed.contains((m as usize, pre.nodes@[m].generation)));
            }
        }
    }

    /// When every old source has been unhooked, full well-formedness is
    /// restored.
    proof fn lemma_clear_finish(self, pre: Runtime, m: int, srcs: Seq<(usize, u64)>)
        requires
            self.clearing_inv(pre, m),
            pre.wf_inner(),
            !pre.poisoned,
            0 <= m <= usize::MAX,
            0 <= m < pre.nodes@.len(),
            pre.nodes@[m].alive,
            pre.nodes@[m].kind != NodeKind::Signal,
            pre.nodes@[m].kind == NodeKind::Memo ==> pre.nodes@[m].state == NodeState::Dirty
                && !pre.nodes@[m].running,
            srcs == pre.nodes@[m].sources@,
            forall|j: int|
                0 <= j < srcs.len() ==> !self.nodes@[(#[trigger] srcs[j]).0 as int].observers@.contains(
                    (m as usize, pre.nodes@[m].generation),
                ),
            forall|j: int| 0 <= j < srcs.len() ==> (#[trigger] srcs[j]).0 < pre.nodes@.len(),
            forall|i: int|
                0 <= i < pre.nodes@.len() && !seq_slots_contain(srcs, i) ==> self.nodes@[i].observers@
                    == pre.nodes@[i].observers@,
        ensures
            self.wf_inner(),
            !self.is_poisoned(),
            pre.same_values(self),
            self.same_scopes(pre),
            self.same_scheduler(pre),
    {
        pre.lemma_len_bound();
        assert(pre.node_wf(m));
        assert forall|i: int| self.slot_live(i) implies self.node_wf(i) by {
            assert(pre.node_wf(i));
            let nd = self.nodes@[i];
            assert forall|k: int| 0 <= k < nd.observers@.len() implies (
            #[trigger] nd.observers@[k]).0 < self.nodes@.len() && nd.observers@[k].1
                <= self.nodes@[nd.observers@[k].0 as int].generation by {
                assert(nd.observers@.contains(nd.observers@[k]));
                assert(pre.nodes@[i].observers@.contains(nd.observers@[k]));
                let w = choose|w: int|
                    0 <= w < pre.nodes@[i].observers@.len() && pre.nodes@[i].observers@[w]
                        == nd.observers@[k];
            }
            assert forall|k: int| 0 <= k < nd.sources@.len() implies (
            #[trigger] nd.sources@[k]).0 < self.nodes@.len() && nd.sources@[k].1
                <= self.nodes@[nd.sources@[k].0 as int].generation by {
                assert(i != m);
                assert(nd.sources@[k] == pre.nodes@[i].sources@[k]);
            }
            if nd.kind == NodeKind::Effect {
                assert(nd.observers@.len() == 0) by {
                    if nd.observers@.len() > 0 {
                        assert(nd.observers@.contains(nd.observers@[0]));
                        assert(pre.nodes@[i].observers@.contains(nd.observers@[0]));
                    }
                }
            }
        }
        assert forall|i: int| self.slot_live(i) implies self.settled_edges_at(i) by {
            assert(pre.settled_edges_at(i));
            let nd = self.nodes@[i];
            if nd.kind == NodeKind::Memo {
                assert forall|k: int|
                    0 <= k < nd.sources@.len() && self.entry_valid(
                        #[trigger] nd.sources@[k],
                    ) implies self.nodes@[nd.sources@[k].0 as int].observers@.contains(
                    (i as usize, nd.generation),
                ) by {
                    assert(i != m);
                    assert(nd.sources@ == pre.nodes@[i].sources@);
                    assert(nd.generation == pre.nodes@[i].generation);
                    assert(pre.entry_valid(nd.sources@[k]));
                    assert(pre.nodes@[nd.sources@[k].0 as int].observers@.contains(
                        (i as usize, nd.generation),
                    ));
                    assert((i as usize, nd.generation) != (
                        m as usize,
                        pre.nodes@[m].generation,
                    )) by {
                        assert((i as usize) as int == i);
                        assert((m as usize) as int == m);
                    }
                    assert(self.nodes@[nd.sources@[k].0 as int].observers@.contains(
                        (i as usize, nd.generation),
                    ));
                }
            }
        }
        assert forall|i: int| self.slot_live(i) implies self.observer_backed_at(i) by {
            assert(pre.observer_backed_at(i));
            let nd = self.nodes@[i];
            assert forall|k: int|
                0 <= k < nd.observers@.len() && self.entry_valid(#[trigger] nd.observers@[k])
                    && self.nodes@[nd.observers@[k].0 as int].kind
                    == NodeKind::Memo implies self.nodes@[nd.observers@[k].0 as int].sources@.contains(
                (i as usize, nd.generation),
            ) by {
                let e = nd.observers@[k];
                assert(nd.observers@.contains(e));
                assert(pre.nodes@[i].observers@.contains(e));
                if e.0 as int == m {
                    // any remaining stamped edge naming m is stale: live
                    // entries were all removed, because the old backing
                    // listed exactly the old sources
                    assert(pre.entry_valid(e));
                    assert(e.1 == pre.nodes@[m].generation);
                    let w = choose|w: int|
                        0 <= w < pre.nodes@[i].observers@.len() && pre.nodes@[i].observers@[w] == e;
                    assert(pre.observer_backed_at(i));
                    assert(pre.nodes@[m].sources@.contains((i as usize, pre.nodes@[i].generation)));
                    let u = choose|u: int|
                        0 <= u < srcs.len() && srcs[u] == (i as usize, pre.nodes@[i].generation);
                    assert(!self.nodes@[srcs[u].0 as int].observers@.contains(
                        (m as usize, pre.nodes@[m].generation),
                    ));
                    assert((srcs[u].0 as int) == i);
                    assert(self.nodes@[i].observers@.contains(e));
                    assert(e == (m as usize, pre.nodes@[m].generation));
                    assert(false);
                } else {
                    let w = choose|w: int|
                        0 <= w < pre.nodes@[i].observers@.len() && pre.nodes@[i].observers@[w] == e;
                    assert(pre.nodes@[e.0 as int].sources@.contains((i as usize, nd.generation)));
                    assert(self.nodes@[e.0 as int].sources@ == pre.nodes@[e.0 as int].sources@);
                }
            }
        }
        assert forall|i: int| self.slot_live(i) implies self.records_current_at(i) by {
            assert(pre.records_current_at(i));
            let nd = self.nodes@[i];
            if nd.kind == NodeKind::Memo && (nd.state == NodeState::Clean || nd.running) {
                assert forall|k: int|
                    0 <= k < nd.sources@.len() && self.entry_valid(
                        #[trigger] nd.sources@[k],
                    ) implies nd.source_versions@[k]
                    == self.nodes@[nd.sources@[k].0 as int].version by {
                    assert(i != m);
                    assert(nd.sources@ == pre.nodes@[i].sources@);
                    assert(nd.source_versions@ == pre.nodes@[i].source_versions@);
                    assert(pre.entry_valid(nd.sources@[k]));
                }
            }
        }
        assert forall|i: int| self.slot_live(i) implies self.dirt_closed_at(i) by {
            assert(pre.dirt_closed_at(i));
            let nd = self.nodes@[i];
            if nd.kind == NodeKind::Memo && nd.state != NodeState::Clean {
                assert forall|k: int|
                    0 <= k < nd.observers@.len() && self.entry_valid(#[trigger] nd.observers@[k])
                        && self.nodes@[nd.observers@[k].0 as int].kind
                        == NodeKind::Memo implies self.marked(nd.observers@[k].0 as int) by {
                    let e = nd.observers@[k];
                    assert(nd.observers@.contains(e));
                    assert(pre.nodes@[i].observers@.contains(e));
                    let w = choose|w: int|
                        0 <= w < pre.nodes@[i].observers@.len() && pre.nodes@[i].observers@[w] == e;
                    assert(pre.entry_valid(e));
                    assert(pre.marked(e.0 as int));
                }
            }
        }
        assert forall|i: int| self.slot_live(i) implies self.owned_at(i) by {
            assert(pre.owned_at(i));
        }
        assert forall|sc: int|
            0 <= sc < self.scopes@.len() && self.scopes@[sc].alive implies self.scope_wf(sc) by {
            assert(pre.scope_wf(sc));
        }
        assert(self.free_wf()) by {
            assert forall|j: int|
                0 <= j < self.free_slots@.len() implies (#[trigger] self.free_slots@[j] as int)
                < self.nodes@.len() && !self.nodes@[self.free_slots@[j] as int].alive by {
                assert(pre.free_slots@[j] == self.free_slots@[j]);
            }
        }
        assert(self.scheduler_wf()) by {
            assert forall|j: int|
                self.cursor <= j < self.pending@.len() implies self.pending_entry_wf(j) by {
                assert(pre.pending_entry_wf(j));
            }
            assert forall|j1: int, j2: int|
                self.cursor <= j1 < self.pending@.len() && self.cursor <= j2 < self.pending@.len()
                    && j1 != j2 && self.entry_valid(self.pending@[j1]) && self.entry_valid(
                self.pending@[j2],
            ) implies self.pending@[j1].0 != self.pending@[j2].0 by {
                assert(pre.pending_entry_wf(j1));
                assert(pre.pending_entry_wf(j2));
                assert(pre.entry_valid(pre.pending@[j1]));
                assert(pre.entry_valid(pre.pending@[j2]));
            }
            assert forall|i: int|
                self.slot_live(i) && self.nodes@[i].queued implies exists|j: int|
                self.cursor <= j < self.pending@.len() && self.pending@[j] == (
                i as usize,
                self.nodes@[i].generation,
            ) by {
                assert(pre.slot_live(i) && pre.nodes@[i].queued);
            }
            assert forall|j: int|
                0 <= j < self.running_stack@.len() implies self.running_entry_wf(j) by {
                assert(pre.running_entry_wf(j));
            }
            assert forall|j1: int, j2: int|
                0 <= j1 < self.running_stack@.len() && 0 <= j2 < self.running_stack@.len() && j1
                    != j2 && self.entry_valid(self.running_stack@[j1]) && self.entry_valid(
                self.running_stack@[j2],
            ) implies self.running_stack@[j1].0 != self.running_stack@[j2].0 by {
                assert(pre.running_entry_wf(j1));
                assert(pre.running_entry_wf(j2));
                assert(pre.entry_valid(pre.running_stack@[j1]));
                assert(pre.entry_valid(pre.running_stack@[j2]));
            }
            assert(!self.batch_active ==> self.pending@.len() == self.cursor && (forall|i: int|
                self.slot_live(i) ==> !(#[trigger] self.nodes@[i].resolved)
                    && !self.nodes@[i].queued)) by {
                if !self.batch_active {
                    assert forall|i: int| self.slot_live(i) implies !(
                    #[trigger] self.nodes@[i].resolved) && !self.nodes@[i].queued by {
                        assert(pre.slot_live(i));
                    }
                }
            }
        }
        assert(self.log_wf()) by {
            assert forall|i: int|
                self.slot_live(i) && self.nodes@[i].resolved implies self.run_log@.contains(
                (self.batch_no@, i, self.nodes@[i].generation),
            ) by {
                assert(pre.slot_live(i) && pre.nodes@[i].resolved);
            }
        }
        assert(pre.same_values(self)) by {
            assert forall|i: int|
                #![trigger self.slot_kind(i)]
                0 <= i < pre.num_slots() implies {
                &&& self.slot_live(i) == pre.slot_live(i)
                &&& self.slot_kind(i) == pre.slot_kind(i)
                &&& self.slot_value(i) == pre.slot_value(i)
                &&& self.slot_has_value(i) == pre.slot_has_value(i)
                &&& self.slot_version(i) == pre.slot_version(i)
                &&& self.slot_generation(i) == pre.slot_generation(i)
                &&& self.slot_cleanups(i) == pre.slot_cleanups(i)
                &&& self.slot_queued(i) == pre.slot_queued(i)
                &&& self.slot_resolved(i) == pre.slot_resolved(i)
                &&& self.slot_running(i) == pre.slot_running(i)
            } by {
                assert(self.nodes@[i].alive == pre.nodes@[i].alive);
            }
        }
    }

    /// The cell at slot `i` (liveness, kind, generation, value, cached
    /// flag, version and cleanups) is unchanged; edges, dirtiness and
    /// run state may differ.
    pub open spec fn cell_preserved(self, post: Runtime, i: int) -> bool {
        &&& post.slot_live(i) == self.slot_live(i)
        &&& post.slot_kind(i) == self.slot_kind(i)
        &&& post.slot_generation(i) == self.slot_generation(i)
        &&& post.slot_value(i) == self.slot_value(i)
        &&& post.slot_has_value(i) == self.slot_has_value(i)
        &&& post.slot_version(i) == self.slot_version(i)
        &&& post.slot_cleanups(i) == self.slot_cleanups(i)
    }

    /// A catch-all preservation lemma for steps that only change, at
    /// one slot, the run flags (`running`, `queued`, `resolved`), the
    /// memo state to `Clean`, the cleanup list, or nothing — while the
    /// running stack, pending queue and log change as stated by the
    /// caller. It re-proves the per-node conjuncts that only depend on
    /// edges, values and versions.
    proof fn lemma_nodes_flags_wf(self, pre: Runtime, slot: int)
        requires
            0 <= slot < pre.nodes@.len(),
            self.nodes@.len() == pre.nodes@.len(),
            forall|i: int| 0 <= i < pre.nodes@.len() && i != slot ==> self.nodes@[i]
                == pre.nodes@[i],
            self.nodes@[slot].alive == pre.nodes@[slot].alive,
            self.nodes@[slot].kind == pre.nodes@[slot].kind,
            self.nodes@[slot].generation == pre.nodes@[slot].generation,
            self.nodes@[slot].scope == pre.nodes@[slot].scope,
            self.nodes@[slot].value == pre.nodes@[slot].value,
            self.nodes@[slot].has_value == pre.nodes@[slot].has_value,
            self.nodes@[slot].version == pre.nodes@[slot].version,
            self.nodes@[slot].sources@ == pre.nodes@[slot].sources@,
            self.nodes@[slot].source_versions@ == pre.nodes@[slot].source_versions@,
            self.nodes@[slot].observers@ == pre.nodes@[slot].observers@,
            self.scopes@ == pre.scopes@,
            self.free_slots@ == pre.free_slots@,
            forall|i: int| #![trigger pre.node_wf(i)] pre.slot_live(i) ==> pre.node_wf(i),
            forall|i: int|
                #![trigger pre.settled_edges_at(i)]
                pre.slot_live(i) ==> pre.settled_edges_at(i),
            forall|i: int|
                #![trigger pre.observer_backed_at(i)]
                pre.slot_live(i) ==> pre.observer_backed_at(i),
            forall|i: int| #![trigger pre.owned_at(i)] pre.slot_live(i) ==> pre.owned_at(i),
            forall|sc: int|
                #![trigger pre.scope_wf(sc)]
                0 <= sc < pre.scopes@.len() && pre.scopes@[sc].alive ==> pre.scope_wf(sc),
            pre.free_wf(),
            // what may differ at `slot`, stated by the caller:
            self.nodes@[slot].kind == NodeKind::Memo ==> !self.nodes@[slot].queued
                && !self.nodes@[slot].resolved,
            self.nodes@[slot].kind == NodeKind::Memo && !self.nodes@[slot].has_value
                ==> self.nodes@[slot].state == NodeState::Dirty,
            self.nodes@[slot].kind == NodeKind::Memo && self.nodes@[slot].running
                ==> self.nodes@[slot].state == NodeState::Dirty,
            self.nodes@[slot].kind == NodeKind::Effect ==> self.nodes@[slot].state
                == NodeState::Clean && self.nodes@[slot].has_value,
            self.nodes@[slot].kind == NodeKind::Effect && self.nodes@[slot].running
                ==> self.nodes@[slot].resolved && !self.nodes@[slot].queued,
            self.nodes@[slot].kind == NodeKind::Signal ==> self.nodes@[slot] == pre.nodes@[slot],
            // a memo may only move to Clean here when settled
            self.nodes@[slot].kind == NodeKind::Memo && self.nodes@[slot].state
                == NodeState::Clean && pre.nodes@[slot].state != NodeState::Clean ==> (forall|
                k: int,
            |
                0 <= k < self.nodes@[slot].sources@.len() && self.entry_valid(
                    #[trigger] self.nodes@[slot].sources@[k],
                ) ==> self.nodes@[slot].source_versions@[k]
                    == self.nodes@[self.nodes@[slot].sources@[k].0 as int].version && (
                self.nodes@[self.nodes@[slot].sources@[k].0 as int].kind == NodeKind::Memo
                    ==> self.nodes@[self.nodes@[slot].sources@[k].0 as int].state
                    == NodeState::Clean)),
            // dirt may only be dropped at `slot` itself
            forall|i: int|
                0 <= i < pre.nodes@.len() && i != slot && pre.marked(i) && self.nodes@[i].kind
                    == NodeKind::Memo ==> self.marked(i),
            pre.marked(slot) || pre.nodes@[slot].state == self.nodes@[slot].state,
        ensures
            forall|i: int| #![trigger self.node_wf(i)] self.slot_live(i) ==> self.node_wf(i),
            forall|i: int|
                #![trigger self.settled_edges_at(i)]
                self.slot_live(i) ==> self.settled_edges_at(i),
            forall|i: int|
                #![trigger self.observer_backed_at(i)]
                self.slot_live(i) ==> self.observer_backed_at(i),
            forall|i: int|
                #![trigger self.records_current_at(i)]
                (forall|w: int|
                    #![trigger pre.records_current_at(w)]
                    pre.slot_live(w) ==> pre.records_current_at(w)) && (self.nodes@[slot].state
                    == NodeState::Clean && pre.nodes@[slot].state != NodeState::Clean
                    && !self.nodes@[slot].running ==> true) && self.slot_live(i) && (i != slot
                    ==> true) ==> (i != slot ==> self.records_current_at(i)),
            forall|i: int| #![trigger self.owned_at(i)] self.slot_live(i) ==> self.owned_at(i),
            forall|sc: int|
                #![trigger self.scope_wf(sc)]
                0 <= sc < self.scopes@.len() && self.scopes@[sc].alive ==> self.scope_wf(sc),
            self.free_wf(),
    {
        assert forall|i: int| self.slot_live(i) implies self.node_wf(i) by {
            assert(pre.node_wf(i));
            let nd = self.nodes@[i];
            assert forall|k: int| 0 <= k < nd.sources@.len() implies (
            #[trigger] nd.sources@[k]).0 < self.nodes@.len() && nd.sources@[k].1
                <= self.nodes@[nd.sources@[k].0 as int].generation by {
                assert(nd.sources@[k] == pre.nodes@[i].sources@[k]);
            }
            assert forall|k: int| 0 <= k < nd.observers@.len() implies (
            #[trigger] nd.observers@[k]).0 < self.nodes@.len() && nd.observers@[k].1
                <= self.nodes@[nd.observers@[k].0 as int].generation by {
                assert(nd.observers@[k] == pre.nodes@[i].observers@[k]);
            }
        }
        assert forall|i: int| self.slot_live(i) implies self.settled_edges_at(i) by {
            assert(pre.settled_edges_at(i));
            let nd = self.nodes@[i];
            if nd.kind == NodeKind::Memo {
                assert forall|k: int|
                    0 <= k < nd.sources@.len() && self.entry_valid(
                        #[trigger] nd.sources@[k],
                    ) implies self.nodes@[nd.sources@[k].0 as int].observers@.contains(
                    (i as usize, nd.generation),
                ) by {
                    assert(nd.sources@ == pre.nodes@[i].sources@);
                    assert(nd.generation == pre.nodes@[i].generation);
                    assert(pre.entry_valid(nd.sources@[k]));
                    assert(pre.nodes@[nd.sources@[k].0 as int].observers@
                        == self.nodes@[nd.sources@[k].0 as int].observers@);
                }
            }
        }
        assert forall|i: int| self.slot_live(i) implies self.observer_backed_at(i) by {
            assert(pre.observer_backed_at(i));
            let nd = self.nodes@[i];
            assert forall|k: int|
                0 <= k < nd.observers@.len() && self.entry_valid(#[trigger] nd.observers@[k])
                    && self.nodes@[nd.observers@[k].0 as int].kind
                    == NodeKind::Memo implies self.nodes@[nd.observers@[k].0 as int].sources@.contains(
                (i as usize, nd.generation),
            ) by {
                assert(nd.observers@ == pre.nodes@[i].observers@);
                assert(nd.generation == pre.nodes@[i].generation);
                assert(pre.entry_valid(nd.observers@[k]));
                assert(pre.nodes@[nd.observers@[k].0 as int].sources@
                    == self.nodes@[nd.observers@[k].0 as int].sources@);
            }
        }
        assert forall|i: int| self.slot_live(i) implies self.owned_at(i) by {
            assert(pre.owned_at(i));
        }
        assert forall|sc: int|
            0 <= sc < self.scopes@.len() && self.scopes@[sc].alive implies self.scope_wf(sc) by {
            assert(pre.scope_wf(sc));
        }
        assert(self.free_wf()) by {
            assert forall|j: int|
                0 <= j < self.free_slots@.len() implies (#[trigger] self.free_slots@[j] as int)
                < self.nodes@.len() && !self.nodes@[self.free_slots@[j] as int].alive by {
                assert(pre.free_slots@[j] == self.free_slots@[j]);
            }
        }
        assert forall|i: int|
            (forall|w: int|
                #![trigger pre.records_current_at(w)]
                pre.slot_live(w) ==> pre.records_current_at(w)) && (self.nodes@[slot].state
                == NodeState::Clean && pre.nodes@[slot].state != NodeState::Clean
                && !self.nodes@[slot].running ==> true) && self.slot_live(i) && (i != slot
                ==> true) implies (i != slot ==> #[trigger] self.records_current_at(i)) by {
            if i != slot && self.slot_live(i) {
                assert(pre.records_current_at(i));
                let nd = self.nodes@[i];
                if nd.kind == NodeKind::Memo && (nd.state == NodeState::Clean || nd.running) {
                    assert forall|k: int|
                        0 <= k < nd.sources@.len() && self.entry_valid(
                            #[trigger] nd.sources@[k],
                        ) implies nd.source_versions@[k]
                        == self.nodes@[nd.sources@[k].0 as int].version by {
                        assert(nd == pre.nodes@[i]);
                        assert(pre.entry_valid(nd.sources@[k]));
                    }
                }
            }
        }
    }

    /// Starts a memo's (re)computation. The memo must be dirty and not
    /// already running (a read answered [`ReadOutcome::Compute`] for
    /// it). All prior dependency edges are dropped and the memo becomes
    /// the innermost running computation, so that every read until
    /// [`Runtime::finish_memo`] is tracked as its dependency.
    pub fn begin_compute(&mut self, m: NodeId) -> (r: Result<(), RuntimeError>)
        requires
            old(self).wf(),
            old(self).valid(m) ==> old(self).is_memo(m) && old(self).slot_state(m.slot as int)
                == NodeState::Dirty && !old(self).slot_running(m.slot as int),
        ensures
            final(self).wf(),
            old(self).is_poisoned() ==> r == Err::<(), _>(RuntimeError::CyclicDependency) && *final(self) == *old(self),
            !old(self).is_poisoned() && !old(self).valid(m) ==> r == Err::<
                (),
                _,
            >(RuntimeError::UseAfterDispose) && *final(self) == *old(self),
            !old(self).is_poisoned() && old(self).valid(m) ==> {
                &&& r == Ok::<_, RuntimeError>(())
                &&& !final(self).is_poisoned()
                &&& final(self).valid(m)
                &&& final(self).slot_running(m.slot as int)
                &&& final(self).tracking()
                &&& final(self).current_observer() == m.slot as int
                &&& final(self).slot_sources(m.slot as int) == Seq::<(usize, u64)>::empty()
                &&& final(self).same_scopes(*old(self))
                &&& final(self).in_batch() == old(self).in_batch()
                &&& final(self).effect_runs() == old(self).effect_runs()
                &&& final(self).batch_index() == old(self).batch_index()
                &&& (forall|i: int|
                    0 <= i < old(self).num_slots() ==> old(self).cell_preserved(*final(self), i))
            },
    {
        if self.poisoned {
            return Err(RuntimeError::CyclicDependency);
        }
        if m.slot >= self.nodes.len() || !self.nodes[m.slot].alive || self.nodes[m.slot].generation
            != m.generation {
            return Err(RuntimeError::UseAfterDispose);
        }
        self.clear_sources(m.slot);
        let ghost cleared = *self;
        self.nodes[m.slot].running = true;
        self.running_stack.push((m.slot, m.generation));
        proof {
            let mi = m.slot as int;
            assert(cleared.slot_kind(mi) == old(self).slot_kind(mi));
            assert(cleared.slot_state(mi) == old(self).slot_state(mi));
            assert(cleared.nodes@[mi].alive && cleared.nodes@[mi].kind == NodeKind::Memo
                && cleared.nodes@[mi].state == NodeState::Dirty && !cleared.nodes@[mi].running
                && cleared.nodes@[mi].generation == m.generation);
            assert(self.nodes@ =~= cleared.nodes@.update(
                mi,
                (Node { running: true, ..cleared.nodes@[mi] }),
            ));
            self.lemma_begin_wf(cleared, mi);
            assert forall|i: int| 0 <= i < old(self).num_slots() implies old(
                self,
            ).cell_preserved(*self, i) by {
                assert(cleared.slot_kind(i) == old(self).slot_kind(i));
                if i != mi {
                    assert(self.nodes@[i] == cleared.nodes@[i]);
                }
            }
        }
        Ok(())
    }

    /// Marking a cleared dirty memo as running (and stacking it)
    /// preserves the invariant.
    proof fn lemma_begin_wf(self, pre: Runtime, slot: int)
        requires
            pre.wf_inner(),
            !pre.poisoned,
            0 <= slot <= usize::MAX,
            0 <= slot < pre.nodes@.len(),
            pre.nodes@[slot].alive,
            pre.nodes@[slot].kind == NodeKind::Memo,
            pre.nodes@[slot].state == NodeState::Dirty,
            !pre.nodes@[slot].running,
            pre.nodes@[slot].sources@.len() == 0,
            self.nodes@ == pre.nodes@.update(
                slot,
                (Node { running: true, ..pre.nodes@[slot] }),
            ),
            self.running_stack@ == pre.running_stack@.push(
                (slot as usize, pre.nodes@[slot].generation),
            ),
            self == (Runtime { nodes: self.nodes, running_stack: self.running_stack, ..pre }),
        ensures
            self.wf_inner(),
    {
        assert(pre.node_wf(slot));
        self.lemma_nodes_flags_wf(pre, slot);
        assert forall|i: int| self.slot_live(i) implies self.records_current_at(i) by {
            if i != slot {
                assert(self.records_current_at(i));
            } else {
                assert(self.nodes@[slot].sources@.len() == 0);
            }
        }
        assert forall|i: int| self.slot_live(i) implies self.dirt_closed_at(i) by {
            assert(pre.dirt_closed_at(i));
            let nd = self.nodes@[i];
            if nd.kind == NodeKind::Memo && nd.state != NodeState::Clean {
                assert forall|k: int|
                    0 <= k < nd.observers@.len() && self.entry_valid(#[trigger] nd.observers@[k])
                        && self.nodes@[nd.observers@[k].0 as int].kind
                        == NodeKind::Memo implies self.marked(nd.observers@[k].0 as int) by {
                    assert(nd.observers@ == pre.nodes@[i].observers@);
                    assert(pre.nodes@[i].state == nd.state && pre.nodes@[i].kind == nd.kind);
                    assert(pre.entry_valid(nd.observers@[k]));
                    assert(pre.marked(nd.observers@[k].0 as int));
                }
            }
        }
        assert(self.scheduler_wf()) by {
            let rl = self.running_stack@.len() as int;
            assert forall|j: int|
                self.cursor <= j < self.pending@.len() implies self.pending_entry_wf(j) by {
                assert(pre.pending_entry_wf(j));
            }
            assert forall|j1: int, j2: int|
                self.cursor <= j1 < self.pending@.len() && self.cursor <= j2 < self.pending@.len()
                    && j1 != j2 && self.entry_valid(self.pending@[j1]) && self.entry_valid(
                self.pending@[j2],
            ) implies self.pending@[j1].0 != self.pending@[j2].0 by {
                assert(pre.pending_entry_wf(j1));
                assert(pre.pending_entry_wf(j2));
                if self.pending@[j1].0 as int == slot || self.pending@[j2].0 as int == slot {
                    if self.pending@[j1].0 as int == slot {
                        assert(pre.entry_valid(pre.pending@[j1]));
                        assert(pre.nodes@[slot].queued);
                        assert(pre.node_wf(slot));
                        assert(false);
                    }
                    if self.pending@[j2].0 as int == slot {
                        assert(pre.entry_valid(pre.pending@[j2]));
                        assert(pre.nodes@[slot].queued);
                        assert(pre.node_wf(slot));
                        assert(false);
                    }
                } else {
                    assert(pre.entry_valid(pre.pending@[j1]));
                    assert(pre.entry_valid(pre.pending@[j2]));
                }
            }
            assert forall|i: int|
                self.slot_live(i) && self.nodes@[i].queued implies exists|j: int|
                self.cursor <= j < self.pending@.len() && self.pending@[j] == (
                i as usize,
                self.nodes@[i].generation,
            ) by {
                assert(i != slot) by {
                    assert(pre.node_wf(slot));
                }
                assert(pre.slot_live(i) && pre.nodes@[i].queued);
            }
            assert forall|j: int| 0 <= j < rl implies self.running_entry_wf(j) by {
                if j < rl - 1 {
                    assert(self.running_stack@[j] == pre.running_stack@[j]);
                    assert(pre.running_entry_wf(j));
                } else {
                    assert(self.running_stack@[j] == (slot as usize, pre.nodes@[slot].generation));
                }
            }
            assert forall|j1: int, j2: int|
                0 <= j1 < rl && 0 <= j2 < rl && j1 != j2 && self.entry_valid(
                    self.running_stack@[j1],
                ) && self.entry_valid(self.running_stack@[j2]) implies self.running_stack@[j1].0
                != self.running_stack@[j2].0 by {
                if j1 < rl - 1 && j2 < rl - 1 {
                    assert(pre.running_entry_wf(j1));
                    assert(pre.running_entry_wf(j2));
                    if self.running_stack@[j1].0 as int == slot {
                        assert(pre.entry_valid(pre.running_stack@[j1]));
                        assert(pre.nodes@[slot].running);
                        assert(false);
                    }
                    if self.running_stack@[j2].0 as int == slot {
                        assert(pre.entry_valid(pre.running_stack@[j2]));
                        assert(pre.nodes@[slot].running);
                        assert(false);
                    }
                    assert(pre.entry_valid(pre.running_stack@[j1]));
                    assert(pre.entry_valid(pre.running_stack@[j2]));
                } else {
                    let jo = if j1 < rl - 1 {
                        j1
                    } else {
                        j2
                    };
                    assert(pre.running_entry_wf(jo));
                    if self.running_stack@[jo].0 as int == slot {
                        assert(pre.entry_valid(pre.running_stack@[jo]));
                        assert(pre.nodes@[slot].running);
                        assert(false);
                    }
                }
            }
            assert forall|i: int|
                self.slot_live(i) && self.nodes@[i].running implies exists|j: int|
                0 <= j < self.running_stack@.len() && self.running_stack@[j] == (
                i as usize,
                self.nodes@[i].generation,
            ) by {
                if i == slot {
                    assert(self.running_stack@[rl - 1] == (
                        slot as usize,
                        self.nodes@[slot].generation,
                    ));
                } else {
                    assert(pre.slot_live(i) && pre.nodes@[i].running);
                    let j = choose|j: int|
                        0 <= j < pre.running_stack@.len() && pre.running_stack@[j] == (
                        i as usize,
                        pre.nodes@[i].generation,
                        );
                    assert(self.running_stack@[j] == (i as usize, self.nodes@[i].generation));
                }
            }
            assert(!self.batch_active ==> self.pending@.len() == self.cursor && (forall|i: int|
                self.slot_live(i) ==> !(#[trigger] self.nodes@[i].resolved)
                    && !self.nodes@[i].queued)) by {
                if !self.batch_active {
                    assert forall|i: int| self.slot_live(i) implies !(
                    #[trigger] self.nodes@[i].resolved) && !self.nodes@[i].queued by {
                        assert(pre.slot_live(i));
                    }
                }
            }
        }
        assert(self.log_wf()) by {
            assert forall|i: int|
                self.slot_live(i) && self.nodes@[i].resolved implies self.run_log@.contains(
                (self.batch_no@, i, self.nodes@[i].generation),
            ) by {
                assert(pre.slot_live(i) && pre.nodes@[i].resolved);
            }
        }
    }

    /// The recomputed value counts as unchanged under the memo's
    /// change-detection policy: the cache already holds an equal value
    /// and the memo does not opt into always-notify.
    pub open spec fn memo_keeps(self, m: NodeId, v: ValueView) -> bool {
        self.slot_has_value(m.slot as int) && !self.slot_always_notify(m.slot as int)
            && self.value_of(m) == v
    }

    /// Ends a memo's computation with the value its body produced. If
    /// the value equals the cached one (under the memo's policy), the
    /// cache and the memo's version are left untouched — observers that
    /// re-validate against the version will stay clean, which is what
    /// stops an unchanged update from propagating. Otherwise the value
    /// is stored under a bumped version. Either way the memo ends
    /// settled (clean). Finding a still-running dependency or dependant
    /// at this point means the graph is cyclic: the runtime is poisoned.
    pub fn finish_memo(&mut self, m: NodeId, v: Value) -> (r: Result<(), RuntimeError>)
        requires
            old(self).wf(),
            old(self).valid(m) ==> old(self).is_memo(m) && old(self).slot_running(m.slot as int)
                && old(self).tracking() && old(self).run_stack().last() == (m.slot, m.generation)
                && old(self).slot_version(m.slot as int) < u64::MAX,
        ensures
            final(self).wf(),
            old(self).is_poisoned() ==> r == Err::<(), _>(RuntimeError::CyclicDependency) && *final(self) == *old(self),
            !old(self).is_poisoned() && !old(self).valid(m) ==> r == Err::<
                (),
                _,
            >(RuntimeError::UseAfterDispose) && *final(self) == *old(self),
            !old(self).is_poisoned() && old(self).valid(m) ==> {
                &&& (r is Ok || r == Err::<(), RuntimeError>(RuntimeError::CyclicDependency))
                &&& (r is Err ==> final(self).is_poisoned())
                &&& (r is Ok ==> {
                    &&& !final(self).is_poisoned()
                    &&& final(self).valid(m)
                    &&& final(self).slot_state(m.slot as int) == NodeState::Clean
                    &&& !final(self).slot_running(m.slot as int)
                    &&& final(self).slot_has_value(m.slot as int)
                    &&& final(self).run_stack() == old(self).run_stack().drop_last()
                    &&& final(self).same_scopes(*old(self))
                    &&& final(self).in_batch() == old(self).in_batch()
                    &&& final(self).effect_runs() == old(self).effect_runs()
                    &&& final(self).batch_index() == old(self).batch_index()
                    &&& (old(self).memo_keeps(m, v@)
                        ==> final(self).value_of(m) == old(self).value_of(m)
                        && final(self).slot_version(m.slot as int)
                        == old(self).slot_version(m.slot as int))
                    &&& (!old(self).memo_keeps(m, v@) ==> final(self).value_of(m) == v@
                        && final(self).slot_version(m.slot as int)
                        == old(self).slot_version(m.slot as int) + 1)
                    &&& (forall|i: int|
                        0 <= i < old(self).num_slots() && i != m.slot as int
                            ==> old(self).cell_preserved(*final(self), i))
                })
            },
            !old(self).is_poisoned() && old(self).valid(m) && (forall|k: int|
                0 <= k < old(self).slot_observers(m.slot as int).len() && old(self).edge_live(
                    #[trigger] old(self).slot_observers(m.slot as int)[k],
                ) && old(self).slot_kind(old(self).slot_observers(m.slot as int)[k].0 as int)
                    == NodeKind::Memo ==> !old(self).slot_running(
                    old(self).slot_observers(m.slot as int)[k].0 as int,
                )) && (forall|k: int|
                0 <= k < old(self).slot_sources(m.slot as int).len() && old(self).edge_live(
                    #[trigger] old(self).slot_sources(m.slot as int)[k],
                ) && old(self).slot_kind(old(self).slot_sources(m.slot as int)[k].0 as int)
                    == NodeKind::Memo ==> old(self).slot_state(
                    old(self).slot_sources(m.slot as int)[k].0 as int,
                ) == NodeState::Clean) ==> r is Ok,
    {
        if self.poisoned {
            return Err(RuntimeError::CyclicDependency);
        }
        if m.slot >= self.nodes.len() || !self.nodes[m.slot].alive || self.nodes[m.slot].generation
            != m.generation {
            return Err(RuntimeError::UseAfterDispose);
        }
        let ghost pre = *old(self);
        proof {
            assert(pre.node_wf(m.slot as int));
        }
        // a dependency or dependant still running at this point read or
        // fed a half-finished computation: a cycle
        let mut k: usize = 0;
        let olen = self.nodes[m.slot].observers.len();
        while k < olen
            invariant
                *self == pre,
                pre == *old(self),
                pre.wf(),
                !pre.poisoned,
                pre.valid(m),
                (m.slot as int) < pre.nodes@.len(),
                olen == pre.nodes@[m.slot as int].observers@.len(),
                k <= olen,
                forall|j: int|
                    0 <= j < k ==> !(pre.entry_valid(
                        #[trigger] pre.nodes@[m.slot as int].observers@[j],
                    ) && pre.nodes@[pre.nodes@[m.slot as int].observers@[j].0 as int].kind
                        == NodeKind::Memo
                        && pre.nodes@[pre.nodes@[m.slot as int].observers@[j].0 as int].running),
            decreases olen - k,
        {
            proof {
                assert(pre.node_wf(m.slot as int));
            }
            let e = self.nodes[m.slot].observers[k];
            if self.nodes[e.0].alive && self.nodes[e.0].generation == e.1 {
                let is_mm = match self.nodes[e.0].kind {
                    NodeKind::Memo => true,
                    _ => false,
                };
                if is_mm && self.nodes[e.0].running {
                    proof {
                        assert(pre.slot_observers(m.slot as int)[k as int] == e);
                        assert(pre.edge_live(e));
                    }
                    self.poisoned = true;
                    return Err(RuntimeError::CyclicDependency);
                }
            }
            k = k + 1;
        }
        let mut k2: usize = 0;
        let slen = self.nodes[m.slot].sources.len();
        while k2 < slen
            invariant
                *self == pre,
                pre == *old(self),
                pre.wf(),
                !pre.poisoned,
                pre.valid(m),
                (m.slot as int) < pre.nodes@.len(),
                slen == pre.nodes@[m.slot as int].sources@.len(),
                k2 <= slen,
                forall|j: int|
                    0 <= j < k2 ==> (pre.entry_valid(
                        #[trigger] pre.nodes@[m.slot as int].sources@[j],
                    ) && pre.nodes@[pre.nodes@[m.slot as int].sources@[j].0 as int].kind
                        == NodeKind::Memo
                        ==> pre.nodes@[pre.nodes@[m.slot as int].sources@[j].0 as int].state
                        == NodeState::Clean),
            decreases slen - k2,
        {
            proof {
                assert(pre.node_wf(m.slot as int));
            }
            let e = self.nodes[m.slot].sources[k2];
            if self.nodes[e.0].alive && self.nodes[e.0].generation == e.1 {
                let is_mm = match self.nodes[e.0].kind {
                    NodeKind::Memo => true,
                    _ => false,
                };
                let is_clean = match self.nodes[e.0].state {
                    NodeState::Clean => true,
                    _ => false,
                };
                if is_mm && !is_clean {
                    proof {
                        assert(pre.slot_sources(m.slot as int)[k2 as int] == e);
                        assert(pre.edge_live(e));
                    }
                    self.poisoned = true;
                    return Err(RuntimeError::CyclicDependency);
                }
            }
            k2 = k2 + 1;
        }
        // decide whether the value changed under the memo's policy
        let changed = if !self.nodes[m.slot].has_value || self.nodes[m.slot].always_notify {
            true
        } else {
            !self.nodes[m.slot].value.equal_to(&v)
        };
        let popped = self.running_stack.pop();
        self.nodes[m.slot].running = false;
        self.nodes[m.slot].state = NodeState::Clean;
        if changed {
            let bumped = self.nodes[m.slot].version + 1;
            self.nodes[m.slot].value = v;
            self.nodes[m.slot].has_value = true;
            self.nodes[m.slot].version = bumped;
        }
        proof {
            if changed {
                assert(self.nodes@ =~= pre.nodes@.update(
                    m.slot as int,
                    (Node {
                        running: false,
                        state: NodeState::Clean,
                        value: self.nodes@[m.slot as int].value,
                        has_value: true,
                        version: (pre.nodes@[m.slot as int].version + 1) as u64,
                        ..pre.nodes@[m.slot as int]
                    }),
                ));
            } else {
                assert(self.nodes@ =~= pre.nodes@.update(
                    m.slot as int,
                    (Node {
                        running: false,
                        state: NodeState::Clean,
                        ..pre.nodes@[m.slot as int]
                    }),
                ));
            }
            self.lemma_finish_wf(pre, m.slot as int, changed);
            assert forall|i: int|
                0 <= i < pre.num_slots() && i != m.slot as int implies pre.cell_preserved(
                *self,
                i,
            ) by {
                assert(self.nodes@[i] == pre.nodes@[i]);
            }
        }
        Ok(())
    }

    /// The well-formedness argument for `finish_memo`: the memo becomes
    /// settled; a version bump is safe because every live observer was
    /// just checked not to be running, non-clean (dirt closure), or an
    /// effect, so no settled record of the memo exists; becoming clean
    /// is safe because every live memo dependency was just checked to
    /// be clean and the records were kept current throughout the run.
    #[verifier::rlimit(60)]
    proof fn lemma_finish_wf(self, pre: Runtime, slot: int, changed: bool)
        requires
            pre.wf_inner(),
            !pre.poisoned,
            0 <= slot <= usize::MAX,
            0 <= slot < pre.nodes@.len(),
            pre.nodes@[slot].alive,
            pre.nodes@[slot].kind == NodeKind::Memo,
            pre.nodes@[slot].running,
            pre.nodes@[slot].version < u64::MAX,
            pre.running_stack@.len() > 0,
            pre.running_stack@.last() == (slot as usize, pre.nodes@[slot].generation),
            // no live running-memo observer
            forall|j: int|
                0 <= j < pre.nodes@[slot].observers@.len() ==> !(pre.entry_valid(
                    #[trigger] pre.nodes@[slot].observers@[j],
                ) && pre.nodes@[pre.nodes@[slot].observers@[j].0 as int].kind == NodeKind::Memo
                    && pre.nodes@[pre.nodes@[slot].observers@[j].0 as int].running),
            // every live memo dependency is clean
            forall|j: int|
                0 <= j < pre.nodes@[slot].sources@.len() ==> (pre.entry_valid(
                    #[trigger] pre.nodes@[slot].sources@[j],
                ) && pre.nodes@[pre.nodes@[slot].sources@[j].0 as int].kind == NodeKind::Memo
                    ==> pre.nodes@[pre.nodes@[slot].sources@[j].0 as int].state
                    == NodeState::Clean),
            changed ==> self.nodes@ == pre.nodes@.update(
                slot,
                (Node {
                    running: false,
                    state: NodeState::Clean,
                    value: self.nodes@[slot].value,
                    has_value: true,
                    version: (pre.nodes@[slot].version + 1) as u64,
                    ..pre.nodes@[slot]
                }),
            ),
            !changed ==> pre.nodes@[slot].has_value && self.nodes@ == pre.nodes@.update(
                slot,
                (Node { running: false, state: NodeState::Clean, ..pre.nodes@[slot] }),
            ),
            self.running_stack@ == pre.running_stack@.drop_last(),
            self == (Runtime { nodes: self.nodes, running_stack: self.running_stack, ..pre }),
        ensures
            self.wf_inner(),
    {
        pre.lemma_len_bound();
        assert(pre.node_wf(slot));
        self.lemma_nodes_flags_wf_weak(pre, slot);
        assert forall|i: int| self.slot_live(i) implies self.records_current_at(i) by {
            let nd = self.nodes@[i];
            if nd.kind == NodeKind::Memo && (nd.state == NodeState::Clean || nd.running) {
                assert forall|k: int|
                    0 <= k < nd.sources@.len() && self.entry_valid(
                        #[trigger] nd.sources@[k],
                    ) implies nd.source_versions@[k]
                    == self.nodes@[nd.sources@[k].0 as int].version by {
                    if i == slot {
                        // records were current during the run; the only
                        // version that changed is the memo's own, and a
                        // memo never records itself
                        assert(pre.records_current_at(slot));
                        assert(nd.sources@ == pre.nodes@[slot].sources@);
                        assert(pre.entry_valid(nd.sources@[k]));
                        if nd.sources@[k].0 as int == slot {
                            assert(pre.nodes@[slot].kind != NodeKind::Effect);
                            // a self-edge would have meant reading a
                            // running node, which poisons; it also
                            // cannot satisfy the clean-dependency check
                            assert(pre.nodes@[slot].state == NodeState::Clean);
                            assert(pre.node_wf(slot));
                            assert(false);
                        }
                    } else {
                        assert(pre.records_current_at(i));
                        assert(nd == pre.nodes@[i]);
                        assert(pre.entry_valid(nd.sources@[k]));
                        if nd.sources@[k].0 as int == slot && changed {
                            // i settled with a record of the memo: it is
                            // a live observer (mutual edges), so it was
                            // found non-running, and the dirt closure
                            // makes it non-clean: contradiction
                            assert(pre.settled_edges_at(i));
                            assert(pre.nodes@[slot].observers@.contains(
                                (i as usize, pre.nodes@[i].generation),
                            ));
                            let w = choose|w: int|
                                0 <= w < pre.nodes@[slot].observers@.len()
                                    && pre.nodes@[slot].observers@[w] == (
                                i as usize,
                                pre.nodes@[i].generation,
                                );
                            assert(pre.entry_valid(pre.nodes@[slot].observers@[w]));
                            assert(!(pre.nodes@[i].kind == NodeKind::Memo
                                && pre.nodes@[i].running));
                            assert(!pre.nodes@[i].running);
                            assert(nd.state == NodeState::Clean);
                            assert(pre.nodes@[i].state == NodeState::Clean);
                            assert(pre.nodes@[slot].state == NodeState::Dirty);
                            assert(pre.dirt_closed_at(slot));
                            assert(pre.marked(i));
                            assert(false);
                        }
                    }
                }
            }
        }
        assert forall|i: int| self.slot_live(i) implies self.dirt_closed_at(i) by {
            assert(pre.dirt_closed_at(i));
            let nd = self.nodes@[i];
            if nd.kind == NodeKind::Memo && nd.state != NodeState::Clean {
                assert(i != slot);
                assert forall|k: int|
                    0 <= k < nd.observers@.len() && self.entry_valid(#[trigger] nd.observers@[k])
                        && self.nodes@[nd.observers@[k].0 as int].kind
                        == NodeKind::Memo implies self.marked(nd.observers@[k].0 as int) by {
                    assert(nd == pre.nodes@[i]);
                    assert(pre.entry_valid(nd.observers@[k]));
                    assert(pre.marked(nd.observers@[k].0 as int));
                    if nd.observers@[k].0 as int == slot {
                        // the finishing memo observed a non-clean memo:
                        // impossible, its live memo dependencies were
                        // just checked to be clean
                        self.lemma_len_bound();
                        assert(pre.observer_backed_at(i));
                        assert(pre.nodes@[slot].sources@.contains(
                            (i as usize, pre.nodes@[i].generation),
                        ));
                        let u = choose|u: int|
                            0 <= u < pre.nodes@[slot].sources@.len()
                                && pre.nodes@[slot].sources@[u] == (
                            i as usize,
                            pre.nodes@[i].generation,
                            );
                        assert(pre.entry_valid(pre.nodes@[slot].sources@[u]));
                        assert(pre.nodes@[i].state == NodeState::Clean);
                        assert(false);
                    }
                }
            }
        }
        assert(self.scheduler_wf()) by {
            assert forall|j: int|
                self.cursor <= j < self.pending@.len() implies self.pending_entry_wf(j) by {
                assert(pre.pending_entry_wf(j));
            }
            assert forall|j1: int, j2: int|
                self.cursor <= j1 < self.pending@.len() && self.cursor <= j2 < self.pending@.len()
                    && j1 != j2 && self.entry_valid(self.pending@[j1]) && self.entry_valid(
                self.pending@[j2],
            ) implies self.pending@[j1].0 != self.pending@[j2].0 by {
                assert(pre.pending_entry_wf(j1));
                assert(pre.pending_entry_wf(j2));
                assert(pre.entry_valid(pre.pending@[j1]));
                assert(pre.entry_valid(pre.pending@[j2]));
            }
            assert forall|i: int|
                self.slot_live(i) && self.nodes@[i].queued implies exists|j: int|
                self.cursor <= j < self.pending@.len() && self.pending@[j] == (
                i as usize,
                self.nodes@[i].generation,
            ) by {
                assert(pre.slot_live(i) && pre.nodes@[i].queued);
            }
            assert forall|j: int|
                0 <= j < self.running_stack@.len() implies self.running_entry_wf(j) by {
                assert(self.running_stack@[j] == pre.running_stack@[j]);
                assert(pre.running_entry_wf(j));
                if self.running_stack@[j].0 as int == slot && self.entry_valid(
                    self.running_stack@[j],
                ) {
                    // the popped top was the only live stack entry for
                    // this slot
                    assert(pre.entry_valid(pre.running_stack@[j]));
                    assert(pre.entry_valid(pre.running_stack@[pre.running_stack@.len() - 1]));
                    assert(j != pre.running_stack@.len() - 1);
                    assert(pre.running_stack@[j].0
                        == pre.running_stack@[pre.running_stack@.len() - 1].0);
                    assert(false);
                }
            }
            assert forall|j1: int, j2: int|
                0 <= j1 < self.running_stack@.len() && 0 <= j2 < self.running_stack@.len() && j1
                    != j2 && self.entry_valid(self.running_stack@[j1]) && self.entry_valid(
                self.running_stack@[j2],
            ) implies self.running_stack@[j1].0 != self.running_stack@[j2].0 by {
                assert(self.running_stack@[j1] == pre.running_stack@[j1]);
                assert(self.running_stack@[j2] == pre.running_stack@[j2]);
                assert(pre.running_entry_wf(j1));
                assert(pre.running_entry_wf(j2));
                if pre.running_stack@[j1].0 as int == slot || pre.running_stack@[j2].0 as int
                    == slot {
                } else {
                    assert(pre.entry_valid(pre.running_stack@[j1]));
                    assert(pre.entry_valid(pre.running_stack@[j2]));
                }
            }
            assert forall|i: int|
                self.slot_live(i) && self.nodes@[i].running implies exists|j: int|
                0 <= j < self.running_stack@.len() && self.running_stack@[j] == (
                i as usize,
                self.nodes@[i].generation,
            ) by {
                assert(i != slot);
                assert(pre.slot_live(i) && pre.nodes@[i].running);
                let j = choose|j: int|
                    0 <= j < pre.running_stack@.len() && pre.running_stack@[j] == (
                    i as usize,
                    pre.nodes@[i].generation,
                    );
                assert(j != pre.running_stack@.len() - 1);
                assert(self.running_stack@[j] == (i as usize, self.nodes@[i].generation));
            }
            assert(!self.batch_active ==> self.pending@.len() == self.cursor && (forall|i: int|
                self.slot_live(i) ==> !(#[trigger] self.nodes@[i].resolved)
                    && !self.nodes@[i].queued)) by {
                if !self.batch_active {
                    assert forall|i: int| self.slot_live(i) implies !(
                    #[trigger] self.nodes@[i].resolved) && !self.nodes@[i].queued by {
                        assert(pre.slot_live(i));
                    }
                }
            }
        }
        assert(self.log_wf()) by {
            assert forall|i: int|
                self.slot_live(i) && self.nodes@[i].resolved implies self.run_log@.contains(
                (self.batch_no@, i, self.nodes@[i].generation),
            ) by {
                assert(pre.slot_live(i) && pre.nodes@[i].resolved);
            }
        }
    }

    /// Like `lemma_nodes_flags_wf`, for a slot whose value, cached flag
    /// and version may also have changed (a finishing memo).
    proof fn lemma_nodes_flags_wf_weak(self, pre: Runtime, slot: int)
        requires
            0 <= slot < pre.nodes@.len(),
            self.nodes@.len() == pre.nodes@.len(),
            forall|i: int| 0 <= i < pre.nodes@.len() && i != slot ==> self.nodes@[i]
                == pre.nodes@[i],
            self.nodes@[slot].alive == pre.nodes@[slot].alive,
            self.nodes@[slot].kind == pre.nodes@[slot].kind,
            self.nodes@[slot].generation == pre.nodes@[slot].generation,
            self.nodes@[slot].scope == pre.nodes@[slot].scope,
            self.nodes@[slot].sources@ == pre.nodes@[slot].sources@,
            self.nodes@[slot].source_versions@ == pre.nodes@[slot].source_versions@,
            self.nodes@[slot].observers@ == pre.nodes@[slot].observers@,
            self.scopes@ == pre.scopes@,
            self.free_slots@ == pre.free_slots@,
            forall|i: int| #![trigger pre.node_wf(i)] pre.slot_live(i) ==> pre.node_wf(i),
            forall|i: int|
                #![trigger pre.settled_edges_at(i)]
                pre.slot_live(i) ==> pre.settled_edges_at(i),
            forall|i: int|
                #![trigger pre.observer_backed_at(i)]
                pre.slot_live(i) ==> pre.observer_backed_at(i),
            forall|i: int| #![trigger pre.owned_at(i)] pre.slot_live(i) ==> pre.owned_at(i),
            forall|sc: int|
                #![trigger pre.scope_wf(sc)]
                0 <= sc < pre.scopes@.len() && pre.scopes@[sc].alive ==> pre.scope_wf(sc),
            pre.free_wf(),
            self.nodes@[slot].kind == NodeKind::Memo ==> !self.nodes@[slot].queued
                && !self.nodes@[slot].resolved,
            self.nodes@[slot].kind == NodeKind::Memo && !self.nodes@[slot].has_value
                ==> self.nodes@[slot].state == NodeState::Dirty,
            self.nodes@[slot].kind == NodeKind::Memo && self.nodes@[slot].running
                ==> self.nodes@[slot].state == NodeState::Dirty,
            self.nodes@[slot].kind != NodeKind::Signal,
            self.nodes@[slot].kind == NodeKind::Effect ==> self.nodes@[slot].state
                == NodeState::Clean && self.nodes@[slot].has_value,
            self.nodes@[slot].kind == NodeKind::Effect && self.nodes@[slot].running
                ==> self.nodes@[slot].resolved && !self.nodes@[slot].queued,
        ensures
            forall|i: int| #![trigger self.node_wf(i)] self.slot_live(i) ==> self.node_wf(i),
            forall|i: int|
                #![trigger self.settled_edges_at(i)]
                self.slot_live(i) ==> self.settled_edges_at(i),
            forall|i: int|
                #![trigger self.observer_backed_at(i)]
                self.slot_live(i) ==> self.observer_backed_at(i),
            forall|i: int| #![trigger self.owned_at(i)] self.slot_live(i) ==> self.owned_at(i),
            forall|sc: int|
                #![trigger self.scope_wf(sc)]
                0 <= sc < self.scopes@.len() && self.scopes@[sc].alive ==> self.scope_wf(sc),
            self.free_wf(),
    {
        assert forall|i: int| self.slot_live(i) implies self.node_wf(i) by {
            assert(pre.node_wf(i));
            let nd = self.nodes@[i];
            assert forall|k: int| 0 <= k < nd.sources@.len() implies (
            #[trigger] nd.sources@[k]).0 < self.nodes@.len() && nd.sources@[k].1
                <= self.nodes@[nd.sources@[k].0 as int].generation by {
                assert(nd.sources@[k] == pre.nodes@[i].sources@[k]);
            }
            assert forall|k: int| 0 <= k < nd.observers@.len() implies (
            #[trigger] nd.observers@[k]).0 < self.nodes@.len() && nd.observers@[k].1
                <= self.nodes@[nd.observers@[k].0 as int].generation by {
                assert(nd.observers@[k] == pre.nodes@[i].observers@[k]);
            }
        }
        assert forall|i: int| self.slot_live(i) implies self.settled_edges_at(i) by {
            assert(pre.settled_edges_at(i));
            let nd = self.nodes@[i];
            if nd.kind == NodeKind::Memo {
                assert forall|k: int|
                    0 <= k < nd.sources@.len() && self.entry_valid(
                        #[trigger] nd.sources@[k],
                    ) implies self.nodes@[nd.sources@[k].0 as int].observers@.contains(
                    (i as usize, nd.generation),
                ) by {
                    assert(nd.sources@ == pre.nodes@[i].sources@);
                    assert(nd.generation == pre.nodes@[i].generation);
                    assert(pre.entry_valid(nd.sources@[k]));
                    assert(pre.nodes@[nd.sources@[k].0 as int].observers@
                        == self.nodes@[nd.sources@[k].0 as int].observers@);
                }
            }
        }
        assert forall|i: int| self.slot_live(i) implies self.observer_backed_at(i) by {
            assert(pre.observer_backed_at(i));
            let nd = self.nodes@[i];
            assert forall|k: int|
                0 <= k < nd.observers@.len() && self.entry_valid(#[trigger] nd.observers@[k])
                    && self.nodes@[nd.observers@[k].0 as int].kind
                    == NodeKind::Memo implies self.nodes@[nd.observers@[k].0 as int].sources@.contains(
                (i as usize, nd.generation),
            ) by {
                assert(nd.observers@ == pre.nodes@[i].observers@);
                assert(nd.generation == pre.nodes@[i].generation);
                assert(pre.entry_valid(nd.observers@[k]));
                assert(pre.nodes@[nd.observers@[k].0 as int].sources@
                    == self.nodes@[nd.observers@[k].0 as int].sources@);
            }
        }
        assert forall|i: int| self.slot_live(i) implies self.owned_at(i) by {
            assert(pre.owned_at(i));
        }
        assert forall|sc: int|
            0 <= sc < self.scopes@.len() && self.scopes@[sc].alive implies self.scope_wf(sc) by {
            assert(pre.scope_wf(sc));
        }
        assert(self.free_wf()) by {
            assert forall|j: int|
                0 <= j < self.free_slots@.len() implies (#[trigger] self.free_slots@[j] as int)
                < self.nodes@.len() && !self.nodes@[self.free_slots@[j] as int].alive by {
                assert(pre.free_slots@[j] == self.free_slots@[j]);
            }
        }
    }

    /// Hands out the next pending effect of the current batch, together
    /// with the cleanup tokens its previous run registered, already in
    /// the order the callbacks must be invoked (reverse registration
    /// order, before the new run's body). The effect's old dependency
    /// edges are dropped and it becomes the running computation; the
    /// caller runs its body and calls [`Runtime::finish_effect`].
    ///
    /// Every effect is handed out at most once per batch: the returned
    /// effect was queued and is marked resolved, and the run is
    /// appended to the run history. When the queue is drained the batch
    /// closes: `None` is returned, the batch index moves on and all
    /// resolved marks are cleared.
    pub fn next_effect(&mut self) -> (r: Result<Option<(NodeId, Vec<u64>)>, RuntimeError>)
        requires
            old(self).wf(),
            !old(self).tracking(),
        ensures
            final(self).wf(),
            old(self).is_poisoned() ==> r == Err::<Option<(NodeId, Vec<u64>)>, _>(
                RuntimeError::CyclicDependency,
            ) && *final(self) == *old(self),
            !old(self).is_poisoned() ==> r is Ok,
            !old(self).is_poisoned() && r == Ok::<Option<(NodeId, Vec<u64>)>, RuntimeError>(None)
                ==> (forall|i: int|
                old(self).slot_live(i) ==> !(#[trigger] old(self).slot_queued(i))),
            !old(self).is_poisoned() && !old(self).in_batch() ==> (match r {
                Ok(o) => o is None,
                Err(_) => false,
            }) && *final(self) == *old(self),
            !old(self).is_poisoned() && old(self).in_batch() ==> (match r {
                Ok(Some((e, cbs))) => {
                    &&& final(self).is_effect(e)
                    &&& old(self).valid(e)
                    &&& old(self).slot_queued(e.slot as int)
                    &&& !old(self).slot_resolved(e.slot as int)
                    &&& final(self).slot_resolved(e.slot as int)
                    &&& !final(self).slot_queued(e.slot as int)
                    &&& final(self).slot_running(e.slot as int)
                    &&& final(self).tracking()
                    &&& final(self).current_observer() == e.slot as int
                    &&& final(self).effect_runs() == old(self).effect_runs().push(
                        (old(self).batch_index(), e.slot as int, e.generation),
                    )
                    &&& final(self).batch_index() == old(self).batch_index()
                    &&& final(self).in_batch()
                    &&& cbs@ == old(self).slot_cleanups(e.slot as int).reverse()
                    &&& final(self).slot_cleanups(e.slot as int) == Seq::<u64>::empty()
                    &&& final(self).slot_sources(e.slot as int) == Seq::<(usize, u64)>::empty()
                    &&& final(self).same_scopes(*old(self))
                    &&& !final(self).is_poisoned()
                    &&& (forall|i: int|
                        0 <= i < old(self).num_slots() && i != e.slot as int ==> old(
                            self,
                        ).cell_preserved(*final(self), i))
                    &&& (forall|i: int|
                        0 <= i < old(self).num_slots() && i != e.slot as int ==> {
                            &&& final(self).slot_queued(i) == old(self).slot_queued(i)
                            &&& final(self).slot_resolved(i) == old(self).slot_resolved(i)
                            &&& final(self).slot_state(i) == old(self).slot_state(i)
                            &&& final(self).slot_running(i) == old(self).slot_running(i)
                        })
                    &&& final(self).slot_value(e.slot as int) == old(self).slot_value(
                        e.slot as int,
                    )
                    &&& final(self).slot_live(e.slot as int)
                },
                Ok(None) => {
                    &&& !final(self).in_batch()
                    &&& final(self).batch_index() == old(self).batch_index() + 1
                    &&& final(self).effect_runs() == old(self).effect_runs()
                    &&& final(self).same_scopes(*old(self))
                    &&& !final(self).is_poisoned()
                    &&& (forall|i: int|
                        0 <= i < old(self).num_slots() ==> old(self).cell_preserved(
                            *final(self),
                            i,
                        ))
                },
                Err(err) => err == RuntimeError::CyclicDependency && final(self).is_poisoned(),
            }),
    {
        if self.poisoned {
            return Err(RuntimeError::CyclicDependency);
        }
        if !self.batch_active {
            proof {
                assert forall|i: int| self.slot_live(i) implies !(
                #[trigger] self.slot_queued(i)) by {
                    assert(!self.nodes@[i].queued);
                }
            }
            return Ok(None);
        }
        let ghost pre = *old(self);
        // skip already-superseded entries and pick the next live one
        while self.cursor < self.pending.len()
            invariant
                pre == *old(self),
                pre.wf_inner(),
                !pre.poisoned,
                pre.batch_active,
                !pre.tracking(),
                *self == (Runtime { cursor: self.cursor, ..pre }),
                pre.cursor <= self.cursor <= self.pending@.len(),
                self.wf_inner(),
                forall|i: int|
                    #![trigger self.nodes@[i].queued]
                    self.slot_live(i) && self.nodes@[i].queued ==> exists|j: int|
                        self.cursor <= j < self.pending@.len() && self.pending@[j] == (
                        i as usize,
                        self.nodes@[i].generation,
                        ),
            decreases self.pending@.len() - self.cursor,
        {
            proof {
                assert(pre.pending_entry_wf(self.cursor as int));
            }
            let e = self.pending[self.cursor];
            let stale = !(e.0 < self.nodes.len() && self.nodes[e.0].alive
                && self.nodes[e.0].generation == e.1);
            if stale {
                let ghost before_adv = *self;
                self.cursor = self.cursor + 1;
                proof {
                    self.lemma_len_bound();
                    assert forall|i: int|
                        self.slot_live(i) && self.nodes@[i].queued implies exists|j: int|
                        self.cursor <= j < self.pending@.len() && self.pending@[j] == (
                        i as usize,
                        self.nodes@[i].generation,
                    ) by {
                        let j = choose|j: int|
                            self.cursor - 1 <= j < self.pending@.len() && self.pending@[j] == (
                            i as usize,
                            self.nodes@[i].generation,
                            );
                        assert((i as usize) as int == i);
                        assert(self.entry_valid(self.pending@[j]));
                        assert(j != self.cursor - 1);
                    }
                    self.lemma_cursor_advance_wf(before_adv);
                }
                continue;
            }
            // a live queued effect: resolve it, log the run, start it
            let slot = e.0;
            let ghost before_take = *self;
            self.cursor = self.cursor + 1;
            self.nodes[slot].queued = false;
            self.nodes[slot].resolved = true;
            self.nodes[slot].running = true;
            self.running_stack.push((slot, e.1));
            proof {
                self.run_log@ = before_take.run_log@.push(
                    (before_take.batch_no@, slot as int, e.1),
                );
                self.batch_no@ = before_take.batch_no@;
            }
            proof {
                assert(self.nodes@ =~= before_take.nodes@.update(
                    slot as int,
                    (Node {
                        queued: false,
                        resolved: true,
                        running: true,
                        ..before_take.nodes@[slot as int]
                    }),
                ));
                self.lemma_resolve_wf(before_take, slot as int, e.1, self.cursor as int);
            }
            let ghost resolved_state = *self;
            self.clear_sources(slot);
            let ghost cleared = *self;
            // hand the previous run's cleanups out, newest first
            let mut cbs: Vec<u64> = Vec::new();
            let mut ci: usize = self.nodes[slot].cleanups.len();
            while ci > 0
                invariant
                    *self == cleared,
                    (slot as int) < cleared.nodes@.len(),
                    ci <= cleared.nodes@[slot as int].cleanups@.len(),
                    cbs@ == cleared.nodes@[slot as int].cleanups@.subrange(
                        ci as int,
                        cleared.nodes@[slot as int].cleanups@.len() as int,
                    ).reverse(),
                decreases ci,
            {
                ci = ci - 1;
                let t = self.nodes[slot].cleanups[ci];
                cbs.push(t);
                proof {
                    assert(cbs@ =~= cleared.nodes@[slot as int].cleanups@.subrange(
                        ci as int,
                        cleared.nodes@[slot as int].cleanups@.len() as int,
                    ).reverse());
                }
            }
            self.nodes[slot].cleanups = Vec::new();
            proof {
                assert(cbs@ =~= cleared.nodes@[slot as int].cleanups@.reverse()) by {
                    assert(cleared.nodes@[slot as int].cleanups@.subrange(
                        0,
                        cleared.nodes@[slot as int].cleanups@.len() as int,
                    ) == cleared.nodes@[slot as int].cleanups@);
                }
                assert(self.nodes@ =~= cleared.nodes@.update(
                    slot as int,
                    (Node { cleanups: self.nodes@[slot as int].cleanups, ..cleared.nodes@[slot as int] }),
                ));
                self.lemma_take_cleanups_wf(cleared, slot as int);
                assert(cleared.slot_kind(slot as int) == resolved_state.slot_kind(slot as int));
                assert(cleared.slot_cleanups(slot as int) == pre.slot_cleanups(slot as int)) by {
                    assert(resolved_state.nodes@[slot as int].cleanups@
                        == pre.nodes@[slot as int].cleanups@);
                }
                assert forall|i: int|
                    0 <= i < pre.num_slots() && i != slot as int implies pre.cell_preserved(
                    *self,
                    i,
                ) by {
                    assert(cleared.slot_kind(i) == resolved_state.slot_kind(i));
                    assert(self.nodes@[i] == cleared.nodes@[i]);
                    assert(resolved_state.nodes@[i] == before_take.nodes@[i]);
                }
                assert forall|i: int|
                    0 <= i < pre.num_slots() && i != slot as int implies self.slot_queued(i)
                    == pre.slot_queued(i) && self.slot_resolved(i) == pre.slot_resolved(i)
                    && self.slot_state(i) == pre.slot_state(i) && self.slot_running(i)
                    == pre.slot_running(i) by {
                    assert(self.nodes@[i] == cleared.nodes@[i]);
                    assert(cleared.slot_kind(i) == resolved_state.slot_kind(i));
                    assert(cleared.slot_queued(i) == resolved_state.slot_queued(i));
                    assert(cleared.slot_resolved(i) == resolved_state.slot_resolved(i));
                    assert(cleared.slot_state(i) == resolved_state.slot_state(i));
                    assert(cleared.slot_running(i) == resolved_state.slot_running(i));
                    assert(resolved_state.nodes@[i] == before_take.nodes@[i]);
                    assert(before_take.nodes@[i] == pre.nodes@[i]);
                }
            }
            return Ok(Some((NodeId { slot, generation: e.1 }, cbs)));
        }
        // drained: the batch is over; clear the per-batch marks
        proof {
            assert forall|i: int| pre.slot_live(i) implies !(#[trigger] pre.slot_queued(i)) by {
                assert(self.cursor == self.pending@.len());
                if pre.nodes@[i].queued {
                    assert(self.slot_live(i) && self.nodes@[i].queued);
                    let j = choose|j: int|
                        self.cursor <= j < self.pending@.len() && self.pending@[j] == (
                        i as usize,
                        self.nodes@[i].generation,
                        );
                    assert(false);
                }
            }
            self.batch_no@ = pre.batch_no@ + 1;
        }
        let ghost bumped = *self;
        let mut i: usize = 0;
        let n = self.nodes.len();
        while i < n
            invariant
                pre == *old(self),
                pre.wf_inner(),
                !pre.poisoned,
                pre.batch_active,
                !pre.tracking(),
                n == self.nodes@.len(),
                i <= n,
                self.nodes@.len() == pre.nodes@.len(),
                *self == (Runtime {
                    nodes: self.nodes,
                    cursor: self.cursor,
                    batch_no: Ghost(pre.batch_no@ + 1),
                    ..pre
                }),
                self.cursor == self.pending@.len(),
                forall|w: int|
                    0 <= w < i ==> (#[trigger] self.nodes@[w]).alive ==> !self.nodes@[w].resolved
                        && !self.nodes@[w].queued && !self.nodes@[w].running,
                forall|w: int|
                    0 <= w < pre.nodes@.len() ==> self.nodes@[w] == pre.nodes@[w]
                        || self.nodes@[w] == (Node {
                        resolved: false,
                        queued: false,
                        ..pre.nodes@[w]
                    }),
            decreases n - i,
        {
            if self.nodes[i].alive && self.nodes[i].running {
                // unreachable: nothing is running between computations,
                // which the caller's `!tracking()` guarantees
                proof {
                    assert(pre.nodes@[i as int].alive && pre.nodes@[i as int].running) by {
                        assert(self.nodes@[i as int] == pre.nodes@[i as int] || self.nodes@[
                            i as int] == (Node {
                            resolved: false,
                            queued: false,
                            ..pre.nodes@[i as int]
                        }));
                    }
                    assert(pre.slot_live(i as int) && pre.nodes@[i as int].running);
                    assert(pre.running_stack@.len() == 0);
                    assert(false);
                }
                self.poisoned = true;
                return Err(RuntimeError::CyclicDependency);
            }
            if self.nodes[i].resolved || self.nodes[i].queued {
                self.nodes[i].resolved = false;
                self.nodes[i].queued = false;
            }
            proof {
                assert forall|w: int|
                    0 <= w < pre.nodes@.len() implies self.nodes@[w] == pre.nodes@[w]
                    || self.nodes@[w] == (Node {
                    resolved: false,
                    queued: false,
                    ..pre.nodes@[w]
                }) by {
                    if w != i as int {
                    }
                }
            }
            i = i + 1;
        }
        self.pending = Vec::new();
        self.cursor = 0;
        self.batch_active = false;
        proof {
            self.lemma_batch_end_wf(pre);
            assert forall|i2: int| 0 <= i2 < pre.num_slots() implies pre.cell_preserved(
                *self,
                i2,
            ) by {
                assert(self.nodes@[i2] == pre.nodes@[i2] || self.nodes@[i2] == (Node {
                    resolved: false,
                    queued: false,
                    ..pre.nodes@[i2]
                }));
            }
        }
        Ok(None)
    }

    /// Taking a fresh effect from the queue preserves the invariant.
    proof fn lemma_resolve_wf(self, pre: Runtime, slot: int, gen: u64, cur: int)
        requires
            pre.wf_inner(),
            !pre.poisoned,
            pre.batch_active,
            0 <= slot <= usize::MAX,
            0 <= slot < pre.nodes@.len(),
            pre.nodes@[slot].alive,
            pre.nodes@[slot].generation == gen,
            pre.nodes@[slot].kind == NodeKind::Effect,
            pre.nodes@[slot].queued,
            !pre.nodes@[slot].resolved,
            !pre.nodes@[slot].running,
            pre.running_stack@.len() == 0,
            1 <= cur <= pre.pending@.len(),
            pre.pending@[cur - 1] == (slot as usize, gen),
            pre.cursor == cur - 1,
            self.nodes@ == pre.nodes@.update(
                slot,
                (Node { queued: false, resolved: true, running: true, ..pre.nodes@[slot] }),
            ),
            self.running_stack@ == pre.running_stack@.push((slot as usize, gen)),
            self.cursor == cur,
            self.run_log@ == pre.run_log@.push((pre.batch_no@, slot, gen)),
            self == (Runtime {
                nodes: self.nodes,
                running_stack: self.running_stack,
                cursor: self.cursor,
                run_log: Ghost(self.run_log@),
                ..pre
            }),
        ensures
            self.wf_inner(),
    {
        assert(pre.node_wf(slot));
        self.lemma_nodes_flags_wf(pre, slot);
        assert forall|i: int| self.slot_live(i) implies self.records_current_at(i) by {
            if i != slot {
                assert(self.records_current_at(i));
            } else {
                assert(pre.records_current_at(i));
                let nd = self.nodes@[i];
                assert(nd.kind == NodeKind::Effect);
            }
        }
        assert forall|i: int| self.slot_live(i) implies self.dirt_closed_at(i) by {
            assert(pre.dirt_closed_at(i));
            let nd = self.nodes@[i];
            if nd.kind == NodeKind::Memo && nd.state != NodeState::Clean {
                assert forall|k: int|
                    0 <= k < nd.observers@.len() && self.entry_valid(#[trigger] nd.observers@[k])
                        && self.nodes@[nd.observers@[k].0 as int].kind
                        == NodeKind::Memo implies self.marked(nd.observers@[k].0 as int) by {
                    assert(nd == pre.nodes@[i]);
                    assert(pre.entry_valid(nd.observers@[k]));
                    assert(nd.observers@[k].0 as int != slot);
                    assert(pre.marked(nd.observers@[k].0 as int));
                }
            }
        }
        assert(self.scheduler_wf()) by {
            assert forall|j: int|
                self.cursor <= j < self.pending@.len() implies self.pending_entry_wf(j) by {
                assert(pre.pending_entry_wf(j));
                let e = self.pending@[j];
                if e.0 as int == slot && self.entry_valid(e) {
                    assert(pre.entry_valid(e));
                    assert(pre.pending@[cur - 1] == (slot as usize, gen));
                    assert(pre.entry_valid(pre.pending@[cur - 1]));
                    assert(j != cur - 1);
                    assert(pre.pending@[j].0 != pre.pending@[cur - 1].0);
                    assert(false);
                }
            }
            assert forall|j1: int, j2: int|
                self.cursor <= j1 < self.pending@.len() && self.cursor <= j2 < self.pending@.len()
                    && j1 != j2 && self.entry_valid(self.pending@[j1]) && self.entry_valid(
                self.pending@[j2],
            ) implies self.pending@[j1].0 != self.pending@[j2].0 by {
                assert(pre.pending_entry_wf(j1));
                assert(pre.pending_entry_wf(j2));
                assert(pre.entry_valid(pre.pending@[j1]));
                assert(pre.entry_valid(pre.pending@[j2]));
            }
            assert forall|i: int|
                self.slot_live(i) && self.nodes@[i].queued implies exists|j: int|
                self.cursor <= j < self.pending@.len() && self.pending@[j] == (
                i as usize,
                self.nodes@[i].generation,
            ) by {
                assert(i != slot);
                assert(pre.slot_live(i) && pre.nodes@[i].queued);
                pre.lemma_len_bound();
                let j = choose|j: int|
                    pre.cursor <= j < pre.pending@.len() && pre.pending@[j] == (
                    i as usize,
                    pre.nodes@[i].generation,
                    );
                assert((i as usize) as int == i);
                assert(self.entry_valid(self.pending@[j]));
                assert(j != cur - 1);
            }
            assert forall|j: int|
                0 <= j < self.running_stack@.len() implies self.running_entry_wf(j) by {
                assert(self.running_stack@[j] == (slot as usize, gen));
            }
            assert forall|i: int|
                self.slot_live(i) && self.nodes@[i].running implies exists|j: int|
                0 <= j < self.running_stack@.len() && self.running_stack@[j] == (
                i as usize,
                self.nodes@[i].generation,
            ) by {
                if i == slot {
                    assert(self.running_stack@[0] == (slot as usize, self.nodes@[slot].generation));
                } else {
                    assert(pre.slot_live(i) && pre.nodes@[i].running);
                    let j = choose|j: int|
                        0 <= j < pre.running_stack@.len() && pre.running_stack@[j] == (
                        i as usize,
                        pre.nodes@[i].generation,
                        );
                    assert(false);
                }
            }
        }
        assert(self.log_wf()) by {
            let ll = self.run_log@.len() as int;
            assert forall|j1: int, j2: int|
                0 <= j1 < ll && 0 <= j2 < ll && j1 != j2 implies self.run_log@[j1]
                != self.run_log@[j2] by {
                if j1 < ll - 1 && j2 < ll - 1 {
                    assert(self.run_log@[j1] == pre.run_log@[j1]);
                    assert(self.run_log@[j2] == pre.run_log@[j2]);
                } else {
                    let jo = if j1 < ll - 1 {
                        j1
                    } else {
                        j2
                    };
                    if self.run_log@[jo] == (pre.batch_no@, slot, gen) {
                        assert(pre.run_log@[jo] == (pre.batch_no@, slot, gen));
                        assert(pre.nodes@[slot].resolved);
                        assert(false);
                    }
                }
            }
            assert forall|j: int| 0 <= j < ll implies (#[trigger] self.run_log@[j]).0
                <= self.batch_no@ && 0 <= self.run_log@[j].1 < self.nodes@.len()
                && self.run_log@[j].2 <= self.nodes@[self.run_log@[j].1].generation by {
                if j < ll - 1 {
                    assert(self.run_log@[j] == pre.run_log@[j]);
                }
            }
            assert forall|j: int|
                0 <= j < ll && (#[trigger] self.run_log@[j]).0 == self.batch_no@ implies {
                let e2 = self.run_log@[j].1;
                0 <= e2 < self.nodes@.len() && (self.nodes@[e2].alive && self.nodes@[e2].generation
                    == self.run_log@[j].2 ==> self.nodes@[e2].resolved)
            } by {
                if j < ll - 1 {
                    assert(self.run_log@[j] == pre.run_log@[j]);
                }
            }
            assert forall|i: int|
                self.slot_live(i) && self.nodes@[i].resolved implies self.run_log@.contains(
                (self.batch_no@, i, self.nodes@[i].generation),
            ) by {
                if i == slot {
                    assert(self.run_log@[ll - 1] == (self.batch_no@, i, self.nodes@[i].generation));
                } else {
                    assert(pre.slot_live(i) && pre.nodes@[i].resolved);
                    let j = choose|j: int|
                        0 <= j < pre.run_log@.len() && pre.run_log@[j] == (
                        pre.batch_no@,
                        i,
                        pre.nodes@[i].generation,
                        );
                    assert(self.run_log@[j] == (self.batch_no@, i, self.nodes@[i].generation));
                }
            }
        }
    }

    /// Swapping out a node's cleanup list preserves the invariant (no
    /// conjunct watches cleanups).
    proof fn lemma_take_cleanups_wf(self, pre: Runtime, slot: int)
        requires
            pre.wf_inner(),
            !pre.poisoned,
            0 <= slot < pre.nodes@.len(),
            pre.nodes@[slot].alive,
            pre.nodes@[slot].kind == NodeKind::Effect,
            self.nodes@ == pre.nodes@.update(
                slot,
                (Node { cleanups: self.nodes@[slot].cleanups, ..pre.nodes@[slot] }),
            ),
            self == (Runtime { nodes: self.nodes, ..pre }),
        ensures
            self.wf_inner(),
            !self.is_poisoned(),
    {
        assert(pre.node_wf(slot));
        self.lemma_nodes_flags_wf(pre, slot);
        assert forall|i: int| self.slot_live(i) implies self.records_current_at(i) by {
            if i != slot {
                assert(self.records_current_at(i));
            } else {
                assert(pre.records_current_at(i));
                let nd = self.nodes@[i];
                if nd.kind == NodeKind::Memo && (nd.state == NodeState::Clean || nd.running) {
                    assert forall|k: int|
                        0 <= k < nd.sources@.len() && self.entry_valid(
                            #[trigger] nd.sources@[k],
                        ) implies nd.source_versions@[k]
                        == self.nodes@[nd.sources@[k].0 as int].version by {
                        assert(pre.entry_valid(nd.sources@[k]));
                    }
                }
            }
        }
        assert forall|i: int| self.slot_live(i) implies self.dirt_closed_at(i) by {
            assert(pre.dirt_closed_at(i));
            let nd = self.nodes@[i];
            if nd.kind == NodeKind::Memo && nd.state != NodeState::Clean {
                assert forall|k: int|
                    0 <= k < nd.observers@.len() && self.entry_valid(#[trigger] nd.observers@[k])
                        && self.nodes@[nd.observers@[k].0 as int].kind
                        == NodeKind::Memo implies self.marked(nd.observers@[k].0 as int) by {
                    assert(nd.observers@ == pre.nodes@[i].observers@);
                    assert(pre.nodes@[i].state == nd.state && pre.nodes@[i].kind == nd.kind);
                    assert(pre.entry_valid(nd.observers@[k]));
                    assert(pre.marked(nd.observers@[k].0 as int));
                    assert(self.marked(nd.observers@[k].0 as int) == pre.marked(
                        nd.observers@[k].0 as int,
                    ));
                }
            }
        }
        assert(self.scheduler_wf()) by {
            assert forall|j: int|
                self.cursor <= j < self.pending@.len() implies self.pending_entry_wf(j) by {
                assert(pre.pending_entry_wf(j));
            }
            assert forall|j1: int, j2: int|
                self.cursor <= j1 < self.pending@.len() && self.cursor <= j2 < self.pending@.len()
                    && j1 != j2 && self.entry_valid(self.pending@[j1]) && self.entry_valid(
                self.pending@[j2],
            ) implies self.pending@[j1].0 != self.pending@[j2].0 by {
                assert(pre.pending_entry_wf(j1));
                assert(pre.pending_entry_wf(j2));
                assert(pre.entry_valid(pre.pending@[j1]));
                assert(pre.entry_valid(pre.pending@[j2]));
            }
            assert forall|i: int|
                self.slot_live(i) && self.nodes@[i].queued implies exists|j: int|
                self.cursor <= j < self.pending@.len() && self.pending@[j] == (
                i as usize,
                self.nodes@[i].generation,
            ) by {
                assert(pre.slot_live(i) && pre.nodes@[i].queued);
            }
            assert forall|j: int|
                0 <= j < self.running_stack@.len() implies self.running_entry_wf(j) by {
                assert(pre.running_entry_wf(j));
            }
            assert forall|j1: int, j2: int|
                0 <= j1 < self.running_stack@.len() && 0 <= j2 < self.running_stack@.len() && j1
                    != j2 && self.entry_valid(self.running_stack@[j1]) && self.entry_valid(
                self.running_stack@[j2],
            ) implies self.running_stack@[j1].0 != self.running_stack@[j2].0 by {
                assert(pre.running_entry_wf(j1));
                assert(pre.running_entry_wf(j2));
                assert(pre.entry_valid(pre.running_stack@[j1]));
                assert(pre.entry_valid(pre.running_stack@[j2]));
            }
            assert(!self.batch_active ==> self.pending@.len() == self.cursor && (forall|i: int|
                self.slot_live(i) ==> !(#[trigger] self.nodes@[i].resolved)
                    && !self.nodes@[i].queued)) by {
                if !self.batch_active {
                    assert forall|i: int| self.slot_live(i) implies !(
                    #[trigger] self.nodes@[i].resolved) && !self.nodes@[i].queued by {
                        assert(pre.slot_live(i));
                    }
                }
            }
        }
        assert(self.log_wf()) by {
            assert forall|i: int|
                self.slot_live(i) && self.nodes@[i].resolved implies self.run_log@.contains(
                (self.batch_no@, i, self.nodes@[i].generation),
            ) by {
                assert(pre.slot_live(i) && pre.nodes@[i].resolved);
            }
        }
    }

    /// Closing a drained batch — with every per-batch mark cleared, the
    /// queue emptied and the batch index moved on — restores the idle
    /// invariant.
    proof fn lemma_batch_end_wf(self, pre: Runtime)
        requires
            pre.wf_inner(),
            !pre.poisoned,
            self.nodes@.len() == pre.nodes@.len(),
            forall|w: int|
                0 <= w < pre.nodes@.len() ==> self.nodes@[w] == pre.nodes@[w] || self.nodes@[w]
                    == (Node { resolved: false, queued: false, ..pre.nodes@[w] }),
            forall|w: int|
                0 <= w < self.nodes@.len() ==> ((#[trigger] self.nodes@[w]).alive
                    ==> !self.nodes@[w].resolved && !self.nodes@[w].queued
                    && !self.nodes@[w].running),
            self.pending@.len() == 0,
            self.cursor == 0,
            self.batch_active == false,
            self.batch_no@ == pre.batch_no@ + 1,
            self.run_log@ == pre.run_log@,
            self.scopes@ == pre.scopes@,
            self.free_slots@ == pre.free_slots@,
            self.running_stack@ == pre.running_stack@,
            self.poisoned == pre.poisoned,
            self.singletons@ == pre.singletons@,
        ensures
            self.wf_inner(),
    {
        assert forall|i: int| self.slot_live(i) implies self.node_wf(i) by {
            assert(pre.node_wf(i));
            let nd = self.nodes@[i];
            assert forall|k: int| 0 <= k < nd.sources@.len() implies (
            #[trigger] nd.sources@[k]).0 < self.nodes@.len() && nd.sources@[k].1
                <= self.nodes@[nd.sources@[k].0 as int].generation by {
                assert(nd.sources@[k] == pre.nodes@[i].sources@[k]);
            }
            assert forall|k: int| 0 <= k < nd.observers@.len() implies (
            #[trigger] nd.observers@[k]).0 < self.nodes@.len() && nd.observers@[k].1
                <= self.nodes@[nd.observers@[k].0 as int].generation by {
                assert(nd.observers@[k] == pre.nodes@[i].observers@[k]);
            }
        }
        assert forall|i: int| self.slot_live(i) implies self.settled_edges_at(i) by {
            assert(pre.settled_edges_at(i));
            let nd = self.nodes@[i];
            if nd.kind == NodeKind::Memo {
                assert forall|k: int|
                    0 <= k < nd.sources@.len() && self.entry_valid(
                        #[trigger] nd.sources@[k],
                    ) implies self.nodes@[nd.sources@[k].0 as int].observers@.contains(
                    (i as usize, nd.generation),
                ) by {
                    assert(nd.sources@ == pre.nodes@[i].sources@);
                    assert(nd.generation == pre.nodes@[i].generation);
                    assert(pre.entry_valid(nd.sources@[k]));
                    assert(pre.nodes@[nd.sources@[k].0 as int].observers@
                        == self.nodes@[nd.sources@[k].0 as int].observers@);
                }
            }
        }
        assert forall|i: int| self.slot_live(i) implies self.observer_backed_at(i) by {
            assert(pre.observer_backed_at(i));
            let nd = self.nodes@[i];
            assert forall|k: int|
                0 <= k < nd.observers@.len() && self.entry_valid(#[trigger] nd.observers@[k])
                    && self.nodes@[nd.observers@[k].0 as int].kind
                    == NodeKind::Memo implies self.nodes@[nd.observers@[k].0 as int].sources@.contains(
                (i as usize, nd.generation),
            ) by {
                assert(nd.observers@ == pre.nodes@[i].observers@);
                assert(nd.generation == pre.nodes@[i].generation);
                assert(pre.entry_valid(nd.observers@[k]));
                assert(pre.nodes@[nd.observers@[k].0 as int].sources@
                    == self.nodes@[nd.observers@[k].0 as int].sources@);
            }
        }
        assert forall|i: int| self.slot_live(i) implies self.records_current_at(i) by {
            assert(pre.records_current_at(i));
            let nd = self.nodes@[i];
            if nd.kind == NodeKind::Memo && (nd.state == NodeState::Clean || nd.running) {
                assert forall|k: int|
                    0 <= k < nd.sources@.len() && self.entry_valid(
                        #[trigger] nd.sources@[k],
                    ) implies nd.source_versions@[k]
                    == self.nodes@[nd.sources@[k].0 as int].version by {
                    assert(nd.sources@ == pre.nodes@[i].sources@);
                    assert(nd.source_versions@ == pre.nodes@[i].source_versions@);
                    assert(pre.nodes@[i].state == nd.state && pre.nodes@[i].running == nd.running
                        && pre.nodes@[i].kind == nd.kind);
                    assert(pre.entry_valid(nd.sources@[k]));
                }
            }
        }
        assert forall|i: int| self.slot_live(i) implies self.dirt_closed_at(i) by {
            assert(pre.dirt_closed_at(i));
            let nd = self.nodes@[i];
            if nd.kind == NodeKind::Memo && nd.state != NodeState::Clean {
                assert forall|k: int|
                    0 <= k < nd.observers@.len() && self.entry_valid(#[trigger] nd.observers@[k])
                        && self.nodes@[nd.observers@[k].0 as int].kind
                        == NodeKind::Memo implies self.marked(nd.observers@[k].0 as int) by {
                    assert(nd.observers@ == pre.nodes@[i].observers@);
                    assert(pre.nodes@[i].state == nd.state && pre.nodes@[i].kind == nd.kind);
                    assert(pre.entry_valid(nd.observers@[k]));
                    assert(pre.marked(nd.observers@[k].0 as int));
                    assert(self.nodes@[nd.observers@[k].0 as int].state
                        == pre.nodes@[nd.observers@[k].0 as int].state);
                }
            }
        }
        assert forall|i: int| self.slot_live(i) implies self.owned_at(i) by {
            assert(pre.owned_at(i));
        }
        assert forall|sc: int|
            0 <= sc < self.scopes@.len() && self.scopes@[sc].alive implies self.scope_wf(sc) by {
            assert(pre.scope_wf(sc));
        }
        assert(self.free_wf()) by {
            assert forall|j: int|
                0 <= j < self.free_slots@.len() implies (#[trigger] self.free_slots@[j] as int)
                < self.nodes@.len() && !self.nodes@[self.free_slots@[j] as int].alive by {
                assert(pre.free_slots@[j] == self.free_slots@[j]);
                assert(!pre.nodes@[pre.free_slots@[j] as int].alive);
            }
        }
        assert(self.scheduler_wf())  by {
            assert forall|j: int|
                0 <= j < self.running_stack@.len() implies self.running_entry_wf(j) by {
                assert(pre.running_entry_wf(j));
                let e = self.running_stack@[j];
                if self.entry_valid(e) {
                    assert(self.nodes@[e.0 as int].alive);
                    assert(!self.nodes@[e.0 as int].running);
                    assert(pre.entry_valid(e) ==> pre.nodes@[e.0 as int].running);
                    assert(!pre.nodes@[e.0 as int].running || self.nodes@[e.0 as int].running);
                    assert(false);
                }
            }
        }
        assert(self.log_wf()) by {
            assert forall|j: int| 0 <= j < self.run_log@.len() implies (
            #[trigger] self.run_log@[j]).0 <= self.batch_no@ && 0 <= self.run_log@[j].1
                < self.nodes@.len() && self.run_log@[j].2
                <= self.nodes@[self.run_log@[j].1].generation by {
                assert(pre.run_log@[j] == self.run_log@[j]);
                assert(self.nodes@[self.run_log@[j].1].generation
                    == pre.nodes@[pre.run_log@[j].1].generation);
            }
        }
    }

    /// Ends the running effect's body. Cleanup callbacks it registered
    /// via [`Runtime::register_cleanup`] stay with the effect until its
    /// next run or disposal.
    pub fn finish_effect(&mut self, e: NodeId) -> (r: Result<(), RuntimeError>)
        requires
            old(self).wf(),
            old(self).valid(e) ==> old(self).is_effect(e) && old(self).slot_running(e.slot as int)
                && old(self).tracking() && old(self).run_stack().last() == (e.slot, e.generation),
        ensures
            final(self).wf(),
            old(self).is_poisoned() ==> r == Err::<(), _>(RuntimeError::CyclicDependency) && *final(self) == *old(self),
            !old(self).is_poisoned() && !old(self).valid(e) ==> r == Err::<
                (),
                _,
            >(RuntimeError::UseAfterDispose) && *final(self) == *old(self),
            !old(self).is_poisoned() && old(self).valid(e) ==> {
                &&& r == Ok::<_, RuntimeError>(())
                &&& !final(self).is_poisoned()
                &&& final(self).valid(e)
                &&& !final(self).slot_running(e.slot as int)
                &&& final(self).slot_resolved(e.slot as int) == old(self).slot_resolved(
                    e.slot as int,
                )
                &&& final(self).run_stack() == old(self).run_stack().drop_last()
                &&& final(self).same_scopes(*old(self))
                &&& final(self).in_batch() == old(self).in_batch()
                &&& final(self).effect_runs() == old(self).effect_runs()
                &&& final(self).batch_index() == old(self).batch_index()
                &&& (forall|i: int|
                    0 <= i < old(self).num_slots() ==> old(self).cell_preserved(*final(self), i))
            },
    {
        if self.poisoned {
            return Err(RuntimeError::CyclicDependency);
        }
        if e.slot >= self.nodes.len() || !self.nodes[e.slot].alive || self.nodes[e.slot].generation
            != e.generation {
            return Err(RuntimeError::UseAfterDispose);
        }
        let ghost pre = *old(self);
        let popped = self.running_stack.pop();
        self.nodes[e.slot].running = false;
        proof {
            assert(self.nodes@ =~= pre.nodes@.update(
                e.slot as int,
                (Node { running: false, ..pre.nodes@[e.slot as int] }),
            ));
            assert(pre.node_wf(e.slot as int));
            assert(pre.nodes@[e.slot as int].kind == NodeKind::Effect);
            assert(self.nodes@[e.slot as int].kind == NodeKind::Effect);
            self.lemma_nodes_flags_wf(pre, e.slot as int);
            assert forall|i: int| self.slot_live(i) implies self.records_current_at(i) by {
                if i != e.slot as int {
                    assert(self.records_current_at(i));
                } else {
                    assert(self.nodes@[i].kind == NodeKind::Effect);
                }
            }
            assert forall|i: int| self.slot_live(i) implies self.dirt_closed_at(i) by {
                assert(pre.dirt_closed_at(i));
                let nd = self.nodes@[i];
                if nd.kind == NodeKind::Memo && nd.state != NodeState::Clean {
                    assert forall|k: int|
                        0 <= k < nd.observers@.len() && self.entry_valid(
                            #[trigger] nd.observers@[k],
                        ) && self.nodes@[nd.observers@[k].0 as int].kind
                            == NodeKind::Memo implies self.marked(nd.observers@[k].0 as int) by {
                        assert(nd == pre.nodes@[i]);
                        assert(pre.entry_valid(nd.observers@[k]));
                        assert(nd.observers@[k].0 as int != e.slot as int);
                        assert(pre.marked(nd.observers@[k].0 as int));
                    }
                }
            }
            assert(self.scheduler_wf()) by {
                assert forall|j: int|
                    self.cursor <= j < self.pending@.len() implies self.pending_entry_wf(j) by {
                    assert(pre.pending_entry_wf(j));
                    let en = self.pending@[j];
                    if en.0 as int == e.slot as int && self.entry_valid(en) {
                        assert(pre.entry_valid(en));
                        assert(pre.nodes@[e.slot as int].queued);
                        assert(pre.node_wf(e.slot as int));
                        assert(false);
                    }
                }
                assert forall|j1: int, j2: int|
                    self.cursor <= j1 < self.pending@.len() && self.cursor <= j2
                        < self.pending@.len() && j1 != j2 && self.entry_valid(self.pending@[j1])
                        && self.entry_valid(self.pending@[j2]) implies self.pending@[j1].0
                    != self.pending@[j2].0 by {
                    assert(pre.pending_entry_wf(j1));
                    assert(pre.pending_entry_wf(j2));
                    assert(pre.entry_valid(pre.pending@[j1]));
                    assert(pre.entry_valid(pre.pending@[j2]));
                }
                assert forall|i: int|
                    self.slot_live(i) && self.nodes@[i].queued implies exists|j: int|
                    self.cursor <= j < self.pending@.len() && self.pending@[j] == (
                    i as usize,
                    self.nodes@[i].generation,
                ) by {
                    assert(pre.slot_live(i) && pre.nodes@[i].queued);
                }
                assert forall|j: int|
                    0 <= j < self.running_stack@.len() implies self.running_entry_wf(j) by {
                    assert(self.running_stack@[j] == pre.running_stack@[j]);
                    assert(pre.running_entry_wf(j));
                    if self.running_stack@[j].0 as int == e.slot as int && self.entry_valid(
                        self.running_stack@[j],
                    ) {
                        assert(pre.entry_valid(pre.running_stack@[j]));
                        assert(pre.entry_valid(pre.running_stack@[pre.running_stack@.len() - 1]));
                        assert(j != pre.running_stack@.len() - 1);
                        assert(false);
                    }
                }
                assert forall|j1: int, j2: int|
                    0 <= j1 < self.running_stack@.len() && 0 <= j2 < self.running_stack@.len()
                        && j1 != j2 && self.entry_valid(self.running_stack@[j1])
                        && self.entry_valid(self.running_stack@[j2])
                        implies self.running_stack@[j1].0 != self.running_stack@[j2].0 by {
                    assert(self.running_stack@[j1] == pre.running_stack@[j1]);
                    assert(self.running_stack@[j2] == pre.running_stack@[j2]);
                    assert(pre.running_entry_wf(j1));
                    assert(pre.running_entry_wf(j2));
                    if pre.running_stack@[j1].0 as int == e.slot as int
                        || pre.running_stack@[j2].0 as int == e.slot as int {
                    } else {
                        assert(pre.entry_valid(pre.running_stack@[j1]));
                        assert(pre.entry_valid(pre.running_stack@[j2]));
                    }
                }
                assert forall|i: int|
                    self.slot_live(i) && self.nodes@[i].running implies exists|j: int|
                    0 <= j < self.running_stack@.len() && self.running_stack@[j] == (
                    i as usize,
                    self.nodes@[i].generation,
                ) by {
                    assert(i != e.slot as int);
                    assert(pre.slot_live(i) && pre.nodes@[i].running);
                    let j = choose|j: int|
                        0 <= j < pre.running_stack@.len() && pre.running_stack@[j] == (
                        i as usize,
                        pre.nodes@[i].generation,
                        );
                    assert(j != pre.running_stack@.len() - 1);
                    assert(self.running_stack@[j] == (i as usize, self.nodes@[i].generation));
                }
                assert(!self.batch_active ==> self.pending@.len() == self.cursor && (forall|
                    i: int,
                |
                    self.slot_live(i) ==> !(#[trigger] self.nodes@[i].resolved)
                        && !self.nodes@[i].queued)) by {
                    if !self.batch_active {
                        assert forall|i: int| self.slot_live(i) implies !(
                        #[trigger] self.nodes@[i].resolved) && !self.nodes@[i].queued by {
                            assert(pre.slot_live(i));
                        }
                    }
                }
            }
            assert(self.log_wf()) by {
                assert forall|i: int|
                    self.slot_live(i) && self.nodes@[i].resolved implies self.run_log@.contains(
                    (self.batch_no@, i, self.nodes@[i].generation),
                ) by {
                    assert(pre.slot_live(i) && pre.nodes@[i].resolved);
                }
            }
            assert forall|i: int| 0 <= i < pre.num_slots() implies pre.cell_preserved(
                *self,
                i,
            ) by {
                if i != e.slot as int {
                    assert(self.nodes@[i] == pre.nodes@[i]);
                }
            }
        }
        Ok(())
    }

    /// Registers a cleanup callback (a caller-owned token) on the
    /// effect currently running: it will be handed back, newest first,
    /// before the effect's next run, or on disposal.
    pub fn register_cleanup(&mut self, token: u64) -> (r: Result<(), RuntimeError>)
        requires
            old(self).wf(),
        ensures
            final(self).wf(),
            old(self).is_poisoned() ==> r == Err::<(), _>(RuntimeError::CyclicDependency) && *final(self) == *old(self),
            !old(self).is_poisoned() && !old(self).tracking() ==> r == Err::<
                (),
                _,
            >(RuntimeError::UseAfterDispose) && *final(self) == *old(self),
            !old(self).is_poisoned() && old(self).tracking() ==> (match r {
                Ok(()) => {
                    &&& final(self).slot_cleanups(old(self).current_observer()) == old(
                        self,
                    ).slot_cleanups(old(self).current_observer()).push(token)
                    &&& final(self).same_scopes(*old(self))
                    &&& !final(self).is_poisoned()
                    &&& (forall|i: int|
                        0 <= i < old(self).num_slots() && i != old(self).current_observer()
                            ==> old(self).cell_preserved(*final(self), i))
                },
                Err(err) => err == RuntimeError::UseAfterDispose && *final(self) == *old(self),
            }),
            !old(self).is_poisoned() && old(self).tracking() && old(self).edge_live(
                old(self).run_stack().last(),
            ) && old(self).slot_kind(old(self).run_stack().last().0 as int) == NodeKind::Effect
                ==> r is Ok,
    {
        if self.poisoned {
            return Err(RuntimeError::CyclicDependency);
        }
        if self.running_stack.len() == 0 {
            return Err(RuntimeError::UseAfterDispose);
        }
        let top = self.running_stack[self.running_stack.len() - 1];
        if top.0 >= self.nodes.len() || !self.nodes[top.0].alive || self.nodes[top.0].generation
            != top.1 {
            return Err(RuntimeError::UseAfterDispose);
        }
        let is_effect_top = match self.nodes[top.0].kind {
            NodeKind::Effect => true,
            _ => false,
        };
        if !is_effect_top {
            return Err(RuntimeError::UseAfterDispose);
        }
        let ghost pre = *old(self);
        self.nodes[top.0].cleanups.push(token);
        proof {
            assert(self.nodes@ =~= pre.nodes@.update(
                top.0 as int,
                (Node { cleanups: self.nodes@[top.0 as int].cleanups, ..pre.nodes@[top.0 as int] }),
            ));
            self.lemma_take_cleanups_wf(pre, top.0 as int);
            assert forall|i: int|
                0 <= i < pre.num_slots() && i != pre.current_observer() implies pre.cell_preserved(
                *self,
                i,
            ) by {
                assert(self.nodes@[i] == pre.nodes@[i]);
            }
        }
        Ok(())
    }

    /// Advancing the cursor past superseded queue entries preserves the
    /// invariant, provided every live queued effect still has an entry
    /// ahead of the cursor.
    proof fn lemma_cursor_advance_wf(self, pre: Runtime)
        requires
            pre.wf_inner(),
            self == (Runtime { cursor: self.cursor, ..pre }),
            pre.cursor <= self.cursor <= self.pending@.len(),
            forall|i: int|
                #![trigger self.nodes@[i].queued]
                self.slot_live(i) && self.nodes@[i].queued ==> exists|j: int|
                    self.cursor <= j < self.pending@.len() && self.pending@[j] == (
                    i as usize,
                    self.nodes@[i].generation,
                    ),
        ensures
            self.wf_inner(),
    {
        assert forall|i: int| self.slot_live(i) implies self.node_wf(i) by {
            assert(pre.node_wf(i));
        }
        assert forall|i: int| self.slot_live(i) implies self.settled_edges_at(i) by {
            assert(pre.settled_edges_at(i));
        }
        assert forall|i: int| self.slot_live(i) implies self.observer_backed_at(i) by {
            assert(pre.observer_backed_at(i));
        }
        assert forall|i: int| self.slot_live(i) implies self.records_current_at(i) by {
            assert(pre.records_current_at(i));
        }
        assert forall|i: int| self.slot_live(i) implies self.dirt_closed_at(i) by {
            assert(pre.dirt_closed_at(i));
        }
        assert forall|i: int| self.slot_live(i) implies self.owned_at(i) by {
            assert(pre.owned_at(i));
        }
        assert forall|sc: int|
            0 <= sc < self.scopes@.len() && self.scopes@[sc].alive implies self.scope_wf(sc) by {
            assert(pre.scope_wf(sc));
        }
        assert(self.free_wf()) by {
            assert forall|j: int|
                0 <= j < self.free_slots@.len() implies (#[trigger] self.free_slots@[j] as int)
                < self.nodes@.len() && !self.nodes@[self.free_slots@[j] as int].alive by {
                assert(pre.free_slots@[j] == self.free_slots@[j]);
            }
        }
        assert(self.scheduler_wf()) by {
            assert forall|j: int|
                self.cursor <= j < self.pending@.len() implies self.pending_entry_wf(j) by {
                assert(pre.pending_entry_wf(j));
            }
            assert forall|j1: int, j2: int|
                self.cursor <= j1 < self.pending@.len() && self.cursor <= j2 < self.pending@.len()
                    && j1 != j2 && self.entry_valid(self.pending@[j1]) && self.entry_valid(
                self.pending@[j2],
            ) implies self.pending@[j1].0 != self.pending@[j2].0 by {
                assert(pre.pending_entry_wf(j1));
                assert(pre.pending_entry_wf(j2));
                assert(pre.entry_valid(pre.pending@[j1]));
                assert(pre.entry_valid(pre.pending@[j2]));
            }
            assert forall|j: int|
                0 <= j < self.running_stack@.len() implies self.running_entry_wf(j) by {
                assert(pre.running_entry_wf(j));
            }
        }
        assert(self.log_wf()) by {
            assert forall|i: int|
                self.slot_live(i) && self.nodes@[i].resolved implies self.run_log@.contains(
                (self.batch_no@, i, self.nodes@[i].generation),
            ) by {
                assert(pre.slot_live(i) && pre.nodes@[i].resolved);
            }
        }
    }

    // ----- disposal ----------------------------------------------------

    /// The child-scope slots of the scope at `sc`, in creation order.
    pub closed spec fn scope_children(self, sc: int) -> Seq<usize> {
        self.scopes@[sc].children@
    }

    /// The node slots owned by the scope at `sc`, in creation order. An
    /// entry whose slot was reclaimed for another scope is stale.
    pub closed spec fn scope_node_list(self, sc: int) -> Seq<usize> {
        self.scopes@[sc].nodes@
    }

    /// The scope `c` lies in the ownership subtree rooted at `root`: it
    /// is `root` itself, or lies in the subtree of one of its children.
    /// Disposal never reaches outside this subtree.
    pub open spec fn scope_in_subtree(self, c: int, root: int) -> bool
        decreases self.num_scopes() - root, self.scope_children(root).len() + 1,
    {
        c == root || (0 <= root && root < self.num_scopes() && self.subtree_via_child(
            root,
            self.scope_children(root).len() as int,
            c,
        ))
    }

    /// `c` lies in the subtree of one of the first `k` children of
    /// `root`.
    pub open spec fn subtree_via_child(self, root: int, k: int, c: int) -> bool
        decreases self.num_scopes() - root, k,
    {
        if k <= 0 || root < 0 {
            false
        } else {
            (root < self.scope_children(root)[k - 1] as int && (self.scope_children(root)[k
                - 1] as int) < self.num_scopes() && self.scope_in_subtree(
                c,
                self.scope_children(root)[k - 1] as int,
            )) || self.subtree_via_child(root, k - 1, c)
        }
    }

    /// Membership through one child is monotone in the child count.
    proof fn lemma_via_child_mono(self, root: int, j: int, k: int, c: int)
        requires
            0 <= j <= k,
            self.subtree_via_child(root, j, c),
        ensures
            self.subtree_via_child(root, k, c),
        decreases k,
    {
        if j < k {
            self.lemma_via_child_mono(root, j, k - 1, c);
        }
    }

    /// A scope reached through a child of `root` lies in `root`'s
    /// subtree.
    proof fn lemma_subtree_step(self, root: int, k: int, c: int)
        requires
            0 <= root < self.num_scopes(),
            0 <= k < self.scope_children(root).len(),
            root < self.scope_children(root)[k] as int,
            (self.scope_children(root)[k] as int) < self.num_scopes(),
            self.scope_in_subtree(c, self.scope_children(root)[k] as int),
        ensures
            self.scope_in_subtree(c, root),
    {
        assert(self.subtree_via_child(root, k + 1, c));
        self.lemma_via_child_mono(root, k + 1, self.scope_children(root).len() as int, c);
    }

    /// Subtree membership is transitive.
    proof fn lemma_subtree_trans(self, c: int, b: int, a: int)
        requires
            self.scope_in_subtree(b, a),
            self.scope_in_subtree(c, b),
        ensures
            self.scope_in_subtree(c, a),
        decreases self.num_scopes() - a, self.scope_children(a).len() + 1,
    {
        if b != a {
            self.lemma_via_trans(c, b, a, self.scope_children(a).len() as int);
        }
    }

    proof fn lemma_via_trans(self, c: int, b: int, a: int, k: int)
        requires
            self.subtree_via_child(a, k, b),
            self.scope_in_subtree(c, b),
        ensures
            self.subtree_via_child(a, k, c),
        decreases self.num_scopes() - a, k,
    {
        let ch = self.scope_children(a)[k - 1] as int;
        if a < ch && ch < self.num_scopes() && self.scope_in_subtree(b, ch) {
            self.lemma_subtree_trans(c, b, ch);
        } else {
            self.lemma_via_trans(c, b, a, k - 1);
        }
    }

    /// The pending cleanup tokens of the newest `k` nodes owned by the
    /// scope at `sc`, newest node first, each node's list newest first.
    /// A stale entry (a slot reclaimed for another scope) contributes
    /// nothing, and a slot listed more than once counts only at its
    /// newest entry, because disposal retires the slot there.
    pub open spec fn owned_cleanups_rec(self, sc: int, k: int) -> Seq<u64>
        decreases k,
    {
        if k <= 0 {
            Seq::empty()
        } else {
            (if (self.scope_node_list(sc)[k - 1] as int) < self.num_slots() && self.slot_live(
                self.scope_node_list(sc)[k - 1] as int,
            ) && self.slot_scope(self.scope_node_list(sc)[k - 1] as int) == sc && (forall|j: int|
                k <= j < self.scope_node_list(sc).len() ==> (#[trigger] self.scope_node_list(sc)[j])
                    != self.scope_node_list(sc)[k - 1]) {
                self.slot_cleanups(self.scope_node_list(sc)[k - 1] as int).reverse()
            } else {
                Seq::empty()
            }) + self.owned_cleanups_rec(sc, k - 1)
        }
    }

    /// The cleanup tokens disposal hands out for the scope itself,
    /// before any of its child scopes': its own callbacks newest first,
    /// then its owned nodes' pending callbacks, newest node first.
    pub open spec fn scope_dispose_prefix(self, s: ScopeId) -> Seq<u64> {
        self.scope_cleanups(s).reverse() + self.owned_cleanups_rec(
            s.slot as int,
            self.scope_node_list(s.slot as int).len() as int,
        )
    }

    /// How many scopes the disposal traversal can still visit: every
    /// live scope is popped at most once (it is retired on its pop) and
    /// pays there for pushing its children.
    spec fn scope_weight(scopes: Seq<ScopeData>, upto: int) -> int
        decreases upto,
    {
        if upto <= 0 {
            0
        } else {
            Runtime::scope_weight(scopes, upto - 1) + if scopes[upto - 1].alive {
                1 + scopes[upto - 1].children@.len() as int
            } else {
                0
            }
        }
    }

    proof fn lemma_scope_weight_nonneg(scopes: Seq<ScopeData>, upto: int)
        ensures
            Runtime::scope_weight(scopes, upto) >= 0,
        decreases upto,
    {
        if upto > 0 {
            Runtime::lemma_scope_weight_nonneg(scopes, upto - 1);
        }
    }

    /// Retiring one live scope pays for one visit and the push of
    /// exactly its children.
    proof fn lemma_scope_weight_kill(a: Seq<ScopeData>, b: Seq<ScopeData>, upto: int, w: int)
        requires
            0 <= w < upto,
            forall|i: int| 0 <= i < upto && i != w ==> #[trigger] b[i] == a[i],
            a[w].alive,
            !b[w].alive,
        ensures
            Runtime::scope_weight(b, upto) == Runtime::scope_weight(a, upto) - 1
                - a[w].children@.len(),
        decreases upto,
    {
        if upto > 0 {
            if w == upto - 1 {
                assert forall|i: int| 0 <= i < upto - 1 implies #[trigger] b[i] == a[i] by {}
                Runtime::lemma_scope_weight_same(a, b, upto - 1);
            } else {
                Runtime::lemma_scope_weight_kill(a, b, upto - 1, w);
            }
        }
    }

    proof fn lemma_scope_weight_same(a: Seq<ScopeData>, b: Seq<ScopeData>, upto: int)
        requires
            forall|i: int| 0 <= i < upto ==> #[trigger] b[i] == a[i],
        ensures
            Runtime::scope_weight(b, upto) == Runtime::scope_weight(a, upto),
        decreases upto,
    {
        if upto > 0 {
            Runtime::lemma_scope_weight_same(a, b, upto - 1);
        }
    }

    /// Killing one live node preserves the invariant: every stamped
    /// edge, queue entry, stack entry or log line naming it goes stale,
    /// and stale entries are ignored everywhere.
    proof fn lemma_kill_node_wf(self, pre: Runtime, x: int)
        requires
            pre.wf_inner(),
            !pre.poisoned,
            0 <= x <= usize::MAX,
            0 <= x < pre.nodes@.len(),
            pre.nodes@[x].alive,
            self.nodes@ == pre.nodes@.update(x, (Node { alive: false, ..pre.nodes@[x] })),
            self.free_slots@ == pre.free_slots@.push(x as usize),
            self == (Runtime { nodes: self.nodes, free_slots: self.free_slots, ..pre }),
        ensures
            self.wf_inner(),
    {
        assert(pre.node_wf(x));
        assert forall|i: int| self.slot_live(i) implies self.node_wf(i) by {
            assert(i != x);
            assert(pre.node_wf(i));
            let nd = self.nodes@[i];
            assert forall|k: int| 0 <= k < nd.sources@.len() implies (
            #[trigger] nd.sources@[k]).0 < self.nodes@.len() && nd.sources@[k].1
                <= self.nodes@[nd.sources@[k].0 as int].generation by {
                assert(nd.sources@[k] == pre.nodes@[i].sources@[k]);
            }
            assert forall|k: int| 0 <= k < nd.observers@.len() implies (
            #[trigger] nd.observers@[k]).0 < self.nodes@.len() && nd.observers@[k].1
                <= self.nodes@[nd.observers@[k].0 as int].generation by {
                assert(nd.observers@[k] == pre.nodes@[i].observers@[k]);
            }
        }
        assert forall|i: int| self.slot_live(i) implies self.settled_edges_at(i) by {
            assert(pre.settled_edges_at(i));
            let nd = self.nodes@[i];
            if nd.kind == NodeKind::Memo {
                assert forall|k: int|
                    0 <= k < nd.sources@.len() && self.entry_valid(
                        #[trigger] nd.sources@[k],
                    ) implies self.nodes@[nd.sources@[k].0 as int].observers@.contains(
                    (i as usize, nd.generation),
                ) by {
                    assert(nd == pre.nodes@[i]);
                    assert(nd.sources@[k].0 as int != x);
                    assert(pre.entry_valid(nd.sources@[k]));
                    assert(pre.nodes@[nd.sources@[k].0 as int].observers@
                        == self.nodes@[nd.sources@[k].0 as int].observers@);
                }
            }
        }
        assert forall|i: int| self.slot_live(i) implies self.observer_backed_at(i) by {
            assert(pre.observer_backed_at(i));
            let nd = self.nodes@[i];
            assert forall|k: int|
                0 <= k < nd.observers@.len() && self.entry_valid(#[trigger] nd.observers@[k])
                    && self.nodes@[nd.observers@[k].0 as int].kind
                    == NodeKind::Memo implies self.nodes@[nd.observers@[k].0 as int].sources@.contains(
                (i as usize, nd.generation),
            ) by {
                assert(nd == pre.nodes@[i]);
                assert(nd.observers@[k].0 as int != x);
                assert(pre.entry_valid(nd.observers@[k]));
                assert(pre.nodes@[nd.observers@[k].0 as int].sources@
                    == self.nodes@[nd.observers@[k].0 as int].sources@);
            }
        }
        assert forall|i: int| self.slot_live(i) implies self.records_current_at(i) by {
            assert(pre.records_current_at(i));
            let nd = self.nodes@[i];
            if nd.kind == NodeKind::Memo && (nd.state == NodeState::Clean || nd.running) {
                assert forall|k: int|
                    0 <= k < nd.sources@.len() && self.entry_valid(
                        #[trigger] nd.sources@[k],
                    ) implies nd.source_versions@[k]
                    == self.nodes@[nd.sources@[k].0 as int].version by {
                    assert(nd == pre.nodes@[i]);
                    assert(nd.sources@[k].0 as int != x);
                    assert(pre.entry_valid(nd.sources@[k]));
                }
            }
        }
        assert forall|i: int| self.slot_live(i) implies self.dirt_closed_at(i) by {
            assert(pre.dirt_closed_at(i));
            let nd = self.nodes@[i];
            if nd.kind == NodeKind::Memo && nd.state != NodeState::Clean {
                assert forall|k: int|
                    0 <= k < nd.observers@.len() && self.entry_valid(#[trigger] nd.observers@[k])
                        && self.nodes@[nd.observers@[k].0 as int].kind
                        == NodeKind::Memo implies self.marked(nd.observers@[k].0 as int) by {
                    assert(nd == pre.nodes@[i]);
                    assert(nd.observers@[k].0 as int != x);
                    assert(pre.entry_valid(nd.observers@[k]));
                    assert(pre.marked(nd.observers@[k].0 as int));
                }
            }
        }
        assert forall|i: int| self.slot_live(i) implies self.owned_at(i) by {
            assert(pre.owned_at(i));
        }
        assert forall|sc: int|
            0 <= sc < self.scopes@.len() && self.scopes@[sc].alive implies self.scope_wf(sc) by {
            assert(pre.scope_wf(sc));
        }
        assert(self.free_wf()) by {
            let fl = self.free_slots@.len() as int;
            assert forall|j: int| 0 <= j < fl implies (#[trigger] self.free_slots@[j] as int)
                < self.nodes@.len() && !self.nodes@[self.free_slots@[j] as int].alive by {
                if j < fl - 1 {
                    assert(self.free_slots@[j] == pre.free_slots@[j]);
                } else {
                    assert(self.free_slots@[j] == x as usize);
                }
            }
            assert forall|j1: int, j2: int|
                0 <= j1 < fl && 0 <= j2 < fl && j1 != j2 implies self.free_slots@[j1]
                != self.free_slots@[j2] by {
                if j1 < fl - 1 && j2 < fl - 1 {
                    assert(self.free_slots@[j1] == pre.free_slots@[j1]);
                    assert(self.free_slots@[j2] == pre.free_slots@[j2]);
                } else {
                    let jo = if j1 < fl - 1 {
                        j1
                    } else {
                        j2
                    };
                    assert(self.free_slots@[jo] == pre.free_slots@[jo]);
                    if self.free_slots@[jo] == x as usize {
                        assert(!pre.nodes@[x].alive);
                        assert(false);
                    }
                }
            }
        }
        assert(self.scheduler_wf()) by {
            assert forall|j: int|
                self.cursor <= j < self.pending@.len() implies self.pending_entry_wf(j) by {
                assert(pre.pending_entry_wf(j));
            }
            assert forall|j1: int, j2: int|
                self.cursor <= j1 < self.pending@.len() && self.cursor <= j2 < self.pending@.len()
                    && j1 != j2 && self.entry_valid(self.pending@[j1]) && self.entry_valid(
                self.pending@[j2],
            ) implies self.pending@[j1].0 != self.pending@[j2].0 by {
                assert(pre.pending_entry_wf(j1));
                assert(pre.pending_entry_wf(j2));
                assert(pre.entry_valid(pre.pending@[j1]));
                assert(pre.entry_valid(pre.pending@[j2]));
            }
            assert forall|i: int|
                self.slot_live(i) && self.nodes@[i].queued implies exists|j: int|
                self.cursor <= j < self.pending@.len() && self.pending@[j] == (
                i as usize,
                self.nodes@[i].generation,
            ) by {
                assert(i != x);
                assert(pre.slot_live(i) && pre.nodes@[i].queued);
            }
            assert forall|j: int|
                0 <= j < self.running_stack@.len() implies self.running_entry_wf(j) by {
                assert(pre.running_entry_wf(j));
            }
            assert forall|j1: int, j2: int|
                0 <= j1 < self.running_stack@.len() && 0 <= j2 < self.running_stack@.len() && j1
                    != j2 && self.entry_valid(self.running_stack@[j1]) && self.entry_valid(
                self.running_stack@[j2],
            ) implies self.running_stack@[j1].0 != self.running_stack@[j2].0 by {
                assert(pre.running_entry_wf(j1));
                assert(pre.running_entry_wf(j2));
                assert(pre.entry_valid(pre.running_stack@[j1]));
                assert(pre.entry_valid(pre.running_stack@[j2]));
            }
            assert(!self.batch_active ==> self.pending@.len() == self.cursor && (forall|i: int|
                self.slot_live(i) ==> !(#[trigger] self.nodes@[i].resolved)
                    && !self.nodes@[i].queued)) by {
                if !self.batch_active {
                    assert forall|i: int| self.slot_live(i) implies !(
                    #[trigger] self.nodes@[i].resolved) && !self.nodes@[i].queued by {
                        assert(pre.slot_live(i));
                    }
                }
            }
        }
        assert(self.log_wf()) by {
            assert forall|i: int|
                self.slot_live(i) && self.nodes@[i].resolved implies self.run_log@.contains(
                (self.batch_no@, i, self.nodes@[i].generation),
            ) by {
                assert(i != x);
                assert(pre.slot_live(i) && pre.nodes@[i].resolved);
            }
        }
    }

    /// Marking a scope (none of whose nodes is still alive) as dead and
    /// emptying its lists preserves the invariant.
    proof fn lemma_scope_dead_wf(self, pre: Runtime, sc: int)
        requires
            pre.wf_inner(),
            !pre.poisoned,
            0 <= sc < pre.scopes@.len(),
            forall|i: int| pre.slot_live(i) ==> (#[trigger] pre.nodes@[i].scope as int) != sc,
            self.scopes@.len() == pre.scopes@.len(),
            forall|w: int| 0 <= w < pre.scopes@.len() && w != sc ==> self.scopes@[w]
                == pre.scopes@[w],
            !self.scopes@[sc].alive,
            self == (Runtime { scopes: self.scopes, ..pre }),
        ensures
            self.wf_inner(),
    {
        assert forall|i: int| self.slot_live(i) implies self.node_wf(i) by {
            assert(pre.node_wf(i));
        }
        assert forall|i: int| self.slot_live(i) implies self.settled_edges_at(i) by {
            assert(pre.settled_edges_at(i));
        }
        assert forall|i: int| self.slot_live(i) implies self.observer_backed_at(i) by {
            assert(pre.observer_backed_at(i));
        }
        assert forall|i: int| self.slot_live(i) implies self.records_current_at(i) by {
            assert(pre.records_current_at(i));
        }
        assert forall|i: int| self.slot_live(i) implies self.dirt_closed_at(i) by {
            assert(pre.dirt_closed_at(i));
        }
        assert forall|i: int| self.slot_live(i) implies self.owned_at(i) by {
            assert(pre.owned_at(i));
            assert(pre.nodes@[i].scope as int != sc);
            assert(self.scopes@[self.nodes@[i].scope as int] == pre.scopes@[pre.nodes@[i].scope as int]);
        }
        assert forall|w: int|
            0 <= w < self.scopes@.len() && self.scopes@[w].alive implies self.scope_wf(w) by {
            assert(w != sc);
            assert(pre.scope_wf(w));
        }
        assert(self.free_wf()) by {
            assert forall|j: int|
                0 <= j < self.free_slots@.len() implies (#[trigger] self.free_slots@[j] as int)
                < self.nodes@.len() && !self.nodes@[self.free_slots@[j] as int].alive by {
                assert(pre.free_slots@[j] == self.free_slots@[j]);
            }
        }
        assert(self.scheduler_wf()) by {
            assert forall|j: int|
                self.cursor <= j < self.pending@.len() implies self.pending_entry_wf(j) by {
                assert(pre.pending_entry_wf(j));
            }
            assert forall|i: int|
                self.slot_live(i) && self.nodes@[i].queued implies exists|j: int|
                self.cursor <= j < self.pending@.len() && self.pending@[j] == (
                i as usize,
                self.nodes@[i].generation,
            ) by {
                assert(pre.slot_live(i) && pre.nodes@[i].queued);
            }
            assert forall|j: int|
                0 <= j < self.running_stack@.len() implies self.running_entry_wf(j) by {
                assert(pre.running_entry_wf(j));
            }
        }
        assert(self.log_wf()) by {
            assert forall|i: int|
                self.slot_live(i) && self.nodes@[i].resolved implies self.run_log@.contains(
                (self.batch_no@, i, self.nodes@[i].generation),
            ) by {
                assert(pre.slot_live(i) && pre.nodes@[i].resolved);
            }
        }
    }

    /// Disposes a scope and, depth-first, everything it owns. The
    /// returned tokens are the cleanup callbacks to invoke, already in
    /// order: for each scope, its own callbacks in reverse registration
    /// order, then the pending cleanups of its effects (newest effect
    /// first, each list in reverse registration order), then its child
    /// scopes in reverse creation order, recursively. Every node of the
    /// subtree is dead afterwards: any handle to one now fails with
    /// `UseAfterDispose`, and any queue or stack entry naming one has
    /// gone stale and is skipped. Disposing an already disposed scope
    /// is a no-op that returns no tokens.
    pub fn dispose_scope(&mut self, s: ScopeId) -> (r: Result<Vec<u64>, RuntimeError>)
        requires
            old(self).wf(),
        ensures
            final(self).wf(),
            old(self).is_poisoned() ==> r == Err::<Vec<u64>, _>(RuntimeError::CyclicDependency)
                && *final(self) == *old(self),
            !old(self).is_poisoned() ==> r is Ok,
            !old(self).is_poisoned() && !old(self).scope_live(s) ==> (match r {
                Ok(t) => t@ == Seq::<u64>::empty(),
                Err(_) => false,
            }) && *final(self) == *old(self),
            !old(self).is_poisoned() && old(self).scope_live(s) ==> (match r {
                Ok(t) => {
                    &&& !final(self).scope_live(s)
                    &&& !final(self).is_poisoned()
                    &&& final(self).same_scheduler(*old(self))
                    &&& final(self).num_slots() == old(self).num_slots()
                    &&& final(self).num_scopes() == old(self).num_scopes()
                    // every node the scope owns directly is dead, under
                    // its old generation: a handle to one now fails
                    &&& (forall|i: int|
                        0 <= i < old(self).num_slots() && old(self).slot_live(i) && old(
                            self,
                        ).slot_scope(i) == s.slot as int ==> {
                            &&& !final(self).slot_live(i)
                            &&& final(self).slot_generation(i) == old(self).slot_generation(i)
                        })
                    // disposal reaches only the scope's own subtree
                    &&& (forall|i: int|
                        0 <= i < old(self).num_slots() && !old(self).scope_in_subtree(
                            old(self).slot_scope(i),
                            s.slot as int,
                        ) ==> old(self).node_preserved(*final(self), i))
                    &&& (forall|i: int|
                        0 <= i < old(self).num_slots() && !old(self).slot_live(i) ==> {
                            &&& !final(self).slot_live(i)
                            &&& final(self).slot_generation(i) == old(self).slot_generation(i)
                        })
                    &&& (forall|c: int|
                        0 <= c < old(self).num_scopes() && !old(self).scope_in_subtree(
                            c,
                            s.slot as int,
                        ) ==> {
                            &&& final(self).scope_live(ScopeId { slot: c as usize }) == old(
                                self,
                            ).scope_live(ScopeId { slot: c as usize })
                            &&& final(self).scope_cleanups(ScopeId { slot: c as usize }) == old(
                                self,
                            ).scope_cleanups(ScopeId { slot: c as usize })
                        })
                    &&& (forall|c: int|
                        0 <= c < old(self).num_scopes() && (#[trigger] final(self).scope_live(
                            ScopeId { slot: c as usize },
                        )) ==> old(self).scope_live(ScopeId { slot: c as usize }))
                    // the tokens open with the scope's own callbacks,
                    // newest first, then its nodes' pending callbacks;
                    // child scopes' tokens follow
                    &&& old(self).scope_dispose_prefix(s).is_prefix_of(t@)
                    &&& (old(self).scope_children(s.slot as int).len() == 0 ==> t@ == old(
                        self,
                    ).scope_dispose_prefix(s))
                },
                Err(_) => false,
            }),
    {
        if self.poisoned {
            return Err(RuntimeError::CyclicDependency);
        }
        if s.slot >= self.scopes.len() || !self.scopes[s.slot].alive {
            return Ok(Vec::new());
        }
        let ghost pre = *old(self);
        let mut tokens: Vec<u64> = Vec::new();
        let mut stack: Vec<usize> = Vec::new();
        stack.push(s.slot);
        while stack.len() > 0
            invariant
                pre == *old(self),
                !pre.poisoned,
                pre.wf_inner(),
                pre.scope_live(s),
                self.wf_inner(),
                !self.poisoned,
                self.nodes@.len() == pre.nodes@.len(),
                self.scopes@.len() == pre.scopes@.len(),
                self.same_scheduler(pre),
                forall|i: int|
                    0 <= i < pre.nodes@.len() ==> #[trigger] self.nodes@[i] == pre.nodes@[i] || (
                    self.nodes@[i] == (Node { alive: false, ..pre.nodes@[i] }) && pre.slot_live(i)
                        && pre.scope_in_subtree(pre.slot_scope(i), s.slot as int)),
                forall|w: int|
                    0 <= w < pre.scopes@.len() ==> #[trigger] self.scopes@[w] == pre.scopes@[w] || (
                    !self.scopes@[w].alive && pre.scopes@[w].alive && pre.scope_in_subtree(
                        w,
                        s.slot as int,
                    )),
                forall|t: int|
                    0 <= t < stack@.len() ==> (#[trigger] stack@[t] as int) < pre.scopes@.len()
                        && pre.scope_in_subtree(stack@[t] as int, s.slot as int),
                self.scopes@[s.slot as int].alive ==> *self == pre && tokens@.len() == 0
                    && stack@.len() == 1 && stack@[0] == s.slot,
                !self.scopes@[s.slot as int].alive ==> pre.scope_dispose_prefix(s).is_prefix_of(
                    tokens@,
                ),
                !self.scopes@[s.slot as int].alive && pre.scope_children(s.slot as int).len() == 0
                    ==> tokens@ == pre.scope_dispose_prefix(s) && stack@.len() == 0,
                !self.scopes@[s.slot as int].alive ==> (forall|i: int|
                    0 <= i < pre.nodes@.len() && pre.slot_live(i) && pre.slot_scope(i)
                        == s.slot as int ==> !(#[trigger] self.nodes@[i]).alive),
            decreases stack@.len() + Runtime::scope_weight(self.scopes@, self.scopes@.len() as int),
        {
            proof {
                Runtime::lemma_scope_weight_nonneg(self.scopes@, self.scopes@.len() as int);
            }
            let ghost head_alive = self.scopes@[s.slot as int].alive;
            let ghost top_was = stack@[stack@.len() - 1];
            let sc = match stack.pop() {
                Some(v) => v,
                None => {
                    proof {
                        assert(false);
                    }
                    return Ok(Vec::new());
                },
            };
            if !self.scopes[sc].alive {
                // a stale entry: the scope was disposed on its own
                // before its parent
                proof {
                    if head_alive {
                        assert(top_was == s.slot);
                        assert(sc == s.slot);
                        assert(false);
                    }
                }
                continue;
            }
            proof {
                assert(self.scopes@[sc as int] == pre.scopes@[sc as int]);
                assert(pre.scope_in_subtree(sc as int, s.slot as int));
            }
            // the scope's own cleanup callbacks, newest first
            let ghost at_scope = *self;
            let ghost tokens_base = tokens@;
            let mut ci: usize = self.scopes[sc].cleanups.len();
            proof {
                assert(tokens@ =~= tokens_base + at_scope.scopes@[sc as int].cleanups@.subrange(
                    ci as int,
                    at_scope.scopes@[sc as int].cleanups@.len() as int,
                ).reverse());
            }
            while ci > 0
                invariant
                    *self == at_scope,
                    (sc as int) < at_scope.scopes@.len(),
                    ci <= at_scope.scopes@[sc as int].cleanups@.len(),
                    tokens@ == tokens_base + at_scope.scopes@[sc as int].cleanups@.subrange(
                        ci as int,
                        at_scope.scopes@[sc as int].cleanups@.len() as int,
                    ).reverse(),
                decreases ci,
            {
                ci = ci - 1;
                let t = self.scopes[sc].cleanups[ci];
                tokens.push(t);
                proof {
                    assert(tokens@ =~= tokens_base + at_scope.scopes@[sc as int].cleanups@.subrange(
                        ci as int,
                        at_scope.scopes@[sc as int].cleanups@.len() as int,
                    ).reverse());
                }
            }
            let ghost mid_base = tokens@;
            proof {
                assert(mid_base == tokens_base + at_scope.scopes@[sc as int].cleanups@.reverse())
                    by {
                    assert(at_scope.scopes@[sc as int].cleanups@.subrange(
                        0,
                        at_scope.scopes@[sc as int].cleanups@.len() as int,
                    ) =~= at_scope.scopes@[sc as int].cleanups@);
                }
            }
            // release the owned nodes, newest first, handing out any
            // cleanup callbacks their effects still hold
            let mut ni: usize = self.scopes[sc].nodes.len();
            proof {
                assert(at_scope.owned_cleanups_rec(
                    sc as int,
                    at_scope.scopes@[sc as int].nodes@.len() as int,
                ) =~= tokens@.subrange(mid_base.len() as int, tokens@.len() as int)
                    + at_scope.owned_cleanups_rec(sc as int, ni as int));
            }
            while ni > 0
                invariant
                    self.wf_inner(),
                    !self.poisoned,
                    self.scopes@ == at_scope.scopes@,
                    self.nodes@.len() == at_scope.nodes@.len(),
                    at_scope.nodes@.len() == pre.nodes@.len(),
                    self.same_scheduler(at_scope),
                    (sc as int) < self.scopes@.len(),
                    self.scopes@[sc as int].alive,
                    ni <= self.scopes@[sc as int].nodes@.len(),
                    forall|i: int|
                        0 <= i < at_scope.nodes@.len() ==> #[trigger] self.nodes@[i]
                            == at_scope.nodes@[i] || (self.nodes@[i] == (Node {
                            alive: false,
                            ..at_scope.nodes@[i]
                        }) && at_scope.nodes@[i].alive && at_scope.nodes@[i].scope == sc && (
                        exists|k: int|
                            ni <= k < at_scope.scope_node_list(sc as int).len() && (
                            #[trigger] at_scope.scope_node_list(sc as int)[k]) as int == i)),
                    forall|k: int|
                        ni <= k < self.scopes@[sc as int].nodes@.len()
                            ==> !self.slot_live(#[trigger] self.scopes@[sc as int].nodes@[k] as int)
                            || (self.nodes@[self.scopes@[sc as int].nodes@[k] as int].scope as int)
                            != sc as int,
                    mid_base.len() <= tokens@.len(),
                    tokens@.subrange(0, mid_base.len() as int) == mid_base,
                    at_scope.owned_cleanups_rec(
                        sc as int,
                        at_scope.scopes@[sc as int].nodes@.len() as int,
                    ) == tokens@.subrange(mid_base.len() as int, tokens@.len() as int)
                        + at_scope.owned_cleanups_rec(sc as int, ni as int),
                decreases ni,
            {
                ni = ni - 1;
                proof {
                    assert(self.scope_wf(sc as int));
                }
                let x = self.scopes[sc].nodes[ni];
                let ghost emitted = tokens@.subrange(mid_base.len() as int, tokens@.len() as int);
                if x < self.nodes.len() && self.nodes[x].alive && self.nodes[x].scope == sc {
                    proof {
                        // live and still owned here: this is the slot's
                        // newest entry, and it is unchanged since the
                        // scope's processing began
                        assert(self.nodes@[x as int] == at_scope.nodes@[x as int]);
                        assert forall|j: int|
                            ni + 1 <= j < at_scope.scope_node_list(sc as int).len() implies (
                        #[trigger] at_scope.scope_node_list(sc as int)[j]) != at_scope.scope_node_list(
                            sc as int,
                        )[ni as int] by {
                            if at_scope.scope_node_list(sc as int)[j] == x {
                                assert(!self.slot_live(
                                    self.scopes@[sc as int].nodes@[j] as int,
                                ) || (self.nodes@[self.scopes@[sc as int].nodes@[j] as int].scope as int)
                                    != sc as int);
                            }
                        }
                    }
                    // an effect's pending cleanups run at disposal
                    let ghost before_cb = *self;
                    let ghost node_base = tokens@;
                    let mut cj: usize = self.nodes[x].cleanups.len();
                    proof {
                        assert(tokens@ =~= node_base + before_cb.nodes@[x as int].cleanups@.subrange(
                            cj as int,
                            before_cb.nodes@[x as int].cleanups@.len() as int,
                        ).reverse());
                    }
                    while cj > 0
                        invariant
                            *self == before_cb,
                            (x as int) < before_cb.nodes@.len(),
                            cj <= before_cb.nodes@[x as int].cleanups@.len(),
                            tokens@ == node_base + before_cb.nodes@[x as int].cleanups@.subrange(
                                cj as int,
                                before_cb.nodes@[x as int].cleanups@.len() as int,
                            ).reverse(),
                        decreases cj,
                    {
                        cj = cj - 1;
                        let t = self.nodes[x].cleanups[cj];
                        tokens.push(t);
                        proof {
                            assert(tokens@ =~= node_base
                                + before_cb.nodes@[x as int].cleanups@.subrange(
                                cj as int,
                                before_cb.nodes@[x as int].cleanups@.len() as int,
                            ).reverse());
                        }
                    }
                    proof {
                        assert(tokens@ == node_base
                            + before_cb.nodes@[x as int].cleanups@.reverse()) by {
                            assert(before_cb.nodes@[x as int].cleanups@.subrange(
                                0,
                                before_cb.nodes@[x as int].cleanups@.len() as int,
                            ) =~= before_cb.nodes@[x as int].cleanups@);
                        }
                    }
                    let ghost before_kill = *self;
                    self.nodes[x].alive = false;
                    self.free_slots.push(x);
                    proof {
                        assert(self.nodes@ =~= before_kill.nodes@.update(
                            x as int,
                            (Node { alive: false, ..before_kill.nodes@[x as int] }),
                        ));
                        self.lemma_kill_node_wf(before_kill, x as int);
                        assert(at_scope.scope_node_list(sc as int)[ni as int] as int == x as int);
                        assert(at_scope.owned_cleanups_rec(sc as int, ni + 1)
                            == at_scope.slot_cleanups(x as int).reverse()
                            + at_scope.owned_cleanups_rec(sc as int, ni as int));
                        assert(tokens@.subrange(mid_base.len() as int, tokens@.len() as int)
                            =~= emitted + at_scope.slot_cleanups(x as int).reverse());
                        assert(tokens@.subrange(0, mid_base.len() as int) =~= mid_base);
                    }
                } else {
                    proof {
                        // a stale entry, or a newer entry already
                        // retired the slot: it contributes nothing
                        assert(at_scope.owned_cleanups_rec(sc as int, ni + 1)
                            == at_scope.owned_cleanups_rec(sc as int, ni as int)) by {
                            let xl = at_scope.scope_node_list(sc as int)[ni as int] as int;
                            if xl < at_scope.num_slots() && at_scope.slot_live(xl)
                                && at_scope.slot_scope(xl) == sc as int && (forall|j: int|
                                ni + 1 <= j < at_scope.scope_node_list(sc as int).len() ==> (
                                #[trigger] at_scope.scope_node_list(sc as int)[j])
                                    != at_scope.scope_node_list(sc as int)[ni as int]) {
                                assert(self.nodes@[xl] == at_scope.nodes@[xl]) by {
                                    if self.nodes@[xl] != at_scope.nodes@[xl] {
                                        // the slot could only have been
                                        // retired through a newer list
                                        // entry, and this is the newest
                                        let k = choose|k: int|
                                            ni + 1 <= k < at_scope.scope_node_list(
                                                sc as int,
                                            ).len() && (#[trigger] at_scope.scope_node_list(
                                                sc as int,
                                            )[k]) as int == xl;
                                        assert(at_scope.scope_node_list(sc as int)[k]
                                            != at_scope.scope_node_list(sc as int)[ni as int]);
                                        assert(false);
                                    }
                                }
                                assert(false);
                            }
                        }
                    }
                }
            }
            // now nothing alive is owned here: retire the scope and
            // queue its children, newest first off the stack
            let ghost before_children = *self;
            let ghost stack_before = stack@;
            let mut chi: usize = 0;
            let clen = self.scopes[sc].children.len();
            while chi < clen
                invariant
                    *self == before_children,
                    pre == *old(self),
                    pre.wf_inner(),
                    before_children.scopes@.len() == pre.scopes@.len(),
                    (sc as int) < before_children.scopes@.len(),
                    before_children.scopes@[sc as int] == pre.scopes@[sc as int],
                    before_children.scopes@[sc as int].alive,
                    pre.scopes@[sc as int].alive,
                    before_children.wf_inner(),
                    pre.scope_in_subtree(sc as int, s.slot as int),
                    clen == before_children.scopes@[sc as int].children@.len(),
                    chi <= clen,
                    stack@.len() == stack_before.len() + chi,
                    forall|t: int| 0 <= t < stack_before.len() ==> stack@[t] == stack_before[t],
                    forall|t: int|
                        stack_before.len() <= t < stack@.len() ==> stack@[t]
                            == before_children.scopes@[sc as int].children@[t - stack_before.len()],
                    forall|t: int|
                        0 <= t < stack_before.len() ==> (#[trigger] stack_before[t] as int)
                            < pre.scopes@.len() && pre.scope_in_subtree(
                            stack_before[t] as int,
                            s.slot as int,
                        ),
                    forall|t: int|
                        stack_before.len() <= t < stack@.len() ==> ((#[trigger] stack@[t]) as int)
                            < pre.scopes@.len() && pre.scope_in_subtree(
                            stack@[t] as int,
                            s.slot as int,
                        ),
                    forall|k: int|
                        0 <= k < before_children.scopes@[sc as int].nodes@.len()
                            ==> !before_children.slot_live(
                            #[trigger] before_children.scopes@[sc as int].nodes@[k] as int,
                        ) || (before_children.nodes@[before_children.scopes@[sc as int].nodes@[k] as int].scope as int)
                            != sc as int,
                decreases clen - chi,
            {
                proof {
                    assert(before_children.scope_wf(sc as int));
                }
                let c = self.scopes[sc].children[chi];
                stack.push(c);
                proof {
                    assert(pre.scopes@[sc as int].alive);
                    assert(pre.scope_wf(sc as int));
                    assert(pre.scope_children(sc as int)[chi as int] == c);
                    assert((sc as int) < c as int && (c as int) < pre.scopes@.len());
                    pre.lemma_subtree_step(sc as int, chi as int, c as int);
                    pre.lemma_subtree_trans(c as int, sc as int, s.slot as int);
                }
                chi = chi + 1;
            }
            let ghost before_dead = *self;
            self.scopes[sc].alive = false;
            self.scopes[sc].nodes = Vec::new();
            self.scopes[sc].children = Vec::new();
            self.scopes[sc].cleanups = Vec::new();
            proof {
                assert(before_dead == before_children);
                before_dead.lemma_len_bound();
                assert forall|i: int| before_dead.slot_live(i) implies (
                #[trigger] before_dead.nodes@[i].scope as int) != sc as int by {
                    assert(before_dead.owned_at(i));
                    if before_dead.nodes@[i].scope as int == sc as int {
                        assert((i as usize) as int == i);
                        assert(before_dead.scopes@[sc as int].nodes@.contains(i as usize));
                        let w = choose|w: int|
                            0 <= w < before_dead.scopes@[sc as int].nodes@.len()
                                && before_dead.scopes@[sc as int].nodes@[w] == i as usize;
                        assert(before_children.scopes@[sc as int].nodes@[w] == i as usize);
                        assert(!before_children.slot_live(
                            before_children.scopes@[sc as int].nodes@[w] as int,
                        ) || (before_children.nodes@[before_children.scopes@[sc as int].nodes@[w] as int].scope as int)
                            != sc as int);
                        assert(false);
                    }
                }
                self.lemma_scope_dead_wf(before_dead, sc as int);
                Runtime::lemma_scope_weight_kill(
                    before_dead.scopes@,
                    self.scopes@,
                    self.scopes@.len() as int,
                    sc as int,
                );
                Runtime::lemma_scope_weight_nonneg(self.scopes@, self.scopes@.len() as int);
                assert forall|t: int|
                    0 <= t < stack@.len() implies (#[trigger] stack@[t] as int)
                    < pre.scopes@.len() && pre.scope_in_subtree(stack@[t] as int, s.slot as int) by {
                    if t < stack_before.len() {
                        assert(stack@[t] == stack_before[t]);
                    }
                }
                assert forall|i: int|
                    0 <= i < pre.nodes@.len() implies #[trigger] self.nodes@[i] == pre.nodes@[i]
                    || (self.nodes@[i] == (Node { alive: false, ..pre.nodes@[i] })
                        && pre.slot_live(i) && pre.scope_in_subtree(
                        pre.slot_scope(i),
                        s.slot as int,
                    )) by {
                    if self.nodes@[i] != at_scope.nodes@[i] {
                        assert(at_scope.nodes@[i].alive && at_scope.nodes@[i].scope == sc);
                        assert(at_scope.nodes@[i] == pre.nodes@[i]);
                    }
                }
                assert forall|i: int|
                    0 <= i < pre.nodes@.len() && pre.slot_live(i) && pre.slot_scope(i)
                        == s.slot as int implies !(#[trigger] self.nodes@[i]).alive by {
                    if self.nodes@[i].alive {
                        assert(self.nodes@[i] == at_scope.nodes@[i]);
                        if head_alive {
                            assert(at_scope == pre && sc == s.slot);
                            assert(pre.owned_at(i));
                            pre.lemma_len_bound();
                            assert((i as usize) as int == i);
                            assert(pre.scopes@[sc as int].nodes@.contains(i as usize));
                            let w = choose|w: int|
                                0 <= w < pre.scopes@[sc as int].nodes@.len()
                                    && pre.scopes@[sc as int].nodes@[w] == i as usize;
                            assert(!before_children.slot_live(
                                before_children.scopes@[sc as int].nodes@[w] as int,
                            ) || (before_children.nodes@[before_children.scopes@[sc as int].nodes@[w] as int].scope as int)
                                != sc as int);
                            assert(false);
                        } else {
                            assert(!at_scope.nodes@[i].alive);
                            assert(false);
                        }
                    }
                }
                if head_alive {
                    assert(top_was == s.slot);
                    assert(sc == s.slot);
                    assert(!self.scopes@[s.slot as int].alive);
                    assert(at_scope == pre);
                    assert(tokens_base =~= Seq::<u64>::empty());
                    assert(tokens@ =~= pre.scope_dispose_prefix(s)) by {
                        assert(tokens@.subrange(mid_base.len() as int, tokens@.len() as int)
                            + at_scope.owned_cleanups_rec(sc as int, 0) =~= tokens@.subrange(
                            mid_base.len() as int,
                            tokens@.len() as int,
                        ));
                        assert(mid_base =~= pre.scope_cleanups(s).reverse());
                        assert(tokens@ =~= tokens@.subrange(0, mid_base.len() as int)
                            + tokens@.subrange(mid_base.len() as int, tokens@.len() as int));
                    }
                    assert(pre.scope_dispose_prefix(s).is_prefix_of(tokens@));
                } else {
                    assert(!self.scopes@[s.slot as int].alive);
                    assert(pre.scope_dispose_prefix(s).is_prefix_of(tokens@)) by {
                        assert(mid_base.is_prefix_of(tokens@)) by {
                            assert(tokens@.subrange(0, mid_base.len() as int) == mid_base);
                        }
                        assert(tokens_base.is_prefix_of(mid_base));
                        assert(pre.scope_dispose_prefix(s).is_prefix_of(tokens_base));
                    }
                }
            }
        }
        proof {
            assert(!self.scope_live(s));
            assert forall|i: int|
                0 <= i < pre.nodes@.len() && !pre.slot_live(i) implies !self.slot_live(i)
                && self.slot_generation(i) == pre.slot_generation(i) by {
                assert(self.nodes@[i] == pre.nodes@[i] || self.nodes@[i] == (Node {
                    alive: false,
                    ..pre.nodes@[i]
                }));
            }
            assert forall|i: int|
                0 <= i < pre.nodes@.len() && !pre.scope_in_subtree(
                    pre.slot_scope(i),
                    s.slot as int,
                ) implies pre.node_preserved(*self, i) by {
                assert(self.nodes@[i] == pre.nodes@[i]);
            }
        }
        Ok(tokens)
    }

}

/// Glitch-freedom, read off the runtime invariant: a settled memo
/// (clean, or being recomputed right now) records exactly the current
/// version of every source it still observes — its cache has seen every
/// change so far — and every memo still observing a non-clean memo has
/// itself been notified. Together these mean a `Ready` answer can never
/// mix an updated source with a stale one: a memo whose transitive
/// source changed cannot be clean.
pub proof fn lemma_glitch_free(rt: Runtime)
    requires
        rt.wf(),
        !rt.is_poisoned(),
    ensures
        forall|i: int, k: int|
            #![trigger rt.slot_sources(i)[k]]
            rt.slot_live(i) && rt.slot_kind(i) == NodeKind::Memo && (rt.slot_state(i)
                == NodeState::Clean || rt.slot_running(i)) && 0 <= k < rt.slot_sources(i).len()
                && rt.edge_live(rt.slot_sources(i)[k]) ==> rt.slot_source_versions(i)[k]
                == rt.slot_version(rt.slot_sources(i)[k].0 as int),
        forall|i: int, k: int|
            #![trigger rt.slot_observers(i)[k]]
            rt.slot_live(i) && rt.slot_kind(i) == NodeKind::Memo && rt.slot_state(i)
                != NodeState::Clean && 0 <= k < rt.slot_observers(i).len() && rt.edge_live(
                rt.slot_observers(i)[k],
            ) && rt.slot_kind(rt.slot_observers(i)[k].0 as int) == NodeKind::Memo ==> rt.notified(
                rt.slot_observers(i)[k].0 as int,
            ),
{
    assert forall|i: int, k: int|
        #![trigger rt.slot_sources(i)[k]]
        rt.slot_live(i) && rt.slot_kind(i) == NodeKind::Memo && (rt.slot_state(i)
            == NodeState::Clean || rt.slot_running(i)) && 0 <= k < rt.slot_sources(i).len()
            && rt.edge_live(rt.slot_sources(i)[k]) implies rt.slot_source_versions(i)[k]
        == rt.slot_version(rt.slot_sources(i)[k].0 as int) by {
        assert(rt.records_current_at(i));
        assert(rt.entry_valid(rt.nodes@[i].sources@[k]));
    }
    assert forall|i: int, k: int|
        #![trigger rt.slot_observers(i)[k]]
        rt.slot_live(i) && rt.slot_kind(i) == NodeKind::Memo && rt.slot_state(i)
            != NodeState::Clean && 0 <= k < rt.slot_observers(i).len() && rt.edge_live(
            rt.slot_observers(i)[k],
        ) && rt.slot_kind(rt.slot_observers(i)[k].0 as int) == NodeKind::Memo implies rt.notified(
        rt.slot_observers(i)[k].0 as int,
    ) by {
        assert(rt.dirt_closed_at(i));
        assert(rt.entry_valid(rt.nodes@[i].observers@[k]));
        assert(rt.marked(rt.nodes@[i].observers@[k].0 as int));
    }
}

/// Between batches and outside any computation the runtime is
/// quiescent: no live node is running, queued or resolved. In that
/// state [`Runtime::set`] owes success, and a batch always starts from
/// a blank slate of per-batch marks.
pub proof fn lemma_quiescent(rt: Runtime)
    requires
        rt.wf(),
        !rt.is_poisoned(),
        !rt.tracking(),
        !rt.in_batch(),
    ensures
        forall|i: int|
            rt.slot_live(i) ==> !(#[trigger] rt.slot_running(i)) && !rt.slot_queued(i)
                && !rt.slot_resolved(i),
{
    assert forall|i: int|
        rt.slot_live(i) implies !(#[trigger] rt.slot_running(i)) && !rt.slot_queued(i)
        && !rt.slot_resolved(i) by {
        assert(!rt.nodes@[i].resolved && !rt.nodes@[i].queued);
        if rt.nodes@[i].running {
            let j = choose|j: int|
                0 <= j < rt.running_stack@.len() && rt.running_stack@[j] == (
                i as usize,
                rt.nodes@[i].generation,
                );
            assert(false);
        }
    }
}

/// Once per batch: the run history never repeats an entry, so no
/// effect (identified by slot and generation) is executed twice within
/// one batch — the scheduler marks an effect resolved when it hands it
/// out, refuses to queue a resolved effect again (that is a cycle), and
/// only clears the marks when the batch closes under a fresh batch
/// index.
pub proof fn lemma_effect_runs_once_per_batch(rt: Runtime)
    requires
        rt.wf(),
        !rt.is_poisoned(),
    ensures
        forall|j1: int, j2: int|
            0 <= j1 < rt.effect_runs().len() && 0 <= j2 < rt.effect_runs().len() && j1 != j2
                ==> rt.effect_runs()[j1] != rt.effect_runs()[j2],
{
}

} // verus!
