//! The pipeline registry and its driver.
//!
//! An `Arena` owns every live pipeline object — capture sources and
//! analysis nodes — behind monotonically increasing integer handles, so
//! that chains and connections can refer to them without owning them. A
//! `Chain` binds one source handle to an ordered list of node handles and
//! routes each delivered buffer through the nodes in insertion order. The
//! arena is shared: chain operations borrow it for exactly one lookup or
//! update at a time, never across a node's whole computation.

use crate::handle_map::HandleMap;
use crate::nodes::spec_added_samples;
use crate::nodes::spec_channel_views;
use crate::nodes::spec_node_output;
use crate::nodes::spec_node_step;
use crate::nodes::Chainable;
use crate::nodes::ChainableView;
use vstd::prelude::*;

verus! {

// ---------------------------------------------------------------------------
// The capture-source model.
// ---------------------------------------------------------------------------
/// The state of one capture session: which device and channels it reads,
/// whether the stream is live, and the most recent asynchronous backend
/// error, held until the connection collects it. The backend itself runs
/// outside the library and reports into this record through plain values.
pub struct Source {
    device: u32,
    channels: Vec<u32>,
    active: bool,
    error: Option<Vec<u8>>,
}

/// The mathematical image of a `Source`.
#[verifier::ext_equal]
pub struct SourceView {
    pub device: u32,
    pub channels: Seq<u32>,
    pub active: bool,
    pub error: Option<Seq<u8>>,
}

impl View for Source {
    type V = SourceView;

    closed spec fn view(&self) -> SourceView {
        SourceView {
            device: self.device,
            channels: self.channels@,
            active: self.active,
            error: match self.error {
                Some(ref e) => Some(e@),
                None => None,
            },
        }
    }
}

impl Source {
    /// A closed source for the given device and channel subset.
    pub fn new(device: u32, channels: Vec<u32>) -> (r: Source)
        ensures
            r@ == (SourceView { device, channels: channels@, active: false, error: None }),
    {
        Source { device, channels, active: false, error: None }
    }

    /// Marks the capture stream live.
    pub fn start(&mut self)
        ensures
            final(self)@ == (SourceView { active: true, ..old(self)@ }),
    {
        self.active = true;
    }

    /// Requests a halt; idempotent, and safe on a source never started.
    pub fn stop(&mut self)
        ensures
            final(self)@ == (SourceView { active: false, ..old(self)@ }),
    {
        self.active = false;
    }

    /// Whether the stream is currently believed live.
    pub fn is_active(&self) -> (r: bool)
        ensures
            r == self@.active,
    {
        self.active
    }

    /// The device this source reads.
    pub fn device(&self) -> (r: u32)
        ensures
            r == self@.device,
    {
        self.device
    }

    /// The channel subset this source reads.
    pub fn channels(&self) -> (r: &Vec<u32>)
        ensures
            r@ == self@.channels,
    {
        &self.channels
    }

    /// Records an asynchronous backend failure, replacing any unreported
    /// one.
    pub fn set_error(&mut self, message: Vec<u8>)
        ensures
            final(self)@ == (SourceView { error: Some(message@), ..old(self)@ }),
    {
        self.error = Some(message);
    }

    /// Returns the most recent asynchronous error exactly once, clearing
    /// it; `None` when no error is pending.
    pub fn get_and_clear_error(&mut self) -> (r: Option<Vec<u8>>)
        ensures
            final(self)@ == (SourceView { error: None, ..old(self)@ }),
            match (r, old(self)@.error) {
                (Some(m), Some(e)) => m@ == e,
                (None, None) => true,
                _ => false,
            },
    {
        self.error.take()
    }
}

// ---------------------------------------------------------------------------
// The arena.
// ---------------------------------------------------------------------------
/// The images of every source in a map.
pub open spec fn spec_source_views(m: Map<u64, Source>) -> Map<u64, SourceView> {
    Map::new(|k: u64| m.dom().contains(k), |k: u64| m[k]@)
}

/// The images of every node in a map.
pub open spec fn spec_node_views(m: Map<u64, Chainable>) -> Map<u64, ChainableView> {
    Map::new(|k: u64| m.dom().contains(k), |k: u64| m[k]@)
}

/// Strictly increasing, hence free of repeats.
pub open spec fn strictly_increasing(s: Seq<u64>) -> bool {
    forall|i: int, j: int| 0 <= i < j < s.len() ==> s[i] < s[j]
}

/// The registry owning all sources and nodes behind integer handles. One
/// counter, shared by both kinds, assigns every handle; it only ever grows,
/// so a handle is never reused while the arena lives, even after its object
/// is removed.
pub struct Arena {
    sourcables: HandleMap<Source>,
    chainables: HandleMap<Chainable>,
    created_nodes: u64,
    issued: Ghost<Seq<u64>>,
}

impl Arena {
    /// The sources the arena currently owns.
    pub closed spec fn sources(&self) -> Map<u64, Source> {
        self.sourcables@
    }

    /// The nodes the arena currently owns.
    pub closed spec fn nodes(&self) -> Map<u64, Chainable> {
        self.chainables@
    }

    /// The next handle to be assigned.
    pub closed spec fn counter(&self) -> u64 {
        self.created_nodes
    }

    /// Every handle ever returned, in the order they were assigned.
    pub closed spec fn issued_handles(&self) -> Seq<u64> {
        self.issued@
    }

    /// The arena's invariant: handles were issued in strictly increasing
    /// order, all below the counter, and everything owned sits under an
    /// issued handle.
    pub closed spec fn wf(&self) -> bool {
        &&& self.sourcables.wf()
        &&& self.chainables.wf()
        &&& strictly_increasing(self.issued@)
        &&& forall|i: int| 0 <= i < self.issued@.len() ==> self.issued@[i] < self.created_nodes
        &&& forall|k: u64| self.sourcables@.dom().contains(k) ==> self.issued@.contains(k)
        &&& forall|k: u64| self.chainables@.dom().contains(k) ==> self.issued@.contains(k)
    }

    /// What the invariant guarantees of issued handles: they are strictly
    /// increasing — no handle is ever repeated, whatever was removed in
    /// between — and every owned object sits under one of them.
    pub proof fn lemma_handles_strictly_increasing(&self)
        requires
            self.wf(),
        ensures
            strictly_increasing(self.issued_handles()),
            forall|k: u64|
                self.sources().dom().contains(k) ==> self.issued_handles().contains(k),
            forall|k: u64| self.nodes().dom().contains(k) ==> self.issued_handles().contains(k),
            forall|i: int|
                0 <= i < self.issued_handles().len() ==> self.issued_handles()[i]
                    < self.counter(),
    {
    }

    /// An empty registry.
    pub fn new() -> (r: Arena)
        ensures
            r.wf(),
            r.sources() == Map::<u64, Source>::empty(),
            r.nodes() == Map::<u64, Chainable>::empty(),
            r.counter() == 0,
            r.issued_handles() == Seq::<u64>::empty(),
    {
        Arena {
            sourcables: HandleMap::new(),
            chainables: HandleMap::new(),
            created_nodes: 0,
            issued: Ghost(Seq::empty()),
        }
    }

    proof fn lemma_counter_fresh(&self)
        requires
            self.wf(),
        ensures
            !self.sourcables@.dom().contains(self.created_nodes),
            !self.chainables@.dom().contains(self.created_nodes),
            forall|j: int|
                0 <= j < self.issued@.len() ==> self.issued@[j] < self.created_nodes,
    {
        if self.sourcables@.dom().contains(self.created_nodes) {
            assert(self.issued@.contains(self.created_nodes));
            let i = choose|i: int|
                0 <= i < self.issued@.len() && self.issued@[i] == self.created_nodes;
            assert(self.issued@[i] < self.created_nodes);
        }
        if self.chainables@.dom().contains(self.created_nodes) {
            assert(self.issued@.contains(self.created_nodes));
            let i = choose|i: int|
                0 <= i < self.issued@.len() && self.issued@[i] == self.created_nodes;
            assert(self.issued@[i] < self.created_nodes);
        }
    }

    /// The handle the next registration would receive.
    pub fn next_handle(&self) -> (r: u64)
        ensures
            r == self.counter(),
    {
        self.created_nodes
    }

    /// Registers a source under a fresh handle, strictly above every handle
    /// issued before.
    pub fn add_sourcable(&mut self, sourcable: Source) -> (id: u64)
        requires
            old(self).wf(),
            old(self).counter() < u64::MAX,
        ensures
            final(self).wf(),
            id == old(self).counter(),
            final(self).counter() == id + 1,
            !old(self).sources().dom().contains(id),
            !old(self).nodes().dom().contains(id),
            final(self).sources() == old(self).sources().insert(id, sourcable),
            final(self).nodes() == old(self).nodes(),
            final(self).issued_handles() == old(self).issued_handles().push(id),
            forall|j: int|
                0 <= j < old(self).issued_handles().len() ==> old(self).issued_handles()[j] < id,
    {
        let id = self.created_nodes;
        proof {
            self.lemma_counter_fresh();
        }
        self.sourcables.insert(id, sourcable);
        self.created_nodes = self.created_nodes + 1;
        proof {
            self.issued@ = self.issued@.push(id);
            assert forall|k: u64| self.sourcables@.dom().contains(k) implies self.issued@.contains(
                k,
            ) by {
                if k == id {
                    assert(self.issued@[self.issued@.len() - 1] == id);
                } else {
                    assert(old(self).sourcables@.dom().contains(k));
                    assert(old(self).issued@.contains(k));
                    let i = choose|i: int|
                        0 <= i < old(self).issued@.len() && old(self).issued@[i] == k;
                    assert(self.issued@[i] == k);
                }
            }
            assert forall|k: u64| self.chainables@.dom().contains(k) implies self.issued@.contains(
                k,
            ) by {
                assert(old(self).issued@.contains(k));
                let i = choose|i: int|
                    0 <= i < old(self).issued@.len() && old(self).issued@[i] == k;
                assert(self.issued@[i] == k);
            }
        }
        id
    }

    /// Registers a node under a fresh handle, strictly above every handle
    /// issued before.
    pub fn add_chainable(&mut self, chainable: Chainable) -> (id: u64)
        requires
            old(self).wf(),
            old(self).counter() < u64::MAX,
        ensures
            final(self).wf(),
            id == old(self).counter(),
            final(self).counter() == id + 1,
            !old(self).sources().dom().contains(id),
            !old(self).nodes().dom().contains(id),
            final(self).nodes() == old(self).nodes().insert(id, chainable),
            final(self).sources() == old(self).sources(),
            final(self).issued_handles() == old(self).issued_handles().push(id),
            forall|j: int|
                0 <= j < old(self).issued_handles().len() ==> old(self).issued_handles()[j] < id,
    {
        let id = self.created_nodes;
        proof {
            self.lemma_counter_fresh();
        }
        self.chainables.insert(id, chainable);
        self.created_nodes = self.created_nodes + 1;
        proof {
            self.issued@ = self.issued@.push(id);
            assert forall|k: u64| self.chainables@.dom().contains(k) implies self.issued@.contains(
                k,
            ) by {
                if k == id {
                    assert(self.issued@[self.issued@.len() - 1] == id);
                } else {
                    assert(old(self).chainables@.dom().contains(k));
                    assert(old(self).issued@.contains(k));
                    let i = choose|i: int|
                        0 <= i < old(self).issued@.len() && old(self).issued@[i] == k;
                    assert(self.issued@[i] == k);
                }
            }
            assert forall|k: u64| self.sourcables@.dom().contains(k) implies self.issued@.contains(
                k,
            ) by {
                assert(old(self).issued@.contains(k));
                let i = choose|i: int|
                    0 <= i < old(self).issued@.len() && old(self).issued@[i] == k;
                assert(self.issued@[i] == k);
            }
        }
        id
    }

    /// Removes a source; a no-op when the handle is absent. The handle is
    /// not reused either way.
    pub fn remove_sourcable(&mut self, id: u64)
        requires
            old(self).wf(),
        ensures
            final(self).wf(),
            final(self).sources() == old(self).sources().remove(id),
            final(self).nodes() == old(self).nodes(),
            final(self).counter() == old(self).counter(),
            final(self).issued_handles() == old(self).issued_handles(),
    {
        self.sourcables.remove(id);
    }

    /// Removes a node; a no-op when the handle is absent. The handle is
    /// not reused either way.
    pub fn remove_chainable(&mut self, id: u64)
        requires
            old(self).wf(),
        ensures
            final(self).wf(),
            final(self).nodes() == old(self).nodes().remove(id),
            final(self).sources() == old(self).sources(),
            final(self).counter() == old(self).counter(),
            final(self).issued_handles() == old(self).issued_handles(),
    {
        self.chainables.remove(id);
    }

    /// Borrows a node's current output.
    pub fn node_output(&self, id: u64) -> (r: Option<&Vec<i64>>)
        requires
            self.wf(),
        ensures
            match r {
                Some(out) => {
                    &&& self.nodes().dom().contains(id)
                    &&& out@ == spec_node_output(spec_node_views(self.nodes())[id])
                },
                None => !self.nodes().dom().contains(id),
            },
    {
        match self.chainables.get(id) {
            Some(node) => Some(node.output()),
            None => None,
        }
    }

    /// Stores a transformed window into the node under `id`; a no-op when
    /// the handle is absent.
    pub fn store_node_spectrum(&mut self, id: u64, spectrum: Vec<i64>)
        requires
            old(self).wf(),
        ensures
            final(self).wf(),
            final(self).sources() == old(self).sources(),
            final(self).counter() == old(self).counter(),
            final(self).issued_handles() == old(self).issued_handles(),
            final(self).nodes().dom() == old(self).nodes().dom(),
            old(self).nodes().dom().contains(id) ==> spec_node_views(final(self).nodes())
                == spec_node_views(old(self).nodes()).insert(
                id,
                crate::nodes::spec_node_store(spec_node_views(old(self).nodes())[id], spectrum@),
            ),
            !old(self).nodes().dom().contains(id) ==> final(self).nodes() == old(self).nodes(),
    {
        match self.chainables.take(id) {
            Some(mut node) => {
                node.store_spectrum(spectrum);
                self.chainables.insert(id, node);
                proof {
                    assert(self.chainables@.dom() =~= old(self).chainables@.dom());
                    assert(spec_node_views(self.chainables@) =~= spec_node_views(
                        old(self).chainables@,
                    ).insert(
                        id,
                        crate::nodes::spec_node_store(
                            spec_node_views(old(self).chainables@)[id],
                            spectrum@,
                        ),
                    ));
                }
            },
            None => {},
        }
    }

    /// Records an asynchronous backend failure against the source under
    /// `id`; a no-op when the handle is absent.
    pub fn set_source_error(&mut self, id: u64, message: Vec<u8>)
        requires
            old(self).wf(),
        ensures
            final(self).wf(),
            final(self).nodes() == old(self).nodes(),
            final(self).counter() == old(self).counter(),
            final(self).issued_handles() == old(self).issued_handles(),
            final(self).sources().dom() == old(self).sources().dom(),
            old(self).sources().dom().contains(id) ==> spec_source_views(final(self).sources())
                == spec_source_views(old(self).sources()).insert(
                id,
                (SourceView {
                    error: Some(message@),
                    ..spec_source_views(old(self).sources())[id]
                }),
            ),
            !old(self).sources().dom().contains(id) ==> final(self).sources() == old(
                self,
            ).sources(),
    {
        match self.sourcables.take(id) {
            Some(mut src) => {
                src.set_error(message);
                self.sourcables.insert(id, src);
                proof {
                    assert(self.sourcables@.dom() =~= old(self).sourcables@.dom());
                    assert(spec_source_views(self.sourcables@) =~= spec_source_views(
                        old(self).sourcables@,
                    ).insert(
                        id,
                        (SourceView {
                            error: Some(message@),
                            ..spec_source_views(old(self).sourcables@)[id]
                        }),
                    ));
                }
            },
            None => {},
        }
    }

    /// Collects and clears the pending asynchronous error of the source
    /// under `id`; `None` when the handle is absent or no error is pending.
    pub fn take_source_error(&mut self, id: u64) -> (r: Option<Vec<u8>>)
        requires
            old(self).wf(),
        ensures
            final(self).wf(),
            final(self).nodes() == old(self).nodes(),
            final(self).counter() == old(self).counter(),
            final(self).issued_handles() == old(self).issued_handles(),
            final(self).sources().dom() == old(self).sources().dom(),
            old(self).sources().dom().contains(id) ==> {
                &&& spec_source_views(final(self).sources()) == spec_source_views(
                    old(self).sources(),
                ).insert(
                    id,
                    (SourceView { error: None, ..spec_source_views(old(self).sources())[id] }),
                )
                &&& (match (r, spec_source_views(old(self).sources())[id].error) {
                    (Some(m), Some(e)) => m@ == e,
                    (None, None) => true,
                    _ => false,
                })
            },
            !old(self).sources().dom().contains(id) ==> final(self).sources() == old(
                self,
            ).sources() && r is None,
    {
        match self.sourcables.take(id) {
            Some(mut src) => {
                let r = src.get_and_clear_error();
                self.sourcables.insert(id, src);
                proof {
                    assert(self.sourcables@.dom() =~= old(self).sourcables@.dom());
                    assert(spec_source_views(self.sourcables@) =~= spec_source_views(
                        old(self).sourcables@,
                    ).insert(
                        id,
                        (SourceView {
                            error: None,
                            ..spec_source_views(old(self).sourcables@)[id]
                        }),
                    ));
                }
                r
            },
            None => None,
        }
    }
}

// ---------------------------------------------------------------------------
// The chain.
// ---------------------------------------------------------------------------
/// The transform window requests of a delivery, as mathematics.
pub open spec fn spec_request_views(s: Seq<(u64, Vec<i32>)>) -> Seq<(u64, Seq<i32>)> {
    s.map_values(|p: (u64, Vec<i32>)| (p.0, p.1@))
}

/// What delivering one buffer to the nodes under `handles`, in that exact
/// order, does to the node map: each present node takes one step; absent
/// handles are skipped. The second component lists, in delivery order, the
/// windows that spectrum nodes handed out for transformation.
pub open spec fn spec_deliver(
    m: Map<u64, ChainableView>,
    handles: Seq<u64>,
    chs: Seq<Seq<i32>>,
    added: Seq<i32>,
    samplerate: u32,
) -> (Map<u64, ChainableView>, Seq<(u64, Seq<i32>)>)
    decreases handles.len(),
{
    if handles.len() == 0 {
        (m, Seq::empty())
    } else {
        let h = handles[0];
        if m.dom().contains(h) {
            let (n2, w) = spec_node_step(m[h], chs, added, samplerate);
            let rest = spec_deliver(m.insert(h, n2), handles.drop_first(), chs, added, samplerate);
            match w {
                Some(win) => (rest.0, seq![(h, win)] + rest.1),
                None => rest,
            }
        } else {
            spec_deliver(m, handles.drop_first(), chs, added, samplerate)
        }
    }
}

/// One streaming session's pipeline: an optional source handle, the node
/// handles in delivery order, and the running flag. The chain does not own
/// the arena; every operation that touches it borrows it for the single
/// lookup or update involved. A chain is built per streaming request and
/// replaced, not mutated, when the client asks for a new configuration.
pub struct Chain {
    source: Option<u64>,
    nodes: Vec<u64>,
    running: bool,
}

impl Chain {
    /// The bound source handle, if one was set.
    pub closed spec fn source_handle(&self) -> Option<u64> {
        self.source
    }

    /// The node handles, in delivery order.
    pub closed spec fn node_handles(&self) -> Seq<u64> {
        self.nodes@
    }

    /// Whether the chain has been started and not yet stopped.
    pub closed spec fn running(&self) -> bool {
        self.running
    }

    /// A stopped chain with no source and no nodes.
    pub fn new() -> (r: Chain)
        ensures
            r.source_handle() is None,
            r.node_handles() == Seq::<u64>::empty(),
            !r.running(),
    {
        Chain { source: None, nodes: Vec::new(), running: false }
    }

    /// Binds the source; pure mutation, legal only before `start`.
    pub fn set_source(&mut self, source: u64)
        requires
            !old(self).running(),
        ensures
            final(self).source_handle() == Some(source),
            final(self).node_handles() == old(self).node_handles(),
            !final(self).running(),
    {
        self.source = Some(source);
    }

    /// Appends a node to the delivery order; pure mutation, legal only
    /// before `start`.
    pub fn add_node(&mut self, node: u64)
        requires
            !old(self).running(),
        ensures
            final(self).node_handles() == old(self).node_handles().push(node),
            final(self).source_handle() == old(self).source_handle(),
            !final(self).running(),
    {
        self.nodes.push(node);
    }

    /// Requests a halt: flips the flag the source's callback observes on
    /// its next invocation. Nothing is interrupted preemptively.
    pub fn stop(&mut self)
        ensures
            !final(self).running(),
            final(self).source_handle() == old(self).source_handle(),
            final(self).node_handles() == old(self).node_handles(),
    {
        self.running = false;
    }

    /// Whether the chain is running.
    pub fn is_running(&self) -> (r: bool)
        ensures
            r == self.running(),
    {
        self.running
    }

    /// The bound source handle.
    pub fn get_source(&self) -> (r: Option<u64>)
        ensures
            r == self.source_handle(),
    {
        self.source
    }

    /// Starts the chain: marks the bound source live and sets the running
    /// flag. With no source set, or a source handle the arena no longer
    /// holds, this is a reported no-op — the chain stays stopped and the
    /// arena untouched. On success the caller is expected to open the
    /// backend stream for the marked source.
    pub fn start(&mut self, arena: &mut Arena) -> (started: bool)
        requires
            old(arena).wf(),
        ensures
            final(arena).wf(),
            final(arena).nodes() == old(arena).nodes(),
            final(arena).counter() == old(arena).counter(),
            final(arena).issued_handles() == old(arena).issued_handles(),
            final(arena).sources().dom() == old(arena).sources().dom(),
            final(self).source_handle() == old(self).source_handle(),
            final(self).node_handles() == old(self).node_handles(),
            match old(self).source_handle() {
                Some(s) => {
                    if old(arena).sources().dom().contains(s) {
                        &&& started
                        &&& final(self).running()
                        &&& spec_source_views(final(arena).sources()) == spec_source_views(
                            old(arena).sources(),
                        ).insert(
                            s,
                            (SourceView {
                                active: true,
                                ..spec_source_views(old(arena).sources())[s]
                            }),
                        )
                    } else {
                        &&& !started
                        &&& final(self).running() == old(self).running()
                        &&& final(arena).sources() == old(arena).sources()
                    }
                },
                None => {
                    &&& !started
                    &&& final(self).running() == old(self).running()
                    &&& final(arena).sources() == old(arena).sources()
                },
            },
    {
        match self.source {
            Some(s) => {
                match arena.sourcables.take(s) {
                    Some(mut src) => {
                        src.start();
                        arena.sourcables.insert(s, src);
                        self.running = true;
                        proof {
                            assert(arena.sourcables@.dom() =~= old(arena).sourcables@.dom());
                            assert(spec_source_views(arena.sourcables@) =~= spec_source_views(
                                old(arena).sourcables@,
                            ).insert(
                                s,
                                (SourceView {
                                    active: true,
                                    ..spec_source_views(old(arena).sourcables@)[s]
                                }),
                            ));
                        }
                        true
                    },
                    None => false,
                }
            },
            None => false,
        }
    }

    /// Delivers one capture buffer: each node under this chain's handles,
    /// in insertion order, takes one synchronous step in the delivering
    /// thread; a handle the arena no longer holds fails only that lookup
    /// and is skipped. Returns the windows that spectrum nodes handed out,
    /// for the caller to transform and store back.
    pub fn source_cb(&self, arena: &mut Arena, buffer: &Vec<Vec<i32>>, samplerate: u32) -> (requests:
        Vec<(u64, Vec<i32>)>)
        requires
            old(arena).wf(),
        ensures
            final(arena).wf(),
            final(arena).sources() == old(arena).sources(),
            final(arena).counter() == old(arena).counter(),
            final(arena).issued_handles() == old(arena).issued_handles(),
            final(arena).nodes().dom() == old(arena).nodes().dom(),
            ({
                let r = spec_deliver(
                    spec_node_views(old(arena).nodes()),
                    self.node_handles(),
                    spec_channel_views(buffer@),
                    spec_added_samples(buffer@),
                    samplerate,
                );
                &&& spec_node_views(final(arena).nodes()) == r.0
                &&& spec_request_views(requests@) == r.1
            }),
    {
        let ghost m0: Map<u64, ChainableView> = spec_node_views(old(arena).nodes());
        let ghost chs: Seq<Seq<i32>> = spec_channel_views(buffer@);
        let ghost added: Seq<i32> = spec_added_samples(buffer@);
        let mut requests: Vec<(u64, Vec<i32>)> = Vec::new();
        let n = self.nodes.len();
        let mut i: usize = 0;
        proof {
            assert(self.nodes@.skip(0) =~= self.nodes@);
            let r = spec_deliver(spec_node_views(arena.nodes()), self.nodes@, chs, added,
                samplerate);
            assert(spec_request_views(requests@) =~= Seq::<(u64, Seq<i32>)>::empty());
            assert(spec_request_views(requests@) + r.1 =~= r.1);
        }
        while i < n
            invariant
                0 <= i <= n,
                n == self.nodes@.len(),
                arena.wf(),
                arena.sources() == old(arena).sources(),
                arena.counter() == old(arena).counter(),
                arena.issued_handles() == old(arena).issued_handles(),
                arena.nodes().dom() == old(arena).nodes().dom(),
                m0 == spec_node_views(old(arena).nodes()),
                chs == spec_channel_views(buffer@),
                added == spec_added_samples(buffer@),
                spec_deliver(m0, self.nodes@, chs, added, samplerate) == ({
                    let r = spec_deliver(
                        spec_node_views(arena.nodes()),
                        self.nodes@.skip(i as int),
                        chs,
                        added,
                        samplerate,
                    );
                    (r.0, spec_request_views(requests@) + r.1)
                }),
            decreases n - i,
        {
            let h = self.nodes[i];
            let ghost mcur: Map<u64, ChainableView> = spec_node_views(arena.nodes());
            proof {
                assert(self.nodes@.skip(i as int)[0] == h);
                assert(self.nodes@.skip(i as int).drop_first() =~= self.nodes@.skip(i + 1));
            }
            match arena.chainables.take(h) {
                Some(mut node) => {
                    let w = node.update(buffer, samplerate);
                    arena.chainables.insert(h, node);
                    proof {
                        assert(arena.chainables@.dom() =~= old(arena).chainables@.dom());
                        let step = spec_node_step(mcur[h], chs, added, samplerate);
                        assert(spec_node_views(arena.chainables@) =~= mcur.insert(h, step.0));
                    }
                    match w {
                        Some(win) => {
                            proof {
                                let step = spec_node_step(mcur[h], chs, added, samplerate);
                                let rest = spec_deliver(
                                    mcur.insert(h, step.0),
                                    self.nodes@.skip(i + 1),
                                    chs,
                                    added,
                                    samplerate,
                                );
                                assert(spec_request_views(requests@.push((h, win)))
                                    =~= spec_request_views(requests@).push((h, win@)));
                                assert(spec_request_views(requests@) + (seq![(h, win@)] + rest.1)
                                    =~= spec_request_views(requests@).push((h, win@)) + rest.1);
                            }
                            requests.push((h, win));
                        },
                        None => {},
                    }
                },
                None => {},
            }
            i = i + 1;
        }
        proof {
            assert(self.nodes@.skip(n as int) =~= Seq::<u64>::empty());
            assert(spec_request_views(requests@) + Seq::<(u64, Seq<i32>)>::empty()
                =~= spec_request_views(requests@));
        }
        requests
    }
}

} // verus!
