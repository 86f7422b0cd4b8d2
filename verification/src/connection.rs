//! Per-client coordination: assembling wire frames from socket reads,
//! dispatching streaming requests into the arena and chain, surfacing
//! asynchronous capture errors, and throttling outgoing level packets.
//!
//! The connection owns its arena, chain and receive accumulator; the caller
//! owns the socket, the clock and the capture backend, and drives this
//! state machine with plain values: received byte chunks, millisecond
//! timestamps, delivered sample buffers and backend error texts. Each
//! transition says exactly what it changed and what the caller must do
//! next (open a capture stream, send bytes, drop the connection).

use crate::analysis::spec_deliver;
use crate::analysis::spec_node_views;
use crate::analysis::spec_request_views;
use crate::analysis::spec_source_views;
use crate::analysis::Arena;
use crate::analysis::Chain;
use crate::analysis::Source;
use crate::analysis::SourceView;
use crate::frame::spec_frames;
use crate::frame::FrameBuffer;
use crate::messages::read_u32;
use crate::messages::spec_parse_start_stream;
use crate::messages::spec_tag;
use crate::messages::tag;
use crate::messages::MsgStartStreamRMS;
use crate::messages::MsgType;
use crate::messages::ProtocolError;
use crate::nodes::spec_added_samples;
use crate::nodes::spec_channel_views;
use crate::nodes::spec_node_output;
use crate::nodes::spec_node_store;
use crate::nodes::Chainable;
use crate::nodes::ChainableView;
use crate::nodes::RMS;
use vstd::bytes::spec_u32_from_le_bytes;
use vstd::prelude::*;

verus! {

/// The outgoing send-rate cap: at most this many result messages per
/// second are sent to a client.
pub const SEND_CAP_PER_SEC: u64 = 20;

/// The minimum gap between two sends, in milliseconds.
pub const MIN_SEND_GAP_MS: u64 = 1000 / SEND_CAP_PER_SEC;

/// Why a connection must be dropped.
#[derive(Clone, Copy, PartialEq, Eq, Structural, Debug)]
pub enum ConnError {
    /// A malformed or truncated frame arrived; the stream cannot be
    /// resynchronised.
    Protocol(ProtocolError),
    /// The arena has issued every representable handle.
    HandlesExhausted,
}

/// What the caller must do after a streaming request: open the capture
/// backend for this device and channel subset, delivering into the source
/// registered under `source_id`.
#[derive(Clone, Debug, PartialEq)]
pub struct StartCapture {
    pub source_id: u64,
    pub device: u32,
    pub channels: Vec<u32>,
}

/// The mathematical image of a `StartCapture`.
#[verifier::ext_equal]
pub struct StartCaptureView {
    pub source_id: u64,
    pub device: u32,
    pub channels: Seq<u32>,
}

impl View for StartCapture {
    type V = StartCaptureView;

    open spec fn view(&self) -> StartCaptureView {
        StartCaptureView {
            source_id: self.source_id,
            device: self.device,
            channels: self.channels@,
        }
    }
}

pub open spec fn spec_action_views(s: Seq<StartCapture>) -> Seq<StartCaptureView> {
    s.map_values(|a: StartCapture| a@)
}

/// The mathematical image of a connection's whole state, apart from the
/// receive accumulator.
#[verifier::ext_equal]
pub struct ConnView {
    pub sources: Map<u64, SourceView>,
    pub nodes: Map<u64, ChainableView>,
    pub counter: u64,
    pub chain_source: Option<u64>,
    pub chain_nodes: Seq<u64>,
    pub chain_running: bool,
    pub source_id: Option<u64>,
    pub rms_id: u64,
    pub send_rms: bool,
    pub last_send_ms: u64,
}

/// What dispatching one complete frame does to a connection. Only the
/// streaming request acts; every other kind is ignored. A request stops
/// the current chain, retires the previous source handle, registers a new
/// source (immediately live), rebuilds the chain around it and the
/// persistent level node, and turns streaming on.
pub open spec fn spec_dispatch(v: ConnView, frame: Seq<u8>) -> Result<
    (ConnView, Option<StartCaptureView>),
    ConnError,
> {
    let t = spec_u32_from_le_bytes(frame.subrange(4, 8));
    if t == spec_tag(MsgType::MSG_GET_RMS) {
        match spec_parse_start_stream(frame.skip(8)) {
            None => Err(ConnError::Protocol(ProtocolError::Truncated)),
            Some(req) => {
                if v.counter == u64::MAX {
                    Err(ConnError::HandlesExhausted)
                } else {
                    let sources1 = (match v.source_id {
                        Some(id) => v.sources.remove(id),
                        None => v.sources,
                    });
                    let sid = v.counter;
                    let v2 = ConnView {
                        sources: sources1.insert(
                            sid,
                            (SourceView {
                                device: req.0,
                                channels: req.1,
                                active: true,
                                error: None,
                            }),
                        ),
                        nodes: v.nodes,
                        counter: (v.counter + 1) as u64,
                        chain_source: Some(sid),
                        chain_nodes: seq![v.rms_id],
                        chain_running: true,
                        source_id: Some(sid),
                        rms_id: v.rms_id,
                        send_rms: true,
                        last_send_ms: v.last_send_ms,
                    };
                    Ok(
                        (
                            v2,
                            Some(
                                (StartCaptureView {
                                    source_id: sid,
                                    device: req.0,
                                    channels: req.1,
                                }),
                            ),
                        ),
                    )
                }
            },
        }
    } else {
        Ok((v, None))
    }
}

/// Dispatching a run of frames, in order, collecting the capture actions.
pub open spec fn spec_dispatch_all(v: ConnView, frames: Seq<Seq<u8>>) -> Result<
    (ConnView, Seq<StartCaptureView>),
    ConnError,
>
    decreases frames.len(),
{
    if frames.len() == 0 {
        Ok((v, Seq::empty()))
    } else {
        match spec_dispatch_all(v, frames.drop_last()) {
            Err(e) => Err(e),
            Ok((v1, acts)) => match spec_dispatch(v1, frames.last()) {
                Err(e) => Err(e),
                Ok((v2, act)) => Ok(
                    (
                        v2,
                        (match act {
                            Some(a) => acts.push(a),
                            None => acts,
                        }),
                    ),
                ),
            },
        }
    }
}

/// A dispatch error on a prefix of the frames is the error of the whole
/// run: dispatch stops at the first failing frame.
pub proof fn lemma_dispatch_all_err_prefix(v: ConnView, p: Seq<Seq<u8>>, rest: Seq<Seq<u8>>)
    requires
        spec_dispatch_all(v, p) is Err,
    ensures
        spec_dispatch_all(v, p + rest) == spec_dispatch_all(v, p),
    decreases rest.len(),
{
    if rest.len() == 0 {
        assert(p + rest =~= p);
    } else {
        assert((p + rest).drop_last() =~= p + rest.drop_last());
        assert((p + rest).last() == rest.last());
        lemma_dispatch_all_err_prefix(v, p, rest.drop_last());
    }
}

fn copy_u32s(v: &Vec<u32>) -> (r: Vec<u32>)
    ensures
        r@ == v@,
{
    let mut r: Vec<u32> = Vec::new();
    let n = v.len();
    let mut i: usize = 0;
    while i < n
        invariant
            0 <= i <= n,
            n == v@.len(),
            r@ == v@.take(i as int),
        decreases n - i,
    {
        r.push(v[i]);
        proof {
            assert(v@.take(i + 1) =~= v@.take(i as int).push(v@[i as int]));
        }
        i = i + 1;
    }
    proof {
        assert(v@.take(n as int) =~= v@);
    }
    r
}

/// One client's coordination state: the receive accumulator, the arena of
/// pipeline objects, the chain, the persistent level node's handle, and
/// the throttling clock.
pub struct Connection {
    frames: FrameBuffer,
    arena: Arena,
    chain: Chain,
    rms_id: u64,
    source_id: Option<u64>,
    send_rms: bool,
    last_send_ms: u64,
}

impl Connection {
    /// The bytes received but not yet cut into frames.
    pub closed spec fn pending(&self) -> Seq<u8> {
        self.frames@
    }

    /// The connection's state, apart from the receive accumulator.
    pub closed spec fn conn_view(&self) -> ConnView {
        ConnView {
            sources: spec_source_views(self.arena.sources()),
            nodes: spec_node_views(self.arena.nodes()),
            counter: self.arena.counter(),
            chain_source: self.chain.source_handle(),
            chain_nodes: self.chain.node_handles(),
            chain_running: self.chain.running(),
            source_id: self.source_id,
            rms_id: self.rms_id,
            send_rms: self.send_rms,
            last_send_ms: self.last_send_ms,
        }
    }

    /// The connection is usable: its arena invariant holds.
    pub closed spec fn wf(&self) -> bool {
        self.arena.wf()
    }

    /// A fresh connection: an empty accumulator, an arena holding one
    /// level node, no source, streaming off, and the throttle clock set to
    /// now.
    pub fn new(now_ms: u64) -> (r: Connection)
        ensures
            r.wf(),
            r.pending() == Seq::<u8>::empty(),
            r.conn_view() == (ConnView {
                sources: Map::<u64, SourceView>::empty(),
                nodes: Map::<u64, ChainableView>::empty().insert(
                    0,
                    ChainableView::RMS(Seq::empty()),
                ),
                counter: 1,
                chain_source: None::<u64>,
                chain_nodes: Seq::<u64>::empty(),
                chain_running: false,
                source_id: None::<u64>,
                rms_id: 0,
                send_rms: false,
                last_send_ms: now_ms,
            }),
    {
        let mut arena = Arena::new();
        let rms_id = arena.add_chainable(Chainable::RMS(RMS::new()));
        let chain = Chain::new();
        let r = Connection {
            frames: FrameBuffer::new(),
            arena,
            chain,
            rms_id,
            source_id: None,
            send_rms: false,
            last_send_ms: now_ms,
        };
        proof {
            assert(r.conn_view().sources =~= Map::<u64, SourceView>::empty());
            assert(r.conn_view().nodes =~= Map::<u64, ChainableView>::empty().insert(
                0,
                ChainableView::RMS(Seq::empty()),
            ));
            assert(r.conn_view() =~= (ConnView {
                sources: Map::<u64, SourceView>::empty(),
                nodes: Map::<u64, ChainableView>::empty().insert(
                    0,
                    ChainableView::RMS(Seq::empty()),
                ),
                counter: 1,
                chain_source: None::<u64>,
                chain_nodes: Seq::<u64>::empty(),
                chain_running: false,
                source_id: None::<u64>,
                rms_id: 0,
                send_rms: false,
                last_send_ms: now_ms,
            }));
        }
        r
    }

    /// The handle of the persistent level node.
    pub fn rms_handle(&self) -> (r: u64)
        ensures
            r == self.conn_view().rms_id,
    {
        self.rms_id
    }

    /// Whether a streaming request has been accepted.
    pub fn is_streaming(&self) -> (r: bool)
        ensures
            r == self.conn_view().send_rms,
    {
        self.send_rms
    }

    /// Feeds one chunk of received bytes: appends it to the accumulator,
    /// cuts off every complete frame, and dispatches each in order. A
    /// single chunk may complete zero, one or several frames, and a frame
    /// may span many chunks. Returns the capture streams the caller must
    /// now open; an error means the connection must be dropped.
    pub fn on_bytes(&mut self, chunk: &Vec<u8>) -> (r: Result<Vec<StartCapture>, ConnError>)
        requires
            old(self).wf(),
        ensures
            final(self).wf(),
            ({
                let b0 = old(self).pending() + chunk@;
                match r {
                    Ok(actions) => {
                        &&& spec_frames(b0) is Some
                        &&& ({
                            let fr = spec_frames(b0)->Some_0;
                            &&& spec_dispatch_all(old(self).conn_view(), fr.0) is Ok
                            &&& final(self).conn_view() == spec_dispatch_all(
                                old(self).conn_view(),
                                fr.0,
                            )->Ok_0.0
                            &&& spec_action_views(actions@) == spec_dispatch_all(
                                old(self).conn_view(),
                                fr.0,
                            )->Ok_0.1
                            &&& final(self).pending() == fr.1
                        })
                    },
                    Err(e) => {
                        ||| spec_frames(b0) is None
                        ||| (spec_frames(b0) is Some && spec_dispatch_all(
                            old(self).conn_view(),
                            spec_frames(b0)->Some_0.0,
                        ) == Err::<(ConnView, Seq<StartCaptureView>), ConnError>(e))
                    },
                }
            }),
    {
        let ghost b0: Seq<u8> = old(self).pending() + chunk@;
        let ghost v0: ConnView = old(self).conn_view();
        self.frames.push_bytes(chunk);
        let mut actions: Vec<StartCapture> = Vec::new();
        let ghost mut fs_done: Seq<Seq<u8>> = Seq::empty();
        proof {
            assert(spec_action_views(actions@) =~= Seq::<StartCaptureView>::empty());
            if spec_frames(self.frames@) is Some {
                let fr = spec_frames(self.frames@)->Some_0;
                assert(fs_done + fr.0 =~= fr.0);
            }
        }
        loop
            invariant
                self.wf(),
                b0 == old(self).pending() + chunk@,
                v0 == old(self).conn_view(),
                (match spec_frames(self.frames@) {
                    Some(fr) => spec_frames(b0) == Some((fs_done + fr.0, fr.1)),
                    None => spec_frames(b0) is None,
                }),
                spec_dispatch_all(v0, fs_done) == Ok::<(ConnView, Seq<StartCaptureView>), ConnError>(
                    (self.conn_view(), spec_action_views(actions@)),
                ),
            ensures
                self.wf(),
                b0 == old(self).pending() + chunk@,
                v0 == old(self).conn_view(),
                spec_frames(self.frames@) == Some((Seq::<Seq<u8>>::empty(), self.frames@)),
                (match spec_frames(self.frames@) {
                    Some(fr) => spec_frames(b0) == Some((fs_done + fr.0, fr.1)),
                    None => spec_frames(b0) is None,
                }),
                spec_dispatch_all(v0, fs_done) == Ok::<(ConnView, Seq<StartCaptureView>), ConnError>(
                    (self.conn_view(), spec_action_views(actions@)),
                ),
            decreases self.frames@.len(),
        {
            let ghost pending_before: Seq<u8> = self.frames@;
            let popped = self.frames.pop_frame();
            match popped {
                Err(e) => {
                    proof {
                        assert(spec_frames(pending_before) is None);
                    }
                    return Err(ConnError::Protocol(e));
                },
                Ok(None) => {
                    break ;
                },
                Ok(Some(frame)) => {
                    proof {
                        let l = crate::frame::spec_frame_len(pending_before) as int;
                        assert(frame@.len() == l);
                        if spec_frames(self.frames@) is Some {
                            let fr2 = spec_frames(self.frames@)->Some_0;
                            assert(spec_frames(pending_before) == Some(
                                (seq![frame@] + fr2.0, fr2.1),
                            ));
                            assert(fs_done + (seq![frame@] + fr2.0) =~= fs_done.push(frame@)
                                + fr2.0);
                        }
                    }
                    let t = read_u32(&frame, 4);
                    let ghost vcur: ConnView = self.conn_view();
                    if t == tag(MsgType::MSG_GET_RMS) {
                        let flen = frame.len();
                        let payload = vstd::slice::slice_to_vec(
                            vstd::slice::slice_subrange(frame.as_slice(), 8, flen),
                        );
                        proof {
                            assert(payload@ =~= frame@.skip(8));
                        }
                        match MsgStartStreamRMS::deserialized(payload) {
                            Err(pe) => {
                                proof {
                                    let fs2 = fs_done.push(frame@);
                                    assert(fs2.drop_last() =~= fs_done);
                                    assert(fs2.last() == frame@);
                                    assert(spec_dispatch(vcur, frame@) == Err::<
                                        (ConnView, Option<StartCaptureView>),
                                        ConnError,
                                    >(ConnError::Protocol(pe)));
                                    assert(spec_dispatch_all(v0, fs2) == Err::<
                                        (ConnView, Seq<StartCaptureView>),
                                        ConnError,
                                    >(ConnError::Protocol(pe)));
                                    if spec_frames(self.frames@) is Some {
                                        let fr2 = spec_frames(self.frames@)->Some_0;
                                        lemma_dispatch_all_err_prefix(v0, fs2, fr2.0);
                                    }
                                }
                                return Err(ConnError::Protocol(pe));
                            },
                            Ok(req) => {
                                if self.arena.next_handle() == u64::MAX {
                                    proof {
                                        let fs2 = fs_done.push(frame@);
                                        assert(fs2.drop_last() =~= fs_done);
                                        assert(fs2.last() == frame@);
                                        assert(spec_dispatch(vcur, frame@) == Err::<
                                            (ConnView, Option<StartCaptureView>),
                                            ConnError,
                                        >(ConnError::HandlesExhausted));
                                        assert(spec_dispatch_all(v0, fs2) == Err::<
                                            (ConnView, Seq<StartCaptureView>),
                                            ConnError,
                                        >(ConnError::HandlesExhausted));
                                        if spec_frames(self.frames@) is Some {
                                            let fr2 = spec_frames(self.frames@)->Some_0;
                                            lemma_dispatch_all_err_prefix(v0, fs2, fr2.0);
                                        }
                                    }
                                    return Err(ConnError::HandlesExhausted);
                                }
                                let channels_for_action = copy_u32s(&req.channels);
                                let device = req.device;
                                self.chain.stop();
                                match self.source_id {
                                    Some(old_id) => {
                                        self.arena.remove_sourcable(old_id);
                                    },
                                    None => {},
                                }
                                let src = Source::new(device, req.channels);
                                let sid = self.arena.add_sourcable(src);
                                self.source_id = Some(sid);
                                let mut chain = Chain::new();
                                chain.set_source(sid);
                                chain.add_node(self.rms_id);
                                let started = chain.start(&mut self.arena);
                                self.chain = chain;
                                self.send_rms = true;
                                let action = StartCapture {
                                    source_id: sid,
                                    device,
                                    channels: channels_for_action,
                                };
                                proof {
                                    assert(started);
                                    let step = spec_dispatch(vcur, frame@);
                                    assert(step is Ok);
                                    assert(self.conn_view().sources =~= step->Ok_0.0.sources);
                                    assert(self.conn_view().nodes =~= step->Ok_0.0.nodes);
                                    assert(self.conn_view() =~= step->Ok_0.0);
                                    assert(action@ == step->Ok_0.1->Some_0);
                                    let fs2 = fs_done.push(frame@);
                                    assert(fs2.drop_last() =~= fs_done);
                                    assert(fs2.last() == frame@);
                                    assert(spec_action_views(actions@.push(action))
                                        =~= spec_action_views(actions@).push(action@));
                                    fs_done = fs2;
                                }
                                actions.push(action);
                            },
                        }
                    } else {
                        proof {
                            let fs2 = fs_done.push(frame@);
                            assert(fs2.drop_last() =~= fs_done);
                            assert(fs2.last() == frame@);
                            fs_done = fs2;
                        }
                    }
                },
            }
        }
        proof {
            assert(fs_done + Seq::<Seq<u8>>::empty() =~= fs_done);
        }
        Ok(actions)
    }

    /// Delivers one capture buffer to the chain's nodes, in order, and
    /// reports whether the chain still runs — the capture callback should
    /// stop the backend stream when it no longer does. Returns the windows
    /// that spectrum nodes handed out for transformation.
    pub fn deliver(&mut self, buffer: &Vec<Vec<i32>>, samplerate: u32) -> (r: (
        Vec<(u64, Vec<i32>)>,
        bool,
    ))
        requires
            old(self).wf(),
        ensures
            final(self).wf(),
            final(self).pending() == old(self).pending(),
            ({
                let v = old(self).conn_view();
                let d = spec_deliver(
                    v.nodes,
                    v.chain_nodes,
                    spec_channel_views(buffer@),
                    spec_added_samples(buffer@),
                    samplerate,
                );
                &&& final(self).conn_view() == (ConnView { nodes: d.0, ..v })
                &&& spec_request_views(r.0@) == d.1
                &&& r.1 == v.chain_running
            }),
    {
        let requests = self.chain.source_cb(&mut self.arena, buffer, samplerate);
        let running = self.chain.is_running();
        (requests, running)
    }

    /// Stores a transformed window back into the node that handed it out;
    /// a no-op when the handle is gone.
    pub fn store_spectrum(&mut self, id: u64, spectrum: Vec<i64>)
        requires
            old(self).wf(),
        ensures
            final(self).wf(),
            final(self).pending() == old(self).pending(),
            ({
                let v = old(self).conn_view();
                if v.nodes.dom().contains(id) {
                    final(self).conn_view() == (ConnView {
                        nodes: v.nodes.insert(id, spec_node_store(v.nodes[id], spectrum@)),
                        ..v
                    })
                } else {
                    final(self).conn_view() == v
                }
            }),
    {
        self.arena.store_node_spectrum(id, spectrum);
    }

    /// Records an asynchronous backend failure against the current source;
    /// dropped when no source is registered.
    pub fn report_error(&mut self, message: Vec<u8>)
        requires
            old(self).wf(),
        ensures
            final(self).wf(),
            final(self).pending() == old(self).pending(),
            ({
                let v = old(self).conn_view();
                match v.source_id {
                    Some(id) => {
                        if v.sources.dom().contains(id) {
                            final(self).conn_view() == (ConnView {
                                sources: v.sources.insert(
                                    id,
                                    (SourceView { error: Some(message@), ..v.sources[id] }),
                                ),
                                ..v
                            })
                        } else {
                            final(self).conn_view() == v
                        }
                    },
                    None => final(self).conn_view() == v,
                }
            }),
    {
        match self.source_id {
            Some(id) => self.arena.set_source_error(id, message),
            None => {},
        }
    }

    /// Collects the current source's pending asynchronous error, exactly
    /// once; the caller forwards it to the client as an error message.
    pub fn poll_error(&mut self) -> (r: Option<Vec<u8>>)
        requires
            old(self).wf(),
        ensures
            final(self).wf(),
            final(self).pending() == old(self).pending(),
            ({
                let v = old(self).conn_view();
                match v.source_id {
                    Some(id) => {
                        if v.sources.dom().contains(id) {
                            &&& final(self).conn_view() == (ConnView {
                                sources: v.sources.insert(
                                    id,
                                    (SourceView { error: None, ..v.sources[id] }),
                                ),
                                ..v
                            })
                            &&& (match (r, v.sources[id].error) {
                                (Some(m), Some(e)) => m@ == e,
                                (None, None) => true,
                                _ => false,
                            })
                        } else {
                            final(self).conn_view() == v && r is None
                        }
                    },
                    None => final(self).conn_view() == v && r is None,
                }
            }),
    {
        match self.source_id {
            Some(id) => self.arena.take_source_error(id),
            None => None,
        }
    }

    /// The throttled send decision: when streaming is on, the send-rate
    /// gap has elapsed and the level node has output, hands back the level
    /// to send and stamps the clock; the gap is restarted whenever it has
    /// elapsed, sent or not.
    pub fn tick(&mut self, now_ms: u64) -> (r: Option<i64>)
        requires
            old(self).wf(),
            now_ms >= old(self).conn_view().last_send_ms,
        ensures
            final(self).wf(),
            final(self).pending() == old(self).pending(),
            ({
                let v = old(self).conn_view();
                let due = v.send_rms && now_ms - v.last_send_ms > MIN_SEND_GAP_MS;
                let out = (if v.nodes.dom().contains(v.rms_id) {
                    spec_node_output(v.nodes[v.rms_id])
                } else {
                    Seq::<i64>::empty()
                });
                &&& (if due {
                    final(self).conn_view() == (ConnView { last_send_ms: now_ms, ..v })
                } else {
                    final(self).conn_view() == v
                })
                &&& (match r {
                    Some(val) => due && out.len() > 0 && val == out[0],
                    None => !due || out.len() == 0,
                })
            }),
    {
        if self.send_rms && now_ms - self.last_send_ms > MIN_SEND_GAP_MS {
            self.last_send_ms = now_ms;
            match self.arena.node_output(self.rms_id) {
                Some(out) => {
                    if out.len() > 0 {
                        Some(out[0])
                    } else {
                        None
                    }
                },
                None => None,
            }
        } else {
            None
        }
    }

    /// Tears the session down: stops the chain and retires the source and
    /// level-node handles. The caller closes the socket and the backend
    /// stream.
    pub fn close(&mut self)
        requires
            old(self).wf(),
        ensures
            final(self).wf(),
            final(self).pending() == old(self).pending(),
            ({
                let v = old(self).conn_view();
                let sources1 = (match v.source_id {
                    Some(id) => v.sources.remove(id),
                    None => v.sources,
                });
                final(self).conn_view() == (ConnView {
                    sources: sources1,
                    nodes: v.nodes.remove(v.rms_id),
                    chain_running: false,
                    source_id: None::<u64>,
                    send_rms: false,
                    ..v
                })
            }),
    {
        self.chain.stop();
        match self.source_id {
            Some(id) => {
                self.arena.remove_sourcable(id);
            },
            None => {},
        }
        self.source_id = None;
        self.send_rms = false;
        self.arena.remove_chainable(self.rms_id);
    }
}

} // verus!
