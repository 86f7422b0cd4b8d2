//! Frame reassembly over a streaming transport.
//!
//! TCP hands the connection arbitrary byte chunks: one read may carry a
//! fraction of a message, or several messages at once. This module keeps a
//! growing byte accumulator and cuts complete frames off its front. A frame
//! is complete once the accumulator holds at least the 4-byte length field
//! and the declared number of bytes; a declared length smaller than the
//! header itself is malformed and poisons the stream.

use crate::messages::ProtocolError;
use crate::messages::Serializable;
use vstd::bytes::*;
use vstd::prelude::*;

verus! {

/// The declared total length of the frame at the front of `b`.
pub open spec fn spec_frame_len(b: Seq<u8>) -> u32
    recommends
        b.len() >= 4,
{
    spec_u32_from_le_bytes(b.subrange(0, 4))
}

/// A byte string that is exactly one frame: its length field declares its
/// own length, header included.
pub open spec fn wf_frame(f: Seq<u8>) -> bool {
    &&& f.len() >= 8
    &&& spec_frame_len(f) == f.len()
}

/// Greedy extraction: all complete frames at the front of `b`, and the bytes
/// left waiting for more input. `None` when a frame declares a length
/// shorter than its own header, which no further input can repair.
pub open spec fn spec_frames(b: Seq<u8>) -> Option<(Seq<Seq<u8>>, Seq<u8>)>
    decreases b.len(),
{
    if b.len() < 4 {
        Some((Seq::empty(), b))
    } else {
        let l = spec_frame_len(b) as int;
        if l < 8 {
            None
        } else if b.len() < l {
            Some((Seq::empty(), b))
        } else {
            match spec_frames(b.skip(l)) {
                Some((fs, rest)) => Some((seq![b.take(l)] + fs, rest)),
                None => None,
            }
        }
    }
}

/// The receive-side byte accumulator of one connection.
pub struct FrameBuffer {
    buf: Vec<u8>,
}

impl View for FrameBuffer {
    type V = Seq<u8>;

    closed spec fn view(&self) -> Seq<u8> {
        self.buf@
    }
}

impl FrameBuffer {
    pub fn new() -> (r: FrameBuffer)
        ensures
            r@ == Seq::<u8>::empty(),
    {
        FrameBuffer { buf: Vec::new() }
    }

    /// Appends one chunk as it came off the socket.
    pub fn push_bytes(&mut self, chunk: &Vec<u8>)
        ensures
            final(self)@ == old(self)@ + chunk@,
    {
        self.buf.extend_from_slice(chunk.as_slice());
    }

    /// Cuts the frame at the front off the accumulator, if it is complete.
    /// `Ok(None)` means more bytes are needed; an error means the declared
    /// length is shorter than the frame header, so the stream is beyond
    /// recovery.
    pub fn pop_frame(&mut self) -> (r: Result<Option<Vec<u8>>, ProtocolError>)
        ensures
            match r {
                Ok(Some(f)) => {
                    &&& old(self)@.len() >= 4
                    &&& spec_frame_len(old(self)@) >= 8
                    &&& old(self)@.len() >= spec_frame_len(old(self)@)
                    &&& f@ == old(self)@.take(spec_frame_len(old(self)@) as int)
                    &&& final(self)@ == old(self)@.skip(spec_frame_len(old(self)@) as int)
                },
                Ok(None) => {
                    &&& final(self)@ == old(self)@
                    &&& (old(self)@.len() < 4 || (spec_frame_len(old(self)@) >= 8 && old(
                        self,
                    )@.len() < spec_frame_len(old(self)@)))
                },
                Err(e) => {
                    &&& final(self)@ == old(self)@
                    &&& old(self)@.len() >= 4
                    &&& spec_frame_len(old(self)@) < 8
                    &&& e == ProtocolError::BadLength
                },
            },
    {
        if self.buf.len() < 4 {
            return Ok(None);
        }
        let l = crate::messages::read_u32(&self.buf, 0);
        if l < 8 {
            return Err(ProtocolError::BadLength);
        }
        if (self.buf.len() as u64) < l as u64 {
            return Ok(None);
        }
        let tail = self.buf.split_off(l as usize);
        let mut frame = tail;
        core::mem::swap(&mut self.buf, &mut frame);
        Ok(Some(frame))
    }
}

/// Extraction commutes with appending input: whatever chunk arrives next,
/// the frames cut from the extended accumulator are the frames already cut
/// plus those cut after the pending bytes meet the new chunk. This is what
/// makes reassembly independent of how the stream is chopped into reads.
pub proof fn lemma_frames_append(b: Seq<u8>, c: Seq<u8>)
    ensures
        match spec_frames(b) {
            None => spec_frames(b + c) is None,
            Some((fs1, r1)) => spec_frames(b + c) == (match spec_frames(r1 + c) {
                Some((fs2, r2)) => Some((fs1 + fs2, r2)),
                None => None::<(Seq<Seq<u8>>, Seq<u8>)>,
            }),
        },
    decreases b.len(),
{
    let bc = b + c;
    if b.len() < 4 {
        match spec_frames(b + c) {
            Some((fs2, r2)) => {
                assert(Seq::<Seq<u8>>::empty() + fs2 =~= fs2);
            },
            None => {},
        }
    } else {
        assert(bc.subrange(0, 4) =~= b.subrange(0, 4));
        let l = spec_frame_len(b) as int;
        if l < 8 {
        } else if b.len() < l {
            match spec_frames(b + c) {
                Some((fs2, r2)) => {
                    assert(Seq::<Seq<u8>>::empty() + fs2 =~= fs2);
                },
                None => {},
            }
        } else {
            assert(bc.take(l) =~= b.take(l));
            assert(bc.skip(l) =~= b.skip(l) + c);
            lemma_frames_append(b.skip(l), c);
            match spec_frames(b.skip(l)) {
                None => {},
                Some((fs_tail, r1)) => {
                    match spec_frames(r1 + c) {
                        None => {},
                        Some((fs2, r2)) => {
                            assert(seq![b.take(l)] + (fs_tail + fs2) =~= (seq![b.take(l)]
                                + fs_tail) + fs2);
                        },
                    }
                },
            }
        }
    }
}

/// The concatenation of any number of complete frames extracts to exactly
/// those frames, in order, with nothing pending.
pub proof fn lemma_frames_of_concat(fs: Seq<Seq<u8>>)
    requires
        forall|i: int| 0 <= i < fs.len() ==> wf_frame(#[trigger] fs[i]),
    ensures
        spec_frames(fs.flatten()) == Some((fs, Seq::<u8>::empty())),
    decreases fs.len(),
{
    let b = fs.flatten();
    if fs.len() == 0 {
        assert(b.len() == 0);
        assert(fs =~= Seq::<Seq<u8>>::empty());
    } else {
        let f = fs.first();
        assert(wf_frame(fs[0]));
        let l = f.len() as int;
        assert(b == f + fs.drop_first().flatten());
        assert(b.subrange(0, 4) =~= f.subrange(0, 4));
        assert(spec_frame_len(b) == l);
        assert(b.take(l) =~= f);
        assert(b.skip(l) =~= fs.drop_first().flatten());
        assert(forall|i: int|
            0 <= i < fs.drop_first().len() ==> wf_frame(#[trigger] fs.drop_first()[i]));
        lemma_frames_of_concat(fs.drop_first());
        assert(seq![f] + fs.drop_first() =~= fs);
    }
}

/// What the incremental algorithm emits when fed `chunks` one after the
/// other: the frames cut after each arrival, in order, and the bytes still
/// pending at the end.
pub open spec fn spec_feed(chunks: Seq<Seq<u8>>) -> Option<(Seq<Seq<u8>>, Seq<u8>)>
    decreases chunks.len(),
{
    if chunks.len() == 0 {
        Some((Seq::empty(), Seq::empty()))
    } else {
        match spec_feed(chunks.drop_last()) {
            None => None,
            Some((fs, pending)) => match spec_frames(pending + chunks.last()) {
                Some((fs2, pending2)) => Some((fs + fs2, pending2)),
                None => None,
            },
        }
    }
}

/// Feeding a stream chunk by chunk emits exactly the frames of the whole
/// stream: the split points make no difference.
pub proof fn lemma_feed_is_frames_of_concat(chunks: Seq<Seq<u8>>)
    ensures
        spec_feed(chunks) == spec_frames(chunks.flatten()),
    decreases chunks.len(),
{
    if chunks.len() == 0 {
        assert(chunks.flatten().len() == 0);
        assert(spec_frames(chunks.flatten()) == Some(
            (Seq::<Seq<u8>>::empty(), chunks.flatten()),
        ));
        assert(chunks.flatten() =~= Seq::<u8>::empty());
    } else {
        let pre = chunks.drop_last();
        let last = chunks.last();
        lemma_feed_is_frames_of_concat(pre);
        pre.lemma_flatten_push(last);
        assert(pre.push(last) =~= chunks);
        assert(chunks.flatten() == pre.flatten() + last);
        lemma_frames_append(pre.flatten(), last);
    }
}

/// The encoded streaming request is one well-formed frame.
pub proof fn lemma_start_stream_wire_is_frame(m: &crate::messages::MsgStartStreamRMS)
    requires
        m.wf(),
    ensures
        wf_frame(m.wire()),
{
    lemma_auto_spec_u32_to_from_le_bytes();
    crate::messages::lemma_channels_bytes_len(m.channels@);
    let w = m.wire();
    assert(w.subrange(0, 4) =~= spec_u32_to_le_bytes((20 + 4 * m.channels@.len()) as u32));
    assert(w.len() == 20 + 4 * m.channels@.len());
}

/// The encoded error message is one well-formed frame.
pub proof fn lemma_error_wire_is_frame(m: &crate::messages::MsgError)
    requires
        m.wf(),
    ensures
        wf_frame(m.wire()),
{
    lemma_auto_spec_u16_to_from_le_bytes();
    lemma_auto_spec_u32_to_from_le_bytes();
    let w = m.wire();
    assert(w.subrange(0, 4) =~= spec_u32_to_le_bytes((10 + m.message@.len()) as u32));
    assert(w.len() == 10 + m.message@.len());
}

/// The encoded level packet is one well-formed frame.
pub proof fn lemma_rms_packet_wire_is_frame(m: &crate::messages::MsgRMSPacket)
    requires
        m.wf(),
    ensures
        wf_frame(m.wire()),
{
    lemma_auto_spec_u32_to_from_le_bytes();
    let w = m.wire();
    assert(w.subrange(0, 4) =~= spec_u32_to_le_bytes(12));
    assert(w.len() == 12);
}

/// The encoded device list is one well-formed frame.
pub proof fn lemma_devices_list_wire_is_frame(m: &crate::messages::MsgDevicesList)
    requires
        m.wf(),
    ensures
        wf_frame(m.wire()),
{
    lemma_auto_spec_u32_to_from_le_bytes();
    let records = crate::messages::spec_device_records(
        crate::messages::spec_device_views(m.devices@),
    );
    let w = m.wire();
    assert(w.subrange(0, 4) =~= spec_u32_to_le_bytes((12 + records.len()) as u32));
    assert(w.len() == 12 + records.len());
}

/// A single frame, split across arbitrarily many chunks, is reassembled to
/// exactly that frame, whatever the split points were.
pub proof fn lemma_split_frame_reassembly(f: Seq<u8>, chunks: Seq<Seq<u8>>)
    requires
        wf_frame(f),
        chunks.flatten() == f,
    ensures
        spec_feed(chunks) == Some((seq![f], Seq::<u8>::empty())),
{
    lemma_feed_is_frames_of_concat(chunks);
    let single = seq![f];
    single.lemma_flatten_one_element();
    assert(single.flatten() == f);
    assert(forall|i: int| 0 <= i < single.len() ==> wf_frame(#[trigger] single[i]));
    lemma_frames_of_concat(single);
}

/// `N` complete frames handed over in one chunk are reassembled to exactly
/// those `N` frames, in their original order.
pub proof fn lemma_concat_reassembly(fs: Seq<Seq<u8>>)
    requires
        forall|i: int| 0 <= i < fs.len() ==> wf_frame(#[trigger] fs[i]),
    ensures
        spec_feed(seq![fs.flatten()]) == Some((fs, Seq::<u8>::empty())),
{
    let chunks = seq![fs.flatten()];
    chunks.lemma_flatten_one_element();
    assert(chunks.flatten() == fs.flatten());
    lemma_feed_is_frames_of_concat(chunks);
    lemma_frames_of_concat(fs);
}

/// End to end for the request the server consumes: an encoded streaming
/// request, however it is chopped into reads, reassembles to exactly one
/// frame, and that frame's payload parses back to the request.
pub proof fn lemma_request_reassembles_and_parses(
    m: &crate::messages::MsgStartStreamRMS,
    chunks: Seq<Seq<u8>>,
)
    requires
        m.wf(),
        chunks.flatten() == m.wire(),
    ensures
        spec_feed(chunks) == Some((seq![m.wire()], Seq::<u8>::empty())),
        crate::messages::spec_parse_start_stream(m.wire().skip(8)) == Some(
            (m.device, m.channels@),
        ),
{
    lemma_start_stream_wire_is_frame(m);
    lemma_split_frame_reassembly(m.wire(), chunks);
    crate::messages::lemma_start_stream_round_trip(*m);
}

} // verus!
