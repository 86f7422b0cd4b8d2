//! The wire codec: the fixed registry of message kinds and, for each kind,
//! its length-prefixed byte layout.
//!
//! Every message is laid out as a 4-byte total-length field (counting itself
//! and the type field), a 4-byte type tag, then a type-specific payload. All
//! multi-byte integers are little-endian; this is the one canonical byte
//! order used end-to-end.

use vstd::bytes::*;
use vstd::prelude::*;

verus! {

/// The integer type tags of the wire protocol. Several kinds are reserved
/// for parameter setting and are never produced by this library.
#[allow(non_camel_case_types)]
#[derive(Clone, Copy, PartialEq, Eq, Structural, Debug)]
pub enum MsgType {
    MSG_GET_RMS,
    MSG_RMS_PACKET,
    MSG_GET_DEVICES,
    MSG_SET_FLOAT_PARAM,
    MSG_DEVICES_LIST,
    MSG_DB_PACKET,
    MSG_SET_BOOLEAN_PARAM,
    MSG_CONFIGUREDB,
    MSG_ERROR,
}

/// The 4-byte tag written on the wire for each message kind.
pub open spec fn spec_tag(t: MsgType) -> u32 {
    match t {
        MsgType::MSG_GET_RMS => 0,
        MsgType::MSG_RMS_PACKET => 1,
        MsgType::MSG_GET_DEVICES => 2,
        MsgType::MSG_SET_FLOAT_PARAM => 3,
        MsgType::MSG_DEVICES_LIST => 4,
        MsgType::MSG_DB_PACKET => 5,
        MsgType::MSG_SET_BOOLEAN_PARAM => 6,
        MsgType::MSG_CONFIGUREDB => 7,
        MsgType::MSG_ERROR => 8,
    }
}

#[verifier::when_used_as_spec(spec_tag)]
pub fn tag(t: MsgType) -> (r: u32)
    ensures
        r == spec_tag(t),
{
    match t {
        MsgType::MSG_GET_RMS => 0,
        MsgType::MSG_RMS_PACKET => 1,
        MsgType::MSG_GET_DEVICES => 2,
        MsgType::MSG_SET_FLOAT_PARAM => 3,
        MsgType::MSG_DEVICES_LIST => 4,
        MsgType::MSG_DB_PACKET => 5,
        MsgType::MSG_SET_BOOLEAN_PARAM => 6,
        MsgType::MSG_CONFIGUREDB => 7,
        MsgType::MSG_ERROR => 8,
    }
}

/// A malformed or truncated frame or payload.
#[derive(Clone, Copy, PartialEq, Eq, Structural, Debug)]
pub enum ProtocolError {
    /// Fewer bytes than the layout of the claimed kind needs.
    Truncated,
    /// A frame whose declared total length is shorter than its own header.
    BadLength,
}

// ---------------------------------------------------------------------------
// Byte-building and byte-reading helpers.
// ---------------------------------------------------------------------------
pub fn push_u16(out: &mut Vec<u8>, x: u16)
    ensures
        final(out)@ == old(out)@ + spec_u16_to_le_bytes(x),
{
    let mut b = u16_to_le_bytes(x);
    out.append(&mut b);
}

pub fn push_u32(out: &mut Vec<u8>, x: u32)
    ensures
        final(out)@ == old(out)@ + spec_u32_to_le_bytes(x),
{
    let mut b = u32_to_le_bytes(x);
    out.append(&mut b);
}

pub fn read_u16(data: &Vec<u8>, at: usize) -> (r: u16)
    requires
        at + 2 <= data@.len(),
    ensures
        r == spec_u16_from_le_bytes(data@.subrange(at as int, at + 2)),
{
    // Reading the length brings the machine bound on `at + 2` into scope.
    let _len: usize = data.len();
    u16_from_le_bytes(vstd::slice::slice_subrange(data.as_slice(), at, at + 2))
}

pub fn read_u32(data: &Vec<u8>, at: usize) -> (r: u32)
    requires
        at + 4 <= data@.len(),
    ensures
        r == spec_u32_from_le_bytes(data@.subrange(at as int, at + 4)),
{
    // Reading the length brings the machine bound on `at + 4` into scope.
    let _len: usize = data.len();
    u32_from_le_bytes(vstd::slice::slice_subrange(data.as_slice(), at, at + 4))
}

/// The common header: total length, then type tag.
pub open spec fn spec_header(total_len: u32, t: MsgType) -> Seq<u8> {
    spec_u32_to_le_bytes(total_len) + spec_u32_to_le_bytes(spec_tag(t))
}

/// Anything a connection can write to the wire: a well-formedness condition,
/// the mathematical byte image, and the encoder that is proved to produce it.
pub trait Serializable: Sized {
    /// When the message fits its layout (string lengths fit their length
    /// fields, the total length fits the 4-byte length field).
    spec fn wf(&self) -> bool;

    /// The exact bytes this message puts on the wire, header included.
    spec fn wire(&self) -> Seq<u8>;

    fn serialize(&self) -> (r: Vec<u8>)
        requires
            self.wf(),
        ensures
            r@ == self.wire(),
    ;
}

// ---------------------------------------------------------------------------
// MsgGetDevices: a bare request, nothing but the header.
// ---------------------------------------------------------------------------
/// Request for the list of capture devices; its payload is empty.
#[derive(Debug, PartialEq)]
pub struct MsgGetDevices {
    pub msg_type: MsgType,
}

impl MsgGetDevices {
    pub fn new() -> (r: MsgGetDevices)
        ensures
            r.msg_type == MsgType::MSG_GET_DEVICES,
    {
        MsgGetDevices { msg_type: MsgType::MSG_GET_DEVICES }
    }
}

// ---------------------------------------------------------------------------
// MsgError: a 2-byte message length, then the message bytes.
// ---------------------------------------------------------------------------
/// An error report sent to the client. The text travels as raw bytes; the
/// caller is responsible for handing in (and reading out) UTF-8.
#[derive(Debug, PartialEq)]
pub struct MsgError {
    pub msg_type: MsgType,
    pub message: Vec<u8>,
}

/// Payload layout of `MsgError`: message length, then the message.
pub open spec fn spec_error_payload(message: Seq<u8>) -> Seq<u8> {
    spec_u16_to_le_bytes(message.len() as u16) + message
}

/// Reads an `MsgError` payload; `None` when it is truncated.
pub open spec fn spec_parse_error(payload: Seq<u8>) -> Option<Seq<u8>> {
    if payload.len() < 2 {
        None
    } else {
        let n = spec_u16_from_le_bytes(payload.subrange(0, 2)) as int;
        if payload.len() < 2 + n {
            None
        } else {
            Some(payload.subrange(2, 2 + n))
        }
    }
}

/// The full wire image of an error message.
pub open spec fn spec_error_wire(message: Seq<u8>) -> Seq<u8> {
    spec_header((10 + message.len()) as u32, MsgType::MSG_ERROR) + spec_error_payload(message)
}

impl MsgError {
    pub fn new() -> (r: MsgError)
        ensures
            r.msg_type == MsgType::MSG_ERROR,
            r.message@ == Seq::<u8>::empty(),
            r.wf(),
    {
        MsgError { msg_type: MsgType::MSG_ERROR, message: Vec::new() }
    }

    /// Decodes one isolated frame's payload (the bytes after the header).
    /// Succeeds exactly when the payload holds its declared message length;
    /// bytes past the message are ignored.
    pub fn deserialized(data: Vec<u8>) -> (r: Result<MsgError, ProtocolError>)
        ensures
            match r {
                Ok(m) => {
                    &&& spec_parse_error(data@) == Some(m.message@)
                    &&& m.msg_type == MsgType::MSG_ERROR
                    &&& m.wf()
                },
                Err(e) => {
                    &&& spec_parse_error(data@) is None
                    &&& e == ProtocolError::Truncated
                },
            },
    {
        if data.len() < 2 {
            return Err(ProtocolError::Truncated);
        }
        let n = read_u16(&data, 0) as usize;
        if data.len() < 2 + n {
            return Err(ProtocolError::Truncated);
        }
        let message = vstd::slice::slice_to_vec(
            vstd::slice::slice_subrange(data.as_slice(), 2, 2 + n),
        );
        Ok(MsgError { msg_type: MsgType::MSG_ERROR, message })
    }
}

impl Serializable for MsgError {
    open spec fn wf(&self) -> bool {
        &&& self.msg_type == MsgType::MSG_ERROR
        &&& self.message@.len() <= 0xffff
    }

    open spec fn wire(&self) -> Seq<u8> {
        spec_error_wire(self.message@)
    }

    fn serialize(&self) -> (r: Vec<u8>) {
        let mut out: Vec<u8> = Vec::new();
        let n = self.message.len();
        push_u32(&mut out, 10 + n as u32);
        push_u32(&mut out, tag(MsgType::MSG_ERROR));
        push_u16(&mut out, n as u16);
        out.extend_from_slice(self.message.as_slice());
        proof {
            assert(out@ =~= self.wire());
        }
        out
    }
}

/// Round trip of the error message: decoding what `serialize` lays after the
/// header yields the message unchanged.
pub proof fn lemma_error_round_trip(m: MsgError)
    requires
        m.wf(),
    ensures
        spec_parse_error(m.wire().skip(8)) == Some(m.message@),
{
    lemma_auto_spec_u16_to_from_le_bytes();
    lemma_auto_spec_u32_to_from_le_bytes();
    let payload = m.wire().skip(8);
    assert(payload =~= spec_error_payload(m.message@));
    assert(payload.subrange(0, 2) =~= spec_u16_to_le_bytes(m.message@.len() as u16));
    assert(payload.subrange(2, 2 + m.message@.len() as int) =~= m.message@);
}

// ---------------------------------------------------------------------------
// MsgRMSPacket: one 4-byte value.
// ---------------------------------------------------------------------------
/// A computed level sent to the client. The wire carries one 4-byte IEEE-754
/// float; the library handles it as its raw bit pattern and leaves the
/// floating-point view of it to the caller.
#[derive(Debug, PartialEq)]
pub struct MsgRMSPacket {
    pub msg_type: MsgType,
    pub value_bits: u32,
}

/// Reads an `MsgRMSPacket` payload; `None` when it is truncated.
pub open spec fn spec_parse_rms_packet(payload: Seq<u8>) -> Option<u32> {
    if payload.len() < 4 {
        None
    } else {
        Some(spec_u32_from_le_bytes(payload.subrange(0, 4)))
    }
}

/// The full wire image of a level packet carrying the given bit pattern.
pub open spec fn spec_rms_packet_wire(value_bits: u32) -> Seq<u8> {
    spec_header(12, MsgType::MSG_RMS_PACKET) + spec_u32_to_le_bytes(value_bits)
}

impl MsgRMSPacket {
    pub fn new() -> (r: MsgRMSPacket)
        ensures
            r.msg_type == MsgType::MSG_RMS_PACKET,
            r.value_bits == 0,
            r.wf(),
    {
        MsgRMSPacket { msg_type: MsgType::MSG_RMS_PACKET, value_bits: 0 }
    }

    /// Decodes one isolated frame's payload. Succeeds exactly when at least
    /// the 4 value bytes are present; bytes past them are ignored.
    pub fn deserialized(data: Vec<u8>) -> (r: Result<MsgRMSPacket, ProtocolError>)
        ensures
            match r {
                Ok(m) => {
                    &&& spec_parse_rms_packet(data@) == Some(m.value_bits)
                    &&& m.msg_type == MsgType::MSG_RMS_PACKET
                    &&& m.wf()
                },
                Err(e) => {
                    &&& spec_parse_rms_packet(data@) is None
                    &&& e == ProtocolError::Truncated
                },
            },
    {
        if data.len() < 4 {
            return Err(ProtocolError::Truncated);
        }
        let value_bits = read_u32(&data, 0);
        Ok(MsgRMSPacket { msg_type: MsgType::MSG_RMS_PACKET, value_bits })
    }
}

impl Serializable for MsgRMSPacket {
    open spec fn wf(&self) -> bool {
        self.msg_type == MsgType::MSG_RMS_PACKET
    }

    open spec fn wire(&self) -> Seq<u8> {
        spec_rms_packet_wire(self.value_bits)
    }

    fn serialize(&self) -> (r: Vec<u8>) {
        let mut out: Vec<u8> = Vec::new();
        push_u32(&mut out, 12);
        push_u32(&mut out, tag(MsgType::MSG_RMS_PACKET));
        push_u32(&mut out, self.value_bits);
        proof {
            assert(out@ =~= self.wire());
        }
        out
    }
}

/// Round trip of the level packet.
pub proof fn lemma_rms_packet_round_trip(m: MsgRMSPacket)
    requires
        m.wf(),
    ensures
        spec_parse_rms_packet(m.wire().skip(8)) == Some(m.value_bits),
{
    lemma_auto_spec_u32_to_from_le_bytes();
    let payload = m.wire().skip(8);
    assert(payload.subrange(0, 4) =~= spec_u32_to_le_bytes(m.value_bits));
}

// ---------------------------------------------------------------------------
// MsgStartStreamRMS: the streaming request.
// ---------------------------------------------------------------------------
/// A request to start streaming levels: a 4-byte device-record count kept as
/// a placeholder (always written as 1, ignored on read), the 4-byte device
/// identifier, a 4-byte channel count, then one 4-byte index per channel.
#[derive(Debug, PartialEq)]
pub struct MsgStartStreamRMS {
    pub msg_type: MsgType,
    pub device: u32,
    pub channels: Vec<u32>,
}

/// The channel indices of the request, laid out back to back.
pub open spec fn spec_channels_bytes(cs: Seq<u32>) -> Seq<u8>
    decreases cs.len(),
{
    if cs.len() == 0 {
        Seq::empty()
    } else {
        spec_u32_to_le_bytes(cs[0]) + spec_channels_bytes(cs.drop_first())
    }
}

pub proof fn lemma_channels_bytes_len(cs: Seq<u32>)
    ensures
        spec_channels_bytes(cs).len() == 4 * cs.len(),
    decreases cs.len(),
{
    lemma_auto_spec_u32_to_from_le_bytes();
    if cs.len() > 0 {
        lemma_channels_bytes_len(cs.drop_first());
    }
}

pub proof fn lemma_channels_bytes_snoc(cs: Seq<u32>, x: u32)
    ensures
        spec_channels_bytes(cs.push(x)) == spec_channels_bytes(cs) + spec_u32_to_le_bytes(x),
    decreases cs.len(),
{
    if cs.len() == 0 {
        assert(cs.push(x)[0] == x);
        assert(cs.push(x).drop_first() =~= Seq::<u32>::empty());
        assert(spec_channels_bytes(Seq::<u32>::empty()) == Seq::<u8>::empty());
        assert(spec_channels_bytes(cs.push(x)) =~= spec_channels_bytes(cs) + spec_u32_to_le_bytes(x));
    } else {
        assert(cs.push(x)[0] == cs[0]);
        assert(cs.push(x).drop_first() =~= cs.drop_first().push(x));
        lemma_channels_bytes_snoc(cs.drop_first(), x);
        assert(spec_channels_bytes(cs.push(x)) =~= spec_channels_bytes(cs) + spec_u32_to_le_bytes(x));
    }
}

/// Reads `n` channel indices from the front of `b`; `None` when `b` is too
/// short. Bytes past the `n` indices are ignored.
pub open spec fn spec_parse_channels(b: Seq<u8>, n: nat) -> Option<Seq<u32>>
    decreases n,
{
    if n == 0 {
        Some(Seq::empty())
    } else if b.len() < 4 {
        None
    } else {
        match spec_parse_channels(b.skip(4), (n - 1) as nat) {
            Some(cs) => Some(seq![spec_u32_from_le_bytes(b.subrange(0, 4))] + cs),
            None => None,
        }
    }
}

/// Reads an `MsgStartStreamRMS` payload: the placeholder record count is
/// skipped, then the device identifier and the channel list are read.
pub open spec fn spec_parse_start_stream(payload: Seq<u8>) -> Option<(u32, Seq<u32>)> {
    if payload.len() < 12 {
        None
    } else {
        let device = spec_u32_from_le_bytes(payload.subrange(4, 8));
        let n = spec_u32_from_le_bytes(payload.subrange(8, 12));
        match spec_parse_channels(payload.skip(12), n as nat) {
            Some(cs) => Some((device, cs)),
            None => None,
        }
    }
}

impl MsgStartStreamRMS {
    pub fn new() -> (r: MsgStartStreamRMS)
        ensures
            r.msg_type == MsgType::MSG_GET_RMS,
            r.device == 0,
            r.channels@ == Seq::<u32>::empty(),
            r.wf(),
    {
        MsgStartStreamRMS { msg_type: MsgType::MSG_GET_RMS, device: 0, channels: Vec::new() }
    }

    /// Decodes one isolated frame's payload. Succeeds exactly when the fixed
    /// fields and the declared number of channel indices are all present.
    pub fn deserialized(data: Vec<u8>) -> (r: Result<MsgStartStreamRMS, ProtocolError>)
        ensures
            match r {
                Ok(m) => {
                    &&& spec_parse_start_stream(data@) == Some((m.device, m.channels@))
                    &&& m.msg_type == MsgType::MSG_GET_RMS
                },
                Err(e) => {
                    &&& spec_parse_start_stream(data@) is None
                    &&& e == ProtocolError::Truncated
                },
            },
    {
        if data.len() < 12 {
            return Err(ProtocolError::Truncated);
        }
        let device = read_u32(&data, 4);
        let n = read_u32(&data, 8);
        let mut channels: Vec<u32> = Vec::new();
        let mut i: u32 = 0;
        let ghost tail0: Seq<u8> = data@.skip(12);
        while i < n
            invariant
                0 <= i <= n,
                12 + 4 * i <= data@.len(),
                data@.len() <= usize::MAX,
                tail0 == data@.skip(12),
                n == spec_u32_from_le_bytes(data@.subrange(8, 12)),
                device == spec_u32_from_le_bytes(data@.subrange(4, 8)),
                channels@.len() == i,
                spec_parse_channels(tail0, n as nat) == (match spec_parse_channels(
                    data@.skip(12 + 4 * i),
                    (n - i) as nat,
                ) {
                    Some(cs) => Some(channels@ + cs),
                    None => None::<Seq<u32>>,
                }),
            decreases n - i,
        {
            if data.len() - 12 - 4 * (i as usize) < 4 {
                proof {
                    assert(data@.skip(12 + 4 * i).len() < 4);
                }
                return Err(ProtocolError::Truncated);
            }
            let c = read_u32(&data, 12 + 4 * (i as usize));
            proof {
                let tail_i = data@.skip(12 + 4 * i);
                let tail_next = data@.skip(12 + 4 * (i + 1));
                assert(tail_next =~= tail_i.skip(4));
                assert(tail_i.subrange(0, 4) =~= data@.subrange(
                    12 + 4 * i,
                    12 + 4 * i + 4,
                ));
                assert(spec_parse_channels(tail_i, (n - i) as nat) == (
                match spec_parse_channels(tail_next, (n - i - 1) as nat) {
                    Some(cs) => Some(seq![c] + cs),
                    None => None::<Seq<u32>>,
                }));
                if spec_parse_channels(tail_next, (n - i - 1) as nat) is Some {
                    let cs = spec_parse_channels(tail_next, (n - i - 1) as nat)->Some_0;
                    assert(channels@ + (seq![c] + cs) =~= channels@.push(c) + cs);
                }
            }
            channels.push(c);
            i = i + 1;
        }
        proof {
            assert(spec_parse_channels(data@.skip(12 + 4 * i), 0) == Some(Seq::<u32>::empty()));
            assert(channels@ + Seq::<u32>::empty() =~= channels@);
        }
        Ok(MsgStartStreamRMS { msg_type: MsgType::MSG_GET_RMS, device, channels })
    }
}

impl Serializable for MsgStartStreamRMS {
    open spec fn wf(&self) -> bool {
        &&& self.msg_type == MsgType::MSG_GET_RMS
        &&& 20 + 4 * self.channels@.len() <= u32::MAX
    }

    open spec fn wire(&self) -> Seq<u8> {
        spec_header((20 + 4 * self.channels@.len()) as u32, MsgType::MSG_GET_RMS)
            + spec_u32_to_le_bytes(1)
            + spec_u32_to_le_bytes(self.device)
            + spec_u32_to_le_bytes(self.channels@.len() as u32)
            + spec_channels_bytes(self.channels@)
    }

    fn serialize(&self) -> (r: Vec<u8>) {
        let mut out: Vec<u8> = Vec::new();
        let n = self.channels.len();
        push_u32(&mut out, (20 + 4 * n) as u32);
        push_u32(&mut out, tag(MsgType::MSG_GET_RMS));
        push_u32(&mut out, 1);
        push_u32(&mut out, self.device);
        push_u32(&mut out, n as u32);
        let ghost prefix: Seq<u8> = out@;
        let mut i: usize = 0;
        while i < n
            invariant
                0 <= i <= n,
                n == self.channels@.len(),
                out@ == prefix + spec_channels_bytes(self.channels@.take(i as int)),
            decreases n - i,
        {
            push_u32(&mut out, self.channels[i]);
            proof {
                assert(self.channels@.take(i + 1) =~= self.channels@.take(i as int).push(
                    self.channels@[i as int],
                ));
                lemma_channels_bytes_snoc(self.channels@.take(i as int), self.channels@[i as int]);
                assert(prefix + spec_channels_bytes(self.channels@.take(i + 1)) =~= (prefix
                    + spec_channels_bytes(self.channels@.take(i as int)))
                    + spec_u32_to_le_bytes(self.channels@[i as int]));
            }
            i = i + 1;
        }
        proof {
            assert(self.channels@.take(n as int) =~= self.channels@);
            assert(out@ =~= self.wire());
        }
        out
    }
}

/// Round trip of the streaming request: parsing what `serialize` lays after
/// the header yields the device and the channel list unchanged.
pub proof fn lemma_start_stream_round_trip(m: MsgStartStreamRMS)
    requires
        m.wf(),
    ensures
        spec_parse_start_stream(m.wire().skip(8)) == Some((m.device, m.channels@)),
{
    lemma_auto_spec_u32_to_from_le_bytes();
    lemma_channels_bytes_len(m.channels@);
    let payload = m.wire().skip(8);
    assert(payload =~= spec_u32_to_le_bytes(1) + spec_u32_to_le_bytes(m.device)
        + spec_u32_to_le_bytes(m.channels@.len() as u32) + spec_channels_bytes(m.channels@));
    assert(payload.subrange(4, 8) =~= spec_u32_to_le_bytes(m.device));
    assert(payload.subrange(8, 12) =~= spec_u32_to_le_bytes(m.channels@.len() as u32));
    assert(payload.skip(12) =~= spec_channels_bytes(m.channels@));
    lemma_parse_channels_of_bytes(m.channels@, Seq::empty());
    assert(spec_channels_bytes(m.channels@) + Seq::<u8>::empty() =~= spec_channels_bytes(
        m.channels@,
    ));
}

/// Parsing `n` channels from their own byte image (with anything after it)
/// yields those channels.
pub proof fn lemma_parse_channels_of_bytes(cs: Seq<u32>, rest: Seq<u8>)
    ensures
        spec_parse_channels(spec_channels_bytes(cs) + rest, cs.len()) == Some(cs),
    decreases cs.len(),
{
    lemma_auto_spec_u32_to_from_le_bytes();
    if cs.len() == 0 {
        assert(spec_parse_channels(spec_channels_bytes(cs) + rest, 0) == Some(Seq::<u32>::empty()));
        assert(cs =~= Seq::<u32>::empty());
    } else {
        let b = spec_channels_bytes(cs) + rest;
        lemma_channels_bytes_len(cs);
        lemma_channels_bytes_len(cs.drop_first());
        assert(b.subrange(0, 4) =~= spec_u32_to_le_bytes(cs[0]));
        assert(b.skip(4) =~= spec_channels_bytes(cs.drop_first()) + rest);
        lemma_parse_channels_of_bytes(cs.drop_first(), rest);
        assert(seq![cs[0]] + cs.drop_first() =~= cs);
    }
}

// ---------------------------------------------------------------------------
// MsgDevicesList: the capture devices the server offers.
// ---------------------------------------------------------------------------
/// One capture device: numeric identifier, display name (raw bytes; UTF-8 by
/// convention), and how many input channels it has.
#[derive(Clone, Debug, PartialEq)]
pub struct Device {
    pub id: u32,
    pub name: Vec<u8>,
    pub channels: u32,
}

/// The mathematical image of a `Device`.
#[verifier::ext_equal]
pub struct DeviceView {
    pub id: u32,
    pub name: Seq<u8>,
    pub channels: u32,
}

impl View for Device {
    type V = DeviceView;

    open spec fn view(&self) -> DeviceView {
        DeviceView { id: self.id, name: self.name@, channels: self.channels }
    }
}

/// The list of devices sent to a client right after it connects.
#[derive(Debug, PartialEq)]
pub struct MsgDevicesList {
    pub msg_type: MsgType,
    pub devices: Vec<Device>,
}

pub open spec fn spec_device_views(ds: Seq<Device>) -> Seq<DeviceView> {
    ds.map_values(|d: Device| d@)
}

/// One device record: identifier, name length, name bytes, channel count.
pub open spec fn spec_device_record(d: DeviceView) -> Seq<u8> {
    spec_u32_to_le_bytes(d.id) + spec_u16_to_le_bytes(d.name.len() as u16) + d.name
        + spec_u32_to_le_bytes(d.channels)
}

/// The device records, laid out back to back.
pub open spec fn spec_device_records(ds: Seq<DeviceView>) -> Seq<u8>
    decreases ds.len(),
{
    if ds.len() == 0 {
        Seq::empty()
    } else {
        spec_device_record(ds[0]) + spec_device_records(ds.drop_first())
    }
}

pub proof fn lemma_device_records_snoc(ds: Seq<DeviceView>, d: DeviceView)
    ensures
        spec_device_records(ds.push(d)) == spec_device_records(ds) + spec_device_record(d),
    decreases ds.len(),
{
    if ds.len() == 0 {
        assert(ds.push(d)[0] == d);
        assert(ds.push(d).drop_first() =~= Seq::<DeviceView>::empty());
        assert(spec_device_records(Seq::<DeviceView>::empty()) == Seq::<u8>::empty());
        assert(spec_device_records(ds.push(d)) =~= spec_device_records(ds)
            + spec_device_record(d));
    } else {
        assert(ds.push(d)[0] == ds[0]);
        assert(ds.push(d).drop_first() =~= ds.drop_first().push(d));
        lemma_device_records_snoc(ds.drop_first(), d);
        assert(spec_device_records(ds.push(d)) =~= spec_device_records(ds)
            + spec_device_record(d));
    }
}

/// Reads `n` device records from the front of `b`, returning them and the
/// bytes left over; `None` when `b` runs out before the `n`-th record ends.
pub open spec fn spec_parse_devices(b: Seq<u8>, n: nat) -> Option<(Seq<DeviceView>, Seq<u8>)>
    decreases n,
{
    if n == 0 {
        Some((Seq::empty(), b))
    } else if b.len() < 10 {
        None
    } else {
        let nl = spec_u16_from_le_bytes(b.subrange(4, 6)) as int;
        if b.len() < 10 + nl {
            None
        } else {
            let d = DeviceView {
                id: spec_u32_from_le_bytes(b.subrange(0, 4)),
                name: b.subrange(6, 6 + nl),
                channels: spec_u32_from_le_bytes(b.subrange(6 + nl, 10 + nl)),
            };
            match spec_parse_devices(b.skip(10 + nl), (n - 1) as nat) {
                Some((ds, rest)) => Some((seq![d] + ds, rest)),
                None => None,
            }
        }
    }
}

/// Reads an `MsgDevicesList` payload: the device count, then that many
/// records. Bytes past the last record are ignored.
pub open spec fn spec_parse_devices_list(payload: Seq<u8>) -> Option<Seq<DeviceView>> {
    if payload.len() < 4 {
        None
    } else {
        let n = spec_u32_from_le_bytes(payload.subrange(0, 4));
        match spec_parse_devices(payload.skip(4), n as nat) {
            Some((ds, _)) => Some(ds),
            None => None,
        }
    }
}

/// When a device list fits its layout: every name length fits its 2-byte
/// field and the total length fits the 4-byte length field.
pub open spec fn spec_devices_list_wf(ds: Seq<Device>) -> bool {
    &&& ds.len() <= u32::MAX
    &&& forall|i: int| 0 <= i < ds.len() ==> (#[trigger] ds[i]).name@.len() <= 0xffff
    &&& 12 + spec_device_records(spec_device_views(ds)).len() <= u32::MAX
}

/// The full wire image of a device list.
pub open spec fn spec_devices_list_wire(ds: Seq<Device>) -> Seq<u8> {
    let records = spec_device_records(spec_device_views(ds));
    spec_header((12 + records.len()) as u32, MsgType::MSG_DEVICES_LIST)
        + spec_u32_to_le_bytes(ds.len() as u32) + records
}

impl MsgDevicesList {
    pub fn new() -> (r: MsgDevicesList)
        ensures
            r.msg_type == MsgType::MSG_DEVICES_LIST,
            r.devices@ == Seq::<Device>::empty(),
            r.wf(),
    {
        MsgDevicesList { msg_type: MsgType::MSG_DEVICES_LIST, devices: Vec::new() }
    }

    /// Decodes one isolated frame's payload. Succeeds exactly when the count
    /// field and every one of the declared records are present in full.
    pub fn deserialized(data: Vec<u8>) -> (r: Result<MsgDevicesList, ProtocolError>)
        ensures
            match r {
                Ok(m) => {
                    &&& spec_parse_devices_list(data@) == Some(spec_device_views(m.devices@))
                    &&& m.msg_type == MsgType::MSG_DEVICES_LIST
                },
                Err(e) => {
                    &&& spec_parse_devices_list(data@) is None
                    &&& e == ProtocolError::Truncated
                },
            },
    {
        if data.len() < 4 {
            return Err(ProtocolError::Truncated);
        }
        let n = read_u32(&data, 0);
        let mut devices: Vec<Device> = Vec::new();
        let mut i: u32 = 0;
        let mut pos: usize = 4;
        let ghost tail0: Seq<u8> = data@.skip(4);
        while i < n
            invariant
                0 <= i <= n,
                4 <= pos <= data@.len(),
                data@.len() <= usize::MAX,
                tail0 == data@.skip(4),
                n == spec_u32_from_le_bytes(data@.subrange(0, 4)),
                devices@.len() == i,
                spec_parse_devices(tail0, n as nat) == (match spec_parse_devices(
                    data@.skip(pos as int),
                    (n - i) as nat,
                ) {
                    Some((ds, rest)) => Some(
                        (spec_device_views(devices@) + ds, rest),
                    ),
                    None => None::<(Seq<DeviceView>, Seq<u8>)>,
                }),
            decreases n - i,
        {
            let ghost tail_i: Seq<u8> = data@.skip(pos as int);
            if data.len() - pos < 10 {
                proof {
                    assert(tail_i.len() < 10);
                }
                return Err(ProtocolError::Truncated);
            }
            let id = read_u32(&data, pos);
            let nl = read_u16(&data, pos + 4) as usize;
            proof {
                assert(tail_i.subrange(0, 4) =~= data@.subrange(pos as int, pos + 4));
                assert(tail_i.subrange(4, 6) =~= data@.subrange(pos + 4, pos + 6));
            }
            if data.len() - pos - 10 < nl {
                proof {
                    assert(tail_i.len() < 10 + nl);
                }
                return Err(ProtocolError::Truncated);
            }
            let name = vstd::slice::slice_to_vec(
                vstd::slice::slice_subrange(data.as_slice(), pos + 6, pos + 6 + nl),
            );
            let channels = read_u32(&data, pos + 6 + nl);
            let d = Device { id, name, channels };
            proof {
                let tail_next = data@.skip(pos + 10 + nl);
                assert(tail_i.subrange(6, 6 + nl as int) =~= data@.subrange(
                    pos + 6,
                    pos + 6 + nl,
                ));
                assert(tail_i.subrange(6 + nl as int, 10 + nl as int) =~= data@.subrange(
                    pos + 6 + nl,
                    pos + 10 + nl,
                ));
                assert(tail_next =~= tail_i.skip(10 + nl as int));
                assert(d@ =~= DeviceView {
                    id: spec_u32_from_le_bytes(tail_i.subrange(0, 4)),
                    name: tail_i.subrange(6, 6 + nl as int),
                    channels: spec_u32_from_le_bytes(tail_i.subrange(6 + nl as int, 10 + nl as int)),
                });
                assert(spec_parse_devices(tail_i, (n - i) as nat) == (
                match spec_parse_devices(tail_next, (n - i - 1) as nat) {
                    Some((ds, rest)) => Some((seq![d@] + ds, rest)),
                    None => None::<(Seq<DeviceView>, Seq<u8>)>,
                }));
                if spec_parse_devices(tail_next, (n - i - 1) as nat) is Some {
                    let (ds, rest) = spec_parse_devices(tail_next, (n - i - 1) as nat)->Some_0;
                    assert(spec_device_views(devices@) + (seq![d@] + ds) =~= spec_device_views(
                        devices@.push(d),
                    ) + ds);
                }
            }
            devices.push(d);
            pos = pos + 10 + nl;
            i = i + 1;
        }
        proof {
            assert(spec_parse_devices(data@.skip(pos as int), 0) == Some(
                (Seq::<DeviceView>::empty(), data@.skip(pos as int)),
            ));
            assert(spec_device_views(devices@) + Seq::<DeviceView>::empty() =~= spec_device_views(
                devices@,
            ));
        }
        Ok(MsgDevicesList { msg_type: MsgType::MSG_DEVICES_LIST, devices })
    }
}

impl Serializable for MsgDevicesList {
    open spec fn wf(&self) -> bool {
        self.msg_type == MsgType::MSG_DEVICES_LIST && spec_devices_list_wf(self.devices@)
    }

    open spec fn wire(&self) -> Seq<u8> {
        spec_devices_list_wire(self.devices@)
    }

    fn serialize(&self) -> (r: Vec<u8>) {
        let n = self.devices.len();
        let mut recs: Vec<u8> = Vec::new();
        let mut i: usize = 0;
        while i < n
            invariant
                0 <= i <= n,
                n == self.devices@.len(),
                forall|j: int|
                    0 <= j < self.devices@.len() ==> (#[trigger] self.devices@[j]).name@.len()
                        <= 0xffff,
                recs@ == spec_device_records(spec_device_views(self.devices@.take(i as int))),
            decreases n - i,
        {
            let d = &self.devices[i];
            let ghost before: Seq<u8> = recs@;
            push_u32(&mut recs, d.id);
            push_u16(&mut recs, d.name.len() as u16);
            recs.extend_from_slice(d.name.as_slice());
            push_u32(&mut recs, d.channels);
            proof {
                let views = spec_device_views(self.devices@.take(i as int));
                assert(recs@ =~= before + spec_device_record(self.devices@[i as int]@));
                assert(spec_device_views(self.devices@.take(i + 1)) =~= views.push(
                    self.devices@[i as int]@,
                ));
                lemma_device_records_snoc(views, self.devices@[i as int]@);
            }
            i = i + 1;
        }
        proof {
            assert(self.devices@.take(n as int) =~= self.devices@);
        }
        let mut out: Vec<u8> = Vec::new();
        push_u32(&mut out, (12 + recs.len()) as u32);
        push_u32(&mut out, tag(MsgType::MSG_DEVICES_LIST));
        push_u32(&mut out, n as u32);
        out.append(&mut recs);
        proof {
            assert(out@ =~= self.wire());
        }
        out
    }
}

/// Parsing `n` device records from their own byte image (with anything after
/// it) yields those records and the trailing bytes.
pub proof fn lemma_parse_devices_of_records(ds: Seq<DeviceView>, rest: Seq<u8>)
    requires
        forall|i: int| 0 <= i < ds.len() ==> (#[trigger] ds[i]).name.len() <= 0xffff,
    ensures
        spec_parse_devices(spec_device_records(ds) + rest, ds.len()) == Some((ds, rest)),
    decreases ds.len(),
{
    lemma_auto_spec_u16_to_from_le_bytes();
    lemma_auto_spec_u32_to_from_le_bytes();
    if ds.len() == 0 {
        assert(spec_device_records(ds) + rest =~= rest);
    } else {
        let d = ds[0];
        let b = spec_device_records(ds) + rest;
        let nl = d.name.len() as int;
        assert(b =~= spec_device_record(d) + (spec_device_records(ds.drop_first()) + rest));
        assert(b.subrange(0, 4) =~= spec_u32_to_le_bytes(d.id));
        assert(b.subrange(4, 6) =~= spec_u16_to_le_bytes(d.name.len() as u16));
        assert(b.subrange(6, 6 + nl) =~= d.name);
        assert(b.subrange(6 + nl, 10 + nl) =~= spec_u32_to_le_bytes(d.channels));
        assert(b.skip(10 + nl) =~= spec_device_records(ds.drop_first()) + rest);
        lemma_parse_devices_of_records(ds.drop_first(), rest);
        assert(seq![d] + ds.drop_first() =~= ds);
    }
}

/// Each further device record only lengthens the byte image.
pub proof fn lemma_device_records_len_monotone(ds: Seq<DeviceView>, i: int)
    requires
        0 <= i <= ds.len(),
    ensures
        spec_device_records(ds.take(i)).len() <= spec_device_records(ds).len(),
    decreases ds.len() - i,
{
    if i == ds.len() {
        assert(ds.take(i) =~= ds);
    } else {
        assert(ds.take(i + 1) =~= ds.take(i).push(ds[i]));
        lemma_device_records_snoc(ds.take(i), ds[i]);
        lemma_device_records_len_monotone(ds, i + 1);
    }
}

// ---------------------------------------------------------------------------
// Checked encoders for callers that cannot establish well-formedness.
// ---------------------------------------------------------------------------
/// An error message's text, clipped to what the 2-byte length field can
/// carry.
pub open spec fn spec_clip_error(message: Seq<u8>) -> Seq<u8> {
    if message.len() <= 0xffff {
        message
    } else {
        message.take(0xffff)
    }
}

/// Builds the wire bytes of an error message from arbitrary text bytes,
/// clipping them to the 2-byte length field.
pub fn encode_error(message: Vec<u8>) -> (r: Vec<u8>)
    ensures
        r@ == spec_error_wire(spec_clip_error(message@)),
{
    let mut message = message;
    let ghost full: Seq<u8> = message@;
    if message.len() > 0xffff {
        message.truncate(0xffff);
        proof {
            assert(message@ =~= spec_clip_error(full));
        }
    }
    let m = MsgError { msg_type: MsgType::MSG_ERROR, message };
    m.serialize()
}

/// Builds the wire bytes of a level packet from the raw bit pattern of its
/// 4-byte value.
pub fn encode_rms_packet(value_bits: u32) -> (r: Vec<u8>)
    ensures
        r@ == spec_rms_packet_wire(value_bits),
{
    let m = MsgRMSPacket { msg_type: MsgType::MSG_RMS_PACKET, value_bits };
    m.serialize()
}

/// Builds the wire bytes of a device list, or `None` exactly when the list
/// does not fit the layout: too many devices for the 4-byte count, a name
/// too long for its 2-byte length field, or a total beyond the 4-byte
/// length field.
pub fn encode_devices_list(devices: Vec<Device>) -> (r: Option<Vec<u8>>)
    ensures
        match r {
            Some(b) => spec_devices_list_wf(devices@) && b@ == spec_devices_list_wire(devices@),
            None => !spec_devices_list_wf(devices@),
        },
{
    let ghost views: Seq<DeviceView> = spec_device_views(devices@);
    let n = devices.len();
    if n as u64 > u32::MAX as u64 {
        return None;
    }
    let mut total: u64 = 12;
    let mut i: usize = 0;
    while i < n
        invariant
            0 <= i <= n,
            n == devices@.len(),
            n <= u32::MAX,
            views == spec_device_views(devices@),
            forall|j: int| 0 <= j < i ==> (#[trigger] devices@[j]).name@.len() <= 0xffff,
            total == 12 + spec_device_records(views.take(i as int)).len(),
            total <= u32::MAX,
        decreases n - i,
    {
        let name_len = devices[i].name.len();
        if name_len > 0xffff {
            return None;
        }
        proof {
            assert(views.take(i + 1) =~= views.take(i as int).push(views[i as int]));
            lemma_device_records_snoc(views.take(i as int), views[i as int]);
            lemma_auto_spec_u16_to_from_le_bytes();
            lemma_auto_spec_u32_to_from_le_bytes();
            assert(spec_device_record(views[i as int]).len() == 10 + name_len);
        }
        if u32::MAX as u64 - total < 10 + name_len as u64 {
            proof {
                lemma_device_records_len_monotone(views, i + 1);
            }
            return None;
        }
        total = total + 10 + name_len as u64;
        i = i + 1;
    }
    proof {
        assert(views.take(n as int) =~= views);
    }
    let m = MsgDevicesList { msg_type: MsgType::MSG_DEVICES_LIST, devices };
    Some(m.serialize())
}

/// Round trip of the device list: parsing what `serialize` lays after the
/// header yields the same devices.
pub proof fn lemma_devices_list_round_trip(m: MsgDevicesList)
    requires
        m.wf(),
    ensures
        spec_parse_devices_list(m.wire().skip(8)) == Some(spec_device_views(m.devices@)),
{
    lemma_auto_spec_u32_to_from_le_bytes();
    let views = spec_device_views(m.devices@);
    let records = spec_device_records(views);
    let payload = m.wire().skip(8);
    assert(payload =~= spec_u32_to_le_bytes(m.devices@.len() as u32) + records);
    assert(payload.subrange(0, 4) =~= spec_u32_to_le_bytes(m.devices@.len() as u32));
    assert(payload.skip(4) =~= records + Seq::<u8>::empty());
    assert(forall|i: int| 0 <= i < views.len() ==> (#[trigger] views[i]).name.len() <= 0xffff);
    lemma_parse_devices_of_records(views, Seq::empty());
}

} // verus!
