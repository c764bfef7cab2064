//! The control-plane envelope: the frame around each serialised control
//! message. A frame is the magic `DTCP`, the wire version (big-endian
//! `u16`), the message kind (one byte), the payload length (big-endian
//! `u32`) and the payload. Frames are checked field by field before any
//! payload is decoded. The largest message accepted is a parameter here.

use vstd::prelude::*;
use crate::ctld::CURRENT_CONTROL_PROTOCOL_VERSION;
use crate::text::{decimal, push_decimal, push_str_chars, string_from_chars};

verus! {

/// Magic, version, kind and payload length.
pub const CONTROL_ENVELOPE_HEADER_BYTES: usize = 11;

/// The kinds of control message.
#[derive(Debug, Clone, Copy, PartialEq, Eq, Structural)]
pub enum ControlMessageKind {
    WatchRequest,
    ConfigEvent,
    ApplyResponse,
}

/// The byte a kind is sent as.
pub open spec fn kind_code(k: ControlMessageKind) -> u8 {
    match k {
        ControlMessageKind::WatchRequest => 1,
        ControlMessageKind::ConfigEvent => 2,
        ControlMessageKind::ApplyResponse => 3,
    }
}

/// The kind a byte names, if any.
pub open spec fn kind_of(b: u8) -> Option<ControlMessageKind> {
    if b == 1 {
        Some(ControlMessageKind::WatchRequest)
    } else if b == 2 {
        Some(ControlMessageKind::ConfigEvent)
    } else if b == 3 {
        Some(ControlMessageKind::ApplyResponse)
    } else {
        None
    }
}

/// The name a kind is reported by.
pub open spec fn kind_name(k: ControlMessageKind) -> Seq<char> {
    match k {
        ControlMessageKind::WatchRequest => "WatchRequest"@,
        ControlMessageKind::ConfigEvent => "ConfigEvent"@,
        ControlMessageKind::ApplyResponse => "ApplyResponse"@,
    }
}

impl ControlMessageKind {
    /// The byte this kind is sent as.
    pub fn code(&self) -> (r: u8)
        ensures
            r == kind_code(*self),
    {
        match self {
            ControlMessageKind::WatchRequest => 1,
            ControlMessageKind::ConfigEvent => 2,
            ControlMessageKind::ApplyResponse => 3,
        }
    }

    /// The kind `value` names.
    pub fn from_u8(value: u8) -> (r: Result<ControlMessageKind, EnvelopeError>)
        ensures
            r == match kind_of(value) {
                Some(k) => Ok::<ControlMessageKind, EnvelopeError>(k),
                None => Err(EnvelopeError::UnknownKind(value)),
            },
    {
        if value == 1 {
            Ok(ControlMessageKind::WatchRequest)
        } else if value == 2 {
            Ok(ControlMessageKind::ConfigEvent)
        } else if value == 3 {
            Ok(ControlMessageKind::ApplyResponse)
        } else {
            Err(EnvelopeError::UnknownKind(value))
        }
    }

    /// The name this kind is reported by.
    pub fn name(&self) -> (r: &'static str)
        ensures
            r@ == kind_name(*self),
    {
        match self {
            ControlMessageKind::WatchRequest => "WatchRequest",
            ControlMessageKind::ConfigEvent => "ConfigEvent",
            ControlMessageKind::ApplyResponse => "ApplyResponse",
        }
    }
}

/// Why a frame was not built or not accepted.
#[derive(Debug, Clone, Copy, PartialEq, Eq, Structural)]
pub enum EnvelopeError {
    /// The payload length does not fit the `u32` length field.
    PayloadTooLarge(usize),
    /// Header and payload together overflow `usize`.
    EnvelopeOverflow,
    /// The frame to send is larger than the largest message.
    MessageTooLarge(usize),
    /// The frame received is larger than the largest message.
    FrameTooLarge(usize),
    /// The frame received is shorter than the header.
    Truncated(usize),
    /// The frame does not start with the magic.
    BadMagic,
    /// The frame carries another wire version.
    UnsupportedVersion(u16),
    /// The kind byte names no kind.
    UnknownKind(u8),
    /// The frame carries another kind than the one awaited (expected, got).
    KindMismatch(ControlMessageKind, ControlMessageKind),
    /// The declared payload length is not the length received (declared,
    /// actual).
    LengthMismatch(usize, usize),
    /// The size on the wire overflows `usize`.
    WireSizeOverflow,
}

/// The text an envelope error is reported with.
pub open spec fn envelope_error_text(e: EnvelopeError) -> Seq<char> {
    match e {
        EnvelopeError::PayloadTooLarge(n) => "control payload is too large: "@ + decimal(n as nat)
            + " bytes"@,
        EnvelopeError::EnvelopeOverflow => "control envelope length overflow"@,
        EnvelopeError::MessageTooLarge(n) => "control message too large: "@ + decimal(n as nat)
            + " bytes"@,
        EnvelopeError::FrameTooLarge(n) => "Message too large: "@ + decimal(n as nat) + " bytes"@,
        EnvelopeError::Truncated(n) => "control envelope is truncated: "@ + decimal(n as nat)
            + " bytes"@,
        EnvelopeError::BadMagic => "invalid control envelope magic"@,
        EnvelopeError::UnsupportedVersion(v) => "unsupported control wire version: "@ + decimal(
            v as nat,
        ),
        EnvelopeError::UnknownKind(b) => "unknown control message kind: "@ + decimal(b as nat),
        EnvelopeError::KindMismatch(x, g) => "expected control message kind "@ + kind_name(x)
            + ", got "@ + kind_name(g),
        EnvelopeError::LengthMismatch(d, a) => "control payload length mismatch: declared "@
            + decimal(d as nat) + ", actual "@ + decimal(a as nat),
        EnvelopeError::WireSizeOverflow => "control event wire size overflow"@,
    }
}

impl EnvelopeError {
    /// The text this error is reported with.
    pub fn message(&self) -> (r: String)
        ensures
            r@ == envelope_error_text(*self),
    {
        let mut out: Vec<char> = Vec::new();
        match self {
            EnvelopeError::PayloadTooLarge(n) => {
                push_str_chars(&mut out, "control payload is too large: ");
                push_decimal(&mut out, *n as u64);
                push_str_chars(&mut out, " bytes");
            },
            EnvelopeError::EnvelopeOverflow => {
                push_str_chars(&mut out, "control envelope length overflow");
            },
            EnvelopeError::MessageTooLarge(n) => {
                push_str_chars(&mut out, "control message too large: ");
                push_decimal(&mut out, *n as u64);
                push_str_chars(&mut out, " bytes");
            },
            EnvelopeError::FrameTooLarge(n) => {
                push_str_chars(&mut out, "Message too large: ");
                push_decimal(&mut out, *n as u64);
                push_str_chars(&mut out, " bytes");
            },
            EnvelopeError::Truncated(n) => {
                push_str_chars(&mut out, "control envelope is truncated: ");
                push_decimal(&mut out, *n as u64);
                push_str_chars(&mut out, " bytes");
            },
            EnvelopeError::BadMagic => {
                push_str_chars(&mut out, "invalid control envelope magic");
            },
            EnvelopeError::UnsupportedVersion(v) => {
                push_str_chars(&mut out, "unsupported control wire version: ");
                push_decimal(&mut out, *v as u64);
            },
            EnvelopeError::UnknownKind(b) => {
                push_str_chars(&mut out, "unknown control message kind: ");
                push_decimal(&mut out, *b as u64);
            },
            EnvelopeError::KindMismatch(x, g) => {
                push_str_chars(&mut out, "expected control message kind ");
                push_str_chars(&mut out, x.name());
                push_str_chars(&mut out, ", got ");
                push_str_chars(&mut out, g.name());
            },
            EnvelopeError::LengthMismatch(d, a) => {
                push_str_chars(&mut out, "control payload length mismatch: declared ");
                push_decimal(&mut out, *d as u64);
                push_str_chars(&mut out, ", actual ");
                push_decimal(&mut out, *a as u64);
            },
            EnvelopeError::WireSizeOverflow => {
                push_str_chars(&mut out, "control event wire size overflow");
            },
        }
        string_from_chars(out.as_slice())
    }
}

/// The magic a frame starts with: `DTCP`.
pub open spec fn magic() -> Seq<u8> {
    seq![68u8, 84u8, 67u8, 80u8]
}

/// `v` as two big-endian bytes.
pub open spec fn be16(v: u16) -> Seq<u8> {
    seq![(v >> 8u16) as u8, v as u8]
}

/// Two big-endian bytes as a number.
pub open spec fn from_be16(b0: u8, b1: u8) -> u16 {
    ((b0 as u16) << 8u16) | (b1 as u16)
}

/// `v` as four big-endian bytes.
pub open spec fn be32(v: u32) -> Seq<u8> {
    seq![(v >> 24u32) as u8, (v >> 16u32) as u8, (v >> 8u32) as u8, v as u8]
}

/// Four big-endian bytes as a number.
pub open spec fn from_be32(b0: u8, b1: u8, b2: u8, b3: u8) -> u32 {
    ((b0 as u32) << 24u32) | ((b1 as u32) << 16u32) | ((b2 as u32) << 8u32) | (b3 as u32)
}

/// Reading back the bytes of a number gives the number.
pub proof fn lemma_be_roundtrip(v16: u16, v32: u32)
    ensures
        from_be16(be16(v16)[0], be16(v16)[1]) == v16,
        from_be32(be32(v32)[0], be32(v32)[1], be32(v32)[2], be32(v32)[3]) == v32,
{
    assert((((((v16 >> 8u16) as u8) as u16) << 8u16) | (((v16 as u8) as u16))) == v16)
        by (bit_vector);
    assert((((((v32 >> 24u32) as u8) as u32) << 24u32) | ((((v32 >> 16u32) as u8) as u32)
        << 16u32) | ((((v32 >> 8u32) as u8) as u32) << 8u32) | ((v32 as u8) as u32)) == v32)
        by (bit_vector);
}

/// The frame of a message of `kind` with `payload`.
pub open spec fn envelope(kind: ControlMessageKind, payload: Seq<u8>) -> Seq<u8> {
    magic() + be16(3) + seq![kind_code(kind)] + be32(payload.len() as u32) + payload
}

/// What building the frame of `payload` as a message of `kind` gives,
/// against a largest message of `max` bytes.
pub open spec fn encode_spec(kind: ControlMessageKind, payload: Seq<u8>, max: nat) -> Result<
    Seq<u8>,
    EnvelopeError,
> {
    if payload.len() > u32::MAX {
        Err(EnvelopeError::PayloadTooLarge(payload.len() as usize))
    } else if 11 + payload.len() > usize::MAX {
        Err(EnvelopeError::EnvelopeOverflow)
    } else if 11 + payload.len() > max {
        Err(EnvelopeError::MessageTooLarge((11 + payload.len()) as usize))
    } else {
        Ok(envelope(kind, payload))
    }
}

/// What checking a received `frame` awaited as a message of `expected`
/// gives, against a largest message of `max` bytes: the payload, or the
/// first check it fails.
pub open spec fn decode_spec(frame: Seq<u8>, expected: ControlMessageKind, max: nat) -> Result<
    Seq<u8>,
    EnvelopeError,
> {
    if frame.len() > max {
        Err(EnvelopeError::FrameTooLarge(frame.len() as usize))
    } else if frame.len() < 11 {
        Err(EnvelopeError::Truncated(frame.len() as usize))
    } else if frame.subrange(0, 4) != magic() {
        Err(EnvelopeError::BadMagic)
    } else if from_be16(frame[4], frame[5]) != 3 {
        Err(EnvelopeError::UnsupportedVersion(from_be16(frame[4], frame[5])))
    } else {
        match kind_of(frame[6]) {
            None => Err(EnvelopeError::UnknownKind(frame[6])),
            Some(k) => if k != expected {
                Err(EnvelopeError::KindMismatch(expected, k))
            } else {
                let declared = from_be32(frame[7], frame[8], frame[9], frame[10]);
                let actual = frame.len() - 11;
                if declared != actual || declared > max {
                    Err(EnvelopeError::LengthMismatch(declared as usize, actual as usize))
                } else {
                    Ok(frame.subrange(11, frame.len() as int))
                }
            },
        }
    }
}

fn push_be16(out: &mut Vec<u8>, v: u16)
    ensures
        final(out)@ == old(out)@ + be16(v),
{
    out.push((v >> 8u16) as u8);
    out.push(v as u8);
    assert(final(out)@ =~= old(out)@ + be16(v));
}

fn push_be32(out: &mut Vec<u8>, v: u32)
    ensures
        final(out)@ == old(out)@ + be32(v),
{
    out.push((v >> 24u32) as u8);
    out.push((v >> 16u32) as u8);
    out.push((v >> 8u32) as u8);
    out.push(v as u8);
    assert(final(out)@ =~= old(out)@ + be32(v));
}

fn push_bytes(out: &mut Vec<u8>, bytes: &[u8])
    ensures
        final(out)@ == old(out)@ + bytes@,
{
    let ghost start = out@;
    let mut i: usize = 0;
    while i < bytes.len()
        invariant
            i <= bytes@.len(),
            out@ == start + bytes@.subrange(0, i as int),
        decreases bytes@.len() - i,
    {
        out.push(bytes[i]);
        i = i + 1;
        assert(out@ =~= start + bytes@.subrange(0, i as int));
    }
    assert(bytes@.subrange(0, bytes@.len() as int) =~= bytes@);
}

/// Builds the frame of `payload` as a message of `kind`; the frame may be
/// at most `max_message_bytes` long.
pub fn encode_control_envelope(
    kind: ControlMessageKind,
    payload: &[u8],
    max_message_bytes: usize,
) -> (r: Result<Vec<u8>, EnvelopeError>)
    ensures
        match r {
            Ok(f) => encode_spec(kind, payload@, max_message_bytes as nat) == Ok::<
                Seq<u8>,
                EnvelopeError,
            >(f@),
            Err(e) => encode_spec(kind, payload@, max_message_bytes as nat) == Err::<
                Seq<u8>,
                EnvelopeError,
            >(e),
        },
{
    let len = payload.len();
    if len as u64 > 4294967295u64 {
        return Err(EnvelopeError::PayloadTooLarge(len));
    }
    let frame_len = match CONTROL_ENVELOPE_HEADER_BYTES.checked_add(len) {
        Some(n) => n,
        None => return Err(EnvelopeError::EnvelopeOverflow),
    };
    if frame_len > max_message_bytes {
        return Err(EnvelopeError::MessageTooLarge(frame_len));
    }
    let mut frame: Vec<u8> = Vec::new();
    frame.push(68u8);
    frame.push(84u8);
    frame.push(67u8);
    frame.push(80u8);
    assert(frame@ =~= magic());
    push_be16(&mut frame, CURRENT_CONTROL_PROTOCOL_VERSION);
    frame.push(kind.code());
    push_be32(&mut frame, len as u32);
    push_bytes(&mut frame, payload);
    assert(frame@ =~= envelope(kind, payload@));
    Ok(frame)
}

/// Checks a received `frame` awaited as a message of `expected` and gives
/// its payload; the frame may be at most `max_message_bytes` long.
pub fn decode_control_envelope(
    frame: &[u8],
    expected: ControlMessageKind,
    max_message_bytes: usize,
) -> (r: Result<Vec<u8>, EnvelopeError>)
    ensures
        match r {
            Ok(p) => decode_spec(frame@, expected, max_message_bytes as nat) == Ok::<
                Seq<u8>,
                EnvelopeError,
            >(p@),
            Err(e) => decode_spec(frame@, expected, max_message_bytes as nat) == Err::<
                Seq<u8>,
                EnvelopeError,
            >(e),
        },
{
    let frame_len = frame.len();
    if frame_len > max_message_bytes {
        return Err(EnvelopeError::FrameTooLarge(frame_len));
    }
    if frame_len < CONTROL_ENVELOPE_HEADER_BYTES {
        return Err(EnvelopeError::Truncated(frame_len));
    }
    if !(frame[0] == 68u8 && frame[1] == 84u8 && frame[2] == 67u8 && frame[3] == 80u8) {
        proof {
            if frame@.subrange(0, 4) == magic() {
                assert(frame@.subrange(0, 4)[0] == frame@[0]);
                assert(frame@.subrange(0, 4)[1] == frame@[1]);
                assert(frame@.subrange(0, 4)[2] == frame@[2]);
                assert(frame@.subrange(0, 4)[3] == frame@[3]);
            }
        }
        return Err(EnvelopeError::BadMagic);
    }
    assert(frame@.subrange(0, 4) =~= magic());
    let version: u16 = ((frame[4] as u16) << 8u16) | (frame[5] as u16);
    if version != CURRENT_CONTROL_PROTOCOL_VERSION {
        return Err(EnvelopeError::UnsupportedVersion(version));
    }
    let kind = match ControlMessageKind::from_u8(frame[6]) {
        Ok(k) => k,
        Err(e) => return Err(e),
    };
    if kind != expected {
        return Err(EnvelopeError::KindMismatch(expected, kind));
    }
    let declared: u32 = ((frame[7] as u32) << 24u32) | ((frame[8] as u32) << 16u32) | ((frame[9]
        as u32) << 8u32) | (frame[10] as u32);
    let payload_len = declared as usize;
    let actual = frame_len - CONTROL_ENVELOPE_HEADER_BYTES;
    if declared as u64 != actual as u64 || payload_len > max_message_bytes {
        return Err(EnvelopeError::LengthMismatch(payload_len, actual));
    }
    let mut payload: Vec<u8> = Vec::new();
    let mut i: usize = CONTROL_ENVELOPE_HEADER_BYTES;
    while i < frame_len
        invariant
            CONTROL_ENVELOPE_HEADER_BYTES <= i <= frame_len,
            frame_len == frame@.len(),
            payload@ == frame@.subrange(11, i as int),
        decreases frame_len - i,
    {
        payload.push(frame[i]);
        i = i + 1;
        assert(payload@ =~= frame@.subrange(11, i as int));
    }
    Ok(payload)
}

/// The bytes a config event takes on the wire once its serialised
/// `payload` is framed: the message type byte, the frame length as a `u32`,
/// and the frame.
pub fn config_event_wire_size(payload: &[u8], max_message_bytes: usize) -> (r: Result<
    usize,
    EnvelopeError,
>)
    ensures
        match encode_spec(ControlMessageKind::ConfigEvent, payload@, max_message_bytes as nat) {
            Ok(f) => if 5 + f.len() <= usize::MAX {
                r == Ok::<usize, EnvelopeError>((5 + f.len()) as usize)
            } else {
                r == Err::<usize, EnvelopeError>(EnvelopeError::WireSizeOverflow)
            },
            Err(e) => r == Err::<usize, EnvelopeError>(e),
        },
{
    let frame = match encode_control_envelope(ControlMessageKind::ConfigEvent, payload, max_message_bytes) {
        Ok(f) => f,
        Err(e) => return Err(e),
    };
    match 5usize.checked_add(frame.len()) {
        Some(n) => Ok(n),
        None => Err(EnvelopeError::WireSizeOverflow),
    }
}

/// A frame built for a message reads back, awaited as that message's
/// kind, as the payload it was built from.
pub proof fn law_envelope_roundtrip(kind: ControlMessageKind, payload: Seq<u8>, max: nat)
    requires
        encode_spec(kind, payload, max) is Ok,
    ensures
        decode_spec(encode_spec(kind, payload, max)->Ok_0, kind, max) == Ok::<
            Seq<u8>,
            EnvelopeError,
        >(payload),
{
    let f = envelope(kind, payload);
    lemma_be_roundtrip(3, payload.len() as u32);
    assert(f.subrange(0, 4) =~= magic());
    assert(f[4] == be16(3)[0] && f[5] == be16(3)[1]);
    assert(f[6] == kind_code(kind));
    assert(f[7] == be32(payload.len() as u32)[0]);
    assert(f[8] == be32(payload.len() as u32)[1]);
    assert(f[9] == be32(payload.len() as u32)[2]);
    assert(f[10] == be32(payload.len() as u32)[3]);
    assert(f.subrange(11, f.len() as int) =~= payload);
}

/// A frame built for a message of one kind is refused when another kind is
/// awaited, before its payload is read.
pub proof fn law_envelope_kind_checked(
    kind: ControlMessageKind,
    awaited: ControlMessageKind,
    payload: Seq<u8>,
    max: nat,
)
    requires
        encode_spec(kind, payload, max) is Ok,
        kind != awaited,
    ensures
        decode_spec(encode_spec(kind, payload, max)->Ok_0, awaited, max) == Err::<
            Seq<u8>,
            EnvelopeError,
        >(EnvelopeError::KindMismatch(awaited, kind)),
{
    let f = envelope(kind, payload);
    lemma_be_roundtrip(3, payload.len() as u32);
    assert(f.subrange(0, 4) =~= magic());
    assert(f[4] == be16(3)[0] && f[5] == be16(3)[1]);
    assert(f[6] == kind_code(kind));
}

} // verus!
