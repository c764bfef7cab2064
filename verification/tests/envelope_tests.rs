use duotunnel::ctld::CURRENT_CONTROL_PROTOCOL_VERSION;
use duotunnel::envelope::{
    config_event_wire_size, decode_control_envelope, encode_control_envelope, ControlMessageKind,
    EnvelopeError, CONTROL_ENVELOPE_HEADER_BYTES,
};

const MAX: usize = 16 * 1024 * 1024;

#[test]
fn control_envelope_rejects_unsupported_wire_version_before_decode() {
    let frame = [
        b"DTCP".as_slice(),
        2u16.to_be_bytes().as_slice(),
        &[ControlMessageKind::WatchRequest.code()],
        0u32.to_be_bytes().as_slice(),
    ]
    .concat();
    let error = decode_control_envelope(&frame, ControlMessageKind::WatchRequest, MAX).unwrap_err();
    assert!(error.message().contains("unsupported control wire version"));
    assert_eq!(error, EnvelopeError::UnsupportedVersion(2));
}

#[test]
fn control_envelope_rejects_payload_length_mismatch_before_decode() {
    let mut frame = Vec::from(*b"DTCP");
    frame.extend_from_slice(&CURRENT_CONTROL_PROTOCOL_VERSION.to_be_bytes());
    frame.push(ControlMessageKind::WatchRequest.code());
    frame.extend_from_slice(&1u32.to_be_bytes());
    let error = decode_control_envelope(&frame, ControlMessageKind::WatchRequest, MAX).unwrap_err();
    assert!(error.message().contains("control payload length mismatch"));
    assert_eq!(
        error.message(),
        "control payload length mismatch: declared 1, actual 0"
    );
}

#[test]
fn envelope_layout_and_roundtrip() {
    let frame = encode_control_envelope(ControlMessageKind::ConfigEvent, b"abc", MAX).unwrap();
    assert_eq!(
        frame,
        vec![b'D', b'T', b'C', b'P', 0, 3, 2, 0, 0, 0, 3, b'a', b'b', b'c']
    );
    assert_eq!(frame.len(), CONTROL_ENVELOPE_HEADER_BYTES + 3);
    assert_eq!(
        decode_control_envelope(&frame, ControlMessageKind::ConfigEvent, MAX),
        Ok(b"abc".to_vec())
    );
    let empty = encode_control_envelope(ControlMessageKind::ApplyResponse, &[], MAX).unwrap();
    assert_eq!(
        decode_control_envelope(&empty, ControlMessageKind::ApplyResponse, MAX),
        Ok(vec![])
    );
}

#[test]
fn envelope_kind_is_checked() {
    let frame = encode_control_envelope(ControlMessageKind::ConfigEvent, b"x", MAX).unwrap();
    let error = decode_control_envelope(&frame, ControlMessageKind::ApplyResponse, MAX).unwrap_err();
    assert_eq!(
        error,
        EnvelopeError::KindMismatch(ControlMessageKind::ApplyResponse, ControlMessageKind::ConfigEvent)
    );
    assert_eq!(
        error.message(),
        "expected control message kind ApplyResponse, got ConfigEvent"
    );
    let mut unknown = frame.clone();
    unknown[6] = 9;
    let error = decode_control_envelope(&unknown, ControlMessageKind::ConfigEvent, MAX).unwrap_err();
    assert_eq!(error, EnvelopeError::UnknownKind(9));
    assert_eq!(error.message(), "unknown control message kind: 9");
    assert_eq!(ControlMessageKind::from_u8(1), Ok(ControlMessageKind::WatchRequest));
    assert_eq!(ControlMessageKind::from_u8(0), Err(EnvelopeError::UnknownKind(0)));
}

#[test]
fn envelope_size_and_framing_errors() {
    assert_eq!(
        encode_control_envelope(ControlMessageKind::WatchRequest, &[0u8; 10], 20),
        Err(EnvelopeError::MessageTooLarge(21))
    );
    assert_eq!(
        EnvelopeError::MessageTooLarge(21).message(),
        "control message too large: 21 bytes"
    );
    assert!(encode_control_envelope(ControlMessageKind::WatchRequest, &[0u8; 9], 20).is_ok());
    let big = vec![0u8; 30];
    assert_eq!(
        decode_control_envelope(&big, ControlMessageKind::WatchRequest, 20),
        Err(EnvelopeError::FrameTooLarge(30))
    );
    assert_eq!(EnvelopeError::FrameTooLarge(30).message(), "Message too large: 30 bytes");
    assert_eq!(
        decode_control_envelope(b"DTCP\x00", ControlMessageKind::WatchRequest, MAX),
        Err(EnvelopeError::Truncated(5))
    );
    assert_eq!(
        EnvelopeError::Truncated(5).message(),
        "control envelope is truncated: 5 bytes"
    );
    let mut bad = encode_control_envelope(ControlMessageKind::WatchRequest, b"", MAX).unwrap();
    bad[0] = b'X';
    assert_eq!(
        decode_control_envelope(&bad, ControlMessageKind::WatchRequest, MAX),
        Err(EnvelopeError::BadMagic)
    );
    assert_eq!(EnvelopeError::BadMagic.message(), "invalid control envelope magic");
}

#[test]
fn config_event_wire_size_counts_type_and_length() {
    assert_eq!(config_event_wire_size(b"abcd", MAX), Ok(5 + 11 + 4));
    assert_eq!(
        config_event_wire_size(b"abcd", 10),
        Err(EnvelopeError::MessageTooLarge(15))
    );
}
