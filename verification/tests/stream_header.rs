//! The header of a stream payload.
use telesthete::wire::stream::{StreamFlags, StreamHeader, StreamHeaderError, STREAM_HEADER_LEN};

fn flags(bits: u8) -> StreamFlags {
    StreamFlags::from_bits(bits).unwrap()
}

#[test]
fn stream_round_trip() {
    let h = StreamHeader {
        flags: flags(StreamFlags::KEYFRAME | StreamFlags::END_FRAME),
        frame_id: 0xDEADBEEF,
    };
    let mut buf = vec![0u8; STREAM_HEADER_LEN + 3];
    let off = h.write(&mut buf).unwrap();
    assert_eq!(off, STREAM_HEADER_LEN);
    buf[off..].copy_from_slice(b"abc");

    let (parsed, rest) = StreamHeader::parse(&buf).unwrap();
    assert_eq!(parsed, h);
    assert_eq!(rest, b"abc");
}

#[test]
fn parses_v1_1_flag_bits() {
    let h = StreamHeader {
        flags: flags(StreamFlags::DMABUF | StreamFlags::WITH_FENCE | StreamFlags::END_FRAME),
        frame_id: 7,
    };
    let mut buf = vec![0u8; STREAM_HEADER_LEN];
    h.write(&mut buf).unwrap();
    let (parsed, _) = StreamHeader::parse(&buf).unwrap();
    assert_eq!(parsed, h);
    assert!(parsed.flags.contains(StreamFlags::DMABUF));
    assert!(parsed.flags.contains(StreamFlags::WITH_FENCE));
    assert!(!parsed.flags.contains(StreamFlags::REUSE));
}

#[test]
fn rejects_reserved_nonzero() {
    let mut buf = vec![0u8; STREAM_HEADER_LEN];
    buf[2] = 1;
    assert!(matches!(
        StreamHeader::parse(&buf),
        Err(StreamHeaderError::ReservedNonzero)
    ));
}

#[test]
fn stream_header_layout_and_short_input() {
    let h = StreamHeader { flags: flags(0x06), frame_id: 0x01020304 };
    let bytes = h.to_bytes();
    assert_eq!(bytes.len(), STREAM_HEADER_LEN);
    assert_eq!(bytes[0], 0x06);
    assert_eq!(StreamHeader::parse(&bytes).unwrap().0, h);
    assert_eq!(StreamHeader::parse(&bytes[..7]).unwrap_err(), StreamHeaderError::TooShort(7));
    let mut small = [0u8; 7];
    assert_eq!(h.write(&mut small), Err(StreamHeaderError::TooShort(7)));
}
