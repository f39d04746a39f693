//! Sealing and opening packets, streams, numbers, and the producer's payloads.
use std::collections::HashMap;
use telesthete::crypto::{derive_band_id, derive_key};
use telesthete::framing::{ChannelType, FramingError};
use telesthete::producer::{
    dmabuf_payload, pick_target, Target, TltPlane, TLT_ERR_FD_COUNT, TLT_ERR_PLANE_COUNT,
    TLT_FLAG_DMABUF, TLT_FLAG_KEYFRAME,
};
use telesthete::replay::{forget_peer, replay_stale};
use telesthete::stream::{stream_payload, StreamCore};
use telesthete::transport::{Arrival, SequenceCounter, TransportCore, UnixSendError};
use telesthete::wire::dmabuf::DmabufDescriptor;
use telesthete::wire::stream::StreamHeader;

fn transport(psk: &[u8], start: u64) -> TransportCore {
    TransportCore::new(derive_key(psk), derive_band_id(psk), SequenceCounter::starting_at(start))
}

#[test]
fn loopback_send_recv() {
    let mut a = transport(b"loop-psk", 41);
    let b = transport(b"loop-psk", 0);
    let packet = a.seal(ChannelType::Stream, 1, b"hello over loopback").unwrap();
    match b.receive(&packet) {
        Arrival::Deliver(header, payload) => {
            assert_eq!(header.channel_type, ChannelType::Stream);
            assert_eq!(header.channel_id, 1);
            assert_eq!(header.sequence, 41);
            assert_eq!(payload, b"hello over loopback");
        }
        other => panic!("expected delivery, got {other:?}"),
    }
    assert_eq!(a.seq.value, 42);
}

#[test]
fn foreign_band_dropped() {
    let mut a = transport(b"band-a", 1);
    let packet = a.seal(ChannelType::Control, 0, b"x").unwrap();
    let mut b = transport(b"band-b", 1);
    assert!(matches!(
        b.receive(&packet),
        Arrival::Foreign | Arrival::Unreadable(FramingError::Crypto(_))
    ));
    // The right key does not help a packet of another band.
    b.key = derive_key(b"band-a");
    assert!(matches!(b.receive(&packet), Arrival::Foreign));
    assert!(matches!(b.receive(&[0; 5]), Arrival::Unreadable(FramingError::TooShort(5))));
}

#[test]
fn unix_too_many_fds_rejected() {
    let mut a = transport(b"fds", 1);
    assert!(a.seal_with_fds(ChannelType::Stream, 1, b"x", 5).is_ok());
    assert!(matches!(
        a.seal_with_fds(ChannelType::Stream, 1, b"x", 6),
        Err(UnixSendError::TooManyFds(6))
    ));
}

#[test]
fn numbers_start_at_random_and_go_up() {
    let mut a = SequenceCounter::random();
    let mut b = SequenceCounter::default();
    let (x, y) = (a.next(), a.next());
    assert_eq!(y, x + 1);
    assert_ne!(x, b.next());
    let seed = [0x80, 0, 0, 0, 0, 0, 0, 3, 9, 9, 9, 9, 9, 9, 9, 9];
    assert_eq!(SequenceCounter::seeded(&seed).value, 0x4000_0000_0000_0001);
    let mut c = SequenceCounter::starting_at(7);
    assert_eq!((c.next(), c.next(), c.value), (7, 8, 9));
}

#[test]
fn only_fresher_stream_packets_are_delivered() {
    let mut s = StreamCore::new();
    s.open(1, 5, 100);
    assert_eq!(s.listener(1, 5), Some(100));
    assert_eq!(s.listener(2, 5), None);
    let payload = stream_payload(9, b"frame");
    assert_eq!(payload, b"\x09frame".to_vec());
    let m = s.accept(1, 5, 10, &payload).unwrap();
    assert_eq!((m.from, m.stream_id, m.priority), (1, 5, 9));
    assert_eq!(m.data, b"frame");
    assert!(s.accept(1, 5, 10, &payload).is_none());
    assert!(s.accept(1, 5, 9, &payload).is_none());
    // Other streams and other peers have numbers of their own.
    assert!(s.accept(1, 6, 1, &payload).is_some());
    assert!(s.accept(2, 5, 1, &payload).is_some());
    s.rebase(1);
    assert!(s.accept(1, 5, 2, &payload).is_some());
    assert!(s.accept(1, 5, 50, &[]).is_none());
}

#[test]
fn replays_are_stale_until_forgotten() {
    let mut marks: HashMap<u64, u64> = HashMap::new();
    assert!(!replay_stale(&mut marks, 1, 0));
    assert!(replay_stale(&mut marks, 1, 0));
    assert!(!replay_stale(&mut marks, 1, 5));
    assert!(replay_stale(&mut marks, 1, 4));
    forget_peer(&mut marks, 1);
    assert!(!replay_stale(&mut marks, 1, 1));
}

#[test]
fn producer_payload_is_header_and_descriptor() {
    let planes = [TltPlane { offset: 1, stride: 2, fd_index: 0 }];
    let flags = TLT_FLAG_DMABUF | TLT_FLAG_KEYFRAME;
    let payload = dmabuf_payload(7, flags, 640, 480, 0x34325258, 0, &planes, 1).unwrap();
    let (h, rest) = StreamHeader::parse(&payload).unwrap();
    assert_eq!(h.frame_id, 7);
    assert_eq!(h.flags.bits(), flags as u8);
    let d = DmabufDescriptor::parse(rest).unwrap();
    assert_eq!((d.width, d.height, d.planes.len(), d.fd_count), (640, 480, 1, 1));
    assert_eq!(d.planes[0].stride, 2);
    assert_eq!(dmabuf_payload(7, flags, 1, 1, 0, 0, &[], 1), Err(TLT_ERR_PLANE_COUNT));
    assert_eq!(dmabuf_payload(7, flags, 1, 1, 0, 0, &planes, 6), Err(TLT_ERR_FD_COUNT));
}

#[test]
fn producer_prefers_the_runtime_directory() {
    assert_eq!(pick_target(true, true, true), Target::Runtime);
    assert_eq!(pick_target(true, false, true), Target::Temporary);
    assert_eq!(pick_target(false, false, true), Target::Temporary);
}
