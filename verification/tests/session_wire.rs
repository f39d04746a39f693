//! Framing, latest-wins coalescing and fragment reassembly of a session's messages.
use telesthete::session::wire;
use telesthete::session::wire::UdpReasm;

/// A message: opcode, flags, two reserved bytes, window id, payload.
fn proto_msg(op: u8, window_id: u32, payload: &[u8]) -> Vec<u8> {
    let mut m = vec![op, 0, 0, 0];
    m.extend_from_slice(&window_id.to_le_bytes());
    m.extend_from_slice(payload);
    m
}

#[test]
fn routing_matches_channel_plan() {
    assert!(!wire::is_udp(0, 0x01));
    assert!(!wire::is_udp(201, 0x01));
    assert!(wire::is_udp(200, 0x01));
    assert!(wire::is_udp(2, 0x01));
    assert!(wire::is_udp(9, 0x02));
    assert!(!wire::is_udp(1, 0x01));
    assert!(!wire::is_udp(1, 0x03));
    assert!(wire::is_udp(1, 0x81));
    assert!(wire::is_udp(1, 0x82));
}

#[test]
fn tcp_framing_roundtrip() {
    let msg = vec![1, 2, 3, 4, 5];
    let framed = wire::frame_tcp(7, &msg);
    let (ch, got, consumed) = wire::parse_tcp(&framed).unwrap();
    assert_eq!(ch, 7);
    assert_eq!(got, msg);
    assert_eq!(consumed, framed.len());
    assert!(wire::parse_tcp(&framed[..3]).is_none());
}

#[test]
fn latest_wins_drops_stale_motion() {
    let mut r = UdpReasm::default();
    let m10 = proto_msg(0x81, 5, b"a");
    let m11 = proto_msg(0x81, 5, b"b");
    let m9 = proto_msg(0x81, 5, b"old");
    assert!(r.on_data(1, 10, m10).is_some());
    assert!(r.on_data(1, 11, m11).is_some());
    assert!(r.on_data(1, 9, m9).is_none(), "stale seq 9 after 11 must drop");
    let w6 = proto_msg(0x81, 6, b"c");
    assert!(r.on_data(1, 3, w6).is_some());
}

#[test]
fn audio_never_coalesced() {
    let mut r = UdpReasm::default();
    assert!(r.on_data(200, 100, vec![1, 2, 3]).is_some());
    assert!(r.on_data(200, 99, vec![4, 5, 6]).is_some());
    assert!(r.on_data(200, 101, vec![7, 8, 9]).is_some());
}

#[test]
fn fragmentation_reassembles_in_and_out_of_order() {
    let big = proto_msg(0x01, 3, &vec![0xAB; 5000]);
    let frags = wire::fragment(&big, 1200);
    assert!(frags.len() > 1, "5KB must fragment at 1200 MTU");

    let mut r = UdpReasm::default();
    let n = frags.len();
    let mut done = None;
    for i in (0..n).rev() {
        let out = r.on_frag(2, 77, i as u16, n as u16, frags[i]);
        if out.is_some() {
            done = out;
        }
    }
    assert_eq!(done.unwrap(), big, "reassembled message must equal original");
}

#[test]
fn newer_msg_id_supersedes_incomplete() {
    let mut r = UdpReasm::default();
    let a = proto_msg(0x01, 3, &vec![1u8; 3000]);
    let b = proto_msg(0x01, 3, &vec![2u8; 3000]);
    let fa = wire::fragment(&a, 1200);
    let fb = wire::fragment(&b, 1200);
    assert!(r.on_frag(2, 10, 0, fa.len() as u16, fa[0]).is_none());
    let mut out = None;
    for (i, f) in fb.iter().enumerate() {
        if let Some(m) = r.on_frag(2, 11, i as u16, fb.len() as u16, f) {
            out = Some(m);
        }
    }
    assert_eq!(out.unwrap(), b);
}

#[test]
fn tcp_frame_layout() {
    assert_eq!(wire::frame_tcp(7, b"abc"), vec![7, 3, 0, 0, 0, b'a', b'b', b'c']);
    assert_eq!(wire::parse_tcp(&[7, 1, 0, 0, 0]), None);
}

#[test]
fn frag_body_layout_round_trips() {
    let body = wire::frag_body(0x01020304, 5, 6, b"xy");
    let (id, idx, count, slice) = wire::parse_frag(&body).unwrap();
    assert_eq!((id, idx, count, slice), (0x01020304, 5, 6, &b"xy"[..]));
    assert!(wire::parse_frag(&body[..7]).is_none());
}

#[test]
fn mtu_setting_falls_back_to_default() {
    assert_eq!(wire::default_mtu(None), 1200);
    assert_eq!(wire::default_mtu(Some("900".to_string())), 900);
    assert_eq!(wire::default_mtu(Some("many".to_string())), 1200);
}

#[test]
fn window_key_reads_the_window_of_a_message() {
    assert_eq!(wire::window_key(1, &proto_msg(0x81, 5, b"")), 5);
}

#[test]
fn fragments_wait_for_a_quarter_of_a_second() {
    let msg = proto_msg(0x01, 3, &vec![1u8; 3000]);
    let slices = wire::fragment(&msg, 1200);
    let n = slices.len() as u16;
    let mut late = UdpReasm::default();
    late.advance(1000);
    assert!(late.on_frag(2, 5, 0, n, slices[0]).is_none());
    late.advance(1251);
    for i in 1..n {
        assert!(late.on_frag(2, 5, i, n, slices[i as usize]).is_none());
    }
    let mut in_time = UdpReasm::default();
    in_time.advance(1000);
    assert!(in_time.on_frag(2, 5, 0, n, slices[0]).is_none());
    in_time.advance(1250);
    let mut got = None;
    for i in 1..n {
        got = in_time.on_frag(2, 5, i, n, slices[i as usize]);
    }
    assert_eq!(got, Some(msg));
}
