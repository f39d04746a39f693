//! Announcements on the local network.
use telesthete::discovery::{pack_announce, parse_announce, DiscoveryCore};
use telesthete::framing::PROTOCOL_VERSION;

#[test]
fn announce_layout_matches_spec() {
    let pkt = pack_announce("alice", 20001);
    assert_eq!(&pkt[..4], b"TELE");
    assert_eq!(pkt[4], PROTOCOL_VERSION);
    assert_eq!(pkt[5], 5);
    assert_eq!(&pkt[6..11], b"alice");
    assert_eq!(&pkt[11..13], &20001u16.to_be_bytes());
    assert_eq!(pkt.len(), 13);
}

#[test]
fn announce_round_trip_and_bounds() {
    assert_eq!(
        parse_announce(&pack_announce("héllo-host", 65535)),
        Some(("héllo-host".into(), 65535))
    );
    assert_eq!(parse_announce(&pack_announce("", 1)), Some((String::new(), 1)));
    let long = "a".repeat(300);
    let (h, p) = parse_announce(&pack_announce(&long, 9)).unwrap();
    assert_eq!(h, "a".repeat(255));
    assert_eq!(p, 9);
}

#[test]
fn parse_rejects_foreign_stale_truncated() {
    assert!(parse_announce(b"NOPE\x03\x00\x00\x00").is_none());
    let mut stale = pack_announce("x", 1);
    stale[4] = PROTOCOL_VERSION + 1;
    assert!(parse_announce(&stale).is_none());
    let pkt = pack_announce("x", 1);
    assert!(parse_announce(&pkt[..pkt.len() - 1]).is_none());
    assert!(parse_announce(b"").is_none());
    let mut extended = pack_announce("h", 7);
    extended.extend_from_slice(b"future");
    assert_eq!(parse_announce(&extended), Some(("h".into(), 7)));
}

#[test]
fn announce_with_bad_text_is_rejected() {
    let mut pkt = pack_announce("ab", 1);
    pkt[6] = 0xFF;
    assert!(parse_announce(&pkt).is_none());
}

#[test]
fn discovery_surfaces_directly_delivered_announce() {
    let mut d = DiscoveryCore::new("me".to_string());
    let announce = pack_announce("other-host", 5555);
    let peer = d.on_packet(&announce, "127.0.0.1".to_string()).unwrap();
    assert_eq!(peer.hostname, "other-host");
    assert_eq!(peer.port, 5555);
    assert_eq!(peer.ip, "127.0.0.1");
    assert!(d.on_packet(&announce, "127.0.0.1".to_string()).is_none());
    // The same name elsewhere is another peer.
    assert!(d.on_packet(&announce, "127.0.0.2".to_string()).is_some());
}

#[test]
fn own_hostname_is_ignored() {
    let mut d = DiscoveryCore::new("self-host".to_string());
    assert!(d.on_packet(&pack_announce("self-host", 1), "127.0.0.1".to_string()).is_none());
}

#[test]
fn long_names_are_cut_between_characters() {
    let long = format!("a{}", "\u{e9}".repeat(200));
    let pkt = pack_announce(&long, 9);
    assert_eq!(pkt[5], 255);
    let (h, p) = parse_announce(&pkt).unwrap();
    assert_eq!((h.as_str(), p), (&long[..255], 9));
    let wide = "\u{1F600}".repeat(70);
    let (h, _) = parse_announce(&pack_announce(&wide, 1)).unwrap();
    assert_eq!(h, "\u{1F600}".repeat(63));
    let euro = "\u{20ac}".repeat(85);
    assert_eq!(parse_announce(&pack_announce(&euro, 1)), Some((euro, 1)));
}
