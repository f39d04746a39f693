//! A session once its keys are agreed on.
use telesthete::session::conn::{
    frame_handshake, handshake_len, Outgoing, SessionCore, CH_KEEPALIVE, DEAD_AFTER, PING_IDLE,
};
use telesthete::session::crypto::{host_respond, ClientHandshake};
use telesthete::session::psk;

const PSK: [u8; 32] = [7u8; 32];

fn pair() -> (SessionCore, SessionCore) {
    let hs = ClientHandshake::new(PSK);
    let hello1 = hs.hello1(1);
    let (hello2, host, _pending, _) = match host_respond(&hello1, PSK, 2) {
        Ok(answer) => answer,
        Err(e) => panic!("{e:?}"),
    };
    let (client, _, _) = match hs.recv_hello2(&hello2) {
        Ok(out) => out,
        Err(e) => panic!("{e:?}"),
    };
    (SessionCore::new(client, true, 1200, 0), SessionCore::new(host, false, 1200, 0))
}

#[test]
fn records_arrive_in_order_however_they_are_split() {
    let (mut c, mut h) = pair();
    let mut bytes = c.send_tcp(0, b"first");
    bytes.extend(c.send_tcp(201, b"second"));
    h.absorb(&bytes[..7], 10);
    assert_eq!(h.take_records(), (vec![], 0));
    h.absorb(&bytes[7..], 20);
    let (got, pings) = h.take_records();
    assert_eq!(got, vec![(0, b"first".to_vec()), (201, b"second".to_vec())]);
    assert_eq!(pings, 0);
    assert_eq!(h.last_rx, 20);
}

#[test]
fn tampered_record_ends_the_session() {
    let (mut c, mut h) = pair();
    let mut bytes = c.send_tcp(0, b"first");
    let last = bytes.len() - 1;
    bytes[last] ^= 1;
    h.absorb(&bytes, 10);
    assert_eq!(h.take_records(), (vec![], 0));
    assert!(!h.is_alive());
}

#[test]
fn reliable_and_lossy_channels() {
    let (mut c, mut h) = pair();
    match c.send(0, b"ctl") {
        Outgoing::Record(bytes) => {
            h.absorb(&bytes, 1);
            assert_eq!(h.take_records().0, vec![(0, b"ctl".to_vec())]);
        }
        other => panic!("expected a record, got {other:?}"),
    }
    let big = vec![0xAB; 5000];
    match c.send(200, &big) {
        Outgoing::Datagrams(datagrams) => {
            assert!(datagrams.len() > 1);
            let mut got = None;
            for d in datagrams {
                assert!(d.len() <= 1400);
                let r = h.on_datagram(&d, 2);
                assert!(h.peer_bound);
                if r.message.is_some() {
                    got = r.message;
                }
            }
            assert_eq!(got, Some((200, big)));
        }
        other => panic!("expected datagrams, got {other:?}"),
    }
}

#[test]
fn fragments_may_come_in_any_order_but_not_too_late() {
    let (mut c, mut h) = pair();
    let big: Vec<u8> = (0..4000u32).map(|i| (i % 251) as u8).collect();
    for (last_at, whole) in [(100 + 250, true), (100 + 251, false)] {
        let mut datagrams = match c.send(200, &big) {
            Outgoing::Datagrams(datagrams) => datagrams,
            other => panic!("expected datagrams, got {other:?}"),
        };
        datagrams.reverse();
        let n = datagrams.len();
        assert_eq!(n, 4);
        for d in &datagrams[..n - 1] {
            assert_eq!(h.on_datagram(d, 100).message, None);
        }
        let out = h.on_datagram(&datagrams[n - 1], last_at).message;
        assert_eq!(out, if whole { Some((200, big.clone())) } else { None });
    }
}

#[test]
fn forged_datagrams_are_ignored() {
    let (mut c, mut h) = pair();
    let mut d = c.udp_hello();
    let last = d.len() - 1;
    d[last] ^= 1;
    let r = h.on_datagram(&d, 1);
    assert!(!r.bind && r.message.is_none());
    let good = c.udp_hello();
    assert!(h.on_datagram(&good, 1).bind);
    assert!(h.peer_bound);
}

#[test]
fn keepalive_pings_when_idle_and_gives_up() {
    let (mut c, mut h) = pair();
    assert!(!c.service_keepalive(PING_IDLE));
    assert!(c.service_keepalive(PING_IDLE + 1));
    assert!(!c.service_keepalive(PING_IDLE + 2));
    c.mark_sent(PING_IDLE + 1);
    let ping = c.keepalive_record(false);
    h.absorb(&ping, 1);
    assert_eq!(h.take_records(), (vec![], 1), "a ping is counted, not delivered");
    let pong = h.keepalive_record(true);
    c.absorb(&pong, 3000);
    assert_eq!(c.take_records(), (vec![], 0), "an answer is not answered");
    assert!(c.is_alive());
    assert!(!c.service_keepalive(3000 + DEAD_AFTER + 1));
    assert!(!c.is_alive());
    assert_eq!(CH_KEEPALIVE, 0xFE);
}

#[test]
fn handshake_messages_carry_their_length() {
    let framed = frame_handshake(b"abc");
    assert_eq!(framed, vec![3, 0, 0, 0, b'a', b'b', b'c']);
    assert_eq!(handshake_len([3, 0, 0, 0]), 3);
}

#[test]
fn secrets_are_read_in_hex_and_base64() {
    let hex = "07".repeat(32);
    assert_eq!(psk::parse(&hex), Ok(PSK));
    assert_eq!(psk::parse_file(&format!("  {hex}\n")), Ok(PSK));
    let b64 = "base64: BwcHBwcHBwcHBwcHBwcHBwcHBwcHBwcHBwcHBwcHBwc=";
    assert_eq!(psk::parse(b64), Ok(PSK));
    assert!(psk::parse("07").is_err());
    assert!(psk::parse("not a key").is_err());
    assert_eq!(psk::hex_decode("0aFF"), Ok(vec![0x0a, 0xff]));
    assert!(psk::hex_decode("0g").is_err());
    assert_eq!(psk::b64_decode("aGk="), Ok(b"hi".to_vec()));
}

#[test]
fn secret_file_is_looked_for_in_order() {
    let t = |s: &str| Some(s.to_string());
    assert!(matches!(psk::default_path(t("/f"), t("/c"), t("/h")), psk::PskPath::File(p) if p == "/f"));
    assert!(matches!(psk::default_path(None, t("/c"), t("/h")), psk::PskPath::Config(p) if p == "/c"));
    assert!(matches!(psk::default_path(None, None, t("/h")), psk::PskPath::Home(p) if p == "/h"));
}

#[test]
fn no_datagram_is_longer_than_the_mtu() {
    let (mut c, mut h) = pair();
    for mtu in [64usize, 100, 1200] {
        c.mtu = mtu;
        for len in [0usize, mtu - 31, mtu - 30, mtu - 29, 5 * mtu] {
            let msg = vec![0x5A; len];
            let datagrams = match c.send(200, &msg) {
                Outgoing::Datagrams(datagrams) => datagrams,
                other => panic!("expected datagrams, got {other:?}"),
            };
            let mut got = None;
            for d in &datagrams {
                assert!(d.len() <= mtu, "{} bytes at {mtu}", d.len());
                got = h.on_datagram(d, 2).message.or(got);
            }
            assert_eq!(got, Some((200, msg)));
        }
    }
    c.mtu = 64;
    match c.send(200, &[1u8; 35]) {
        Outgoing::Datagrams(datagrams) => assert_eq!(datagrams[0].len(), 64),
        other => panic!("expected datagrams, got {other:?}"),
    }
}

#[test]
fn datagram_numbers_do_not_repeat() {
    let (mut c, _) = pair();
    let mut seen = std::collections::HashSet::new();
    for len in [10usize, 4000, 20, 3000] {
        match c.send(200, &vec![1u8; len]) {
            Outgoing::Datagrams(datagrams) => {
                for d in datagrams {
                    assert!(seen.insert(d[2..6].to_vec()));
                }
            }
            other => panic!("expected datagrams, got {other:?}"),
        }
    }
    assert!(seen.insert(c.udp_hello()[2..6].to_vec()));
}

#[test]
fn repeated_datagrams_complete_a_message_once() {
    let (mut c, mut h) = pair();
    let big = vec![0x33; 4000];
    let datagrams = match c.send(200, &big) {
        Outgoing::Datagrams(datagrams) => datagrams,
        other => panic!("expected datagrams, got {other:?}"),
    };
    for i in [1usize, 3, 1, 0, 3] {
        assert_eq!(h.on_datagram(&datagrams[i], 1).message, None);
    }
    assert_eq!(h.on_datagram(&datagrams[2], 2).message, Some((200, big)));
}
