//! The control channel: introductions, restarts, replays, liveness.
use std::collections::HashMap;
use telesthete::band::BandOptions;
use telesthete::control::{
    ControlConfig, ControlCore, ControlEvent, ControlMessage, Goodbye, Hello, HelloAck, Keepalive,
    MAX_PEERS,
};
use telesthete::crypto::select_cipher;

#[test]
fn select_cipher_normalizes_missing_baseline() {
    assert_eq!(
        select_cipher(&["chacha20-poly1305".into()], &["aes256-gcm".into()]),
        "chacha20-poly1305"
    );
    assert_eq!(
        select_cipher(
            &["aes256-gcm".into()],
            &["aes256-gcm".into(), "chacha20-poly1305".into()]
        ),
        "aes256-gcm"
    );
}

#[test]
fn select_cipher_matches_spec() {
    let aes = "aes256-gcm".to_string();
    let cha = "chacha20-poly1305".to_string();
    assert_eq!(select_cipher(&[aes.clone(), cha.clone()], &[cha.clone(), aes.clone()]), aes);
    assert_eq!(select_cipher(&[cha.clone(), aes.clone()], &[cha.clone(), aes.clone()]), cha);
    assert_eq!(select_cipher(&[aes.clone()], &[cha.clone()]), cha);
}

fn fresh(name: &str, ciphers: &[&str]) -> ControlCore {
    ControlCore::new(ControlConfig {
        session: 77,
        hostname: name.to_string(),
        capabilities: vec!["af-unix".to_string()],
        ciphers: ciphers.iter().map(|c| c.to_string()).collect(),
    })
}

fn hello(session: u64) -> ControlMessage {
    ControlMessage::Hello(Hello {
        hostname: "alice".to_string(),
        capabilities: vec!["weird".to_string()],
        ciphers: vec!["aes256-gcm".to_string(), "chacha20-poly1305".to_string()],
        session,
    })
}

#[test]
fn introductions_are_answered_and_enlisted() {
    let mut bob = fresh("bob", &["aes256-gcm", "chacha20-poly1305"]);
    let step = bob.handle(1, 100, hello(5));
    assert_eq!(step.restarted, Some(5));
    let ack = step.ack.unwrap();
    assert_eq!(ack.hostname, "bob");
    assert_eq!(ack.cipher, "aes256-gcm");
    assert_eq!(ack.session, 77);
    match step.event {
        Some(ControlEvent::Hello { from, hostname, .. }) => {
            assert_eq!(from, 1);
            assert_eq!(hostname, "alice");
        }
        other => panic!("expected Hello, got {other:?}"),
    }
    assert_eq!(bob.peers().len(), 1);
    assert_eq!(bob.peers()[0].cipher, "aes256-gcm");
    assert_eq!(bob.peers()[0].capabilities, vec!["weird".to_string()]);
}

#[test]
fn both_ends_agree_on_the_cipher() {
    let mut alice = fresh("alice", &["aes256-gcm", "chacha20-poly1305"]);
    let mut bob = fresh("bob", &["chacha20-poly1305", "aes256-gcm"]);
    let ack = bob.handle(1, 9, ControlMessage::Hello(alice.hello())).ack.unwrap();
    let step = alice.handle(2, 9, ControlMessage::HelloAck(ack));
    assert!(matches!(step.event, Some(ControlEvent::HelloAck { .. })));
    assert!(step.ack.is_none());
    assert_eq!(alice.peers()[0].cipher, "aes256-gcm");
    assert_eq!(bob.peers()[0].cipher, "aes256-gcm");
}

#[test]
fn unknown_committed_cipher_falls_back_to_the_baseline() {
    let mut alice = fresh("alice", &["chacha20-poly1305"]);
    alice.handle(
        2,
        9,
        ControlMessage::HelloAck(HelloAck {
            hostname: "bob".to_string(),
            capabilities: vec![],
            ciphers: vec![],
            cipher: "rot13".to_string(),
            session: 1,
        }),
    );
    assert_eq!(alice.peers()[0].cipher, "chacha20-poly1305");
}

#[test]
fn replays_and_past_lives_are_dropped_and_restarts_heard() {
    let mut bob = fresh("bob", &["chacha20-poly1305"]);
    assert!(bob.handle(1, 100, hello(5)).event.is_some());
    // The same packet again, and an older one.
    assert!(bob.handle(1, 100, hello(5)).event.is_none());
    assert!(bob.handle(1, 99, hello(5)).event.is_none());
    // A restart starts anywhere.
    let step = bob.handle(1, 3, hello(6));
    assert_eq!(step.restarted, Some(6));
    assert!(step.event.is_some());
    // The life before cannot come back, whatever its number.
    let step = bob.handle(1, 1000, hello(5));
    assert_eq!(step.restarted, None);
    assert!(step.event.is_none() && step.ack.is_none());
    assert!(bob.handle(1, 4, ControlMessage::Keepalive(Keepalive {})).event.is_some());
    assert!(bob.handle(1, 4, ControlMessage::Keepalive(Keepalive {})).event.is_none());
    // Other peers have numbers of their own.
    assert!(bob.handle(2, 1, ControlMessage::Keepalive(Keepalive {})).event.is_some());
}

#[test]
fn only_known_types_are_surfaced() {
    let mut bob = fresh("bob", &["chacha20-poly1305"]);
    let known = ControlMessage::Other { type_: 4, payload: "{}".to_string() };
    assert!(matches!(
        bob.handle(1, 1, known).event,
        Some(ControlEvent::Other { from: 1, type_: 4, .. })
    ));
    let unknown = ControlMessage::Other { type_: 0x42, payload: "{}".to_string() };
    assert!(bob.handle(1, 2, unknown).event.is_none());
    assert!(matches!(
        bob.handle(1, 3, ControlMessage::Goodbye(Goodbye {})).event,
        Some(ControlEvent::Goodbye { from: 1 })
    ));
}

#[test]
fn silent_peers_are_swept() {
    let mut bob = fresh("bob", &["chacha20-poly1305"]);
    bob.handle(1, 1, hello(5));
    bob.handle(2, 1, hello(5));
    let mut seen: HashMap<u64, u64> = HashMap::new();
    seen.insert(1, 1000);
    seen.insert(2, 20_000);
    let (ping, dead) = bob.sweep(&seen, 20_000, 15_000);
    assert_eq!(ping, vec![1, 2]);
    assert_eq!(dead, vec![1]);
    assert_eq!(bob.peers().len(), 1);
    assert_eq!(bob.peers()[0].addr, 2);
}

#[test]
fn options_always_offer_the_baseline() {
    let defaults = BandOptions::default();
    assert_eq!(defaults.ciphers, vec!["chacha20-poly1305".to_string()]);
    let c = BandOptions { ciphers: vec!["aes256-gcm".to_string()], ..BandOptions::default() }
        .introduce("me".to_string(), 1234);
    assert_eq!(c.ciphers, vec!["aes256-gcm".to_string(), "chacha20-poly1305".to_string()]);
    assert_eq!(c.session, 1234);
    let fixed = BandOptions { session: Some(9), ..BandOptions::default() }
        .introduce("me".to_string(), 1234);
    assert_eq!(fixed.session, 9);
    assert_eq!(fixed.hostname, "me");
}

#[test]
fn only_so_many_peers_are_remembered() {
    let mut bob = fresh("bob", &["chacha20-poly1305"]);
    for from in 0..MAX_PEERS as u64 {
        assert!(bob.handle(from, 1, hello(5)).ack.is_some());
    }
    let step = bob.handle(MAX_PEERS as u64, 1, hello(5));
    assert!(step.ack.is_none() && step.event.is_none() && step.restarted.is_none());
    assert_eq!(bob.peers().len(), MAX_PEERS);
    assert!(bob.handle(0, 2, hello(5)).ack.is_some(), "those that are known are still heard");
    let late = bob.handle(MAX_PEERS as u64, 1, ControlMessage::Keepalive(Keepalive {}));
    assert!(late.event.is_none());
}
