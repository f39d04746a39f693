//! Links between hubs.
use telesthete::crypto::BandId;
use telesthete::hub::federation::{
    decode_bands, encode_bands, frame_message, hello_accepted, message_len, relay_payload, BandSet,
    FedConfig, LinkAction, LinkCore, MAX_MSG, T_BANDS, T_HELLO, T_RELAY,
};
use telesthete::hub::unix::{reconcile, socket_name};

fn band(n: u8) -> BandId {
    [n; 16]
}

fn text(s: &str) -> Option<String> {
    Some(s.to_string())
}

#[test]
fn federation_needs_a_side() {
    assert!(FedConfig::from_vars(None, None, text("s"), text("active")).is_none());
    assert!(FedConfig::from_vars(text(""), text(" , "), text("s"), None).is_none());
    let c = FedConfig::from_vars(text("127.0.0.1:1"), None, None, text("ACTIVE")).unwrap();
    assert_eq!(c.listen.as_deref(), Some("127.0.0.1:1"));
    assert_eq!(c.secret, "");
    assert!(c.inbound_active);
    let c = FedConfig::from_vars(None, text("a:1, ,b:2"), text("s"), None).unwrap();
    assert_eq!(c.links, vec!["a:1".to_string(), "b:2".to_string()]);
    assert_eq!(c.secret, "s");
    assert!(!c.inbound_active, "a link that is dialled in stays revoked until told otherwise");
}

#[test]
fn bands_round_trip() {
    let bytes = encode_bands(&[band(1), band(2)]);
    assert_eq!(&bytes[..2], &[0, 2]);
    let set = decode_bands(&bytes);
    assert!(set.contains(&band(1)) && set.contains(&band(2)) && !set.contains(&band(3)));
    assert!(set.same(&BandSet::of(&[band(2), band(1), band(1)])));
}

#[test]
fn messages_carry_length_and_type() {
    let m = frame_message(T_RELAY, b"xyz").unwrap();
    assert_eq!(m, vec![0, 0, 0, 4, T_RELAY, b'x', b'y', b'z']);
    assert_eq!(message_len([0, 0, 0, 4]), Some(4));
    assert_eq!(message_len([0, 0, 0, 0]), None);
    assert_eq!(message_len([0xFF, 0, 0, 0]), None);
    assert!(frame_message(T_RELAY, &vec![0; MAX_MSG as usize]).is_none());
}

#[test]
fn hello_is_checked_against_the_secret() {
    assert!(hello_accepted("s3cret", T_HELLO, b"s3cret"));
    assert!(!hello_accepted("s3cret", T_HELLO, b"s3creT"));
    assert!(!hello_accepted("s3cret", T_BANDS, b"s3cret"));
}

#[test]
fn frame_crosses_active_link_both_ways() {
    let mut link = LinkCore::new(true);
    assert!(!link.wants(&band(7)));
    link.on_message(T_BANDS, &encode_bands(&[band(7)]));
    assert!(link.wants(&band(7)));
    match link.on_message(T_RELAY, &relay_payload(&band(7), b"frame")) {
        LinkAction::Inject(b, f) => {
            assert_eq!(b, band(7));
            assert_eq!(f, b"frame".to_vec());
        }
        other => panic!("expected Inject, got {other:?}"),
    }
}

#[test]
fn revoked_link_relays_nothing() {
    let mut link = LinkCore::new(false);
    link.on_message(T_BANDS, &encode_bands(&[band(9)]));
    assert!(!link.wants(&band(9)));
    assert!(matches!(
        link.on_message(T_RELAY, &relay_payload(&band(9), b"frame")),
        LinkAction::Nothing
    ));
}

#[test]
fn unrelated_band_is_not_relayed() {
    let mut link = LinkCore::new(true);
    link.on_message(T_BANDS, &encode_bands(&[band(5)]));
    assert!(!link.wants(&band(3)));
}

#[test]
fn bands_are_told_on_change_and_now_and_then() {
    let mut link = LinkCore::new(true);
    assert_eq!(link.on_tick(&[band(1)]), Some(encode_bands(&[band(1)])));
    assert_eq!(link.on_tick(&[band(1)]), None);
    assert_eq!(link.on_tick(&[band(1), band(2)]), Some(encode_bands(&[band(1), band(2)])));
    let told = (0..20).filter(|_| link.on_tick(&[band(1), band(2)]).is_some()).count();
    assert_eq!(told, 1);
}

#[test]
fn sockets_follow_the_bands() {
    assert_eq!(socket_name(&band(0x0a)), "0a".repeat(16) + ".sock");
    let (missing, stale) = reconcile(&[band(1), band(2)], &[band(2), band(3)]);
    assert_eq!(missing, vec![band(1)]);
    assert_eq!(stale, vec![band(3)]);
}
