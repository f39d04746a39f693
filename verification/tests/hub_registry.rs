//! Who is in which band, and who gets which packet.
use telesthete::crypto::BandId;
use telesthete::hub::registry::{Limits, PeerKey, RegError, Registry};
use telesthete::hub::relay::{udp_ingress, ConnPeer, Ingress};

fn band(n: u8) -> BandId {
    [n; 16]
}

fn big() -> Limits {
    Limits { max_bands: 1024, max_peers_per_band: 1024, udp_validation_packets: 2 }
}

fn frame(n: u8, marker: u8) -> Vec<u8> {
    let mut v = vec![0u8; 43];
    v[..16].copy_from_slice(&band(n));
    v[42] = marker;
    v
}

#[test]
fn forward_excludes_sender() {
    let mut r = Registry::new(big());
    let (k1, k2) = (PeerKey::Conn(1), PeerKey::Conn(2));
    r.connect(band(1), k1, 0).unwrap();
    r.connect(band(1), k2, 0).unwrap();
    let relay = r.forward(&band(1), k1);
    assert!(!relay.peers.contains(&k1), "sender must not receive its own frame");
    assert!(relay.peers.contains(&k2), "other peer must receive");
}

#[test]
fn bands_are_isolated() {
    let mut r = Registry::new(big());
    r.connect(band(1), PeerKey::Conn(1), 0).unwrap();
    r.connect(band(2), PeerKey::Conn(2), 0).unwrap();
    let relay = r.forward(&band(1), PeerKey::Conn(99));
    assert_eq!(relay.peers, vec![PeerKey::Conn(1)], "other band must not see traffic");
}

#[test]
fn mixed_transport_keys_distinct() {
    let mut r = Registry::new(big());
    let addr = 6000;
    r.observe_udp(band(1), addr, 0).unwrap();
    r.observe_udp(band(1), addr, 0).unwrap();
    r.connect(band(1), PeerKey::Conn(1), 0).unwrap();
    assert_eq!(r.peer_count(&band(1)), 2);
    let relay = r.forward(&band(1), PeerKey::Conn(99));
    assert!(relay.peers.contains(&PeerKey::Udp(addr)));
    assert!(relay.peers.contains(&PeerKey::Conn(1)));
}

#[test]
fn conn_peer_eligible_immediately() {
    let mut r = Registry::new(big());
    r.connect(band(1), PeerKey::Conn(1), 0).unwrap();
    assert_eq!(r.is_eligible(&band(1), PeerKey::Conn(1)), Some(true));
}

#[test]
fn udp_dest_requires_validation() {
    let mut r = Registry::new(big());
    let addr = 6001;
    r.observe_udp(band(1), addr, 0).unwrap();
    assert_eq!(r.is_eligible(&band(1), PeerKey::Udp(addr)), Some(false));
    r.observe_udp(band(1), addr, 0).unwrap();
    assert_eq!(r.is_eligible(&band(1), PeerKey::Udp(addr)), Some(true));
}

#[test]
fn udp_validation_disabled_when_one() {
    let mut r = Registry::new(Limits { udp_validation_packets: 1, ..big() });
    let addr = 6002;
    r.observe_udp(band(1), addr, 0).unwrap();
    assert_eq!(r.is_eligible(&band(1), PeerKey::Udp(addr)), Some(true));
}

#[test]
fn band_cap_enforced() {
    let mut r = Registry::new(Limits { max_bands: 1, ..big() });
    r.connect(band(1), PeerKey::Conn(1), 0).unwrap();
    assert_eq!(r.connect(band(2), PeerKey::Conn(2), 0), Err(RegError::BandCap));
    assert_eq!(r.band_count(), 1);
}

#[test]
fn peer_cap_enforced() {
    let mut r = Registry::new(Limits { max_peers_per_band: 1, ..big() });
    r.connect(band(1), PeerKey::Conn(1), 0).unwrap();
    assert_eq!(r.connect(band(1), PeerKey::Conn(2), 0), Err(RegError::PeerCap));
    assert_eq!(r.peer_count(&band(1)), 1);
}

#[test]
fn send_registers_peer() {
    let mut r = Registry::new(big());
    let addr = 6003;
    assert!(!r.contains(&band(1), PeerKey::Udp(addr)));
    r.observe_udp(band(1), addr, 0).unwrap();
    assert!(r.contains(&band(1), PeerKey::Udp(addr)));
}

#[test]
fn prune_evicts_stale_udp_and_reaps() {
    let mut r = Registry::new(Limits { udp_validation_packets: 1, ..big() });
    r.observe_udp(band(1), 6100, 0).unwrap();
    assert_eq!(r.peer_count(&band(1)), 1);
    let (evicted, remaining) = r.prune(20, 5);
    assert_eq!(evicted, 1);
    assert_eq!(remaining, 0);
    assert_eq!(r.band_count(), 0);
}

#[test]
fn active_udp_peer_survives_prune() {
    let mut r = Registry::new(Limits { udp_validation_packets: 1, ..big() });
    let key = PeerKey::Udp(6101);
    r.observe_udp(band(1), 6101, 0).unwrap();
    r.observe_udp(band(1), 6101, 20).unwrap();
    let (evicted, _) = r.prune(20, 50);
    assert_eq!(evicted, 0);
    assert!(r.contains(&band(1), key));
    // Without the second packet it would have been gone by then.
    assert_eq!(r.prune(71, 50).0, 1);
}

#[test]
fn conn_peer_survives_prune_while_connected() {
    let mut r = Registry::new(big());
    let k = PeerKey::Conn(1);
    r.connect(band(1), k, 0).unwrap();
    let (evicted, remaining) = r.prune(20, 1);
    assert_eq!(evicted, 0, "connection peer must not be evicted for silence");
    assert_eq!(remaining, 1);
    assert!(r.contains(&band(1), k));
}

#[test]
fn remove_on_disconnect() {
    let mut r = Registry::new(big());
    let k = PeerKey::Conn(1);
    r.connect(band(1), k, 0).unwrap();
    r.disconnect(&band(1), k);
    assert!(!r.contains(&band(1), k));
    assert_eq!(r.band_count(), 0);
}

#[test]
fn conn_ids_are_unique() {
    let mut r = Registry::new(big());
    let a = r.next_conn_id();
    let b = r.next_conn_id();
    assert_ne!(a, b);
}

fn relayed(i: Ingress) -> Vec<PeerKey> {
    match i {
        Ingress::Relay(relay) => relay.peers,
        _ => vec![],
    }
}

#[test]
fn band_pinning_drops_cross_band() {
    let mut r = Registry::new(Limits { udp_validation_packets: 1, ..big() });
    let mut a = ConnPeer::new();
    let mut b = ConnPeer::new();
    let mut c = ConnPeer::new();
    assert!(relayed(a.ingress(&mut r, &frame(10, 0x01), 0)).is_empty());
    assert!(relayed(b.ingress(&mut r, &frame(11, 0x02), 0)).is_empty());
    assert_eq!(relayed(c.ingress(&mut r, &frame(11, 0x03), 0)).len(), 1);
    // The first is pinned to its band and cannot reach another.
    assert!(matches!(a.ingress(&mut r, &frame(11, 0xAA), 0), Ingress::Drop));
    // A peer of that band can.
    assert_eq!(relayed(c.ingress(&mut r, &frame(11, 0xCC), 0)).len(), 1);
    assert_eq!(r.peer_count(&band(11)), 2);
    b.leave(&mut r);
    assert_eq!(r.peer_count(&band(11)), 1);
}

#[test]
fn short_datagram_ignored() {
    let mut r = Registry::new(Limits { udp_validation_packets: 1, ..big() });
    assert!(matches!(udp_ingress(&mut r, &frame(9, 0xB0), 2, 0), Ingress::Relay(_)));
    assert!(matches!(udp_ingress(&mut r, &frame(9, 0xA0), 1, 0), Ingress::Relay(_)));
    assert!(matches!(udp_ingress(&mut r, &[1, 2, 3], 1, 0), Ingress::Drop));
    assert_eq!(relayed(udp_ingress(&mut r, &frame(9, 0x5A), 1, 0)), vec![PeerKey::Udp(2)]);
}

#[test]
fn caps_refuse_newcomers() {
    let mut r = Registry::new(Limits { max_bands: 1, max_peers_per_band: 1, udp_validation_packets: 1 });
    udp_ingress(&mut r, &frame(1, 0), 1, 0);
    assert!(matches!(
        udp_ingress(&mut r, &frame(2, 0), 1, 0),
        Ingress::Refuse(RegError::BandCap)
    ));
    let mut late = ConnPeer::new();
    assert!(matches!(
        late.ingress(&mut r, &frame(1, 0), 0),
        Ingress::Refuse(RegError::PeerCap)
    ));
    assert!(ConnPeer::join(&mut r, band(2), 0).is_err());
}

#[test]
fn touched_peers_stay() {
    let mut r = Registry::new(Limits { udp_validation_packets: 1, ..big() });
    r.observe_udp(band(1), 5, 0).unwrap();
    r.touch(&band(1), PeerKey::Udp(5), 100);
    assert_eq!(r.prune(110, 20), (0, 1));
    assert_eq!(r.bands(), vec![band(1)]);
}

#[test]
fn federation_is_asked_for_and_links_reach_local_peers() {
    let mut r = Registry::new(Limits { udp_validation_packets: 1, ..big() });
    r.connect(band(1), PeerKey::Conn(1), 0).unwrap();
    assert!(!r.forward(&band(1), PeerKey::Conn(1)).federate);
    r.set_federation();
    assert!(r.forward(&band(1), PeerKey::Conn(1)).federate);
    let injected = r.inject_from_link(&band(1));
    assert_eq!(injected.peers, vec![PeerKey::Conn(1)]);
    assert!(!injected.federate);
    assert_eq!(r.local_bands(), vec![band(1)]);
}
