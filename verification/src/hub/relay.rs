//! What a hub does with a packet that came in over one of its transports.
use crate::crypto::BandId;
use crate::framing::MIN_PACKET_LEN;
use crate::hub::frame::route_info;
use crate::hub::registry::{
    self, PeerKey, RegError, Registry, RegistryModel, Relay,
};
use crate::octets::same_bytes;
use vstd::prelude::*;

verus! {

/// What to do with a packet.
#[derive(Debug)]
pub enum Ingress {
    /// Drop it: it is no packet, or it names another band than its connection is for.
    Drop,
    /// Turn its sender away, for this reason.
    Refuse(RegError),
    /// Relay it.
    Relay(Relay),
}

/// Whether the relay of a packet is the one that the registry asks for.
pub open spec fn relays(m: RegistryModel, band: Seq<u8>, from: PeerKey, r: Relay) -> bool {
    &&& r.peers@ == registry::destinations(registry::members(m.bands, band), Some(from))
    &&& r.federate == (m.federated && registry::has_band(m.bands, band))
}

/// What becomes of a packet.
pub enum Fate {
    /// It is dropped.
    Dropped,
    /// Its sender is turned away.
    Refused(RegError),
    /// It is relayed to the peers of this band, as from this peer.
    Relayed(Seq<u8>, PeerKey),
}

/// Whether what is done with a packet is its fate.
pub open spec fn meets(m: RegistryModel, fate: Fate, r: Ingress) -> bool {
    match r {
        Ingress::Drop => fate is Dropped,
        Ingress::Refuse(e) => fate == Fate::Refused(e),
        Ingress::Relay(relay) => fate matches Fate::Relayed(band, from) && relays(
            m,
            band,
            from,
            relay,
        ),
    }
}

/// The registry after a datagram has come, and what becomes of it.
pub open spec fn datagram_taken(m: RegistryModel, packet: Seq<u8>, addr: u64, now: u64) -> (
    RegistryModel,
    Fate,
) {
    let band = packet.take(16);
    let known = registry::has_peer(registry::members(m.bands, band), PeerKey::Udp(addr));
    if packet.len() < MIN_PACKET_LEN {
        (m, Fate::Dropped)
    } else {
        (
            registry::datagram_seen(m, band, addr, now),
            match registry::refusal(m, band) {
                Some(e) => if known {
                    Fate::Relayed(band, PeerKey::Udp(addr))
                } else {
                    Fate::Refused(e)
                },
                None => Fate::Relayed(band, PeerKey::Udp(addr)),
            },
        )
    }
}

/// Where a connection stands and the registry after a packet has come over it, and what becomes of
/// the packet.
pub open spec fn packet_taken(
    pin: Option<(Seq<u8>, PeerKey)>,
    m: RegistryModel,
    packet: Seq<u8>,
    now: u64,
) -> (Option<(Seq<u8>, PeerKey)>, RegistryModel, Fate) {
    let band = packet.take(16);
    let fresh = PeerKey::Conn(m.next_conn);
    if packet.len() < MIN_PACKET_LEN {
        (pin, m, Fate::Dropped)
    } else {
        match pin {
            Some((pinned, key)) => if pinned == band {
                (pin, registry::touched(m, band, key, now), Fate::Relayed(band, key))
            } else {
                (pin, m, Fate::Dropped)
            },
            None => match registry::refusal(m, band) {
                Some(e) => (None, joined(m, band, now), Fate::Refused(e)),
                None => (
                    Some((band, fresh)),
                    joined(m, band, now),
                    Fate::Relayed(band, fresh),
                ),
            },
        }
    }
}

/// A connection stays with its band: whatever comes over it, it is for the same band as the same
/// peer. A packet that names another band, or is too short to be one, is dropped and leaves the
/// registry as it was; any other is relayed in the connection's band, as from its peer.
pub proof fn lemma_connection_stays_with_its_band(
    m: RegistryModel,
    band: Seq<u8>,
    key: PeerKey,
    packet: Seq<u8>,
    now: u64,
)
    ensures
        ({
            let (pin, after, fate) = packet_taken(Some((band, key)), m, packet, now);
            let meant = packet.len() >= 43 && packet.take(16) == band;
            &&& pin == Some((band, key))
            &&& !meant ==> after == m && fate is Dropped
            &&& meant ==> fate == Fate::Relayed(band, key)
        }),
{
}

/// The first packet of a connection tells its band: the connection is then for the band that the
/// packet names, as a peer of its own number, which is in that band from then on; unless there is
/// no room, when it is turned away and is for no band.
pub proof fn lemma_first_packet_tells_the_band(m: RegistryModel, packet: Seq<u8>, now: u64)
    requires
        registry::registry_wf(m),
        packet.len() >= 43,
    ensures
        ({
            let (pin, after, fate) = packet_taken(None, m, packet, now);
            let band = packet.take(16);
            let key = PeerKey::Conn(m.next_conn);
            match registry::refusal(m, band) {
                Some(e) => pin is None && fate == Fate::Refused(e) && forall|
                    b: Seq<u8>,
                    p: registry::PeerEntry,
                | #[trigger]
                    registry::seated(after, b, p) == registry::seated(m, b, p),
                None => pin == Some((band, key)) && fate == Fate::Relayed(band, key)
                    && registry::seated(
                    after,
                    band,
                    registry::PeerEntry { key, last_seen: now, eligible: true, seen: 1 },
                ),
            }
        }),
{
    let band = packet.take(16);
    let key = PeerKey::Conn(m.next_conn);
    let p = registry::PeerEntry { key, last_seen: now, eligible: true, seen: 1 };
    if registry::refusal(m, band) is None {
        lemma_joins_under_its_own_number(m, band, now, band, p);
    } else {
        let next = RegistryModel { next_conn: registry::number_after(m.next_conn), ..m };
        assert(registry::refusal(next, band) == registry::refusal(m, band));
        registry::lemma_only_that_peer_comes(next, band, p, band, p);
        assert(joined(m, band, now).bands == m.bands);
        assert forall|b: Seq<u8>, q: registry::PeerEntry| #[trigger]
            registry::seated(joined(m, band, now), b, q) == registry::seated(m, b, q) by {}
    }
}

/// A datagram is relayed in the band that it names, as from its source, if the source is in that band
/// or there is room for it; else its source is turned away. One too short to be a packet is dropped
/// and leaves the registry as it was.
pub proof fn lemma_datagram_relayed(m: RegistryModel, packet: Seq<u8>, addr: u64, now: u64)
    requires
        registry::registry_wf(m),
    ensures
        ({
            let (after, fate) = datagram_taken(m, packet, addr, now);
            let band = packet.take(16);
            let there = exists|p: registry::PeerEntry| #[trigger]
                registry::seated(m, band, p) && p.key == PeerKey::Udp(addr);
            &&& packet.len() < 43 ==> after == m && fate is Dropped
            &&& packet.len() >= 43 ==> match registry::refusal(m, band) {
                Some(e) => fate == if there {
                    Fate::Relayed(band, PeerKey::Udp(addr))
                } else {
                    Fate::Refused(e)
                },
                None => fate == Fate::Relayed(band, PeerKey::Udp(addr)),
            }
            &&& packet.len() >= 43 ==> after == registry::datagram_seen(m, band, addr, now)
        }),
{
    registry::lemma_there(m, packet.take(16), PeerKey::Udp(addr));
}

/// Takes a datagram: its source becomes a peer of the band that it names, and it is relayed to
/// the others.
pub fn udp_ingress(registry: &mut Registry, packet: &[u8], addr: u64, now: u64) -> (r: Ingress)
    requires
        old(registry).wf(),
    ensures
        final(registry).wf(),
        ({
            let m = old(registry)@;
            let band = packet@.take(16);
            let after = registry::datagram_seen(m, band, addr, now);
            let known = registry::has_peer(
                registry::members(m.bands, band),
                PeerKey::Udp(addr),
            );
            if packet@.len() < MIN_PACKET_LEN {
                r is Drop && final(registry)@ == m
            } else {
                &&& final(registry)@ == after
                &&& match r {
                    Ingress::Drop => false,
                    Ingress::Refuse(e) => !known && registry::refusal(m, band) == Some(e),
                    Ingress::Relay(relay) => {
                        &&& known || registry::refusal(m, band) is None
                        &&& relays(after, band, PeerKey::Udp(addr), relay)
                    },
                }
            }
        }),
        final(registry)@ == datagram_taken(old(registry)@, packet@, addr, now).0,
        meets(final(registry)@, datagram_taken(old(registry)@, packet@, addr, now).1, r),
{
    let info = match route_info(packet) {
        Some(info) => info,
        None => {
            return Ingress::Drop;
        },
    };
    match registry.observe_udp(info.band_id, addr, now) {
        Err(e) => Ingress::Refuse(e),
        Ok(()) => Ingress::Relay(registry.forward(&info.band_id, PeerKey::Udp(addr))),
    }
}

/// A connection, and the band that it is for once that is known.
pub struct ConnPeer {
    pin: Option<(BandId, PeerKey)>,
}

impl ConnPeer {
    /// The band that the connection is for, and the peer that it is.
    pub closed spec fn pinned(self) -> Option<(Seq<u8>, PeerKey)> {
        match self.pin {
            Some((band, key)) => Some((band@, key)),
            None => None,
        }
    }

    /// A connection whose band its first packet tells.
    pub fn new() -> (r: Self)
        ensures
            r.pinned() is None,
    {
        ConnPeer { pin: None }
    }

    /// The band that the peer is in, and its key there.
    pub fn place(&self) -> (r: Option<(BandId, PeerKey)>)
        ensures
            match r {
                Some((band, key)) => self.pinned() == Some((band@, key)),
                None => self.pinned() is None,
            },
    {
        self.pin
    }

    /// A connection that was made for a band.
    pub fn join(registry: &mut Registry, band: BandId, now: u64) -> (r: Result<Self, RegError>)
        requires
            old(registry).wf(),
        ensures
            final(registry).wf(),
            r is Ok <==> registry::refusal(old(registry)@, band@) is None,
            r matches Err(e) ==> registry::refusal(old(registry)@, band@) == Some(e),
            r matches Ok(c) ==> c.pinned() == Some(
                (band@, PeerKey::Conn(old(registry)@.next_conn)),
            ),
            final(registry)@ == joined(old(registry)@, band@, now),
    {
        let key = PeerKey::Conn(registry.next_conn_id());
        match registry.connect(band, key, now) {
            Ok(()) => Ok(ConnPeer { pin: Some((band, key)) }),
            Err(e) => Err(e),
        }
    }

    /// Takes a packet that came over the connection. The first one tells its band, if it was
    /// not made for one; from then on packets that name another band are dropped.
    pub fn ingress(&mut self, registry: &mut Registry, packet: &[u8], now: u64) -> (r: Ingress)
        requires
            old(registry).wf(),
        ensures
            final(registry).wf(),
            ({
                let m = old(registry)@;
                let band = packet@.take(16);
                if packet@.len() < MIN_PACKET_LEN {
                    &&& r is Drop
                    &&& final(registry)@ == m
                    &&& final(self).pinned() == old(self).pinned()
                } else {
                    match old(self).pinned() {
                        Some((pin, key)) => {
                            &&& final(self).pinned() == old(self).pinned()
                            &&& if pin == band {
                                &&& final(registry)@ == registry::touched(m, band, key, now)
                                &&& r matches Ingress::Relay(relay) && relays(
                                    final(registry)@,
                                    band,
                                    key,
                                    relay,
                                )
                            } else {
                                r is Drop && final(registry)@ == m
                            }
                        },
                        None => {
                            let key = PeerKey::Conn(m.next_conn);
                            &&& final(registry)@ == joined(m, band, now)
                            &&& match registry::refusal(m, band) {
                                Some(e) => {
                                    &&& r == Ingress::Refuse(e)
                                    &&& final(self).pinned() is None
                                },
                                None => {
                                    &&& final(self).pinned() == Some((band, key))
                                    &&& r matches Ingress::Relay(relay) && relays(
                                        final(registry)@,
                                        band,
                                        key,
                                        relay,
                                    )
                                },
                            }
                        },
                    }
                }
            }),
            ({
                let (pin, after, fate) = packet_taken(
                    old(self).pinned(),
                    old(registry)@,
                    packet@,
                    now,
                );
                &&& final(self).pinned() == pin
                &&& final(registry)@ == after
                &&& meets(after, fate, r)
            }),
    {
        let info = match route_info(packet) {
            Some(info) => info,
            None => {
                return Ingress::Drop;
            },
        };
        match self.pin {
            Some((band, key)) => {
                if !same_bytes(band.as_slice(), info.band_id.as_slice()) {
                    return Ingress::Drop;
                }
                registry.touch(&band, key, now);
                Ingress::Relay(registry.forward(&band, key))
            },
            None => {
                let key = PeerKey::Conn(registry.next_conn_id());
                match registry.connect(info.band_id, key, now) {
                    Err(e) => Ingress::Refuse(e),
                    Ok(()) => {
                        self.pin = Some((info.band_id, key));
                        Ingress::Relay(registry.forward(&info.band_id, key))
                    },
                }
            },
        }
    }

    /// Takes note that the connection has ended.
    pub fn leave(&mut self, registry: &mut Registry)
        requires
            old(registry).wf(),
        ensures
            final(registry).wf(),
            final(self).pinned() is None,
            final(registry)@ == match old(self).pinned() {
                Some((band, key)) => registry::disconnected(old(registry)@, band, key),
                None => old(registry)@,
            },
    {
        if let Some((band, key)) = self.pin {
            registry.disconnect(&band, key);
        }
        self.pin = None;
    }
}

/// The registry after a new connection has asked to join a band.
pub open spec fn joined(m: RegistryModel, band: Seq<u8>, now: u64) -> RegistryModel {
    registry::connected(
        RegistryModel { next_conn: registry::number_after(m.next_conn), ..m },
        band,
        PeerKey::Conn(m.next_conn),
        now,
    )
}

/// A new connection that is admitted is in its band under a number of its own, relayed to from
/// the start, and the next one gets the next number. Nobody else comes, goes or changes.
pub proof fn lemma_joins_under_its_own_number(
    m: RegistryModel,
    band: Seq<u8>,
    now: u64,
    b: Seq<u8>,
    q: registry::PeerEntry,
)
    requires
        registry::registry_wf(m),
        registry::refusal(m, band) is None,
    ensures
        registry::seated(joined(m, band, now), b, q) <==> if b == band && q.key == PeerKey::Conn(
            m.next_conn,
        ) {
            q.last_seen == now && q.eligible && q.seen == 1
        } else {
            registry::seated(m, b, q)
        },
        joined(m, band, now).next_conn == registry::number_later(m.next_conn, 1),
{
    reveal_with_fuel(registry::number_later, 2);
    let next = RegistryModel { next_conn: registry::number_after(m.next_conn), ..m };
    let p = registry::PeerEntry {
        key: PeerKey::Conn(m.next_conn),
        last_seen: now,
        eligible: true,
        seen: 1,
    };
    registry::lemma_only_that_peer_comes(next, band, p, b, q);
    assert(registry::seated(next, b, q) == registry::seated(m, b, q));
}

/// A packet that is relayed goes to every other peer of its band that may be relayed to, to nobody
/// else, and to no peer twice; and over the links to other hubs where there are any and the band has
/// peers.
pub proof fn lemma_relayed_to_the_others(
    m: RegistryModel,
    band: Seq<u8>,
    from: PeerKey,
    r: Relay,
    key: PeerKey,
)
    requires
        registry::registry_wf(m),
        relays(m, band, from, r),
    ensures
        r.peers@.contains(key) <==> key != from && exists|p: registry::PeerEntry|
            #[trigger] registry::seated(m, band, p) && p.key == key && p.eligible,
        r.peers@.no_duplicates(),
        r.federate <==> m.federated && exists|p: registry::PeerEntry| #[trigger]
            registry::seated(m, band, p),
{
    registry::lemma_relayed_within_the_band(m, band, Some(from), key);
}

} // verus!
