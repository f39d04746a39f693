//! Who is in which band, and whom a packet is relayed to.
use crate::crypto::BandId;
use crate::octets::same_bytes;
use vstd::prelude::*;

verus! {

/// How much a hub takes on, and when it trusts a source of datagrams.
#[derive(Debug, Clone, Copy, PartialEq, Eq, Structural)]
pub struct Limits {
    /// The most bands at once.
    pub max_bands: usize,
    /// The most peers in a band.
    pub max_peers_per_band: usize,
    /// How many packets a source of datagrams must have sent before packets are relayed to it.
    pub udp_validation_packets: u32,
}

impl Default for Limits {
    fn default() -> (r: Self)
        ensures
            r == (Limits {
                max_bands: 4096,
                max_peers_per_band: 256,
                udp_validation_packets: 2,
            }),
    {
        Limits { max_bands: 4096, max_peers_per_band: 256, udp_validation_packets: 2 }
    }
}

/// Who a peer is: a source of datagrams, or a connection. The two never coincide.
#[derive(Debug, Clone, Copy, PartialEq, Eq, Hash, Structural)]
pub enum PeerKey {
    Udp(u64),
    Conn(u64),
}

/// Why a peer was not admitted.
#[derive(Debug, Clone, Copy, PartialEq, Eq, Structural)]
pub enum RegError {
    /// There are as many bands as may be, and this would be one more.
    BandCap,
    /// The band has as many peers as may be.
    PeerCap,
}

/// A peer of a band.
#[derive(Debug, Clone, Copy, PartialEq, Eq, Structural)]
pub struct PeerEntry {
    pub key: PeerKey,
    /// When it was last heard from, in milliseconds.
    pub last_seen: u64,
    /// Whether packets are relayed to it.
    pub eligible: bool,
    /// How many packets came from it.
    pub seen: u32,
}

struct BandEntry {
    band: BandId,
    peers: Vec<PeerEntry>,
}

/// A band and its peers, in the order in which they came.
#[verifier::ext_equal]
pub struct BandModel {
    pub band: Seq<u8>,
    pub peers: Seq<PeerEntry>,
}

/// What a registry holds: the bands, in the order in which they came.
#[verifier::ext_equal]
pub struct RegistryModel {
    pub bands: Seq<BandModel>,
    pub limits: Limits,
    pub next_conn: u64,
    /// Whether packets are also offered to other hubs.
    pub federated: bool,
}

/// Whom a packet is relayed to.
#[derive(Debug)]
pub struct Relay {
    /// The peers that get it.
    pub peers: Vec<PeerKey>,
    /// Whether it is also offered to other hubs.
    pub federate: bool,
}

/// Where a band stands from `from` on; the number of bands if it is not among them.
pub open spec fn band_position(bands: Seq<BandModel>, band: Seq<u8>, from: int) -> int
    decreases bands.len() - from,
{
    if from >= bands.len() {
        bands.len() as int
    } else if bands[from].band == band {
        from
    } else {
        band_position(bands, band, from + 1)
    }
}

/// Where a peer stands from `from` on; the number of peers if it is not among them.
pub open spec fn peer_position(peers: Seq<PeerEntry>, key: PeerKey, from: int) -> int
    decreases peers.len() - from,
{
    if from >= peers.len() {
        peers.len() as int
    } else if peers[from].key == key {
        from
    } else {
        peer_position(peers, key, from + 1)
    }
}

/// Whether a band is known.
pub open spec fn has_band(bands: Seq<BandModel>, band: Seq<u8>) -> bool {
    band_position(bands, band, 0) < bands.len()
}

/// The peers of a band.
pub open spec fn members(bands: Seq<BandModel>, band: Seq<u8>) -> Seq<PeerEntry> {
    if has_band(bands, band) {
        bands[band_position(bands, band, 0)].peers
    } else {
        Seq::empty()
    }
}

/// Whether a peer is among those of a band.
pub open spec fn has_peer(peers: Seq<PeerEntry>, key: PeerKey) -> bool {
    peer_position(peers, key, 0) < peers.len()
}

/// What is known of a peer.
pub open spec fn peer(peers: Seq<PeerEntry>, key: PeerKey) -> PeerEntry {
    peers[peer_position(peers, key, 0)]
}

/// The bands with the peers of one of them changed, or that band added.
pub open spec fn with_members(
    bands: Seq<BandModel>,
    band: Seq<u8>,
    peers: Seq<PeerEntry>,
) -> Seq<BandModel> {
    if has_band(bands, band) {
        bands.update(band_position(bands, band, 0), BandModel { band, peers })
    } else {
        bands.push(BandModel { band, peers })
    }
}

/// The peers with one changed, or added.
pub open spec fn with_peer(peers: Seq<PeerEntry>, p: PeerEntry) -> Seq<PeerEntry> {
    if has_peer(peers, p.key) {
        peers.update(peer_position(peers, p.key, 0), p)
    } else {
        peers.push(p)
    }
}

/// Why a peer is not admitted, if it is not.
pub open spec fn refusal(m: RegistryModel, band: Seq<u8>) -> Option<RegError> {
    if !has_band(m.bands, band) && m.bands.len() >= m.limits.max_bands {
        Some(RegError::BandCap)
    } else if members(m.bands, band).len() >= m.limits.max_peers_per_band {
        Some(RegError::PeerCap)
    } else {
        None
    }
}

/// The registry after a peer was admitted, or refused.
pub open spec fn admitted(m: RegistryModel, band: Seq<u8>, p: PeerEntry) -> RegistryModel {
    if refusal(m, band) is Some {
        m
    } else {
        RegistryModel {
            bands: with_members(m.bands, band, with_peer(members(m.bands, band), p)),
            ..m
        }
    }
}

/// One more, up to the greatest number.
pub open spec fn one_more(n: u32) -> u32 {
    if n < u32::MAX {
        (n + 1) as u32
    } else {
        n
    }
}

/// What is known of a peer after one more packet came from it.
pub open spec fn heard(p: PeerEntry, now: u64) -> PeerEntry {
    PeerEntry { last_seen: now, seen: one_more(p.seen), ..p }
}

/// What is known of a source of datagrams after one more came from it: enough of them, and
/// packets are relayed to it.
pub open spec fn observed(p: PeerEntry, now: u64, validation: u32) -> PeerEntry {
    PeerEntry { eligible: p.eligible || one_more(p.seen) >= validation, ..heard(p, now) }
}

/// What is known of a peer whose first packet came.
pub open spec fn first_seen(key: PeerKey, now: u64, eligible: bool) -> PeerEntry {
    PeerEntry { key, last_seen: now, eligible, seen: 1 }
}

/// The registry after a connection was made.
pub open spec fn connected(m: RegistryModel, band: Seq<u8>, key: PeerKey, now: u64) -> RegistryModel {
    admitted(m, band, first_seen(key, now, true))
}

/// The registry after a datagram came.
pub open spec fn datagram_seen(m: RegistryModel, band: Seq<u8>, addr: u64, now: u64) -> RegistryModel {
    let key = PeerKey::Udp(addr);
    let peers = members(m.bands, band);
    if has_peer(peers, key) {
        let p = observed(peer(peers, key), now, m.limits.udp_validation_packets);
        RegistryModel { bands: with_members(m.bands, band, with_peer(peers, p)), ..m }
    } else {
        admitted(m, band, first_seen(key, now, m.limits.udp_validation_packets <= 1))
    }
}

/// The registry after a packet came over a connection.
pub open spec fn touched(m: RegistryModel, band: Seq<u8>, key: PeerKey, now: u64) -> RegistryModel {
    let peers = members(m.bands, band);
    if has_peer(peers, key) {
        let p = heard(peer(peers, key), now);
        RegistryModel { bands: with_members(m.bands, band, with_peer(peers, p)), ..m }
    } else {
        m
    }
}

/// The registry after a connection has ended: a band without peers is gone.
pub open spec fn disconnected(m: RegistryModel, band: Seq<u8>, key: PeerKey) -> RegistryModel {
    let peers = members(m.bands, band);
    if !has_peer(peers, key) {
        m
    } else if peers.len() == 1 {
        RegistryModel { bands: m.bands.remove(band_position(m.bands, band, 0)), ..m }
    } else {
        RegistryModel {
            bands: with_members(m.bands, band, peers.remove(peer_position(peers, key, 0))),
            ..m
        }
    }
}

/// The peers that packets are relayed to, but for the one that sent it.
pub open spec fn destinations(peers: Seq<PeerEntry>, from: Option<PeerKey>) -> Seq<PeerKey>
    decreases peers.len(),
{
    if peers.len() == 0 {
        Seq::empty()
    } else {
        let before = destinations(peers.drop_last(), from);
        let p = peers.last();
        if p.eligible && from != Some(p.key) {
            before.push(p.key)
        } else {
            before
        }
    }
}

/// Whether a peer stays when the registry is swept: connections always do, sources of
/// datagrams as long as they were heard from recently.
pub open spec fn stays(p: PeerEntry, now: u64, ttl: u64) -> bool {
    match p.key {
        PeerKey::Conn(_) => true,
        PeerKey::Udp(_) => now - p.last_seen <= ttl,
    }
}

/// The peers that stay when the registry is swept.
pub open spec fn staying(peers: Seq<PeerEntry>, now: u64, ttl: u64) -> Seq<PeerEntry>
    decreases peers.len(),
{
    if peers.len() == 0 {
        peers
    } else {
        let before = staying(peers.drop_last(), now, ttl);
        if stays(peers.last(), now, ttl) {
            before.push(peers.last())
        } else {
            before
        }
    }
}

/// The bands after the registry was swept: those without peers are gone.
pub open spec fn swept(bands: Seq<BandModel>, now: u64, ttl: u64) -> Seq<BandModel>
    decreases bands.len(),
{
    if bands.len() == 0 {
        bands
    } else {
        let before = swept(bands.drop_last(), now, ttl);
        let peers = staying(bands.last().peers, now, ttl);
        if peers.len() == 0 {
            before
        } else {
            before.push(BandModel { band: bands.last().band, peers })
        }
    }
}

/// How many peers go when the registry is swept.
pub open spec fn evicted(bands: Seq<BandModel>, now: u64, ttl: u64) -> int
    decreases bands.len(),
{
    if bands.len() == 0 {
        0
    } else {
        evicted(bands.drop_last(), now, ttl) + (bands.last().peers.len() - staying(
            bands.last().peers,
            now,
            ttl,
        ).len())
    }
}

/// A number of peers as it is told: one past what a number holds is told as the largest.
pub open spec fn counted(n: int) -> u64 {
    if n <= u64::MAX {
        n as u64
    } else {
        u64::MAX
    }
}

/// The number of a connection after this one. They start anew once all are used up.
pub open spec fn number_after(n: u64) -> u64 {
    if n < u64::MAX {
        (n + 1) as u64
    } else {
        0
    }
}

/// The identifiers of bands.
pub open spec fn ids(bands: Seq<BandModel>) -> Seq<Seq<u8>> {
    bands.map_values(|b: BandModel| b.band)
}

/// The keys of peers.
pub open spec fn keys(peers: Seq<PeerEntry>) -> Seq<PeerKey> {
    peers.map_values(|p: PeerEntry| p.key)
}

/// What holds of the peers of a band: each stands once, there is at least one, and no more
/// than may be.
pub open spec fn band_wf(b: BandModel, limits: Limits) -> bool {
    &&& keys(b.peers).no_duplicates()
    &&& 0 < b.peers.len() <= limits.max_peers_per_band
}

/// What holds of every registry: each band stands once, there are no more than may be, and
/// none is empty or overfull.
pub open spec fn registry_wf(m: RegistryModel) -> bool {
    &&& ids(m.bands).no_duplicates()
    &&& m.bands.len() <= m.limits.max_bands
    &&& forall|i: int| 0 <= i < m.bands.len() ==> #[trigger] band_wf(m.bands[i], m.limits)
}

proof fn lemma_band_position(bands: Seq<BandModel>, band: Seq<u8>, from: int)
    requires
        0 <= from <= bands.len(),
    ensures
        ({
            let i = band_position(bands, band, from);
            &&& from <= i <= bands.len()
            &&& i < bands.len() ==> bands[i].band == band
            &&& forall|k: int| from <= k < i ==> (#[trigger] bands[k]).band != band
        }),
    decreases bands.len() - from,
{
    if from < bands.len() && bands[from].band != band {
        lemma_band_position(bands, band, from + 1);
    }
}

proof fn lemma_peer_position(peers: Seq<PeerEntry>, key: PeerKey, from: int)
    requires
        0 <= from <= peers.len(),
    ensures
        ({
            let i = peer_position(peers, key, from);
            &&& from <= i <= peers.len()
            &&& i < peers.len() ==> peers[i].key == key
            &&& forall|k: int| from <= k < i ==> (#[trigger] peers[k]).key != key
        }),
    decreases peers.len() - from,
{
    if from < peers.len() && peers[from].key != key {
        lemma_peer_position(peers, key, from + 1);
    }
}

/// Wherever a band stands, that is where it is found.
proof fn lemma_band_at(bands: Seq<BandModel>, i: int)
    requires
        ids(bands).no_duplicates(),
        0 <= i < bands.len(),
    ensures
        band_position(bands, bands[i].band, 0) == i,
{
    let j = band_position(bands, bands[i].band, 0);
    lemma_band_position(bands, bands[i].band, 0);
    if j != i {
        assert(ids(bands)[j] == ids(bands)[i]);
    }
}

proof fn lemma_with_peer_wf(peers: Seq<PeerEntry>, p: PeerEntry)
    requires
        keys(peers).no_duplicates(),
    ensures
        keys(with_peer(peers, p)).no_duplicates(),
{
    lemma_peer_position(peers, p.key, 0);
    let after = with_peer(peers, p);
    if has_peer(peers, p.key) {
        assert(keys(after) =~= keys(peers));
    } else {
        assert forall|j: int, k: int|
            0 <= j < after.len() && 0 <= k < after.len() && j != k implies keys(after)[j] != keys(
            after,
        )[k] by {
            if j < peers.len() {
                assert(keys(peers)[j] == peers[j].key);
            }
            if k < peers.len() {
                assert(keys(peers)[k] == peers[k].key);
            }
        }
    }
}

proof fn lemma_with_members_wf(m: RegistryModel, band: Seq<u8>, peers: Seq<PeerEntry>)
    requires
        registry_wf(m),
        band_wf(BandModel { band, peers }, m.limits),
        has_band(m.bands, band) || m.bands.len() < m.limits.max_bands,
    ensures
        registry_wf(RegistryModel { bands: with_members(m.bands, band, peers), ..m }),
{
    lemma_band_position(m.bands, band, 0);
    let after = with_members(m.bands, band, peers);
    if has_band(m.bands, band) {
        assert(ids(after) =~= ids(m.bands));
    } else {
        assert forall|j: int, k: int|
            0 <= j < after.len() && 0 <= k < after.len() && j != k implies ids(after)[j] != ids(
            after,
        )[k] by {
            if j < m.bands.len() {
                assert(ids(m.bands)[j] == m.bands[j].band);
            }
            if k < m.bands.len() {
                assert(ids(m.bands)[k] == m.bands[k].band);
            }
        }
    }
    assert forall|i: int| 0 <= i < after.len() implies #[trigger] band_wf(after[i], m.limits) by {
        if i < m.bands.len() {
            assert(band_wf(m.bands[i], m.limits));
        }
    }
}

/// No registry grows past its limits, holds a band or a peer twice, or keeps an empty band,
/// whatever peer is admitted.
pub proof fn lemma_admitted_wf(m: RegistryModel, band: Seq<u8>, p: PeerEntry)
    requires
        registry_wf(m),
    ensures
        registry_wf(admitted(m, band, p)),
{
    lemma_band_position(m.bands, band, 0);
    let before = members(m.bands, band);
    if has_band(m.bands, band) {
        assert(band_wf(m.bands[band_position(m.bands, band, 0)], m.limits));
    }
    if refusal(m, band) is None {
        lemma_peer_position(before, p.key, 0);
        lemma_with_peer_wf(before, p);
        let after = with_peer(before, p);
        assert(0 < after.len() <= m.limits.max_peers_per_band);
        assert(band_wf(BandModel { band, peers: after }, m.limits));
        lemma_with_members_wf(m, band, after);
    }
}

proof fn lemma_changed_wf(m: RegistryModel, band: Seq<u8>, p: PeerEntry)
    requires
        registry_wf(m),
        has_peer(members(m.bands, band), p.key),
    ensures
        registry_wf(
            RegistryModel {
                bands: with_members(m.bands, band, with_peer(members(m.bands, band), p)),
                ..m
            },
        ),
{
    lemma_band_position(m.bands, band, 0);
    let before = members(m.bands, band);
    assert(band_wf(m.bands[band_position(m.bands, band, 0)], m.limits));
    lemma_peer_position(before, p.key, 0);
    lemma_with_peer_wf(before, p);
    lemma_with_members_wf(m, band, with_peer(before, p));
}

/// No registry keeps an empty band, or holds a band or a peer twice, after a connection has
/// ended.
pub proof fn lemma_disconnected_wf(m: RegistryModel, band: Seq<u8>, key: PeerKey)
    requires
        registry_wf(m),
    ensures
        registry_wf(disconnected(m, band, key)),
{
    lemma_band_position(m.bands, band, 0);
    let i = band_position(m.bands, band, 0);
    let before = members(m.bands, band);
    lemma_peer_position(before, key, 0);
    let j = peer_position(before, key, 0);
    if has_peer(before, key) {
        assert(band_wf(m.bands[i], m.limits));
        if before.len() == 1 {
            let after = m.bands.remove(i);
            assert(ids(after) =~= ids(m.bands).remove(i));
            assert forall|k: int| 0 <= k < after.len() implies #[trigger] band_wf(
                after[k],
                m.limits,
            ) by {
                if k < i {
                    assert(band_wf(m.bands[k], m.limits));
                } else {
                    assert(band_wf(m.bands[k + 1], m.limits));
                }
            }
        } else {
            assert(keys(before.remove(j)) =~= keys(before).remove(j));
            lemma_with_members_wf(m, band, before.remove(j));
        }
    }
}

proof fn lemma_staying(peers: Seq<PeerEntry>, now: u64, ttl: u64)
    ensures
        staying(peers, now, ttl).len() <= peers.len(),
        forall|p: PeerEntry| #[trigger]
            staying(peers, now, ttl).contains(p) <==> peers.contains(p) && stays(p, now, ttl),
        keys(peers).no_duplicates() ==> keys(staying(peers, now, ttl)).no_duplicates(),
    decreases peers.len(),
{
    if peers.len() > 0 {
        let front = peers.drop_last();
        let before = staying(front, now, ttl);
        let after = staying(peers, now, ttl);
        lemma_staying(front, now, ttl);
        assert forall|p: PeerEntry| #[trigger] after.contains(p) <==> peers.contains(p) && stays(
            p,
            now,
            ttl,
        ) by {
            if peers.contains(p) {
                let i = peers.index_of(p);
                if i < front.len() {
                    assert(front[i] == p);
                }
            }
            if front.contains(p) {
                assert(peers[front.index_of(p)] == p);
            }
            assert(peers[peers.len() - 1] == peers.last());
            if stays(peers.last(), now, ttl) {
                assert(after[after.len() - 1] == peers.last());
                if before.contains(p) {
                    assert(after[before.index_of(p)] == p);
                }
                if after.contains(p) {
                    let i = after.index_of(p);
                    if i < before.len() {
                        assert(before[i] == p);
                    }
                }
            }
        }
        if keys(peers).no_duplicates() {
            assert(keys(front) =~= keys(peers).drop_last());
            if stays(peers.last(), now, ttl) {
                assert forall|j: int| 0 <= j < before.len() implies (#[trigger] before[j]).key
                    != peers.last().key by {
                    assert(before.contains(before[j]));
                    let k = front.index_of(before[j]);
                    assert(keys(peers)[k] == front[k].key);
                    assert(keys(peers)[peers.len() - 1] == peers.last().key);
                }
                assert forall|j: int, k: int|
                    0 <= j < after.len() && 0 <= k < after.len() && j != k implies keys(after)[j]
                    != keys(after)[k] by {
                    if j < before.len() {
                        assert(keys(before)[j] == before[j].key);
                    }
                    if k < before.len() {
                        assert(keys(before)[k] == before[k].key);
                    }
                }
            }
        }
    }
}

proof fn lemma_swept_ids(bands: Seq<BandModel>, now: u64, ttl: u64, i: int)
    requires
        0 <= i < swept(bands, now, ttl).len(),
    ensures
        ids(bands).contains(swept(bands, now, ttl)[i].band),
    decreases bands.len(),
{
    if bands.len() > 0 {
        let front = bands.drop_last();
        let before = swept(front, now, ttl);
        if i < before.len() {
            lemma_swept_ids(front, now, ttl, i);
            let k = ids(front).index_of(before[i].band);
            assert(ids(bands)[k] == before[i].band);
        } else {
            assert(ids(bands)[bands.len() - 1] == bands.last().band);
        }
    }
}

/// No registry keeps an empty band, or holds a band or a peer twice, after it was swept.
pub proof fn lemma_swept_wf(m: RegistryModel, now: u64, ttl: u64)
    requires
        registry_wf(m),
    ensures
        registry_wf(RegistryModel { bands: swept(m.bands, now, ttl), ..m }),
    decreases m.bands.len(),
{
    if m.bands.len() > 0 {
        let front = m.bands.drop_last();
        let last = m.bands.last();
        let fm = RegistryModel { bands: front, ..m };
        assert(ids(front) =~= ids(m.bands).drop_last());
        assert forall|i: int| 0 <= i < front.len() implies #[trigger] band_wf(front[i], m.limits) by {
            assert(band_wf(m.bands[i], m.limits));
        }
        lemma_swept_wf(fm, now, ttl);
        let before = swept(front, now, ttl);
        let after = swept(m.bands, now, ttl);
        assert(band_wf(m.bands[m.bands.len() - 1], m.limits));
        lemma_staying(last.peers, now, ttl);
        lemma_swept_len(front, now, ttl);
        assert forall|j: int| 0 <= j < before.len() implies (#[trigger] before[j]).band
            != last.band by {
            lemma_swept_ids(front, now, ttl, j);
            let k = ids(front).index_of(before[j].band);
            assert(ids(m.bands)[k] == before[j].band);
            assert(ids(m.bands)[m.bands.len() - 1] == last.band);
        }
        assert forall|j: int, k: int|
            0 <= j < after.len() && 0 <= k < after.len() && j != k implies ids(after)[j] != ids(
            after,
        )[k] by {
            if j < before.len() {
                assert(ids(before)[j] == before[j].band);
            }
            if k < before.len() {
                assert(ids(before)[k] == before[k].band);
            }
        }
        assert forall|i: int| 0 <= i < after.len() implies #[trigger] band_wf(after[i], m.limits) by {
            if i < before.len() {
                assert(band_wf(before[i], m.limits));
            }
        }
    }
}

proof fn lemma_swept_len(bands: Seq<BandModel>, now: u64, ttl: u64)
    ensures
        swept(bands, now, ttl).len() <= bands.len(),
    decreases bands.len(),
{
    if bands.len() > 0 {
        lemma_swept_len(bands.drop_last(), now, ttl);
    }
}

/// A peer stays in its band when the registry is swept exactly if it is a connection or was
/// heard from recently: a silent listener on a connection is never dropped.
pub proof fn lemma_sweep_exact(
    m: RegistryModel,
    now: u64,
    ttl: u64,
    band: Seq<u8>,
    p: PeerEntry,
)
    requires
        registry_wf(m),
    ensures
        members(swept(m.bands, now, ttl), band).contains(p) <==> members(m.bands, band).contains(p)
            && stays(p, now, ttl),
    decreases m.bands.len(),
{
    let bands = m.bands;
    let after = swept(bands, now, ttl);
    lemma_band_position(bands, band, 0);
    lemma_band_position(after, band, 0);
    lemma_swept_wf(m, now, ttl);
    if has_band(bands, band) {
        let i = band_position(bands, band, 0);
        lemma_staying(bands[i].peers, now, ttl);
        let left = staying(bands[i].peers, now, ttl);
        if left.len() > 0 {
            lemma_swept_at(bands, now, ttl, i);
            let j = choose|j: int|
                0 <= j < after.len() && #[trigger] after[j] == (BandModel { band, peers: left });
            lemma_band_at(after, j);
        } else {
            assert(!left.contains(p));
            if has_band(after, band) {
                let j = band_position(after, band, 0);
                lemma_swept_from(bands, now, ttl, j);
                let k = choose|k: int|
                    0 <= k < bands.len() && (#[trigger] bands[k]).band == after[j].band
                        && after[j].peers == staying(bands[k].peers, now, ttl)
                        && after[j].peers.len() > 0;
                lemma_band_at(bands, k);
            }
        }
    } else if has_band(after, band) {
        let j = band_position(after, band, 0);
        lemma_swept_ids(bands, now, ttl, j);
        let k = ids(bands).index_of(band);
        assert(bands[k].band == band);
    }
}

proof fn lemma_swept_at(bands: Seq<BandModel>, now: u64, ttl: u64, i: int)
    requires
        0 <= i < bands.len(),
        staying(bands[i].peers, now, ttl).len() > 0,
    ensures
        exists|j: int|
            0 <= j < swept(bands, now, ttl).len() && #[trigger] swept(bands, now, ttl)[j] == (
            BandModel { band: bands[i].band, peers: staying(bands[i].peers, now, ttl) }),
    decreases bands.len(),
{
    let front = bands.drop_last();
    let before = swept(front, now, ttl);
    let after = swept(bands, now, ttl);
    let want = BandModel { band: bands[i].band, peers: staying(bands[i].peers, now, ttl) };
    if i < front.len() {
        lemma_swept_at(front, now, ttl, i);
        let j = choose|j: int| 0 <= j < before.len() && #[trigger] before[j] == want;
        assert(after[j] == want);
    } else {
        assert(after[after.len() - 1] == want);
    }
}

proof fn lemma_swept_from(bands: Seq<BandModel>, now: u64, ttl: u64, j: int)
    requires
        0 <= j < swept(bands, now, ttl).len(),
    ensures
        exists|k: int|
            0 <= k < bands.len() && (#[trigger] bands[k]).band == swept(bands, now, ttl)[j].band
                && swept(bands, now, ttl)[j].peers == staying(bands[k].peers, now, ttl) && swept(
                bands,
                now,
                ttl,
            )[j].peers.len() > 0,
    decreases bands.len(),
{
    if bands.len() > 0 {
        let front = bands.drop_last();
        let before = swept(front, now, ttl);
        let after = swept(bands, now, ttl);
        if j < before.len() {
            lemma_swept_from(front, now, ttl, j);
            let k = choose|k: int|
                0 <= k < front.len() && (#[trigger] front[k]).band == before[j].band
                    && before[j].peers == staying(front[k].peers, now, ttl)
                    && before[j].peers.len() > 0;
            assert(bands[k] == front[k]);
        } else {
            assert(bands[bands.len() - 1] == bands.last());
        }
    }
}

/// A packet is relayed to a peer exactly if the peer is eligible and is not the one that sent
/// it, and to none twice.
pub proof fn lemma_destinations_exact(peers: Seq<PeerEntry>, from: Option<PeerKey>, key: PeerKey)
    requires
        keys(peers).no_duplicates(),
    ensures
        destinations(peers, from).contains(key) <==> has_peer(peers, key) && peer(peers, key).eligible
            && from != Some(key),
        destinations(peers, from).no_duplicates(),
    decreases peers.len(),
{
    lemma_peer_position(peers, key, 0);
    if peers.len() > 0 {
        let front = peers.drop_last();
        let last = peers.last();
        let before = destinations(front, from);
        let after = destinations(peers, from);
        assert(keys(front) =~= keys(peers).drop_last());
        lemma_destinations_exact(front, from, key);
        lemma_destinations_exact(front, from, last.key);
        lemma_peer_position(front, key, 0);
        lemma_peer_position(front, last.key, 0);
        let i = peer_position(front, key, 0);
        if has_peer(front, key) {
            assert(peers[i].key == key);
            let j = peer_position(peers, key, 0);
            assert(keys(peers)[i] == key && keys(peers)[j] == key);
        }
        if has_peer(front, last.key) {
            let k = peer_position(front, last.key, 0);
            assert(keys(peers)[k] == last.key && keys(peers)[peers.len() - 1] == last.key);
        }
        if has_peer(peers, key) && !has_peer(front, key) {
            let j = peer_position(peers, key, 0);
            if j < front.len() {
                assert(front[j].key == key);
            }
            assert(j == peers.len() - 1);
        }
        if last.key == key {
            assert(peers[peers.len() - 1].key == key);
        }
        if last.eligible && from != Some(last.key) {
            assert(after[after.len() - 1] == last.key);
            if before.contains(key) {
                assert(after[before.index_of(key)] == key);
            }
            if after.contains(key) {
                let w = after.index_of(key);
                if w < before.len() {
                    assert(before[w] == key);
                }
            }
            assert forall|j: int, k: int|
                0 <= j < after.len() && 0 <= k < after.len() && j != k implies after[j]
                != after[k] by {
                if j < before.len() {
                    assert(before.contains(before[j]));
                }
                if k < before.len() {
                    assert(before.contains(before[k]));
                }
            }
        }
    }
}

/// What is relayed in one band does not depend on who joins another.
pub proof fn lemma_bands_isolated(
    m: RegistryModel,
    band: Seq<u8>,
    other: Seq<u8>,
    p: PeerEntry,
)
    requires
        registry_wf(m),
        band != other,
    ensures
        members(admitted(m, other, p).bands, band) == members(m.bands, band),
{
    let after = admitted(m, other, p).bands;
    lemma_band_position(m.bands, band, 0);
    lemma_band_position(m.bands, other, 0);
    lemma_band_position(after, band, 0);
    lemma_admitted_wf(m, other, p);
    if has_band(m.bands, band) {
        let i = band_position(m.bands, band, 0);
        assert(after[i] == m.bands[i]);
        lemma_band_at(after, i);
    } else if has_band(after, band) {
        let j = band_position(after, band, 0);
        assert(after[j].band == band);
        if j < m.bands.len() {
            assert(m.bands[j].band == after[j].band);
        }
    }
}

/// Whether a peer, with all that is known of it, is in a band.
pub open spec fn seated(m: RegistryModel, band: Seq<u8>, p: PeerEntry) -> bool {
    exists|i: int|
        0 <= i < m.bands.len() && (#[trigger] m.bands[i]).band == band && m.bands[i].peers.contains(p)
}

proof fn lemma_seated(m: RegistryModel, band: Seq<u8>, p: PeerEntry)
    requires
        ids(m.bands).no_duplicates(),
    ensures
        seated(m, band, p) <==> members(m.bands, band).contains(p),
{
    lemma_band_position(m.bands, band, 0);
    if seated(m, band, p) {
        let i = choose|i: int|
            0 <= i < m.bands.len() && (#[trigger] m.bands[i]).band == band
                && m.bands[i].peers.contains(p);
        lemma_band_at(m.bands, i);
    }
    if members(m.bands, band).contains(p) {
        let i = band_position(m.bands, band, 0);
        assert(m.bands[i].band == band && m.bands[i].peers.contains(p));
    }
}

/// A peer is found under its key, and under no other.
proof fn lemma_peer_found(peers: Seq<PeerEntry>, p: PeerEntry)
    requires
        keys(peers).no_duplicates(),
        peers.contains(p),
    ensures
        has_peer(peers, p.key),
        peer(peers, p.key) == p,
{
    lemma_peer_position(peers, p.key, 0);
    let i = peers.index_of(p);
    let j = peer_position(peers, p.key, 0);
    assert(peers[i].key == p.key);
    assert(keys(peers)[i] == keys(peers)[j]);
}

proof fn lemma_peer_absent(peers: Seq<PeerEntry>, key: PeerKey)
    requires
        !has_peer(peers, key),
    ensures
        forall|p: PeerEntry| #[trigger] peers.contains(p) ==> p.key != key,
{
    lemma_peer_position(peers, key, 0);
    assert forall|p: PeerEntry| #[trigger] peers.contains(p) implies p.key != key by {
        let i = peers.index_of(p);
        assert(peers[i].key == p.key);
    }
}

proof fn lemma_with_peer(peers: Seq<PeerEntry>, p: PeerEntry, q: PeerEntry)
    requires
        keys(peers).no_duplicates(),
    ensures
        with_peer(peers, p).contains(q) <==> if q.key == p.key {
            q == p
        } else {
            peers.contains(q)
        },
{
    lemma_peer_position(peers, p.key, 0);
    lemma_with_peer_wf(peers, p);
    let after = with_peer(peers, p);
    let at = if has_peer(peers, p.key) {
        peer_position(peers, p.key, 0)
    } else {
        peers.len() as int
    };
    assert(after[at] == p);
    if after.contains(q) {
        let i = after.index_of(q);
        if q.key == p.key {
            assert(keys(after)[i] == keys(after)[at]);
        } else {
            assert(peers[i] == q);
        }
    }
    if q.key != p.key && peers.contains(q) {
        let i = peers.index_of(q);
        assert(after[i] == q);
    }
}

proof fn lemma_members_replaced(
    m: RegistryModel,
    band: Seq<u8>,
    peers: Seq<PeerEntry>,
    b: Seq<u8>,
    p: PeerEntry,
)
    requires
        ids(m.bands).no_duplicates(),
    ensures
        seated(RegistryModel { bands: with_members(m.bands, band, peers), ..m }, b, p) <==> if b
            == band {
            peers.contains(p)
        } else {
            seated(m, b, p)
        },
{
    let after = RegistryModel { bands: with_members(m.bands, band, peers), ..m };
    lemma_band_position(m.bands, band, 0);
    let at = band_position(m.bands, band, 0);
    assert(after.bands[at] == (BandModel { band, peers }));
    if seated(after, b, p) {
        let i = choose|i: int|
            0 <= i < after.bands.len() && (#[trigger] after.bands[i]).band == b
                && after.bands[i].peers.contains(p);
        if i != at {
            assert(m.bands[i].band == b && m.bands[i].peers.contains(p));
            if b == band {
                assert(ids(m.bands)[i] == b);
                if at < m.bands.len() {
                    assert(ids(m.bands)[at] == b);
                }
            }
        }
    }
    if b == band && peers.contains(p) {
        assert(after.bands[at].band == b && after.bands[at].peers.contains(p));
    }
    if b != band && seated(m, b, p) {
        let i = choose|i: int|
            0 <= i < m.bands.len() && (#[trigger] m.bands[i]).band == b
                && m.bands[i].peers.contains(p);
        assert(after.bands[i].band == b && after.bands[i].peers.contains(p));
    }
}

proof fn lemma_members_wf(m: RegistryModel, band: Seq<u8>)
    requires
        registry_wf(m),
    ensures
        keys(members(m.bands, band)).no_duplicates(),
        has_band(m.bands, band) <==> members(m.bands, band).len() > 0,
{
    lemma_band_position(m.bands, band, 0);
    if has_band(m.bands, band) {
        assert(band_wf(m.bands[band_position(m.bands, band, 0)], m.limits));
    }
}

/// A peer that is disconnected from a band is in it no longer; every other peer of that band,
/// and every peer of any other, is there, as it was, exactly if it was before.
pub proof fn lemma_only_that_peer_leaves(
    m: RegistryModel,
    band: Seq<u8>,
    key: PeerKey,
    b: Seq<u8>,
    p: PeerEntry,
)
    requires
        registry_wf(m),
    ensures
        seated(disconnected(m, band, key), b, p) <==> seated(m, b, p) && !(b == band && p.key
            == key),
        disconnected(m, band, key).limits == m.limits,
        disconnected(m, band, key).next_conn == m.next_conn,
        disconnected(m, band, key).federated == m.federated,
{
    let peers = members(m.bands, band);
    let after = disconnected(m, band, key);
    lemma_members_wf(m, band);
    lemma_seated(m, band, p);
    lemma_band_position(m.bands, band, 0);
    lemma_peer_position(peers, key, 0);
    let at = band_position(m.bands, band, 0);
    if !has_peer(peers, key) {
        lemma_peer_absent(peers, key);
    } else {
        let j = peer_position(peers, key, 0);
        if peers.contains(p) && p.key == key {
            lemma_peer_found(peers, p);
        }
        if peers.len() == 1 {
            assert(j == 0);
            if peers.contains(p) {
                assert(peers[0] == p);
            }
            if seated(after, b, p) {
                let i = choose|i: int|
                    0 <= i < after.bands.len() && (#[trigger] after.bands[i]).band == b
                        && after.bands[i].peers.contains(p);
                let i0 = if i < at {
                    i
                } else {
                    i + 1
                };
                assert(m.bands[i0] == after.bands[i]);
                if b == band {
                    assert(ids(m.bands)[i0] == ids(m.bands)[at]);
                }
            }
            if seated(m, b, p) && b != band {
                let i = choose|i: int|
                    0 <= i < m.bands.len() && (#[trigger] m.bands[i]).band == b
                        && m.bands[i].peers.contains(p);
                let i1 = if i < at {
                    i
                } else {
                    i - 1
                };
                assert(after.bands[i1] == m.bands[i]);
            }
        } else {
            let left = peers.remove(j);
            lemma_members_replaced(m, band, left, b, p);
            if left.contains(p) {
                let i = left.index_of(p);
                let i0 = if i < j {
                    i
                } else {
                    i + 1
                };
                assert(peers[i0] == p);
                if p.key == key {
                    assert(keys(peers)[i0] == keys(peers)[j]);
                }
            }
            if peers.contains(p) && p.key != key {
                let i = peers.index_of(p);
                let i1 = if i < j {
                    i
                } else {
                    i - 1
                };
                assert(left[i1] == p);
            }
        }
    }
}

/// Why nobody is admitted to a band: nobody is in it and there are as many bands as may be, or
/// it has as many peers as may be.
pub proof fn lemma_refused_when_full(m: RegistryModel, band: Seq<u8>)
    requires
        registry_wf(m),
    ensures
        refusal(m, band) == Some(RegError::BandCap) <==> m.bands.len() >= m.limits.max_bands
            && forall|p: PeerEntry| !#[trigger] seated(m, band, p),
        refusal(m, band) == Some(RegError::PeerCap) ==> m.limits.max_peers_per_band == 0 || exists|
            i: int,
        |
            0 <= i < m.bands.len() && (#[trigger] m.bands[i]).band == band
                && m.bands[i].peers.len() >= m.limits.max_peers_per_band,
        refusal(m, band) is None ==> forall|i: int|
            0 <= i < m.bands.len() && (#[trigger] m.bands[i]).band == band
                ==> m.bands[i].peers.len() < m.limits.max_peers_per_band,
{
    lemma_members_wf(m, band);
    lemma_band_position(m.bands, band, 0);
    let peers = members(m.bands, band);
    if has_band(m.bands, band) {
        assert(peers.contains(peers[0]));
        lemma_seated(m, band, peers[0]);
    }
    assert forall|p: PeerEntry| #[trigger] seated(m, band, p) implies has_band(m.bands, band) by {
        lemma_seated(m, band, p);
        assert(peers[peers.index_of(p)] == p);
    }
    assert forall|i: int| 0 <= i < m.bands.len() && (#[trigger] m.bands[i]).band
        == band implies m.bands[i].peers == peers by {
        lemma_band_at(m.bands, i);
    }
}

/// A peer that is admitted is in its band, as it came; nobody else comes, goes or changes. One
/// that is refused changes nothing.
pub proof fn lemma_only_that_peer_comes(
    m: RegistryModel,
    band: Seq<u8>,
    p: PeerEntry,
    b: Seq<u8>,
    q: PeerEntry,
)
    requires
        registry_wf(m),
    ensures
        refusal(m, band) is Some ==> admitted(m, band, p) == m,
        refusal(m, band) is None ==> (seated(admitted(m, band, p), b, q) <==> if b == band && q.key
            == p.key {
            q == p
        } else {
            seated(m, b, q)
        }),
        admitted(m, band, p).limits == m.limits,
        admitted(m, band, p).next_conn == m.next_conn,
        admitted(m, band, p).federated == m.federated,
{
    let peers = members(m.bands, band);
    lemma_members_wf(m, band);
    lemma_seated(m, band, q);
    lemma_with_peer(peers, p, q);
    lemma_members_replaced(m, band, with_peer(peers, p), b, q);
}

/// A source of datagrams that is in the band stays where it is, was heard from now, has sent one
/// more packet, and is relayed to once it has sent enough. Nobody else changes.
pub proof fn lemma_datagram_counts(
    m: RegistryModel,
    band: Seq<u8>,
    addr: u64,
    now: u64,
    known: PeerEntry,
    b: Seq<u8>,
    q: PeerEntry,
)
    requires
        registry_wf(m),
        seated(m, band, known),
        known.key == PeerKey::Udp(addr),
        known.seen < u32::MAX,
    ensures
        seated(datagram_seen(m, band, addr, now), b, q) <==> if b == band && q.key
            == PeerKey::Udp(addr) {
            &&& q.last_seen == now
            &&& q.seen == known.seen + 1
            &&& q.eligible == (known.eligible || known.seen + 1 >= m.limits.udp_validation_packets)
        } else {
            seated(m, b, q)
        },
{
    let peers = members(m.bands, band);
    lemma_members_wf(m, band);
    lemma_seated(m, band, known);
    lemma_seated(m, band, q);
    lemma_peer_found(peers, known);
    let p = observed(known, now, m.limits.udp_validation_packets);
    lemma_with_peer(peers, p, q);
    lemma_members_replaced(m, band, with_peer(peers, p), b, q);
}

/// A source of datagrams that is not in the band comes to be in it with its first packet, if
/// there is room, and is relayed to at once only where one packet is enough.
pub proof fn lemma_first_datagram(
    m: RegistryModel,
    band: Seq<u8>,
    addr: u64,
    now: u64,
    b: Seq<u8>,
    q: PeerEntry,
)
    requires
        registry_wf(m),
        forall|p: PeerEntry| #[trigger] seated(m, band, p) ==> p.key != PeerKey::Udp(addr),
    ensures
        refusal(m, band) is Some ==> datagram_seen(m, band, addr, now) == m,
        refusal(m, band) is None ==> (seated(datagram_seen(m, band, addr, now), b, q) <==> if b
            == band && q.key == PeerKey::Udp(addr) {
            &&& q.last_seen == now
            &&& q.seen == 1
            &&& q.eligible == (m.limits.udp_validation_packets <= 1)
        } else {
            seated(m, b, q)
        }),
{
    let key = PeerKey::Udp(addr);
    let peers = members(m.bands, band);
    lemma_members_wf(m, band);
    lemma_peer_position(peers, key, 0);
    if has_peer(peers, key) {
        let known = peer(peers, key);
        assert(peers.contains(known));
        lemma_seated(m, band, known);
    }
    lemma_only_that_peer_comes(
        m,
        band,
        PeerEntry { key, last_seen: now, eligible: m.limits.udp_validation_packets <= 1, seen: 1 },
        b,
        q,
    );
}

/// The registry after a source has sent datagrams at the given times.
pub open spec fn datagrams_seen(
    m: RegistryModel,
    band: Seq<u8>,
    addr: u64,
    times: Seq<u64>,
) -> RegistryModel
    decreases times.len(),
{
    if times.len() == 0 {
        m
    } else {
        datagram_seen(datagrams_seen(m, band, addr, times.drop_last()), band, addr, times.last())
    }
}

/// A source of datagrams is relayed to exactly from the packet on that makes them enough, and
/// not before: however many it sends, it is in the band once.
pub proof fn lemma_relayed_to_once_validated(
    m: RegistryModel,
    band: Seq<u8>,
    addr: u64,
    times: Seq<u64>,
    q: PeerEntry,
)
    requires
        registry_wf(m),
        forall|p: PeerEntry| #[trigger] seated(m, band, p) ==> p.key != PeerKey::Udp(addr),
        refusal(m, band) is None,
        0 < times.len() <= u32::MAX,
    ensures
        registry_wf(datagrams_seen(m, band, addr, times)),
        datagrams_seen(m, band, addr, times).limits == m.limits,
        q.key == PeerKey::Udp(addr) ==> (seated(datagrams_seen(m, band, addr, times), band, q)
            <==> {
            &&& q.last_seen == times.last()
            &&& q.seen == times.len()
            &&& q.eligible == (times.len() >= m.limits.udp_validation_packets)
        }),
    decreases times.len(),
{
    let key = PeerKey::Udp(addr);
    let front = times.drop_last();
    let before = datagrams_seen(m, band, addr, front);
    if times.len() == 1 {
        assert(front =~= Seq::empty());
        lemma_first_datagram(m, band, addr, times.last(), band, q);
        lemma_admitted_wf(
            m,
            band,
            first_seen(key, times.last(), m.limits.udp_validation_packets <= 1),
        );
        lemma_peer_position(members(m.bands, band), key, 0);
        if has_peer(members(m.bands, band), key) {
            let known = peer(members(m.bands, band), key);
            assert(members(m.bands, band).contains(known));
            lemma_seated(m, band, known);
        }
    } else {
        let known = PeerEntry {
            key,
            last_seen: front.last(),
            eligible: front.len() >= m.limits.udp_validation_packets,
            seen: front.len() as u32,
        };
        lemma_relayed_to_once_validated(m, band, addr, front, known);
        lemma_datagram_counts(before, band, addr, times.last(), known, band, q);
        lemma_seated(before, band, known);
        lemma_members_wf(before, band);
        lemma_peer_found(members(before.bands, band), known);
        lemma_changed_wf(
            before,
            band,
            observed(known, times.last(), m.limits.udp_validation_packets),
        );
    }
}

/// A peer that a packet came from was heard from now, and keeps its place; nobody else changes.
pub proof fn lemma_touch_notes_the_time(
    m: RegistryModel,
    band: Seq<u8>,
    now: u64,
    known: PeerEntry,
    b: Seq<u8>,
    q: PeerEntry,
)
    requires
        registry_wf(m),
        seated(m, band, known),
        known.seen < u32::MAX,
    ensures
        seated(touched(m, band, known.key, now), b, q) <==> if b == band && q.key == known.key {
            &&& q.last_seen == now
            &&& q.seen == known.seen + 1
            &&& q.eligible == known.eligible
        } else {
            seated(m, b, q)
        },
{
    let peers = members(m.bands, band);
    lemma_members_wf(m, band);
    lemma_seated(m, band, known);
    lemma_seated(m, band, q);
    lemma_peer_found(peers, known);
    let p = heard(known, now);
    lemma_with_peer(peers, p, q);
    lemma_members_replaced(m, band, with_peer(peers, p), b, q);
}

/// A peer is found in a band exactly if it is there.
pub proof fn lemma_there(m: RegistryModel, band: Seq<u8>, key: PeerKey)
    requires
        registry_wf(m),
    ensures
        has_peer(members(m.bands, band), key) <==> exists|p: PeerEntry| #[trigger]
            seated(m, band, p) && p.key == key,
{
    let peers = members(m.bands, band);
    lemma_members_wf(m, band);
    lemma_peer_position(peers, key, 0);
    if has_peer(peers, key) {
        assert(peers.contains(peer(peers, key)));
        lemma_seated(m, band, peer(peers, key));
    }
    assert forall|p: PeerEntry| #[trigger] seated(m, band, p) && p.key == key implies has_peer(
        peers,
        key,
    ) by {
        lemma_seated(m, band, p);
        lemma_peer_found(peers, p);
    }
}

/// A packet of a peer that is not in the band changes nothing.
pub proof fn lemma_touch_by_strangers(m: RegistryModel, band: Seq<u8>, key: PeerKey, now: u64)
    requires
        registry_wf(m),
        forall|p: PeerEntry| #[trigger] seated(m, band, p) ==> p.key != key,
    ensures
        touched(m, band, key, now) == m,
{
    let peers = members(m.bands, band);
    lemma_peer_position(peers, key, 0);
    if has_peer(peers, key) {
        let known = peer(peers, key);
        assert(peers.contains(known));
        lemma_seated(m, band, known);
    }
}

/// When the registry is swept, exactly those go that are sources of datagrams and were last
/// heard from longer ago than they may be; whoever stays, stays as it was.
pub proof fn lemma_only_the_silent_go(
    m: RegistryModel,
    now: u64,
    ttl: u64,
    b: Seq<u8>,
    p: PeerEntry,
)
    requires
        registry_wf(m),
    ensures
        seated(RegistryModel { bands: swept(m.bands, now, ttl), ..m }, b, p) <==> seated(m, b, p)
            && (p.key is Conn || now <= p.last_seen + ttl),
{
    lemma_swept_wf(m, now, ttl);
    lemma_sweep_exact(m, now, ttl, b, p);
    lemma_seated(m, b, p);
    lemma_seated(RegistryModel { bands: swept(m.bands, now, ttl), ..m }, b, p);
}

/// How many peers there are.
pub open spec fn peers_in(bands: Seq<BandModel>) -> int
    decreases bands.len(),
{
    if bands.len() == 0 {
        0
    } else {
        peers_in(bands.drop_last()) + bands.last().peers.len()
    }
}

/// A sweep tells how many peers there are fewer.
pub proof fn lemma_evicted_are_counted(bands: Seq<BandModel>, now: u64, ttl: u64)
    ensures
        evicted(bands, now, ttl) == peers_in(bands) - peers_in(swept(bands, now, ttl)),
    decreases bands.len(),
{
    if bands.len() > 0 {
        let front = bands.drop_last();
        lemma_evicted_are_counted(front, now, ttl);
        let before = swept(front, now, ttl);
        let left = staying(bands.last().peers, now, ttl);
        if left.len() > 0 {
            let last = BandModel { band: bands.last().band, peers: left };
            assert(before.push(last).drop_last() =~= before);
        }
    }
}

/// A packet goes to exactly those peers of its band that are eligible and did not send it, to
/// each once, and to nobody of another band.
pub proof fn lemma_relayed_within_the_band(
    m: RegistryModel,
    band: Seq<u8>,
    from: Option<PeerKey>,
    key: PeerKey,
)
    requires
        registry_wf(m),
    ensures
        destinations(members(m.bands, band), from).contains(key) <==> from != Some(key) && exists|
            p: PeerEntry,
        | #[trigger]
            seated(m, band, p) && p.key == key && p.eligible,
        destinations(members(m.bands, band), from).no_duplicates(),
        has_band(m.bands, band) <==> exists|p: PeerEntry| #[trigger] seated(m, band, p),
{
    let peers = members(m.bands, band);
    lemma_members_wf(m, band);
    lemma_destinations_exact(peers, from, key);
    lemma_peer_position(peers, key, 0);
    if has_peer(peers, key) {
        assert(peers.contains(peer(peers, key)));
        lemma_seated(m, band, peer(peers, key));
    }
    assert forall|p: PeerEntry| #[trigger] seated(m, band, p) implies has_band(m.bands, band)
        && has_peer(peers, p.key) && peer(peers, p.key) == p by {
        lemma_seated(m, band, p);
        lemma_peer_found(peers, p);
        assert(peers[peers.index_of(p)] == p);
    }
    if has_band(m.bands, band) {
        assert(peers.contains(peers[0]));
        lemma_seated(m, band, peers[0]);
    }
}

/// The number of a connection `k` connections later.
pub open spec fn number_later(n: u64, k: nat) -> u64
    decreases k,
{
    if k == 0 {
        n
    } else {
        number_after(number_later(n, (k - 1) as nat))
    }
}

proof fn lemma_number_later(n: u64, k: nat)
    ensures
        number_later(n, k) == (n + k) % 0x1_0000_0000_0000_0000,
    decreases k,
{
    if k > 0 {
        lemma_number_later(n, (k - 1) as nat);
    }
}

/// No two connections bear the same number until all numbers are used up.
pub proof fn lemma_conn_numbers_distinct(n: u64, j: nat, k: nat)
    requires
        j < k < j + 0x1_0000_0000_0000_0000,
    ensures
        number_later(n, j) != number_later(n, k),
{
    lemma_number_later(n, j);
    lemma_number_later(n, k);
}

/// The bands that a hub relays in, and their peers.
pub struct Registry {
    bands: Vec<BandEntry>,
    limits: Limits,
    next_conn: u64,
    federated: bool,
}

spec fn entry_model(b: BandEntry) -> BandModel {
    BandModel { band: b.band@, peers: b.peers@ }
}

spec fn models(v: Seq<BandEntry>) -> Seq<BandModel> {
    v.map_values(|b: BandEntry| entry_model(b))
}

impl View for Registry {
    type V = RegistryModel;

    closed spec fn view(&self) -> RegistryModel {
        RegistryModel {
            bands: models(self.bands@),
            limits: self.limits,
            next_conn: self.next_conn,
            federated: self.federated,
        }
    }
}

fn find_peer(peers: &Vec<PeerEntry>, key: PeerKey) -> (i: usize)
    ensures
        i == peer_position(peers@, key, 0),
        i <= peers@.len(),
{
    let mut i: usize = 0;
    while i < peers.len()
        invariant
            i <= peers@.len(),
            peer_position(peers@, key, 0) == peer_position(peers@, key, i as int),
        decreases peers@.len() - i,
    {
        if peers[i].key == key {
            return i;
        }
        i = i + 1;
    }
    i
}

fn keys_for(peers: &Vec<PeerEntry>, from: Option<PeerKey>) -> (out: Vec<PeerKey>)
    ensures
        out@ == destinations(peers@, from),
{
    let mut out: Vec<PeerKey> = Vec::new();
    let mut i: usize = 0;
    assert(peers@.take(0) =~= Seq::empty());
    while i < peers.len()
        invariant
            i <= peers@.len(),
            out@ == destinations(peers@.take(i as int), from),
        decreases peers@.len() - i,
    {
        assert(peers@.take(i + 1).drop_last() =~= peers@.take(i as int));
        let p = peers[i];
        let sender = match from {
            Some(key) => key == p.key,
            None => false,
        };
        if p.eligible && !sender {
            out.push(p.key);
        }
        i = i + 1;
    }
    assert(peers@.take(i as int) =~= peers@);
    out
}

fn keep_staying(peers: &Vec<PeerEntry>, now: u64, ttl: u64) -> (out: Vec<PeerEntry>)
    ensures
        out@ == staying(peers@, now, ttl),
        out@.len() <= peers@.len(),
{
    let mut out: Vec<PeerEntry> = Vec::new();
    let mut i: usize = 0;
    assert(peers@.take(0) =~= Seq::empty());
    while i < peers.len()
        invariant
            i <= peers@.len(),
            out@.len() <= i,
            out@ == staying(peers@.take(i as int), now, ttl),
        decreases peers@.len() - i,
    {
        assert(peers@.take(i + 1).drop_last() =~= peers@.take(i as int));
        let p = peers[i];
        let stay = match p.key {
            PeerKey::Conn(_) => true,
            PeerKey::Udp(_) => now.saturating_sub(p.last_seen) <= ttl,
        };
        if stay {
            out.push(p);
        }
        i = i + 1;
    }
    assert(peers@.take(i as int) =~= peers@);
    out
}

impl Registry {
    /// What holds of every registry.
    pub open spec fn wf(&self) -> bool {
        registry_wf(self@)
    }

    /// A registry without bands.
    pub fn new(limits: Limits) -> (r: Self)
        ensures
            r.wf(),
            r@ == (RegistryModel {
                bands: Seq::empty(),
                limits,
                next_conn: 1,
                federated: false,
            }),
    {
        let r = Registry { bands: Vec::new(), limits, next_conn: 1, federated: false };
        assert(r@.bands =~= Seq::empty());
        r
    }

    /// Offers packets to other hubs too, from now on.
    pub fn set_federation(&mut self)
        requires
            old(self).wf(),
        ensures
            final(self).wf(),
            final(self)@ == (RegistryModel { federated: true, ..old(self)@ }),
    {
        self.federated = true;
    }

    /// A number for a new connection. No two have the same until all are used up.
    pub fn next_conn_id(&mut self) -> (r: u64)
        requires
            old(self).wf(),
        ensures
            final(self).wf(),
            r == old(self)@.next_conn,
            final(self)@ == (RegistryModel {
                next_conn: number_after(old(self)@.next_conn),
                ..old(self)@
            }),
    {
        let r = self.next_conn;
        self.next_conn = self.next_conn.wrapping_add(1);
        r
    }

    fn find_band(&self, band: &BandId) -> (i: usize)
        ensures
            i == band_position(self@.bands, band@, 0),
            i <= self.bands@.len(),
    {
        let mut i: usize = 0;
        while i < self.bands.len()
            invariant
                i <= self.bands@.len(),
                band_position(self@.bands, band@, 0) == band_position(
                    self@.bands,
                    band@,
                    i as int,
                ),
            decreases self.bands@.len() - i,
        {
            assert(self@.bands[i as int] == entry_model(self.bands@[i as int]));
            if same_bytes(self.bands[i].band.as_slice(), band.as_slice()) {
                return i;
            }
            i = i + 1;
        }
        i
    }

    fn enrol(&mut self, band: BandId, p: PeerEntry) -> (r: Result<(), RegError>)
        requires
            old(self).wf(),
        ensures
            final(self).wf(),
            final(self)@ == admitted(old(self)@, band@, p),
            r is Ok <==> refusal(old(self)@, band@) is None,
            r matches Err(e) ==> refusal(old(self)@, band@) == Some(e),
    {
        let ghost m = self@;
        proof {
            lemma_admitted_wf(m, band@, p);
            lemma_band_position(m.bands, band@, 0);
        }
        let i = self.find_band(&band);
        if i == self.bands.len() {
            if self.bands.len() >= self.limits.max_bands {
                return Err(RegError::BandCap);
            }
            if self.limits.max_peers_per_band == 0 {
                return Err(RegError::PeerCap);
            }
            let mut peers: Vec<PeerEntry> = Vec::new();
            peers.push(p);
            let ghost before = self.bands@;
            self.bands.push(BandEntry { band, peers });
            proof {
                let none = Seq::<PeerEntry>::empty();
                assert(with_peer(none, p) =~= seq![p]);
                assert(peers@ =~= seq![p]);
                assert(models(self.bands@) =~= models(before).push(BandModel {
                    band: band@,
                    peers: peers@,
                }));
            }
            return Ok(());
        }
        let ghost before = self.bands@;
        assert(m.bands[i as int] == entry_model(before[i as int]));
        if self.bands[i].peers.len() >= self.limits.max_peers_per_band {
            return Err(RegError::PeerCap);
        }
        self.put_peer(i, p);
        Ok(())
    }

    /// Changes or adds a peer of the band at `i`.
    fn put_peer(&mut self, i: usize, p: PeerEntry)
        requires
            i < old(self)@.bands.len(),
        ensures
            final(self)@ == (RegistryModel {
                bands: old(self)@.bands.update(
                    i as int,
                    BandModel {
                        band: old(self)@.bands[i as int].band,
                        peers: with_peer(old(self)@.bands[i as int].peers, p),
                    },
                ),
                ..old(self)@
            }),
    {
        let ghost m = self@;
        let ghost before = self.bands@;
        assert(m.bands[i as int] == entry_model(before[i as int]));
        let mut peers: Vec<PeerEntry> = Vec::new();
        core::mem::swap(&mut peers, &mut self.bands[i].peers);
        let j = find_peer(&peers, p.key);
        if j < peers.len() {
            peers.set(j, p);
        } else {
            peers.push(p);
        }
        assert(peers@ == with_peer(before[i as int].peers@, p));
        self.bands[i].peers = peers;
        proof {
            assert(models(self.bands@) =~= m.bands.update(
                i as int,
                BandModel {
                    band: m.bands[i as int].band,
                    peers: with_peer(m.bands[i as int].peers, p),
                },
            ));
        }
    }

    /// Admits a connection to a band. Packets are relayed to it at once.
    pub fn connect(&mut self, band: BandId, key: PeerKey, now: u64) -> (r: Result<(), RegError>)
        requires
            old(self).wf(),
        ensures
            final(self).wf(),
            final(self)@ == connected(old(self)@, band@, key, now),
            r is Ok <==> refusal(old(self)@, band@) is None,
            r matches Err(e) ==> refusal(old(self)@, band@) == Some(e),
    {
        self.enrol(band, PeerEntry { key, last_seen: now, eligible: true, seen: 1 })
    }

    /// Takes note of a datagram: admits its source to the band, or, if it is a peer already,
    /// counts towards its being relayed to.
    pub fn observe_udp(&mut self, band: BandId, addr: u64, now: u64) -> (r: Result<(), RegError>)
        requires
            old(self).wf(),
        ensures
            final(self).wf(),
            final(self)@ == datagram_seen(old(self)@, band@, addr, now),
            r is Ok <==> has_peer(members(old(self)@.bands, band@), PeerKey::Udp(addr)) || refusal(
                old(self)@,
                band@,
            ) is None,
            r matches Err(e) ==> refusal(old(self)@, band@) == Some(e),
    {
        let ghost m = self@;
        let key = PeerKey::Udp(addr);
        let i = self.find_band(&band);
        proof {
            lemma_band_position(m.bands, band@, 0);
            lemma_peer_position(members(m.bands, band@), key, 0);
        }
        if i < self.bands.len() {
            assert(m.bands[i as int] == entry_model(self.bands@[i as int]));
            let j = find_peer(&self.bands[i].peers, key);
            if j < self.bands[i].peers.len() {
                let p = self.bands[i].peers[j];
                let seen: u32 = if p.seen < u32::MAX {
                    p.seen + 1
                } else {
                    p.seen
                };
                let known = PeerEntry {
                    key,
                    last_seen: now,
                    eligible: p.eligible || seen >= self.limits.udp_validation_packets,
                    seen,
                };
                proof {
                    lemma_changed_wf(m, band@, known);
                }
                self.put_peer(i, known);
                return Ok(());
            }
        }
        self.enrol(
            band,
            PeerEntry {
                key,
                last_seen: now,
                eligible: self.limits.udp_validation_packets <= 1,
                seen: 1,
            },
        )
    }

    /// Takes note of a packet that came over a connection.
    pub fn touch(&mut self, band: &BandId, key: PeerKey, now: u64)
        requires
            old(self).wf(),
        ensures
            final(self).wf(),
            final(self)@ == touched(old(self)@, band@, key, now),
    {
        let ghost m = self@;
        let i = self.find_band(band);
        proof {
            lemma_band_position(m.bands, band@, 0);
            lemma_peer_position(members(m.bands, band@), key, 0);
        }
        if i < self.bands.len() {
            assert(m.bands[i as int] == entry_model(self.bands@[i as int]));
            let j = find_peer(&self.bands[i].peers, key);
            if j < self.bands[i].peers.len() {
                let p = self.bands[i].peers[j];
                let known = PeerEntry {
                    key,
                    last_seen: now,
                    eligible: p.eligible,
                    seen: if p.seen < u32::MAX {
                        p.seen + 1
                    } else {
                        p.seen
                    },
                };
                proof {
                    lemma_changed_wf(m, band@, known);
                }
                self.put_peer(i, known);
            }
        }
    }

    /// Whom a packet from a peer of the hub is relayed to: the other peers of its band, and
    /// other hubs if there are any.
    pub fn forward(&self, band: &BandId, from: PeerKey) -> (r: Relay)
        ensures
            r.peers@ == destinations(members(self@.bands, band@), Some(from)),
            r.federate == (self@.federated && has_band(self@.bands, band@)),
    {
        let i = self.find_band(band);
        if i < self.bands.len() {
            assert(self@.bands[i as int] == entry_model(self.bands@[i as int]));
            Relay {
                peers: keys_for(&self.bands[i].peers, Some(from)),
                federate: self.federated,
            }
        } else {
            Relay { peers: Vec::new(), federate: false }
        }
    }

    /// Whom a packet from another hub is relayed to: the peers of its band, and never a further
    /// hub.
    pub fn inject_from_link(&self, band: &BandId) -> (r: Relay)
        ensures
            r.peers@ == destinations(members(self@.bands, band@), None),
            !r.federate,
    {
        let i = self.find_band(band);
        if i < self.bands.len() {
            assert(self@.bands[i as int] == entry_model(self.bands@[i as int]));
            Relay { peers: keys_for(&self.bands[i].peers, None), federate: false }
        } else {
            Relay { peers: Vec::new(), federate: false }
        }
    }

    /// Takes note that a connection has ended.
    pub fn disconnect(&mut self, band: &BandId, key: PeerKey)
        requires
            old(self).wf(),
        ensures
            final(self).wf(),
            final(self)@ == disconnected(old(self)@, band@, key),
    {
        let ghost m = self@;
        proof {
            lemma_disconnected_wf(m, band@, key);
            lemma_band_position(m.bands, band@, 0);
            lemma_peer_position(members(m.bands, band@), key, 0);
        }
        let i = self.find_band(band);
        if i == self.bands.len() {
            return ;
        }
        let ghost before = self.bands@;
        assert(m.bands[i as int] == entry_model(before[i as int]));
        let j = find_peer(&self.bands[i].peers, key);
        if j == self.bands[i].peers.len() {
            return ;
        }
        if self.bands[i].peers.len() == 1 {
            self.bands.remove(i);
            assert(models(self.bands@) =~= m.bands.remove(i as int));
            return ;
        }
        let mut peers: Vec<PeerEntry> = Vec::new();
        core::mem::swap(&mut peers, &mut self.bands[i].peers);
        peers.remove(j);
        self.bands[i].peers = peers;
        proof {
            assert(models(self.bands@) =~= disconnected(m, band@, key).bands);
        }
    }

    /// Drops the sources of datagrams that were not heard from for longer than `ttl`, and the
    /// bands that are left without peers: how many peers went, and how many bands are left.
    pub fn prune(&mut self, now: u64, ttl: u64) -> (r: (u64, usize))
        requires
            old(self).wf(),
        ensures
            final(self).wf(),
            final(self)@ == (RegistryModel {
                bands: swept(old(self)@.bands, now, ttl),
                ..old(self)@
            }),
            r.0 == counted(evicted(old(self)@.bands, now, ttl)),
            r.1 == final(self)@.bands.len(),
    {
        let ghost m = self@;
        let mut list: Vec<BandEntry> = Vec::new();
        core::mem::swap(&mut list, &mut self.bands);
        let mut kept: Vec<BandEntry> = Vec::new();
        let mut gone: u64 = 0;
        let mut i: usize = 0;
        proof {
            assert(models(list@) =~= m.bands);
            assert(m.bands.take(0) =~= Seq::empty());
            assert(models(kept@) =~= swept(m.bands.take(0), now, ttl));
        }
        while i < list.len()
            invariant
                i <= list@.len(),
                models(list@) == m.bands,
                self.limits == m.limits,
                self.next_conn == m.next_conn,
                self.federated == m.federated,
                models(kept@) == swept(m.bands.take(i as int), now, ttl),
                gone == counted(evicted(m.bands.take(i as int), now, ttl)),
                evicted(m.bands.take(i as int), now, ttl) >= 0,
            decreases list@.len() - i,
        {
            let ghost kept_before = kept@;
            let peers = keep_staying(&list[i].peers, now, ttl);
            let band = list[i].band;
            proof {
                assert(m.bands[i as int] == entry_model(list@[i as int]));
                assert(m.bands.take(i + 1).drop_last() =~= m.bands.take(i as int));
            }
            gone = gone.saturating_add((list[i].peers.len() - peers.len()) as u64);
            if peers.len() > 0 {
                kept.push(BandEntry { band, peers });
                assert(models(kept@) =~= models(kept_before).push(BandModel {
                    band: band@,
                    peers: peers@,
                }));
            }
            i = i + 1;
        }
        proof {
            assert(m.bands.take(i as int) =~= m.bands);
            lemma_swept_wf(m, now, ttl);
        }
        self.bands = kept;
        (gone, self.bands.len())
    }

    /// How many bands there are.
    pub fn band_count(&self) -> (r: usize)
        ensures
            r == self@.bands.len(),
    {
        self.bands.len()
    }

    /// The bands.
    pub fn bands(&self) -> (out: Vec<BandId>)
        ensures
            out@.len() == self@.bands.len(),
            forall|i: int| 0 <= i < out@.len() ==> (#[trigger] out@[i])@ == self@.bands[i].band,
    {
        let mut out: Vec<BandId> = Vec::new();
        let mut i: usize = 0;
        while i < self.bands.len()
            invariant
                i <= self.bands@.len(),
                out@.len() == i,
                forall|k: int| 0 <= k < i ==> (#[trigger] out@[k])@ == self@.bands[k].band,
            decreases self.bands@.len() - i,
        {
            assert(self@.bands[i as int] == entry_model(self.bands@[i as int]));
            out.push(self.bands[i].band);
            i = i + 1;
        }
        out
    }

    /// The bands that other hubs are told of: those with a peer here.
    pub fn local_bands(&self) -> (out: Vec<BandId>)
        ensures
            out@.len() == self@.bands.len(),
            forall|i: int| 0 <= i < out@.len() ==> (#[trigger] out@[i])@ == self@.bands[i].band,
    {
        self.bands()
    }

    /// How many peers a band has.
    pub fn peer_count(&self, band: &BandId) -> (r: usize)
        ensures
            r == members(self@.bands, band@).len(),
    {
        let i = self.find_band(band);
        if i < self.bands.len() {
            assert(self@.bands[i as int] == entry_model(self.bands@[i as int]));
            self.bands[i].peers.len()
        } else {
            0
        }
    }

    /// Whether a peer is in a band.
    pub fn contains(&self, band: &BandId, key: PeerKey) -> (r: bool)
        ensures
            r == has_peer(members(self@.bands, band@), key),
    {
        let i = self.find_band(band);
        if i < self.bands.len() {
            assert(self@.bands[i as int] == entry_model(self.bands@[i as int]));
            let j = find_peer(&self.bands[i].peers, key);
            j < self.bands[i].peers.len()
        } else {
            false
        }
    }

    /// Whether packets are relayed to a peer, if it is in the band.
    pub fn is_eligible(&self, band: &BandId, key: PeerKey) -> (r: Option<bool>)
        ensures
            r == if has_peer(members(self@.bands, band@), key) {
                Some(peer(members(self@.bands, band@), key).eligible)
            } else {
                None
            },
    {
        let i = self.find_band(band);
        if i < self.bands.len() {
            assert(self@.bands[i as int] == entry_model(self.bands@[i as int]));
            let j = find_peer(&self.bands[i].peers, key);
            if j < self.bands[i].peers.len() {
                return Some(self.bands[i].peers[j].eligible);
            }
        }
        None
    }
}

} // verus!
