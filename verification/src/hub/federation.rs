//! Links between hubs, over which each relays what the other has peers for.
//!
//! A message on a link is its length, its type and its content. A packet that came over a link
//! goes to the peers of the hub and never over a further link.
use crate::crypto::{BandId, BAND_ID_LEN};
use crate::octets::{
    self, array16, copy_range, get_be16, get_be32, push_all, push_be16, push_be32, same_bytes,
};
use crate::text::{self, chars_of, comma_list, is_lowered};
use vstd::prelude::*;

verus! {

/// The first message of both ends: the secret of the link.
pub const T_HELLO: u8 = 0x01;

/// All the bands that the sender has peers in.
pub const T_BANDS: u8 = 0x02;

/// A packet, and the band that it is for.
pub const T_RELAY: u8 = 0x03;

/// The longest message on a link, its type included.
pub const MAX_MSG: u32 = 4_194_304;

/// How often, in milliseconds, a hub looks whether its bands have changed.
pub const BANDS_POLL: u64 = 1000;

/// How long, in milliseconds, a hub goes at most without telling its bands.
pub const BANDS_KEEPALIVE: u64 = 15000;

/// How a hub is linked to others.
#[derive(Debug)]
pub struct FedConfig {
    /// Where it accepts links.
    pub listen: Option<String>,
    /// The hubs that it links to.
    pub links: Vec<String>,
    /// The secret of all links.
    pub secret: String,
    /// Whether links that others make are active from the start.
    pub inbound_active: bool,
}

/// The setting, unless it is empty.
pub open spec fn nonempty(v: Option<String>) -> Option<Seq<char>> {
    match v {
        Some(s) => if s@.len() > 0 {
            Some(s@)
        } else {
            None
        },
        None => None,
    }
}

/// The hubs that a setting names.
pub open spec fn named_links(v: Option<String>) -> Seq<Seq<char>> {
    match v {
        Some(s) => text::list_of(s@),
        None => Seq::empty(),
    }
}

/// Whether a setting says that links are active from the start.
pub open spec fn says_active(v: Option<String>) -> bool {
    match v {
        Some(s) => {
            let low = text::lowered(s@);
            low == "active"@ || low == "1"@ || low == "on"@ || low == "yes"@
        },
        None => false,
    }
}

impl FedConfig {
    /// How a hub with the given settings is linked; `None` where it neither accepts links nor
    /// makes any.
    pub fn from_vars(
        listen: Option<String>,
        links: Option<String>,
        secret: Option<String>,
        default: Option<String>,
    ) -> (r: Option<FedConfig>)
        ensures
            r is Some <==> nonempty(listen) is Some || named_links(links).len() > 0,
            r matches Some(c) ==> {
                &&& match c.listen {
                    Some(s) => nonempty(listen) == Some(s@),
                    None => nonempty(listen) is None,
                }
                &&& text::texts(c.links@) == named_links(links)
                &&& c.secret@ == match secret {
                    Some(s) => s@,
                    None => Seq::empty(),
                }
                &&& c.inbound_active == says_active(default)
            },
    {
        let listen = match listen {
            Some(s) => if s.as_str().unicode_len() > 0 {
                Some(s)
            } else {
                None
            },
            None => None,
        };
        let links: Vec<String> = match links {
            Some(s) => comma_list(s.as_str()),
            None => {
                let none: Vec<String> = Vec::new();
                assert(text::texts(none@) =~= Seq::empty());
                none
            },
        };
        if listen.is_none() && links.len() == 0 {
            return None;
        }
        let secret = match secret {
            Some(s) => s,
            None => String::new(),
        };
        let inbound_active = match default {
            Some(s) => {
                let chars = chars_of(s.as_str());
                is_lowered(chars.as_slice(), "active") || is_lowered(chars.as_slice(), "1")
                    || is_lowered(chars.as_slice(), "on") || is_lowered(chars.as_slice(), "yes")
            },
            None => false,
        };
        Some(FedConfig { listen, links, secret, inbound_active })
    }
}

/// A set of bands.
pub struct BandSet {
    list: Vec<BandId>,
}

/// The identifiers in `v`.
pub open spec fn id_views(v: Seq<BandId>) -> Seq<Seq<u8>> {
    v.map_values(|b: BandId| b@)
}

impl View for BandSet {
    type V = Set<Seq<u8>>;

    closed spec fn view(&self) -> Set<Seq<u8>> {
        id_views(self.list@).to_set()
    }
}

impl BandSet {
    /// What holds of every set: each band stands once.
    pub closed spec fn wf(&self) -> bool {
        id_views(self.list@).no_duplicates()
    }

    /// The empty set.
    pub fn new() -> (r: Self)
        ensures
            r.wf(),
            r@ == Set::<Seq<u8>>::empty(),
    {
        let r = BandSet { list: Vec::new() };
        assert(r@ =~= Set::empty());
        r
    }

    /// Whether a band is in the set.
    pub fn contains(&self, band: &BandId) -> (r: bool)
        ensures
            r == self@.contains(band@),
    {
        let mut i: usize = 0;
        while i < self.list.len()
            invariant
                i <= self.list@.len(),
                forall|k: int| 0 <= k < i ==> #[trigger] id_views(self.list@)[k] != band@,
            decreases self.list@.len() - i,
        {
            assert(id_views(self.list@)[i as int] == self.list@[i as int]@);
            if same_bytes(self.list[i].as_slice(), band.as_slice()) {
                assert(id_views(self.list@).contains(band@));
                return true;
            }
            i = i + 1;
        }
        false
    }

    /// Puts a band into the set.
    pub fn insert(&mut self, band: BandId)
        requires
            old(self).wf(),
        ensures
            final(self).wf(),
            final(self)@ == old(self)@.insert(band@),
    {
        if self.contains(&band) {
            assert(self@ =~= self@.insert(band@));
            return ;
        }
        let ghost before = id_views(self.list@);
        self.list.push(band);
        proof {
            let after = id_views(self.list@);
            assert(after =~= before.push(band@));
            assert(!before.contains(band@));
            assert forall|x: Seq<u8>| after.to_set().contains(x) <==> before.to_set().contains(x)
                || x == band@ by {
                if before.contains(x) {
                    assert(after[before.index_of(x)] == x);
                }
                assert(after[after.len() - 1] == band@);
                if after.contains(x) {
                    let i = after.index_of(x);
                    if i < before.len() {
                        assert(before[i] == x);
                    }
                }
            }
            assert(self@ =~= old(self)@.insert(band@));
        }
    }

    /// Whether every band of this set is in the other.
    fn within(&self, other: &BandSet) -> (r: bool)
        ensures
            r == self@.subset_of(other@),
    {
        let mut i: usize = 0;
        while i < self.list.len()
            invariant
                i <= self.list@.len(),
                forall|k: int|
                    0 <= k < i ==> other@.contains(#[trigger] id_views(self.list@)[k]),
            decreases self.list@.len() - i,
        {
            assert(id_views(self.list@)[i as int] == self.list@[i as int]@);
            if !other.contains(&self.list[i]) {
                assert(self@.contains(id_views(self.list@)[i as int]));
                return false;
            }
            i = i + 1;
        }
        assert forall|x: Seq<u8>| self@.contains(x) implies other@.contains(x) by {
            let k = id_views(self.list@).index_of(x);
            assert(id_views(self.list@)[k] == x);
        }
        true
    }

    /// Whether two sets hold the same bands.
    pub fn same(&self, other: &BandSet) -> (r: bool)
        ensures
            r == (self@ == other@),
    {
        let r = self.within(other) && other.within(self);
        assert(r ==> self@ =~= other@);
        r
    }

    /// The set of the bands in a list.
    pub fn of(bands: &[BandId]) -> (r: Self)
        ensures
            r.wf(),
            r@ == id_views(bands@).to_set(),
    {
        let mut r = BandSet::new();
        let mut i: usize = 0;
        let ghost all = id_views(bands@);
        assert(all.take(0) =~= Seq::empty());
        assert(r@ =~= all.take(0).to_set());
        while i < bands.len()
            invariant
                i <= bands@.len(),
                all == id_views(bands@),
                r.wf(),
                r@ == all.take(i as int).to_set(),
            decreases bands@.len() - i,
        {
            r.insert(bands[i]);
            proof {
                let before = all.take(i as int);
                let after = all.take(i + 1);
                assert(after =~= before.push(all[i as int]));
                lemma_to_set_push(before, all[i as int]);
            }
            i = i + 1;
        }
        assert(all.take(i as int) =~= all);
        r
    }
}

proof fn lemma_to_set_push(s: Seq<Seq<u8>>, x: Seq<u8>)
    ensures
        s.push(x).to_set() == s.to_set().insert(x),
{
    let after = s.push(x);
    assert forall|y: Seq<u8>| after.to_set().contains(y) <==> s.to_set().contains(y) || y == x by {
        assert(after[after.len() - 1] == x);
        if s.contains(y) {
            assert(after[s.index_of(y)] == y);
        }
        if after.contains(y) {
            let i = after.index_of(y);
            if i < s.len() {
                assert(s[i] == y);
            }
        }
    }
    assert(after.to_set() =~= s.to_set().insert(x));
}

/// Identifiers, one after the other.
pub open spec fn joined_ids(bands: Seq<Seq<u8>>) -> Seq<u8>
    decreases bands.len(),
{
    if bands.len() == 0 {
        Seq::empty()
    } else {
        joined_ids(bands.drop_last()) + bands.last()
    }
}

/// How many of `n` bands one message tells.
pub open spec fn told_count(n: nat) -> nat {
    if n < 0xFFFF {
        n
    } else {
        0xFFFF
    }
}

/// The content of a message that tells bands: how many, and their identifiers. It holds the
/// first 65535 of them.
pub open spec fn bands_bytes(bands: Seq<Seq<u8>>) -> Seq<u8> {
    let n = told_count(bands.len());
    octets::be16(n as u16) + joined_ids(bands.take(n as int))
}

/// Encodes the bands that a hub has peers in.
pub fn encode_bands(bands: &[BandId]) -> (out: Vec<u8>)
    ensures
        out@ == bands_bytes(id_views(bands@)),
{
    let ghost all = id_views(bands@);
    let n: usize = if bands.len() < 0xFFFF {
        bands.len()
    } else {
        0xFFFF
    };
    let mut out: Vec<u8> = Vec::new();
    push_be16(&mut out, n as u16);
    let mut i: usize = 0;
    assert(all.take(0) =~= Seq::empty());
    assert(out@ =~= octets::be16(n as u16) + joined_ids(all.take(0)));
    while i < n
        invariant
            i <= n <= bands@.len(),
            all == id_views(bands@),
            out@ == octets::be16(n as u16) + joined_ids(all.take(i as int)),
        decreases n - i,
    {
        let ghost before = out@;
        push_all(&mut out, bands[i].as_slice());
        proof {
            assert(all.take(i + 1).drop_last() =~= all.take(i as int));
            assert(all.take(i + 1).last() == bands@[i as int]@);
            assert(out@ =~= octets::be16(n as u16) + joined_ids(all.take(i + 1)));
        }
        i = i + 1;
    }
    out
}

/// How many identifiers the content of a message that tells bands holds: as many as it
/// announces, or as are whole.
pub open spec fn held_count(payload: Seq<u8>) -> int {
    if payload.len() < 2 {
        0
    } else {
        let whole = (payload.len() - 2) / 16;
        if octets::be16_at(payload, 0) < whole {
            octets::be16_at(payload, 0) as int
        } else {
            whole
        }
    }
}

/// The identifiers that the content of a message holds.
pub open spec fn held_ids(payload: Seq<u8>) -> Seq<Seq<u8>> {
    Seq::new(
        held_count(payload) as nat,
        |i: int| payload.subrange(2 + 16 * i, 18 + 16 * i),
    )
}

/// Decodes the bands that another hub has peers in.
pub fn decode_bands(payload: &[u8]) -> (r: BandSet)
    ensures
        r.wf(),
        r@ == held_ids(payload@).to_set(),
{
    let mut r = BandSet::new();
    let ghost all = held_ids(payload@);
    if payload.len() < 2 {
        assert(all =~= Seq::empty());
        assert(r@ =~= all.to_set());
        return r;
    }
    let count: usize = get_be16(payload, 0) as usize;
    let whole: usize = (payload.len() - 2) / 16;
    let n: usize = if count < whole {
        count
    } else {
        whole
    };
    let mut i: usize = 0;
    assert(all.take(0) =~= Seq::empty());
    assert(r@ =~= all.take(0).to_set());
    while i < n
        invariant
            i <= n == all.len(),
            all == held_ids(payload@),
            2 + 16 * n <= payload@.len(),
            payload@.len() == payload.len(),
            r.wf(),
            r@ == all.take(i as int).to_set(),
        decreases n - i,
    {
        let band = array16(payload, 2 + 16 * i);
        r.insert(band);
        proof {
            assert(band@ == all[i as int]);
            assert(all.take(i + 1) =~= all.take(i as int).push(all[i as int]));
            lemma_to_set_push(all.take(i as int), all[i as int]);
        }
        i = i + 1;
    }
    assert(all.take(i as int) =~= all);
    r
}

proof fn lemma_joined_ids(bands: Seq<Seq<u8>>, i: int)
    requires
        forall|k: int| 0 <= k < bands.len() ==> (#[trigger] bands[k]).len() == 16,
        0 <= i <= bands.len(),
    ensures
        joined_ids(bands).len() == 16 * bands.len(),
        i < bands.len() ==> joined_ids(bands).subrange(16 * i, 16 * i + 16) == bands[i],
    decreases bands.len(),
{
    if bands.len() > 0 {
        let front = bands.drop_last();
        assert forall|k: int| 0 <= k < front.len() implies (#[trigger] front[k]).len() == 16 by {
            assert(bands[k].len() == 16);
        }
        assert(bands[bands.len() - 1].len() == 16);
        if i < front.len() {
            lemma_joined_ids(front, i);
            assert(joined_ids(bands).subrange(16 * i, 16 * i + 16) =~= joined_ids(front).subrange(
                16 * i,
                16 * i + 16,
            ));
        } else {
            lemma_joined_ids(front, front.len() as int);
            if i < bands.len() {
                assert(joined_ids(bands).subrange(16 * i, 16 * i + 16) =~= bands[i]);
            }
        }
    }
}

/// The bands that a hub tells are the bands that the other hears, up to as many as one message
/// holds.
pub proof fn lemma_bands_round_trip(bands: Seq<Seq<u8>>)
    requires
        forall|k: int| 0 <= k < bands.len() ==> (#[trigger] bands[k]).len() == BAND_ID_LEN,
    ensures
        held_ids(bands_bytes(bands)) == bands.take(told_count(bands.len()) as int),
{
    let n = told_count(bands.len());
    let told = bands.take(n as int);
    let payload = bands_bytes(bands);
    assert forall|k: int| 0 <= k < told.len() implies (#[trigger] told[k]).len() == 16 by {
        assert(bands[k].len() == 16);
    }
    lemma_joined_ids(told, n as int);
    assert(payload.subrange(0, 2) =~= octets::be16(n as u16));
    octets::lemma_be16_at(payload, 0, n as u16);
    assert(held_count(payload) == n);
    assert forall|i: int| 0 <= i < n implies #[trigger] held_ids(payload)[i] == told[i] by {
        lemma_joined_ids(told, i);
        assert(payload.subrange(2 + 16 * i, 18 + 16 * i) =~= joined_ids(told).subrange(
            16 * i,
            16 * i + 16,
        ));
    }
    assert(held_ids(payload) =~= told);
}

/// Of a message that tells bands as many are heard as it announces, or as are there whole, where
/// these are fewer; what follows is passed over.
pub proof fn lemma_bands_heard_in_part(count: u16, bands: Seq<Seq<u8>>, tail: Seq<u8>)
    requires
        forall|k: int| 0 <= k < bands.len() ==> (#[trigger] bands[k]).len() == 16,
        tail.len() < 16,
    ensures
        held_ids(octets::be16(count) + joined_ids(bands) + tail) == bands.take(
            if count < bands.len() {
                count as int
            } else {
                bands.len() as int
            },
        ),
        tail.len() < 2 ==> held_ids(tail).len() == 0,
{
    let payload = octets::be16(count) + joined_ids(bands) + tail;
    let n = if count < bands.len() {
        count as int
    } else {
        bands.len() as int
    };
    lemma_joined_ids(bands, bands.len() as int);
    assert(payload.subrange(0, 2) =~= octets::be16(count));
    octets::lemma_be16_at(payload, 0, count);
    assert(held_count(payload) == n);
    assert forall|i: int| 0 <= i < n implies #[trigger] held_ids(payload)[i] == bands[i] by {
        lemma_joined_ids(bands, i);
        assert(payload.subrange(2 + 16 * i, 18 + 16 * i) =~= joined_ids(bands).subrange(
            16 * i,
            16 * i + 16,
        ));
    }
    assert(held_ids(payload) =~= bands.take(n));
}

/// A message on a link: its length, its type, its content.
pub open spec fn message_bytes(t: u8, payload: Seq<u8>) -> Seq<u8> {
    octets::be32((1 + payload.len()) as u32) + seq![t] + payload
}

/// Frames a message for a link; `None` where it is too long for one.
pub fn frame_message(t: u8, payload: &[u8]) -> (r: Option<Vec<u8>>)
    ensures
        r is Some <==> 1 + payload@.len() <= MAX_MSG,
        r matches Some(v) ==> v@ == message_bytes(t, payload@),
{
    if payload.len() as u64 >= MAX_MSG as u64 {
        return None;
    }
    let mut v: Vec<u8> = Vec::new();
    push_be32(&mut v, (1 + payload.len()) as u32);
    v.push(t);
    push_all(&mut v, payload);
    assert(v@ =~= message_bytes(t, payload@));
    Some(v)
}

/// How many bytes follow the four that announce a message; `None` where no message is so long
/// or so short.
pub fn message_len(header: [u8; 4]) -> (r: Option<u32>)
    ensures
        r == ({
            let len = octets::be32_at(header@, 0);
            if 0 < len <= MAX_MSG {
                Some(len)
            } else {
                None
            }
        }),
{
    let len = get_be32(header.as_slice(), 0);
    if len == 0 || len > MAX_MSG {
        None
    } else {
        Some(len)
    }
}

/// The content of a message that relays a packet: the band, the packet's length, the packet.
/// The length is written modulo 2^32.
pub open spec fn relay_bytes(band: Seq<u8>, frame: Seq<u8>) -> Seq<u8> {
    band + octets::be32((frame.len() % 0x1_0000_0000) as u32) + frame
}

/// Builds the content of a message that relays a packet.
pub fn relay_payload(band: &BandId, frame: &[u8]) -> (v: Vec<u8>)
    ensures
        v@ == relay_bytes(band@, frame@),
{
    let mut v: Vec<u8> = Vec::new();
    push_all(&mut v, band.as_slice());
    push_be32(&mut v, (frame.len() as u64 % 0x1_0000_0000) as u32);
    push_all(&mut v, frame);
    assert(v@ =~= relay_bytes(band@, frame@));
    v
}

/// Whether the content of a message that relays a packet holds all of it.
pub open spec fn is_relay(payload: Seq<u8>) -> bool {
    payload.len() >= 20 && payload.len() >= 20 + octets::be32_at(payload, 16)
}

/// The packet in the content of a message, whatever follows it.
pub open spec fn relayed_frame(payload: Seq<u8>) -> Seq<u8> {
    payload.subrange(20, 20 + octets::be32_at(payload, 16))
}

/// The packet that one hub relays is the packet that the other gets, for the same band.
pub proof fn lemma_relay_round_trip(band: Seq<u8>, frame: Seq<u8>)
    requires
        band.len() == BAND_ID_LEN,
        frame.len() <= u32::MAX,
    ensures
        is_relay(relay_bytes(band, frame)),
        relay_bytes(band, frame).take(16) == band,
        relayed_frame(relay_bytes(band, frame)) == frame,
{
    let p = relay_bytes(band, frame);
    assert(p.subrange(16, 20) =~= octets::be32(frame.len() as u32));
    octets::lemma_be32_at(p, 16, frame.len() as u32);
    assert(p.take(16) =~= band);
    assert(relayed_frame(p) =~= frame);
}

/// What to do about a message that came over a link.
#[derive(Debug)]
pub enum LinkAction {
    /// Nothing.
    Nothing,
    /// Give the packet to the peers of the band.
    Inject(BandId, Vec<u8>),
}

/// One end of a link that both have authenticated.
pub struct LinkCore {
    active: bool,
    /// The bands that the other hub has peers in.
    bands: BandSet,
    /// The bands that it was last told of.
    told: Option<BandSet>,
    since_told: u64,
}

/// What one end of a link knows.
#[verifier::ext_equal]
pub struct LinkModel {
    pub active: bool,
    pub bands: Set<Seq<u8>>,
    pub told: Option<Set<Seq<u8>>>,
    pub since_told: u64,
}

impl View for LinkCore {
    type V = LinkModel;

    closed spec fn view(&self) -> LinkModel {
        LinkModel {
            active: self.active,
            bands: self.bands@,
            told: match self.told {
                Some(s) => Some(s@),
                None => None,
            },
            since_told: self.since_told,
        }
    }
}

/// Whether the first message of the other end shows that it holds the secret.
pub fn hello_accepted(secret: &str, t: u8, payload: &[u8]) -> (r: bool)
    ensures
        r == (t == T_HELLO && payload@ == vstd::utf8::encode_utf8(secret@)),
{
    t == T_HELLO && same_bytes(payload, secret.as_bytes())
}

/// The time since the other hub was told, at the next look.
pub open spec fn next_since(m: LinkModel) -> int {
    m.since_told + BANDS_POLL
}

/// Whether the other hub is to be told the bands: they have changed since it was, or it was too
/// long ago.
pub open spec fn tell_due(m: LinkModel, local: Set<Seq<u8>>) -> bool {
    m.told != Some(local) || next_since(m) >= BANDS_KEEPALIVE
}

/// What a message that came over a link leaves, and the packet that it brings, with its band.
pub open spec fn heard(m: LinkModel, t: u8, payload: Seq<u8>) -> (
    LinkModel,
    Option<(Seq<u8>, Seq<u8>)>,
) {
    (
        LinkModel {
            bands: if t == T_BANDS {
                held_ids(payload).to_set()
            } else {
                m.bands
            },
            ..m
        },
        if t == T_RELAY && m.active && is_relay(payload) {
            Some((payload.take(16), relayed_frame(payload)))
        } else {
            None
        },
    )
}

/// One end of a link after it has looked at the bands of its hub.
pub open spec fn looked(m: LinkModel, local: Set<Seq<u8>>) -> LinkModel {
    if tell_due(m, local) {
        LinkModel { told: Some(local), since_told: 0, ..m }
    } else {
        LinkModel { since_told: next_since(m) as u64, ..m }
    }
}

/// What one hub tells of its bands, the other goes by: once it has heard it, it relays packets over
/// the link for exactly the bands that were told, if the link is active. Packets that it was
/// relayed before have no bearing on that, and neither have bands that were told earlier.
pub proof fn lemma_told_is_relayed(m: LinkModel, bands: Seq<Seq<u8>>, band: Seq<u8>)
    requires
        forall|k: int| 0 <= k < bands.len() ==> (#[trigger] bands[k]).len() == 16,
        bands.len() <= 0xFFFF,
    ensures
        ({
            let (after, packet) = heard(m, T_BANDS, bands_bytes(bands));
            &&& after.bands.contains(band) <==> bands.contains(band)
            &&& after == (LinkModel { bands: after.bands, ..m })
            &&& packet is None
        }),
{
    lemma_bands_round_trip(bands);
    assert(bands.take(bands.len() as int) =~= bands);
}

/// A packet that one hub relays comes out of the other's end of the link as it went in, for the
/// same band, if that end is active; a link that is not lets none in. Nothing else lets a packet
/// in, and a packet changes nothing that the link knows.
pub proof fn lemma_link_lets_in(m: LinkModel, band: Seq<u8>, frame: Seq<u8>, t: u8, payload: Seq<u8>)
    requires
        band.len() == 16,
        frame.len() <= u32::MAX,
    ensures
        m.active ==> heard(m, T_RELAY, relay_bytes(band, frame)).1 == Some((band, frame)),
        !m.active || t != T_RELAY ==> heard(m, t, payload).1 is None,
        t != T_BANDS ==> heard(m, t, payload).0 == m,
{
    lemma_relay_round_trip(band, frame);
}

/// When a hub tells its bands: at its first look, when they have changed since it told them, and
/// when fifteen seconds have gone by with this look. Having told, it starts to wait anew.
pub proof fn lemma_bands_told_in_time(m: LinkModel, local: Set<Seq<u8>>)
    requires
        m.since_told + 1000 <= u64::MAX,
    ensures
        tell_due(m, local) <==> m.told is None || m.told->0 != local || m.since_told + 1000 >= 15000,
        tell_due(m, local) ==> looked(m, local).told == Some(local) && looked(m, local).since_told
            == 0,
        !tell_due(m, local) ==> looked(m, local).told == m.told && looked(m, local).since_told
            == m.since_told + 1000,
        looked(m, local).bands == m.bands,
        looked(m, local).active == m.active,
{
}

/// One end of a link after it has looked several times, with the bands unchanged.
pub open spec fn looked_often(m: LinkModel, local: Set<Seq<u8>>, n: nat) -> LinkModel
    decreases n,
{
    if n == 0 {
        m
    } else {
        looked(looked_often(m, local, (n - 1) as nat), local)
    }
}

/// Bands that do not change are told again every fifteen looks, and not in between.
pub proof fn lemma_bands_repeated(m: LinkModel, local: Set<Seq<u8>>, n: nat)
    requires
        m.told == Some(local),
        m.since_told == 0,
        n < 15,
    ensures
        tell_due(looked_often(m, local, n), local) <==> n == 14,
        looked_often(m, local, n) == (LinkModel { since_told: (n * 1000) as u64, ..m }),
    decreases n,
{
    if n > 0 {
        lemma_bands_repeated(m, local, (n - 1) as nat);
    }
}

impl LinkCore {
    /// What holds of every end of a link.
    pub closed spec fn wf(&self) -> bool {
        &&& self.bands.wf()
        &&& self.since_told < BANDS_KEEPALIVE
    }

    /// A link over which nothing has come yet.
    pub fn new(active: bool) -> (r: Self)
        ensures
            r.wf(),
            r@ == (LinkModel { active, bands: Set::empty(), told: None, since_told: 0 }),
    {
        LinkCore { active, bands: BandSet::new(), told: None, since_told: 0 }
    }

    /// Whether a packet of the band is relayed over the link: the link is active, and the other
    /// hub has peers in the band.
    pub fn wants(&self, band: &BandId) -> (r: bool)
        ensures
            r == (self@.active && self@.bands.contains(band@)),
    {
        self.active && self.bands.contains(band)
    }

    /// Takes a message that came over the link. A link that is not active lets no packet in.
    pub fn on_message(&mut self, t: u8, payload: &[u8]) -> (r: LinkAction)
        requires
            old(self).wf(),
        ensures
            final(self).wf(),
            final(self)@ == (LinkModel {
                bands: if t == T_BANDS {
                    held_ids(payload@).to_set()
                } else {
                    old(self)@.bands
                },
                ..old(self)@
            }),
            r is Inject <==> t == T_RELAY && old(self)@.active && is_relay(payload@),
            r matches LinkAction::Inject(band, frame) ==> band@ == payload@.take(16) && frame@
                == relayed_frame(payload@),
            final(self)@ == heard(old(self)@, t, payload@).0,
            match r {
                LinkAction::Inject(band, frame) => heard(old(self)@, t, payload@).1 == Some(
                    (band@, frame@),
                ),
                LinkAction::Nothing => heard(old(self)@, t, payload@).1 is None,
            },
    {
        if t == T_BANDS {
            self.bands = decode_bands(payload);
            return LinkAction::Nothing;
        }
        if t != T_RELAY || payload.len() < 20 || !self.active {
            return LinkAction::Nothing;
        }
        let len: u32 = get_be32(payload, 16);
        if (payload.len() as u64) < 20 + len as u64 {
            return LinkAction::Nothing;
        }
        let band = array16(payload, 0);
        assert(band@ =~= payload@.take(16));
        LinkAction::Inject(band, copy_range(payload, 20, 20 + len as usize))
    }

    /// Looks at the bands of this hub, as it does every `BANDS_POLL`: what to tell the other
    /// hub, if anything.
    pub fn on_tick(&mut self, local: &[BandId]) -> (r: Option<Vec<u8>>)
        requires
            old(self).wf(),
        ensures
            final(self).wf(),
            r is Some <==> tell_due(old(self)@, id_views(local@).to_set()),
            r matches Some(v) ==> v@ == bands_bytes(id_views(local@)),
            final(self)@ == if tell_due(old(self)@, id_views(local@).to_set()) {
                LinkModel { told: Some(id_views(local@).to_set()), since_told: 0, ..old(self)@ }
            } else {
                LinkModel { since_told: next_since(old(self)@) as u64, ..old(self)@ }
            },
            final(self)@ == looked(old(self)@, id_views(local@).to_set()),
    {
        let set = BandSet::of(local);
        self.since_told = self.since_told + BANDS_POLL;
        let changed = match &self.told {
            Some(last) => !last.same(&set),
            None => true,
        };
        if changed || self.since_told >= BANDS_KEEPALIVE {
            self.told = Some(set);
            self.since_told = 0;
            Some(encode_bands(local))
        } else {
            None
        }
    }
}

/// A message is read back from a link: its four leading bytes tell how many follow, of which the
/// first is its type and the others its content.
pub proof fn lemma_message_read_back(t: u8, payload: Seq<u8>, rest: Seq<u8>)
    requires
        1 + payload.len() <= u32::MAX,
    ensures
        ({
            let s = message_bytes(t, payload) + rest;
            &&& octets::be32_at(s, 0) == 1 + payload.len()
            &&& s[4] == t
            &&& s.subrange(5, 5 + payload.len() as int) == payload
            &&& s.skip(5 + payload.len() as int) == rest
        }),
{
    let s = message_bytes(t, payload) + rest;
    assert(s.subrange(0, 4) =~= octets::be32((1 + payload.len()) as u32));
    octets::lemma_be32_at(s, 0, (1 + payload.len()) as u32);
    assert(s.subrange(5, 5 + payload.len() as int) =~= payload);
    assert(s.skip(5 + payload.len() as int) =~= rest);
}

/// Where things stand in what relays a packet: the band, the packet's length, its most significant
/// byte first, and the packet.
pub proof fn lemma_relay_layout(band: Seq<u8>, frame: Seq<u8>)
    requires
        band.len() == 16,
        frame.len() <= u32::MAX,
    ensures
        relay_bytes(band, frame).len() == 20 + frame.len(),
        relay_bytes(band, frame).take(16) == band,
        relay_bytes(band, frame).subrange(16, 20) == octets::be32(frame.len() as u32),
        relay_bytes(band, frame).skip(20) == frame,
{
    let p = relay_bytes(band, frame);
    assert(p.take(16) =~= band);
    assert(p.subrange(16, 20) =~= octets::be32(frame.len() as u32));
    assert(p.skip(20) =~= frame);
}

/// Whether links that others make are active from the start: if the setting says so in one of four
/// ways, in letters of either case; and what links are named: those of the list, where there is one.
pub proof fn lemma_link_settings(v: Option<String>)
    ensures
        v is None ==> !says_active(v) && named_links(v).len() == 0 && nonempty(v) is None,
        v matches Some(s) ==> (says_active(v) <==> text::lowered(s@) == "active"@ || text::lowered(
            s@,
        ) == "1"@ || text::lowered(s@) == "on"@ || text::lowered(s@) == "yes"@) && named_links(v)
            == text::list_of(s@) && (s@.len() == 0 <==> nonempty(v) is None) && (s@.len() > 0
            ==> nonempty(v) == Some(s@)),
{
}

} // verus!
