//! Announcements on the local network, and the peers that were seen there.
use crate::framing::PROTOCOL_VERSION;
use crate::octets::{self, copy_range, get_be16, push_all, push_be16};
use crate::text::chars_of;
use vstd::prelude::*;

verus! {

/// The port that announcements are sent to.
pub const DISCOVERY_PORT: u16 = 9998;

/// How long, in milliseconds, a peer waits between announcements.
pub const BROADCAST_INTERVAL: u64 = 5000;

/// The most bytes that a name takes up in an announcement.
pub const MAX_NAME_LEN: usize = 255;

/// How many peers are remembered as seen.
pub const MAX_SEEN: usize = 4096;

/// The text of bytes, by `String::from_utf8`: there is one exactly if they are UTF-8, and it
/// is the one that they encode.
#[verifier::external_body]
pub(crate) fn utf8_text(bytes: Vec<u8>) -> (r: Option<String>)
    ensures
        r is Some <==> vstd::utf8::valid_utf8(bytes@),
        r matches Some(s) ==> s@ == vstd::utf8::decode_utf8(bytes@),
{
    String::from_utf8(bytes).ok()
}

/// What every announcement starts with.
pub open spec fn magic() -> Seq<u8> {
    seq![0x54u8, 0x45, 0x4c, 0x45]
}

/// The front of a host's name that fits an announcement: as many whole characters as fit.
pub open spec fn announced_name(hostname: Seq<char>) -> Seq<char>
    decreases hostname.len(),
{
    if hostname.len() == 0 || vstd::utf8::encode_utf8(hostname).len() <= MAX_NAME_LEN {
        hostname
    } else {
        announced_name(hostname.drop_last())
    }
}

/// An announcement: the magic, the version, the length of the name, the name in UTF-8, the
/// port.
pub open spec fn announce_bytes(hostname: Seq<char>, port: u16) -> Seq<u8> {
    let name = vstd::utf8::encode_utf8(announced_name(hostname));
    magic() + seq![PROTOCOL_VERSION, name.len() as u8] + name + octets::be16(port)
}

/// Whether `data` is an announcement of this version, with or without more behind it.
pub open spec fn is_announce(data: Seq<u8>) -> bool {
    &&& data.len() >= 8
    &&& data.take(4) == magic()
    &&& data[4] == PROTOCOL_VERSION
    &&& data.len() >= 8 + data[5]
    &&& vstd::utf8::valid_utf8(data.subrange(6, 6 + data[5]))
}

/// The name in an announcement.
pub open spec fn name_in(data: Seq<u8>) -> Seq<char> {
    vstd::utf8::decode_utf8(data.subrange(6, 6 + data[5]))
}

/// The port in an announcement.
pub open spec fn port_in(data: Seq<u8>) -> u16 {
    octets::be16_at(data, 6 + data[5])
}

proof fn lemma_encode_add(a: Seq<char>, b: Seq<char>)
    ensures
        vstd::utf8::encode_utf8(a + b) == vstd::utf8::encode_utf8(a) + vstd::utf8::encode_utf8(b),
    decreases a.len(),
{
    if a.len() == 0 {
        assert(a + b =~= b);
        assert(vstd::utf8::encode_utf8(a) =~= Seq::empty());
    } else {
        assert((a + b).drop_first() =~= a.drop_first() + b);
        lemma_encode_add(a.drop_first(), b);
    }
    assert(vstd::utf8::encode_utf8(a + b) =~= vstd::utf8::encode_utf8(a) + vstd::utf8::encode_utf8(b));
}

/// The bytes of the front of a text are the front of its bytes.
proof fn lemma_encode_front(name: Seq<char>, k: int)
    requires
        0 <= k <= name.len(),
    ensures
        ({
            let all = vstd::utf8::encode_utf8(name);
            let front = vstd::utf8::encode_utf8(name.take(k));
            front.len() <= all.len() && all.take(front.len() as int) == front
        }),
{
    lemma_encode_add(name.take(k), name.skip(k));
    assert(name.take(k) + name.skip(k) =~= name);
    let front = vstd::utf8::encode_utf8(name.take(k));
    assert(vstd::utf8::encode_utf8(name).take(front.len() as int) =~= front);
}

/// The announced name is the front of the name that fits and cannot be longer.
proof fn lemma_announced_is(name: Seq<char>, k: int)
    requires
        0 <= k <= name.len(),
        vstd::utf8::encode_utf8(name.take(k)).len() <= MAX_NAME_LEN,
        k < name.len() ==> vstd::utf8::encode_utf8(name.take(k + 1)).len() > MAX_NAME_LEN,
    ensures
        announced_name(name) == name.take(k),
    decreases name.len(),
{
    if k == name.len() {
        assert(name.take(k) =~= name);
    } else {
        lemma_encode_front(name, k + 1);
        let less = name.drop_last();
        assert(less.take(k) =~= name.take(k));
        if k < less.len() {
            assert(less.take(k + 1) =~= name.take(k + 1));
        }
        lemma_announced_is(less, k);
    }
}

/// What is announced fits, is the front of the name, and is all of it where that fits.
pub proof fn lemma_announced_fits(hostname: Seq<char>)
    ensures
        vstd::utf8::encode_utf8(announced_name(hostname)).len() <= MAX_NAME_LEN,
        announced_name(hostname).is_prefix_of(hostname),
        vstd::utf8::encode_utf8(hostname).len() <= MAX_NAME_LEN ==> announced_name(hostname)
            == hostname,
    decreases hostname.len(),
{
    if hostname.len() == 0 {
        assert(vstd::utf8::encode_utf8(hostname) =~= Seq::empty());
    } else if vstd::utf8::encode_utf8(hostname).len() > MAX_NAME_LEN {
        lemma_announced_fits(hostname.drop_last());
    }
}

/// Parsing an announcement gives back the port and as much of the name as was announced,
/// whatever follows it.
pub proof fn lemma_announce_round_trip(hostname: Seq<char>, port: u16, rest: Seq<u8>)
    ensures
        ({
            let data = announce_bytes(hostname, port) + rest;
            &&& is_announce(data)
            &&& name_in(data) == announced_name(hostname)
            &&& port_in(data) == port
        }),
{
    let text = announced_name(hostname);
    let name = vstd::utf8::encode_utf8(text);
    let data = announce_bytes(hostname, port) + rest;
    lemma_announced_fits(hostname);
    vstd::utf8::encode_utf8_valid_utf8(text);
    vstd::utf8::encode_utf8_decode_utf8(text);
    assert(data.take(4) =~= magic());
    assert(data[5] == name.len());
    assert(data.subrange(6, 6 + data[5]) =~= name);
    assert(data.subrange(6 + data[5], 8 + data[5]) =~= octets::be16(port));
    octets::lemma_be16_at(data, 6 + data[5], port);
}

/// How many bytes a character takes up in UTF-8.
fn width(c: char) -> (r: usize)
    ensures
        r == vstd::utf8::encode_utf8(seq![c]).len(),
        1 <= r <= 4,
{
    proof {
        vstd::utf8::char_is_scalar(c);
        assert(seq![c].drop_first() =~= Seq::empty());
        assert(vstd::utf8::encode_utf8(seq![c].drop_first()) =~= Seq::empty());
    }
    let v: u32 = c as u32;
    if v < 0x80 {
        1
    } else if v < 0x800 {
        2
    } else if v < 0x10000 {
        3
    } else {
        4
    }
}

/// How many bytes of a name are announced.
fn announced_len(hostname: &str) -> (len: usize)
    ensures
        len <= MAX_NAME_LEN,
        len <= vstd::utf8::encode_utf8(hostname@).len(),
        vstd::utf8::encode_utf8(hostname@).take(len as int) == vstd::utf8::encode_utf8(
            announced_name(hostname@),
        ),
{
    let chars = chars_of(hostname);
    let ghost name = hostname@;
    let mut len: usize = 0;
    let mut k: usize = 0;
    assert(vstd::utf8::encode_utf8(name.take(0)) =~= Seq::empty());
    while k < chars.len()
        invariant
            chars@ == name,
            k <= chars@.len(),
            len == vstd::utf8::encode_utf8(name.take(k as int)).len(),
            len <= MAX_NAME_LEN,
        ensures
            k <= name.len(),
            len == vstd::utf8::encode_utf8(name.take(k as int)).len(),
            len <= MAX_NAME_LEN,
            k < name.len() ==> vstd::utf8::encode_utf8(name.take(k + 1)).len() > MAX_NAME_LEN,
        decreases chars@.len() - k,
    {
        let w = width(chars[k]);
        proof {
            assert(name.take(k + 1) =~= name.take(k as int) + seq![name[k as int]]);
            lemma_encode_add(name.take(k as int), seq![name[k as int]]);
        }
        if len + w > MAX_NAME_LEN {
            break ;
        }
        len = len + w;
        k = k + 1;
    }
    proof {
        lemma_announced_is(name, k as int);
        lemma_encode_front(name, k as int);
    }
    len
}

/// Makes an announcement.
pub fn pack_announce(hostname: &str, port: u16) -> (out: Vec<u8>)
    ensures
        out@ == announce_bytes(hostname@, port),
{
    let len = announced_len(hostname);
    let all = hostname.as_bytes();
    let name = copy_range(all, 0, len);
    assert(name@ =~= all@.take(len as int));
    let mut out: Vec<u8> = Vec::new();
    out.push(0x54);
    out.push(0x45);
    out.push(0x4c);
    out.push(0x45);
    out.push(PROTOCOL_VERSION);
    out.push(len as u8);
    push_all(&mut out, name.as_slice());
    push_be16(&mut out, port);
    assert(out@ =~= announce_bytes(hostname@, port));
    out
}

/// Parses an announcement: the name and the port. `None` for anything else.
pub fn parse_announce(data: &[u8]) -> (r: Option<(String, u16)>)
    ensures
        r is Some <==> is_announce(data@),
        r matches Some((hostname, port)) ==> hostname@ == name_in(data@) && port == port_in(data@),
{
    if data.len() < 8 {
        return None;
    }
    let found = data[0] == 0x54 && data[1] == 0x45 && data[2] == 0x4c && data[3] == 0x45;
    proof {
        let front = data@.take(4);
        assert(front[0] == data@[0] && front[1] == data@[1] && front[2] == data@[2] && front[3]
            == data@[3]);
        if found {
            assert(front =~= magic());
        }
    }
    if !found || data[4] != PROTOCOL_VERSION {
        return None;
    }
    let end: usize = 6 + data[5] as usize;
    if data.len() < end + 2 {
        return None;
    }
    match utf8_text(copy_range(data, 6, end)) {
        Some(hostname) => Some((hostname, get_be16(data, end))),
        None => None,
    }
}

/// A peer seen on the local network.
#[derive(Debug, Clone, PartialEq, Eq, Hash)]
pub struct DiscoveredPeer {
    pub hostname: String,
    /// Its address, as text.
    pub ip: String,
    pub port: u16,
}

impl View for DiscoveredPeer {
    type V = (Seq<char>, Seq<char>, u16);

    open spec fn view(&self) -> (Seq<char>, Seq<char>, u16) {
        (self.hostname@, self.ip@, self.port)
    }
}

/// The peers in `v`.
pub open spec fn peers_of(v: Seq<DiscoveredPeer>) -> Seq<(Seq<char>, Seq<char>, u16)> {
    v.map_values(|p: DiscoveredPeer| p@)
}

/// The peers that are remembered, oldest first, after one more was seen.
pub open spec fn remembered(
    seen: Seq<(Seq<char>, Seq<char>, u16)>,
    peer: (Seq<char>, Seq<char>, u16),
) -> Seq<(Seq<char>, Seq<char>, u16)> {
    if seen.contains(peer) {
        seen
    } else if seen.len() >= MAX_SEEN {
        seen.push(peer).skip(1)
    } else {
        seen.push(peer)
    }
}

/// Who is seen in a packet from `ip`: whoever announces itself under a name other than the
/// own.
pub open spec fn seen_in(own: Seq<char>, data: Seq<u8>, ip: Seq<char>) -> Option<
    (Seq<char>, Seq<char>, u16),
> {
    if is_announce(data) && name_in(data) != own {
        Some((name_in(data), ip, port_in(data)))
    } else {
        None
    }
}

/// A peer that is remembered is not reported again.
pub proof fn lemma_reported_once(
    seen: Seq<(Seq<char>, Seq<char>, u16)>,
    peer: (Seq<char>, Seq<char>, u16),
)
    ensures
        remembered(seen, peer).contains(peer),
        remembered(remembered(seen, peer), peer) == remembered(seen, peer),
{
    let after = remembered(seen, peer);
    if !seen.contains(peer) {
        assert(after[after.len() - 1] == peer);
    }
}

/// What is announced of a name: the longest front of it, in whole characters, that takes up no more
/// bytes than a name may; a name that fits is announced whole.
pub proof fn lemma_longest_front_announced(hostname: Seq<char>) -> (n: int)
    ensures
        0 <= n <= hostname.len(),
        announced_name(hostname) == hostname.take(n),
        n > 0 ==> vstd::utf8::encode_utf8(hostname.take(n)).len() <= MAX_NAME_LEN,
        n < hostname.len() ==> vstd::utf8::encode_utf8(hostname.take(n + 1)).len() > MAX_NAME_LEN,
        vstd::utf8::encode_utf8(hostname).len() <= MAX_NAME_LEN ==> n == hostname.len(),
    decreases hostname.len(),
{
    if hostname.len() == 0 || vstd::utf8::encode_utf8(hostname).len() <= MAX_NAME_LEN {
        assert(hostname.take(hostname.len() as int) =~= hostname);
        hostname.len() as int
    } else {
        let front = hostname.drop_last();
        let n = lemma_longest_front_announced(front);
        assert(front.take(n) =~= hostname.take(n));
        if n < front.len() {
            assert(front.take(n + 1) =~= hostname.take(n + 1));
        } else {
            assert(hostname.take(n + 1) =~= hostname);
        }
        n
    }
}

/// Whoever announces itself is seen under the name and the port that it announces, at the address
/// that the packet came from; unless the name is the own: nobody sees itself.
pub proof fn lemma_announced_is_seen(
    own: Seq<char>,
    hostname: Seq<char>,
    port: u16,
    ip: Seq<char>,
    rest: Seq<u8>,
)
    ensures
        seen_in(own, announce_bytes(hostname, port) + rest, ip) == (if announced_name(hostname)
            == own {
            None
        } else {
            Some((announced_name(hostname), ip, port))
        }),
{
    lemma_announce_round_trip(hostname, port, rest);
}

/// Where things stand in an announcement: the magic, the version, how long the name is, the name,
/// and the port, its more significant byte first.
pub proof fn lemma_announce_layout(hostname: Seq<char>, port: u16)
    ensures
        ({
            let s = announce_bytes(hostname, port);
            let name = vstd::utf8::encode_utf8(announced_name(hostname));
            &&& s.len() == 8 + name.len()
            &&& s[0] == 'T' as int && s[1] == 'E' as int && s[2] == 'L' as int && s[3] == 'E' as int
            &&& s[4] == PROTOCOL_VERSION
            &&& s[5] == name.len()
            &&& s.subrange(6, 6 + name.len() as int) == name
            &&& s[6 + name.len() as int] * 0x100 + s[7 + name.len() as int] == port
        }),
{
    let s = announce_bytes(hostname, port);
    let name = vstd::utf8::encode_utf8(announced_name(hostname));
    let n = name.len() as int;
    lemma_announced_fits(hostname);
    assert(s.subrange(6, 6 + n) =~= name);
    assert(s.subrange(6 + n, 8 + n) =~= octets::be16(port));
    assert(s.subrange(6 + n, 8 + n)[0] == s[6 + n] && s.subrange(6 + n, 8 + n)[1] == s[7 + n]);
    octets::lemma_worth16(port);
}

/// Who is remembered: whoever was, and the one just seen, which is reported if it was not among
/// them; only where there are as many as may be, the oldest is forgotten for a new one.
pub proof fn lemma_remembered_exact(
    seen: Seq<(Seq<char>, Seq<char>, u16)>,
    peer: (Seq<char>, Seq<char>, u16),
    other: (Seq<char>, Seq<char>, u16),
)
    requires
        other != peer,
        seen.no_duplicates(),
        seen.len() <= MAX_SEEN,
    ensures
        ({
            let after = remembered(seen, peer);
            &&& after.contains(peer)
            &&& seen.contains(peer) || seen.len() < MAX_SEEN ==> (after.contains(other)
                <==> seen.contains(other))
            &&& !seen.contains(peer) && seen.len() == MAX_SEEN ==> (after.contains(other)
                <==> seen.contains(other) && other != seen[0])
            &&& after.no_duplicates()
            &&& after.len() <= MAX_SEEN
        }),
{
    let after = remembered(seen, peer);
    lemma_reported_once(seen, peer);
    if !seen.contains(peer) {
        let all = seen.push(peer);
        if seen.len() < MAX_SEEN {
            if seen.contains(other) {
                assert(after[seen.index_of(other)] == other);
            }
            if after.contains(other) {
                let i = after.index_of(other);
                assert(seen[i] == other);
            }
        } else {
            if seen.contains(other) && other != seen[0] {
                let i = seen.index_of(other);
                assert(after[i - 1] == other);
            }
            if after.contains(other) {
                let i = after.index_of(other);
                assert(after[i] == all[i + 1]);
                assert(seen[i + 1] == other);
            }
        }
        assert forall|i: int, j: int|
            0 <= i < after.len() && 0 <= j < after.len() && i != j implies after[i] != after[j] by {
            let k: int = if seen.len() < MAX_SEEN {
                0
            } else {
                1
            };
            assert(after[i] == all[i + k] && after[j] == all[j + k]);
            if i + k < seen.len() {
                assert(all[i + k] == seen[i + k]);
            }
            if j + k < seen.len() {
                assert(all[j + k] == seen[j + k]);
            }
        }
    }
}

/// What is no announcement: what is too short for one, does not start with the magic, is of another
/// version, ends before the name that it announces and the port do, or has a name that is no text.
/// Everything else is one.
pub proof fn lemma_announcements(data: Seq<u8>)
    ensures
        is_announce(data) <==> {
            &&& data.len() >= 8
            &&& data[0] == 'T' as int && data[1] == 'E' as int && data[2] == 'L' as int && data[3]
                == 'E' as int
            &&& data[4] == PROTOCOL_VERSION
            &&& data.len() >= 8 + data[5]
            &&& vstd::utf8::valid_utf8(data.subrange(6, 6 + data[5]))
        },
{
    if data.len() >= 8 {
        let front = data.take(4);
        assert(front[0] == data[0] && front[1] == data[1] && front[2] == data[2] && front[3]
            == data[3]);
        if data[0] == 'T' as int && data[1] == 'E' as int && data[2] == 'L' as int && data[3]
            == 'E' as int {
            assert(front =~= magic());
        }
        if front == magic() {
            assert(magic()[0] == 0x54 && magic()[1] == 0x45 && magic()[2] == 0x4c && magic()[3]
                == 0x45);
        }
    }
}

/// Who is remembered after a packet has come, and who is reported.
pub open spec fn packet_seen(
    own: Seq<char>,
    seen: Seq<(Seq<char>, Seq<char>, u16)>,
    data: Seq<u8>,
    ip: Seq<char>,
) -> (Seq<(Seq<char>, Seq<char>, u16)>, Option<(Seq<char>, Seq<char>, u16)>) {
    match seen_in(own, data, ip) {
        None => (seen, None),
        Some(peer) => (
            remembered(seen, peer),
            if seen.contains(peer) {
                None
            } else {
                Some(peer)
            },
        ),
    }
}

/// Whoever announces itself is reported when it is seen first, and not again while it is
/// remembered; nobody reports itself, and what is no announcement reports nobody and changes
/// nothing.
pub proof fn lemma_reported_when_new(
    own: Seq<char>,
    seen: Seq<(Seq<char>, Seq<char>, u16)>,
    hostname: Seq<char>,
    port: u16,
    ip: Seq<char>,
    data: Seq<u8>,
)
    ensures
        ({
            let packet = announce_bytes(hostname, port);
            let peer = (announced_name(hostname), ip, port);
            let (after, report) = packet_seen(own, seen, packet, ip);
            &&& announced_name(hostname) == own ==> report is None && after == seen
            &&& announced_name(hostname) != own ==> {
                &&& report == if seen.contains(peer) {
                    None
                } else {
                    Some(peer)
                }
                &&& after.contains(peer)
                &&& packet_seen(own, after, packet, ip) == (after, None::<(Seq<char>, Seq<char>, u16)>)
            }
            &&& !is_announce(data) ==> packet_seen(own, seen, data, ip) == (
                seen,
                None::<(Seq<char>, Seq<char>, u16)>,
            )
        }),
{
    let packet = announce_bytes(hostname, port);
    lemma_announced_is_seen(own, hostname, port, ip, Seq::empty());
    assert(packet + Seq::<u8>::empty() =~= packet);
    lemma_reported_once(seen, (announced_name(hostname), ip, port));
}

/// The peers that were seen on the local network.
pub struct DiscoveryCore {
    own: String,
    seen: Vec<DiscoveredPeer>,
}

impl DiscoveryCore {
    /// The own name.
    pub closed spec fn own(self) -> Seq<char> {
        self.own@
    }

    /// The peers that are remembered, oldest first.
    pub closed spec fn seen(self) -> Seq<(Seq<char>, Seq<char>, u16)> {
        peers_of(self.seen@)
    }

    /// What holds of every record: no more are remembered than may be.
    pub open spec fn wf(self) -> bool {
        self.seen().len() <= MAX_SEEN
    }

    /// Nobody was seen yet.
    pub fn new(own: String) -> (r: Self)
        ensures
            r.wf(),
            r.own() == own@,
            r.seen() == Seq::<(Seq<char>, Seq<char>, u16)>::empty(),
    {
        let r = DiscoveryCore { own, seen: Vec::new() };
        assert(r.seen() =~= Seq::empty());
        r
    }

    fn knows(&self, peer: &DiscoveredPeer) -> (r: bool)
        ensures
            r == self.seen().contains(peer@),
    {
        let mut i: usize = 0;
        while i < self.seen.len()
            invariant
                i <= self.seen@.len(),
                forall|k: int| 0 <= k < i ==> #[trigger] self.seen()[k] != peer@,
            decreases self.seen@.len() - i,
        {
            let p = &self.seen[i];
            assert(self.seen()[i as int] == p@);
            if p.hostname == peer.hostname && p.ip == peer.ip && p.port == peer.port {
                return true;
            }
            i = i + 1;
        }
        false
    }

    /// Takes a packet that came from `ip`: the peer that announces itself in it, if it was not
    /// seen before.
    pub fn on_packet(&mut self, data: &[u8], ip: String) -> (r: Option<DiscoveredPeer>)
        requires
            old(self).wf(),
        ensures
            final(self).wf(),
            final(self).own() == old(self).own(),
            match seen_in(old(self).own(), data@, ip@) {
                None => r is None && final(self).seen() == old(self).seen(),
                Some(peer) => {
                    &&& final(self).seen() == remembered(old(self).seen(), peer)
                    &&& r is Some <==> !old(self).seen().contains(peer)
                    &&& r matches Some(p) ==> p@ == peer
                },
            },
            ({
                let (seen, report) = packet_seen(
                    old(self).own(),
                    old(self).seen(),
                    data@,
                    ip@,
                );
                &&& final(self).seen() == seen
                &&& match r {
                    Some(p) => report == Some(p@),
                    None => report is None,
                }
            }),
    {
        let (hostname, port) = match parse_announce(data) {
            Some(found) => found,
            None => {
                return None;
            },
        };
        if hostname == self.own {
            return None;
        }
        let peer = DiscoveredPeer { hostname, ip, port };
        if self.knows(&peer) {
            return None;
        }
        let kept = DiscoveredPeer {
            hostname: peer.hostname.clone(),
            ip: peer.ip.clone(),
            port: peer.port,
        };
        let ghost before = self.seen@;
        self.seen.push(kept);
        proof {
            assert(peers_of(self.seen@) =~= peers_of(before).push(peer@));
        }
        if self.seen.len() > MAX_SEEN {
            self.seen.remove(0);
            assert(peers_of(self.seen@) =~= peers_of(before).push(peer@).skip(1));
        }
        Some(peer)
    }
}

} // verus!
