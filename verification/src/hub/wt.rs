//! How packets ride a WebTransport session: which carrier each takes, and how they are framed.
use crate::crypto::BandId;
use crate::framing::ChannelType;
use crate::hex;
use crate::hub::frame::{self, band_from_hex, RouteInfo};
use crate::octets::{self, copy_range, get_be16, push_all, push_be16};
use crate::text::{self, chars_of, split, starts_with, text_of};
use vstd::prelude::*;

verus! {

/// The path that sessions are opened on.
pub const DEFAULT_WT_PATH: &'static str = "/telesthete";

/// The bytes in front of a packet on a reliable carrier that tell its length.
pub const WT_STREAM_LEN_PREFIX: usize = 2;

/// Where the first `c` stands in `s`; the length of `s` if there is none.
pub open spec fn first_char(s: Seq<char>, c: char, from: int) -> int
    decreases s.len() - from,
{
    if from >= s.len() {
        s.len() as int
    } else if s[from] == c {
        from
    } else {
        first_char(s, c, from + 1)
    }
}

/// The first of the parts from `from` on that starts with `prefix`, without it.
pub open spec fn first_after_prefix(
    parts: Seq<Seq<char>>,
    prefix: Seq<char>,
    from: int,
) -> Option<Seq<char>>
    decreases parts.len() - from,
{
    if from >= parts.len() {
        None
    } else if prefix.is_prefix_of(parts[from]) {
        Some(parts[from].skip(prefix.len() as int))
    } else {
        first_after_prefix(parts, prefix, from + 1)
    }
}

/// The band that the path of a request names: the first `band=` of its query, if it is for the
/// path that sessions are opened on.
pub open spec fn named_band(path: Seq<char>) -> Option<Seq<char>> {
    let at = first_char(path, '?', 0);
    if at >= path.len() || path.take(at) != DEFAULT_WT_PATH@ {
        None
    } else {
        first_after_prefix(text::split_at_char(path.skip(at + 1), '&'), "band="@, 0)
    }
}

/// Where the first of a character stands: nowhere before it does it stand.
pub proof fn lemma_first_char(s: Seq<char>, c: char, from: int)
    requires
        0 <= from <= s.len(),
    ensures
        from <= first_char(s, c, from) <= s.len(),
        first_char(s, c, from) < s.len() ==> s[first_char(s, c, from)] == c,
        forall|k: int| from <= k < first_char(s, c, from) ==> #[trigger] s[k] != c,
    decreases s.len() - from,
{
    if from < s.len() && s[from] != c {
        lemma_first_char(s, c, from + 1);
    }
}

proof fn lemma_first_part(parts: Seq<Seq<char>>, prefix: Seq<char>, k: int, from: int)
    requires
        0 <= from <= k < parts.len(),
        prefix.is_prefix_of(parts[k]),
        forall|i: int| 0 <= i < k ==> !prefix.is_prefix_of(#[trigger] parts[i]),
    ensures
        first_after_prefix(parts, prefix, from) == Some(parts[k].skip(prefix.len() as int)),
    decreases k - from,
{
    if from < k {
        lemma_first_part(parts, prefix, k, from + 1);
    }
}

/// A request names a band by `band=` in the query of the path that sessions are opened on, be it
/// the first part of the query or behind others that do not start so, and whatever parts follow.
#[verifier::spinoff_prover]
#[verifier::rlimit(40)]
pub proof fn lemma_band_named(front: Seq<Seq<char>>, band: Seq<char>, rest: Seq<char>)
    requires
        forall|i: int|
            0 <= i < front.len() ==> !"band="@.is_prefix_of(#[trigger] front[i])
                && !front[i].contains('&'),
        !band.contains('&'),
    ensures
        named_band(DEFAULT_WT_PATH@.push('?') + query_of(front, "band="@ + band)) == Some(band),
        named_band(
            DEFAULT_WT_PATH@.push('?') + (query_of(front, "band="@ + band).push('&') + rest),
        ) == Some(band),
{
    let part = "band="@ + band;
    reveal_strlit("band=");
    if part.contains('&') {
        let i = part.index_of('&');
        assert(i >= 5);
        assert(band[i - 5] == '&');
    }
    let query = query_of(front, part);
    lemma_query_split(front, part);
    let parts = front.push(part);
    assert(part.subrange(0, 5) =~= "band="@);
    assert("band="@.is_prefix_of(part));
    assert(part.skip(5) =~= band);
    assert forall|i: int| 0 <= i < front.len() implies !"band="@.is_prefix_of(
        #[trigger] parts[i],
    ) by {
        assert(parts[i] == front[i]);
    }
    lemma_first_part(parts, "band="@, front.len() as int, 0);
    lemma_path_query(query);
    text::lemma_split_two(query, rest, '&');
    let more = parts + text::split_at_char(rest, '&');
    assert forall|i: int| 0 <= i < front.len() implies !"band="@.is_prefix_of(
        #[trigger] more[i],
    ) by {
        assert(more[i] == front[i]);
    }
    assert(more[front.len() as int] == part);
    lemma_first_part(more, "band="@, front.len() as int, 0);
    lemma_path_query(query.push('&') + rest);
}

/// A request for another path, or without a query, or whose query has no part that starts with
/// `band=`, names none.
pub proof fn lemma_no_band_named(path: Seq<char>, query: Seq<char>)
    ensures
        !path.contains('?') ==> named_band(path) is None,
        !path.contains('?') && path != DEFAULT_WT_PATH@ ==> named_band(path.push('?') + query)
            is None,
        (forall|i: int|
            0 <= i < text::split_at_char(query, '&').len() ==> !"band="@.is_prefix_of(
                #[trigger] text::split_at_char(query, '&')[i],
            )) ==> named_band(DEFAULT_WT_PATH@.push('?') + query) is None,
{
    lemma_first_char(path, '?', 0);
    if !path.contains('?') {
        let at = first_char(path, '?', 0);
        assert(at < path.len() ==> path[at] == '?');
        let all = path.push('?') + query;
        lemma_first_char(all, '?', 0);
        let mark = first_char(all, '?', 0);
        assert(all[path.len() as int] == '?');
        if mark < path.len() {
            assert(all[mark] == path[mark]);
        }
        assert(all.take(mark) =~= path);
    }
    let parts = text::split_at_char(query, '&');
    if forall|i: int| 0 <= i < parts.len() ==> !"band="@.is_prefix_of(#[trigger] parts[i]) {
        lemma_no_part(parts, "band="@, 0);
        lemma_path_query(query);
    }
}

proof fn lemma_no_part(parts: Seq<Seq<char>>, prefix: Seq<char>, from: int)
    requires
        0 <= from,
        forall|i: int| 0 <= i < parts.len() ==> !prefix.is_prefix_of(#[trigger] parts[i]),
    ensures
        first_after_prefix(parts, prefix, from) is None,
    decreases parts.len() - from,
{
    if from < parts.len() {
        lemma_no_part(parts, prefix, from + 1);
    }
}

/// A query of parts, the last of which is `part`.
pub open spec fn query_of(front: Seq<Seq<char>>, part: Seq<char>) -> Seq<char>
    decreases front.len(),
{
    if front.len() == 0 {
        part
    } else {
        query_of(front.drop_last(), front.last()).push('&') + part
    }
}

proof fn lemma_query_split(front: Seq<Seq<char>>, part: Seq<char>)
    requires
        forall|i: int| 0 <= i < front.len() ==> !(#[trigger] front[i]).contains('&'),
        !part.contains('&'),
    ensures
        text::split_at_char(query_of(front, part), '&') == front.push(part),
    decreases front.len(),
{
    text::lemma_split_none(part, '&');
    if front.len() == 0 {
        assert(front.push(part) =~= seq![part]);
    } else {
        let fewer = front.drop_last();
        assert(front[front.len() - 1] == front.last());
        assert forall|i: int| 0 <= i < fewer.len() implies !(#[trigger] fewer[i]).contains('&') by {
            assert(fewer[i] == front[i]);
        }
        lemma_query_split(fewer, front.last());
        text::lemma_split_two(query_of(fewer, front.last()), part, '&');
        assert(fewer.push(front.last()) =~= front);
        assert(front + seq![part] =~= front.push(part));
    }
}

proof fn lemma_path_query(query: Seq<char>)
    ensures
        named_band(DEFAULT_WT_PATH@.push('?') + query) == first_after_prefix(
            text::split_at_char(query, '&'),
            "band="@,
            0,
        ),
{
    reveal_strlit("/telesthete");
    let path = DEFAULT_WT_PATH@.push('?') + query;
    let n = DEFAULT_WT_PATH@.len() as int;
    lemma_first_char(path, '?', 0);
    assert(path[n] == '?');
    let at = first_char(path, '?', 0);
    if at < n {
        assert(path[at] == DEFAULT_WT_PATH@[at]);
    }
    assert(path.take(n) =~= DEFAULT_WT_PATH@);
    assert(path.skip(n + 1) =~= query);
}

/// The band that the path of a request names; `None` where it names none, or not as a band is
/// named.
pub fn parse_band(path: &str) -> (r: Option<BandId>)
    ensures
        r is Some <==> (named_band(path@) matches Some(h) && frame::is_band_hex(h)),
        r matches Some(b) ==> named_band(path@) is Some && b@ == hex::bytes_of_hex(
            named_band(path@)->0,
        ),
{
    let chars = chars_of(path);
    let mut at: usize = 0;
    while at < chars.len() && chars[at] != '?'
        invariant
            at <= chars@.len(),
            first_char(chars@, '?', 0) == first_char(chars@, '?', at as int),
        decreases chars@.len() - at,
    {
        at = at + 1;
    }
    if at == chars.len() {
        return None;
    }
    let route = text_of(vstd::slice::slice_subrange(chars.as_slice(), 0, at));
    assert(route@ =~= path@.take(at as int));
    if route != DEFAULT_WT_PATH.to_owned() {
        return None;
    }
    let query = vstd::slice::slice_subrange(chars.as_slice(), at + 1, chars.len());
    assert(query@ =~= path@.skip(at + 1));
    let parts = split(query, '&');
    let ghost all = text::char_views(parts@);
    let mut i: usize = 0;
    while i < parts.len()
        invariant
            i <= parts@.len(),
            all == text::char_views(parts@),
            named_band(path@) == first_after_prefix(all, "band="@, i as int),
        decreases parts@.len() - i,
    {
        assert(all[i as int] == parts@[i as int]@);
        if starts_with(parts[i].as_slice(), "band=") {
            proof {
                reveal_strlit("band=");
            }
            let value = vstd::slice::slice_subrange(parts[i].as_slice(), 5, parts[i].len());
            assert(value@ =~= parts@[i as int]@.skip(5));
            let digits = text_of(value);
            return band_from_hex(digits.as_str());
        }
        i = i + 1;
    }
    None
}

/// What carries a packet.
#[derive(Debug, Clone, Copy, PartialEq, Eq, Structural)]
pub enum Carrier {
    /// A datagram of its own.
    Datagram,
    /// The stream of this channel.
    Channel(u16),
    /// The one stream for everything else that must not be lost.
    Control,
}

/// What carries a packet of the given type and channel: streams, which tolerate loss, ride
/// datagrams; each reliable channel has a stream of its own; all else shares one.
pub open spec fn carrier_of(channel_type: Option<ChannelType>, channel_id: u16) -> Carrier {
    match channel_type {
        Some(ChannelType::Stream) => Carrier::Datagram,
        Some(ChannelType::Channel) => Carrier::Channel(channel_id),
        _ => Carrier::Control,
    }
}

/// Only what tolerates loss rides datagrams, and what must not be lost and is not of a channel
/// shares one stream, which no channel is on; two channels are on the same stream only if they
/// bear the same number.
pub proof fn lemma_carriers(a: Option<ChannelType>, a_id: u16, b_id: u16)
    ensures
        carrier_of(a, a_id) is Datagram <==> a == Some(ChannelType::Stream),
        carrier_of(a, a_id) is Channel <==> a == Some(ChannelType::Channel),
        carrier_of(Some(ChannelType::Channel), a_id) == carrier_of(
            Some(ChannelType::Channel),
            b_id,
        ) <==> a_id == b_id,
{
}

/// What carries a packet.
pub fn carrier(info: &RouteInfo) -> (r: Carrier)
    ensures
        r == carrier_of(info.channel_type, info.channel_id),
{
    match info.channel_type {
        Some(ChannelType::Stream) => Carrier::Datagram,
        Some(ChannelType::Channel) => Carrier::Channel(info.channel_id),
        _ => Carrier::Control,
    }
}

/// A packet on a reliable carrier: its length, and the packet.
pub open spec fn framed(packet: Seq<u8>) -> Seq<u8> {
    octets::be16(packet.len() as u16) + packet
}

/// Frames a packet for a reliable carrier; `None` for one that is too long, which is dropped.
pub fn frame_packet(packet: &[u8]) -> (r: Option<Vec<u8>>)
    ensures
        r is Some <==> packet@.len() <= 0xFFFF,
        r matches Some(v) ==> v@ == framed(packet@),
{
    if packet.len() > 0xFFFF {
        return None;
    }
    let mut v: Vec<u8> = Vec::new();
    push_be16(&mut v, packet.len() as u16);
    push_all(&mut v, packet);
    Some(v)
}

/// How many bytes the packet at the front of `buf` takes, with the two that tell its length.
pub open spec fn framed_len(buf: Seq<u8>) -> int {
    2 + octets::be16_at(buf, 0)
}

/// Whether a whole packet is at the front of `buf`.
pub open spec fn has_packet(buf: Seq<u8>) -> bool {
    buf.len() >= 2 && buf.len() >= framed_len(buf)
}

/// The packets at the front of `buf`, without empty ones, and what is left.
pub open spec fn packets_in(buf: Seq<u8>) -> (Seq<Seq<u8>>, Seq<u8>)
    decreases buf.len(),
{
    if !has_packet(buf) {
        (Seq::empty(), buf)
    } else {
        let packet = buf.subrange(2, framed_len(buf));
        let (later, rest) = packets_in(buf.skip(framed_len(buf)));
        (
            if packet.len() == 0 {
                later
            } else {
                seq![packet] + later
            },
            rest,
        )
    }
}

/// Packets framed one after the other.
pub open spec fn all_framed(packets: Seq<Seq<u8>>) -> Seq<u8>
    decreases packets.len(),
{
    if packets.len() == 0 {
        Seq::empty()
    } else {
        framed(packets[0]) + all_framed(packets.skip(1))
    }
}

/// The packets that were framed one after the other are read back, whatever has come of the
/// next one.
pub proof fn lemma_framed_read_back(packets: Seq<Seq<u8>>, rest: Seq<u8>)
    requires
        forall|i: int| 0 <= i < packets.len() ==> 0 < (#[trigger] packets[i]).len() <= 0xFFFF,
        !has_packet(rest),
    ensures
        packets_in(all_framed(packets) + rest) == (packets, rest),
    decreases packets.len(),
{
    let buf = all_framed(packets) + rest;
    if packets.len() == 0 {
        assert(buf =~= rest);
        assert(packets =~= Seq::empty());
    } else {
        let first = packets[0];
        assert(0 < first.len() <= 0xFFFF);
        assert(buf.subrange(0, 2) =~= octets::be16(first.len() as u16));
        octets::lemma_be16_at(buf, 0, first.len() as u16);
        assert(buf.subrange(2, framed_len(buf)) =~= first);
        assert(buf.skip(framed_len(buf)) =~= all_framed(packets.skip(1)) + rest);
        assert forall|i: int| 0 <= i < packets.skip(1).len() implies 0 < (
        #[trigger] packets.skip(1)[i]).len() <= 0xFFFF by {
            assert(packets[i + 1].len() > 0);
        }
        lemma_framed_read_back(packets.skip(1), rest);
        assert(seq![first] + packets.skip(1) =~= packets);
    }
}

/// Reading what came over a reliable carrier in one go or in two comes to the same.
pub proof fn lemma_packets_split(first: Seq<u8>, second: Seq<u8>)
    ensures
        ({
            let (one, left) = packets_in(first);
            let (two, rest) = packets_in(left + second);
            packets_in(first + second) == (one + two, rest)
        }),
    decreases first.len(),
{
    let both = first + second;
    let (one, left) = packets_in(first);
    let (two, rest) = packets_in(left + second);
    if has_packet(first) {
        let n = framed_len(first);
        assert(octets::be16_at(both, 0) == octets::be16_at(first, 0));
        assert(both.subrange(2, n) =~= first.subrange(2, n));
        assert(both.skip(n) =~= first.skip(n) + second);
        lemma_packets_split(first.skip(n), second);
        let (later, _) = packets_in(first.skip(n));
        assert(seq![first.subrange(2, n)] + (later + two) =~= (seq![first.subrange(2, n)] + later)
            + two);
        assert(packets_in(both).0 =~= one + two);
    } else {
        assert(one + two =~= two);
    }
}

/// A packet that is empty is passed over, and one that is not yet whole waits with all its bytes.
pub proof fn lemma_packet_passed_or_waits(buf: Seq<u8>, rest: Seq<u8>)
    ensures
        packets_in(seq![0u8, 0u8] + rest) == packets_in(rest),
        buf.len() < 2 || buf.len() < 2 + buf[0] * 0x100 + buf[1] ==> packets_in(buf) == (
            Seq::<Seq<u8>>::empty(),
            buf,
        ),
{
    let all = seq![0u8, 0u8] + rest;
    assert(all.skip(2) =~= rest);
    assert(all.subrange(2, 2).len() == 0);
}

/// Reads the packets at the front of what came over a reliable carrier: the packets, and how
/// many bytes they took.
pub fn deframe(buf: &[u8]) -> (r: (Vec<Vec<u8>>, usize))
    ensures
        r.1 <= buf@.len(),
        octets::views(r.0@) == packets_in(buf@).0,
        buf@.skip(r.1 as int) == packets_in(buf@).1,
{
    let mut out: Vec<Vec<u8>> = Vec::new();
    let mut at: usize = 0;
    let len = buf.len();
    assert(buf@.skip(0) =~= buf@);
    assert(octets::views(out@) =~= Seq::empty());
    assert(octets::views(out@) + packets_in(buf@).0 =~= packets_in(buf@).0);
    while len - at >= 2 && len - at - 2 >= get_be16(buf, at) as usize
        invariant
            len == buf@.len() == buf.len(),
            at <= len,
            packets_in(buf@) == (
                octets::views(out@) + packets_in(buf@.skip(at as int)).0,
                packets_in(buf@.skip(at as int)).1,
            ),
        decreases len - at,
    {
        let ghost rest = buf@.skip(at as int);
        let n: usize = get_be16(buf, at) as usize;
        let ghost before = out@;
        proof {
            assert(octets::be16_at(rest, 0) == octets::be16_at(buf@, at as int));
            assert(rest.subrange(2, framed_len(rest)) =~= buf@.subrange(at + 2, at + 2 + n));
            assert(rest.skip(framed_len(rest)) =~= buf@.skip(at + 2 + n));
        }
        if n > 0 {
            let packet = copy_range(buf, at + 2, at + 2 + n);
            out.push(packet);
            proof {
                let later = packets_in(buf@.skip(at + 2 + n)).0;
                assert(octets::views(out@) =~= octets::views(before).push(packet@));
                assert(octets::views(out@) + later =~= octets::views(before) + (seq![packet@]
                    + later));
            }
        }
        at = at + 2 + n;
    }
    proof {
        let rest = buf@.skip(at as int);
        if rest.len() >= 2 {
            assert(octets::be16_at(rest, 0) == octets::be16_at(buf@, at as int));
        }
        assert(!has_packet(rest));
        assert(octets::views(out@) + packets_in(rest).0 =~= octets::views(out@));
    }
    (out, at)
}

} // verus!
