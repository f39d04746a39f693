//! Channel routing, message framing, latest-wins delivery and fragment reassembly.
use crate::assoc;
use crate::octets::{
    self, copy_range, get_le16, get_le32, push_all, push_le16, push_le32,
};
use crate::pieces::{self, cut_slices, Pieces};
use crate::text::{self, chars_of, parse_number};
use std::collections::HashMap;
use vstd::prelude::*;

verus! {

/// The control channel.
pub const CH_CTL: u8 = 0;

/// The input channel.
pub const CH_INPUT: u8 = 1;

/// The audio channel.
pub const CH_AUDIO: u8 = 200;

/// The metadata channel.
pub const CH_META: u8 = 201;

/// Set in the opcode of an input message of which only the newest matters.
pub const COALESCIBLE_BIT: u8 = 0x80;

/// A datagram that holds one whole message.
pub const DT_DATA: u8 = 0;

/// A datagram that holds one fragment of a message.
pub const DT_FRAG: u8 = 1;

/// The datagram that binds a source address to the session.
pub const DT_HELLO: u8 = 2;

/// A datagram that asks whether the peer is there.
pub const DT_PING: u8 = 3;

/// The answer to a ping.
pub const DT_PONG: u8 = 4;

/// The size of a datagram where nothing else was asked for.
pub const DEFAULT_MTU: usize = 1200;

/// How long, in milliseconds, the fragments of a message wait for the others.
pub const FRAG_LIFETIME: u64 = 250;

/// The size of a datagram: what was asked for, where that is a number, and else the default.
pub fn default_mtu(setting: Option<String>) -> (r: usize)
    ensures
        r == match setting {
            Some(s) => match text::number_of(s@) {
                Some(n) => if n <= usize::MAX {
                    n as usize
                } else {
                    DEFAULT_MTU
                },
                None => DEFAULT_MTU,
            },
            None => DEFAULT_MTU,
        },
{
    match setting {
        Some(s) => {
            let chars = chars_of(s.as_str());
            match parse_number(chars.as_slice(), usize::MAX as u64) {
                Some(n) => n as usize,
                None => DEFAULT_MTU,
            }
        },
        None => DEFAULT_MTU,
    }
}

/// Whether a message rides a datagram: texture channels and audio always do, input only
/// where its opcode is coalescible, everything else never.
pub open spec fn rides_udp(channel: u8, first_op: u8) -> bool {
    ||| 2 <= channel <= 9
    ||| channel == CH_AUDIO
    ||| channel == CH_INPUT && first_op >= COALESCIBLE_BIT
}

/// Whether a message on `channel` that starts with `first_op` rides a datagram.
pub fn is_udp(channel: u8, first_op: u8) -> (r: bool)
    ensures
        r == rides_udp(channel, first_op),
{
    assert((first_op & 0x80u8 != 0) == (first_op >= 0x80u8)) by (bit_vector);
    match channel {
        CH_CTL | CH_META => false,
        CH_INPUT => first_op & COALESCIBLE_BIT != 0,
        200 => true,
        c => 2 <= c && c <= 9,
    }
}

/// A message framed for the reliable stream: its channel, its length, its bytes. The length
/// is written modulo 2^32.
pub open spec fn tcp_frame(channel: u8, msg: Seq<u8>) -> Seq<u8> {
    seq![channel] + octets::le32((msg.len() % 0x1_0000_0000) as u32) + msg
}

/// Frames a message for the reliable stream.
pub fn frame_tcp(channel: u8, msg: &[u8]) -> (v: Vec<u8>)
    ensures
        v@ == tcp_frame(channel, msg@),
{
    let mut v: Vec<u8> = Vec::new();
    v.push(channel);
    push_le32(&mut v, (msg.len() as u64 % 0x1_0000_0000) as u32);
    push_all(&mut v, msg);
    assert(v@ =~= tcp_frame(channel, msg@));
    v
}

/// The length that the frame at the front of `buf` announces.
pub open spec fn tcp_frame_len(buf: Seq<u8>) -> int {
    octets::le32_at(buf, 1) as int
}

/// Takes one framed message off the front of `buf`: its channel, its bytes, and how many
/// bytes it took. `None` until the whole frame is there.
pub fn parse_tcp(buf: &[u8]) -> (r: Option<(u8, Vec<u8>, usize)>)
    ensures
        r is Some <==> buf@.len() >= 5 && buf@.len() >= 5 + tcp_frame_len(buf@),
        r matches Some((channel, msg, used)) ==> {
            &&& channel == buf@[0]
            &&& msg@ == buf@.subrange(5, 5 + tcp_frame_len(buf@))
            &&& used == 5 + tcp_frame_len(buf@)
        },
{
    if buf.len() < 5 {
        return None;
    }
    let channel = buf[0];
    let len: u32 = get_le32(buf, 1);
    if (buf.len() as u64) < 5 + len as u64 {
        return None;
    }
    let used: usize = 5 + len as usize;
    Some((channel, copy_range(buf, 5, used), used))
}

/// What was framed is parsed back, whatever follows it in the buffer.
pub proof fn lemma_tcp_round_trip(channel: u8, msg: Seq<u8>, rest: Seq<u8>)
    requires
        msg.len() <= u32::MAX,
    ensures
        ({
            let buf = tcp_frame(channel, msg) + rest;
            &&& buf.len() >= 5 + tcp_frame_len(buf)
            &&& tcp_frame_len(buf) == msg.len()
            &&& buf[0] == channel
            &&& buf.subrange(5, 5 + tcp_frame_len(buf)) == msg
        }),
{
    let buf = tcp_frame(channel, msg) + rest;
    assert(buf.subrange(1, 5) =~= octets::le32(msg.len() as u32));
    octets::lemma_le32_at(buf, 1, msg.len() as u32);
    assert(buf.subrange(5, 5 + msg.len() as int) =~= msg);
}

/// The plaintext of a datagram that holds one whole message: the message as it is.
pub fn data_body(msg: &[u8]) -> (v: Vec<u8>)
    ensures
        v@ == msg@,
{
    vstd::slice::slice_to_vec(msg)
}

/// The plaintext of a fragment: the message's id, the fragment's index, their count, bytes.
pub open spec fn frag_bytes(msg_id: u32, idx: u16, count: u16, slice: Seq<u8>) -> Seq<u8> {
    octets::le32(msg_id) + octets::le16(idx) + octets::le16(count) + slice
}

/// Builds the plaintext of a fragment.
pub fn frag_body(msg_id: u32, idx: u16, count: u16, slice: &[u8]) -> (v: Vec<u8>)
    ensures
        v@ == frag_bytes(msg_id, idx, count, slice@),
{
    let mut v: Vec<u8> = Vec::new();
    push_le32(&mut v, msg_id);
    push_le16(&mut v, idx);
    push_le16(&mut v, count);
    push_all(&mut v, slice);
    assert(v@ =~= frag_bytes(msg_id, idx, count, slice@));
    v
}

/// Parses the plaintext of a fragment; `None` where it is shorter than its header.
pub fn parse_frag(body: &[u8]) -> (r: Option<(u32, u16, u16, &[u8])>)
    ensures
        r is Some <==> body@.len() >= 8,
        r matches Some((msg_id, idx, count, slice)) ==> {
            &&& msg_id == octets::le32_at(body@, 0)
            &&& idx == octets::le16_at(body@, 4)
            &&& count == octets::le16_at(body@, 6)
            &&& slice@ == body@.skip(8)
        },
{
    if body.len() < 8 {
        return None;
    }
    let slice = vstd::slice::slice_subrange(body, 8, body.len());
    assert(slice@ =~= body@.skip(8));
    Some((get_le32(body, 0), get_le16(body, 4), get_le16(body, 6), slice))
}

/// Parsing the plaintext of a fragment gives back what it was built of.
pub proof fn lemma_frag_round_trip(msg_id: u32, idx: u16, count: u16, slice: Seq<u8>)
    ensures
        ({
            let body = frag_bytes(msg_id, idx, count, slice);
            &&& body.len() >= 8
            &&& octets::le32_at(body, 0) == msg_id
            &&& octets::le16_at(body, 4) == idx
            &&& octets::le16_at(body, 6) == count
            &&& body.skip(8) == slice
        }),
{
    let body = frag_bytes(msg_id, idx, count, slice);
    assert(body.subrange(0, 4) =~= octets::le32(msg_id));
    assert(body.subrange(4, 6) =~= octets::le16(idx));
    assert(body.subrange(6, 8) =~= octets::le16(count));
    octets::lemma_le32_at(body, 0, msg_id);
    octets::lemma_le16_at(body, 4, idx);
    octets::lemma_le16_at(body, 6, count);
    assert(body.skip(8) =~= slice);
}

/// The bytes of a message that one fragment carries: the datagram less its fragment header
/// and its authentication tag, and at least one.
pub open spec fn frag_payload(mtu: int) -> int {
    if mtu > 25 {
        mtu - 24
    } else {
        1
    }
}

/// The slices that a message is sent in.
pub open spec fn frag_slices(msg: Seq<u8>, mtu: int) -> Seq<Seq<u8>> {
    if msg.len() <= frag_payload(mtu) {
        seq![msg]
    } else {
        pieces::cut(msg, frag_payload(mtu))
    }
}

/// No slice is longer than its message.
pub proof fn lemma_slice_len(msg: Seq<u8>, mtu: int, i: int)
    requires
        0 <= i < frag_slices(msg, mtu).len(),
    ensures
        frag_slices(msg, mtu)[i].len() <= msg.len(),
{
    let size = frag_payload(mtu);
    if msg.len() > size {
        pieces::lemma_piece_bounds(msg.len() as int, size, i);
        assert(i * size <= (i + 1) * size) by (nonlinear_arith)
            requires
                0 < size,
        ;
    }
}

/// A slice fits beside its fragment header and its authentication tag, and so does a message
/// that is sent in one.
pub proof fn lemma_slice_fits(msg: Seq<u8>, mtu: int, i: int)
    requires
        mtu > 25,
        0 <= i < frag_slices(msg, mtu).len(),
    ensures
        frag_slices(msg, mtu)[i].len() + 24 <= mtu,
{
    let size = frag_payload(mtu);
    if msg.len() > size {
        pieces::lemma_piece_bounds(msg.len() as int, size, i);
        assert((i + 1) * size - i * size == size) by (nonlinear_arith);
    }
}

/// What is sent in one slice is the message.
pub proof fn lemma_one_slice(msg: Seq<u8>, mtu: int)
    requires
        frag_slices(msg, mtu).len() == 1,
    ensures
        frag_slices(msg, mtu)[0] == msg,
{
    if msg.len() > frag_payload(mtu) {
        pieces::lemma_piece_bounds(msg.len() as int, frag_payload(mtu), 0);
    }
}

/// Splits a message into slices that fit `mtu` bytes with what stands before and behind them.
pub fn fragment(msg: &[u8], mtu: usize) -> (out: Vec<&[u8]>)
    ensures
        out@.len() == frag_slices(msg@, mtu as int).len(),
        forall|i: int| 0 <= i < out@.len() ==> (#[trigger] out@[i])@ == frag_slices(msg@, mtu as int)[i],
{
    let payload: usize = if mtu > 25 {
        mtu - 24
    } else {
        1
    };
    if msg.len() <= payload {
        let mut out: Vec<&[u8]> = Vec::new();
        out.push(msg);
        return out;
    }
    cut_slices(msg, payload)
}

/// Whether the number `seq` is newer than `last`, on a circle of 2^32 numbers.
pub open spec fn seq_newer(seq: u32, last: u32) -> bool {
    0 < (seq - last) % 0x1_0000_0000 < 0x8000_0000
}

/// Of two numbers at most one is newer than the other.
pub proof fn lemma_newer_asymmetric(a: u32, b: u32)
    requires
        seq_newer(a, b),
    ensures
        !seq_newer(b, a),
{
}

/// The window that a message belongs to: the number after its four-byte envelope, or none
/// for audio and for messages too short to name one.
pub open spec fn window_of(channel: u8, msg: Seq<u8>) -> u32 {
    if channel == CH_AUDIO || msg.len() < 8 {
        0
    } else {
        octets::le32_at(msg, 4)
    }
}

/// The window that a message belongs to.
pub fn window_key(channel: u8, msg: &[u8]) -> (r: u32)
    ensures
        r == window_of(channel, msg@),
{
    if channel == CH_AUDIO || msg.len() < 8 {
        return 0;
    }
    get_le32(msg, 4)
}

/// What a receiver holds of a message that comes in fragments: when the first of them came, and
/// the fragments.
#[verifier::ext_equal]
pub struct FragModel {
    pub since: u64,
    pub parts: Seq<Option<Seq<u8>>>,
}

/// What a receiver of datagrams remembers: the newest number delivered of each channel and
/// window, the fragments of each channel and message, and what time it was told that it is.
#[verifier::ext_equal]
pub struct ReasmModel {
    pub last: Map<(u8, u32), u32>,
    pub frags: Map<(u8, u32), FragModel>,
    pub clock: u64,
}

/// Whether fragments that came first at `since` have waited too long for the others.
pub open spec fn expired(since: u64, now: u64) -> bool {
    now - since > FRAG_LIFETIME
}

/// What is left at the time `now`.
pub open spec fn advanced(m: ReasmModel, now: u64) -> ReasmModel {
    ReasmModel {
        frags: Map::new(
            |k: (u8, u32)| m.frags.contains_key(k) && !expired(m.frags[k].since, now),
            |k: (u8, u32)| m.frags[k],
        ),
        clock: now,
        ..m
    }
}

/// Fragments are held for as long as they may wait, and no longer.
pub proof fn lemma_lifetime(m: ReasmModel, now: u64, channel: u8, msg_id: u32)
    requires
        m.frags.contains_key((channel, msg_id)),
    ensures
        ({
            let since = m.frags[(channel, msg_id)].since;
            advanced(m, now).frags.contains_key((channel, msg_id)) <==> now <= since
                + FRAG_LIFETIME
        }),
{
}

/// Whether a whole message is fresh: audio always is, any other unless its window has had a
/// message as new.
pub open spec fn data_fresh(m: ReasmModel, channel: u8, seq: u32, msg: Seq<u8>) -> bool {
    let key = (channel, window_of(channel, msg));
    ||| channel == CH_AUDIO
    ||| !m.last.contains_key(key)
    ||| seq_newer(seq, m.last[key])
}

/// What a whole message leaves behind.
pub open spec fn after_data(m: ReasmModel, channel: u8, seq: u32, msg: Seq<u8>) -> ReasmModel {
    if channel != CH_AUDIO && data_fresh(m, channel, seq, msg) {
        ReasmModel { last: m.last.insert((channel, window_of(channel, msg)), seq), ..m }
    } else {
        m
    }
}

/// Whether the fragments held under `key` outlive the arrival of one of message `msg_id`: a
/// newer message of the same channel supersedes those before it.
pub open spec fn outlives(key: (u8, u32), channel: u8, msg_id: u32) -> bool {
    key.0 != channel || key.1 == msg_id || seq_newer(key.1, msg_id)
}

/// The fragments that outlive the arrival of one of message `msg_id`.
pub open spec fn surviving(
    frags: Map<(u8, u32), FragModel>,
    channel: u8,
    msg_id: u32,
) -> Map<(u8, u32), FragModel> {
    Map::new(
        |k: (u8, u32)| frags.contains_key(k) && outlives(k, channel, msg_id),
        |k: (u8, u32)| frags[k],
    )
}

/// The fragments of a message after one more has come.
pub open spec fn with_frag(
    frags: Map<(u8, u32), FragModel>,
    key: (u8, u32),
    idx: u16,
    count: u16,
    slice: Seq<u8>,
) -> Seq<Option<Seq<u8>>> {
    let before = if frags.contains_key(key) {
        frags[key].parts
    } else {
        pieces::none_arrived(count as nat)
    };
    if before[idx as int] is Some {
        before
    } else {
        before.update(idx as int, Some(slice))
    }
}

/// What a fragment leaves behind, and the message that it completes, if any.
pub open spec fn after_frag(
    m: ReasmModel,
    channel: u8,
    msg_id: u32,
    idx: u16,
    count: u16,
    slice: Seq<u8>,
) -> (ReasmModel, Option<Seq<u8>>) {
    let key = (channel, msg_id);
    let kept = surviving(m.frags, channel, msg_id);
    let parts = with_frag(kept, key, idx, count, slice);
    let since = if kept.contains_key(key) {
        kept[key].since
    } else {
        m.clock
    };
    if idx >= count {
        (m, None)
    } else if kept.contains_key(key) && kept[key].parts.len() != count {
        (ReasmModel { frags: kept, ..m }, None)
    } else if pieces::all_arrived(parts) {
        (ReasmModel { frags: kept.remove(key), ..m }, Some(pieces::joined(parts)))
    } else {
        (ReasmModel { frags: kept.insert(key, FragModel { since, parts }), ..m }, None)
    }
}

/// Once a message was delivered, one of its window that is not newer is dropped.
pub proof fn lemma_stale_dropped(
    m: ReasmModel,
    channel: u8,
    seq: u32,
    msg: Seq<u8>,
    later_seq: u32,
    later: Seq<u8>,
)
    requires
        channel != CH_AUDIO,
        data_fresh(m, channel, seq, msg),
        window_of(channel, later) == window_of(channel, msg),
        !seq_newer(later_seq, seq),
    ensures
        !data_fresh(after_data(m, channel, seq, msg), channel, later_seq, later),
{
}

/// Delivery on one window has no bearing on another.
pub proof fn lemma_windows_independent(
    m: ReasmModel,
    channel: u8,
    seq: u32,
    msg: Seq<u8>,
    other_channel: u8,
    other_seq: u32,
    other: Seq<u8>,
)
    requires
        (channel, window_of(channel, msg)) != (other_channel, window_of(other_channel, other)),
    ensures
        data_fresh(after_data(m, channel, seq, msg), other_channel, other_seq, other)
            == data_fresh(m, other_channel, other_seq, other),
{
}

/// A fragment of a newer message drops what is held of the messages before it on its channel.
pub proof fn lemma_newer_supersedes(
    m: ReasmModel,
    channel: u8,
    msg_id: u32,
    idx: u16,
    count: u16,
    slice: Seq<u8>,
    older: u32,
)
    requires
        idx < count,
        seq_newer(msg_id, older),
    ensures
        !after_frag(m, channel, msg_id, idx, count, slice).0.frags.contains_key((channel, older)),
{
    lemma_newer_asymmetric(msg_id, older);
}

/// Feeds the fragments of a message in the given order, at the given times; the results that
/// came out.
pub open spec fn fed_frags(
    m: ReasmModel,
    channel: u8,
    msg_id: u32,
    slices: Seq<Seq<u8>>,
    order: Seq<int>,
    times: Seq<u64>,
) -> (ReasmModel, Seq<Option<Seq<u8>>>)
    decreases order.len(),
{
    if order.len() == 0 {
        (m, Seq::empty())
    } else {
        let before = fed_frags(m, channel, msg_id, slices, order.drop_last(), times);
        let idx = order.last();
        let (after, out) = after_frag(
            advanced(before.0, times[order.len() - 1]),
            channel,
            msg_id,
            idx as u16,
            slices.len() as u16,
            slices[idx],
        );
        (after, before.1.push(out))
    }
}

/// Whether the first `n` of the given times all lie within the lifetime of fragments that began
/// at the first.
pub open spec fn in_time(times: Seq<u64>, n: nat) -> bool {
    forall|j: int| 0 <= j < n ==> !expired(times[0], #[trigger] times[j])
}

proof fn lemma_prefix_fed(
    m: ReasmModel,
    channel: u8,
    msg_id: u32,
    slices: Seq<Seq<u8>>,
    order: Seq<int>,
    times: Seq<u64>,
    k: int,
)
    requires
        !m.frags.contains_key((channel, msg_id)),
        slices.len() <= 0xFFFF,
        pieces::completing(order, slices.len() as int),
        in_time(times, order.len()),
        0 <= k < order.len(),
    ensures
        ({
            let (s, outs) = fed_frags(m, channel, msg_id, slices, order.take(k), times);
            &&& outs.len() == k
            &&& forall|j: int| 0 <= j < k ==> (#[trigger] outs[j]) is None
            &&& k == 0 ==> s == m
            &&& k > 0 ==> s.frags.contains_key((channel, msg_id)) && s.frags[(channel, msg_id)]
                == (FragModel {
                since: times[0],
                parts: pieces::arrived_in(slices, order.take(k)),
            })
        }),
    decreases k,
{
    let key = (channel, msg_id);
    if k > 0 {
        lemma_prefix_fed(m, channel, msg_id, slices, order, times, k - 1);
        assert(order.take(k).drop_last() =~= order.take(k - 1));
        assert(order.take(k).last() == order[k - 1]);
        let s = advanced(
            fed_frags(m, channel, msg_id, slices, order.take(k - 1), times).0,
            times[k - 1],
        );
        pieces::lemma_arrives(slices, order, k - 1);
        let before = pieces::arrived_in(slices, order.take(k - 1));
        let after = pieces::arrived_in(slices, order.take(k));
        if k == 1 {
            assert(order.take(0) =~= Seq::empty());
            assert(before =~= pieces::none_arrived(slices.len()));
        }
        let kept = surviving(s.frags, channel, msg_id);
        let idx = order[k - 1] as u16;
        assert(with_frag(kept, key, idx, slices.len() as u16, slices[order[k - 1]]) == after);
        pieces::lemma_not_complete(slices, order, k);
    }
}

/// A message that was sent in fragments comes out whole, and only with the fragment that
/// completes it, in whatever order they arrive and however often, whatever else the receiver holds, as long as none comes later
/// than the first may wait for it.
pub proof fn lemma_fragments_reassemble(
    m: ReasmModel,
    channel: u8,
    msg_id: u32,
    msg: Seq<u8>,
    mtu: int,
    order: Seq<int>,
    times: Seq<u64>,
)
    requires
        !m.frags.contains_key((channel, msg_id)),
        frag_slices(msg, mtu).len() <= 0xFFFF,
        pieces::completing(order, frag_slices(msg, mtu).len() as int),
        in_time(times, order.len()),
    ensures
        ({
            let outs = fed_frags(m, channel, msg_id, frag_slices(msg, mtu), order, times).1;
            &&& outs.len() == order.len()
            &&& forall|j: int| 0 <= j < order.len() - 1 ==> (#[trigger] outs[j]) is None
            &&& outs.last() == Some(msg)
        }),
{
    let key = (channel, msg_id);
    let slices = frag_slices(msg, mtu);
    if msg.len() > frag_payload(mtu) {
        pieces::lemma_piece_count_positive(msg.len() as int, frag_payload(mtu));
    }
    let k = order.len() - 1;
    lemma_prefix_fed(m, channel, msg_id, slices, order, times, k);
    assert(order.drop_last() =~= order.take(k));
    let s = advanced(fed_frags(m, channel, msg_id, slices, order.take(k), times).0, times[k]);
    pieces::lemma_arrives(slices, order, k);
    let before = pieces::arrived_in(slices, order.take(k));
    let after = pieces::arrived_in(slices, order);
    assert(order.take(k + 1) =~= order);
    if k == 0 {
        assert(order.take(0) =~= Seq::empty());
        assert(before =~= pieces::none_arrived(slices.len()));
    }
    let kept = surviving(s.frags, channel, msg_id);
    assert(with_frag(kept, key, order[k] as u16, slices.len() as u16, slices[order[k]]) == after);
    assert(after =~= pieces::filled(slices));
    if msg.len() <= frag_payload(mtu) {
        assert(pieces::filled(slices).drop_last() =~= Seq::empty());
        assert(pieces::joined(pieces::filled(slices).drop_last()) =~= Seq::<u8>::empty());
        assert(pieces::joined(pieces::filled(slices)) =~= msg);
    } else {
        pieces::lemma_joined_cut(msg, frag_payload(mtu));
    }
}

/// Where things stand on the stream and in a fragment: in front of a message its channel and its
/// length; in front of a slice the message's number, the slice's and their count; all with their
/// least significant bytes first.
pub proof fn lemma_framing_layout(
    channel: u8,
    msg: Seq<u8>,
    msg_id: u32,
    idx: u16,
    count: u16,
    slice: Seq<u8>,
)
    requires
        msg.len() <= u32::MAX,
    ensures
        ({
            let s = tcp_frame(channel, msg);
            let f = frag_bytes(msg_id, idx, count, slice);
            &&& s.len() == 5 + msg.len() && s[0] == channel && s.subrange(1, 5) == octets::le32(
                msg.len() as u32,
            ) && s.skip(5) == msg
            &&& f.len() == 8 + slice.len() && f.subrange(0, 4) == octets::le32(msg_id)
                && f.subrange(4, 6) == octets::le16(idx) && f.subrange(6, 8) == octets::le16(count)
                && f.skip(8) == slice
        }),
{
    let s = tcp_frame(channel, msg);
    let f = frag_bytes(msg_id, idx, count, slice);
    assert(s.subrange(1, 5) =~= octets::le32(msg.len() as u32));
    assert(s.skip(5) =~= msg);
    assert(f.subrange(0, 4) =~= octets::le32(msg_id));
    assert(f.subrange(4, 6) =~= octets::le16(idx));
    assert(f.subrange(6, 8) =~= octets::le16(count));
    assert(f.skip(8) =~= slice);
}

/// Of two numbers on the circle, the one that is some steps ahead is newer exactly if it is ahead,
/// and by less than half the circle.
pub proof fn lemma_newer_steps(last: u32, ahead: int)
    requires
        0 <= ahead < 0x1_0000_0000,
    ensures
        seq_newer(((last + ahead) % 0x1_0000_0000) as u32, last) <==> 0 < ahead < 0x8000_0000,
{
}

/// A fragment that arrives on one channel leaves what is held of every other channel as it was,
/// and of its own channel exactly what is held of its own message and of newer ones; and it has
/// no bearing on what was delivered in whole.
pub proof fn lemma_channels_apart(
    m: ReasmModel,
    channel: u8,
    msg_id: u32,
    idx: u16,
    count: u16,
    slice: Seq<u8>,
    key: (u8, u32),
)
    requires
        key != (channel, msg_id),
    ensures
        ({
            let after = after_frag(m, channel, msg_id, idx, count, slice).0;
            let ahead = (key.1 - msg_id) % 0x1_0000_0000;
            &&& after.frags.contains_key(key) <==> m.frags.contains_key(key) && (key.0 != channel
                || 0 < ahead < 0x8000_0000 || idx >= count)
            &&& after.frags.contains_key(key) ==> after.frags[key] == m.frags[key]
            &&& after.last == m.last
            &&& after.clock == m.clock
        }),
{
}

/// What a fragment does to its own message: it is put in its place, if that is empty; nothing else
/// held of the message changes; and when all places are taken, the message comes out, as its
/// fragments one after the other, and is no longer held. A fragment that is not one of its count,
/// or whose count is another than was told before, is dropped.
#[verifier::spinoff_prover]
#[verifier::rlimit(40)]
pub proof fn lemma_fragment_in_its_place(
    m: ReasmModel,
    channel: u8,
    msg_id: u32,
    idx: u16,
    count: u16,
    slice: Seq<u8>,
)
    ensures
        ({
            let key = (channel, msg_id);
            let (after, out) = after_frag(m, channel, msg_id, idx, count, slice);
            let held = m.frags.contains_key(key);
            let full = held && m.frags[key].parts.len() == count && forall|j: int|
                0 <= j < count && j != idx ==> (#[trigger] m.frags[key].parts[j]) is Some;
            &&& idx >= count || held && m.frags[key].parts.len() != count ==> {
                &&& out is None
                &&& after.frags.contains_key(key) == held
                &&& held ==> after.frags[key] == m.frags[key]
            }
            &&& idx < count && (held ==> m.frags[key].parts.len() == count) ==> {
                &&& out is Some <==> full || count == 1
                &&& out is Some <==> !after.frags.contains_key(key)
                &&& out is None ==> {
                    let parts = after.frags[key].parts;
                    &&& parts.len() == count
                    &&& after.frags[key].since == if held {
                        m.frags[key].since
                    } else {
                        m.clock
                    }
                    &&& parts[idx as int] == if held && m.frags[key].parts[idx as int] is Some {
                        m.frags[key].parts[idx as int]
                    } else {
                        Some(slice)
                    }
                    &&& forall|j: int|
                        0 <= j < count && j != idx ==> #[trigger] parts[j] == if held {
                            m.frags[key].parts[j]
                        } else {
                            None
                        }
                }
            }
            &&& count == 1 && idx == 0 && !held ==> out == Some(slice)
        }),
{
    let key = (channel, msg_id);
    let kept = surviving(m.frags, channel, msg_id);
    assert(kept.contains_key(key) == m.frags.contains_key(key));
    let parts = with_frag(kept, key, idx, count, slice);
    if idx < count && (kept.contains_key(key) ==> kept[key].parts.len() == count) {
        assert(parts.len() == count);
        assert(parts[idx as int] is Some);
        if !kept.contains_key(key) && count > 1 {
            let j: int = if idx == 0 {
                1
            } else {
                0
            };
            assert(parts[j] is None);
        }
        if kept.contains_key(key) {
            assert forall|j: int| 0 <= j < count && j != idx implies #[trigger] parts[j]
                == m.frags[key].parts[j] by {}
            if pieces::all_arrived(parts) {
                assert forall|j: int| 0 <= j < count && j != idx implies (
                #[trigger] m.frags[key].parts[j]) is Some by {
                    assert(parts[j] is Some);
                }
            }
        }
        if count == 1 && !kept.contains_key(key) {
            assert(parts =~= seq![Some(slice)]);
            assert(parts.drop_last() =~= Seq::empty());
            assert(pieces::joined(parts.drop_last()) =~= Seq::<u8>::empty());
            assert(pieces::joined(parts) =~= slice);
        }
    }
}

/// A fragment that arrives.
pub struct Arrival {
    pub now: u64,
    pub channel: u8,
    pub msg_id: u32,
    pub idx: u16,
    pub count: u16,
    pub slice: Seq<u8>,
}

/// A receiver after fragments of whatever messages have arrived, and what came out with each.
pub open spec fn fed_mixed(m: ReasmModel, ds: Seq<Arrival>) -> (ReasmModel, Seq<Option<Seq<u8>>>)
    decreases ds.len(),
{
    if ds.len() == 0 {
        (m, Seq::empty())
    } else {
        let before = fed_mixed(m, ds.drop_last());
        let d = ds.last();
        let (after, out) = after_frag(
            advanced(before.0, d.now),
            d.channel,
            d.msg_id,
            d.idx,
            d.count,
            d.slice,
        );
        (after, before.1.push(out))
    }
}

/// How many of the fragments are of the message `msg_id` on `channel`.
pub open spec fn count_of(ds: Seq<Arrival>, channel: u8, msg_id: u32) -> nat
    decreases ds.len(),
{
    if ds.len() == 0 {
        0
    } else {
        count_of(ds.drop_last(), channel, msg_id) + if ds.last().channel == channel
            && ds.last().msg_id == msg_id {
            1nat
        } else {
            0nat
        }
    }
}

/// Whether what arrives are the slices of one message in the given order, and between them
/// fragments of other channels, and of messages before it on its own.
pub open spec fn mixed_in(
    ds: Seq<Arrival>,
    channel: u8,
    msg_id: u32,
    slices: Seq<Seq<u8>>,
    order: Seq<int>,
) -> bool {
    forall|i: int|
        0 <= i < ds.len() ==> {
            let d = #[trigger] ds[i];
            if d.channel == channel && d.msg_id == msg_id {
                let k = count_of(ds.take(i), channel, msg_id) as int;
                &&& k < order.len()
                &&& d.idx == order[k]
                &&& d.count == slices.len()
                &&& d.slice == slices[order[k]]
            } else {
                d.channel != channel || 0 < (msg_id - d.msg_id) % 0x1_0000_0000 < 0x8000_0000
            }
        }
}

/// Whether everything arrives while the first fragment of the message waits for the others.
pub open spec fn all_in_time(ds: Seq<Arrival>, channel: u8, msg_id: u32, first: u64) -> bool {
    forall|i: int|
        0 <= i < ds.len() ==> {
            let d = #[trigger] ds[i];
            let k = count_of(ds.take(i), channel, msg_id);
            &&& k > 0 ==> d.now <= first + FRAG_LIFETIME
            &&& k == 0 && d.channel == channel && d.msg_id == msg_id ==> d.now == first
        }
}

#[verifier::spinoff_prover]
#[verifier::rlimit(40)]
proof fn lemma_mixed_prefix(
    m: ReasmModel,
    ds: Seq<Arrival>,
    channel: u8,
    msg_id: u32,
    slices: Seq<Seq<u8>>,
    order: Seq<int>,
    first: u64,
    n: int,
)
    requires
        !m.frags.contains_key((channel, msg_id)),
        slices.len() <= 0xFFFF,
        pieces::completing(order, slices.len() as int),
        mixed_in(ds, channel, msg_id, slices, order),
        all_in_time(ds, channel, msg_id, first),
        0 <= n <= ds.len(),
        count_of(ds.take(n), channel, msg_id) < order.len(),
    ensures
        ({
            let (s, outs) = fed_mixed(m, ds.take(n));
            let k = count_of(ds.take(n), channel, msg_id) as int;
            &&& outs.len() == n
            &&& forall|j: int|
                0 <= j < n && ds[j].channel == channel && ds[j].msg_id == msg_id ==> (
                #[trigger] outs[j]) is None
            &&& k == 0 ==> !s.frags.contains_key((channel, msg_id))
            &&& k > 0 ==> s.frags.contains_key((channel, msg_id)) && s.frags[(channel, msg_id)]
                == (FragModel {
                since: first,
                parts: pieces::arrived_in(slices, order.take(k)),
            })
        }),
    decreases n,
{
    let key = (channel, msg_id);
    if n > 0 {
        let d = ds[n - 1];
        let all = ds.take(n);
        assert(all.drop_last() =~= ds.take(n - 1));
        assert(all.last() == d);
        let k = count_of(ds.take(n - 1), channel, msg_id) as int;
        lemma_mixed_prefix(m, ds, channel, msg_id, slices, order, first, n - 1);
        let before = fed_mixed(m, ds.take(n - 1));
        let s = advanced(before.0, d.now);
        assert(s.frags.contains_key(key) == before.0.frags.contains_key(key));
        let (after, out) = after_frag(s, d.channel, d.msg_id, d.idx, d.count, d.slice);
        if d.channel == channel && d.msg_id == msg_id {
            pieces::lemma_arrives(slices, order, k);
            let had = pieces::arrived_in(slices, order.take(k));
            let has = pieces::arrived_in(slices, order.take(k + 1));
            if k == 0 {
                assert(order.take(0) =~= Seq::empty());
                assert(had =~= pieces::none_arrived(slices.len()));
            }
            let kept = surviving(s.frags, channel, msg_id);
            assert(with_frag(kept, key, d.idx, d.count, d.slice) == has);
            pieces::lemma_not_complete(slices, order, k + 1);
            assert(after.frags[key] == FragModel { since: first, parts: has });
        } else {
            lemma_channels_apart(s, d.channel, d.msg_id, d.idx, d.count, d.slice, key);
        }
        let outs = fed_mixed(m, all).1;
        assert forall|j: int|
            0 <= j < n && ds[j].channel == channel && ds[j].msg_id == msg_id implies (
        #[trigger] outs[j]) is None by {
            if j < n - 1 {
                assert(outs[j] == before.1[j]);
            }
        }
    }
}

/// A message that was sent in fragments comes out whole, whatever fragments of other channels and
/// of earlier messages arrive between its own, in whatever order its own arrive and however often:
/// it comes with the one that completes it, and with none before that.
#[verifier::spinoff_prover]
#[verifier::rlimit(40)]
pub proof fn lemma_reassembled_among_others(
    m: ReasmModel,
    ds: Seq<Arrival>,
    channel: u8,
    msg_id: u32,
    msg: Seq<u8>,
    mtu: int,
    order: Seq<int>,
    first: u64,
)
    requires
        !m.frags.contains_key((channel, msg_id)),
        frag_slices(msg, mtu).len() <= 0xFFFF,
        pieces::completing(order, frag_slices(msg, mtu).len() as int),
        mixed_in(ds, channel, msg_id, frag_slices(msg, mtu), order),
        all_in_time(ds, channel, msg_id, first),
        count_of(ds, channel, msg_id) == order.len(),
        ds.last().channel == channel,
        ds.last().msg_id == msg_id,
    ensures
        ({
            let outs = fed_mixed(m, ds).1;
            &&& outs.len() == ds.len()
            &&& outs.last() == Some(msg)
            &&& forall|j: int|
                0 <= j < ds.len() - 1 && ds[j].channel == channel && ds[j].msg_id == msg_id ==> (
                #[trigger] outs[j]) is None
        }),
{
    let key = (channel, msg_id);
    let slices = frag_slices(msg, mtu);
    let n = ds.len() - 1;
    let d = ds[n];
    let k = order.len() - 1;
    if msg.len() > frag_payload(mtu) {
        pieces::lemma_piece_count_positive(msg.len() as int, frag_payload(mtu));
    }
    assert(ds.drop_last() =~= ds.take(n));
    lemma_mixed_prefix(m, ds, channel, msg_id, slices, order, first, n);
    let before = fed_mixed(m, ds.take(n));
    let s = advanced(before.0, d.now);
    assert(s.frags.contains_key(key) == before.0.frags.contains_key(key));
    pieces::lemma_arrives(slices, order, k);
    let had = pieces::arrived_in(slices, order.take(k));
    let has = pieces::arrived_in(slices, order);
    assert(order.take(k + 1) =~= order);
    if k == 0 {
        assert(order.take(0) =~= Seq::empty());
        assert(had =~= pieces::none_arrived(slices.len()));
    }
    let kept = surviving(s.frags, channel, msg_id);
    assert(with_frag(kept, key, d.idx, d.count, d.slice) == has);
    assert(has =~= pieces::filled(slices));
    if msg.len() <= frag_payload(mtu) {
        assert(pieces::filled(slices).drop_last() =~= Seq::empty());
        assert(pieces::joined(pieces::filled(slices).drop_last()) =~= Seq::<u8>::empty());
        assert(pieces::joined(pieces::filled(slices)) =~= msg);
    } else {
        pieces::lemma_joined_cut(msg, frag_payload(mtu));
    }
    let outs = fed_mixed(m, ds).1;
    assert forall|j: int|
        0 <= j < n && ds[j].channel == channel && ds[j].msg_id == msg_id implies (
    #[trigger] outs[j]) is None by {
        assert(outs[j] == before.1[j]);
    }
}

/// Which messages that come whole are delivered: of audio all; of any other channel the first of
/// its window, and then each that is newer than the newest delivered of that channel and window,
/// a window being told by the four bytes behind the message's first four.
pub proof fn lemma_newest_delivered(m: ReasmModel, channel: u8, seq: u32, msg: Seq<u8>)
    ensures
        ({
            let window: u32 = if channel == 200 || msg.len() < 8 {
                0
            } else {
                (msg[4] + 0x100 * msg[5] + 0x1_0000 * msg[6] + 0x100_0000 * msg[7]) as u32
            };
            let key = (channel, window);
            let ahead = (seq - m.last[key]) % 0x1_0000_0000;
            let fresh = data_fresh(m, channel, seq, msg);
            let after = after_data(m, channel, seq, msg);
            &&& fresh <==> channel == 200 || !m.last.contains_key(key) || 0 < ahead < 0x8000_0000
            &&& channel != 200 && fresh ==> after.last.contains_key(key) && after.last[key] == seq
            &&& channel == 200 || !fresh ==> after == m
            &&& forall|k: (u8, u32)|
                k != key ==> (#[trigger] after.last.contains_key(k)) == m.last.contains_key(k) && (
                m.last.contains_key(k) ==> after.last[k] == m.last[k])
            &&& after.frags == m.frags
        }),
{
}

/// Which messages ride datagrams: on the texture channels, which are those from two to nine, and on
/// the audio channel all; on the input channel those whose opcode has its top bit set; on the
/// control and metadata channels, and on any other, none.
pub proof fn lemma_datagram_channels(channel: u8, first_op: u8)
    ensures
        2 <= channel <= 9 || channel == 200 ==> rides_udp(channel, first_op),
        channel == 1 ==> (rides_udp(channel, first_op) <==> first_op & 0x80 != 0),
        channel == 0 || 10 <= channel < 200 || channel > 200 ==> !rides_udp(channel, first_op),
{
    assert((first_op & 0x80u8 != 0) == (first_op >= 0x80u8)) by (bit_vector);
}

/// The slices of a message, one after the other, are the message, and none but that of an empty
/// message is empty.
pub proof fn lemma_slices_make_the_message(msg: Seq<u8>, mtu: int, i: int)
    requires
        0 <= i < frag_slices(msg, mtu).len(),
    ensures
        pieces::joined(pieces::filled(frag_slices(msg, mtu))) == msg,
        msg.len() > 0 ==> frag_slices(msg, mtu)[i].len() > 0,
{
    let slices = frag_slices(msg, mtu);
    if msg.len() <= frag_payload(mtu) {
        assert(pieces::filled(slices).drop_last() =~= Seq::empty());
        assert(pieces::joined(pieces::filled(slices).drop_last()) =~= Seq::<u8>::empty());
        assert(pieces::joined(pieces::filled(slices)) =~= msg);
    } else {
        let size = frag_payload(mtu);
        pieces::lemma_joined_cut(msg, size);
        pieces::lemma_piece_bounds(msg.len() as int, size, i);
        assert(i * size < (i + 1) * size) by (nonlinear_arith)
            requires
                0 < size,
        ;
    }
}

struct FragSet {
    channel: u8,
    msg_id: u32,
    since: u64,
    pieces: Pieces,
}

impl FragSet {
    spec fn entry(self) -> ((u8, u32), FragModel) {
        ((self.channel, self.msg_id), FragModel { since: self.since, parts: self.pieces@ })
    }
}

spec fn entries(sets: Seq<FragSet>) -> Seq<((u8, u32), FragModel)> {
    Seq::new(sets.len(), |i: int| sets[i].entry())
}

/// A channel and a window as one number.
spec fn packed(key: (u8, u32)) -> u64 {
    (key.0 * 0x1_0000_0000 + key.1) as u64
}

/// Latest-wins delivery and fragment reassembly, by channel and window.
pub struct UdpReasm {
    last_seq: HashMap<u64, u32>,
    frags: Vec<FragSet>,
    clock: u64,
}

impl View for UdpReasm {
    type V = ReasmModel;

    closed spec fn view(&self) -> ReasmModel {
        ReasmModel {
            last: Map::new(
                |k: (u8, u32)| self.last_seq@.contains_key(packed(k)),
                |k: (u8, u32)| self.last_seq@[packed(k)],
            ),
            frags: assoc::to_map(entries(self.frags@)),
            clock: self.clock,
        }
    }
}

impl Default for UdpReasm {
    fn default() -> (r: Self)
        ensures
            r.wf(),
            r@ == (ReasmModel { last: Map::empty(), frags: Map::empty(), clock: 0 }),
    {
        let r = UdpReasm { last_seq: HashMap::new(), frags: Vec::new(), clock: 0 };
        proof {
            assoc::lemma_empty::<(u8, u32), FragModel>();
            assert(entries(r.frags@) =~= Seq::empty());
            assert(r@.last =~= Map::empty());
        }
        r
    }
}

impl UdpReasm {
    /// What holds of every receiver: the fragments of each message stand once.
    pub closed spec fn wf(&self) -> bool {
        &&& assoc::distinct(entries(self.frags@))
        &&& forall|i: int| 0 <= i < self.frags@.len() ==> (#[trigger] self.frags@[i]).pieces.wf()
    }

    fn newer(seq: u32, last: u32) -> (r: bool)
        ensures
            r == seq_newer(seq, last),
    {
        let d: u32 = seq.wrapping_sub(last);
        seq != last && d < 0x8000_0000
    }

    /// Hands the message on if it is fresh; an outdated one is dropped.
    pub fn on_data(&mut self, channel: u8, seq: u32, msg: Vec<u8>) -> (r: Option<Vec<u8>>)
        requires
            old(self).wf(),
        ensures
            final(self).wf(),
            final(self)@ == after_data(old(self)@, channel, seq, msg@),
            r == if data_fresh(old(self)@, channel, seq, msg@) {
                Some(msg)
            } else {
                None
            },
    {
        let window = window_key(channel, msg.as_slice());
        if channel == CH_AUDIO {
            return Some(msg);
        }
        let ghost key = (channel, window);
        let slot: u64 = channel as u64 * 0x1_0000_0000 + window as u64;
        assert(slot == packed(key));
        if let Some(last) = self.last_seq.get(&slot) {
            if !Self::newer(seq, *last) {
                return None;
            }
        }
        self.last_seq.insert(slot, seq);
        proof {
            assert forall|k: (u8, u32)| packed(k) == slot implies k == key by {
                assert(k.0 * 0x1_0000_0000 + k.1 == key.0 * 0x1_0000_0000 + key.1);
            }
            assert(self@.last =~= old(self)@.last.insert(key, seq));
            assert(self@.frags =~= old(self)@.frags);
        }
        Some(msg)
    }

    /// Is told what time it is, and drops the fragments that have waited too long.
    pub fn advance(&mut self, now: u64)
        requires
            old(self).wf(),
        ensures
            final(self).wf(),
            final(self)@ == advanced(old(self)@, now),
    {
        let ghost before = self@.frags;
        let mut i: usize = 0;
        self.clock = now;
        assert(self@.frags =~= before);
        while i < self.frags.len()
            invariant
                self.wf(),
                self@.last == old(self)@.last,
                self@.clock == now,
                before == old(self)@.frags,
                i <= self.frags@.len(),
                forall|k: (u8, u32)|
                    #![trigger self@.frags.contains_key(k)]
                    self@.frags.contains_key(k) ==> before.contains_key(k) && self@.frags[k]
                        == before[k],
                forall|k: (u8, u32)|
                    #![trigger self@.frags.contains_key(k)]
                    before.contains_key(k) && !expired(before[k].since, now)
                        ==> self@.frags.contains_key(k),
                forall|j: int|
                    0 <= j < i ==> !expired((#[trigger] entries(self.frags@)[j]).1.since, now),
            decreases self.frags@.len() - i,
        {
            let ghost list = entries(self.frags@);
            if now.saturating_sub(self.frags[i].since) <= FRAG_LIFETIME {
                assert(list[i as int].1.since == self.frags@[i as int].since);
                i = i + 1;
            } else {
                let ghost frags = self@.frags;
                let ghost key = list[i as int].0;
                proof {
                    assoc::lemma_entry(list, i as int);
                    assert(frags.contains_key(key) && frags[key] == list[i as int].1);
                }
                self.frags.remove(i);
                proof {
                    assoc::lemma_remove(list, i as int);
                    assert(entries(self.frags@) =~= list.remove(i as int));
                    assert(self@.frags == frags.remove(key));
                    assert forall|j: int| 0 <= j < i implies !expired(
                        (#[trigger] entries(self.frags@)[j]).1.since,
                        now,
                    ) by {
                        assert(entries(self.frags@)[j] == list[j]);
                    }
                    assert(self@.last =~= old(self)@.last);
                }
            }
        }
        proof {
            let left = self@.frags;
            assert forall|k: (u8, u32)| left.contains_key(k) implies !expired(
                before[k].since,
                now,
            ) by {
                let j = assoc::lemma_key(entries(self.frags@), k);
                assoc::lemma_entry(entries(self.frags@), j);
                assert(!expired(entries(self.frags@)[j].1.since, now));
            }
            assert(left =~= advanced(old(self)@, now).frags);
        }
    }

    /// Drops the fragments that message `msg_id` of `channel` supersedes.
    fn supersede(&mut self, channel: u8, msg_id: u32)
        requires
            old(self).wf(),
        ensures
            final(self).wf(),
            final(self)@.last == old(self)@.last,
            final(self)@.clock == old(self)@.clock,
            final(self)@.frags == surviving(old(self)@.frags, channel, msg_id),
    {
        let ghost before = self@.frags;
        let mut i: usize = 0;
        while i < self.frags.len()
            invariant
                self.wf(),
                self@.last == old(self)@.last,
                self@.clock == old(self)@.clock,
                before == old(self)@.frags,
                i <= self.frags@.len(),
                forall|k: (u8, u32)|
                    #![trigger self@.frags.contains_key(k)]
                    self@.frags.contains_key(k) ==> before.contains_key(k) && self@.frags[k]
                        == before[k],
                forall|k: (u8, u32)|
                    #![trigger self@.frags.contains_key(k)]
                    before.contains_key(k) && outlives(k, channel, msg_id)
                        ==> self@.frags.contains_key(k),
                forall|j: int|
                    0 <= j < i ==> outlives(
                        (#[trigger] entries(self.frags@)[j]).0,
                        channel,
                        msg_id,
                    ),
            decreases self.frags@.len() - i,
        {
            let c = self.frags[i].channel;
            let m = self.frags[i].msg_id;
            if c != channel || m == msg_id || Self::newer(m, msg_id) {
                assert(entries(self.frags@)[i as int].0 == (c, m));
                i = i + 1;
            } else {
                let ghost list = entries(self.frags@);
                let ghost frags = self@.frags;
                self.frags.remove(i);
                proof {
                    assoc::lemma_remove(list, i as int);
                    assert(entries(self.frags@) =~= list.remove(i as int));
                    assert(list[i as int].0 == (c, m));
                    assert(self@.frags == frags.remove((c, m)));
                    assert forall|j: int| 0 <= j < i implies outlives(
                        (#[trigger] entries(self.frags@)[j]).0,
                        channel,
                        msg_id,
                    ) by {
                        assert(entries(self.frags@)[j] == list[j]);
                    }
                    assert(self@.last =~= old(self)@.last);
                }
            }
        }
        proof {
            let now = self@.frags;
            assert forall|k: (u8, u32)| now.contains_key(k) implies outlives(k, channel, msg_id) by {
                let j = assoc::lemma_key(entries(self.frags@), k);
                assert(outlives(entries(self.frags@)[j].0, channel, msg_id));
            }
            assert(now =~= surviving(before, channel, msg_id));
        }
    }

    fn find(&self, channel: u8, msg_id: u32) -> (i: usize)
        requires
            self.wf(),
        ensures
            i <= self.frags@.len(),
            i < self.frags@.len() ==> entries(self.frags@)[i as int].0 == (channel, msg_id),
            i < self.frags@.len() <==> self@.frags.contains_key((channel, msg_id)),
    {
        let mut i: usize = 0;
        while i < self.frags.len()
            invariant
                self.wf(),
                i <= self.frags@.len(),
                forall|j: int|
                    0 <= j < i ==> (#[trigger] entries(self.frags@)[j]).0 != (channel, msg_id),
            decreases self.frags@.len() - i,
        {
            if self.frags[i].channel == channel && self.frags[i].msg_id == msg_id {
                proof {
                    assert(entries(self.frags@)[i as int].0 == (channel, msg_id));
                    assoc::lemma_entry(entries(self.frags@), i as int);
                }
                return i;
            }
            assert(entries(self.frags@)[i as int].0 != (channel, msg_id));
            i = i + 1;
        }
        proof {
            assoc::lemma_absent(entries(self.frags@), (channel, msg_id));
        }
        i
    }

    /// Takes in one fragment. Gives out the message when its last piece lands.
    pub fn on_frag(
        &mut self,
        channel: u8,
        msg_id: u32,
        idx: u16,
        count: u16,
        slice: &[u8],
    ) -> (r: Option<Vec<u8>>)
        requires
            old(self).wf(),
        ensures
            final(self).wf(),
            final(self)@ == after_frag(old(self)@, channel, msg_id, idx, count, slice@).0,
            r is Some <==> after_frag(old(self)@, channel, msg_id, idx, count, slice@).1 is Some,
            r matches Some(m) ==> after_frag(old(self)@, channel, msg_id, idx, count, slice@).1
                == Some(m@),
    {
        if idx >= count {
            return None;
        }
        self.supersede(channel, msg_id);
        let ghost kept = self@.frags;
        let ghost key = (channel, msg_id);
        let ghost parts = with_frag(kept, key, idx, count, slice@);
        let i = self.find(channel, msg_id);
        let ghost list0 = entries(self.frags@);
        if i == self.frags.len() {
            let since = self.clock;
            self.frags.push(
                FragSet { channel, msg_id, since, pieces: Pieces::new(count as usize) },
            );
            proof {
                let none = FragModel { since, parts: pieces::none_arrived(count as nat) };
                assoc::lemma_push(list0, key, none);
                assert(entries(self.frags@) =~= list0.push((key, none)));
            }
        } else {
            proof {
                assoc::lemma_entry(list0, i as int);
            }
            if self.frags[i].pieces.count() != count as usize {
                assert(self@ =~= after_frag(old(self)@, channel, msg_id, idx, count, slice@).0);
                return None;
            }
        }
        let ghost list1 = entries(self.frags@);
        assert(list1[i as int].0 == key);
        self.frags[i].pieces.put(idx as usize, vstd::slice::slice_to_vec(slice));
        proof {
            let held = FragModel { since: list1[i as int].1.since, parts };
            assoc::lemma_update(list1, i as int, held);
            assert(entries(self.frags@) =~= list1.update(i as int, (key, held)));
            assert(self@.frags =~= kept.insert(key, held));
        }
        if self.frags[i].pieces.complete() {
            let ghost list2 = entries(self.frags@);
            let set = self.frags.remove(i);
            proof {
                assoc::lemma_remove(list2, i as int);
                assert(entries(self.frags@) =~= list2.remove(i as int));
                assert(self@.frags =~= kept.remove(key));
                assert(self@ =~= after_frag(old(self)@, channel, msg_id, idx, count, slice@).0);
            }
            Some(set.pieces.join())
        } else {
            assert(self@ =~= after_frag(old(self)@, channel, msg_id, idx, count, slice@).0);
            None
        }
    }
}

} // verus!
