//! What one end of a session sends and what it makes of what it receives, between the sockets.
use crate::octets::{self, copy_range, get_le32, push_all, push_le32};
use crate::pieces;
use crate::primitives::MAX_SEALED;
use crate::session::crypto::{
    self, DatagramKey, RecordKey, RecordModel, Session, TAG,
};
use crate::session::wire::{
    self, frag_body, fragment, frame_tcp, is_udp, parse_frag, parse_tcp, ReasmModel, UdpReasm,
    DT_DATA, DT_FRAG, DT_HELLO, DT_PING, DT_PONG,
};
use vstd::prelude::*;

verus! {

/// How long, in milliseconds, an end sends nothing before it asks whether the other is there.
pub const PING_IDLE: u64 = 2000;

/// How long, in milliseconds, an end hears nothing before it takes the other for dead.
pub const DEAD_AFTER: u64 = 7000;

/// The bytes before what is sealed in a datagram: its type, its channel and its number.
pub const DATAGRAM_HEADER_LEN: usize = 6;

/// The channel that pings and their answers ride.
pub const CH_KEEPALIVE: u8 = 0xFE;

/// One end of a session, without its sockets.
pub struct SessionCore {
    pub tx: RecordKey,
    pub rx: RecordKey,
    pub udp_tx: DatagramKey,
    pub udp_rx: DatagramKey,
    pub session_id: [u8; 16],
    /// Whether the address of the other end's datagrams is known for certain.
    pub peer_bound: bool,
    /// What has come over the stream and is not yet a whole record.
    pub rx_buf: Vec<u8>,
    pub seq_tx: u32,
    pub msg_id_tx: u32,
    pub reasm: UdpReasm,
    pub mtu: usize,
    pub last_rx: u64,
    pub last_ping: u64,
    pub last_tx: u64,
    pub alive: bool,
}

/// What one end of a session is made of.
#[verifier::ext_equal]
pub struct SessionModel {
    pub tx: RecordModel,
    pub rx: RecordModel,
    pub udp_tx: Seq<u8>,
    pub udp_rx: Seq<u8>,
    pub session_id: Seq<u8>,
    pub peer_bound: bool,
    pub rx_buf: Seq<u8>,
    pub seq_tx: u32,
    pub msg_id_tx: u32,
    pub reasm: ReasmModel,
    pub mtu: usize,
    pub last_rx: u64,
    pub last_ping: u64,
    pub last_tx: u64,
    pub alive: bool,
}

impl View for SessionCore {
    type V = SessionModel;

    open spec fn view(&self) -> SessionModel {
        SessionModel {
            tx: self.tx@,
            rx: self.rx@,
            udp_tx: self.udp_tx@,
            udp_rx: self.udp_rx@,
            session_id: self.session_id@,
            peer_bound: self.peer_bound,
            rx_buf: self.rx_buf@,
            seq_tx: self.seq_tx,
            msg_id_tx: self.msg_id_tx,
            reasm: self.reasm@,
            mtu: self.mtu,
            last_rx: self.last_rx,
            last_ping: self.last_ping,
            last_tx: self.last_tx,
            alive: self.alive,
        }
    }
}

/// What an end has to write for one message.
#[derive(Debug)]
pub enum Outgoing {
    /// These bytes, on the stream.
    Record(Vec<u8>),
    /// Each of these, as a datagram.
    Datagrams(Vec<Vec<u8>>),
}

/// What an end has to do about a datagram that came.
#[derive(Debug)]
pub struct Received {
    /// Whether to send to the address that the datagram came from, from now on.
    pub bind: bool,
    /// The message that came with it, and its channel.
    pub message: Option<(u8, Vec<u8>)>,
}

/// The number after `x`, on a circle of 2^32 numbers.
pub open spec fn after(x: u32, n: int) -> u32 {
    ((x + n) % 0x1_0000_0000) as u32
}

/// The bytes that put a message on the stream: the length of the sealed record, and the record.
pub open spec fn record_bytes(tx: RecordModel, channel: u8, msg: Seq<u8>) -> Seq<u8> {
    let ct = crypto::record_sealed(tx, wire::tcp_frame(channel, msg));
    octets::le32((ct.len() % 0x1_0000_0000) as u32) + ct
}

/// A datagram: its type, its channel and its number in clear, and its content sealed.
pub open spec fn datagram_bytes(
    key: Seq<u8>,
    dtype: u8,
    channel: u8,
    seq: u32,
    content: Seq<u8>,
) -> Seq<u8> {
    seq![dtype, channel] + octets::le32(seq) + crypto::datagram_sealed(
        key,
        dtype,
        channel,
        seq,
        content,
    )
}

/// What a datagram of `mtu` bytes leaves for what is sealed in it.
pub open spec fn room(mtu: int) -> int {
    if mtu > DATAGRAM_HEADER_LEN {
        mtu - DATAGRAM_HEADER_LEN
    } else {
        0
    }
}

/// The datagram with the fragment numbered `i` of a message.
pub open spec fn frag_datagram(m: SessionModel, channel: u8, msg: Seq<u8>, i: int) -> Seq<u8> {
    let slices = wire::frag_slices(msg, room(m.mtu as int));
    datagram_bytes(
        m.udp_tx,
        DT_FRAG,
        channel,
        after(m.seq_tx, 1 + i),
        wire::frag_bytes(
            m.msg_id_tx,
            (i % 0x1_0000) as u16,
            (slices.len() % 0x1_0000) as u16,
            slices[i],
        ),
    )
}

/// The datagrams that carry a message: one where it fits, and else one for each fragment.
pub open spec fn message_datagrams(m: SessionModel, channel: u8, msg: Seq<u8>) -> Seq<Seq<u8>> {
    let slices = wire::frag_slices(msg, room(m.mtu as int));
    if slices.len() == 1 {
        seq![datagram_bytes(m.udp_tx, DT_DATA, channel, m.seq_tx, msg)]
    } else {
        Seq::new(slices.len(), |i: int| frag_datagram(m, channel, msg, i))
    }
}

/// What the datagrams that carry a message hold, once opened.
pub open spec fn message_contents(m: SessionModel, msg: Seq<u8>) -> Seq<Seq<u8>> {
    let slices = wire::frag_slices(msg, room(m.mtu as int));
    if slices.len() == 1 {
        seq![msg]
    } else {
        Seq::new(
            slices.len(),
            |i: int|
                wire::frag_bytes(
                    m.msg_id_tx,
                    (i % 0x1_0000) as u16,
                    (slices.len() % 0x1_0000) as u16,
                    slices[i],
                ),
        )
    }
}

/// Whether an end that opens datagrams with `key` reads `content` in the datagram `dg`.
#[verifier::opaque]
pub open spec fn reads(key: Seq<u8>, dg: Seq<u8>, content: Seq<u8>) -> bool {
    &&& dg.len() == DATAGRAM_HEADER_LEN + content.len() + TAG
    &&& crypto::datagram_opened(key, dg[0], dg[1], octets::le32_at(dg, 2), dg.skip(6)) == Some(
        content,
    )
}

/// Whether an end that opens datagrams with the key that `m` seals them with reads what the
/// datagrams of a message hold.
pub open spec fn readable(m: SessionModel, channel: u8, msg: Seq<u8>) -> bool {
    forall|i: int|
        0 <= i < message_datagrams(m, channel, msg).len() ==> reads(
            m.udp_tx,
            #[trigger] message_datagrams(m, channel, msg)[i],
            message_contents(m, msg)[i],
        )
}

/// An end after it has put a message into datagrams.
pub open spec fn after_datagrams(m: SessionModel, msg: Seq<u8>) -> SessionModel {
    let slices = wire::frag_slices(msg, room(m.mtu as int));
    if slices.len() == 1 {
        SessionModel { seq_tx: after(m.seq_tx, 1), ..m }
    } else {
        SessionModel {
            seq_tx: after(m.seq_tx, 1 + slices.len() as int),
            msg_id_tx: after(m.msg_id_tx, 1),
            ..m
        }
    }
}

/// What the records at the front of what came over the stream hold: the key after them, what
/// is left, the messages, how many pings, and whether all of them opened.
#[verifier::ext_equal]
pub struct RecordsModel {
    pub rx: RecordModel,
    pub rest: Seq<u8>,
    pub messages: Seq<(u8, Seq<u8>)>,
    pub pings: nat,
    pub intact: bool,
}

/// The length of the record at the front of `buf`, with the four bytes that tell it.
pub open spec fn record_len(buf: Seq<u8>) -> int {
    4 + octets::le32_at(buf, 0)
}

/// Whether a whole record is at the front of `buf`.
pub open spec fn has_record(buf: Seq<u8>) -> bool {
    buf.len() >= 4 && buf.len() >= record_len(buf)
}

/// Whether a record holds a whole framed message.
pub open spec fn is_framed(frame: Seq<u8>) -> bool {
    frame.len() >= 5 && frame.len() >= 5 + wire::tcp_frame_len(frame)
}

/// The message that a record holds, and its channel.
pub open spec fn framed_message(frame: Seq<u8>) -> (u8, Seq<u8>) {
    (frame[0], frame.subrange(5, 5 + wire::tcp_frame_len(frame)))
}

/// The messages for the application that a record holds: none where it holds no whole message
/// or one between the two ends.
pub open spec fn delivered(frame: Seq<u8>) -> Seq<(u8, Seq<u8>)> {
    if is_framed(frame) && framed_message(frame).0 != CH_KEEPALIVE {
        seq![framed_message(frame)]
    } else {
        Seq::empty()
    }
}

/// Whether a record holds a ping.
pub open spec fn is_ping(frame: Seq<u8>) -> bool {
    let (channel, msg) = framed_message(frame);
    is_framed(frame) && channel == CH_KEEPALIVE && msg.len() > 0 && msg[0] == DT_PING
}

/// What the records at the front of `buf` hold. One that does not open ends it.
pub open spec fn records(rx: RecordModel, buf: Seq<u8>) -> RecordsModel
    decreases buf.len(),
{
    if !has_record(buf) {
        RecordsModel { rx, rest: buf, messages: Seq::empty(), pings: 0, intact: true }
    } else {
        let ct = buf.subrange(4, record_len(buf));
        let rest = buf.skip(record_len(buf));
        match crypto::record_opened(rx, ct) {
            None => RecordsModel { rx, rest, messages: Seq::empty(), pings: 0, intact: false },
            Some(frame) => {
                let later = records(crypto::next_record(rx), rest);
                RecordsModel {
                    messages: delivered(frame) + later.messages,
                    pings: later.pings + if is_ping(frame) {
                        1nat
                    } else {
                        0nat
                    },
                    ..later
                }
            },
        }
    }
}

/// The messages in `v`, by their bytes.
pub open spec fn contents(v: Seq<(u8, Vec<u8>)>) -> Seq<(u8, Seq<u8>)> {
    v.map_values(|p: (u8, Vec<u8>)| (p.0, p.1@))
}

/// What a datagram opens to.
pub open spec fn datagram_content(m: SessionModel, dg: Seq<u8>) -> Option<Seq<u8>> {
    if dg.len() < 6 {
        None
    } else {
        crypto::datagram_opened(m.udp_rx, dg[0], dg[1], octets::le32_at(dg, 2), dg.skip(6))
    }
}

/// What the receiver of datagrams holds after the content of one, and the message that came
/// out.
pub open spec fn content_taken(
    reasm: ReasmModel,
    dtype: u8,
    channel: u8,
    seq: u32,
    content: Seq<u8>,
) -> (ReasmModel, Option<Seq<u8>>) {
    if dtype == DT_DATA {
        (
            wire::after_data(reasm, channel, seq, content),
            if wire::data_fresh(reasm, channel, seq, content) {
                Some(content)
            } else {
                None
            },
        )
    } else if dtype == DT_FRAG && content.len() >= 8 {
        wire::after_frag(
            reasm,
            channel,
            octets::le32_at(content, 0),
            octets::le16_at(content, 4),
            octets::le16_at(content, 6),
            content.skip(8),
        )
    } else {
        (reasm, None)
    }
}

/// An end after a datagram came: one that does not open changes nothing.
pub open spec fn after_datagram(m: SessionModel, dg: Seq<u8>, now: u64) -> SessionModel {
    match datagram_content(m, dg) {
        None => m,
        Some(content) => SessionModel {
            peer_bound: true,
            last_rx: now,
            reasm: content_taken(
                wire::advanced(m.reasm, now),
                dg[0],
                dg[1],
                octets::le32_at(dg, 2),
                content,
            ).0,
            ..m
        },
    }
}

/// The message that comes with a datagram.
pub open spec fn datagram_message(m: SessionModel, dg: Seq<u8>, now: u64) -> Option<
    (u8, Seq<u8>),
> {
    match datagram_content(m, dg) {
        None => None,
        Some(content) => match content_taken(
            wire::advanced(m.reasm, now),
            dg[0],
            dg[1],
            octets::le32_at(dg, 2),
            content,
        ).1 {
            Some(msg) => Some((dg[1], msg)),
            None => None,
        },
    }
}

proof fn lemma_datagram_header(
    key: Seq<u8>,
    dtype: u8,
    channel: u8,
    seq: u32,
    content: Seq<u8>,
)
    ensures
        ({
            let dg = datagram_bytes(key, dtype, channel, seq, content);
            &&& dg.len() >= 6
            &&& dg[0] == dtype
            &&& dg[1] == channel
            &&& octets::le32_at(dg, 2) == seq
            &&& dg.skip(6) == crypto::datagram_sealed(key, dtype, channel, seq, content)
        }),
{
    let dg = datagram_bytes(key, dtype, channel, seq, content);
    assert(dg.subrange(2, 6) =~= octets::le32(seq));
    octets::lemma_le32_at(dg, 2, seq);
    assert(dg.skip(6) =~= crypto::datagram_sealed(key, dtype, channel, seq, content));
}

/// A message that fits in one datagram comes out of it at the other end, unless a later one
/// of its window has come before.
pub proof fn lemma_datagram_delivered(
    s: SessionModel,
    m: SessionModel,
    channel: u8,
    msg: Seq<u8>,
    now: u64,
)
    requires
        m.udp_rx == s.udp_tx,
        wire::frag_slices(msg, room(s.mtu as int)).len() == 1,
        readable(s, channel, msg),
    ensures
        message_datagrams(s, channel, msg).len() == 1,
        datagram_message(m, message_datagrams(s, channel, msg)[0], now) == (if wire::data_fresh(
            m.reasm,
            channel,
            s.seq_tx,
            msg,
        ) {
            Some((channel, msg))
        } else {
            None
        }),
{
    reveal(reads);
    lemma_datagram_header(s.udp_tx, DT_DATA, channel, s.seq_tx, msg);
    assert(reads(s.udp_tx, message_datagrams(s, channel, msg)[0], msg));
}

proof fn lemma_reads_len(key: Seq<u8>, dg: Seq<u8>, content: Seq<u8>)
    requires
        reads(key, dg, content),
    ensures
        dg.len() == DATAGRAM_HEADER_LEN + content.len() + TAG,
{
    reveal(reads);
}

/// No datagram of a message is longer than the datagrams may be.
pub proof fn lemma_datagrams_fit(s: SessionModel, channel: u8, msg: Seq<u8>, i: int)
    requires
        s.mtu >= 64,
        readable(s, channel, msg),
        0 <= i < message_datagrams(s, channel, msg).len(),
    ensures
        message_datagrams(s, channel, msg)[i].len() <= s.mtu,
{
    let slices = wire::frag_slices(msg, room(s.mtu as int));
    let dg = message_datagrams(s, channel, msg)[i];
    let content = message_contents(s, msg)[i];
    assert(reads(s.udp_tx, dg, content));
    lemma_reads_len(s.udp_tx, dg, content);
    wire::lemma_slice_fits(msg, room(s.mtu as int), i);
    if slices.len() == 1 {
        wire::lemma_one_slice(msg, room(s.mtu as int));
    } else {
        wire::lemma_frag_round_trip(
            s.msg_id_tx,
            (i % 0x1_0000) as u16,
            (slices.len() % 0x1_0000) as u16,
            slices[i],
        );
        assert(content.skip(8).len() == content.len() - 8);
    }
}

/// How many numbers the datagrams of a message take up.
pub open spec fn numbers_taken(m: SessionModel, msg: Seq<u8>) -> int {
    let slices = wire::frag_slices(msg, room(m.mtu as int));
    if slices.len() == 1 {
        1
    } else {
        1 + slices.len() as int
    }
}

/// The datagrams of a message bear numbers that no other datagram has borne: each lies past
/// those of the datagrams before it, and what is sent afterwards starts past them all, until
/// the numbers have gone once round.
#[verifier::spinoff_prover]
#[verifier::rlimit(40)]
pub proof fn lemma_numbers_distinct(s: SessionModel, channel: u8, msg: Seq<u8>, i: int)
    requires
        0 <= i < message_datagrams(s, channel, msg).len(),
    ensures
        ({
            let slices = wire::frag_slices(msg, room(s.mtu as int));
            let place = if slices.len() == 1 {
                0
            } else {
                1 + i
            };
            &&& 0 <= place < numbers_taken(s, msg)
            &&& octets::le32_at(message_datagrams(s, channel, msg)[i], 2) == after(s.seq_tx, place)
            &&& after_datagrams(s, msg).seq_tx == after(s.seq_tx, numbers_taken(s, msg))
            &&& forall|other: int|
                0 <= other < 0x1_0000_0000 && #[trigger] after(s.seq_tx, other) == after(
                    s.seq_tx,
                    place,
                ) && place < 0x1_0000_0000 ==> other == place
        }),
{
    let slices = wire::frag_slices(msg, room(s.mtu as int));
    let place = if slices.len() == 1 {
        0
    } else {
        1 + i
    };
    let (dtype, content) = if slices.len() == 1 {
        (DT_DATA, msg)
    } else {
        (DT_FRAG, message_contents(s, msg)[i])
    };
    lemma_datagram_header(s.udp_tx, dtype, channel, after(s.seq_tx, place), content);
    assert(message_datagrams(s, channel, msg)[i] == datagram_bytes(
        s.udp_tx,
        dtype,
        channel,
        after(s.seq_tx, place),
        content,
    ));
}

/// An end after it has put messages into datagrams, each on its channel, one after the other.
pub open spec fn after_messages(m: SessionModel, msgs: Seq<(u8, Seq<u8>)>) -> SessionModel
    decreases msgs.len(),
{
    if msgs.len() == 0 {
        m
    } else {
        after_datagrams(after_messages(m, msgs.drop_last()), msgs.last().1)
    }
}

/// How many numbers the datagrams of messages take up.
pub open spec fn all_taken(m: SessionModel, msgs: Seq<(u8, Seq<u8>)>) -> int
    decreases msgs.len(),
{
    if msgs.len() == 0 {
        0
    } else {
        all_taken(m, msgs.drop_last()) + numbers_taken(m, msgs.last().1)
    }
}

/// The number of a datagram of one of the messages.
pub open spec fn number_of(m: SessionModel, msgs: Seq<(u8, Seq<u8>)>, k: int, i: int) -> u32 {
    let before = after_messages(m, msgs.take(k));
    octets::le32_at(message_datagrams(before, msgs[k].0, msgs[k].1)[i], 2)
}

proof fn lemma_after_messages(m: SessionModel, msgs: Seq<(u8, Seq<u8>)>)
    ensures
        after_messages(m, msgs).mtu == m.mtu,
        after_messages(m, msgs).seq_tx == after(m.seq_tx, all_taken(m, msgs)),
        0 <= all_taken(m, msgs),
    decreases msgs.len(),
{
    if msgs.len() > 0 {
        lemma_after_messages(m, msgs.drop_last());
    }
}

proof fn lemma_taken_grows(m: SessionModel, msgs: Seq<(u8, Seq<u8>)>, a: int, b: int)
    requires
        0 <= a <= b <= msgs.len(),
    ensures
        all_taken(m, msgs.take(a)) <= all_taken(m, msgs.take(b)),
        a < b ==> all_taken(m, msgs.take(a)) + numbers_taken(m, msgs[a].1) <= all_taken(
            m,
            msgs.take(b),
        ),
    decreases b - a,
{
    if a < b {
        lemma_taken_grows(m, msgs, a, b - 1);
        assert(msgs.take(b).drop_last() =~= msgs.take(b - 1));
        assert(msgs.take(b).last() == msgs[b - 1]);
    }
}

proof fn lemma_datagram_number(s: SessionModel, channel: u8, msg: Seq<u8>, i: int) -> (place: int)
    requires
        0 <= i < message_datagrams(s, channel, msg).len(),
    ensures
        place == if wire::frag_slices(msg, room(s.mtu as int)).len() == 1 {
            0
        } else {
            1 + i
        },
        0 <= place < numbers_taken(s, msg),
        octets::le32_at(message_datagrams(s, channel, msg)[i], 2) == after(s.seq_tx, place),
{
    lemma_numbers_distinct(s, channel, msg, i);
    if wire::frag_slices(msg, room(s.mtu as int)).len() == 1 {
        0
    } else {
        1 + i
    }
}

proof fn lemma_after_sum(x: u32, a: int, b: int)
    requires
        0 <= a,
        0 <= b,
    ensures
        after(after(x, a), b) == after(x, a + b),
{
}

#[verifier::spinoff_prover]
proof fn lemma_number_of(m: SessionModel, msgs: Seq<(u8, Seq<u8>)>, k: int, i: int) -> (place: int)
    requires
        0 <= k < msgs.len(),
        0 <= i < wire::frag_slices(msgs[k].1, room(m.mtu as int)).len(),
    ensures
        number_of(m, msgs, k, i) == after(m.seq_tx, all_taken(m, msgs.take(k)) + place),
        0 <= place < numbers_taken(m, msgs[k].1),
        place == if wire::frag_slices(msgs[k].1, room(m.mtu as int)).len() == 1 {
            0
        } else {
            1 + i
        },
{
    let before = after_messages(m, msgs.take(k));
    lemma_after_messages(m, msgs.take(k));
    let place = lemma_datagram_number(before, msgs[k].0, msgs[k].1, i);
    lemma_after_sum(m.seq_tx, all_taken(m, msgs.take(k)), place);
    if wire::frag_slices(msgs[k].1, room(m.mtu as int)).len() == 1 {
        0
    } else {
        1 + i
    }
}

proof fn lemma_after_injective(x: u32, p: int, q: int)
    requires
        0 <= p < 0x1_0000_0000,
        0 <= q < 0x1_0000_0000,
        after(x, p) == after(x, q),
    ensures
        p == q,
{
}

proof fn lemma_datagram_count(m: SessionModel, msgs: Seq<(u8, Seq<u8>)>, k: int)
    requires
        0 <= k < msgs.len(),
    ensures
        message_datagrams(after_messages(m, msgs.take(k)), msgs[k].0, msgs[k].1).len()
            == wire::frag_slices(msgs[k].1, room(m.mtu as int)).len(),
{
    lemma_after_messages(m, msgs.take(k));
}

/// No two datagrams of the messages that one end sends bear the same number, as long as the
/// numbers have not gone once round.
pub proof fn lemma_session_numbers_distinct(
    m: SessionModel,
    msgs: Seq<(u8, Seq<u8>)>,
    a: int,
    i: int,
    b: int,
    j: int,
)
    requires
        all_taken(m, msgs) <= 0x1_0000_0000,
        0 <= a < msgs.len(),
        0 <= b < msgs.len(),
        0 <= i < message_datagrams(after_messages(m, msgs.take(a)), msgs[a].0, msgs[a].1).len(),
        0 <= j < message_datagrams(after_messages(m, msgs.take(b)), msgs[b].0, msgs[b].1).len(),
        number_of(m, msgs, a, i) == number_of(m, msgs, b, j),
    ensures
        a == b,
        i == j,
{
    lemma_datagram_count(m, msgs, a);
    lemma_datagram_count(m, msgs, b);
    lemma_after_messages(m, msgs.take(a));
    lemma_after_messages(m, msgs.take(b));
    lemma_places_distinct(m, msgs, a, i, b, j);
}

proof fn lemma_places_distinct(
    m: SessionModel,
    msgs: Seq<(u8, Seq<u8>)>,
    a: int,
    i: int,
    b: int,
    j: int,
)
    requires
        all_taken(m, msgs) <= 0x1_0000_0000,
        0 <= a < msgs.len(),
        0 <= b < msgs.len(),
        0 <= i < wire::frag_slices(msgs[a].1, room(m.mtu as int)).len(),
        0 <= j < wire::frag_slices(msgs[b].1, room(m.mtu as int)).len(),
        0 <= all_taken(m, msgs.take(a)),
        0 <= all_taken(m, msgs.take(b)),
        number_of(m, msgs, a, i) == number_of(m, msgs, b, j),
    ensures
        a == b,
        i == j,
{
    let p = lemma_number_of(m, msgs, a, i);
    let q = lemma_number_of(m, msgs, b, j);
    assert(msgs.take(msgs.len() as int) =~= msgs);
    lemma_taken_grows(m, msgs, a, msgs.len() as int);
    lemma_taken_grows(m, msgs, b, msgs.len() as int);
    let x = all_taken(m, msgs.take(a)) + p;
    let y = all_taken(m, msgs.take(b)) + q;
    lemma_after_injective(m.seq_tx, x, y);
    if a < b {
        lemma_taken_grows(m, msgs, a, b);
    } else if b < a {
        lemma_taken_grows(m, msgs, b, a);
    }
}

/// An end that takes the datagrams of a message in the given order, at the given times; the
/// messages that came with them.
pub open spec fn took(m: SessionModel, dgs: Seq<Seq<u8>>, order: Seq<int>, times: Seq<u64>) -> (
    SessionModel,
    Seq<Option<(u8, Seq<u8>)>>,
)
    decreases order.len(),
{
    if order.len() == 0 {
        (m, Seq::empty())
    } else {
        let before = took(m, dgs, order.drop_last(), times);
        let dg = dgs[order.last()];
        let now = times[order.len() - 1];
        (after_datagram(before.0, dg, now), before.1.push(datagram_message(before.0, dg, now)))
    }
}

proof fn lemma_frag_taken(
    m: SessionModel,
    dg: Seq<u8>,
    msg_id: u32,
    idx: u16,
    count: u16,
    slice: Seq<u8>,
    now: u64,
)
    requires
        reads(m.udp_rx, dg, wire::frag_bytes(msg_id, idx, count, slice)),
        dg[0] == DT_FRAG,
    ensures
        ({
            let reasm = wire::advanced(m.reasm, now);
            let (left, out) = wire::after_frag(reasm, dg[1], msg_id, idx, count, slice);
            &&& after_datagram(m, dg, now).udp_rx == m.udp_rx
            &&& after_datagram(m, dg, now).reasm == left
            &&& datagram_message(m, dg, now) == (match out {
                Some(whole) => Some((dg[1], whole)),
                None => None,
            })
        }),
{
    reveal(reads);
    wire::lemma_frag_round_trip(msg_id, idx, count, slice);
    let content = wire::frag_bytes(msg_id, idx, count, slice);
    assert(datagram_content(m, dg) == Some(content));
}

/// Whether `dgs` are datagrams that an end with `key` reads the fragments of a message in.
spec fn carry(
    dgs: Seq<Seq<u8>>,
    key: Seq<u8>,
    channel: u8,
    msg_id: u32,
    slices: Seq<Seq<u8>>,
) -> bool {
    &&& dgs.len() == slices.len() <= 0xFFFF
    &&& forall|i: int|
        0 <= i < dgs.len() ==> {
            &&& (#[trigger] dgs[i])[0] == DT_FRAG
            &&& dgs[i][1] == channel
            &&& reads(
                key,
                dgs[i],
                wire::frag_bytes(msg_id, i as u16, slices.len() as u16, slices[i]),
            )
        }
}

proof fn lemma_took(
    m: SessionModel,
    dgs: Seq<Seq<u8>>,
    channel: u8,
    msg_id: u32,
    slices: Seq<Seq<u8>>,
    order: Seq<int>,
    times: Seq<u64>,
)
    requires
        carry(dgs, m.udp_rx, channel, msg_id, slices),
        forall|j: int| 0 <= j < order.len() ==> 0 <= #[trigger] order[j] < dgs.len(),
    ensures
        ({
            let (taken, outs) = took(m, dgs, order, times);
            let (reasm, fed) = wire::fed_frags(m.reasm, channel, msg_id, slices, order, times);
            &&& taken.udp_rx == m.udp_rx
            &&& taken.reasm == reasm
            &&& outs.len() == fed.len() == order.len()
            &&& forall|j: int|
                0 <= j < order.len() ==> #[trigger] outs[j] == (match fed[j] {
                    Some(whole) => Some((channel, whole)),
                    None => None,
                })
        }),
    decreases order.len(),
{
    if order.len() > 0 {
        let most = order.drop_last();
        let i = order.last();
        assert(order[order.len() - 1] == i);
        assert forall|j: int| 0 <= j < most.len() implies 0 <= #[trigger] most[j] < dgs.len() by {
            assert(most[j] == order[j]);
        }
        lemma_took(m, dgs, channel, msg_id, slices, most, times);
        assert(dgs[i][1] == channel);
        lemma_frag_taken(
            took(m, dgs, most, times).0,
            dgs[i],
            msg_id,
            i as u16,
            slices.len() as u16,
            slices[i],
            times[order.len() - 1],
        );
    }
}

proof fn lemma_carry(s: SessionModel, channel: u8, msg: Seq<u8>)
    requires
        readable(s, channel, msg),
        1 < wire::frag_slices(msg, room(s.mtu as int)).len() <= 0xFFFF,
    ensures
        carry(
            message_datagrams(s, channel, msg),
            s.udp_tx,
            channel,
            s.msg_id_tx,
            wire::frag_slices(msg, room(s.mtu as int)),
        ),
{
    let dgs = message_datagrams(s, channel, msg);
    assert forall|i: int| 0 <= i < dgs.len() implies {
        &&& (#[trigger] dgs[i])[0] == DT_FRAG
        &&& dgs[i][1] == channel
    } by {
        let content = message_contents(s, msg)[i];
        lemma_datagram_header(s.udp_tx, DT_FRAG, channel, after(s.seq_tx, 1 + i), content);
    }
}

/// A message that was sent in several datagrams comes out whole at the other end, and only
/// with the one that completes it, in whatever order they arrive and however often, as long as none comes later than the
/// first may wait for it.
pub proof fn lemma_message_delivered(
    s: SessionModel,
    m: SessionModel,
    channel: u8,
    msg: Seq<u8>,
    order: Seq<int>,
    times: Seq<u64>,
)
    requires
        m.udp_rx == s.udp_tx,
        readable(s, channel, msg),
        1 < wire::frag_slices(msg, room(s.mtu as int)).len() <= 0xFFFF,
        !m.reasm.frags.contains_key((channel, s.msg_id_tx)),
        pieces::completing(order, message_datagrams(s, channel, msg).len() as int),
        wire::in_time(times, order.len()),
    ensures
        ({
            let outs = took(m, message_datagrams(s, channel, msg), order, times).1;
            &&& outs.len() == order.len()
            &&& forall|j: int| 0 <= j < order.len() - 1 ==> (#[trigger] outs[j]) is None
            &&& outs.last() == Some((channel, msg))
        }),
{
    let slices = wire::frag_slices(msg, room(s.mtu as int));
    let dgs = message_datagrams(s, channel, msg);
    lemma_carry(s, channel, msg);
    lemma_took(m, dgs, channel, s.msg_id_tx, slices, order, times);
    wire::lemma_fragments_reassemble(
        m.reasm,
        channel,
        s.msg_id_tx,
        msg,
        room(s.mtu as int),
        order,
        times,
    );
}

/// How long ago `then` was; nothing if it is yet to come.
pub open spec fn elapsed(now: u64, then: u64) -> int {
    if now > then {
        now - then
    } else {
        0
    }
}

/// Whether it is time to ask whether the other end is there.
pub open spec fn ping_due(m: SessionModel, now: u64) -> bool {
    &&& elapsed(now, m.last_rx) <= DEAD_AFTER
    &&& elapsed(now, m.last_tx) > PING_IDLE
    &&& elapsed(now, m.last_ping) > PING_IDLE
}

/// An end after it has looked at the time.
pub open spec fn after_keepalive(m: SessionModel, now: u64) -> SessionModel {
    SessionModel {
        alive: m.alive && elapsed(now, m.last_rx) <= DEAD_AFTER,
        last_ping: if ping_due(m, now) {
            now
        } else {
            m.last_ping
        },
        ..m
    }
}

/// A handshake message on the stream: its length and its bytes. The length is written modulo
/// 2^32.
pub open spec fn handshake_frame(body: Seq<u8>) -> Seq<u8> {
    octets::le32((body.len() % 0x1_0000_0000) as u32) + body
}

/// Frames a handshake message for the stream.
pub fn frame_handshake(body: &[u8]) -> (v: Vec<u8>)
    ensures
        v@ == handshake_frame(body@),
{
    let mut v: Vec<u8> = Vec::new();
    push_le32(&mut v, (body.len() as u64 % 0x1_0000_0000) as u32);
    push_all(&mut v, body);
    v
}

/// The length of the handshake message that four bytes announce.
pub fn handshake_len(header: [u8; 4]) -> (r: u32)
    ensures
        r == octets::le32_at(header@, 0),
{
    get_le32(header.as_slice(), 0)
}

/// What a receiver makes of one record with one message: the message, and nothing else.
pub open spec fn one_message(tx: RecordModel, channel: u8, msg: Seq<u8>) -> RecordsModel {
    RecordsModel {
        rx: crypto::next_record(tx),
        rest: Seq::empty(),
        messages: seq![(channel, msg)],
        pings: 0,
        intact: true,
    }
}

proof fn lemma_record_delivered(tx: RecordModel, channel: u8, msg: Seq<u8>, ct: Seq<u8>)
    requires
        channel != CH_KEEPALIVE,
        msg.len() + 5 <= u32::MAX - TAG,
        ct == crypto::record_sealed(tx, wire::tcp_frame(channel, msg)),
        ct.len() == wire::tcp_frame(channel, msg).len() + TAG,
        crypto::record_opened(tx, ct) == Some(wire::tcp_frame(channel, msg)),
    ensures
        records(tx, record_bytes(tx, channel, msg)) == one_message(tx, channel, msg),
{
    let none = Seq::<u8>::empty();
    lemma_record_then_rest(tx, channel, msg, none);
    assert(record_bytes(tx, channel, msg) + none =~= record_bytes(tx, channel, msg));
    let later = records(crypto::next_record(tx), none);
    assert(seq![(channel, msg)] + later.messages =~= seq![(channel, msg)]);
}

/// Reading what came over the stream in one go or in two comes to the same, as long as every
/// record opened.
#[verifier::spinoff_prover]
pub proof fn lemma_records_split(rx: RecordModel, first: Seq<u8>, second: Seq<u8>)
    requires
        records(rx, first).intact,
    ensures
        ({
            let one = records(rx, first);
            let two = records(one.rx, one.rest + second);
            records(rx, first + second) == (RecordsModel {
                rx: two.rx,
                rest: two.rest,
                messages: one.messages + two.messages,
                pings: one.pings + two.pings,
                intact: two.intact,
            })
        }),
    decreases first.len(),
{
    let both = first + second;
    let one = records(rx, first);
    let two = records(one.rx, one.rest + second);
    if has_record(first) {
        assert(octets::le32_at(both, 0) == octets::le32_at(first, 0));
        let n = record_len(first);
        assert(both.subrange(4, n) =~= first.subrange(4, n));
        let ct = first.subrange(4, n);
        let frame = crypto::record_opened(rx, ct)->0;
        assert(both.skip(n) =~= first.skip(n) + second);
        lemma_records_split(crypto::next_record(rx), first.skip(n), second);
        let later = records(crypto::next_record(rx), first.skip(n));
        assert(delivered(frame) + (later.messages + two.messages) =~= (delivered(frame)
            + later.messages) + two.messages);
        assert(records(rx, both).messages =~= one.messages + two.messages);
    } else {
        assert(one.messages + two.messages =~= two.messages);
    }
}

/// When an end takes the other for dead, and when it asks whether it is there: dead once more than
/// seven seconds have passed since anything came; asked, if not dead, once more than the idle time
/// has passed since it last wrote and since it last asked. Asking is noted; nothing else changes.
/// An end that is dead stays so.
pub proof fn lemma_keepalive_exact(m: SessionModel, now: u64)
    ensures
        ({
            let r = after_keepalive(m, now);
            let dead = now > m.last_rx + 7000;
            &&& r.alive <==> m.alive && !dead
            &&& ping_due(m, now) <==> !dead && now > m.last_tx + PING_IDLE && now > m.last_ping
                + PING_IDLE
            &&& ping_due(m, now) ==> r.last_ping == now
            &&& r == (SessionModel {
                alive: r.alive,
                last_ping: if ping_due(m, now) {
                    now
                } else {
                    m.last_ping
                },
                ..m
            })
        }),
{
}

/// An end that has asked does not ask again until the idle time has passed, nor does one that has
/// written; and one that hears from the other within its time does not take it for dead.
pub proof fn lemma_asks_once(m: SessionModel, now: u64, later: u64)
    requires
        later <= now + PING_IDLE,
    ensures
        ping_due(m, now) ==> !ping_due(after_keepalive(m, now), later),
        !ping_due(SessionModel { last_tx: now, ..m }, later),
        m.alive ==> after_keepalive(SessionModel { last_rx: now, ..m }, later).alive,
{
}

/// What is read of a stream that starts with the record of a message: the message, unless it is
/// one between the two ends, of which only pings are counted; and then what follows.
#[verifier::spinoff_prover]
pub proof fn lemma_record_then_rest(
    tx: RecordModel,
    channel: u8,
    msg: Seq<u8>,
    rest: Seq<u8>,
)
    requires
        msg.len() + 5 <= u32::MAX - TAG,
        crypto::record_sealed(tx, wire::tcp_frame(channel, msg)).len() == wire::tcp_frame(
            channel,
            msg,
        ).len() + TAG,
        crypto::record_opened(tx, crypto::record_sealed(tx, wire::tcp_frame(channel, msg)))
            == Some(wire::tcp_frame(channel, msg)),
    ensures
        ({
            let r = records(tx, record_bytes(tx, channel, msg) + rest);
            let later = records(crypto::next_record(tx), rest);
            &&& r.messages == if channel == 0xFE {
                later.messages
            } else {
                seq![(channel, msg)] + later.messages
            }
            &&& r.pings == later.pings + if channel == 0xFE && msg.len() > 0 && msg[0] == 3 {
                1int
            } else {
                0
            }
            &&& r.rx == later.rx
            &&& r.rest == later.rest
            &&& r.intact == later.intact
        }),
{
    let frame = wire::tcp_frame(channel, msg);
    let ct = crypto::record_sealed(tx, frame);
    let buf = record_bytes(tx, channel, msg) + rest;
    assert(buf.subrange(0, 4) =~= octets::le32(ct.len() as u32));
    octets::lemma_le32_at(buf, 0, ct.len() as u32);
    assert(buf.subrange(4, record_len(buf)) =~= ct);
    assert(buf.skip(record_len(buf)) =~= rest);
    wire::lemma_tcp_round_trip(channel, msg, Seq::empty());
    assert(frame + Seq::<u8>::empty() =~= frame);
    assert(framed_message(frame) == (channel, msg));
    let later = records(crypto::next_record(tx), rest);
    assert(Seq::<(u8, Seq<u8>)>::empty() + later.messages =~= later.messages);
}

/// What a record holds behind its message is passed over; a record that holds less than it announces
/// holds no message, and neither counts as a ping.
pub proof fn lemma_behind_the_message(channel: u8, msg: Seq<u8>, rest: Seq<u8>, frame: Seq<u8>)
    requires
        msg.len() <= u32::MAX,
    ensures
        delivered(wire::tcp_frame(channel, msg) + rest) == (if channel == 0xFE {
            Seq::empty()
        } else {
            seq![(channel, msg)]
        }),
        is_ping(wire::tcp_frame(channel, msg) + rest) <==> channel == 0xFE && msg.len() > 0
            && msg[0] == 3,
        frame.len() < 5 || frame.len() < 5 + frame[1] + 0x100 * frame[2] + 0x1_0000 * frame[3]
            + 0x100_0000 * frame[4] ==> delivered(frame).len() == 0 && !is_ping(frame),
{
    wire::lemma_tcp_round_trip(channel, msg, rest);
}

/// What an end writes on the stream for messages, one after the other.
pub open spec fn stream_of(tx: RecordModel, msgs: Seq<(u8, Seq<u8>)>) -> Seq<u8>
    decreases msgs.len(),
{
    if msgs.len() == 0 {
        Seq::empty()
    } else {
        record_bytes(tx, msgs[0].0, msgs[0].1) + stream_of(crypto::next_record(tx), msgs.skip(1))
    }
}

/// Whether the other end can open each of the records of messages.
pub open spec fn stream_opens(tx: RecordModel, msgs: Seq<(u8, Seq<u8>)>) -> bool
    decreases msgs.len(),
{
    msgs.len() > 0 ==> {
        let frame = wire::tcp_frame(msgs[0].0, msgs[0].1);
        let ct = crypto::record_sealed(tx, frame);
        &&& msgs[0].1.len() + 5 <= u32::MAX - TAG
        &&& ct.len() == frame.len() + TAG
        &&& crypto::record_opened(tx, ct) == Some(frame)
        &&& stream_opens(crypto::next_record(tx), msgs.skip(1))
    }
}

/// The messages among what is sent that are for the application.
pub open spec fn for_the_application(msgs: Seq<(u8, Seq<u8>)>) -> Seq<(u8, Seq<u8>)>
    decreases msgs.len(),
{
    if msgs.len() == 0 {
        msgs
    } else if msgs[0].0 == 0xFE {
        for_the_application(msgs.skip(1))
    } else {
        seq![msgs[0]] + for_the_application(msgs.skip(1))
    }
}

/// What is written on the stream is read at the other end: every message for the application, in
/// order and once, nothing else, and nothing is left over.
pub proof fn lemma_stream_delivers(tx: RecordModel, msgs: Seq<(u8, Seq<u8>)>)
    requires
        stream_opens(tx, msgs),
    ensures
        ({
            let r = records(tx, stream_of(tx, msgs));
            &&& r.messages == for_the_application(msgs)
            &&& r.rest.len() == 0
            &&& r.intact
        }),
    decreases msgs.len(),
{
    if msgs.len() > 0 {
        let rest = stream_of(crypto::next_record(tx), msgs.skip(1));
        lemma_record_then_rest(tx, msgs[0].0, msgs[0].1, rest);
        lemma_stream_delivers(crypto::next_record(tx), msgs.skip(1));
        assert(seq![(msgs[0].0, msgs[0].1)] =~= seq![msgs[0]]);
    }
}

/// A record that is not yet whole waits, with all bytes of it; one that does not open ends what is
/// read: nothing of it or of what follows is delivered.
pub proof fn lemma_record_waits_or_ends(rx: RecordModel, buf: Seq<u8>)
    ensures
        ({
            let r = records(rx, buf);
            let len = buf[0] + 0x100 * buf[1] + 0x1_0000 * buf[2] + 0x100_0000 * buf[3];
            &&& buf.len() < 4 || buf.len() < 4 + len ==> {
                &&& r.rest == buf
                &&& r.messages.len() == 0
                &&& r.pings == 0
                &&& r.intact
                &&& r.rx == rx
            }
            &&& buf.len() >= 4 + len && buf.len() >= 4 && crypto::record_opened(
                rx,
                buf.subrange(4, 4 + len),
            ) is None ==> !r.intact && r.messages.len() == 0 && r.pings == 0
        }),
{
}

/// A datagram that does not open changes nothing and brings nothing. One that opens tells that the
/// other end is there and where its datagrams come from; it brings a message only if it holds a
/// whole one or a fragment of one, and changes nothing else but what is held of these.
pub proof fn lemma_datagram_heard(m: SessionModel, dg: Seq<u8>, now: u64)
    ensures
        ({
            let r = after_datagram(m, dg, now);
            let message = datagram_message(m, dg, now);
            let opens = dg.len() >= 6 && crypto::datagram_opened(
                m.udp_rx,
                dg[0],
                dg[1],
                octets::le32_at(dg, 2),
                dg.skip(6),
            ) is Some;
            &&& !opens ==> r == m && message is None
            &&& opens ==> {
                &&& r == (SessionModel { peer_bound: true, last_rx: now, reasm: r.reasm, ..m })
                &&& dg[0] != 0 && dg[0] != 1 ==> message is None && r.reasm == wire::advanced(
                    m.reasm,
                    now,
                )
                &&& message matches Some((channel, _)) ==> channel == dg[1]
            }
        }),
{
}

/// Whether an end sends to where a datagram came from, from then on.
pub open spec fn binds(m: SessionModel, dg: Seq<u8>) -> bool {
    datagram_content(m, dg) is Some && !m.peer_bound
}

/// An end is bound once: by the first datagram that opens, unless it was bound from the start; and
/// never by one that does not open.
pub proof fn lemma_bound_once(m: SessionModel, dg: Seq<u8>, now: u64, later: Seq<u8>)
    ensures
        m.peer_bound ==> !binds(m, dg),
        binds(m, dg) ==> after_datagram(m, dg, now).peer_bound && !binds(
            after_datagram(m, dg, now),
            later,
        ),
        !m.peer_bound && dg.len() >= 6 ==> (binds(m, dg) <==> crypto::datagram_opened(
            m.udp_rx,
            dg[0],
            dg[1],
            octets::le32_at(dg, 2),
            dg.skip(6),
        ) is Some),
        dg.len() < 6 ==> !binds(m, dg),
{
}

/// Where things stand in a datagram and in a record: in front of what is sealed, in a datagram its
/// type, its channel and its number, in a record its length, the least significant bytes first.
pub proof fn lemma_sealed_layout(
    key: Seq<u8>,
    dtype: u8,
    channel: u8,
    seq: u32,
    content: Seq<u8>,
    tx: RecordModel,
)
    ensures
        ({
            let d = datagram_bytes(key, dtype, channel, seq, content);
            let r = record_bytes(tx, channel, content);
            let ct = crypto::record_sealed(tx, wire::tcp_frame(channel, content));
            &&& d[0] == dtype && d[1] == channel && d.subrange(2, 6) == octets::le32(seq) && d.skip(6)
                == crypto::datagram_sealed(key, dtype, channel, seq, content)
            &&& r.skip(4) == ct
            &&& ct.len() <= u32::MAX ==> r.take(4) == octets::le32(ct.len() as u32)
        }),
{
    let d = datagram_bytes(key, dtype, channel, seq, content);
    let r = record_bytes(tx, channel, content);
    let ct = crypto::record_sealed(tx, wire::tcp_frame(channel, content));
    assert(d.subrange(2, 6) =~= octets::le32(seq));
    assert(d.skip(6) =~= crypto::datagram_sealed(key, dtype, channel, seq, content));
    assert(r.skip(4) =~= ct);
    if ct.len() <= u32::MAX {
        assert(r.take(4) =~= octets::le32(ct.len() as u32));
    }
}

/// What is sent later is newer: the numbers of a message's datagrams, and the number of one that is
/// sent in fragments, are passed by those of the next.
pub proof fn lemma_later_is_newer(m: SessionModel, msg: Seq<u8>)
    requires
        wire::frag_slices(msg, room(m.mtu as int)).len() < 0x7FFF_FFFF,
    ensures
        ({
            let r = after_datagrams(m, msg);
            &&& wire::seq_newer(r.seq_tx, m.seq_tx)
            &&& wire::frag_slices(msg, room(m.mtu as int)).len() != 1 ==> wire::seq_newer(
                r.msg_id_tx,
                m.msg_id_tx,
            ) && r.msg_id_tx != m.msg_id_tx
            &&& r == (SessionModel { seq_tx: r.seq_tx, msg_id_tx: r.msg_id_tx, ..m })
        }),
{
    let n = wire::frag_slices(msg, room(m.mtu as int)).len() as int;
    wire::lemma_newer_steps(m.seq_tx, 1);
    wire::lemma_newer_steps(m.seq_tx, 1 + n);
    wire::lemma_newer_steps(m.msg_id_tx, 1);
}

/// A handshake message is read back from the stream: its four leading bytes tell its length, and
/// that many bytes follow.
pub proof fn lemma_handshake_read_back(body: Seq<u8>, rest: Seq<u8>)
    requires
        body.len() <= u32::MAX,
    ensures
        ({
            let buf = handshake_frame(body) + rest;
            &&& octets::le32_at(buf, 0) == body.len()
            &&& buf.subrange(4, 4 + body.len() as int) == body
            &&& buf.skip(4 + body.len() as int) == rest
        }),
{
    let buf = handshake_frame(body) + rest;
    assert(buf.subrange(0, 4) =~= octets::le32(body.len() as u32));
    octets::lemma_le32_at(buf, 0, body.len() as u32);
    assert(buf.subrange(4, 4 + body.len() as int) =~= body);
    assert(buf.skip(4 + body.len() as int) =~= rest);
}

impl SessionCore {
    /// What holds of every end of a session.
    pub open spec fn wf(&self) -> bool {
        self.reasm.wf()
    }

    /// An end of a session that has just been agreed on.
    pub fn new(session: Session, peer_bound: bool, mtu: usize, now: u64) -> (r: Self)
        ensures
            r.wf(),
            r@ == (SessionModel {
                tx: RecordModel { key: session.k_tcp_tx@, counter: 0 },
                rx: RecordModel { key: session.k_tcp_rx@, counter: 0 },
                udp_tx: session.k_udp_tx@,
                udp_rx: session.k_udp_rx@,
                session_id: session.session_id@,
                peer_bound,
                rx_buf: Seq::empty(),
                seq_tx: 1,
                msg_id_tx: 1,
                reasm: ReasmModel { last: Map::empty(), frags: Map::empty(), clock: 0 },
                mtu,
                last_rx: now,
                last_ping: now,
                last_tx: now,
                alive: true,
            }),
    {
        SessionCore {
            tx: RecordKey::new(session.k_tcp_tx),
            rx: RecordKey::new(session.k_tcp_rx),
            udp_tx: DatagramKey::new(session.k_udp_tx, true),
            udp_rx: DatagramKey::new(session.k_udp_rx, false),
            session_id: session.session_id,
            peer_bound,
            rx_buf: Vec::new(),
            seq_tx: 1,
            msg_id_tx: 1,
            reasm: UdpReasm::default(),
            mtu,
            last_rx: now,
            last_ping: now,
            last_tx: now,
            alive: true,
        }
    }

    /// Whether a message can be sent: it is not too long, and the numbers are not used up.
    pub fn can_send(&self, msg: &[u8]) -> (r: bool)
        ensures
            r == (self@.tx.counter < u64::MAX && msg@.len() + 8 <= MAX_SEALED),
    {
        self.tx.counter() < u64::MAX && msg.len() as u64 <= MAX_SEALED - 8
    }

    /// Whether what came can be taken: the numbers are not used up.
    pub fn can_take(&self) -> (r: bool)
        ensures
            r == (self@.rx.counter + self@.rx_buf.len() <= u64::MAX),
    {
        self.rx_buf.len() as u64 <= u64::MAX - self.rx.counter()
    }

    /// Whether the other end is taken to be there.
    pub fn is_alive(&self) -> (r: bool)
        ensures
            r == self@.alive,
    {
        self.alive
    }

    /// Puts a message on the stream, whatever its channel. An end in step with this one reads
    /// the message back, is in step again, and has no byte left over.
    pub fn send_tcp(&mut self, channel: u8, msg: &[u8]) -> (r: Vec<u8>)
        requires
            old(self)@.tx.counter < u64::MAX,
            msg@.len() + 8 <= MAX_SEALED,
        ensures
            r@ == record_bytes(old(self)@.tx, channel, msg@),
            final(self)@ == (SessionModel {
                tx: crypto::next_record(old(self)@.tx),
                ..old(self)@
            }),
            final(self).wf() == old(self).wf(),
            channel != CH_KEEPALIVE && msg@.len() + 5 + TAG <= u32::MAX ==> records(
                old(self)@.tx,
                r@,
            ) == one_message(old(self)@.tx, channel, msg@),
    {
        let frame = frame_tcp(channel, msg);
        let ct = self.tx.seal(frame.as_slice());
        let mut r: Vec<u8> = Vec::new();
        push_le32(&mut r, (ct.len() as u64 % 0x1_0000_0000) as u32);
        push_all(&mut r, ct.as_slice());
        proof {
            if channel != CH_KEEPALIVE && msg@.len() + 5 + TAG <= u32::MAX {
                lemma_record_delivered(old(self)@.tx, channel, msg@, ct@);
            }
        }
        r
    }

    fn datagram(&self, dtype: u8, channel: u8, seq: u32, content: &[u8]) -> (r: Vec<u8>)
        requires
            content@.len() <= MAX_SEALED,
        ensures
            r@ == datagram_bytes(self@.udp_tx, dtype, channel, seq, content@),
            reads(self@.udp_tx, r@, content@),
    {
        let ct = self.udp_tx.seal(dtype, channel, seq, content);
        let mut r: Vec<u8> = Vec::new();
        r.push(dtype);
        r.push(channel);
        push_le32(&mut r, seq);
        push_all(&mut r, ct.as_slice());
        assert(r@ =~= datagram_bytes(self@.udp_tx, dtype, channel, seq, content@));
        proof {
            reveal(reads);
            lemma_datagram_header(self@.udp_tx, dtype, channel, seq, content@);
        }
        r
    }

    /// Puts a fragment into a datagram.
    fn frag_datagram(&mut self, channel: u8, msg_id: u32, idx: u16, count: u16, slice: &[u8]) -> (r:
        Vec<u8>)
        requires
            slice@.len() + 8 <= MAX_SEALED,
        ensures
            r@ == datagram_bytes(
                old(self)@.udp_tx,
                DT_FRAG,
                channel,
                old(self)@.seq_tx,
                wire::frag_bytes(msg_id, idx, count, slice@),
            ),
            reads(old(self)@.udp_tx, r@, wire::frag_bytes(msg_id, idx, count, slice@)),
            final(self)@ == (SessionModel { seq_tx: after(old(self)@.seq_tx, 1), ..old(self)@ }),
            final(self).wf() == old(self).wf(),
    {
        let seq = self.seq_tx;
        self.seq_tx = self.seq_tx.wrapping_add(1);
        let body = frag_body(msg_id, idx, count, slice);
        self.datagram(DT_FRAG, channel, seq, body.as_slice())
    }

    /// Puts a message into datagrams, which an end with the same key can read.
    #[verifier::spinoff_prover]
    fn send_udp(&mut self, channel: u8, msg: &[u8]) -> (r: Vec<Vec<u8>>)
        requires
            msg@.len() + 8 <= MAX_SEALED,
        ensures
            octets::views(r@) == message_datagrams(old(self)@, channel, msg@),
            readable(old(self)@, channel, msg@),
            final(self)@ == after_datagrams(old(self)@, msg@),
            final(self).wf() == old(self).wf(),
    {
        let ghost m = self@;
        let ghost slices = wire::frag_slices(msg@, room(self.mtu as int));
        let seq = self.seq_tx;
        self.seq_tx = self.seq_tx.wrapping_add(1);
        let space: usize = if self.mtu > DATAGRAM_HEADER_LEN {
            self.mtu - DATAGRAM_HEADER_LEN
        } else {
            0
        };
        let frags = fragment(msg, space);
        let mut r: Vec<Vec<u8>> = Vec::new();
        if frags.len() == 1 {
            r.push(self.datagram(DT_DATA, channel, seq, msg));
            assert(octets::views(r@) =~= message_datagrams(m, channel, msg@));
            assert(message_datagrams(m, channel, msg@)[0] == r@[0]@);
            assert(self@ =~= after_datagrams(m, msg@));
            return r;
        }
        let msg_id = self.msg_id_tx;
        self.msg_id_tx = self.msg_id_tx.wrapping_add(1);
        let count: u16 = (frags.len() % 0x1_0000) as u16;
        let mut i: usize = 0;
        let ghost all = message_datagrams(m, channel, msg@);
        let ghost held = message_contents(m, msg@);
        assert(octets::views(r@) =~= all.take(0));
        assert forall|k: int| 0 <= k < slices.len() implies (#[trigger] slices[k]).len()
            <= msg@.len() by {
            wire::lemma_slice_len(msg@, room(m.mtu as int), k);
        }
        while i < frags.len()
            invariant
                i <= frags@.len() == frags.len(),
                frags@.len() == slices.len(),
                slices == wire::frag_slices(msg@, room(m.mtu as int)),
                slices.len() != 1,
                forall|k: int| 0 <= k < frags@.len() ==> (#[trigger] frags@[k])@ == slices[k],
                forall|k: int| 0 <= k < slices.len() ==> (#[trigger] slices[k]).len() <= msg@.len(),
                msg@.len() + 8 <= MAX_SEALED,
                count == slices.len() % 0x1_0000,
                msg_id == m.msg_id_tx,
                self@ == (SessionModel {
                    seq_tx: after(m.seq_tx, 1 + i),
                    msg_id_tx: after(m.msg_id_tx, 1),
                    ..m
                }),
                self.wf() == old(self).wf(),
                all.len() == slices.len(),
                forall|k: int|
                    0 <= k < slices.len() ==> #[trigger] all[k] == frag_datagram(
                        m,
                        channel,
                        msg@,
                        k,
                    ),
                forall|k: int|
                    0 <= k < slices.len() ==> #[trigger] held[k] == wire::frag_bytes(
                        m.msg_id_tx,
                        (k % 0x1_0000) as u16,
                        (slices.len() % 0x1_0000) as u16,
                        slices[k],
                    ),
                octets::views(r@) == all.take(i as int),
                forall|k: int| 0 <= k < i ==> reads(m.udp_tx, #[trigger] all[k], held[k]),
            decreases frags@.len() - i,
        {
            assert(slices[i as int].len() <= msg@.len());
            let ghost before = r@;
            proof {
                lemma_after_sum(m.seq_tx, 1 + i, 1);
            }
            let dg = self.frag_datagram(channel, msg_id, (i % 0x1_0000) as u16, count, frags[i]);
            r.push(dg);
            proof {
                assert(all[i as int] == dg@);
                assert(octets::views(r@) =~= octets::views(before).push(dg@));
                assert(all.take(i + 1) =~= all.take(i as int).push(all[i as int]));
                assert(self@ =~= (SessionModel {
                    seq_tx: after(m.seq_tx, 1 + (i + 1)),
                    msg_id_tx: after(m.msg_id_tx, 1),
                    ..m
                }));
            }
            i = i + 1;
        }
        assert(all.take(i as int) =~= all);
        r
    }

    /// What to write for one message: a record, or datagrams where its channel and its first
    /// byte say so. The other end can read either.
    pub fn send(&mut self, channel: u8, msg: &[u8]) -> (r: Outgoing)
        requires
            old(self)@.tx.counter < u64::MAX,
            msg@.len() + 8 <= MAX_SEALED,
        ensures
            final(self).wf() == old(self).wf(),
            ({
                let first_op = if msg@.len() > 0 {
                    msg@[0]
                } else {
                    0
                };
                if wire::rides_udp(channel, first_op) {
                    &&& r matches Outgoing::Datagrams(v) && octets::views(v@) == message_datagrams(
                        old(self)@,
                        channel,
                        msg@,
                    )
                    &&& readable(old(self)@, channel, msg@)
                    &&& final(self)@ == after_datagrams(old(self)@, msg@)
                } else {
                    &&& r matches Outgoing::Record(v) && v@ == record_bytes(
                        old(self)@.tx,
                        channel,
                        msg@,
                    )
                    &&& channel != CH_KEEPALIVE && msg@.len() + 5 + TAG <= u32::MAX ==> records(
                        old(self)@.tx,
                        record_bytes(old(self)@.tx, channel, msg@),
                    ) == one_message(old(self)@.tx, channel, msg@)
                    &&& final(self)@ == (SessionModel {
                        tx: crypto::next_record(old(self)@.tx),
                        ..old(self)@
                    })
                }
            }),
    {
        let first_op: u8 = if msg.len() > 0 {
            msg[0]
        } else {
            0
        };
        if is_udp(channel, first_op) {
            Outgoing::Datagrams(self.send_udp(channel, msg))
        } else {
            Outgoing::Record(self.send_tcp(channel, msg))
        }
    }

    /// What a ping, or the answer to one, is on the stream.
    pub fn keepalive_record(&mut self, answer: bool) -> (r: Vec<u8>)
        requires
            old(self)@.tx.counter < u64::MAX,
        ensures
            r@ == record_bytes(
                old(self)@.tx,
                CH_KEEPALIVE,
                seq![
                    if answer {
                        DT_PONG
                    } else {
                        DT_PING
                    },
                ],
            ),
            final(self)@ == (SessionModel {
                tx: crypto::next_record(old(self)@.tx),
                ..old(self)@
            }),
            final(self).wf() == old(self).wf(),
    {
        let body: [u8; 1] = [if answer {
            DT_PONG
        } else {
            DT_PING
        }];
        assert(body@ =~= seq![
            if answer {
                DT_PONG
            } else {
                DT_PING
            },
        ]);
        self.send_tcp(CH_KEEPALIVE, body.as_slice())
    }

    /// The datagram from which the other end learns this end's address.
    pub fn udp_hello(&mut self) -> (r: Vec<u8>)
        ensures
            r@ == datagram_bytes(
                old(self)@.udp_tx,
                DT_HELLO,
                0,
                old(self)@.seq_tx,
                old(self)@.session_id,
            ),
            reads(old(self)@.udp_tx, r@, old(self)@.session_id),
            final(self)@ == (SessionModel { seq_tx: after(old(self)@.seq_tx, 1), ..old(self)@ }),
            final(self).wf() == old(self).wf(),
    {
        let seq = self.seq_tx;
        self.seq_tx = self.seq_tx.wrapping_add(1);
        self.datagram(DT_HELLO, 0, seq, self.session_id.as_slice())
    }

    /// Notes that something was written.
    pub fn mark_sent(&mut self, now: u64)
        ensures
            final(self)@ == (SessionModel { last_tx: now, ..old(self)@ }),
            final(self).wf() == old(self).wf(),
    {
        self.last_tx = now;
    }

    /// Notes that the stream is broken.
    pub fn mark_dead(&mut self)
        ensures
            final(self)@ == (SessionModel { alive: false, ..old(self)@ }),
            final(self).wf() == old(self).wf(),
    {
        self.alive = false;
    }

    /// Takes bytes that came over the stream.
    pub fn absorb(&mut self, bytes: &[u8], now: u64)
        ensures
            final(self)@ == (SessionModel {
                rx_buf: old(self)@.rx_buf + bytes@,
                last_rx: now,
                ..old(self)@
            }),
            final(self).wf() == old(self).wf(),
    {
        push_all(&mut self.rx_buf, bytes);
        self.last_rx = now;
    }

    /// Takes the whole records out of what came over the stream: the messages, and how many
    /// pings are to be answered. A record that does not open ends the session.
    pub fn take_records(&mut self) -> (r: (Vec<(u8, Vec<u8>)>, usize))
        requires
            old(self)@.rx.counter + old(self)@.rx_buf.len() <= u64::MAX,
        ensures
            ({
                let taken = records(old(self)@.rx, old(self)@.rx_buf);
                &&& contents(r.0@) == taken.messages
                &&& r.1 == taken.pings
                &&& final(self)@ == (SessionModel {
                    rx: taken.rx,
                    rx_buf: taken.rest,
                    alive: old(self)@.alive && taken.intact,
                    ..old(self)@
                })
            }),
            final(self).wf() == old(self).wf(),
    {
        let ghost m = self@;
        let ghost all = records(m.rx, m.rx_buf);
        let mut out: Vec<(u8, Vec<u8>)> = Vec::new();
        let mut pings: usize = 0;
        let mut at: usize = 0;
        let mut intact = true;
        let len = self.rx_buf.len();
        assert(m.rx_buf.skip(0) =~= m.rx_buf);
        assert(contents(out@) =~= Seq::empty());
        assert(Seq::<(u8, Seq<u8>)>::empty() + all.messages =~= all.messages);
        while intact && len - at >= 4 && (len - at) as u64 >= 4 + get_le32(
            self.rx_buf.as_slice(),
            at,
        ) as u64
            invariant
                len == self.rx_buf@.len() == self.rx_buf.len(),
                at <= len,
                pings <= at,
                self.rx_buf@ == m.rx_buf,
                self@ == (SessionModel { rx: self@.rx, ..m }),
                self.wf() == old(self).wf(),
                self@.rx.counter + (len - at) <= u64::MAX,
                all == records(m.rx, m.rx_buf),
                intact ==> ({
                    let later = records(self@.rx, m.rx_buf.skip(at as int));
                    all == (RecordsModel {
                        rx: later.rx,
                        rest: later.rest,
                        messages: contents(out@) + later.messages,
                        pings: (pings + later.pings) as nat,
                        intact: later.intact,
                    })
                }),
                !intact ==> all == (RecordsModel {
                    rx: self@.rx,
                    rest: m.rx_buf.skip(at as int),
                    messages: contents(out@),
                    pings: pings as nat,
                    intact: false,
                }),
            decreases len - at,
                      if intact {
                          1int
                      } else {
                          0int
                      },
        {
            let ghost buf = m.rx_buf.skip(at as int);
            let ct_len: usize = get_le32(self.rx_buf.as_slice(), at) as usize;
            let ghost later = records(self@.rx, buf);
            proof {
                assert(octets::le32_at(buf, 0) == octets::le32_at(m.rx_buf, at as int));
                assert(has_record(buf));
                assert(buf.subrange(4, record_len(buf)) =~= m.rx_buf.subrange(
                    at + 4,
                    at + 4 + ct_len,
                ));
                assert(buf.skip(record_len(buf)) =~= m.rx_buf.skip(at + 4 + ct_len));
            }
            let ct = copy_range(self.rx_buf.as_slice(), at + 4, at + 4 + ct_len);
            at = at + 4 + ct_len;
            match self.rx.open(ct.as_slice()) {
                Some(frame) => {
                    let ghost before = out@;
                    let ghost rest = records(self@.rx, m.rx_buf.skip(at as int));
                    match parse_tcp(frame.as_slice()) {
                        Some((channel, msg, _)) => {
                            if channel == CH_KEEPALIVE {
                                if msg.len() > 0 && msg[0] == DT_PING {
                                    pings = pings + 1;
                                }
                                assert(delivered(frame@) =~= Seq::empty());
                            } else {
                                out.push((channel, msg));
                                assert(delivered(frame@) =~= seq![(channel, msg@)]);
                                assert(contents(out@) =~= contents(before).push((channel, msg@)));
                            }
                        },
                        None => {
                            assert(delivered(frame@) =~= Seq::empty());
                        },
                    }
                    proof {
                        assert(contents(out@) =~= contents(before) + delivered(frame@));
                        assert(contents(out@) + rest.messages =~= contents(before) + (delivered(
                            frame@,
                        ) + rest.messages));
                    }
                },
                None => {
                    intact = false;
                    assert(contents(out@) + later.messages =~= contents(out@));
                },
            }
        }
        proof {
            if intact {
                let buf = m.rx_buf.skip(at as int);
                if buf.len() >= 4 {
                    assert(octets::le32_at(buf, 0) == octets::le32_at(m.rx_buf, at as int));
                }
                assert(!has_record(buf));
                let later = records(self@.rx, buf);
                assert(contents(out@) + later.messages =~= contents(out@));
            }
        }
        self.rx_buf = copy_range(self.rx_buf.as_slice(), at, len);
        self.alive = self.alive && intact;
        assert(self.rx_buf@ =~= m.rx_buf.skip(at as int));
        (out, pings)
    }

    /// Takes a datagram that came.
    pub fn on_datagram(&mut self, dg: &[u8], now: u64) -> (r: Received)
        requires
            old(self).wf(),
        ensures
            final(self).wf(),
            final(self)@ == after_datagram(old(self)@, dg@, now),
            r.bind == (datagram_content(old(self)@, dg@) is Some && !old(self)@.peer_bound),
            r.bind == binds(old(self)@, dg@),
            match r.message {
                Some((channel, msg)) => datagram_message(old(self)@, dg@, now) == Some(
                    (channel, msg@),
                ),
                None => datagram_message(old(self)@, dg@, now) is None,
            },
    {
        let none = Received { bind: false, message: None };
        if dg.len() < 6 {
            return none;
        }
        let dtype = dg[0];
        let channel = dg[1];
        let seq = get_le32(dg, 2);
        let ct = vstd::slice::slice_subrange(dg, 6, dg.len());
        assert(ct@ =~= dg@.skip(6));
        let content = match self.udp_rx.open(dtype, channel, seq, ct) {
            Some(content) => content,
            None => {
                return none;
            },
        };
        let bind = !self.peer_bound;
        self.peer_bound = true;
        self.last_rx = now;
        self.reasm.advance(now);
        let message: Option<Vec<u8>> = match dtype {
            DT_DATA => self.reasm.on_data(channel, seq, content),
            DT_FRAG => match parse_frag(content.as_slice()) {
                Some((msg_id, idx, count, slice)) => self.reasm.on_frag(
                    channel,
                    msg_id,
                    idx,
                    count,
                    slice,
                ),
                None => None,
            },
            _ => None,
        };
        Received {
            bind,
            message: match message {
                Some(msg) => Some((channel, msg)),
                None => None,
            },
        }
    }

    /// Looks at the time: whether to ask if the other end is there. One from which nothing has
    /// come for too long is taken for dead.
    pub fn service_keepalive(&mut self, now: u64) -> (ping: bool)
        ensures
            ping == ping_due(old(self)@, now),
            final(self)@ == after_keepalive(old(self)@, now),
            final(self).wf() == old(self).wf(),
    {
        if now.saturating_sub(self.last_rx) > DEAD_AFTER {
            self.alive = false;
            return false;
        }
        if now.saturating_sub(self.last_tx) > PING_IDLE && now.saturating_sub(self.last_ping)
            > PING_IDLE {
            self.last_ping = now;
            return true;
        }
        false
    }
}

} // verus!
