//! Channel: a reliable, ordered stream of messages over lossy packets.
//!
//! A connection opens with a three-way handshake, keeps every numbered frame until the peer
//! has acknowledged it, puts frames that arrive out of order back in order, drops what
//! arrives twice, and carries messages in the chunks of [`crate::wire::fragment`].
use crate::octets::{self, copy_range, get_be16, get_be64, push_all, push_be16, push_be64};
use crate::pieces;
use crate::primitives::random16;
use crate::wire::fragment::{self, fragment, PartialModel, Reassembler, MAX_CHUNK_PAYLOAD};
use std::collections::{BTreeMap, VecDeque};
use vstd::prelude::*;

verus! {

/// Opens a connection.
pub const FLAG_SYN: u8 = 0x01;

/// Closes a connection.
pub const FLAG_FIN: u8 = 0x02;

/// Carries an acknowledgment.
pub const FLAG_ACK: u8 = 0x04;

/// Resets a connection.
pub const FLAG_RST: u8 = 0x08;

/// The flag bits that no frame may have set.
pub const RESERVED_MASK: u8 = 0xF0;

/// The bytes before a frame's data: flags, acknowledgment, window, number.
pub const CHANNEL_HEADER_LEN: usize = 19;

/// The window, in frames, where none was asked for.
pub const DEFAULT_WINDOW: u16 = 32;

/// The milliseconds after which an unacknowledged frame is sent again, where none were asked
/// for.
pub const DEFAULT_RTO: u64 = 500;

/// How often in a row frames are sent again with none of them acknowledged before the peer is
/// taken to be gone.
pub const MAX_RETRIES: u32 = 20;

/// How long, in milliseconds, a connecting endpoint waits to be established.
pub const CONNECT_TIMEOUT: u64 = 5000;

/// Why an operation on a channel failed.
#[derive(Debug, Clone, Copy, PartialEq, Eq, Structural)]
pub enum ChannelError {
    Transport,
    ConnectTimeout,
    Closed,
}

/// One frame of a connection.
#[derive(Debug, Clone, PartialEq, Eq)]
pub struct ChannelFrame {
    pub flags: u8,
    pub ack_num: u64,
    pub window: u16,
    pub seq: u64,
    pub data: Vec<u8>,
}

/// What a frame says.
#[verifier::ext_equal]
pub struct FrameModel {
    pub flags: u8,
    pub ack_num: u64,
    pub window: u16,
    pub seq: u64,
    pub data: Seq<u8>,
}

impl View for ChannelFrame {
    type V = FrameModel;

    open spec fn view(&self) -> FrameModel {
        FrameModel {
            flags: self.flags,
            ack_num: self.ack_num,
            window: self.window,
            seq: self.seq,
            data: self.data@,
        }
    }
}

/// Whether `flags` has the bit `bit` set.
pub open spec fn has_flag(flags: u8, bit: u8) -> bool {
    flags & bit != 0
}

/// The bytes of a frame.
pub open spec fn frame_bytes(f: FrameModel) -> Seq<u8> {
    seq![f.flags] + octets::be64(f.ack_num) + octets::be16(f.window) + octets::be64(f.seq) + f.data
}

/// The frame that `s` writes, if it is long enough and sets no reserved flag.
pub open spec fn frame_of(s: Seq<u8>) -> Option<FrameModel> {
    if s.len() < CHANNEL_HEADER_LEN || has_flag(s[0], RESERVED_MASK) {
        None
    } else {
        Some(
            FrameModel {
                flags: s[0],
                ack_num: octets::be64_at(s, 1),
                window: octets::be16_at(s, 9),
                seq: octets::be64_at(s, 11),
                data: s.skip(CHANNEL_HEADER_LEN as int),
            },
        )
    }
}

/// Whether a frame takes up a number of its sender: it opens, closes or carries data.
pub open spec fn consumes(f: FrameModel) -> bool {
    has_flag(f.flags, FLAG_SYN) || has_flag(f.flags, FLAG_FIN) || f.data.len() > 0
}

/// Where things stand in a frame: the flags, the acknowledgment, the window, the number, the data,
/// numbers with their most significant bytes first.
pub proof fn lemma_frame_layout(f: FrameModel)
    ensures
        ({
            let s = frame_bytes(f);
            &&& s.len() == 19 + f.data.len()
            &&& s[0] == f.flags
            &&& s.subrange(1, 9) == octets::be64(f.ack_num)
            &&& s[9] * 0x100 + s[10] == f.window
            &&& s.subrange(11, 19) == octets::be64(f.seq)
            &&& s.skip(19) == f.data
        }),
{
    let s = frame_bytes(f);
    assert(s.subrange(1, 9) =~= octets::be64(f.ack_num));
    assert(s.subrange(9, 11) =~= octets::be16(f.window));
    assert(s.subrange(9, 11)[0] == s[9] && s.subrange(9, 11)[1] == s[10]);
    octets::lemma_worth16(f.window);
    assert(s.subrange(11, 19) =~= octets::be64(f.seq));
    assert(s.skip(19) =~= f.data);
}

/// Parsing the bytes of a frame gives the frame back.
pub proof fn lemma_frame_round_trip(f: FrameModel)
    requires
        !has_flag(f.flags, RESERVED_MASK),
    ensures
        frame_of(frame_bytes(f)) == Some(f),
{
    let s = frame_bytes(f);
    assert(s.subrange(1, 9) =~= octets::be64(f.ack_num));
    assert(s.subrange(9, 11) =~= octets::be16(f.window));
    assert(s.subrange(11, 19) =~= octets::be64(f.seq));
    assert(s.skip(CHANNEL_HEADER_LEN as int) =~= f.data);
    octets::lemma_be64_at(s, 1, f.ack_num);
    octets::lemma_be16_at(s, 9, f.window);
    octets::lemma_be64_at(s, 11, f.seq);
}

impl ChannelFrame {
    /// The bytes of the frame.
    pub fn serialize(&self) -> (out: Vec<u8>)
        ensures
            out@ == frame_bytes(self@),
    {
        let mut out: Vec<u8> = Vec::new();
        out.push(self.flags);
        push_be64(&mut out, self.ack_num);
        push_be16(&mut out, self.window);
        push_be64(&mut out, self.seq);
        push_all(&mut out, self.data.as_slice());
        assert(out@ =~= frame_bytes(self@));
        out
    }

    /// Parses one frame; `None` where it is too short or sets a reserved flag.
    pub fn parse(buf: &[u8]) -> (r: Option<ChannelFrame>)
        ensures
            r is Some <==> frame_of(buf@) is Some,
            r matches Some(f) ==> frame_of(buf@) == Some(f@),
    {
        if buf.len() < CHANNEL_HEADER_LEN {
            return None;
        }
        let flags = buf[0];
        if flags & RESERVED_MASK != 0 {
            return None;
        }
        let data = copy_range(buf, CHANNEL_HEADER_LEN, buf.len());
        assert(data@ =~= buf@.skip(CHANNEL_HEADER_LEN as int));
        Some(
            ChannelFrame {
                flags,
                ack_num: get_be64(buf, 1),
                window: get_be16(buf, 9),
                seq: get_be64(buf, 11),
                data,
            },
        )
    }

    fn consumes_seq(&self) -> (r: bool)
        ensures
            r == consumes(self@),
    {
        self.flags & FLAG_SYN != 0 || self.flags & FLAG_FIN != 0 || self.data.len() > 0
    }
}

/// What is no frame: what is shorter than a header, or sets one of the four flags that are kept for
/// later. Everything else is one.
pub proof fn lemma_frame_refused(s: Seq<u8>)
    ensures
        frame_of(s) is Some <==> s.len() >= 19 && s[0] & 0xF0 == 0,
{
}

/// Where a connection stands.
#[derive(Debug, Clone, Copy, PartialEq, Eq, Structural)]
pub enum ConnState {
    Closed,
    SynSent,
    Established,
    FinSent,
}

/// A numbered frame that the peer has not acknowledged.
pub struct Unacked {
    pub flags: u8,
    pub seq: u64,
    pub data: Vec<u8>,
}

/// What an unacknowledged frame says.
#[verifier::ext_equal]
pub struct UnackedModel {
    pub flags: u8,
    pub seq: u64,
    pub data: Seq<u8>,
}

impl View for Unacked {
    type V = UnackedModel;

    open spec fn view(&self) -> UnackedModel {
        UnackedModel { flags: self.flags, seq: self.seq, data: self.data@ }
    }
}

/// The state of a connection.
#[verifier::ext_equal]
pub struct CoreModel {
    pub state: ConnState,
    pub send_next: u64,
    pub unacked: Seq<UnackedModel>,
    pub send_queue: Seq<Seq<u8>>,
    pub peer_window: u16,
    pub closing: bool,
    pub rcv_next: u64,
    pub recv_buffer: Map<u64, FrameModel>,
    pub partials: Seq<PartialModel>,
    /// The latest time that the connection was told.
    pub clock: u64,
    /// How often in a row frames were sent again with none of them acknowledged.
    pub retries: u32,
    pub window: u16,
    pub rto: u64,
    pub outbox: Seq<Seq<u8>>,
    pub delivered: Seq<Seq<u8>>,
    pub just_established: bool,
    pub peer_closed: bool,
}

impl CoreModel {
    /// The numbers that are still to be given out, less the chunks that wait for one.
    pub open spec fn room(self) -> int {
        u64::MAX - self.send_next - self.send_queue.len()
    }

    /// How many frames may be in flight.
    pub open spec fn limit(self) -> int {
        if self.peer_window > 1 {
            self.peer_window as int
        } else {
            1
        }
    }

    /// How many frames from the next expected on are taken in.
    pub open spec fn reach(self) -> int {
        if self.window > 1 {
            self.window as int
        } else {
            1
        }
    }

    /// Whether the number `seq` is past what is taken in. The last number of all, which no
    /// sender gives out, always is.
    pub open spec fn beyond(self, seq: u64) -> bool {
        seq == u64::MAX || seq - self.rcv_next >= self.reach()
    }

    /// Whether the connection stands.
    pub open spec fn stands(self) -> bool {
        self.state == ConnState::Established || self.state == ConnState::FinSent
    }
}

/// The connection at the time `now`: messages that wait too long for their chunks are dropped.
pub open spec fn aged(m: CoreModel, now: u64) -> CoreModel {
    let clock = if now > m.clock {
        now
    } else {
        m.clock
    };
    CoreModel { partials: fragment::advanced(m.partials, clock), clock, ..m }
}

/// The connection as torn down: nothing is sent any more, nor sent again.
pub open spec fn torn_down(m: CoreModel) -> CoreModel {
    CoreModel {
        state: ConnState::Closed,
        peer_closed: true,
        unacked: Seq::empty(),
        send_queue: Seq::empty(),
        ..m
    }
}

/// Puts a frame into the outbox, stamped with the present acknowledgment and window.
pub open spec fn emitted(m: CoreModel, flags: u8, seq: u64, data: Seq<u8>) -> CoreModel {
    let frame = FrameModel { flags, ack_num: m.rcv_next, window: m.window, seq, data };
    CoreModel { outbox: m.outbox.push(frame_bytes(frame)), ..m }
}

/// Gives a frame the next number, keeps it until it is acknowledged, and emits it.
pub open spec fn sent(m: CoreModel, flags: u8, data: Seq<u8>) -> CoreModel {
    let kept = UnackedModel { flags, seq: m.send_next, data };
    emitted(
        CoreModel {
            send_next: (m.send_next + 1) as u64,
            unacked: m.unacked.push(kept),
            ..m
        },
        flags,
        m.send_next,
        data,
    )
}

/// Emits a frame that only acknowledges; it shows the next number and does not take it.
pub open spec fn acknowledged(m: CoreModel) -> CoreModel {
    emitted(m, FLAG_ACK, m.send_next, Seq::empty())
}

/// Opens the connection, if it is closed.
pub open spec fn connected(m: CoreModel) -> CoreModel {
    if m.state == ConnState::Closed {
        sent(CoreModel { state: ConnState::SynSent, ..m }, FLAG_SYN, Seq::empty())
    } else {
        m
    }
}

/// How many waiting chunks the peer's window lets out.
pub open spec fn sendable(m: CoreModel) -> int {
    let free = m.limit() - m.unacked.len();
    if free <= 0 {
        0
    } else if free < m.send_queue.len() {
        free
    } else {
        m.send_queue.len() as int
    }
}

/// Sends the first `n` waiting chunks.
pub open spec fn chunks_sent(m: CoreModel, n: int) -> CoreModel
    decreases n,
{
    if n <= 0 {
        m
    } else {
        let p = chunks_sent(m, n - 1);
        sent(CoreModel { send_queue: p.send_queue.skip(1), ..p }, FLAG_ACK, p.send_queue[0])
    }
}

/// Once established, sends what the window lets out, and closes when asked to and nothing is
/// left to send.
#[verifier::opaque]
pub open spec fn pumped(m: CoreModel) -> CoreModel {
    if m.state != ConnState::Established {
        m
    } else {
        let p = chunks_sent(m, sendable(m));
        if p.closing && p.send_queue.len() == 0 && p.unacked.len() < p.limit() {
            CoreModel {
                state: ConnState::FinSent,
                closing: false,
                ..sent(p, FLAG_FIN | FLAG_ACK, Seq::empty())
            }
        } else {
            p
        }
    }
}

/// Queues a message in chunks under the id `id`, and sends what the window lets out.
#[verifier::opaque]
pub open spec fn message_sent(m: CoreModel, msg: Seq<u8>, id: Seq<u8>) -> CoreModel {
    let chunks = fragment::chunks_of(msg, MAX_CHUNK_PAYLOAD as int, id).map_values(
        |c: fragment::ChunkModel| fragment::chunk_bytes(c),
    );
    pumped(CoreModel { send_queue: m.send_queue + chunks, ..m })
}

/// How many of the unacknowledged frames, which bear consecutive numbers up to the next, are
/// numbered below `ack_num`.
pub open spec fn acked_count(m: CoreModel, ack_num: u64) -> int {
    let first = m.send_next - m.unacked.len();
    if ack_num <= first {
        0
    } else if ack_num >= m.send_next {
        m.unacked.len() as int
    } else {
        ack_num - first
    }
}

/// Forgets the frames that `ack_num` acknowledges. If there are any, the peer is there.
pub open spec fn acked(m: CoreModel, ack_num: u64) -> CoreModel {
    CoreModel {
        unacked: m.unacked.skip(acked_count(m, ack_num)),
        retries: if acked_count(m, ack_num) > 0 {
            0
        } else {
            m.retries
        },
        ..m
    }
}

/// The bytes in which an unacknowledged frame is sent again.
pub open spec fn resent(m: CoreModel, u: UnackedModel) -> Seq<u8> {
    frame_bytes(
        FrameModel { flags: u.flags, ack_num: m.rcv_next, window: m.window, seq: u.seq, data: u.data },
    )
}

/// Emits every unacknowledged frame again, unless that was done too often in a row: then the
/// peer is taken to be gone.
pub open spec fn timed_out(m: CoreModel) -> CoreModel {
    if m.unacked.len() == 0 {
        m
    } else if m.retries >= MAX_RETRIES {
        torn_down(m)
    } else {
        CoreModel {
            outbox: m.outbox + m.unacked.map_values(|u: UnackedModel| resent(m, u)),
            retries: (m.retries + 1) as u32,
            ..m
        }
    }
}

/// Takes the frame that was next in order: a close is answered by ours, data goes to the
/// reassembler, and a message that it completes is delivered.
#[verifier::opaque]
pub open spec fn taken(m: CoreModel, f: FrameModel) -> CoreModel {
    let m1 = CoreModel {
        rcv_next: (m.rcv_next + 1) as u64,
        recv_buffer: m.recv_buffer.remove(m.rcv_next),
        ..m
    };
    if has_flag(f.flags, FLAG_FIN) {
        let m2 = CoreModel { peer_closed: true, ..m1 };
        if m.state == ConnState::Established {
            CoreModel {
                state: ConnState::FinSent,
                ..sent(m2, FLAG_FIN | FLAG_ACK, Seq::empty())
            }
        } else {
            m2
        }
    } else if f.data.len() > 0 {
        let (partials, out) = fragment::fed(m1.partials, f.data, m1.clock);
        CoreModel {
            partials,
            delivered: match out {
                Some(msg) => m1.delivered.push(msg),
                None => m1.delivered,
            },
            ..m1
        }
    } else {
        m1
    }
}

/// Takes the buffered frames that are next in order, as far as they go.
pub open spec fn drained(m: CoreModel) -> CoreModel
    decreases u64::MAX - m.rcv_next,
{
    if m.rcv_next < u64::MAX && m.recv_buffer.contains_key(m.rcv_next) {
        proof {
            reveal(taken);
        }
        drained(taken(m, m.recv_buffer[m.rcv_next]))
    } else {
        m
    }
}

/// Takes in a frame of an established connection: one that takes up no number is done with,
/// one that was seen or is too far ahead is only answered by an acknowledgment, a new one is
/// buffered and whatever is then in order is taken.
#[verifier::opaque]
pub open spec fn arrived(m: CoreModel, f: FrameModel) -> CoreModel {
    if !consumes(f) {
        m
    } else if f.seq < m.rcv_next || m.recv_buffer.contains_key(f.seq) || m.beyond(f.seq) {
        acknowledged(m)
    } else {
        acknowledged(drained(CoreModel { recv_buffer: m.recv_buffer.insert(f.seq, f), ..m }))
    }
}

/// The connection as established by the peer's opening frame `f`.
pub open spec fn established(m: CoreModel, f: FrameModel) -> CoreModel {
    CoreModel {
        rcv_next: (f.seq + 1) as u64,
        state: ConnState::Established,
        just_established: true,
        ..m
    }
}

/// Takes in one frame.
#[verifier::opaque]
pub open spec fn received(m: CoreModel, f: FrameModel) -> CoreModel {
    let m0 = CoreModel { peer_window: f.window, ..acked(m, f.ack_num) };
    let syn = has_flag(f.flags, FLAG_SYN);
    if has_flag(f.flags, FLAG_RST) {
        torn_down(m0)
    } else if m.stands() {
        pumped(arrived(m0, f))
    } else if !syn {
        m0
    } else if m.state == ConnState::SynSent && has_flag(f.flags, FLAG_ACK) {
        pumped(acknowledged(established(m0, f)))
    } else {
        sent(established(m0, f), FLAG_SYN | FLAG_ACK, Seq::empty())
    }
}

/// What holds of every connection: unacknowledged frames bear consecutive numbers up to the
/// next one, and no frame waits under the last number of all.
pub open spec fn core_wf(m: CoreModel) -> bool {
    &&& m.unacked.len() <= m.send_next
    &&& forall|i: int|
        0 <= i < m.unacked.len() ==> (#[trigger] m.unacked[i]).seq == m.send_next - m.unacked.len() + i
    &&& !m.recv_buffer.contains_key(u64::MAX)
    &&& fragment::partials_wf(m.partials)
    &&& m.retries <= MAX_RETRIES
}

/// Whether a frame can be taken in: one that opens the connection must leave a number to
/// expect next.
pub open spec fn can_receive(m: CoreModel, f: FrameModel) -> bool {
    ||| f.seq < u64::MAX
    ||| m.stands()
    ||| has_flag(f.flags, FLAG_RST)
    ||| !has_flag(f.flags, FLAG_SYN)
}

/// What the sender put under each of its numbers: the flags and the data. These stay the same
/// when a frame is sent again.
pub type SentFrames = Map<u64, (u8, Seq<u8>)>;

/// The reassembler's state and the messages that the sender's frames numbered from `from` up
/// to `to` give when each is taken once, in order.
pub open spec fn in_order(frames: SentFrames, from: u64, to: u64) -> (
    Seq<PartialModel>,
    Seq<Seq<u8>>,
)
    decreases to,
{
    if to <= from {
        (Seq::empty(), Seq::empty())
    } else {
        let last = (to - 1) as u64;
        let before = in_order(frames, from, last);
        let (flags, data) = frames[last];
        if has_flag(flags, FLAG_FIN) || data.len() == 0 {
            before
        } else {
            let (partials, out) = fragment::fed(before.0, data, 0);
            (
                partials,
                match out {
                    Some(msg) => before.1.push(msg),
                    None => before.1,
                },
            )
        }
    }
}

/// Whether what was received so far, with the messages `given` handed out before, is what the
/// sender's frames numbered from `from` on give in order, and only frames of the sender are
/// buffered.
pub open spec fn follows(
    m: CoreModel,
    given: Seq<Seq<u8>>,
    frames: SentFrames,
    from: u64,
) -> bool {
    &&& from <= m.rcv_next
    &&& (fragment::undated(m.partials), given + m.delivered) == in_order(frames, from, m.rcv_next)
    &&& !m.recv_buffer.contains_key(u64::MAX)
    &&& forall|k: u64|
        m.recv_buffer.contains_key(k) ==> ((#[trigger] m.recv_buffer[k]).flags, m.recv_buffer[k].data)
            == frames[k]
}

/// Whether a receiver follows its sender, and has taken whatever it could.
pub open spec fn in_step(
    m: CoreModel,
    given: Seq<Seq<u8>>,
    frames: SentFrames,
    from: u64,
) -> bool {
    follows(m, given, frames, from) && !m.recv_buffer.contains_key(m.rcv_next)
}

/// Whether two states have received the same.
pub open spec fn same_received(a: CoreModel, b: CoreModel) -> bool {
    &&& a.rcv_next == b.rcv_next
    &&& a.partials == b.partials
    &&& a.delivered == b.delivered
    &&& a.recv_buffer == b.recv_buffer
    &&& a.clock == b.clock
    &&& a.window == b.window
}

/// Sending waiting chunks takes them off the queue, puts them in flight, and touches nothing that
/// was received.
pub proof fn lemma_chunks_sent(m: CoreModel, n: int)
    requires
        0 <= n <= m.send_queue.len(),
    ensures
        same_received(chunks_sent(m, n), m),
        chunks_sent(m, n).unacked.len() == m.unacked.len() + n,
        chunks_sent(m, n).send_queue == m.send_queue.skip(n),
        chunks_sent(m, n).peer_window == m.peer_window,
        chunks_sent(m, n).state == m.state,
        forall|i: int|
            0 <= i < m.unacked.len() ==> #[trigger] chunks_sent(m, n).unacked[i] == m.unacked[i],
    decreases n,
{
    if n > 0 {
        lemma_chunks_sent(m, n - 1);
        assert(m.send_queue.skip(n - 1).skip(1) =~= m.send_queue.skip(n));
    } else {
        assert(m.send_queue.skip(0) =~= m.send_queue);
    }
}

/// Sending touches nothing that was received, keeps what is in flight, and stays within the
/// peer's window.
pub proof fn lemma_pumped(m: CoreModel)
    ensures
        pumped(m).rcv_next == m.rcv_next,
        pumped(m).partials == m.partials,
        pumped(m).delivered == m.delivered,
        pumped(m).recv_buffer == m.recv_buffer,
        pumped(m).clock == m.clock,
        pumped(m).window == m.window,
        m.stands() ==> pumped(m).stands(),
        m.unacked.len() <= pumped(m).unacked.len(),
        forall|i: int| 0 <= i < m.unacked.len() ==> #[trigger] pumped(m).unacked[i] == m.unacked[i],
        pumped(m).unacked.len() <= m.limit() || pumped(m).unacked.len() == m.unacked.len(),
{
    reveal(pumped);
    lemma_chunks_sent(m, sendable(m));
}

/// Whether the frame numbered `n` has been taken or is buffered.
pub open spec fn has_got(m: CoreModel, n: u64) -> bool {
    n < m.rcv_next || m.recv_buffer.contains_key(n)
}

proof fn lemma_drained(m: CoreModel, given: Seq<Seq<u8>>, frames: SentFrames, from: u64)
    requires
        follows(m, given, frames, from),
    ensures
        in_step(drained(m), given, frames, from),
        m.rcv_next <= drained(m).rcv_next,
        drained(m).clock == m.clock,
        drained(m).window == m.window,
        m.stands() ==> drained(m).stands(),
        forall|n: u64| #[trigger] has_got(drained(m), n) <==> has_got(m, n),
    decreases u64::MAX - m.rcv_next,
{
    reveal(taken);
    if m.rcv_next < u64::MAX && m.recv_buffer.contains_key(m.rcv_next) {
        let f = m.recv_buffer[m.rcv_next];
        let next = taken(m, f);
        assert(next.rcv_next - 1 == m.rcv_next);
        assert((f.flags, f.data) == frames[m.rcv_next]);
        if !has_flag(f.flags, FLAG_FIN) && f.data.len() > 0 {
            fragment::lemma_undated_fed(m.partials, f.data, m.clock);
            if let Some(msg) = fragment::fed(m.partials, f.data, m.clock).1 {
                assert(given + m.delivered.push(msg) =~= (given + m.delivered).push(msg));
            }
        }
        lemma_drained(next, given, frames, from);
        assert forall|n: u64| #[trigger] has_got(drained(m), n) <==> has_got(m, n) by {
            assert(has_got(drained(next), n) <==> has_got(next, n));
        }
    }
}

/// Whatever frames arrive, in whatever order and however often, the messages delivered are
/// those that the sender's frames give in order, each taken once: a frame keeps the receiver
/// in step with its sender.
pub proof fn lemma_in_order_delivery(
    m: CoreModel,
    f: FrameModel,
    given: Seq<Seq<u8>>,
    frames: SentFrames,
    from: u64,
)
    requires
        m.stands(),
        in_step(m, given, frames, from),
        consumes(f) ==> (f.flags, f.data) == frames[f.seq],
    ensures
        in_step(received(m, f), given, frames, from),
{
    reveal(received);
    reveal(arrived);
    let m0 = CoreModel { peer_window: f.window, ..acked(m, f.ack_num) };
    if !has_flag(f.flags, FLAG_RST) {
        if consumes(f) && !(f.seq < m0.rcv_next || m0.recv_buffer.contains_key(f.seq)
            || m0.beyond(f.seq)) {
            let start = CoreModel { recv_buffer: m0.recv_buffer.insert(f.seq, f), ..m0 };
            lemma_drained(start, given, frames, from);
        }
        lemma_pumped(arrived(m0, f));
    }
}

/// Nothing that arrived is lost, and nothing is taken that did not arrive: after a frame, the
/// receiver has got exactly the numbers that it had before, and the frame's own if it takes
/// one up and is not too far ahead. The connection still stands, and goes no way back.
pub proof fn lemma_arrival_kept(
    m: CoreModel,
    f: FrameModel,
    given: Seq<Seq<u8>>,
    frames: SentFrames,
    from: u64,
)
    requires
        m.stands(),
        in_step(m, given, frames, from),
        consumes(f) ==> (f.flags, f.data) == frames[f.seq],
        !has_flag(f.flags, FLAG_RST),
    ensures
        forall|n: u64| #[trigger]
            has_got(received(m, f), n) <==> has_got(m, n) || consumes(f) && !m.beyond(f.seq) && n
                == f.seq,
        m.rcv_next <= received(m, f).rcv_next,
        received(m, f).stands(),
        received(m, f).window == m.window,
        received(m, f).clock == m.clock,
{
    reveal(received);
    reveal(arrived);
    let m0 = CoreModel { peer_window: f.window, ..acked(m, f.ack_num) };
    lemma_pumped(arrived(m0, f));
    if consumes(f) && !(f.seq < m0.rcv_next || m0.recv_buffer.contains_key(f.seq) || m0.beyond(
        f.seq,
    )) {
        let start = CoreModel { recv_buffer: m0.recv_buffer.insert(f.seq, f), ..m0 };
        lemma_drained(start, given, frames, from);
        assert forall|n: u64| #[trigger] has_got(received(m, f), n) <==> has_got(m, n)
            || consumes(f) && !m.beyond(f.seq) && n == f.seq by {
            assert(has_got(drained(start), n) <==> has_got(start, n));
        }
    }
}

/// A frame that was taken before changes nothing that was received.
pub proof fn lemma_duplicate_ignored(m: CoreModel, f: FrameModel)
    requires
        m.stands(),
        f.seq < m.rcv_next,
        consumes(f),
        !has_flag(f.flags, FLAG_RST),
    ensures
        received(m, f).rcv_next == m.rcv_next,
        received(m, f).delivered == m.delivered,
        received(m, f).partials == m.partials,
        received(m, f).recv_buffer == m.recv_buffer,
{
    reveal(received);
    reveal(arrived);
    let m0 = CoreModel { peer_window: f.window, ..acked(m, f.ack_num) };
    lemma_pumped(arrived(m0, f));
}

/// An acknowledgment forgets exactly the frames numbered below it.
pub proof fn lemma_acked(m: CoreModel, ack_num: u64)
    requires
        core_wf(m),
    ensures
        0 <= acked_count(m, ack_num) <= m.unacked.len(),
        forall|i: int|
            0 <= i < m.unacked.len() ==> ((#[trigger] m.unacked[i]).seq < ack_num <==> i < acked_count(
                m,
                ack_num,
            )),
        core_wf(acked(m, ack_num)),
{
    let n = acked_count(m, ack_num);
    let k = acked(m, ack_num).unacked;
    assert forall|i: int| 0 <= i < k.len() implies (#[trigger] k[i]).seq == m.send_next - k.len() + i by {
        assert(k[i] == m.unacked[i + n]);
    }
}

/// A frame stays in flight until it is acknowledged: whatever arrives but a reset, every unacknowledged
/// frame numbered at or above the acknowledgment it brings is still there, to be sent again.
pub proof fn lemma_unacked_kept(m: CoreModel, f: FrameModel, i: int)
    requires
        core_wf(m),
        0 <= i < m.unacked.len(),
        m.unacked[i].seq >= f.ack_num,
        !has_flag(f.flags, FLAG_RST),
    ensures
        received(m, f).unacked.contains(m.unacked[i]),
{
    reveal(received);
    reveal(arrived);
    lemma_acked(m, f.ack_num);
    let n = acked_count(m, f.ack_num);
    let m0 = CoreModel { peer_window: f.window, ..acked(m, f.ack_num) };
    let j = i - n;
    assert(m0.unacked[j] == m.unacked[i]);
    let r = received(m, f);
    if m.stands() {
        let a = arrived(m0, f);
        if consumes(f) && !(f.seq < m0.rcv_next || m0.recv_buffer.contains_key(f.seq)
            || m0.beyond(f.seq)) {
            let start = CoreModel { recv_buffer: m0.recv_buffer.insert(f.seq, f), ..m0 };
            lemma_drained_unacked(start);
            assert(drained(start).unacked[j] == start.unacked[j]);
        }
        assert(a.unacked[j] == m.unacked[i]);
        lemma_pumped(a);
        assert(r.unacked[j] == m.unacked[i]);
    } else if !has_flag(f.flags, FLAG_SYN) {
        assert(r.unacked[j] == m.unacked[i]);
    } else if m.state == ConnState::SynSent && has_flag(f.flags, FLAG_ACK) {
        let a = acknowledged(established(m0, f));
        assert(a.unacked[j] == m.unacked[i]);
        lemma_pumped(a);
        assert(r.unacked[j] == m.unacked[i]);
    } else {
        assert(r.unacked[j] == m.unacked[i]);
    }
}

proof fn lemma_drained_unacked(m: CoreModel)
    ensures
        m.unacked.len() <= drained(m).unacked.len(),
        forall|i: int| 0 <= i < m.unacked.len() ==> #[trigger] drained(m).unacked[i] == m.unacked[i],
    decreases u64::MAX - m.rcv_next,
{
    reveal(taken);
    if m.rcv_next < u64::MAX && m.recv_buffer.contains_key(m.rcv_next) {
        lemma_drained_unacked(taken(m, m.recv_buffer[m.rcv_next]));
    }
}

/// A connection that was reset, whatever was in flight, sends nothing again, and keeps no frame
/// for which a timer would run.
pub proof fn lemma_reset_is_silent(m: CoreModel, f: FrameModel)
    requires
        has_flag(f.flags, FLAG_RST),
    ensures
        received(m, f).state == ConnState::Closed,
        received(m, f).peer_closed,
        received(m, f).outbox == m.outbox,
        received(m, f).unacked.len() == 0,
        received(m, f).send_queue.len() == 0,
        timed_out(received(m, f)) == received(m, f),
{
    reveal(received);
}

/// A peer that has gone is given up: once frames were sent again as often as they may be with
/// none of them acknowledged, the next timeout sends nothing and closes the connection.
pub proof fn lemma_gone_peer_given_up(m: CoreModel)
    requires
        m.unacked.len() > 0,
        m.retries >= MAX_RETRIES,
    ensures
        timed_out(m).state == ConnState::Closed,
        timed_out(m).peer_closed,
        timed_out(m).outbox == m.outbox,
        timed_out(timed_out(m)) == timed_out(m),
{
}

/// A retransmission puts every unacknowledged frame back into the outbox, under its own number
/// and with its own flags and data.
pub proof fn lemma_retransmission(m: CoreModel, i: int)
    requires
        m.retries < MAX_RETRIES,
        0 <= i < m.unacked.len(),
        !has_flag(m.unacked[i].flags, RESERVED_MASK),
    ensures
        timed_out(m).outbox.len() == m.outbox.len() + m.unacked.len(),
        frame_of(timed_out(m).outbox[m.outbox.len() + i]) == Some(
            FrameModel {
                flags: m.unacked[i].flags,
                ack_num: m.rcv_next,
                window: m.window,
                seq: m.unacked[i].seq,
                data: m.unacked[i].data,
            },
        ),
{
    let f = FrameModel {
        flags: m.unacked[i].flags,
        ack_num: m.rcv_next,
        window: m.window,
        seq: m.unacked[i].seq,
        data: m.unacked[i].data,
    };
    lemma_frame_round_trip(f);
}

/// The state of a connection that was never used, with the receive window `window`.
pub open spec fn fresh(window: u16, rto: u64) -> CoreModel {
    CoreModel {
        state: ConnState::Closed,
        send_next: 0,
        unacked: Seq::empty(),
        send_queue: Seq::empty(),
        peer_window: DEFAULT_WINDOW,
        closing: false,
        rcv_next: 0,
        recv_buffer: Map::empty(),
        partials: Seq::empty(),
        clock: 0,
        retries: 0,
        window,
        rto,
        outbox: Seq::empty(),
        delivered: Seq::empty(),
        just_established: false,
        peer_closed: false,
    }
}

/// Takes everything out of the outbox.
pub open spec fn flushed(m: CoreModel) -> CoreModel {
    CoreModel { outbox: Seq::empty(), ..m }
}

/// The three-way handshake: the opening frame, its answer and the acknowledgment of that
/// establish both ends, each expecting the other's number one, with nothing left in flight.
pub proof fn lemma_handshake(window_a: u16, window_b: u16, rto: u64)
    ensures
        ({
            let a1 = connected(fresh(window_a, rto));
            let syn = FrameModel {
                flags: FLAG_SYN,
                ack_num: 0,
                window: window_a,
                seq: 0,
                data: Seq::empty(),
            };
            let b1 = received(fresh(window_b, rto), syn);
            let syn_ack = FrameModel {
                flags: FLAG_SYN | FLAG_ACK,
                ack_num: 1,
                window: window_b,
                seq: 0,
                data: Seq::empty(),
            };
            let a2 = received(flushed(a1), syn_ack);
            let ack = FrameModel {
                flags: FLAG_ACK,
                ack_num: 1,
                window: window_a,
                seq: 1,
                data: Seq::empty(),
            };
            let b2 = received(flushed(b1), ack);
            &&& a1.state == ConnState::SynSent
            &&& a1.outbox == seq![frame_bytes(syn)]
            &&& b1.state == ConnState::Established
            &&& b1.outbox == seq![frame_bytes(syn_ack)]
            &&& a2.state == ConnState::Established
            &&& a2.just_established
            &&& a2.outbox == seq![frame_bytes(ack)]
            &&& a2.unacked.len() == 0
            &&& a2.rcv_next == 1
            &&& b2.state == ConnState::Established
            &&& b2.unacked.len() == 0
            &&& b2.rcv_next == 1
            &&& b2.outbox.len() == 0
        }),
{
    reveal(received);
    reveal(arrived);
    reveal(pumped);
    assert(1u8 & 8u8 == 0 && 1u8 & 1u8 != 0 && 1u8 & 4u8 == 0 && (1u8 | 4u8) & 8u8 == 0 && (1u8 | 4u8)
        & 1u8 != 0 && (1u8 | 4u8) & 4u8 != 0 && 4u8 & 8u8 == 0 && 4u8 & 1u8 == 0 && 4u8 & 2u8 == 0)
        by (bit_vector);
    let a1 = connected(fresh(window_a, rto));
    let syn = FrameModel {
        flags: FLAG_SYN,
        ack_num: 0,
        window: window_a,
        seq: 0,
        data: Seq::empty(),
    };
    assert(a1.outbox =~= seq![frame_bytes(syn)]);
    let b1 = received(fresh(window_b, rto), syn);
    let syn_ack = FrameModel {
        flags: FLAG_SYN | FLAG_ACK,
        ack_num: 1,
        window: window_b,
        seq: 0,
        data: Seq::empty(),
    };
    assert(b1.outbox =~= seq![frame_bytes(syn_ack)]);
    let a2 = received(flushed(a1), syn_ack);
    let ack = FrameModel {
        flags: FLAG_ACK,
        ack_num: 1,
        window: window_a,
        seq: 1,
        data: Seq::empty(),
    };
    assert(a2.outbox =~= seq![frame_bytes(ack)]);
    let b2 = received(flushed(b1), ack);
    assert(b2.outbox =~= Seq::empty());
}

/// Opening a closed connection sends one opening frame, under the next number, and keeps it until
/// it is acknowledged; what waits to be sent goes on waiting. A connection that is not closed is
/// not opened again.
pub proof fn lemma_opens_once(m: CoreModel)
    requires
        m.send_next < u64::MAX,
    ensures
        ({
            let r = connected(m);
            let syn = FrameModel {
                flags: FLAG_SYN,
                ack_num: m.rcv_next,
                window: m.window,
                seq: m.send_next,
                data: Seq::empty(),
            };
            &&& m.state != ConnState::Closed ==> r == m
            &&& m.state == ConnState::Closed ==> {
                &&& r.state == ConnState::SynSent
                &&& r.outbox == m.outbox.push(frame_bytes(syn))
                &&& r.unacked == m.unacked.push(
                    UnackedModel { flags: FLAG_SYN, seq: m.send_next, data: Seq::empty() },
                )
                &&& r.send_next == m.send_next + 1
                &&& r.send_queue == m.send_queue
                &&& r.closing == m.closing
            }
            &&& connected(r) == r
        }),
{
}

proof fn lemma_drained_has_got(m: CoreModel, n: u64)
    requires
        !m.recv_buffer.contains_key(u64::MAX),
    ensures
        has_got(drained(m), n) <==> has_got(m, n),
        m.rcv_next <= drained(m).rcv_next,
        !drained(m).recv_buffer.contains_key(drained(m).rcv_next),
        drained(m).window == m.window,
        drained(m).peer_window == m.peer_window,
        drained(m).retries == m.retries,
        m.stands() ==> drained(m).stands(),
    decreases u64::MAX - m.rcv_next,
{
    reveal(taken);
    if m.rcv_next < u64::MAX && m.recv_buffer.contains_key(m.rcv_next) {
        let next = taken(m, m.recv_buffer[m.rcv_next]);
        lemma_drained_has_got(next, n);
        assert(has_got(next, n) <==> has_got(m, n));
    }
}

/// How far ahead frames are taken in: a frame of a standing connection that takes up a number is
/// kept if that number is less than a window past the next that is expected, a window of nought
/// counting as one, and is not the last number of all; any other is not. Nothing that was got is
/// lost, and a frame that is next in order does not wait.
#[verifier::spinoff_prover]
#[verifier::rlimit(40)]
pub proof fn lemma_window_taken_in(m: CoreModel, f: FrameModel, n: u64)
    requires
        m.stands(),
        !m.recv_buffer.contains_key(u64::MAX),
        !m.recv_buffer.contains_key(m.rcv_next),
        !has_flag(f.flags, FLAG_RST),
    ensures
        ({
            let r = received(m, f);
            let reach = if m.window > 1 {
                m.window as int
            } else {
                1
            };
            &&& has_got(r, n) <==> has_got(m, n) || n == f.seq && (has_flag(f.flags, FLAG_SYN)
                || has_flag(f.flags, FLAG_FIN) || f.data.len() > 0) && f.seq < m.rcv_next + reach
                && f.seq < u64::MAX
            &&& m.rcv_next <= r.rcv_next
            &&& !r.recv_buffer.contains_key(r.rcv_next)
            &&& r.peer_window == f.window
        }),
{
    reveal(received);
    reveal(arrived);
    let m0 = CoreModel { peer_window: f.window, ..acked(m, f.ack_num) };
    let a = arrived(m0, f);
    if consumes(f) && !(f.seq < m0.rcv_next || m0.recv_buffer.contains_key(f.seq) || m0.beyond(
        f.seq,
    )) {
        lemma_drained_has_got(CoreModel { recv_buffer: m0.recv_buffer.insert(f.seq, f), ..m0 }, n);
    }
    lemma_pumped(a);
    lemma_pumped_window(a);
}

proof fn lemma_pumped_window(m: CoreModel)
    ensures
        pumped(m).peer_window == m.peer_window,
        pumped(m).retries == m.retries,
        pumped(m).just_established == m.just_established,
        m.outbox.len() <= pumped(m).outbox.len(),
        forall|i: int| 0 <= i < m.outbox.len() ==> #[trigger] pumped(m).outbox[i] == m.outbox[i],
        m.send_queue.len() == 0 && !m.closing ==> pumped(m) == m,
        m.state != ConnState::Established ==> pumped(m) == m,
{
    reveal(pumped);
    lemma_chunks_sent_outbox(m, sendable(m));
}

proof fn lemma_chunks_sent_outbox(m: CoreModel, n: int)
    ensures
        chunks_sent(m, n).peer_window == m.peer_window,
        chunks_sent(m, n).retries == m.retries,
        chunks_sent(m, n).just_established == m.just_established,
        m.outbox.len() <= chunks_sent(m, n).outbox.len(),
        forall|i: int|
            0 <= i < m.outbox.len() ==> #[trigger] chunks_sent(m, n).outbox[i] == m.outbox[i],
    decreases n,
{
    if n > 0 {
        lemma_chunks_sent_outbox(m, n - 1);
    }
}

proof fn lemma_drained_outbox(m: CoreModel)
    ensures
        m.outbox.len() <= drained(m).outbox.len(),
        forall|i: int| 0 <= i < m.outbox.len() ==> #[trigger] drained(m).outbox[i] == m.outbox[i],
    decreases u64::MAX - m.rcv_next,
{
    reveal(taken);
    if m.rcv_next < u64::MAX && m.recv_buffer.contains_key(m.rcv_next) {
        lemma_drained_outbox(taken(m, m.recv_buffer[m.rcv_next]));
    }
}

/// A frame of a standing connection that takes up a number is answered, whether it is new, old or
/// too far ahead, by an acknowledgment of everything up to the number that is then expected. One
/// that takes up none is not answered: with nothing to send, nothing goes out.
#[verifier::spinoff_prover]
#[verifier::rlimit(40)]
pub proof fn lemma_frames_are_acknowledged(m: CoreModel, f: FrameModel)
    requires
        m.stands(),
        !has_flag(f.flags, FLAG_RST),
    ensures
        ({
            let r = received(m, f);
            &&& has_flag(f.flags, FLAG_SYN) || has_flag(f.flags, FLAG_FIN) || f.data.len() > 0
                ==> exists|i: int, seq: u64|
                m.outbox.len() <= i < r.outbox.len() && #[trigger] r.outbox[i] == #[trigger] frame_bytes(
                    FrameModel {
                        flags: FLAG_ACK,
                        ack_num: r.rcv_next,
                        window: m.window,
                        seq,
                        data: Seq::empty(),
                    },
                )
            &&& !has_flag(f.flags, FLAG_SYN) && !has_flag(f.flags, FLAG_FIN) && f.data.len() == 0
                && m.send_queue.len() == 0 && !m.closing ==> r.outbox == m.outbox
        }),
{
    reveal(received);
    reveal(arrived);
    let m0 = CoreModel { peer_window: f.window, ..acked(m, f.ack_num) };
    let a = arrived(m0, f);
    let r = received(m, f);
    lemma_pumped(a);
    lemma_pumped_window(a);
    if consumes(f) {
        if f.seq < m0.rcv_next || m0.recv_buffer.contains_key(f.seq) || m0.beyond(f.seq) {
            assert(a.outbox[a.outbox.len() - 1] == r.outbox[a.outbox.len() - 1]);
        } else {
            let start = CoreModel { recv_buffer: m0.recv_buffer.insert(f.seq, f), ..m0 };
            lemma_drained_outbox(start);
            lemma_drained_window(start);
        }
        let last = a.outbox.len() - 1;
        assert(r.outbox[last] == a.outbox[last]);
        let seq = if f.seq < m0.rcv_next || m0.recv_buffer.contains_key(f.seq) || m0.beyond(f.seq) {
            m0.send_next
        } else {
            drained(CoreModel { recv_buffer: m0.recv_buffer.insert(f.seq, f), ..m0 }).send_next
        };
        assert(r.outbox[last] == frame_bytes(
            FrameModel {
                flags: FLAG_ACK,
                ack_num: r.rcv_next,
                window: m.window,
                seq,
                data: Seq::empty(),
            },
        ));
    }
}

proof fn lemma_drained_window(m: CoreModel)
    ensures
        drained(m).window == m.window,
        drained(m).retries == m.retries,
    decreases u64::MAX - m.rcv_next,
{
    reveal(taken);
    if m.rcv_next < u64::MAX && m.recv_buffer.contains_key(m.rcv_next) {
        lemma_drained_window(taken(m, m.recv_buffer[m.rcv_next]));
    }
}

/// The peer's opening frame establishes a connection that does not stand, whichever end opened
/// first, and the number behind its own is expected next. It is answered: an answer to our own
/// opening by an acknowledgment, any other by an opening frame of ours that acknowledges it and
/// is kept until it is acknowledged itself. A frame that does not open changes nothing there but
/// what it acknowledges and the peer's window, and is not answered.
pub proof fn lemma_opening_establishes(m: CoreModel, f: FrameModel)
    requires
        !m.stands(),
        !has_flag(f.flags, FLAG_RST),
        f.seq < u64::MAX,
        m.send_next < u64::MAX,
    ensures
        ({
            let r = received(m, f);
            &&& has_flag(f.flags, FLAG_SYN) ==> {
                let answer = FrameModel {
                    flags: if m.state == ConnState::SynSent && has_flag(f.flags, FLAG_ACK) {
                        FLAG_ACK
                    } else {
                        FLAG_SYN | FLAG_ACK
                    },
                    ack_num: (f.seq + 1) as u64,
                    window: m.window,
                    seq: m.send_next,
                    data: Seq::empty(),
                };
                &&& r.stands()
                &&& r.just_established
                &&& r.rcv_next == f.seq + 1
                &&& r.outbox.len() > m.outbox.len()
                &&& r.outbox[m.outbox.len() as int] == frame_bytes(answer)
                &&& !(m.state == ConnState::SynSent && has_flag(f.flags, FLAG_ACK)) ==> {
                    &&& r.state == ConnState::Established
                    &&& r.outbox.len() == m.outbox.len() + 1
                    &&& r.unacked.len() > 0
                    &&& r.unacked.last() == (UnackedModel {
                        flags: FLAG_SYN | FLAG_ACK,
                        seq: m.send_next,
                        data: Seq::empty(),
                    })
                    &&& r.send_next == m.send_next + 1
                    &&& r.send_queue == m.send_queue
                }
            }
            &&& !has_flag(f.flags, FLAG_SYN) ==> {
                &&& r.state == m.state
                &&& r.outbox == m.outbox
                &&& r.rcv_next == m.rcv_next
                &&& r.recv_buffer == m.recv_buffer
                &&& r.delivered == m.delivered
                &&& r.send_queue == m.send_queue
                &&& r.send_next == m.send_next
                &&& r.just_established == m.just_established
                &&& r.peer_closed == m.peer_closed
            }
            &&& r.peer_window == f.window
        }),
{
    reveal(received);
    let m0 = CoreModel { peer_window: f.window, ..acked(m, f.ack_num) };
    let a = acknowledged(established(m0, f));
    lemma_pumped(a);
    lemma_pumped_window(a);
    assert(pumped(a).outbox[m.outbox.len() as int] == a.outbox[m.outbox.len() as int]);
}

/// An acknowledgment is heeded: whatever else a frame brings, but for a reset, no frame that it
/// acknowledges is still in flight afterwards, and if there was one, the count of retries starts
/// anew; if not, it goes on.
pub proof fn lemma_acknowledged_is_forgotten(m: CoreModel, f: FrameModel, i: int)
    requires
        core_wf(m),
        !has_flag(f.flags, FLAG_RST),
        f.ack_num <= m.send_next,
        m.send_next + m.send_queue.len() < u64::MAX,
        0 <= i < received(m, f).unacked.len(),
    ensures
        received(m, f).unacked[i].seq >= f.ack_num,
{
    reveal(received);
    reveal(arrived);
    lemma_acked(m, f.ack_num);
    let m0 = CoreModel { peer_window: f.window, ..acked(m, f.ack_num) };
    let n = acked_count(m, f.ack_num);
    assert forall|j: int| 0 <= j < m0.unacked.len() implies (#[trigger] m0.unacked[j]).seq
        >= f.ack_num by {
        assert(m0.unacked[j] == m.unacked[j + n]);
    }
    if m.stands() {
        if consumes(f) && !(f.seq < m0.rcv_next || m0.recv_buffer.contains_key(f.seq)
            || m0.beyond(f.seq)) {
            lemma_drained_above(
                CoreModel { recv_buffer: m0.recv_buffer.insert(f.seq, f), ..m0 },
                f.ack_num,
            );
        }
        lemma_pumped_above(arrived(m0, f), f.ack_num);
    } else if has_flag(f.flags, FLAG_SYN) {
        if m.state == ConnState::SynSent && has_flag(f.flags, FLAG_ACK) {
            lemma_pumped_above(acknowledged(established(m0, f)), f.ack_num);
        }
    }
}

/// Whether all frames in flight, and those to come, are numbered from `low` on.
spec fn all_above(m: CoreModel, low: u64) -> bool {
    &&& forall|j: int| 0 <= j < m.unacked.len() ==> (#[trigger] m.unacked[j]).seq >= low
    &&& m.send_next >= low
    &&& m.send_next + m.send_queue.len() < u64::MAX || m.state != ConnState::Established
}

proof fn lemma_drained_above(m: CoreModel, low: u64)
    requires
        all_above(m, low),
    ensures
        all_above(drained(m), low),
    decreases u64::MAX - m.rcv_next,
{
    reveal(taken);
    if m.rcv_next < u64::MAX && m.recv_buffer.contains_key(m.rcv_next) {
        lemma_drained_above(taken(m, m.recv_buffer[m.rcv_next]), low);
    }
}

proof fn lemma_pumped_above(m: CoreModel, low: u64)
    requires
        all_above(m, low),
    ensures
        forall|j: int| 0 <= j < pumped(m).unacked.len() ==> (#[trigger] pumped(m).unacked[j]).seq
            >= low,
{
    reveal(pumped);
    if m.state == ConnState::Established {
        lemma_chunks_above(m, sendable(m), low);
    }
}

proof fn lemma_chunks_above(m: CoreModel, n: int, low: u64)
    requires
        all_above(m, low),
        m.state == ConnState::Established,
        0 <= n <= m.send_queue.len(),
    ensures
        all_above(chunks_sent(m, n), low),
        chunks_sent(m, n).send_next == m.send_next + n,
        chunks_sent(m, n).send_queue == m.send_queue.skip(n),
        chunks_sent(m, n).state == m.state,
    decreases n,
{
    if n > 0 {
        lemma_chunks_above(m, n - 1, low);
        assert(m.send_queue.skip(n - 1).skip(1) =~= m.send_queue.skip(n));
    } else {
        assert(m.send_queue.skip(0) =~= m.send_queue);
    }
}

/// How often frames are sent again is counted from the last acknowledgment that was news: a
/// frame that acknowledges one in flight sets the count back, any other leaves it, and sending
/// again adds one and changes nothing else but what is put out.
pub proof fn lemma_retries_counted(m: CoreModel, f: FrameModel)
    requires
        core_wf(m),
        !has_flag(f.flags, FLAG_RST),
    ensures
        received(m, f).retries == if exists|i: int|
            0 <= i < m.unacked.len() && (#[trigger] m.unacked[i]).seq < f.ack_num {
            0
        } else {
            m.retries
        },
        m.unacked.len() > 0 && m.retries < MAX_RETRIES ==> timed_out(m).retries == m.retries + 1
            && timed_out(m) == (CoreModel {
            retries: timed_out(m).retries,
            outbox: timed_out(m).outbox,
            ..m
        }),
        m.unacked.len() == 0 ==> timed_out(m) == m,
{
    reveal(received);
    reveal(arrived);
    lemma_acked(m, f.ack_num);
    let m0 = CoreModel { peer_window: f.window, ..acked(m, f.ack_num) };
    let n = acked_count(m, f.ack_num);
    if n > 0 {
        assert(m.unacked[0].seq < f.ack_num);
    }
    if m.stands() {
        if consumes(f) && !(f.seq < m0.rcv_next || m0.recv_buffer.contains_key(f.seq)
            || m0.beyond(f.seq)) {
            lemma_drained_window(CoreModel { recv_buffer: m0.recv_buffer.insert(f.seq, f), ..m0 });
        }
        lemma_pumped_window(arrived(m0, f));
    } else {
        lemma_pumped_window(acknowledged(established(m0, f)));
    }
}

proof fn lemma_drained_closed(m: CoreModel)
    ensures
        m.state == ConnState::FinSent ==> drained(m).state == ConnState::FinSent
            && drained(m).outbox == m.outbox && drained(m).unacked == m.unacked,
        m.peer_closed ==> drained(m).peer_closed,
    decreases u64::MAX - m.rcv_next,
{
    reveal(taken);
    if m.rcv_next < u64::MAX && m.recv_buffer.contains_key(m.rcv_next) {
        lemma_drained_closed(taken(m, m.recv_buffer[m.rcv_next]));
    }
}

/// The peer's close, when its turn comes, is noted and answered: by a closing frame of ours, which
/// is kept until it is acknowledged, if we have not sent ours; and by an acknowledgment in any
/// case.
#[verifier::spinoff_prover]
#[verifier::rlimit(40)]
pub proof fn lemma_close_is_answered(m: CoreModel, f: FrameModel)
    requires
        m.stands(),
        !has_flag(f.flags, FLAG_RST),
        has_flag(f.flags, FLAG_FIN),
        f.seq == m.rcv_next,
        m.rcv_next < u64::MAX,
        m.send_next < u64::MAX,
        !m.recv_buffer.contains_key(m.rcv_next),
    ensures
        ({
            let r = received(m, f);
            let fin = FrameModel {
                flags: FLAG_FIN | FLAG_ACK,
                ack_num: (m.rcv_next + 1) as u64,
                window: m.window,
                seq: m.send_next,
                data: Seq::empty(),
            };
            &&& r.peer_closed
            &&& r.state == ConnState::FinSent
            &&& m.state == ConnState::Established ==> {
                &&& r.outbox.len() == m.outbox.len() + 2
                &&& r.outbox[m.outbox.len() as int] == frame_bytes(fin)
                &&& r.unacked.len() > 0
                &&& r.unacked.last() == (UnackedModel {
                    flags: FLAG_FIN | FLAG_ACK,
                    seq: m.send_next,
                    data: Seq::empty(),
                })
            }
            &&& m.state == ConnState::FinSent ==> r.outbox.len() == m.outbox.len() + 1
        }),
{
    reveal(received);
    reveal(arrived);
    reveal(taken);
    let m0 = CoreModel { peer_window: f.window, ..acked(m, f.ack_num) };
    let start = CoreModel { recv_buffer: m0.recv_buffer.insert(f.seq, f), ..m0 };
    assert(!m0.beyond(f.seq));
    assert(start.recv_buffer[start.rcv_next] == f);
    let next = taken(start, f);
    assert(drained(start) == drained(next));
    lemma_drained_closed(next);
    lemma_pumped_window(arrived(m0, f));
}

/// A reset or giving up the peer takes back nothing that was received: what was delivered and not
/// yet handed out still is, and nothing is delivered by it.
pub proof fn lemma_teardown_keeps_deliveries(m: CoreModel, f: FrameModel)
    ensures
        has_flag(f.flags, FLAG_RST) ==> received(m, f).delivered == m.delivered && received(
            m,
            f,
        ).rcv_next == m.rcv_next,
        timed_out(m).delivered == m.delivered,
        timed_out(m).rcv_next == m.rcv_next,
{
    reveal(received);
}

/// Telling a connection the time drops messages that wait too long for their chunks, and does
/// nothing else. The time that it goes by does not go back.
#[verifier::spinoff_prover]
#[verifier::rlimit(40)]
pub proof fn lemma_time_told(m: CoreModel, now: u64)
    ensures
        ({
            let r = aged(m, now);
            &&& r.clock >= m.clock
            &&& r.clock >= now
            &&& r.clock == m.clock || r.clock == now
            &&& r == (CoreModel { clock: r.clock, partials: r.partials, ..m })
            &&& fragment::dated(m.partials, m.clock) ==> forall|p: PartialModel|
                #[trigger] r.partials.contains(p) <==> m.partials.contains(p) && r.clock <= p.since
                    + 30_000
        }),
{
    let r = aged(m, now);
    if fragment::dated(m.partials, m.clock) {
        let n = fragment::expired_count(m.partials, r.clock);
        assert forall|p: PartialModel| #[trigger] r.partials.contains(p) <==> m.partials.contains(p)
            && r.clock <= p.since + 30_000 by {
            if m.partials.contains(p) {
                let i = m.partials.index_of(p);
                fragment::lemma_lifetime(m.partials, m.clock, r.clock, i);
                if r.clock <= p.since + 30_000 {
                    assert(r.partials[i - n] == p);
                }
            }
            if r.partials.contains(p) {
                let j = r.partials.index_of(p);
                assert(m.partials.len() > 0 || m.partials.skip(n).len() == 0);
                fragment::lemma_expired_bounds(m.partials, r.clock);
                assert(m.partials[j + n] == p);
                fragment::lemma_lifetime(m.partials, m.clock, r.clock, j + n);
            }
        }
    }
}

/// The state machine of one connection. What it wants sent stands in `outbox`, what it
/// received in `delivered`.
pub struct ChannelCore {
    pub state: ConnState,
    pub send_next: u64,
    pub unacked: VecDeque<Unacked>,
    pub send_queue: VecDeque<Vec<u8>>,
    pub peer_window: u16,
    pub closing: bool,
    pub rcv_next: u64,
    pub recv_buffer: BTreeMap<u64, ChannelFrame>,
    pub reassembler: Reassembler,
    pub retries: u32,
    pub window: u16,
    pub rto: u64,
    pub outbox: Vec<Vec<u8>>,
    pub delivered: Vec<Vec<u8>>,
    pub just_established: bool,
    pub peer_closed: bool,
}

impl View for ChannelCore {
    type V = CoreModel;

    open spec fn view(&self) -> CoreModel {
        CoreModel {
            state: self.state,
            send_next: self.send_next,
            unacked: self.unacked@.map_values(|u: Unacked| u@),
            send_queue: self.send_queue@.map_values(|c: Vec<u8>| c@),
            peer_window: self.peer_window,
            closing: self.closing,
            rcv_next: self.rcv_next,
            recv_buffer: self.recv_buffer@.map_values(|f: ChannelFrame| f@),
            partials: self.reassembler@,
            clock: self.reassembler.clock(),
            retries: self.retries,
            window: self.window,
            rto: self.rto,
            outbox: octets::views(self.outbox@),
            delivered: octets::views(self.delivered@),
            just_established: self.just_established,
            peer_closed: self.peer_closed,
        }
    }
}

impl ChannelCore {
    /// What holds of every connection.
    pub open spec fn wf(&self) -> bool {
        core_wf(self@) && self.reassembler.wf()
    }

    /// A closed connection with the given receive window and retransmission timeout.
    pub fn new(window: u16, rto: u64) -> (r: Self)
        ensures
            r.wf(),
            r@ == fresh(window, rto),
    {
        let r = ChannelCore {
            state: ConnState::Closed,
            send_next: 0,
            unacked: VecDeque::new(),
            send_queue: VecDeque::new(),
            peer_window: DEFAULT_WINDOW,
            closing: false,
            rcv_next: 0,
            recv_buffer: BTreeMap::new(),
            reassembler: Reassembler::new(),
            retries: 0,
            window,
            rto,
            outbox: Vec::new(),
            delivered: Vec::new(),
            just_established: false,
            peer_closed: false,
        };
        proof {
            assert(r@.unacked =~= Seq::empty());
            assert(r@.send_queue =~= Seq::empty());
            assert(r@.outbox =~= Seq::empty());
            assert(r@.delivered =~= Seq::empty());
            assert(r@.recv_buffer =~= Map::empty());
        }
        r
    }

    /// Tells the connection the time: messages that wait too long for their chunks are dropped.
    pub fn advance(&mut self, now: u64)
        requires
            old(self).wf(),
        ensures
            final(self).wf(),
            final(self)@ == aged(old(self)@, now),
            final(self).rto == old(self).rto,
    {
        self.reassembler.advance(now);
        assert(self@ =~= aged(old(self)@, now));
    }

    fn tear_down(&mut self)
        requires
            old(self).wf(),
        ensures
            final(self).wf(),
            final(self)@ == torn_down(old(self)@),
            final(self).rto == old(self).rto,
    {
        self.state = ConnState::Closed;
        self.peer_closed = true;
        self.unacked = VecDeque::new();
        self.send_queue = VecDeque::new();
        assert(self@.unacked =~= Seq::empty());
        assert(self@.send_queue =~= Seq::empty());
        assert(self@ =~= torn_down(old(self)@));
    }

    /// Whether a frame waits for its acknowledgment.
    pub fn has_unacked(&self) -> (r: bool)
        ensures
            r == (self@.unacked.len() > 0),
    {
        self.unacked.len() > 0
    }

    fn emit(&mut self, flags: u8, seq: u64, data: Vec<u8>)
        ensures
            final(self)@ == emitted(old(self)@, flags, seq, data@),
            final(self).reassembler == old(self).reassembler,
            final(self).rto == old(self).rto,
    {
        let frame = ChannelFrame {
            flags,
            ack_num: self.rcv_next,
            window: self.window,
            seq,
            data,
        };
        self.outbox.push(frame.serialize());
        assert(self@ =~= emitted(old(self)@, flags, seq, data@));
    }

    fn emit_reliable(&mut self, flags: u8, data: Vec<u8>)
        requires
            old(self).send_next < u64::MAX,
            old(self).wf(),
        ensures
            final(self)@ == sent(old(self)@, flags, data@),
            final(self).wf(),
            final(self).reassembler == old(self).reassembler,
            final(self).rto == old(self).rto,
    {
        let seq = self.send_next;
        self.send_next = self.send_next + 1;
        let copy = vstd::slice::slice_to_vec(data.as_slice());
        self.unacked.push_back(Unacked { flags, seq, data: copy });
        let ghost kept = CoreModel {
            send_next: (seq + 1) as u64,
            unacked: old(self)@.unacked.push(UnackedModel { flags, seq, data: data@ }),
            ..old(self)@
        };
        assert(self@ =~= kept);
        self.emit(flags, seq, data);
    }

    fn emit_pure_ack(&mut self)
        ensures
            final(self)@ == acknowledged(old(self)@),
            final(self).reassembler == old(self).reassembler,
            final(self).rto == old(self).rto,
    {
        let seq = self.send_next;
        let empty: Vec<u8> = Vec::new();
        self.emit(FLAG_ACK, seq, empty);
    }

    /// Opens the connection; nothing happens unless it is closed.
    pub fn connect(&mut self)
        requires
            old(self).wf(),
            old(self).send_next < u64::MAX,
        ensures
            final(self).wf(),
            final(self)@ == connected(old(self)@),
            final(self).rto == old(self).rto,
    {
        if self.state != ConnState::Closed {
            return;
        }
        self.state = ConnState::SynSent;
        assert(self@ =~= (CoreModel { state: ConnState::SynSent, ..old(self)@ }));
        let empty: Vec<u8> = Vec::new();
        self.emit_reliable(FLAG_SYN, empty);
    }

    fn pump(&mut self)
        requires
            old(self).wf(),
            old(self)@.room() >= 1 || old(self).state != ConnState::Established,
        ensures
            final(self).wf(),
            final(self)@ == pumped(old(self)@),
            final(self).rto == old(self).rto,
    {
        reveal(pumped);
        if self.state != ConnState::Established {
            return;
        }
        let limit: usize = if self.peer_window > 1 {
            self.peer_window as usize
        } else {
            1
        };
        let ghost m = old(self)@;
        let ghost mut n: int = 0;
        while self.send_queue.len() > 0 && self.unacked.len() < limit
            invariant
                self.rto == old(self).rto,
                self.wf(),
                m == old(self)@,
                limit == m.limit(),
                0 <= n <= m.send_queue.len(),
                self@ == chunks_sent(m, n),
                self@.room() == m.room(),
                self@.send_queue == m.send_queue.skip(n),
                self@.unacked.len() == m.unacked.len() + n,
                self@.state == m.state,
                self@.closing == m.closing,
                self@.peer_window == m.peer_window,
                m.room() >= 1,
                n == 0 || self@.unacked.len() <= limit,
            decreases m.send_queue.len() - n,
        {
            let ghost p = self@;
            match self.send_queue.pop_front() {
                Some(data) => {
                    assert(self@ =~= (CoreModel { send_queue: p.send_queue.skip(1), ..p }));
                    self.emit_reliable(FLAG_ACK, data);
                    proof {
                        n = n + 1;
                        assert(p.send_queue.skip(1) =~= m.send_queue.skip(n));
                    }
                },
                None => {},
            }
        }
        assert(n == sendable(m));
        if self.closing && self.send_queue.len() == 0 && self.unacked.len() < limit {
            let empty: Vec<u8> = Vec::new();
            let ghost p = self@;
            self.emit_reliable(FLAG_FIN | FLAG_ACK, empty);
            self.state = ConnState::FinSent;
            self.closing = false;
            assert(self@ =~= pumped(m));
        } else {
            assert(self@ =~= pumped(m));
        }
    }

    /// Queues a message in chunks under the id `id`, and sends what the window lets out.
    pub fn send_message_as(&mut self, msg: &[u8], id: &[u8; 16])
        requires
            old(self).wf(),
            pieces::piece_count(msg@.len() as int, MAX_CHUNK_PAYLOAD as int) <= 0xFFFF,
            old(self)@.room() > fragment::chunk_data(msg@, MAX_CHUNK_PAYLOAD as int).len(),
        ensures
            final(self).wf(),
            final(self)@ == message_sent(old(self)@, msg@, id@),
            final(self).rto == old(self).rto,
    {
        reveal(message_sent);
        let ghost m = old(self)@;
        let mut chunks = fragment(msg, MAX_CHUNK_PAYLOAD, id);
        let ghost all = octets::views(chunks@);
        let ghost total = chunks@.len() as int;
        let ghost mut done: int = 0;
        while chunks.len() > 0
            invariant
                self.rto == old(self).rto,
                self.wf(),
                0 <= done <= total,
                total == all.len(),
                chunks@.len() == total - done,
                octets::views(chunks@) == all.skip(done),
                self@ == (CoreModel { send_queue: m.send_queue + all.take(done), ..m }),
            decreases chunks@.len(),
        {
            let ghost before = chunks@;
            let chunk = chunks.remove(0);
            proof {
                assert(octets::views(before)[0] == all[done]);
                assert(octets::views(chunks@) =~= octets::views(before).skip(1));
                assert(all.skip(done).skip(1) =~= all.skip(done + 1));
                assert(all.take(done + 1) =~= all.take(done).push(all[done]));
                done = done + 1;
            }
            let ghost queue = self@.send_queue;
            assert(chunk@ == all[done - 1]);
            self.send_queue.push_back(chunk);
            assert(self@.send_queue =~= queue.push(all[done - 1]));
            assert(self@ =~= (CoreModel { send_queue: m.send_queue + all.take(done), ..m }));
        }
        assert(all.take(done) =~= all);
        self.pump();
    }

    /// Queues a message in chunks under an id drawn at random, and sends what the window lets
    /// out.
    pub fn send_message(&mut self, msg: &[u8])
        requires
            old(self).wf(),
            pieces::piece_count(msg@.len() as int, MAX_CHUNK_PAYLOAD as int) <= 0xFFFF,
            old(self)@.room() > fragment::chunk_data(msg@, MAX_CHUNK_PAYLOAD as int).len(),
        ensures
            final(self).wf(),
            exists|id: [u8; 16]| final(self)@ == #[trigger] message_sent(old(self)@, msg@, id@),
            final(self).rto == old(self).rto,
    {
        let id = random16();
        self.send_message_as(msg, &id);
    }

    /// Starts to close: the closing frame follows what is still to be sent.
    pub fn close(&mut self)
        requires
            old(self).wf(),
            old(self)@.room() >= 1,
        ensures
            final(self).wf(),
            final(self)@ == pumped(CoreModel { closing: true, ..old(self)@ }),
            final(self).rto == old(self).rto,
    {
        self.closing = true;
        assert(self@ =~= (CoreModel { closing: true, ..old(self)@ }));
        self.pump();
    }

    fn ack(&mut self, ack_num: u64)
        requires
            old(self).wf(),
        ensures
            final(self).wf(),
            final(self)@ == acked(old(self)@, ack_num),
            final(self).reassembler == old(self).reassembler,
            final(self).rto == old(self).rto,
    {
        let ghost m = old(self)@;
        let ghost mut n: int = 0;
        assert(m.unacked.skip(0) =~= m.unacked);
        let before: usize = self.unacked.len();
        while self.unacked.len() > 0 && self.unacked[0].seq < ack_num
            invariant
                self.rto == old(self).rto,
                self.wf(),
                m == old(self)@,
                core_wf(m),
                self.reassembler == old(self).reassembler,
                0 <= n <= m.unacked.len(),
                self@ == (CoreModel { unacked: m.unacked.skip(n), ..m }),
                n > 0 ==> m.unacked[n - 1].seq < ack_num,
            decreases m.unacked.len() - n,
        {
            let ghost p = self@;
            assert(p.unacked[0] == m.unacked[n]);
            self.unacked.pop_front();
            proof {
                n = n + 1;
                assert(p.unacked.skip(1) =~= m.unacked.skip(n));
                assert(self@ =~= (CoreModel { unacked: m.unacked.skip(n), ..m }));
            }
        }
        assert(n < m.unacked.len() ==> self@.unacked[0] == m.unacked[n]);
        assert(n == acked_count(m, ack_num));
        if self.unacked.len() < before {
            self.retries = 0;
        }
        assert(self@ =~= acked(m, ack_num));
    }

    /// Sends every unacknowledged frame again, or gives the peer up.
    pub fn on_timeout(&mut self)
        requires
            old(self).wf(),
        ensures
            final(self).wf(),
            final(self)@ == timed_out(old(self)@),
            final(self).rto == old(self).rto,
    {
        let ghost m = old(self)@;
        if self.unacked.len() == 0 {
            return;
        }
        if self.retries >= MAX_RETRIES {
            self.tear_down();
            return;
        }
        let ghost again = m.unacked.map_values(|u: UnackedModel| resent(m, u));
        let mut i: usize = 0;
        assert(m.outbox + again.take(0) =~= m.outbox);
        while i < self.unacked.len()
            invariant
                self.rto == old(self).rto,
                self.wf(),
                m == old(self)@,
                again == m.unacked.map_values(|u: UnackedModel| resent(m, u)),
                0 <= i <= self.unacked@.len(),
                self@ == (CoreModel { outbox: m.outbox + again.take(i as int), ..m }),
            decreases self.unacked@.len() - i,
        {
            let flags = self.unacked[i].flags;
            let seq = self.unacked[i].seq;
            let data = vstd::slice::slice_to_vec(self.unacked[i].data.as_slice());
            assert(m.unacked[i as int] == self.unacked@[i as int]@) by {
                assert(self@.unacked[i as int] == self.unacked@[i as int]@);
            }
            self.emit(flags, seq, data);
            assert(again.take(i + 1) =~= again.take(i as int).push(again[i as int]));
            i = i + 1;
            assert(self@ =~= (CoreModel { outbox: m.outbox + again.take(i as int), ..m }));
        }
        assert(again.take(i as int) =~= again);
        self.retries = self.retries + 1;
        assert(self@ =~= timed_out(m));
    }

    /// Takes in one frame.
    pub fn on_frame(&mut self, f: ChannelFrame)
        requires
            old(self).wf(),
            old(self)@.room() >= 1,
            can_receive(old(self)@, f@),
        ensures
            final(self).wf(),
            final(self)@ == received(old(self)@, f@),
            final(self).rto == old(self).rto,
    {
        reveal(received);
        let ghost m = old(self)@;
        self.ack(f.ack_num);
        self.peer_window = f.window;
        let ghost m0 = CoreModel { peer_window: f.window, ..acked(m, f.ack_num) };
        assert(self@ =~= m0);
        if f.flags & FLAG_RST != 0 {
            self.tear_down();
            return;
        }
        if self.state == ConnState::Established || self.state == ConnState::FinSent {
            self.deliver(f);
            self.pump();
        } else if f.flags & FLAG_SYN != 0 {
            let waiting = self.state == ConnState::SynSent;
            self.establish(&f);
            if waiting && f.flags & FLAG_ACK != 0 {
                self.emit_pure_ack();
                self.pump();
            } else {
                let empty: Vec<u8> = Vec::new();
                self.emit_reliable(FLAG_SYN | FLAG_ACK, empty);
            }
        }
    }

    fn establish(&mut self, f: &ChannelFrame)
        requires
            old(self).wf(),
            f.seq < u64::MAX,
        ensures
            final(self).wf(),
            final(self)@ == established(old(self)@, f@),
            final(self).reassembler == old(self).reassembler,
            final(self).rto == old(self).rto,
    {
        self.rcv_next = f.seq + 1;
        self.state = ConnState::Established;
        self.just_established = true;
        assert(self@ =~= established(old(self)@, f@));
    }

    fn take(&mut self, fr: ChannelFrame)
        requires
            old(self).wf(),
            old(self)@.room() >= 1 || old(self)@.state != ConnState::Established,
            old(self).rcv_next < u64::MAX,
            !old(self)@.recv_buffer.contains_key(old(self).rcv_next),
        ensures
            final(self).wf(),
            final(self)@ == taken(old(self)@, fr@),
            final(self)@.room() >= 1 || final(self)@.state != ConnState::Established,
            final(self).rto == old(self).rto,
    {
        reveal(taken);
        let ghost p = old(self)@;
        self.rcv_next = self.rcv_next + 1;
        let ghost m1 = CoreModel {
            rcv_next: (p.rcv_next + 1) as u64,
            recv_buffer: p.recv_buffer.remove(p.rcv_next),
            ..p
        };
        assert(p.recv_buffer.remove(p.rcv_next) =~= p.recv_buffer);
        assert(self@ =~= m1);
        if fr.flags & FLAG_FIN != 0 {
            self.peer_closed = true;
            assert(self@ =~= (CoreModel { peer_closed: true, ..m1 }));
            if self.state == ConnState::Established {
                let empty: Vec<u8> = Vec::new();
                self.emit_reliable(FLAG_FIN | FLAG_ACK, empty);
                self.state = ConnState::FinSent;
            }
            assert(self@ =~= taken(p, fr@));
        } else if fr.data.len() > 0 {
            match self.reassembler.feed(fr.data.as_slice()) {
                Some(msg) => {
                    self.delivered.push(msg);
                },
                None => {},
            }
            assert(self@ =~= taken(p, fr@));
        }
    }

    fn deliver(&mut self, f: ChannelFrame)
        requires
            old(self).wf(),
            old(self)@.room() >= 1,
        ensures
            final(self).wf(),
            final(self)@ == arrived(old(self)@, f@),
            final(self)@.room() >= 1 || final(self)@.state != ConnState::Established,
            final(self).rto == old(self).rto,
    {
        reveal(arrived);
        if !f.consumes_seq() {
            return;
        }
        let ghost m = old(self)@;
        let ghost model = f@;
        if f.seq < self.rcv_next || self.recv_buffer.contains_key(&f.seq) {
            assert(m.recv_buffer.contains_key(f.seq) == self.recv_buffer@.contains_key(f.seq));
            self.emit_pure_ack();
            return;
        }
        let reach: u64 = if self.window > 1 {
            self.window as u64
        } else {
            1
        };
        if f.seq == u64::MAX || f.seq - self.rcv_next >= reach {
            assert(m.beyond(f.seq));
            self.emit_pure_ack();
            return;
        }
        assert(!m.recv_buffer.contains_key(f.seq));
        self.recv_buffer.insert(f.seq, f);
        let ghost start = CoreModel { recv_buffer: m.recv_buffer.insert(model.seq, model), ..m };
        assert(self@ =~= start);
        loop
            invariant
                self.rto == old(self).rto,
                self.wf(),
                drained(self@) == drained(start),
                self@.room() >= 1 || self@.state != ConnState::Established,
            ensures
                self.rto == old(self).rto,
                self.wf(),
                self@ == drained(start),
                self@.room() >= 1 || self@.state != ConnState::Established,
            decreases u64::MAX - self.rcv_next,
        {
            let next = self.rcv_next;
            let ghost p = self@;
            match self.recv_buffer.remove(&next) {
                None => {
                    assert(!p.recv_buffer.contains_key(next));
                    assert(self@ =~= p);
                    break ;
                },
                Some(fr) => {
                    proof {
                        assert(p.recv_buffer.contains_key(next));
                        assert(next != u64::MAX);
                        assert(p.recv_buffer[next] == fr@);
                        assert(drained(p) == drained(taken(p, fr@)));
                    }
                    let ghost q = self@;
                    assert(q =~= (CoreModel { recv_buffer: p.recv_buffer.remove(next), ..p }));
                    self.take(fr);
                    reveal(taken);
                    assert(q.recv_buffer.remove(next) =~= p.recv_buffer.remove(next));
                },
            }
        }
        self.emit_pure_ack();
    }
}

} // verus!
