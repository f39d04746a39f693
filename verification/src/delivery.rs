//! What one end of a channel sends is what the other hands out: whole, in order and once.
//!
//! The frames of a sender are told by the number that each of them bears. The sender puts under
//! each number what it had planned, however often it sends the frame, and the receiver makes
//! of the frames, in whatever order they come, the messages that they were made of.
use crate::channel::{self, CoreModel, FrameModel, SentFrames, FLAG_ACK, RESERVED_MASK};
use crate::connection::{self, ConnModel, EventModel};
use crate::pieces;
use crate::wire::fragment::{self, PartialModel, MAX_CHUNK_PAYLOAD};
use vstd::prelude::*;

verus! {

/// Messages in the order in which they are sent, each behind the id of its chunks.
pub type Sends = Seq<(Seq<u8>, Seq<u8>)>;

/// The bytes of the chunks that carry a message.
pub open spec fn chunk_list(id: Seq<u8>, msg: Seq<u8>) -> Seq<Seq<u8>> {
    fragment::chunks_of(msg, MAX_CHUNK_PAYLOAD as int, id).map_values(
        |c: fragment::ChunkModel| fragment::chunk_bytes(c),
    )
}

/// The chunks that carry messages, one message after the other.
pub open spec fn queue_of(sends: Sends) -> Seq<Seq<u8>>
    decreases sends.len(),
{
    if sends.len() == 0 {
        Seq::empty()
    } else {
        queue_of(sends.drop_last()) + chunk_list(sends.last().0, sends.last().1)
    }
}

/// The messages themselves.
pub open spec fn messages_of(sends: Sends) -> Seq<Seq<u8>> {
    sends.map_values(|p: (Seq<u8>, Seq<u8>)| p.1)
}

/// Whether messages can be sent: the ids are as long as ids are, and no message takes up more
/// chunks than can be counted.
pub open spec fn fit_to_send(sends: Sends) -> bool {
    forall|i: int|
        0 <= i < sends.len() ==> (#[trigger] sends[i]).0.len() == 16 && chunk_list(
            sends[i].0,
            sends[i].1,
        ).len() <= 0xFFFF
}

/// Whether the frames numbered from `from` on carry these chunks.
pub open spec fn bears(frames: SentFrames, from: int, queue: Seq<Seq<u8>>) -> bool {
    forall|i: int|
        0 <= i < queue.len() ==> frames[(from + i) as u64] == (FLAG_ACK, #[trigger] queue[i])
}

/// The messages among results.
spec fn given_out(outs: Seq<Option<Seq<u8>>>) -> Seq<Seq<u8>>
    decreases outs.len(),
{
    if outs.len() == 0 {
        Seq::empty()
    } else {
        match outs.last() {
            Some(msg) => given_out(outs.drop_last()).push(msg),
            None => given_out(outs.drop_last()),
        }
    }
}

proof fn lemma_nothing_given_out(outs: Seq<Option<Seq<u8>>>)
    requires
        forall|j: int| 0 <= j < outs.len() ==> (#[trigger] outs[j]) is None,
    ensures
        given_out(outs) == Seq::<Seq<u8>>::empty(),
    decreases outs.len(),
{
    if outs.len() > 0 {
        assert forall|j: int| 0 <= j < outs.drop_last().len() implies (#[trigger]
        outs.drop_last()[j]) is None by {
            assert(outs.drop_last()[j] == outs[j]);
        }
        lemma_nothing_given_out(outs.drop_last());
    }
}

proof fn lemma_chunks_in_order(
    frames: SentFrames,
    from: u64,
    base: int,
    id: Seq<u8>,
    msg: Seq<u8>,
    got: Seq<Seq<u8>>,
    k: int,
)
    requires
        from <= base,
        base + chunk_list(id, msg).len() <= u64::MAX,
        channel::in_order(frames, from, base as u64) == (Seq::<PartialModel>::empty(), got),
        bears(frames, base, chunk_list(id, msg)),
        0 <= k <= chunk_list(id, msg).len(),
    ensures
        ({
            let times = Seq::new(chunk_list(id, msg).len(), |j: int| 0u64);
            let fed = fragment::fed_all(Seq::empty(), chunk_list(id, msg).take(k), times);
            channel::in_order(frames, from, (base + k) as u64) == (fed.0, got + given_out(fed.1))
        }),
    decreases k,
{
    let list = chunk_list(id, msg);
    let times = Seq::new(list.len(), |j: int| 0u64);
    if k == 0 {
        assert(list.take(0) =~= Seq::empty());
        assert(got + given_out(Seq::empty()) =~= got);
    } else {
        lemma_chunks_in_order(frames, from, base, id, msg, got, k - 1);
        let before = fragment::fed_all(Seq::empty(), list.take(k - 1), times);
        assert(list.take(k).drop_last() =~= list.take(k - 1));
        assert(list.take(k).last() == list[k - 1]);
        assert(frames[(base + k - 1) as u64] == (FLAG_ACK, list[k - 1]));
        assert(4u8 & 2u8 == 0) by (bit_vector);
        assert(list[k - 1].len() > 0);
        assert(fragment::advanced(before.0, 0) =~= before.0);
        let fed = fragment::fed_all(Seq::empty(), list.take(k), times);
        let out = fragment::fed(before.0, list[k - 1], 0).1;
        assert(fed.1.drop_last() =~= before.1);
        if let Some(whole) = out {
            assert(got + given_out(before.1).push(whole) =~= (got + given_out(before.1)).push(
                whole,
            ));
        }
    }
}

/// The frames that carry messages give these messages when each is taken once, in order, and
/// leave nothing behind.
pub proof fn lemma_messages_in_order(frames: SentFrames, from: u64, sends: Sends)
    requires
        fit_to_send(sends),
        from + queue_of(sends).len() <= u64::MAX,
        bears(frames, from as int, queue_of(sends)),
    ensures
        channel::in_order(frames, from, (from + queue_of(sends).len()) as u64) == (
            Seq::<PartialModel>::empty(),
            messages_of(sends),
        ),
    decreases sends.len(),
{
    if sends.len() == 0 {
        assert(messages_of(sends) =~= Seq::empty());
    } else {
        let front = sends.drop_last();
        let (id, msg) = sends.last();
        let queue = queue_of(front);
        let list = chunk_list(id, msg);
        assert(sends[sends.len() - 1] == sends.last());
        assert forall|i: int| 0 <= i < front.len() implies (#[trigger] front[i]).0.len() == 16
            && chunk_list(front[i].0, front[i].1).len() <= 0xFFFF by {
            assert(front[i] == sends[i]);
        }
        assert forall|i: int| 0 <= i < queue.len() implies frames[(from + i) as u64] == (
            FLAG_ACK,
            #[trigger] queue[i],
        ) by {
            assert(queue_of(sends)[i] == queue[i]);
        }
        let base = from + queue.len();
        assert forall|i: int| 0 <= i < list.len() implies frames[(base + i) as u64] == (
            FLAG_ACK,
            #[trigger] list[i],
        ) by {
            assert(queue_of(sends)[queue.len() + i] == list[i]);
        }
        lemma_messages_in_order(frames, from, front);
        let n = list.len();
        lemma_chunks_in_order(frames, from, base, id, msg, messages_of(front), n as int);
        let times = Seq::new(n, |j: int| 0u64);
        let order = Seq::new(n, |j: int| j);
        assert(fragment::chunks_in_order(msg, MAX_CHUNK_PAYLOAD as int, id, order) =~= list);
        assert(list.take(n as int) =~= list);
        if msg.len() > 0 {
            pieces::lemma_piece_count_positive(msg.len() as int, MAX_CHUNK_PAYLOAD as int);
        }
        pieces::lemma_once_each(order);
        fragment::lemma_fragments_reassemble(
            Seq::empty(),
            msg,
            MAX_CHUNK_PAYLOAD as int,
            id,
            order,
            times,
        );
        let (st, outs) = fragment::fed_all(Seq::empty(), list, times);
        assert(st =~= Seq::empty());
        lemma_nothing_given_out(outs.drop_last());
        assert(given_out(outs) =~= seq![msg]);
        assert(messages_of(sends) =~= messages_of(front) + seq![msg]);
    }
}

/// Whether a sender has planned for these frames: what is in flight stands there under its
/// number, and what waits to be sent comes next.
pub open spec fn planned(m: CoreModel, frames: SentFrames) -> bool {
    &&& forall|i: int|
        0 <= i < m.unacked.len() ==> {
            let u = #[trigger] m.unacked[i];
            frames[u.seq] == (u.flags, u.data) && !channel::has_flag(u.flags, RESERVED_MASK)
        }
    &&& bears(frames, m.send_next as int, m.send_queue)
    &&& m.send_next + m.send_queue.len() <= u64::MAX
}

/// Whether bytes are a frame that bears what stands under its number, if it takes one up.
pub open spec fn honest(bytes: Seq<u8>, frames: SentFrames) -> bool {
    &&& channel::frame_of(bytes) is Some
    &&& channel::consumes(channel::frame_of(bytes)->0) ==> frames[channel::frame_of(bytes)->0.seq]
        == (channel::frame_of(bytes)->0.flags, channel::frame_of(bytes)->0.data)
}

/// Whether a sender keeps to its plan: it has planned for these frames, and sends no others.
pub open spec fn speaks(m: CoreModel, frames: SentFrames) -> bool {
    &&& planned(m, frames)
    &&& forall|i: int| 0 <= i < m.outbox.len() ==> honest(#[trigger] m.outbox[i], frames)
}

proof fn lemma_emitted_honest(m: CoreModel, flags: u8, seq: u64, data: Seq<u8>, frames: SentFrames)
    requires
        !channel::has_flag(flags, RESERVED_MASK),
        channel::consumes(
            FrameModel { flags, ack_num: m.rcv_next, window: m.window, seq, data },
        ) ==> frames[seq] == (flags, data),
        forall|i: int| 0 <= i < m.outbox.len() ==> honest(#[trigger] m.outbox[i], frames),
    ensures
        ({
            let out = channel::emitted(m, flags, seq, data).outbox;
            forall|i: int| 0 <= i < out.len() ==> honest(#[trigger] out[i], frames)
        }),
{
    let f = FrameModel { flags, ack_num: m.rcv_next, window: m.window, seq, data };
    channel::lemma_frame_round_trip(f);
    let out = channel::emitted(m, flags, seq, data).outbox;
    assert forall|i: int| 0 <= i < out.len() implies honest(#[trigger] out[i], frames) by {
        if i < m.outbox.len() {
            assert(out[i] == m.outbox[i]);
        } else {
            assert(out[i] == channel::frame_bytes(f));
        }
    }
}

proof fn lemma_chunks_speak(m: CoreModel, n: int, frames: SentFrames)
    requires
        speaks(m, frames),
        0 <= n <= m.send_queue.len(),
    ensures
        speaks(channel::chunks_sent(m, n), frames),
        channel::chunks_sent(m, n).send_next + channel::chunks_sent(m, n).send_queue.len()
            == m.send_next + m.send_queue.len(),
    decreases n,
{
    if n > 0 {
        lemma_chunks_speak(m, n - 1, frames);
        channel::lemma_chunks_sent(m, n - 1);
        let p = channel::chunks_sent(m, n - 1);
        let data = p.send_queue[0];
        assert(frames[(p.send_next + 0) as u64] == (FLAG_ACK, data));
        assert(4u8 & 0xF0u8 == 0) by (bit_vector);
        let q = CoreModel { send_queue: p.send_queue.skip(1), ..p };
        let kept = channel::UnackedModel { flags: FLAG_ACK, seq: p.send_next, data };
        let r = CoreModel {
            send_next: (q.send_next + 1) as u64,
            unacked: q.unacked.push(kept),
            ..q
        };
        lemma_emitted_honest(r, FLAG_ACK, p.send_next, data, frames);
        let s = channel::chunks_sent(m, n);
        assert(s == channel::emitted(r, FLAG_ACK, p.send_next, data));
        assert forall|i: int| 0 <= i < s.send_queue.len() implies frames[(s.send_next + i) as u64]
            == (FLAG_ACK, #[trigger] s.send_queue[i]) by {
            assert(p.send_queue[i + 1] == s.send_queue[i]);
        }
        assert forall|i: int| 0 <= i < s.unacked.len() implies {
            let u = #[trigger] s.unacked[i];
            frames[u.seq] == (u.flags, u.data) && !channel::has_flag(u.flags, RESERVED_MASK)
        } by {
            if i < p.unacked.len() {
                assert(s.unacked[i] == p.unacked[i]);
            }
        }
    }
}

proof fn lemma_pumped_speaks(m: CoreModel, frames: SentFrames)
    requires
        speaks(m, frames),
        !m.closing,
    ensures
        speaks(channel::pumped(m), frames),
        channel::pumped(m).state == m.state,
        !channel::pumped(m).closing,
        channel::pumped(m).send_next + channel::pumped(m).send_queue.len() == m.send_next
            + m.send_queue.len(),
{
    reveal(channel::pumped);
    lemma_chunks_speak(m, channel::sendable(m), frames);
    lemma_chunks_keep(m, channel::sendable(m));
}

proof fn lemma_chunks_keep(m: CoreModel, n: int)
    ensures
        channel::chunks_sent(m, n).state == m.state,
        channel::chunks_sent(m, n).closing == m.closing,
    decreases n,
{
    if n > 0 {
        lemma_chunks_keep(m, n - 1);
    }
}

/// A sender that sends a message keeps to a plan in which the chunks of the message come next.
pub proof fn lemma_message_planned(
    m: CoreModel,
    id: Seq<u8>,
    msg: Seq<u8>,
    frames: SentFrames,
)
    requires
        speaks(m, frames),
        !m.closing,
        bears(frames, m.send_next + m.send_queue.len(), chunk_list(id, msg)),
        m.send_next + m.send_queue.len() + chunk_list(id, msg).len() <= u64::MAX,
    ensures
        ({
            let after = channel::message_sent(m, msg, id);
            &&& speaks(after, frames)
            &&& after.state == m.state
            &&& !after.closing
            &&& after.send_next + after.send_queue.len() == m.send_next + m.send_queue.len()
                + chunk_list(id, msg).len()
        }),
{
    reveal(channel::message_sent);
    let list = chunk_list(id, msg);
    let queued = CoreModel { send_queue: m.send_queue + list, ..m };
    assert forall|i: int| 0 <= i < queued.send_queue.len() implies frames[(m.send_next + i) as u64]
        == (FLAG_ACK, #[trigger] queued.send_queue[i]) by {
        if i < m.send_queue.len() {
            assert(queued.send_queue[i] == m.send_queue[i]);
        } else {
            assert(queued.send_queue[i] == list[i - m.send_queue.len()]);
        }
    }
    lemma_pumped_speaks(queued, frames);
}

/// A sender that was given messages to send, one after the other.
pub open spec fn sent_all(m: CoreModel, sends: Sends) -> CoreModel
    decreases sends.len(),
{
    if sends.len() == 0 {
        m
    } else {
        channel::message_sent(sent_all(m, sends.drop_last()), sends.last().1, sends.last().0)
    }
}

/// A sender that is given messages keeps to the plan in which their chunks come next, one
/// message after the other.
pub proof fn lemma_messages_planned(m: CoreModel, sends: Sends, frames: SentFrames)
    requires
        speaks(m, frames),
        !m.closing,
        bears(frames, m.send_next + m.send_queue.len(), queue_of(sends)),
        m.send_next + m.send_queue.len() + queue_of(sends).len() <= u64::MAX,
    ensures
        ({
            let after = sent_all(m, sends);
            &&& speaks(after, frames)
            &&& after.state == m.state
            &&& !after.closing
            &&& after.send_next + after.send_queue.len() == m.send_next + m.send_queue.len()
                + queue_of(sends).len()
        }),
    decreases sends.len(),
{
    if sends.len() > 0 {
        let front = sends.drop_last();
        let (id, msg) = sends.last();
        let queue = queue_of(front);
        let list = chunk_list(id, msg);
        let first = m.send_next + m.send_queue.len();
        assert forall|i: int| 0 <= i < queue.len() implies frames[(first + i) as u64] == (
            FLAG_ACK,
            #[trigger] queue[i],
        ) by {
            assert(queue_of(sends)[i] == queue[i]);
        }
        assert forall|i: int| 0 <= i < list.len() implies frames[(first + queue.len() + i) as u64]
            == (FLAG_ACK, #[trigger] list[i]) by {
            assert(queue_of(sends)[queue.len() + i] == list[i]);
        }
        lemma_messages_planned(m, front, frames);
        lemma_message_planned(sent_all(m, front), id, msg, frames);
    }
}

proof fn lemma_drained_sends_nothing(m: CoreModel)
    ensures
        m.state != channel::ConnState::Established ==> channel::drained(m).state == m.state,
        channel::drained(m).state == channel::ConnState::Established ==> {
            &&& channel::drained(m).outbox == m.outbox
            &&& channel::drained(m).unacked == m.unacked
            &&& channel::drained(m).send_next == m.send_next
            &&& channel::drained(m).send_queue == m.send_queue
            &&& channel::drained(m).closing == m.closing
        },
    decreases u64::MAX - m.rcv_next,
{
    reveal(channel::taken);
    if m.rcv_next < u64::MAX && m.recv_buffer.contains_key(m.rcv_next) {
        lemma_drained_sends_nothing(channel::taken(m, m.recv_buffer[m.rcv_next]));
    }
}

/// Whatever arrives, a sender keeps to its plan, as long as neither end closes the connection.
pub proof fn lemma_received_speaks(m: CoreModel, f: FrameModel, frames: SentFrames)
    requires
        channel::core_wf(m),
        speaks(m, frames),
        !m.closing,
        m.state == channel::ConnState::Established,
        channel::received(m, f).state == channel::ConnState::Established,
    ensures
        speaks(channel::received(m, f), frames),
        !channel::received(m, f).closing,
{
    reveal(channel::received);
    reveal(channel::arrived);
    reveal(channel::pumped);
    channel::lemma_acked(m, f.ack_num);
    let m0 = CoreModel { peer_window: f.window, ..channel::acked(m, f.ack_num) };
    let n = channel::acked_count(m, f.ack_num);
    assert forall|i: int| 0 <= i < m0.unacked.len() implies {
        let u = #[trigger] m0.unacked[i];
        frames[u.seq] == (u.flags, u.data) && !channel::has_flag(u.flags, RESERVED_MASK)
    } by {
        assert(m0.unacked[i] == m.unacked[i + n]);
    }
    assert(speaks(m0, frames));
    assert(4u8 & 0xF0u8 == 0 && 4u8 & 1u8 == 0 && 4u8 & 2u8 == 0) by (bit_vector);
    let a = channel::arrived(m0, f);
    if channel::consumes(f) {
        if f.seq < m0.rcv_next || m0.recv_buffer.contains_key(f.seq) || m0.beyond(f.seq) {
            lemma_emitted_honest(m0, FLAG_ACK, m0.send_next, Seq::empty(), frames);
        } else {
            let start = CoreModel { recv_buffer: m0.recv_buffer.insert(f.seq, f), ..m0 };
            let d = channel::drained(start);
            lemma_drained_sends_nothing(start);
            assert(d.state == channel::ConnState::Established);
            lemma_emitted_honest(d, FLAG_ACK, d.send_next, Seq::empty(), frames);
        }
    }
    assert(speaks(a, frames));
    lemma_pumped_speaks(a, frames);
}

/// A sender that sends its frames again keeps to its plan.
pub proof fn lemma_timed_out_speaks(m: CoreModel, frames: SentFrames)
    requires
        speaks(m, frames),
        m.retries < channel::MAX_RETRIES,
    ensures
        speaks(channel::timed_out(m), frames),
        channel::timed_out(m).state == m.state,
{
    let r = channel::timed_out(m);
    assert forall|i: int| 0 <= i < r.outbox.len() implies honest(#[trigger] r.outbox[i], frames) by {
        if i < m.outbox.len() {
            assert(r.outbox[i] == m.outbox[i]);
        } else {
            let u = m.unacked[i - m.outbox.len()];
            assert(r.outbox[i] == channel::resent(m, u));
            channel::lemma_frame_round_trip(
                FrameModel {
                    flags: u.flags,
                    ack_num: m.rcv_next,
                    window: m.window,
                    seq: u.seq,
                    data: u.data,
                },
            );
        }
    }
}

/// A receiver that takes frames in one after the other.
pub open spec fn received_all(m: CoreModel, fs: Seq<FrameModel>) -> CoreModel
    decreases fs.len(),
{
    if fs.len() == 0 {
        m
    } else {
        channel::received(received_all(m, fs.drop_last()), fs.last())
    }
}

/// Whether a frame that takes up the number `n` is among the frames.
pub open spec fn arrives(fs: Seq<FrameModel>, n: u64) -> bool {
    exists|i: int| 0 <= i < fs.len() && channel::consumes(#[trigger] fs[i]) && fs[i].seq == n
}

/// Whether a frame is one of the sender's that the receiver `m` takes in: no reset, bearing
/// what stands under its number, and not too far ahead.
pub open spec fn welcome(m: CoreModel, f: FrameModel, frames: SentFrames) -> bool {
    &&& !channel::has_flag(f.flags, channel::FLAG_RST)
    &&& channel::consumes(f) ==> (f.flags, f.data) == frames[f.seq] && !m.beyond(f.seq)
}

/// Whatever frames of the sender arrive, in whatever order and however often: the receiver
/// stays in step, has got exactly the numbers that it had and those that arrived, and so has
/// passed no number whose frame did not arrive: it delivers nothing ahead of a frame that is
/// missing.
pub proof fn lemma_frames_taken(
    m: CoreModel,
    fs: Seq<FrameModel>,
    given: Seq<Seq<u8>>,
    frames: SentFrames,
    from: u64,
)
    requires
        m.stands(),
        channel::in_step(m, given, frames, from),
        forall|i: int| 0 <= i < fs.len() ==> welcome(m, #[trigger] fs[i], frames),
    ensures
        ({
            let r = received_all(m, fs);
            &&& r.stands()
            &&& channel::in_step(r, given, frames, from)
            &&& m.rcv_next <= r.rcv_next
            &&& r.window == m.window
            &&& forall|n: u64| #[trigger]
                channel::has_got(r, n) <==> channel::has_got(m, n) || arrives(fs, n)
            &&& forall|n: u64|
                !channel::has_got(m, n) && !#[trigger] arrives(fs, n) ==> r.rcv_next <= n
        }),
    decreases fs.len(),
{
    if fs.len() > 0 {
        let front = fs.drop_last();
        let f = fs.last();
        assert(fs[fs.len() - 1] == f);
        assert forall|i: int| 0 <= i < front.len() implies welcome(m, #[trigger] front[i], frames) by {
            assert(front[i] == fs[i]);
        }
        lemma_frames_taken(m, front, given, frames, from);
        let p = received_all(m, front);
        let r = received_all(m, fs);
        channel::lemma_in_order_delivery(p, f, given, frames, from);
        channel::lemma_arrival_kept(p, f, given, frames, from);
        assert forall|n: u64| #[trigger] channel::has_got(r, n) <==> channel::has_got(m, n)
            || arrives(fs, n) by {
            assert(channel::has_got(p, n) <==> channel::has_got(m, n) || arrives(front, n));
            if arrives(front, n) {
                let i = choose|i: int|
                    0 <= i < front.len() && channel::consumes(#[trigger] front[i]) && front[i].seq
                        == n;
                assert(fs[i] == front[i]);
            }
            if arrives(fs, n) {
                let i = choose|i: int|
                    0 <= i < fs.len() && channel::consumes(#[trigger] fs[i]) && fs[i].seq == n;
                if i < front.len() {
                    assert(front[i] == fs[i]);
                }
            }
        }
        assert forall|n: u64| !channel::has_got(m, n) && !#[trigger] arrives(fs, n) implies r.rcv_next
            <= n by {
            assert(!channel::has_got(r, n));
        }
    }
}

/// What was sent as messages is what is delivered, in order and once, however the frames that
/// carry it arrive: once each of them has arrived, the receiver expects the number behind the
/// last, and has delivered the messages and nothing else.
pub proof fn lemma_sent_is_delivered(
    m: CoreModel,
    fs: Seq<FrameModel>,
    given: Seq<Seq<u8>>,
    frames: SentFrames,
    from: u64,
    sends: Sends,
)
    requires
        fit_to_send(sends),
        from + queue_of(sends).len() <= u64::MAX,
        bears(frames, from as int, queue_of(sends)),
        m.stands(),
        channel::in_step(m, given, frames, from),
        forall|i: int| 0 <= i < fs.len() ==> welcome(m, #[trigger] fs[i], frames),
        m.rcv_next <= from + queue_of(sends).len(),
        forall|n: u64|
            m.rcv_next <= n < from + queue_of(sends).len() ==> m.recv_buffer.contains_key(n)
                || #[trigger] arrives(fs, n),
        forall|n: u64|
            n >= from + queue_of(sends).len() ==> !m.recv_buffer.contains_key(n)
                && !#[trigger] arrives(fs, n),
    ensures
        ({
            let r = received_all(m, fs);
            &&& r.rcv_next == from + queue_of(sends).len()
            &&& given + r.delivered == messages_of(sends)
        }),
{
    lemma_frames_taken(m, fs, given, frames, from);
    lemma_messages_in_order(frames, from, sends);
    let r = received_all(m, fs);
    let end = (from + queue_of(sends).len()) as u64;
    if r.rcv_next < end {
        assert(arrives(fs, r.rcv_next) || m.recv_buffer.contains_key(r.rcv_next));
        assert(channel::has_got(r, r.rcv_next));
    } else if r.rcv_next > end {
        assert(channel::has_got(r, end));
        assert(!arrives(fs, end));
    }
}

/// What a connection comes to through events, and the messages that it hands out. Messages are
/// sent under the given ids.
pub open spec fn ran(
    m: ConnModel,
    events: Seq<EventModel>,
    ids: Seq<Seq<u8>>,
    times: Seq<u64>,
) -> (ConnModel, Seq<Seq<u8>>)
    decreases events.len(),
{
    if events.len() == 0 {
        (m, Seq::empty())
    } else {
        let k = events.len() - 1;
        let before = ran(m, events.drop_last(), ids, times);
        let (after, step) = connection::stepped(before.0, events.last(), ids[k], times[k]);
        (after, before.1 + step.delivered)
    }
}

/// Whether nothing stands in the way of delivery when an event comes: the connection stands,
/// what it delivers has a taker, no message has waited too long for its chunks, and a frame
/// bears what stands under its number.
pub open spec fn undisturbed(m: ConnModel, event: EventModel, now: u64, frames: SentFrames) -> bool {
    &&& m.core.stands()
    &&& m.delivering
    &&& !(event is ReceiverGone)
    &&& channel::aged(m.core, now).partials == m.core.partials
    &&& event matches EventModel::Frame(f) ==> channel::consumes(f) ==> (f.flags, f.data)
        == frames[f.seq]
}

proof fn lemma_step_delivers(
    m: ConnModel,
    event: EventModel,
    id: Seq<u8>,
    now: u64,
    given: Seq<Seq<u8>>,
    frames: SentFrames,
    from: u64,
)
    requires
        undisturbed(m, event, now, frames),
        channel::in_step(m.core, given, frames, from),
    ensures
        ({
            let (after, step) = connection::stepped(m, event, id, now);
            channel::in_step(after.core, given + step.delivered, frames, from)
        }),
{
    reveal(connection::core_after);
    reveal(channel::message_sent);
    let core = channel::aged(m.core, now);
    assert(channel::in_step(core, given, frames, from));
    match event {
        EventModel::Send(data) => {
            let queued = CoreModel { send_queue: core.send_queue + chunk_list(id, data), ..core };
            channel::lemma_pumped(queued);
        },
        EventModel::Close => {
            channel::lemma_pumped(CoreModel { closing: true, ..core });
        },
        EventModel::Frame(f) => {
            channel::lemma_in_order_delivery(core, f, given, frames, from);
        },
        _ => {},
    }
    let done = connection::core_after(core, event, id);
    assert(channel::in_step(done, given, frames, from));
    let (after, step) = connection::stepped(m, event, id, now);
    assert(step.delivered == done.delivered);
    assert((given + step.delivered) + after.core.delivered =~= given + done.delivered);
}

/// The messages that a connection hands out as events come are those that the sender's frames
/// give in order, up to the number that it expects next: whatever else happens, as long as
/// nothing stands in the way of delivery.
pub proof fn lemma_run_delivers(
    m: ConnModel,
    events: Seq<EventModel>,
    ids: Seq<Seq<u8>>,
    times: Seq<u64>,
    frames: SentFrames,
    from: u64,
)
    requires
        channel::in_step(m.core, Seq::empty(), frames, from),
        forall|k: int|
            0 <= k < events.len() ==> undisturbed(
                ran(m, #[trigger] events.take(k), ids, times).0,
                events[k],
                times[k],
                frames,
            ),
    ensures
        ({
            let (after, handed) = ran(m, events, ids, times);
            channel::in_step(after.core, handed, frames, from)
        }),
    decreases events.len(),
{
    if events.len() > 0 {
        let front = events.drop_last();
        let n = events.len() - 1;
        assert forall|k: int| 0 <= k < front.len() implies undisturbed(
            ran(m, #[trigger] front.take(k), ids, times).0,
            front[k],
            times[k],
            frames,
        ) by {
            assert(front.take(k) =~= events.take(k));
            assert(front[k] == events[k]);
        }
        lemma_run_delivers(m, front, ids, times, frames, from);
        assert(events.take(n) =~= front);
        let (before, handed) = ran(m, front, ids, times);
        lemma_step_delivers(before, events.last(), ids[n], times[n], handed, frames, from);
    }
}

/// What was sent as messages is what the steps of a connection hand out, whole, in order and
/// once, when the connection has come to expect the number behind the last chunk.
pub proof fn lemma_run_hands_out_what_was_sent(
    m: ConnModel,
    events: Seq<EventModel>,
    ids: Seq<Seq<u8>>,
    times: Seq<u64>,
    frames: SentFrames,
    from: u64,
    sends: Sends,
)
    requires
        fit_to_send(sends),
        from + queue_of(sends).len() <= u64::MAX,
        bears(frames, from as int, queue_of(sends)),
        channel::in_step(m.core, Seq::empty(), frames, from),
        forall|k: int|
            0 <= k < events.len() ==> undisturbed(
                ran(m, #[trigger] events.take(k), ids, times).0,
                events[k],
                times[k],
                frames,
            ),
        ran(m, events, ids, times).0.core.rcv_next == from + queue_of(sends).len(),
        m.core.delivered.len() == 0,
    ensures
        ran(m, events, ids, times).1 == messages_of(sends),
{
    lemma_run_delivers(m, events, ids, times, frames, from);
    lemma_messages_in_order(frames, from, sends);
    let (after, handed) = ran(m, events, ids, times);
    assert(handed + after.core.delivered =~= handed);
}

} // verus!
