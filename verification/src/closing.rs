//! Closing loses nothing: what an owner sent before it closed goes out before the closing frame,
//! and is handed out by the other end before that end learns of the close.
use crate::channel::{
    self, ConnState, CoreModel, FrameModel, SentFrames, UnackedModel, FLAG_ACK, FLAG_FIN, FLAG_RST,
    FLAG_SYN, MAX_RETRIES, RESERVED_MASK,
};
use crate::connection::{self, ConnModel, EventModel};
use crate::delivery::{self, Sends};
use crate::wire::fragment::{self, MAX_CHUNK_PAYLOAD};
use vstd::prelude::*;

verus! {

/// What a connection still owes its peer, in order, each with the flags that it goes out with:
/// the frames in flight, the chunks that wait, and the closing frame if its owner has closed.
pub open spec fn owed(m: CoreModel) -> Seq<(u8, Seq<u8>)> {
    m.unacked.map_values(|u: UnackedModel| (u.flags, u.data)) + m.send_queue.map_values(
        |c: Seq<u8>| (FLAG_ACK, c),
    ) + if m.closing && m.state != ConnState::FinSent {
        seq![(FLAG_FIN | FLAG_ACK, Seq::<u8>::empty())]
    } else {
        Seq::empty()
    }
}

/// The number under which the first of what is owed goes out.
pub open spec fn first_owed(m: CoreModel) -> int {
    m.send_next - m.unacked.len()
}

proof fn lemma_chunks_in_flight(m: CoreModel, n: int)
    requires
        0 <= n <= m.send_queue.len(),
        m.send_next + n <= u64::MAX,
    ensures
        ({
            let p = channel::chunks_sent(m, n);
            &&& p == (CoreModel {
                send_next: (m.send_next + n) as u64,
                unacked: p.unacked,
                send_queue: m.send_queue.skip(n),
                outbox: p.outbox,
                ..m
            })
            &&& p.unacked.len() == m.unacked.len() + n
            &&& p.outbox.len() == m.outbox.len() + n
            &&& forall|i: int|
                0 <= i < p.unacked.len() ==> #[trigger] p.unacked[i] == if i < m.unacked.len() {
                    m.unacked[i]
                } else {
                    UnackedModel {
                        flags: FLAG_ACK,
                        seq: (m.send_next + i - m.unacked.len()) as u64,
                        data: m.send_queue[i - m.unacked.len()],
                    }
                }
            &&& forall|i: int|
                0 <= i < p.outbox.len() ==> #[trigger] p.outbox[i] == if i < m.outbox.len() {
                    m.outbox[i]
                } else {
                    channel::frame_bytes(
                        FrameModel {
                            flags: FLAG_ACK,
                            ack_num: m.rcv_next,
                            window: m.window,
                            seq: (m.send_next + i - m.outbox.len()) as u64,
                            data: m.send_queue[i - m.outbox.len()],
                        },
                    )
                }
        }),
    decreases n,
{
    if n > 0 {
        lemma_chunks_in_flight(m, n - 1);
        let p = channel::chunks_sent(m, n - 1);
        assert(p.send_queue[0] == m.send_queue[n - 1]);
        assert(m.send_queue.skip(n - 1).skip(1) =~= m.send_queue.skip(n));
    } else {
        assert(m.send_queue.skip(0) =~= m.send_queue);
    }
}

/// What goes out once a connection is established: waiting chunks, the first of them first,
/// under the next numbers, as many as the peer's window has room for; and behind the last of
/// them the closing frame, if the owner has closed and there is room for it too. So a closing
/// frame is sent only when no chunk waits, and its number is above those of all chunks. What was
/// in flight stays, and nothing that was received is touched.
#[verifier::spinoff_prover]
#[verifier::rlimit(40)]
pub proof fn lemma_pump_in_order(m: CoreModel)
    requires
        m.state == ConnState::Established,
        m.send_next + m.send_queue.len() < u64::MAX,
    ensures
        ({
            let p = channel::pumped(m);
            let limit = if m.peer_window > 1 {
                m.peer_window as int
            } else {
                1
            };
            let k = m.send_queue.len() - p.send_queue.len();
            let new = p.unacked.len() - m.unacked.len();
            &&& 0 <= k
            &&& p.send_queue == m.send_queue.skip(k)
            &&& p.send_queue.len() > 0 ==> p.unacked.len() >= limit
            &&& new > 0 ==> p.unacked.len() <= limit
            &&& p.state == ConnState::FinSent <==> m.closing && m.unacked.len() + m.send_queue.len()
                < limit
            &&& p.state == ConnState::FinSent ==> {
                &&& p.send_queue.len() == 0
                &&& new == k + 1
                &&& !p.closing
                &&& p.unacked.last() == (UnackedModel {
                    flags: FLAG_FIN | FLAG_ACK,
                    seq: (m.send_next + m.send_queue.len()) as u64,
                    data: Seq::empty(),
                })
            }
            &&& p.state != ConnState::FinSent ==> {
                &&& p.state == ConnState::Established
                &&& new == k
                &&& p.closing == m.closing
            }
            &&& p.send_next == m.send_next + new
            &&& forall|i: int|
                0 <= i < m.unacked.len() ==> #[trigger] p.unacked[i] == m.unacked[i]
            &&& forall|i: int|
                0 <= i < k ==> p.unacked[m.unacked.len() + i] == (UnackedModel {
                    flags: FLAG_ACK,
                    seq: (m.send_next + i) as u64,
                    data: #[trigger] m.send_queue[i],
                })
            &&& p.outbox.len() == m.outbox.len() + new
            &&& forall|i: int|
                0 <= i < m.outbox.len() ==> #[trigger] p.outbox[i] == m.outbox[i]
            &&& forall|i: int|
                m.unacked.len() <= i < p.unacked.len() ==> p.outbox[m.outbox.len() + i
                    - m.unacked.len()] == channel::frame_bytes(
                    FrameModel {
                        flags: (#[trigger] p.unacked[i]).flags,
                        ack_num: m.rcv_next,
                        window: m.window,
                        seq: p.unacked[i].seq,
                        data: p.unacked[i].data,
                    },
                )
            &&& p == (CoreModel {
                state: p.state,
                send_next: p.send_next,
                unacked: p.unacked,
                send_queue: p.send_queue,
                closing: p.closing,
                outbox: p.outbox,
                ..m
            })
        }),
{
    reveal(channel::pumped);
    let n = channel::sendable(m);
    lemma_chunks_in_flight(m, n);
    let p = channel::pumped(m);
    assert(m.send_queue.skip(0) =~= m.send_queue);
    assert(m.send_queue.len() - p.send_queue.len() == n);
}

/// Sending takes nothing away from what is owed, adds nothing to it and leaves its order and its
/// numbers as they were.
pub proof fn lemma_pump_owes_the_same(m: CoreModel)
    requires
        m.send_next + m.send_queue.len() < u64::MAX,
    ensures
        owed(channel::pumped(m)) == owed(m),
        first_owed(channel::pumped(m)) == first_owed(m),
        channel::pumped(m).peer_closed == m.peer_closed,
        channel::pumped(m).send_next + channel::pumped(m).send_queue.len() <= m.send_next
            + m.send_queue.len() + 1,
{
    if m.state == ConnState::Established {
        lemma_pump_in_order(m);
        let p = channel::pumped(m);
        let n = m.send_queue.len() - p.send_queue.len();
        assert forall|i: int| 0 <= i < owed(m).len() implies owed(p)[i] == owed(m)[i] by {
            if i < m.unacked.len() {
                assert(p.unacked[i] == m.unacked[i]);
            } else if i < m.unacked.len() + m.send_queue.len() {
                let j = i - m.unacked.len();
                assert(owed(m)[i] == (FLAG_ACK, m.send_queue[j]));
                if j < n {
                    assert(p.unacked[m.unacked.len() + j].data == m.send_queue[j]);
                    assert(owed(p)[i] == (p.unacked[i].flags, p.unacked[i].data));
                } else {
                    assert(p.send_queue[j - n] == m.send_queue[j]);
                    assert(owed(p)[i] == (FLAG_ACK, p.send_queue[j - n]));
                }
            } else if p.state == ConnState::FinSent {
                assert(owed(p)[i] == (p.unacked.last().flags, p.unacked.last().data));
            }
        }
        assert(owed(p) =~= owed(m));
    } else {
        reveal(channel::pumped);
    }
}

/// A number kept within bounds.
pub open spec fn within(n: int, low: int, high: int) -> int {
    if n <= low {
        low
    } else if n >= high {
        high
    } else {
        n
    }
}

/// An acknowledgment takes what bears a lower number off what is owed, and nothing else.
pub proof fn lemma_ack_takes_off(m: CoreModel, ack_num: u64)
    ensures
        ({
            let r = channel::acked(m, ack_num);
            &&& first_owed(r) == within(ack_num as int, first_owed(m), m.send_next as int)
            &&& owed(r) == owed(m).skip(first_owed(r) - first_owed(m))
        }),
{
    let r = channel::acked(m, ack_num);
    let n = channel::acked_count(m, ack_num);
    assert(0 <= n <= m.unacked.len());
    assert(r.unacked.len() == m.unacked.len() - n);
    assert(owed(r) =~= owed(m).skip(n));
}

proof fn lemma_drained_quiet(m: CoreModel)
    ensures
        m.peer_closed ==> channel::drained(m).peer_closed,
        !channel::drained(m).peer_closed ==> {
            let d = channel::drained(m);
            &&& d.outbox == m.outbox
            &&& d.unacked == m.unacked
            &&& d.send_next == m.send_next
            &&& d.send_queue == m.send_queue
            &&& d.closing == m.closing
            &&& d.state == m.state
            &&& d.peer_window == m.peer_window
        },
    decreases u64::MAX - m.rcv_next,
{
    reveal(channel::taken);
    if m.rcv_next < u64::MAX && m.recv_buffer.contains_key(m.rcv_next) {
        lemma_drained_quiet(channel::taken(m, m.recv_buffer[m.rcv_next]));
    }
}

/// Whether a frame opens a connection that already waits for an answer to its own opening.
pub open spec fn crosses(m: CoreModel, f: FrameModel) -> bool {
    m.state == ConnState::SynSent && channel::has_flag(f.flags, FLAG_SYN) && !channel::has_flag(
        f.flags,
        FLAG_ACK,
    )
}

/// The connection just before it sends what a frame lets out.
spec fn before_pump(m: CoreModel, f: FrameModel) -> CoreModel {
    let m0 = CoreModel { peer_window: f.window, ..channel::acked(m, f.ack_num) };
    if m.stands() {
        channel::arrived(m0, f)
    } else {
        channel::acknowledged(channel::established(m0, f))
    }
}

proof fn lemma_before_pump(m: CoreModel, f: FrameModel)
    requires
        m.stands() || m.state == ConnState::SynSent,
        !before_pump(m, f).peer_closed,
    ensures
        ({
            let a = before_pump(m, f);
            let m0 = channel::acked(m, f.ack_num);
            &&& owed(a) == owed(m0)
            &&& a.unacked == m0.unacked
            &&& a.send_next == m.send_next
            &&& a.send_queue == m.send_queue
            &&& a.closing == m.closing
            &&& m.state == ConnState::FinSent <==> a.state == ConnState::FinSent
            &&& a.stands()
            &&& !m.peer_closed
            &&& a.outbox.len() <= m.outbox.len() + 1
            &&& forall|i: int| 0 <= i < m.outbox.len() ==> #[trigger] a.outbox[i] == m.outbox[i]
            &&& a.outbox.len() > m.outbox.len() ==> a.outbox.last() == channel::frame_bytes(
                FrameModel {
                    flags: FLAG_ACK,
                    ack_num: a.rcv_next,
                    window: a.window,
                    seq: m.send_next,
                    data: Seq::empty(),
                },
            )
        }),
{
    reveal(channel::arrived);
    let m0 = CoreModel { peer_window: f.window, ..channel::acked(m, f.ack_num) };
    if m.stands() {
        if channel::consumes(f) && !(f.seq < m0.rcv_next || m0.recv_buffer.contains_key(f.seq)
            || m0.beyond(f.seq)) {
            lemma_drained_quiet(CoreModel { recv_buffer: m0.recv_buffer.insert(f.seq, f), ..m0 });
        }
    }
    assert(owed(before_pump(m, f)) =~= owed(channel::acked(m, f.ack_num)));
}

/// What a frame of the peer changes of what is owed, as long as the peer neither closes nor
/// resets the connection: what it acknowledges is taken off, and nothing else happens. That
/// holds of the frame that answers the opening, too.
pub proof fn lemma_frame_takes_off(m: CoreModel, f: FrameModel)
    requires
        m.stands() || m.state == ConnState::SynSent,
        !crosses(m, f),
        m.send_next + m.send_queue.len() < u64::MAX,
        !channel::received(m, f).peer_closed,
    ensures
        ({
            let r = channel::received(m, f);
            &&& first_owed(r) == within(f.ack_num as int, first_owed(m), m.send_next as int)
            &&& owed(r) == owed(m).skip(first_owed(r) - first_owed(m))
            &&& !m.peer_closed
            &&& r.stands() || r.state == ConnState::SynSent
            &&& m.state == ConnState::FinSent ==> r.send_queue == m.send_queue && r.state == m.state
            &&& m.state != ConnState::FinSent && r.state == ConnState::FinSent
                ==> r.send_queue.len() == 0
        }),
{
    reveal(channel::received);
    let m0 = CoreModel { peer_window: f.window, ..channel::acked(m, f.ack_num) };
    lemma_ack_takes_off(m, f.ack_num);
    assert(owed(m0) =~= owed(channel::acked(m, f.ack_num)));
    if channel::has_flag(f.flags, FLAG_RST) {
    } else if m.stands() || channel::has_flag(f.flags, FLAG_SYN) {
        let a = before_pump(m, f);
        assert(channel::received(m, f) == channel::pumped(a));
        lemma_pumped_tells(a);
        lemma_before_pump(m, f);
        lemma_pump_owes_the_same(a);
        if a.state == ConnState::Established {
            lemma_pump_in_order(a);
        }
    }
}

proof fn lemma_pumped_tells(m: CoreModel)
    ensures
        channel::pumped(m).peer_closed == m.peer_closed,
        m.state != ConnState::Established ==> channel::pumped(m) == m,
{
    reveal(channel::pumped);
    lemma_chunks_tell(m, channel::sendable(m));
}

proof fn lemma_chunks_tell(m: CoreModel, n: int)
    ensures
        channel::chunks_sent(m, n).peer_closed == m.peer_closed,
    decreases n,
{
    if n > 0 {
        lemma_chunks_tell(m, n - 1);
    }
}

/// A message that is sent before its owner closes is owed behind all that was owed before, chunk
/// after chunk.
pub proof fn lemma_message_is_owed(m: CoreModel, msg: Seq<u8>, id: Seq<u8>)
    requires
        !m.closing,
        m.state != ConnState::FinSent,
        m.send_next + m.send_queue.len() + delivery::chunk_list(id, msg).len() < u64::MAX,
    ensures
        ({
            let r = channel::message_sent(m, msg, id);
            &&& owed(r) == owed(m) + delivery::chunk_list(id, msg).map_values(
                |c: Seq<u8>| (FLAG_ACK, c),
            )
            &&& first_owed(r) == first_owed(m)
            &&& r.peer_closed == m.peer_closed
            &&& r.state == m.state
            &&& !r.closing
        }),
{
    reveal(channel::message_sent);
    let list = delivery::chunk_list(id, msg);
    let q = CoreModel { send_queue: m.send_queue + list, ..m };
    lemma_pump_owes_the_same(q);
    lemma_pumped_tells(q);
    if m.state == ConnState::Established {
        lemma_pump_in_order(q);
    }
    assert(owed(q) =~= owed(m) + list.map_values(|c: Seq<u8>| (FLAG_ACK, c)));
}

/// When its owner closes a connection, the closing frame is owed behind all that was owed
/// before. Closing again changes nothing.
pub proof fn lemma_close_is_owed_last(m: CoreModel)
    requires
        m.send_next + m.send_queue.len() < u64::MAX,
    ensures
        ({
            let r = channel::pumped(CoreModel { closing: true, ..m });
            &&& owed(r) == owed(m) + if m.closing || m.state == ConnState::FinSent {
                Seq::empty()
            } else {
                seq![(FLAG_FIN | FLAG_ACK, Seq::<u8>::empty())]
            }
            &&& first_owed(r) == first_owed(m)
            &&& r.peer_closed == m.peer_closed
            &&& m.state != ConnState::FinSent && r.state == ConnState::FinSent
                ==> r.send_queue.len() == 0
            &&& m.state == ConnState::FinSent ==> r.send_queue == m.send_queue
            &&& r.closing || r.state == ConnState::FinSent
            &&& r.state == m.state || r.state == ConnState::FinSent
        }),
{
    let q = CoreModel { closing: true, ..m };
    lemma_pump_owes_the_same(q);
    lemma_pumped_tells(q);
    if m.state == ConnState::Established {
        lemma_pump_in_order(q);
    }
    assert(owed(q) =~= owed(m) + if m.closing || m.state == ConnState::FinSent {
        Seq::empty()
    } else {
        seq![(FLAG_FIN | FLAG_ACK, Seq::<u8>::empty())]
    });
}

/// What was sent, and a close that was asked for, before a connection is opened, is owed behind the
/// opening frame, whichever end opens it: the opening frame comes first, and nothing is lost or
/// changes its order.
pub proof fn lemma_opening_is_owed_first(m: CoreModel, f: FrameModel)
    requires
        m.state == ConnState::Closed,
        m.unacked.len() == 0,
        m.send_next < u64::MAX,
        channel::has_flag(f.flags, FLAG_SYN),
        !channel::has_flag(f.flags, FLAG_RST),
    ensures
        owed(channel::connected(m)) == seq![(FLAG_SYN, Seq::<u8>::empty())] + owed(m),
        first_owed(channel::connected(m)) == first_owed(m),
        owed(channel::received(m, f)) == seq![(FLAG_SYN | FLAG_ACK, Seq::<u8>::empty())] + owed(m),
        first_owed(channel::received(m, f)) == first_owed(m),
{
    reveal(channel::received);
    assert(m.unacked =~= Seq::empty());
    assert(channel::acked(m, f.ack_num).unacked =~= Seq::empty());
    assert(owed(channel::connected(m)) =~= seq![(FLAG_SYN, Seq::<u8>::empty())] + owed(m));
    assert(owed(channel::received(m, f)) =~= seq![(FLAG_SYN | FLAG_ACK, Seq::<u8>::empty())] + owed(
        m,
    ));
}

/// Whether a sender keeps to a plan of what it puts under each number: what it owes stands there
/// from the first owed number on, and every frame that it sends bears what stands under its
/// number.
pub open spec fn keeps_plan(m: CoreModel, frames: SentFrames) -> bool {
    &&& 0 <= first_owed(m)
    &&& first_owed(m) + owed(m).len() <= u64::MAX
    &&& forall|i: int|
        0 <= i < m.unacked.len() ==> (#[trigger] m.unacked[i]).seq == first_owed(m) + i
    &&& forall|i: int|
        0 <= i < owed(m).len() ==> frames[(first_owed(m) + i) as u64] == #[trigger] owed(m)[i]
            && !channel::has_flag(owed(m)[i].0, RESERVED_MASK)
    &&& forall|i: int|
        0 <= i < m.outbox.len() ==> delivery::honest(#[trigger] m.outbox[i], frames)
}

proof fn lemma_frame_honest(f: FrameModel, frames: SentFrames)
    requires
        !channel::has_flag(f.flags, RESERVED_MASK),
        channel::consumes(f) ==> frames[f.seq] == (f.flags, f.data),
    ensures
        delivery::honest(channel::frame_bytes(f), frames),
{
    channel::lemma_frame_round_trip(f);
}

proof fn lemma_pump_keeps_plan(m: CoreModel, frames: SentFrames)
    requires
        keeps_plan(m, frames),
        m.send_next + m.send_queue.len() < u64::MAX,
    ensures
        keeps_plan(channel::pumped(m), frames),
{
    let p = channel::pumped(m);
    lemma_pump_owes_the_same(m);
    if m.state == ConnState::Established {
        lemma_pump_in_order(m);
        let k = m.send_queue.len() - p.send_queue.len();
        assert forall|i: int| 0 <= i < p.unacked.len() implies (#[trigger] p.unacked[i]).seq
            == first_owed(p) + i by {
            if i < m.unacked.len() {
                assert(p.unacked[i] == m.unacked[i]);
            } else if i < m.unacked.len() + k {
                let j = i - m.unacked.len();
                assert(p.unacked[m.unacked.len() + j].data == m.send_queue[j]);
                assert(p.unacked[i].seq == m.send_next + j);
            }
        }
        assert forall|i: int| 0 <= i < p.outbox.len() implies delivery::honest(
            #[trigger] p.outbox[i],
            frames,
        ) by {
            if i < m.outbox.len() {
                assert(p.outbox[i] == m.outbox[i]);
            } else {
                let j = m.unacked.len() + i - m.outbox.len();
                let u = p.unacked[j];
                assert(owed(p)[j] == (u.flags, u.data));
                assert(u.seq == first_owed(p) + j);
                lemma_frame_honest(
                    FrameModel {
                        flags: u.flags,
                        ack_num: m.rcv_next,
                        window: m.window,
                        seq: u.seq,
                        data: u.data,
                    },
                    frames,
                );
            }
        }
    } else {
        lemma_pumped_tells(m);
    }
}

proof fn lemma_plan_goes_on(
    m: CoreModel,
    r: CoreModel,
    added: Seq<(u8, Seq<u8>)>,
    frames: SentFrames,
)
    requires
        keeps_plan(m, frames),
        first_owed(m) <= first_owed(r) <= m.send_next,
        owed(r) == (owed(m) + added).skip(first_owed(r) - first_owed(m)),
        first_owed(m) + owed(m).len() + added.len() <= u64::MAX,
        r.unacked == m.unacked.skip(first_owed(r) - first_owed(m)),
        forall|j: int|
            0 <= j < added.len() ==> frames[(first_owed(m) + owed(m).len() + j) as u64]
                == #[trigger] added[j] && !channel::has_flag(added[j].0, RESERVED_MASK),
        forall|i: int|
            0 <= i < r.outbox.len() ==> delivery::honest(#[trigger] r.outbox[i], frames),
    ensures
        keeps_plan(r, frames),
        first_owed(r) + owed(r).len() == first_owed(m) + owed(m).len() + added.len(),
{
    let n = first_owed(r) - first_owed(m);
    let all = owed(m) + added;
    assert forall|i: int| 0 <= i < r.unacked.len() implies (#[trigger] r.unacked[i]).seq
        == first_owed(r) + i by {
        assert(r.unacked[i] == m.unacked[i + n]);
    }
    assert forall|i: int| 0 <= i < owed(r).len() implies frames[(first_owed(r) + i) as u64]
        == #[trigger] owed(r)[i] && !channel::has_flag(owed(r)[i].0, RESERVED_MASK) by {
        assert(owed(r)[i] == all[i + n]);
        if i + n < owed(m).len() {
            assert(all[i + n] == owed(m)[i + n]);
        } else {
            assert(all[i + n] == added[i + n - owed(m).len()]);
        }
    }
}

/// What an event adds to what is owed: the chunks of a message that is sent, and the closing
/// frame where the owner closes for the first time.
pub open spec fn adds(m: CoreModel, event: EventModel, id: Seq<u8>) -> Seq<(u8, Seq<u8>)> {
    match event {
        EventModel::Send(data) => delivery::chunk_list(id, data).map_values(
            |c: Seq<u8>| (FLAG_ACK, c),
        ),
        EventModel::Close => if m.closing || m.state == ConnState::FinSent {
            Seq::empty()
        } else {
            seq![(FLAG_FIN | FLAG_ACK, Seq::<u8>::empty())]
        },
        _ => Seq::empty(),
    }
}

proof fn lemma_flags_plain()
    ensures
        !channel::has_flag(FLAG_ACK, RESERVED_MASK),
        !channel::has_flag(FLAG_FIN | FLAG_ACK, RESERVED_MASK),
        !channel::has_flag(FLAG_ACK, FLAG_FIN),
        !channel::has_flag(FLAG_ACK, FLAG_SYN),
        channel::has_flag(FLAG_FIN | FLAG_ACK, FLAG_FIN),
        !channel::has_flag(FLAG_FIN | FLAG_ACK, FLAG_SYN),
{
    assert(4u8 & 0xF0u8 == 0 && (2u8 | 4u8) & 0xF0u8 == 0 && 4u8 & 2u8 == 0 && 4u8 & 1u8 == 0 && (2u8
        | 4u8) & 2u8 != 0 && (2u8 | 4u8) & 1u8 == 0) by (bit_vector);
}

#[verifier::spinoff_prover]
#[verifier::rlimit(40)]
proof fn lemma_frame_keeps_plan(m: CoreModel, f: FrameModel, frames: SentFrames)
    requires
        keeps_plan(m, frames),
        m.stands() || m.state == ConnState::SynSent,
        !crosses(m, f),
        m.send_next + m.send_queue.len() < u64::MAX,
        !channel::received(m, f).peer_closed,
    ensures
        keeps_plan(channel::received(m, f), frames),
        first_owed(channel::received(m, f)) + owed(channel::received(m, f)).len() == first_owed(m)
            + owed(m).len(),
{
    reveal(channel::received);
    let m0 = CoreModel { peer_window: f.window, ..channel::acked(m, f.ack_num) };
    let none = Seq::<(u8, Seq<u8>)>::empty();
    lemma_ack_takes_off(m, f.ack_num);
    assert(owed(m0) =~= owed(channel::acked(m, f.ack_num)));
    assert(owed(m) + none =~= owed(m));
    assert(first_owed(m0) - first_owed(m) == channel::acked_count(m, f.ack_num));
    lemma_plan_goes_on(m, m0, none, frames);
    if !channel::has_flag(f.flags, FLAG_RST) && (m.stands() || channel::has_flag(f.flags, FLAG_SYN)) {
        let a = before_pump(m, f);
        assert(channel::received(m, f) == channel::pumped(a));
        lemma_pumped_tells(a);
        lemma_before_pump(m, f);
        lemma_flags_plain();
        let ack = FrameModel {
            flags: FLAG_ACK,
            ack_num: a.rcv_next,
            window: a.window,
            seq: m.send_next,
            data: Seq::empty(),
        };
        lemma_frame_honest(ack, frames);
        assert forall|i: int| 0 <= i < a.outbox.len() implies delivery::honest(
            #[trigger] a.outbox[i],
            frames,
        ) by {
            if i < m.outbox.len() {
                assert(a.outbox[i] == m.outbox[i]);
            } else {
                assert(a.outbox[i] == a.outbox.last());
            }
        }
        lemma_plan_goes_on(m, a, none, frames);
        lemma_pump_keeps_plan(a, frames);
        lemma_pump_owes_the_same(a);
    }
}

/// Whatever event comes, short of a close or reset by the peer, of its own opening crossing the
/// peer's, and of a message that its owner sends after it closed: a sender keeps to a plan in
/// which what the event adds comes next. When it has sent its closing frame, nothing waits.
#[verifier::spinoff_prover]
#[verifier::rlimit(40)]
pub proof fn lemma_event_keeps_plan(
    m: CoreModel,
    event: EventModel,
    id: Seq<u8>,
    frames: SentFrames,
)
    requires
        keeps_plan(m, frames),
        m.stands() || m.state == ConnState::SynSent,
        m.state == ConnState::FinSent ==> m.send_queue.len() == 0,
        m.send_next + m.send_queue.len() < u64::MAX,
        event is Send ==> !m.closing && m.state != ConnState::FinSent,
        m.send_next + m.send_queue.len() + adds(m, event, id).len() <= u64::MAX,
        event is Send ==> m.send_next + m.send_queue.len() + adds(m, event, id).len() < u64::MAX,
        event matches EventModel::Frame(f) ==> !crosses(m, f),
        forall|j: int|
            0 <= j < adds(m, event, id).len() ==> frames[(first_owed(m) + owed(m).len() + j) as u64]
                == #[trigger] adds(m, event, id)[j],
        !connection::core_after(m, event, id).peer_closed,
    ensures
        ({
            let r = connection::core_after(m, event, id);
            &&& keeps_plan(r, frames)
            &&& first_owed(r) + owed(r).len() == first_owed(m) + owed(m).len() + adds(
                m,
                event,
                id,
            ).len()
            &&& first_owed(m) <= first_owed(r)
            &&& r.stands() || r.state == ConnState::SynSent
            &&& r.state == ConnState::FinSent ==> r.send_queue.len() == 0
            &&& r.closing || r.state == ConnState::FinSent <==> m.closing || m.state
                == ConnState::FinSent || event is Close
        }),
{
    reveal(connection::core_after);
    lemma_flags_plain();
    let added = adds(m, event, id);
    match event {
        EventModel::Send(data) => {
            reveal(channel::message_sent);
            let list = delivery::chunk_list(id, data);
            let q = CoreModel { send_queue: m.send_queue + list, ..m };
            lemma_message_is_owed(m, data, id);
            assert(owed(q) =~= (owed(m) + added).skip(0));
            assert(q.unacked =~= m.unacked.skip(0));
            lemma_plan_goes_on(m, q, added, frames);
            lemma_pump_keeps_plan(q, frames);
        },
        EventModel::Close => {
            let q = CoreModel { closing: true, ..m };
            lemma_close_is_owed_last(m);
            assert(owed(q) =~= (owed(m) + added).skip(0));
            assert(q.unacked =~= m.unacked.skip(0));
            lemma_plan_goes_on(m, q, added, frames);
            lemma_pump_keeps_plan(q, frames);
        },
        EventModel::Frame(f) => {
            lemma_frame_takes_off(m, f);
            lemma_frame_keeps_plan(m, f, frames);
            lemma_frame_closing(m, f);
        },
        EventModel::Timeout => {
            let r = channel::timed_out(m);
            if m.unacked.len() > 0 {
                assert(m.retries < MAX_RETRIES);
                assert forall|i: int| 0 <= i < r.outbox.len() implies delivery::honest(
                    #[trigger] r.outbox[i],
                    frames,
                ) by {
                    if i < m.outbox.len() {
                        assert(r.outbox[i] == m.outbox[i]);
                    } else {
                        let j = i - m.outbox.len();
                        let u = m.unacked[j];
                        assert(r.outbox[i] == channel::resent(m, u));
                        assert(owed(m)[j] == (u.flags, u.data));
                        lemma_frame_honest(
                            FrameModel {
                                flags: u.flags,
                                ack_num: m.rcv_next,
                                window: m.window,
                                seq: u.seq,
                                data: u.data,
                            },
                            frames,
                        );
                    }
                }
            }
            assert(owed(r) =~= owed(m));
            assert forall|i: int| 0 <= i < owed(r).len() implies frames[(first_owed(r) + i) as u64]
                == #[trigger] owed(r)[i] && !channel::has_flag(owed(r)[i].0, RESERVED_MASK) by {
                assert(owed(m)[i] == owed(r)[i]);
            }
        },
        _ => {},
    }
}

proof fn lemma_frame_closing(m: CoreModel, f: FrameModel)
    requires
        m.stands() || m.state == ConnState::SynSent,
        !crosses(m, f),
        m.send_next + m.send_queue.len() < u64::MAX,
        !channel::received(m, f).peer_closed,
    ensures
        ({
            let r = channel::received(m, f);
            r.closing || r.state == ConnState::FinSent <==> m.closing || m.state
                == ConnState::FinSent
        }),
{
    reveal(channel::received);
    if !channel::has_flag(f.flags, FLAG_RST) && (m.stands() || channel::has_flag(f.flags, FLAG_SYN)) {
        let a = before_pump(m, f);
        assert(channel::received(m, f) == channel::pumped(a));
        lemma_pumped_tells(a);
        lemma_before_pump(m, f);
        if a.state == ConnState::Established {
            lemma_pump_in_order(a);
        }
    }
}

/// What events add, one after the other, to what a connection owes.
pub open spec fn promised(events: Seq<EventModel>, ids: Seq<Seq<u8>>) -> Seq<(u8, Seq<u8>)>
    decreases events.len(),
{
    if events.len() == 0 {
        Seq::empty()
    } else {
        let before = promised(events.drop_last(), ids);
        match events.last() {
            EventModel::Send(data) => before + delivery::chunk_list(
                ids[events.len() - 1],
                data,
            ).map_values(|c: Seq<u8>| (FLAG_ACK, c)),
            EventModel::Close => if closed_by(events.drop_last()) {
                before
            } else {
                before.push((FLAG_FIN | FLAG_ACK, Seq::<u8>::empty()))
            },
            _ => before,
        }
    }
}

/// Whether the owner closes the connection in the course of the events.
pub open spec fn closed_by(events: Seq<EventModel>) -> bool {
    exists|i: int| 0 <= i < events.len() && (#[trigger] events[i]) is Close
}

/// All frames that a connection puts out as events come.
pub open spec fn said(
    m: ConnModel,
    events: Seq<EventModel>,
    ids: Seq<Seq<u8>>,
    times: Seq<u64>,
) -> Seq<Seq<u8>>
    decreases events.len(),
{
    if events.len() == 0 {
        Seq::empty()
    } else {
        let k = events.len() - 1;
        let before = delivery::ran(m, events.drop_last(), ids, times).0;
        said(m, events.drop_last(), ids, times) + connection::stepped(
            before,
            events.last(),
            ids[k],
            times[k],
        ).1.outgoing
    }
}

/// Whether an event comes in order: the connection can take it, its owner does not send after
/// it closed, the peer's opening does not cross ours, and the peer neither closes nor resets.
pub open spec fn orderly(m: ConnModel, event: EventModel, id: Seq<u8>, now: u64) -> bool {
    &&& connection::takes(m, event, now)
    &&& event is Send ==> !m.core.closing && m.core.state != ConnState::FinSent
    &&& event matches EventModel::Frame(f) ==> !crosses(m.core, f)
    &&& !connection::stepped(m, event, id, now).0.core.peer_closed
}

#[verifier::spinoff_prover]
#[verifier::rlimit(40)]
proof fn lemma_step_keeps_plan(
    m: ConnModel,
    event: EventModel,
    id: Seq<u8>,
    now: u64,
    frames: SentFrames,
)
    requires
        orderly(m, event, id, now),
        keeps_plan(m.core, frames),
        m.core.stands() || m.core.state == ConnState::SynSent,
        m.core.state == ConnState::FinSent ==> m.core.send_queue.len() == 0,
        forall|j: int|
            0 <= j < adds(m.core, event, id).len() ==> frames[(first_owed(m.core) + owed(
                m.core,
            ).len() + j) as u64] == #[trigger] adds(m.core, event, id)[j],
    ensures
        ({
            let (after, step) = connection::stepped(m, event, id, now);
            let r = after.core;
            &&& keeps_plan(r, frames)
            &&& first_owed(r) + owed(r).len() == first_owed(m.core) + owed(m.core).len() + adds(
                m.core,
                event,
                id,
            ).len()
            &&& first_owed(m.core) <= first_owed(r)
            &&& r.stands() || r.state == ConnState::SynSent
            &&& r.state == ConnState::FinSent ==> r.send_queue.len() == 0
            &&& r.closing || r.state == ConnState::FinSent <==> m.core.closing || m.core.state
                == ConnState::FinSent || event is Close
            &&& forall|i: int|
                0 <= i < step.outgoing.len() ==> delivery::honest(
                    #[trigger] step.outgoing[i],
                    frames,
                )
        }),
{
    let core = channel::aged(m.core, now);
    assert(owed(core) =~= owed(m.core));
    if let EventModel::Send(data) = event {
        let list = delivery::chunk_list(id, data);
        assert(list.len() == fragment::chunk_data(data, MAX_CHUNK_PAYLOAD as int).len());
    }
    assert forall|i: int| 0 <= i < owed(core).len() implies frames[(first_owed(core) + i) as u64]
        == #[trigger] owed(core)[i] && !channel::has_flag(owed(core)[i].0, RESERVED_MASK) by {
        assert(owed(m.core)[i] == owed(core)[i]);
    }
    assert(keeps_plan(core, frames));
    assert(adds(core, event, id) == adds(m.core, event, id));
    lemma_event_keeps_plan(core, event, id, frames);
    let done = connection::core_after(core, event, id);
    let after = connection::stepped(m, event, id, now).0;
    assert(owed(after.core) =~= owed(done));
    assert forall|i: int| 0 <= i < owed(after.core).len() implies frames[(first_owed(after.core)
        + i) as u64] == #[trigger] owed(after.core)[i] && !channel::has_flag(
        owed(after.core)[i].0,
        RESERVED_MASK,
    ) by {
        assert(owed(done)[i] == owed(after.core)[i]);
    }
}

/// Closing loses nothing. Whatever events come in order to a connection that waits to be
/// answered or stands, the frames that it sends, each however often, bear under their numbers
/// what was owed at the start, then the chunks of the messages that its owner sent, message
/// after message, and then, if its owner closed, the closing frame: so every chunk bears a
/// number below that of the closing frame. What is not acknowledged is still owed, under its
/// number; and once the closing frame has been sent, no chunk waits.
pub proof fn lemma_closing_loses_nothing(
    m: ConnModel,
    events: Seq<EventModel>,
    ids: Seq<Seq<u8>>,
    times: Seq<u64>,
    frames: SentFrames,
)
    requires
        keeps_plan(m.core, frames),
        m.core.state == ConnState::SynSent || m.core.state == ConnState::Established,
        !m.core.closing,
        forall|k: int|
            0 <= k < events.len() ==> orderly(
                delivery::ran(m, #[trigger] events.take(k), ids, times).0,
                events[k],
                ids[k],
                times[k],
            ),
        forall|j: int|
            0 <= j < promised(events, ids).len() ==> frames[(first_owed(m.core) + owed(
                m.core,
            ).len() + j) as u64] == #[trigger] promised(events, ids)[j],
    ensures
        ({
            let r = delivery::ran(m, events, ids, times).0.core;
            let out = said(m, events, ids, times);
            &&& keeps_plan(r, frames)
            &&& first_owed(m.core) <= first_owed(r)
            &&& first_owed(r) + owed(r).len() == first_owed(m.core) + owed(m.core).len() + promised(
                events,
                ids,
            ).len()
            &&& forall|i: int| 0 <= i < out.len() ==> delivery::honest(#[trigger] out[i], frames)
            &&& closed_by(events) <==> r.closing || r.state == ConnState::FinSent
            &&& r.state == ConnState::FinSent ==> {
                &&& r.send_queue.len() == 0
                &&& r.send_next == first_owed(m.core) + owed(m.core).len() + promised(
                    events,
                    ids,
                ).len()
            }
        }),
{
    lemma_run_keeps_plan(m, events, ids, times, frames);
}

#[verifier::spinoff_prover]
#[verifier::rlimit(40)]
proof fn lemma_run_keeps_plan(
    m: ConnModel,
    events: Seq<EventModel>,
    ids: Seq<Seq<u8>>,
    times: Seq<u64>,
    frames: SentFrames,
)
    requires
        keeps_plan(m.core, frames),
        m.core.state == ConnState::SynSent || m.core.state == ConnState::Established,
        !m.core.closing,
        forall|k: int|
            0 <= k < events.len() ==> orderly(
                delivery::ran(m, #[trigger] events.take(k), ids, times).0,
                events[k],
                ids[k],
                times[k],
            ),
        forall|j: int|
            0 <= j < promised(events, ids).len() ==> frames[(first_owed(m.core) + owed(
                m.core,
            ).len() + j) as u64] == #[trigger] promised(events, ids)[j],
    ensures
        ({
            let r = delivery::ran(m, events, ids, times).0.core;
            let out = said(m, events, ids, times);
            &&& keeps_plan(r, frames)
            &&& first_owed(m.core) <= first_owed(r)
            &&& first_owed(r) + owed(r).len() == first_owed(m.core) + owed(m.core).len() + promised(
                events,
                ids,
            ).len()
            &&& r.stands() || r.state == ConnState::SynSent
            &&& r.state == ConnState::FinSent ==> r.send_queue.len() == 0
            &&& closed_by(events) <==> r.closing || r.state == ConnState::FinSent
            &&& forall|i: int| 0 <= i < out.len() ==> delivery::honest(#[trigger] out[i], frames)
        }),
    decreases events.len(),
{
    if events.len() > 0 {
        let front = events.drop_last();
        let n = events.len() - 1;
        let before = delivery::ran(m, front, ids, times).0;
        let event = events.last();
        assert(events.take(n) =~= front);
        assert(orderly(before, event, ids[n], times[n]));
        assert forall|k: int| 0 <= k < front.len() implies orderly(
            delivery::ran(m, #[trigger] front.take(k), ids, times).0,
            front[k],
            ids[k],
            times[k],
        ) by {
            assert(front.take(k) =~= events.take(k));
            assert(front[k] == events[k]);
        }
        let p = promised(front, ids);
        let all = promised(events, ids);
        let start = first_owed(m.core) + owed(m.core).len();
        assert forall|j: int| 0 <= j < p.len() implies frames[(start + j) as u64]
            == #[trigger] p[j] by {
            assert(all[j] == p[j]);
        }
        lemma_run_keeps_plan(m, front, ids, times, frames);
        let added = adds(before.core, event, ids[n]);
        assert(all =~= p + added);
        assert forall|j: int| 0 <= j < added.len() implies frames[(first_owed(before.core) + owed(
            before.core,
        ).len() + j) as u64] == #[trigger] added[j] by {
            assert(all[p.len() + j] == added[j]);
        }
        lemma_step_keeps_plan(before, event, ids[n], times[n], frames);
        assert(closed_by(events) <==> closed_by(front) || event is Close) by {
            if closed_by(front) {
                let i = choose|i: int| 0 <= i < front.len() && (#[trigger] front[i]) is Close;
                assert(events[i] == front[i]);
            }
            if closed_by(events) {
                let i = choose|i: int| 0 <= i < events.len() && (#[trigger] events[i]) is Close;
                if i < n {
                    assert(front[i] == events[i]);
                }
            }
            if event is Close {
                assert(events[n] is Close);
            }
        }
        let out = said(m, events, ids, times);
        let sofar = said(m, front, ids, times);
        let step = connection::stepped(before, event, ids[n], times[n]).1;
        assert forall|i: int| 0 <= i < out.len() implies delivery::honest(#[trigger] out[i], frames) by {
            if i < sofar.len() {
                assert(out[i] == sofar[i]);
            } else {
                assert(out[i] == step.outgoing[i - sofar.len()]);
            }
        }
    }
}

/// Nothing waits that could go out: whatever frame arrives at a connection that is established, or
/// that it establishes as the answer to the opening, and whatever message is sent over one, what
/// still waits then does so because as much is in flight as the peer's window takes.
pub proof fn lemma_window_is_used(m: CoreModel, f: FrameModel, msg: Seq<u8>, id: Seq<u8>)
    requires
        m.stands() || m.state == ConnState::SynSent,
        !crosses(m, f),
        m.send_next + m.send_queue.len() + delivery::chunk_list(id, msg).len() < u64::MAX,
        !channel::received(m, f).peer_closed,
    ensures
        ({
            let r = channel::received(m, f);
            &&& r.state == ConnState::Established && r.send_queue.len() > 0 ==> r.unacked.len() >= 1
                && r.unacked.len() >= f.window
        }),
        ({
            let s = channel::message_sent(m, msg, id);
            &&& s.state == ConnState::Established && s.send_queue.len() > 0 ==> s.unacked.len() >= 1
                && s.unacked.len() >= m.peer_window
        }),
{
    reveal(channel::received);
    reveal(channel::message_sent);
    let list = delivery::chunk_list(id, msg);
    let q = CoreModel { send_queue: m.send_queue + list, ..m };
    lemma_pumped_tells(q);
    if m.state == ConnState::Established {
        lemma_pump_in_order(q);
    }
    if !channel::has_flag(f.flags, FLAG_RST) && (m.stands() || channel::has_flag(f.flags, FLAG_SYN)) {
        let a = before_pump(m, f);
        assert(channel::received(m, f) == channel::pumped(a));
        lemma_pumped_tells(a);
        lemma_before_pump(m, f);
        lemma_before_pump_window(m, f);
        if a.state == ConnState::Established {
            lemma_pump_in_order(a);
        }
    }
}

proof fn lemma_before_pump_window(m: CoreModel, f: FrameModel)
    requires
        m.stands() || m.state == ConnState::SynSent,
        !before_pump(m, f).peer_closed,
    ensures
        before_pump(m, f).peer_window == f.window,
{
    reveal(channel::arrived);
    let m0 = CoreModel { peer_window: f.window, ..channel::acked(m, f.ack_num) };
    if m.stands() && channel::consumes(f) && !(f.seq < m0.rcv_next || m0.recv_buffer.contains_key(
        f.seq,
    ) || m0.beyond(f.seq)) {
        lemma_drained_quiet(CoreModel { recv_buffer: m0.recv_buffer.insert(f.seq, f), ..m0 });
    }
}

/// A connection after the peer has acknowledged everything in flight, and told its window.
pub open spec fn all_acked(m: CoreModel, window: u16) -> CoreModel {
    channel::received(
        m,
        FrameModel {
            flags: FLAG_ACK,
            ack_num: m.send_next,
            window,
            seq: m.rcv_next,
            data: Seq::empty(),
        },
    )
}

/// A connection after that has happened so many times.
pub open spec fn all_acked_often(m: CoreModel, window: u16, n: nat) -> CoreModel
    decreases n,
{
    if n == 0 {
        m
    } else {
        all_acked(all_acked_often(m, window, (n - 1) as nat), window)
    }
}

/// When everything in flight is acknowledged, it is no longer owed, and more goes out if more is
/// owed, however small the peer's window.
pub proof fn lemma_ack_lets_more_out(m: CoreModel, window: u16)
    requires
        m.stands(),
        !m.peer_closed,
        m.state == ConnState::FinSent ==> m.send_queue.len() == 0,
        first_owed(m) + owed(m).len() < u64::MAX,
    ensures
        ({
            let r = all_acked(m, window);
            &&& owed(r) == owed(m).skip(m.unacked.len() as int)
            &&& first_owed(r) == m.send_next
            &&& owed(r).len() > 0 ==> r.unacked.len() > 0
            &&& r.stands()
            &&& !r.peer_closed
            &&& r.state == ConnState::FinSent ==> r.send_queue.len() == 0
            &&& r.closing || r.state == ConnState::FinSent <==> m.closing || m.state
                == ConnState::FinSent
        }),
{
    let f = FrameModel {
        flags: FLAG_ACK,
        ack_num: m.send_next,
        window,
        seq: m.rcv_next,
        data: Seq::empty(),
    };
    let r = all_acked(m, window);
    lemma_flags_plain();
    assert(4u8 & 8u8 == 0) by (bit_vector);
    let m0 = CoreModel { peer_window: window, ..channel::acked(m, m.send_next) };
    assert(r == channel::pumped(m0)) by {
        reveal(channel::received);
        reveal(channel::arrived);
    }
    lemma_pumped_tells(m0);
    lemma_frame_takes_off(m, f);
    lemma_frame_closing(m, f);
    if m0.state == ConnState::Established {
        lemma_pump_in_order(m0);
    }
    assert(m0.unacked.len() == 0);
}

/// As long as acknowledgments arrive, everything that is owed goes out and is acknowledged, the
/// closing frame last, if the owner has closed: after no more of them than there are things owed,
/// and one, nothing is owed any more.
pub proof fn lemma_everything_goes_out(m: CoreModel, window: u16, n: nat)
    requires
        m.stands(),
        !m.peer_closed,
        m.state == ConnState::FinSent ==> m.send_queue.len() == 0,
        first_owed(m) + owed(m).len() < u64::MAX,
    ensures
        ({
            let r = all_acked_often(m, window, n);
            &&& r.stands()
            &&& !r.peer_closed
            &&& r.state == ConnState::FinSent ==> r.send_queue.len() == 0
            &&& first_owed(r) + owed(r).len() == first_owed(m) + owed(m).len()
            &&& n > 0 && owed(r).len() > 0 ==> r.unacked.len() > 0 && owed(r).len() + n
                <= owed(m).len() + 1
            &&& n > owed(m).len() ==> owed(r).len() == 0 && r.send_queue.len() == 0
                && r.unacked.len() == 0
            &&& m.closing || m.state == ConnState::FinSent <==> r.closing || r.state
                == ConnState::FinSent
            &&& n > owed(m).len() && m.closing ==> r.state == ConnState::FinSent
        }),
    decreases n,
{
    if n > 0 {
        let before = all_acked_often(m, window, (n - 1) as nat);
        lemma_everything_goes_out(m, window, (n - 1) as nat);
        lemma_ack_lets_more_out(before, window);
        let r = all_acked(before, window);
        assert(owed(before).len() >= before.unacked.len());
        assert(owed(r).len() >= r.unacked.len() + r.send_queue.len());
    }
}

/// Where frames stop: no frame numbered above `fin` is buffered.
pub open spec fn none_above(m: CoreModel, fin: u64) -> bool {
    forall|k: u64| k > fin ==> !#[trigger] m.recv_buffer.contains_key(k)
}

#[verifier::spinoff_prover]
#[verifier::rlimit(40)]
proof fn lemma_drained_closes(
    m: CoreModel,
    given: Seq<Seq<u8>>,
    frames: SentFrames,
    from: u64,
    fin: u64,
)
    requires
        channel::follows(m, given, frames, from),
        none_above(m, fin),
        m.rcv_next <= fin + 1,
        forall|n: u64| from <= n < fin ==> !channel::has_flag((#[trigger] frames[n]).0, FLAG_FIN),
        channel::has_flag(frames[fin].0, FLAG_FIN),
        m.peer_closed <==> m.rcv_next > fin,
    ensures
        channel::drained(m).peer_closed <==> channel::drained(m).rcv_next > fin,
        channel::drained(m).rcv_next <= fin + 1,
        none_above(channel::drained(m), fin),
    decreases u64::MAX - m.rcv_next,
{
    reveal(channel::taken);
    if m.rcv_next < u64::MAX && m.recv_buffer.contains_key(m.rcv_next) {
        let f = m.recv_buffer[m.rcv_next];
        let next = channel::taken(m, f);
        assert(m.rcv_next <= fin);
        assert((f.flags, f.data) == frames[m.rcv_next]);
        lemma_taken_follows(m, given, frames, from);
        lemma_drained_closes(next, given, frames, from, fin);
    }
}

proof fn lemma_taken_follows(
    m: CoreModel,
    given: Seq<Seq<u8>>,
    frames: SentFrames,
    from: u64,
)
    requires
        channel::follows(m, given, frames, from),
        m.rcv_next < u64::MAX,
        m.recv_buffer.contains_key(m.rcv_next),
    ensures
        channel::follows(channel::taken(m, m.recv_buffer[m.rcv_next]), given, frames, from),
{
    reveal(channel::taken);
    let f = m.recv_buffer[m.rcv_next];
    let next = channel::taken(m, f);
    assert(next.rcv_next - 1 == m.rcv_next);
    assert((f.flags, f.data) == frames[m.rcv_next]);
    if !channel::has_flag(f.flags, FLAG_FIN) && f.data.len() > 0 {
        fragment::lemma_undated_fed(m.partials, f.data, m.clock);
        if let Some(msg) = fragment::fed(m.partials, f.data, m.clock).1 {
            assert(given + m.delivered.push(msg) =~= (given + m.delivered).push(msg));
        }
    }
}

/// A receiver learns that its peer has closed when it has taken everything up to the closing
/// frame, not before, and however the frames come: by then it has delivered all messages that
/// were sent before, in order and once.
#[verifier::spinoff_prover]
#[verifier::rlimit(40)]
pub proof fn lemma_close_comes_last(
    m: CoreModel,
    f: FrameModel,
    given: Seq<Seq<u8>>,
    frames: SentFrames,
    from: u64,
    sends: Sends,
)
    requires
        delivery::fit_to_send(sends),
        from + delivery::queue_of(sends).len() < u64::MAX,
        delivery::bears(frames, from as int, delivery::queue_of(sends)),
        channel::has_flag(frames[(from + delivery::queue_of(sends).len()) as u64].0, FLAG_FIN),
        m.stands(),
        channel::in_step(m, given, frames, from),
        none_above(m, (from + delivery::queue_of(sends).len()) as u64),
        m.rcv_next <= from + delivery::queue_of(sends).len() + 1,
        m.peer_closed <==> m.rcv_next > from + delivery::queue_of(sends).len(),
        !channel::has_flag(f.flags, FLAG_RST),
        channel::consumes(f) ==> (f.flags, f.data) == frames[f.seq] && f.seq <= from
            + delivery::queue_of(sends).len(),
    ensures
        ({
            let r = channel::received(m, f);
            let fin = from + delivery::queue_of(sends).len();
            &&& r.peer_closed <==> r.rcv_next > fin
            &&& r.rcv_next <= fin + 1
            &&& none_above(r, fin as u64)
            &&& r.peer_closed ==> given + r.delivered == delivery::messages_of(sends)
        }),
{
    reveal(channel::received);
    reveal(channel::arrived);
    let queue = delivery::queue_of(sends);
    let fin = (from + queue.len()) as u64;
    lemma_flags_plain();
    assert forall|n: u64| from <= n < fin implies !channel::has_flag(
        (#[trigger] frames[n]).0,
        FLAG_FIN,
    ) by {
        let i = n - from;
        assert(frames[(from + i) as u64] == (FLAG_ACK, queue[i]));
    }
    let m0 = CoreModel { peer_window: f.window, ..channel::acked(m, f.ack_num) };
    let a = channel::arrived(m0, f);
    if channel::consumes(f) && !(f.seq < m0.rcv_next || m0.recv_buffer.contains_key(f.seq)
        || m0.beyond(f.seq)) {
        let start = CoreModel { recv_buffer: m0.recv_buffer.insert(f.seq, f), ..m0 };
        lemma_drained_closes(start, given, frames, from, fin);
    }
    lemma_pumped_tells(a);
    channel::lemma_pumped(a);
    channel::lemma_in_order_delivery(m, f, given, frames, from);
    delivery::lemma_messages_in_order(frames, from, sends);
    let r = channel::received(m, f);
    if r.peer_closed {
        assert(r.rcv_next == fin + 1);
        assert(channel::in_order(frames, from, r.rcv_next) == channel::in_order(frames, from, fin));
    }
}

/// Once all frames up to the closing frame have arrived, in whatever order and however often,
/// the receiver has delivered every message that was sent before the close, in order and once,
/// and knows of the close.
#[verifier::spinoff_prover]
#[verifier::rlimit(40)]
pub proof fn lemma_all_before_the_close(
    m: CoreModel,
    fs: Seq<FrameModel>,
    given: Seq<Seq<u8>>,
    frames: SentFrames,
    from: u64,
    sends: Sends,
)
    requires
        delivery::fit_to_send(sends),
        from + delivery::queue_of(sends).len() < u64::MAX,
        delivery::bears(frames, from as int, delivery::queue_of(sends)),
        channel::has_flag(frames[(from + delivery::queue_of(sends).len()) as u64].0, FLAG_FIN),
        m.stands(),
        !m.peer_closed,
        channel::in_step(m, given, frames, from),
        none_above(m, (from + delivery::queue_of(sends).len()) as u64),
        m.rcv_next <= from + delivery::queue_of(sends).len(),
        forall|i: int|
            0 <= i < fs.len() ==> delivery::welcome(m, #[trigger] fs[i], frames) && (
            channel::consumes(fs[i]) ==> fs[i].seq <= from + delivery::queue_of(sends).len()),
    ensures
        ({
            let r = delivery::received_all(m, fs);
            let fin = from + delivery::queue_of(sends).len();
            &&& r.peer_closed ==> given + r.delivered == delivery::messages_of(sends)
            &&& r.peer_closed <==> forall|n: u64|
                m.rcv_next <= n <= fin ==> m.recv_buffer.contains_key(n)
                    || #[trigger] delivery::arrives(fs, n)
        }),
{
    lemma_close_known(m, fs, given, frames, from, sends);
    delivery::lemma_frames_taken(m, fs, given, frames, from);
    let r = delivery::received_all(m, fs);
    let fin = (from + delivery::queue_of(sends).len()) as u64;
    if r.rcv_next > fin {
        assert forall|n: u64| m.rcv_next <= n <= fin implies m.recv_buffer.contains_key(n)
            || #[trigger] delivery::arrives(fs, n) by {
            assert(channel::has_got(r, n));
        }
    } else {
        let n = r.rcv_next;
        assert(!channel::has_got(r, n));
        assert(!delivery::arrives(fs, n));
    }
}

proof fn lemma_close_known(
    m: CoreModel,
    fs: Seq<FrameModel>,
    given: Seq<Seq<u8>>,
    frames: SentFrames,
    from: u64,
    sends: Sends,
)
    requires
        delivery::fit_to_send(sends),
        from + delivery::queue_of(sends).len() < u64::MAX,
        delivery::bears(frames, from as int, delivery::queue_of(sends)),
        channel::has_flag(frames[(from + delivery::queue_of(sends).len()) as u64].0, FLAG_FIN),
        m.stands(),
        !m.peer_closed,
        channel::in_step(m, given, frames, from),
        none_above(m, (from + delivery::queue_of(sends).len()) as u64),
        m.rcv_next <= from + delivery::queue_of(sends).len(),
        forall|i: int|
            0 <= i < fs.len() ==> delivery::welcome(m, #[trigger] fs[i], frames) && (
            channel::consumes(fs[i]) ==> fs[i].seq <= from + delivery::queue_of(sends).len()),
    ensures
        ({
            let r = delivery::received_all(m, fs);
            let fin = from + delivery::queue_of(sends).len();
            &&& r.peer_closed <==> r.rcv_next > fin
            &&& r.rcv_next <= fin + 1
            &&& none_above(r, fin as u64)
            &&& r.peer_closed ==> given + r.delivered == delivery::messages_of(sends)
        }),
    decreases fs.len(),
{
    if fs.len() > 0 {
        let front = fs.drop_last();
        assert forall|i: int| 0 <= i < front.len() implies delivery::welcome(
            m,
            #[trigger] front[i],
            frames,
        ) && (channel::consumes(front[i]) ==> front[i].seq <= from + delivery::queue_of(
            sends,
        ).len()) by {
            assert(front[i] == fs[i]);
        }
        lemma_close_known(m, front, given, frames, from, sends);
        delivery::lemma_frames_taken(m, front, given, frames, from);
        assert(fs[fs.len() - 1] == fs.last());
        lemma_close_comes_last(
            delivery::received_all(m, front),
            fs.last(),
            given,
            frames,
            from,
            sends,
        );
    }
}

} // verus!
