//! What drives one connection of a channel: commands, frames and a timer go in; frames to
//! send, messages and signals come out.
use crate::channel::{
    self, ChannelCore, ChannelFrame, ConnState, CoreModel, FrameModel, FLAG_RST, FLAG_SYN,
};
use crate::octets;
use crate::pieces;
use crate::wire::fragment::{self, MAX_CHUNK_PAYLOAD};
use vstd::prelude::*;

verus! {

/// Something that happens to a connection.
pub enum ConnEvent {
    /// Its owner asks to be told when the connection is established.
    Connect,
    /// Its owner sends a message.
    Send(Vec<u8>),
    /// Its owner closes it.
    Close,
    /// A frame of the peer arrived.
    Frame(ChannelFrame),
    /// The retransmission timer ran out.
    Timeout,
    /// Nobody takes delivered messages any longer.
    ReceiverGone,
}

/// What an event says.
pub enum EventModel {
    Connect,
    Send(Seq<u8>),
    Close,
    Frame(FrameModel),
    Timeout,
    ReceiverGone,
}

impl View for ConnEvent {
    type V = EventModel;

    open spec fn view(&self) -> EventModel {
        match self {
            ConnEvent::Connect => EventModel::Connect,
            ConnEvent::Send(data) => EventModel::Send(data@),
            ConnEvent::Close => EventModel::Close,
            ConnEvent::Frame(f) => EventModel::Frame(f@),
            ConnEvent::Timeout => EventModel::Timeout,
            ConnEvent::ReceiverGone => EventModel::ReceiverGone,
        }
    }
}

/// What is to be done after an event.
pub struct Step {
    /// The frames to send, in order.
    pub outgoing: Vec<Vec<u8>>,
    /// The messages to deliver, in order.
    pub delivered: Vec<Vec<u8>>,
    /// Whether to tell the owner that the connection is established.
    pub connected: bool,
    /// Whether to tell the owner, after the messages, that no more will come.
    pub ended: bool,
}

/// What a step says.
#[verifier::ext_equal]
pub struct StepModel {
    pub outgoing: Seq<Seq<u8>>,
    pub delivered: Seq<Seq<u8>>,
    pub connected: bool,
    pub ended: bool,
}

impl View for Step {
    type V = StepModel;

    open spec fn view(&self) -> StepModel {
        StepModel {
            outgoing: octets::views(self.outgoing@),
            delivered: octets::views(self.delivered@),
            connected: self.connected,
            ended: self.ended,
        }
    }
}

/// One connection with its timer and its signals.
pub struct Connection {
    pub core: ChannelCore,
    /// When, in milliseconds, unacknowledged frames are to be sent again.
    pub deadline: Option<u64>,
    /// Whether the owner waits to be told that the connection is established.
    pub connecting: bool,
    /// Whether delivered messages still have a taker.
    pub delivering: bool,
}

/// The state of a connection with its timer and its signals.
#[verifier::ext_equal]
pub struct ConnModel {
    pub core: CoreModel,
    pub deadline: Option<u64>,
    pub connecting: bool,
    pub delivering: bool,
}

impl View for Connection {
    type V = ConnModel;

    open spec fn view(&self) -> ConnModel {
        ConnModel {
            core: self.core@,
            deadline: self.deadline,
            connecting: self.connecting,
            delivering: self.delivering,
        }
    }
}

/// What an event makes of the state machine; a message is sent under the id `id`.
#[verifier::opaque]
pub open spec fn core_after(m: CoreModel, event: EventModel, id: Seq<u8>) -> CoreModel {
    match event {
        EventModel::Connect => if m.state == ConnState::Established {
            m
        } else {
            channel::connected(m)
        },
        EventModel::Send(data) => channel::message_sent(m, data, id),
        EventModel::Close => channel::pumped(CoreModel { closing: true, ..m }),
        EventModel::Frame(f) => channel::received(m, f),
        EventModel::Timeout => channel::timed_out(m),
        EventModel::ReceiverGone => m,
    }
}

/// What an event makes of a connection at the time `now`, and what is to be done.
///
/// Messages that wait too long for their chunks are dropped first.
/// Frames and messages that the state machine put out are handed over. The owner is told of
/// the establishment if it waits for it, or at once if it asks afterwards. Once the peer has
/// closed, the owner is told that no more messages come. The timer runs while frames are in
/// flight, from when the first of them was sent or last sent again.
pub open spec fn stepped(m: ConnModel, event: EventModel, id: Seq<u8>, now: u64) -> (
    ConnModel,
    StepModel,
) {
    let core = core_after(channel::aged(m.core, now), event, id);
    let at_once = event is Connect && m.core.state == ConnState::Established;
    let connecting = m.connecting || event is Connect && !at_once;
    let delivering = m.delivering && !(event is ReceiverGone);
    let deadline = if event is Timeout {
        None
    } else {
        m.deadline
    };
    (
        ConnModel {
            core: CoreModel {
                outbox: Seq::empty(),
                delivered: Seq::empty(),
                just_established: false,
                ..core
            },
            deadline: if core.unacked.len() == 0 {
                None
            } else if deadline is Some {
                deadline
            } else {
                Some((now + core.rto) as u64)
            },
            connecting: connecting && !core.just_established,
            delivering: delivering && !core.peer_closed,
        },
        StepModel {
            outgoing: core.outbox,
            delivered: if delivering {
                core.delivered
            } else {
                Seq::empty()
            },
            connected: at_once || core.just_established && connecting,
            ended: delivering && core.peer_closed,
        },
    )
}

/// Whether a connection can take an event: numbers are left, the timer's end can be told, a
/// message fits the count of chunks, and a frame that opens the connection does not bear the
/// last number of all.
pub open spec fn takes(m: ConnModel, event: EventModel, now: u64) -> bool {
    &&& m.core.room() >= 1
    &&& now + m.core.rto <= u64::MAX
    &&& event matches EventModel::Send(data) ==> {
        &&& pieces::piece_count(data.len() as int, MAX_CHUNK_PAYLOAD as int) <= 0xFFFF
        &&& m.core.room() > fragment::chunk_data(data, MAX_CHUNK_PAYLOAD as int).len()
    }
    &&& event matches EventModel::Frame(f) ==> channel::can_receive(m.core, f)
}

/// A connection takes whatever happens to it, short of the ends of its numbers and of its clock, and
/// of messages that no count of chunks could tell.
pub proof fn lemma_takes_almost_everything(m: ConnModel, event: EventModel, now: u64)
    requires
        now + m.core.rto <= u64::MAX,
        m.core.send_next + m.core.send_queue.len() + 0xFFFF < u64::MAX,
        event matches EventModel::Send(data) ==> data.len() <= 0xFFFF * MAX_CHUNK_PAYLOAD,
        event matches EventModel::Frame(f) ==> f.seq < u64::MAX,
    ensures
        takes(m, event, now),
{
    if let EventModel::Send(data) = event {
        let (len, size) = (data.len() as int, MAX_CHUNK_PAYLOAD as int);
        assert((len + size - 1) / size <= 0xFFFF) by (nonlinear_arith)
            requires
                0 < size,
                0 <= len <= 0xFFFF * size,
        ;
    }
}

/// The timer runs exactly while frames are in flight. It is set when there are some and it does
/// not run, or has run out, to end as long after as the connection waits for an acknowledgment;
/// while it runs and frames stay in flight, nothing moves its end.
pub proof fn lemma_timer_runs(m: ConnModel, event: EventModel, id: Seq<u8>, now: u64)
    requires
        now + m.core.rto <= u64::MAX,
    ensures
        ({
            let after = stepped(m, event, id, now).0;
            &&& after.deadline is Some <==> after.core.unacked.len() > 0
            &&& after.core.unacked.len() > 0 ==> {
                &&& m.deadline is Some && !(event is Timeout) ==> after.deadline == m.deadline
                &&& m.deadline is None || event is Timeout ==> after.deadline->0 == now + m.core.rto
            }
        }),
{
    lemma_rto_kept(channel::aged(m.core, now), event, id);
}

proof fn lemma_rto_kept(m: CoreModel, event: EventModel, id: Seq<u8>)
    ensures
        core_after(m, event, id).rto == m.rto,
{
    reveal(core_after);
    reveal(channel::message_sent);
    match event {
        EventModel::Send(data) => {
            let chunks = fragment::chunks_of(data, MAX_CHUNK_PAYLOAD as int, id).map_values(
                |c: fragment::ChunkModel| fragment::chunk_bytes(c),
            );
            lemma_pumped_rto(CoreModel { send_queue: m.send_queue + chunks, ..m });
        },
        EventModel::Close => {
            lemma_pumped_rto(CoreModel { closing: true, ..m });
        },
        EventModel::Frame(f) => {
            reveal(channel::received);
            reveal(channel::arrived);
            let m0 = CoreModel { peer_window: f.window, ..channel::acked(m, f.ack_num) };
            lemma_drained_rto(CoreModel { recv_buffer: m0.recv_buffer.insert(f.seq, f), ..m0 });
            lemma_pumped_rto(channel::arrived(m0, f));
            lemma_pumped_rto(channel::acknowledged(channel::established(m0, f)));
        },
        _ => {},
    }
}

proof fn lemma_pumped_rto(m: CoreModel)
    ensures
        channel::pumped(m).rto == m.rto,
{
    reveal(channel::pumped);
    lemma_chunks_rto(m, channel::sendable(m));
}

proof fn lemma_chunks_rto(m: CoreModel, n: int)
    ensures
        channel::chunks_sent(m, n).rto == m.rto,
    decreases n,
{
    if n > 0 {
        lemma_chunks_rto(m, n - 1);
    }
}

proof fn lemma_drained_rto(m: CoreModel)
    ensures
        channel::drained(m).rto == m.rto,
    decreases u64::MAX - m.rcv_next,
{
    reveal(channel::taken);
    if m.rcv_next < u64::MAX && m.recv_buffer.contains_key(m.rcv_next) {
        lemma_drained_rto(channel::taken(m, m.recv_buffer[m.rcv_next]));
    }
}

/// When the timer has run out, every frame in flight is put out again, in order, under its own number
/// and with what it said; unless that was done too often in a row, when the connection ends.
pub proof fn lemma_timeout_sends_again(m: ConnModel, id: Seq<u8>, now: u64, i: int)
    requires
        0 <= i < m.core.unacked.len(),
        m.core.outbox.len() == 0,
    ensures
        ({
            let (after, step) = stepped(m, EventModel::Timeout, id, now);
            let u = m.core.unacked[i];
            &&& m.core.retries < channel::MAX_RETRIES ==> {
                &&& step.outgoing.len() == m.core.unacked.len()
                &&& step.outgoing[i] == channel::frame_bytes(
                    FrameModel {
                        flags: u.flags,
                        ack_num: m.core.rcv_next,
                        window: m.core.window,
                        seq: u.seq,
                        data: u.data,
                    },
                )
                &&& after.core.unacked == m.core.unacked
                &&& after.core.state == m.core.state
            }
            &&& m.core.retries >= channel::MAX_RETRIES ==> {
                &&& step.outgoing.len() == 0
                &&& after.core.state == ConnState::Closed
                &&& after.core.peer_closed
                &&& after.deadline is None
            }
        }),
{
    reveal(core_after);
    let core = channel::aged(m.core, now);
    assert(core.unacked == m.core.unacked);
    assert(channel::resent(core, core.unacked[i]) == channel::frame_bytes(
        FrameModel {
            flags: core.unacked[i].flags,
            ack_num: m.core.rcv_next,
            window: m.core.window,
            seq: core.unacked[i].seq,
            data: core.unacked[i].data,
        },
    ));
}

/// A frame that arrives is taken in: in a connection that stands, exactly those numbers have been got
/// after it that were before, and its own, if it takes one up that is not too far ahead; and
/// whatever is put out goes out.
pub proof fn lemma_frame_taken_in(m: ConnModel, f: FrameModel, id: Seq<u8>, now: u64, n: u64)
    requires
        m.core.stands(),
        !m.core.recv_buffer.contains_key(u64::MAX),
        !m.core.recv_buffer.contains_key(m.core.rcv_next),
        !channel::has_flag(f.flags, FLAG_RST),
    ensures
        ({
            let (after, step) = stepped(m, EventModel::Frame(f), id, now);
            let reach = if m.core.window > 1 {
                m.core.window as int
            } else {
                1
            };
            &&& channel::has_got(after.core, n) <==> channel::has_got(m.core, n) || n == f.seq && (
            channel::has_flag(f.flags, FLAG_SYN) || channel::has_flag(f.flags, channel::FLAG_FIN)
                || f.data.len() > 0) && f.seq < m.core.rcv_next + reach && f.seq < u64::MAX
            &&& after.core.peer_window == f.window
            &&& after.core.outbox.len() == 0
            &&& after.core.delivered.len() == 0
            &&& step.outgoing == channel::received(channel::aged(m.core, now), f).outbox
        }),
{
    reveal(core_after);
    let core = channel::aged(m.core, now);
    channel::lemma_window_taken_in(core, f, n);
}

/// The owner is told that no more messages come in the step in which the peer turns out to have
/// closed, behind the messages of that step, and once: from then on, as when nobody takes
/// messages any longer, nothing is delivered and nothing is told.
pub proof fn lemma_end_told_once(m: ConnModel, event: EventModel, id: Seq<u8>, now: u64)
    ensures
        ({
            let (after, step) = stepped(m, event, id, now);
            &&& !m.delivering ==> step.delivered.len() == 0 && !step.ended && !after.delivering
            &&& event is ReceiverGone ==> step.delivered.len() == 0 && !step.ended
                && !after.delivering
            &&& m.delivering && !(event is ReceiverGone) ==> (step.ended
                <==> after.core.peer_closed) && (after.delivering <==> !after.core.peer_closed)
        }),
{
}

/// An owner that asks to be told of the establishment is told once: at once, if the connection is
/// established, or in the step in which it comes to be. Until then it goes on waiting, and an
/// owner that did not ask is not told.
pub proof fn lemma_establishment_told_once(m: ConnModel, event: EventModel, id: Seq<u8>, now: u64)
    requires
        !m.core.just_established,
    ensures
        ({
            let (after, step) = stepped(m, event, id, now);
            let came = event matches EventModel::Frame(f) && !m.core.stands()
                && channel::has_flag(f.flags, FLAG_SYN) && !channel::has_flag(f.flags, FLAG_RST);
            &&& step.connected <==> (event is Connect && m.core.state == ConnState::Established)
                || came && m.connecting
            &&& after.connecting <==> (m.connecting || event is Connect && m.core.state
                != ConnState::Established) && !came
            &&& !after.core.just_established
        }),
{
    let core = channel::aged(m.core, now);
    lemma_establishment(core, event, id);
}

proof fn lemma_establishment(m: CoreModel, event: EventModel, id: Seq<u8>)
    requires
        !m.just_established,
    ensures
        core_after(m, event, id).just_established <==> (event matches EventModel::Frame(f)
            && !m.stands() && channel::has_flag(f.flags, FLAG_SYN) && !channel::has_flag(
            f.flags,
            FLAG_RST,
        )),
{
    reveal(core_after);
    reveal(channel::message_sent);
    match event {
        EventModel::Send(data) => {
            let chunks = fragment::chunks_of(data, MAX_CHUNK_PAYLOAD as int, id).map_values(
                |c: fragment::ChunkModel| fragment::chunk_bytes(c),
            );
            lemma_pumped_established(CoreModel { send_queue: m.send_queue + chunks, ..m });
        },
        EventModel::Close => {
            lemma_pumped_established(CoreModel { closing: true, ..m });
        },
        EventModel::Frame(f) => {
            reveal(channel::received);
            reveal(channel::arrived);
            let m0 = CoreModel { peer_window: f.window, ..channel::acked(m, f.ack_num) };
            lemma_drained_established(
                CoreModel { recv_buffer: m0.recv_buffer.insert(f.seq, f), ..m0 },
            );
            lemma_pumped_established(channel::arrived(m0, f));
            lemma_pumped_established(channel::acknowledged(channel::established(m0, f)));
        },
        _ => {},
    }
}

proof fn lemma_pumped_established(m: CoreModel)
    ensures
        channel::pumped(m).just_established == m.just_established,
{
    reveal(channel::pumped);
    lemma_chunks_established(m, channel::sendable(m));
}

proof fn lemma_chunks_established(m: CoreModel, n: int)
    ensures
        channel::chunks_sent(m, n).just_established == m.just_established,
    decreases n,
{
    if n > 0 {
        lemma_chunks_established(m, n - 1);
    }
}

proof fn lemma_drained_established(m: CoreModel)
    ensures
        channel::drained(m).just_established == m.just_established,
    decreases u64::MAX - m.rcv_next,
{
    reveal(channel::taken);
    if m.rcv_next < u64::MAX && m.recv_buffer.contains_key(m.rcv_next) {
        lemma_drained_established(channel::taken(m, m.recv_buffer[m.rcv_next]));
    }
}

impl Connection {
    /// What holds of every connection.
    pub open spec fn wf(&self) -> bool {
        self.core.wf()
    }

    /// A closed connection.
    pub fn new(window: u16, rto: u64) -> (r: Self)
        ensures
            r.wf(),
            r@ == (ConnModel {
                core: channel::fresh(window, rto),
                deadline: None,
                connecting: false,
                delivering: true,
            }),
    {
        Connection {
            core: ChannelCore::new(window, rto),
            deadline: None,
            connecting: false,
            delivering: true,
        }
    }

    /// Whether the connection can take an event.
    pub fn can_take(&self, event: &ConnEvent, now: u64) -> (r: bool)
        ensures
            r == takes(self@, event@, now),
    {
        let used: u128 = self.core.send_next as u128 + self.core.send_queue.len() as u128;
        let room: u128 = if used <= u64::MAX as u128 {
            u64::MAX as u128 - used
        } else {
            0
        };
        assert(self@.core.send_queue.len() == self.core.send_queue.len());
        if room < 1 || now as u128 + self.core.rto as u128 > u64::MAX as u128 {
            return false;
        }
        match event {
            ConnEvent::Send(data) => {
                let len: u128 = data.len() as u128;
                let pieces: u128 = (len + MAX_CHUNK_PAYLOAD as u128 - 1) / MAX_CHUNK_PAYLOAD as u128;
                let chunks: u128 = if len == 0 {
                    1
                } else {
                    pieces
                };
                pieces <= 0xFFFF && room > chunks
            },
            ConnEvent::Frame(f) => f.seq < u64::MAX || self.core.state == ConnState::Established
                || self.core.state == ConnState::FinSent || f.flags & FLAG_RST != 0 || f.flags
                & FLAG_SYN == 0,
            _ => true,
        }
    }

    /// Hands an event to the state machine; whether the owner is to be answered at once.
    fn apply(&mut self, event: ConnEvent) -> (at_once: bool)
        requires
            old(self).wf(),
            takes(old(self)@, event@, 0),
        ensures
            final(self).wf(),
            exists|id: [u8; 16]|
                final(self).core@ == #[trigger] core_after(old(self)@.core, event@, id@),
            final(self).core.rto == old(self).core.rto,
            at_once == (event is Connect && old(self)@.core.state == ConnState::Established),
            final(self).connecting == (old(self)@.connecting || event is Connect && !at_once),
            final(self).delivering == (old(self)@.delivering && !(event is ReceiverGone)),
            final(self).deadline == if event is Timeout {
                None
            } else {
                old(self)@.deadline
            },
    {
        reveal(core_after);
        let ghost m = old(self)@;
        let ghost ev = event@;
        let ghost mut id: [u8; 16] = arbitrary();
        let mut at_once = false;
        match event {
            ConnEvent::Connect => {
                if self.core.state == ConnState::Established {
                    at_once = true;
                } else {
                    self.connecting = true;
                    self.core.connect();
                }
            },
            ConnEvent::Send(data) => {
                self.core.send_message(data.as_slice());
                proof {
                    id =
                    choose|id: [u8; 16]|
                        self.core@ == #[trigger] channel::message_sent(m.core, data@, id@);
                }
            },
            ConnEvent::Close => {
                self.core.close();
            },
            ConnEvent::Frame(f) => {
                self.core.on_frame(f);
            },
            ConnEvent::Timeout => {
                self.core.on_timeout();
                self.deadline = None;
            },
            ConnEvent::ReceiverGone => {
                self.delivering = false;
            },
        }
        assert(self.core@ == core_after(m.core, ev, id@));
        at_once
    }

    /// Takes an event at the time `now`, and says what is to be done. A message is sent under
    /// an id drawn at random.
    pub fn step(&mut self, event: ConnEvent, now: u64) -> (out: Step)
        requires
            old(self).wf(),
            takes(old(self)@, event@, now),
        ensures
            final(self).wf(),
            exists|id: [u8; 16]|
                #![trigger stepped(old(self)@, event@, id@, now)]
                {
                    let (after, step) = stepped(old(self)@, event@, id@, now);
                    final(self)@ == after && out@ == step
                },
    {
        let ghost m = old(self)@;
        let ghost ev = event@;
        self.core.advance(now);
        let mut connected = self.apply(event);
        let ghost aged = channel::aged(m.core, now);
        let ghost id = choose|id: [u8; 16]| self.core@ == #[trigger] core_after(aged, ev, id@);
        let ghost core = self.core@;
        let mut outgoing: Vec<Vec<u8>> = Vec::new();
        core::mem::swap(&mut outgoing, &mut self.core.outbox);
        let mut messages: Vec<Vec<u8>> = Vec::new();
        core::mem::swap(&mut messages, &mut self.core.delivered);
        let delivered: Vec<Vec<u8>> = if self.delivering {
            messages
        } else {
            Vec::new()
        };
        if self.core.just_established {
            self.core.just_established = false;
            if self.connecting {
                connected = true;
                self.connecting = false;
            }
        }
        let ended = self.delivering && self.core.peer_closed;
        if self.core.peer_closed {
            self.delivering = false;
        }
        self.deadline = if self.core.has_unacked() {
            match self.deadline {
                Some(d) => Some(d),
                None => Some(now + self.core.rto),
            }
        } else {
            None
        };
        let out = Step { outgoing, delivered, connected, ended };
        proof {
            let (after, step) = stepped(m, ev, id@, now);
            assert(octets::views(self.core.outbox@) =~= Seq::empty());
            assert(octets::views(self.core.delivered@) =~= Seq::empty());
            assert(self@ =~= after);
            assert(out@ =~= step);
        }
        out
    }
}

} // verus!
