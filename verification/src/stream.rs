//! Lossy streams: only the freshest of each peer's packets on a stream is delivered.
use crate::octets::{copy_range, push_all};
use crate::pairs::{self, PairMap};
use crate::transport::TransportError;
use vstd::prelude::*;

verus! {

/// Why a stream failed.
#[derive(Debug, Clone)]
pub enum StreamError {
    /// The packet could not be sent.
    Transport(TransportError),
    /// The packet is too short to hold its priority.
    PayloadTooShort,
}

/// A message that came over a stream.
#[derive(Debug, Clone)]
pub struct StreamMessage {
    pub from: u64,
    pub stream_id: u16,
    /// How urgent it is; the lower, the more.
    pub priority: u8,
    pub data: Vec<u8>,
}

/// What a packet of a stream holds: the priority, and the data.
pub open spec fn payload_bytes(priority: u8, data: Seq<u8>) -> Seq<u8> {
    seq![priority] + data
}

/// What a packet of a stream holds is read back: its first byte is the priority, and all others are
/// the data.
pub proof fn lemma_payload_read_back(priority: u8, data: Seq<u8>)
    ensures
        payload_bytes(priority, data)[0] == priority,
        payload_bytes(priority, data).skip(1) == data,
{
    assert(payload_bytes(priority, data).skip(1) =~= data);
}

/// Builds what a packet of a stream holds.
pub fn stream_payload(priority: u8, data: &[u8]) -> (v: Vec<u8>)
    ensures
        v@ == payload_bytes(priority, data@),
{
    let mut v: Vec<u8> = Vec::new();
    v.push(priority);
    push_all(&mut v, data);
    assert(v@ =~= payload_bytes(priority, data@));
    v
}

/// What the receiver of streams remembers: the newest number of each peer's each stream, and
/// who listens to it.
#[verifier::ext_equal]
pub struct StreamModel {
    pub marks: Map<(u64, u16), u64>,
    pub listeners: Map<(u64, u16), u64>,
}

/// Whether a packet is to be delivered: it holds a priority, and is the first of its peer on its
/// stream or newer than all before it.
pub open spec fn fresh(m: StreamModel, from: u64, stream_id: u16, seq: u64, payload: Seq<u8>) -> bool {
    let key = (from, stream_id);
    payload.len() > 0 && (m.marks.contains_key(key) ==> seq > m.marks[key])
}

/// What a packet leaves behind.
pub open spec fn after_packet(
    m: StreamModel,
    from: u64,
    stream_id: u16,
    seq: u64,
    payload: Seq<u8>,
) -> StreamModel {
    if fresh(m, from, stream_id, seq, payload) {
        StreamModel { marks: m.marks.insert((from, stream_id), seq), ..m }
    } else {
        m
    }
}

/// The state after a peer has restarted: its numbers start anew.
pub open spec fn after_restart(m: StreamModel, peer: u64) -> StreamModel {
    StreamModel { marks: pairs::without_peer(m.marks, peer), ..m }
}

/// Once a packet was delivered, none that is as old or older is, whatever comes in between
/// from any peer on any stream.
pub proof fn lemma_only_fresher(
    m: StreamModel,
    from: u64,
    stream_id: u16,
    seq: u64,
    payload: Seq<u8>,
    other: u64,
    other_id: u16,
    other_seq: u64,
    other_payload: Seq<u8>,
    late: u64,
    late_payload: Seq<u8>,
)
    requires
        fresh(m, from, stream_id, seq, payload),
        late <= seq,
    ensures
        ({
            let after = after_packet(m, from, stream_id, seq, payload);
            let later = after_packet(after, other, other_id, other_seq, other_payload);
            &&& !fresh(after, from, stream_id, late, late_payload)
            &&& !fresh(later, from, stream_id, late, late_payload)
        }),
{
}

/// A packet of one peer or stream has no bearing on those of another.
pub proof fn lemma_streams_independent(
    m: StreamModel,
    from: u64,
    stream_id: u16,
    seq: u64,
    payload: Seq<u8>,
    other: u64,
    other_id: u16,
    other_seq: u64,
    other_payload: Seq<u8>,
)
    requires
        (from, stream_id) != (other, other_id),
    ensures
        fresh(
            after_packet(m, from, stream_id, seq, payload),
            other,
            other_id,
            other_seq,
            other_payload,
        ) == fresh(m, other, other_id, other_seq, other_payload),
{
}

/// A peer that has restarted is heard again, whatever number it starts at; nothing changes for
/// the others.
pub proof fn lemma_restart_heard(
    m: StreamModel,
    peer: u64,
    from: u64,
    stream_id: u16,
    seq: u64,
    payload: Seq<u8>,
)
    requires
        payload.len() > 0,
    ensures
        fresh(after_restart(m, peer), peer, stream_id, seq, payload),
        from != peer ==> fresh(after_restart(m, peer), from, stream_id, seq, payload) == fresh(
            m,
            from,
            stream_id,
            seq,
            payload,
        ),
{
}

/// Which packets are delivered: those that hold a priority and bear a number above all that were
/// delivered of their peer on their stream, be it the first. Such a packet is then the newest; any
/// other leaves everything as it was. Who listens never changes with a packet.
pub proof fn lemma_newest_delivered(
    m: StreamModel,
    from: u64,
    stream_id: u16,
    seq: u64,
    payload: Seq<u8>,
)
    ensures
        ({
            let key = (from, stream_id);
            let after = after_packet(m, from, stream_id, seq, payload);
            let newer = payload.len() > 0 && (!m.marks.contains_key(key) || m.marks[key] < seq);
            &&& fresh(m, from, stream_id, seq, payload) <==> newer
            &&& newer ==> after.marks == m.marks.insert(key, seq)
            &&& !newer ==> after == m
            &&& after.listeners == m.listeners
        }),
{
}

/// The state after a listener was let hear a peer's stream.
pub open spec fn after_open(m: StreamModel, peer: u64, stream_id: u16, listener: u64) -> StreamModel {
    StreamModel { listeners: m.listeners.insert((peer, stream_id), listener), ..m }
}

/// The listener that was let hear a stream last hears it, and no other stream's listener changes;
/// nor does what was delivered.
pub proof fn lemma_last_listener_hears(
    m: StreamModel,
    peer: u64,
    stream_id: u16,
    listener: u64,
    key: (u64, u16),
)
    ensures
        ({
            let r = after_open(m, peer, stream_id, listener);
            &&& r.listeners.contains_key((peer, stream_id))
            &&& r.listeners[(peer, stream_id)] == listener
            &&& key != (peer, stream_id) ==> r.listeners.contains_key(key)
                == m.listeners.contains_key(key) && (m.listeners.contains_key(key)
                ==> r.listeners[key] == m.listeners[key])
            &&& r.marks == m.marks
        }),
{
}

/// A restart of a peer forgets the numbers of all its streams, of no other's, and no listener.
pub proof fn lemma_restart_forgets(m: StreamModel, peer: u64, key: (u64, u16))
    ensures
        after_restart(m, peer).marks.contains_key(key) <==> m.marks.contains_key(key) && key.0
            != peer,
        after_restart(m, peer).marks.contains_key(key) ==> after_restart(m, peer).marks[key]
            == m.marks[key],
        after_restart(m, peer).listeners == m.listeners,
{
}

/// The receiver of all streams of a band.
pub struct StreamCore {
    marks: PairMap,
    listeners: PairMap,
}

impl View for StreamCore {
    type V = StreamModel;

    closed spec fn view(&self) -> StreamModel {
        StreamModel { marks: self.marks@, listeners: self.listeners@ }
    }
}

impl StreamCore {
    /// A receiver that has heard nothing and that nobody listens to.
    pub fn new() -> (r: Self)
        ensures
            r@ == (StreamModel { marks: Map::empty(), listeners: Map::empty() }),
    {
        StreamCore { marks: PairMap::new(), listeners: PairMap::new() }
    }

    /// Lets `listener` hear a peer's stream, in place of whoever did.
    pub fn open(&mut self, peer: u64, stream_id: u16, listener: u64)
        ensures
            final(self)@ == (StreamModel {
                listeners: old(self)@.listeners.insert((peer, stream_id), listener),
                ..old(self)@
            }),
            final(self)@ == after_open(old(self)@, peer, stream_id, listener),
    {
        self.listeners.insert(peer, stream_id, listener);
    }

    /// Who listens to a peer's stream.
    pub fn listener(&self, peer: u64, stream_id: u16) -> (r: Option<u64>)
        ensures
            r == if self@.listeners.contains_key((peer, stream_id)) {
                Some(self@.listeners[(peer, stream_id)])
            } else {
                None
            },
    {
        self.listeners.get(peer, stream_id)
    }

    /// Takes what a packet held: the message, unless it is empty or not fresh.
    pub fn accept(&mut self, from: u64, stream_id: u16, seq: u64, payload: &[u8]) -> (r: Option<
        StreamMessage,
    >)
        ensures
            final(self)@ == after_packet(old(self)@, from, stream_id, seq, payload@),
            r is Some <==> fresh(old(self)@, from, stream_id, seq, payload@),
            r matches Some(m) ==> {
                &&& m.from == from
                &&& m.stream_id == stream_id
                &&& payload@ == payload_bytes(m.priority, m.data@)
            },
    {
        if payload.len() == 0 {
            return None;
        }
        if let Some(mark) = self.marks.get(from, stream_id) {
            if seq <= mark {
                return None;
            }
        }
        self.marks.insert(from, stream_id, seq);
        let data = copy_range(payload, 1, payload.len());
        assert(payload@ =~= payload_bytes(payload@[0], data@));
        Some(StreamMessage { from, stream_id, priority: payload[0], data })
    }

    /// Notes that a peer has restarted.
    pub fn rebase(&mut self, peer: u64)
        ensures
            final(self)@ == after_restart(old(self)@, peer),
    {
        self.marks.forget(peer);
    }
}

} // verus!
