//! The envelope that carries a message too large for one packet in numbered chunks.
//!
//! A chunk is a version byte, the sixteen-byte id of its message, the chunk's index and the
//! count of chunks (both big-endian), then the chunk's bytes. A message that fits one chunk,
//! the empty one included, uses the envelope too.
use crate::octets::{self, array16, copy_range, get_be16, push_all, push_be16, same_bytes};
use crate::pieces::{self, cut_slices, Pieces};
use vstd::prelude::*;

verus! {

/// The only version of the envelope.
pub const VERSION: u8 = 0x01;

/// The bytes that stand before a chunk's data.
pub const FRAG_HEADER_LEN: usize = 21;

/// The most bytes that one packet of a channel carries.
pub const MAX_CHANNEL_DATA: usize = 1024;

/// The most data bytes that one chunk carries.
pub const MAX_CHUNK_PAYLOAD: usize = MAX_CHANNEL_DATA - FRAG_HEADER_LEN;

/// The most messages that a reassembler holds in part.
pub const MAX_PARTIAL_MESSAGES: usize = 256;

/// How long, in milliseconds, a message waits for its chunks after the first of them.
pub const PARTIAL_LIFETIME: u64 = 30_000;

/// A parsed chunk.
#[derive(Debug, Clone, PartialEq, Eq)]
pub struct Chunk {
    pub fragment_id: [u8; 16],
    pub seq: u16,
    pub total: u16,
    pub data: Vec<u8>,
}

/// What a chunk says.
pub struct ChunkModel {
    pub id: Seq<u8>,
    pub seq: u16,
    pub total: u16,
    pub data: Seq<u8>,
}

impl View for Chunk {
    type V = ChunkModel;

    open spec fn view(&self) -> ChunkModel {
        ChunkModel {
            id: self.fragment_id@,
            seq: self.seq,
            total: self.total,
            data: self.data@,
        }
    }
}

/// The bytes of a chunk.
pub open spec fn chunk_bytes(c: ChunkModel) -> Seq<u8> {
    seq![VERSION] + c.id + octets::be16(c.seq) + octets::be16(c.total) + c.data
}

/// The chunk that `s` writes, if it is one: long enough, of the known version, and numbered
/// within its count.
pub open spec fn chunk_of(s: Seq<u8>) -> Option<ChunkModel> {
    if s.len() < FRAG_HEADER_LEN || s[0] != VERSION || octets::be16_at(s, 17) >= octets::be16_at(s, 19) {
        None
    } else {
        Some(
            ChunkModel {
                id: s.subrange(1, 17),
                seq: octets::be16_at(s, 17),
                total: octets::be16_at(s, 19),
                data: s.skip(FRAG_HEADER_LEN as int),
            },
        )
    }
}

/// The data of the chunks that a message is carried in.
pub open spec fn chunk_data(payload: Seq<u8>, chunk_size: int) -> Seq<Seq<u8>> {
    if payload.len() == 0 {
        seq![Seq::empty()]
    } else {
        pieces::cut(payload, chunk_size)
    }
}

/// The chunks that a message is carried in.
pub open spec fn chunks_of(payload: Seq<u8>, chunk_size: int, id: Seq<u8>) -> Seq<ChunkModel> {
    let data = chunk_data(payload, chunk_size);
    Seq::new(
        data.len(),
        |i: int| ChunkModel { id, seq: i as u16, total: data.len() as u16, data: data[i] },
    )
}

/// A message of which some chunks have arrived, the first of them at the time `since`.
#[verifier::ext_equal]
pub struct PartialModel {
    pub id: Seq<u8>,
    pub since: u64,
    pub parts: Seq<Option<Seq<u8>>>,
}

/// Where the message `id` stands among the partial ones; their count if it is not there.
pub open spec fn slot(st: Seq<PartialModel>, id: Seq<u8>) -> int
    decreases st.len(),
{
    if st.len() == 0 || st[0].id == id {
        0
    } else {
        1 + slot(st.skip(1), id)
    }
}

/// Makes room for a chunk of a message of `total` chunks that comes at the time `now`: a new
/// message comes last, and one whose count has changed starts afresh where it stands.
pub open spec fn opened(
    st: Seq<PartialModel>,
    id: Seq<u8>,
    total: u16,
    now: u64,
) -> Seq<PartialModel> {
    let i = slot(st, id);
    let parts = pieces::none_arrived(total as nat);
    if i == st.len() {
        st.push(PartialModel { id, since: now, parts })
    } else if st[i].parts.len() != total {
        st.update(i, PartialModel { parts, ..st[i] })
    } else {
        st
    }
}

/// Drops the oldest message other than `id` where there are too many.
pub open spec fn bounded(st: Seq<PartialModel>, id: Seq<u8>) -> Seq<PartialModel> {
    if st.len() <= MAX_PARTIAL_MESSAGES {
        st
    } else if st[0].id == id {
        st.remove(1)
    } else {
        st.remove(0)
    }
}

/// What feeding the chunk `c` at the time `now` leaves, and the message that it completes, if
/// any.
pub open spec fn fed_chunk(st: Seq<PartialModel>, c: ChunkModel, now: u64) -> (
    Seq<PartialModel>,
    Option<Seq<u8>>,
) {
    let st1 = opened(st, c.id, c.total, now);
    let i = slot(st1, c.id);
    let parts = st1[i].parts.update(c.seq as int, Some(c.data));
    if st1[i].parts[c.seq as int] is Some {
        (st1, None)
    } else if pieces::all_arrived(parts) {
        (st1.remove(i), Some(pieces::joined(parts)))
    } else {
        (bounded(st1.update(i, PartialModel { parts, ..st1[i] }), c.id), None)
    }
}

/// What feeding the bytes `s` at the time `now` leaves, and the message that they complete, if
/// any.
pub open spec fn fed(st: Seq<PartialModel>, s: Seq<u8>, now: u64) -> (
    Seq<PartialModel>,
    Option<Seq<u8>>,
) {
    match chunk_of(s) {
        None => (st, None),
        Some(c) => fed_chunk(st, c, now),
    }
}

/// Whether a message whose first chunk came at `since` waits no longer at the time `now`.
pub open spec fn expired(since: u64, now: u64) -> bool {
    now - since > PARTIAL_LIFETIME
}

/// How many messages, which stand oldest first, wait no longer at the time `now`.
pub open spec fn expired_count(st: Seq<PartialModel>, now: u64) -> int
    decreases st.len(),
{
    if st.len() == 0 || !expired(st[0].since, now) {
        0
    } else {
        1 + expired_count(st.skip(1), now)
    }
}

/// The messages that still wait at the time `now`.
pub open spec fn advanced(st: Seq<PartialModel>, now: u64) -> Seq<PartialModel> {
    st.skip(expired_count(st, now))
}

/// Feeds one byte string after the other, each at its time; the results that came out.
pub open spec fn fed_all(st: Seq<PartialModel>, inputs: Seq<Seq<u8>>, times: Seq<u64>) -> (
    Seq<PartialModel>,
    Seq<Option<Seq<u8>>>,
)
    decreases inputs.len(),
{
    if inputs.len() == 0 {
        (st, Seq::empty())
    } else {
        let before = fed_all(st, inputs.drop_last(), times);
        let now = times[inputs.len() - 1];
        let (after, out) = fed(advanced(before.0, now), inputs.last(), now);
        (after, before.1.push(out))
    }
}

/// Whether the first `n` of the given times all lie within the lifetime of a message that began
/// at the first.
pub open spec fn in_time(times: Seq<u64>, n: nat) -> bool {
    forall|j: int| 0 <= j < n ==> !expired(times[0], #[trigger] times[j])
}

/// Whether the messages stand oldest first, and none began after the time `clock`.
pub open spec fn dated(st: Seq<PartialModel>, clock: u64) -> bool {
    &&& forall|i: int, j: int|
        0 <= i < j < st.len() ==> (#[trigger] st[i]).since <= (#[trigger] st[j]).since
    &&& forall|i: int| 0 <= i < st.len() ==> (#[trigger] st[i]).since <= clock
}

proof fn lemma_expired_count(st: Seq<PartialModel>, now: u64)
    ensures
        0 <= expired_count(st, now) <= st.len(),
        forall|k: int| 0 <= k < expired_count(st, now) ==> expired((#[trigger] st[k]).since, now),
        expired_count(st, now) < st.len() ==> !expired(st[expired_count(st, now)].since, now),
    decreases st.len(),
{
    if st.len() > 0 && expired(st[0].since, now) {
        lemma_expired_count(st.skip(1), now);
        assert forall|k: int| 0 <= k < expired_count(st, now) implies expired(
            (#[trigger] st[k]).since,
            now,
        ) by {
            if k > 0 {
                assert(st.skip(1)[k - 1] == st[k]);
            }
        }
    }
}

/// No more messages are dropped for their age than are held.
pub proof fn lemma_expired_bounds(st: Seq<PartialModel>, now: u64)
    ensures
        0 <= expired_count(st, now) <= st.len(),
{
    lemma_expired_count(st, now);
}

proof fn lemma_expired_count_is(st: Seq<PartialModel>, now: u64, n: int)
    requires
        0 <= n <= st.len(),
        forall|k: int| 0 <= k < n ==> expired((#[trigger] st[k]).since, now),
        n < st.len() ==> !expired(st[n].since, now),
    ensures
        expired_count(st, now) == n,
    decreases st.len(),
{
    lemma_expired_count(st, now);
    let k = expired_count(st, now);
    if k < n {
        assert(expired(st[k].since, now));
    }
}

/// A message of which a part has arrived is held for as long as it may wait, and no longer.
pub proof fn lemma_lifetime(st: Seq<PartialModel>, clock: u64, now: u64, i: int)
    requires
        dated(st, clock),
        0 <= i < st.len(),
    ensures
        i >= expired_count(st, now) <==> now <= st[i].since + PARTIAL_LIFETIME,
        i >= expired_count(st, now) ==> advanced(st, now)[i - expired_count(st, now)] == st[i],
        advanced(st, now).len() == st.len() - expired_count(st, now),
{
    lemma_expired_count(st, now);
    let n = expired_count(st, now);
    if i < n {
        assert(expired(st[i].since, now));
    } else if i > n {
        assert(st[n].since <= st[i].since);
    }
}

/// What holds of the partial messages of a reassembler: at most so many, each under its own
/// id, with something still missing and something arrived.
pub open spec fn partials_wf(st: Seq<PartialModel>) -> bool {
    &&& st.len() <= MAX_PARTIAL_MESSAGES
    &&& forall|i: int, j: int| 0 <= i < j < st.len() ==> (#[trigger] st[i]).id != (#[trigger] st[j]).id
    &&& forall|i: int| 0 <= i < st.len() ==> !pieces::all_arrived((#[trigger] st[i]).parts)
}

proof fn lemma_slot(st: Seq<PartialModel>, id: Seq<u8>)
    ensures
        0 <= slot(st, id) <= st.len(),
        slot(st, id) < st.len() ==> st[slot(st, id)].id == id,
        forall|k: int| 0 <= k < slot(st, id) ==> (#[trigger] st[k]).id != id,
    decreases st.len(),
{
    if st.len() > 0 && st[0].id != id {
        lemma_slot(st.skip(1), id);
        assert forall|k: int| 0 <= k < slot(st, id) implies (#[trigger] st[k]).id != id by {
            if k > 0 {
                assert(st.skip(1)[k - 1] == st[k]);
            }
        }
    }
}

/// `i` is where the message `id` stands if nothing before it has that id.
proof fn lemma_slot_is(st: Seq<PartialModel>, id: Seq<u8>, i: int)
    requires
        0 <= i <= st.len(),
        i < st.len() ==> st[i].id == id,
        forall|k: int| 0 <= k < i ==> (#[trigger] st[k]).id != id,
    ensures
        slot(st, id) == i,
{
    lemma_slot(st, id);
    if slot(st, id) < i {
        assert(st[slot(st, id)].id == id);
    }
}

/// The bytes of one chunk: the header, then the data.
pub fn pack_chunk(fragment_id: &[u8; 16], seq: u16, total: u16, data: &[u8]) -> (out: Vec<u8>)
    ensures
        out@ == chunk_bytes(ChunkModel { id: fragment_id@, seq, total, data: data@ }),
{
    let mut out: Vec<u8> = Vec::new();
    out.push(VERSION);
    push_all(&mut out, fragment_id.as_slice());
    push_be16(&mut out, seq);
    push_be16(&mut out, total);
    push_all(&mut out, data);
    assert(out@ =~= chunk_bytes(ChunkModel { id: fragment_id@, seq, total, data: data@ }));
    out
}

/// Parses one chunk; `None` where it is too short, of another version, or numbered outside
/// its count.
pub fn parse_chunk(chunk: &[u8]) -> (r: Option<Chunk>)
    ensures
        r is Some <==> chunk_of(chunk@) is Some,
        r matches Some(c) ==> chunk_of(chunk@) == Some(c@),
{
    if chunk.len() < FRAG_HEADER_LEN || chunk[0] != VERSION {
        return None;
    }
    let seq = get_be16(chunk, 17);
    let total = get_be16(chunk, 19);
    if seq >= total {
        return None;
    }
    let data = copy_range(chunk, FRAG_HEADER_LEN, chunk.len());
    assert(data@ =~= chunk@.skip(FRAG_HEADER_LEN as int));
    Some(Chunk { fragment_id: array16(chunk, 1), seq, total, data })
}

/// Splits `payload` into chunks of at most `chunk_size` data bytes, under one message id.
pub fn fragment(payload: &[u8], chunk_size: usize, fragment_id: &[u8; 16]) -> (out: Vec<Vec<u8>>)
    requires
        0 < chunk_size,
        pieces::piece_count(payload@.len() as int, chunk_size as int) <= 0xFFFF,
    ensures
        octets::views(out@) == chunks_of(payload@, chunk_size as int, fragment_id@).map_values(
            |c: ChunkModel| chunk_bytes(c),
        ),
{
    let ghost want = chunks_of(payload@, chunk_size as int, fragment_id@);
    let ghost want_bytes = want.map_values(|c: ChunkModel| chunk_bytes(c));
    let mut out: Vec<Vec<u8>> = Vec::new();
    if payload.is_empty() {
        out.push(pack_chunk(fragment_id, 0, 1, payload));
        proof {
            assert(payload@ =~= Seq::<u8>::empty());
            assert(octets::views(out@) =~= want_bytes);
        }
        return out;
    }
    let pieces = cut_slices(payload, chunk_size);
    let total: u16 = pieces.len() as u16;
    let mut i: usize = 0;
    while i < pieces.len()
        invariant
            payload@.len() > 0,
            i <= pieces@.len(),
            pieces@.len() <= 0xFFFF,
            total == pieces@.len(),
            pieces@.len() == pieces::cut(payload@, chunk_size as int).len(),
            forall|k: int|
                0 <= k < pieces@.len() ==> (#[trigger] pieces@[k])@ == pieces::cut(
                    payload@,
                    chunk_size as int,
                )[k],
            want == chunks_of(payload@, chunk_size as int, fragment_id@),
            want_bytes == want.map_values(|c: ChunkModel| chunk_bytes(c)),
            out@.len() == i,
            forall|k: int| 0 <= k < i ==> (#[trigger] out@[k])@ == want_bytes[k],
        decreases pieces@.len() - i,
    {
        let chunk = pack_chunk(fragment_id, i as u16, total, pieces[i]);
        assert(want[i as int].data == pieces@[i as int]@);
        out.push(chunk);
        i = i + 1;
    }
    assert(octets::views(out@) =~= want_bytes);
    out
}

/// Where things stand in a chunk: the version, the message's id, the chunk's number, their count,
/// the data, numbers with their most significant bytes first.
pub proof fn lemma_chunk_layout(c: ChunkModel)
    requires
        c.id.len() == 16,
    ensures
        ({
            let s = chunk_bytes(c);
            &&& s.len() == 21 + c.data.len()
            &&& s[0] == VERSION
            &&& s.subrange(1, 17) == c.id
            &&& s[17] * 0x100 + s[18] == c.seq
            &&& s[19] * 0x100 + s[20] == c.total
            &&& s.skip(21) == c.data
        }),
{
    let s = chunk_bytes(c);
    assert(s.subrange(1, 17) =~= c.id);
    assert(s.subrange(17, 19) =~= octets::be16(c.seq));
    assert(s.subrange(19, 21) =~= octets::be16(c.total));
    assert(s.subrange(17, 19)[0] == s[17] && s.subrange(17, 19)[1] == s[18]);
    assert(s.subrange(19, 21)[0] == s[19] && s.subrange(19, 21)[1] == s[20]);
    octets::lemma_worth16(c.seq);
    octets::lemma_worth16(c.total);
    assert(s.skip(21) =~= c.data);
}

/// What is no chunk: what is shorter than a header, of another version, or numbered past its count.
/// Everything else is one.
pub proof fn lemma_chunk_refused(s: Seq<u8>)
    ensures
        chunk_of(s) is Some <==> s.len() >= 21 && s[0] == VERSION && s[17] * 0x100 + s[18] < s[19]
            * 0x100 + s[20],
{
}

/// How a message is cut: into chunks that follow each other, numbered from nought, each with their
/// count and the message's id, all of the given size but the last, which is not empty; an empty
/// message into one that is empty.
pub proof fn lemma_cut_into_chunks(payload: Seq<u8>, chunk_size: int, id: Seq<u8>, i: int)
    requires
        0 < chunk_size,
        chunk_data(payload, chunk_size).len() <= 0xFFFF,
        0 <= i < chunks_of(payload, chunk_size, id).len(),
    ensures
        ({
            let list = chunks_of(payload, chunk_size, id);
            let c = list[i];
            &&& c.id == id
            &&& c.seq == i
            &&& c.total == list.len()
            &&& payload.len() == 0 ==> list.len() == 1 && c.data.len() == 0
            &&& payload.len() > 0 ==> 0 < c.data.len() <= chunk_size && c.data
                == payload.subrange(i * chunk_size, i * chunk_size + c.data.len() as int)
            &&& payload.len() > 0 && i < list.len() - 1 ==> c.data.len() == chunk_size
        }),
{
    let list = chunks_of(payload, chunk_size, id);
    if payload.len() > 0 {
        let n = list.len() as int;
        pieces::lemma_piece_bounds(payload.len() as int, chunk_size, i);
        assert((i + 1) * chunk_size == i * chunk_size + chunk_size) by (nonlinear_arith);
        if i < n - 1 {
            pieces::lemma_piece_bounds(payload.len() as int, chunk_size, i + 1);
        }
    }
}

/// Parsing the bytes of a chunk gives the chunk back.
#[verifier::spinoff_prover]
pub proof fn lemma_chunk_round_trip(c: ChunkModel)
    requires
        c.id.len() == 16,
        c.seq < c.total,
    ensures
        chunk_of(chunk_bytes(c)) == Some(c),
{
    let s = chunk_bytes(c);
    assert(s.subrange(1, 17) =~= c.id);
    assert(s.subrange(17, 19) =~= octets::be16(c.seq));
    assert(s.subrange(19, 21) =~= octets::be16(c.total));
    assert(s.skip(FRAG_HEADER_LEN as int) =~= c.data);
    octets::lemma_be16_at(s, 17, c.seq);
    octets::lemma_be16_at(s, 19, c.total);
}

/// Feeding a chunk keeps what holds of the partial messages.
proof fn lemma_fed_chunk_wf(st: Seq<PartialModel>, c: ChunkModel, now: u64)
    requires
        partials_wf(st),
        c.seq < c.total,
    ensures
        partials_wf(fed_chunk(st, c, now).0),
{
    lemma_slot(st, c.id);
    let st1 = opened(st, c.id, c.total, now);
    let i = slot(st, c.id);
    assert(pieces::none_arrived(c.total as nat)[0] is None);
    lemma_slot_is(st1, c.id, i);
    let parts = st1[i].parts.update(c.seq as int, Some(c.data));
    if st1[i].parts[c.seq as int] is None && !pieces::all_arrived(parts) {
        let st2 = st1.update(i, PartialModel { parts, ..st1[i] });
        assert forall|j: int, k: int| 0 <= j < k < st2.len() implies (#[trigger] st2[j]).id
            != (#[trigger] st2[k]).id by {
            assert(st1[j].id == st2[j].id && st1[k].id == st2[k].id);
        }
        assert forall|j: int| 0 <= j < st2.len() implies !pieces::all_arrived((#[trigger] st2[j]).parts) by {
            assert(j != i ==> st1[j] == st2[j]);
        }
    }
}

/// Where a message stands after the bound on their number was kept.
proof fn lemma_bounded_slot(st: Seq<PartialModel>, id: Seq<u8>, i: int)
    requires
        0 <= i < st.len() <= MAX_PARTIAL_MESSAGES + 1,
        st[i].id == id,
        forall|j: int, k: int| 0 <= j < k < st.len() ==> (#[trigger] st[j]).id != (#[trigger] st[k]).id,
    ensures
        ({
            let s = bounded(st, id);
            &&& slot(s, id) < s.len()
            &&& s[slot(s, id)] == st[i]
        }),
{
    let s = bounded(st, id);
    if st.len() <= MAX_PARTIAL_MESSAGES {
        lemma_slot_is(s, id, i);
    } else if st[0].id == id {
        assert(i == 0);
        assert(s[0] == st[0]);
        lemma_slot_is(s, id, 0);
    } else {
        assert(s[i - 1] == st[i]);
        assert forall|k: int| 0 <= k < i - 1 implies (#[trigger] s[k]).id != id by {
            assert(s[k] == st[k + 1]);
        }
        lemma_slot_is(s, id, i - 1);
    }
}

/// A message that still waits stays where it stands among those that do, and one that is not
/// there does not come to be.
proof fn lemma_advanced(st: Seq<PartialModel>, id: Seq<u8>, now: u64)
    requires
        partials_wf(st),
    ensures
        partials_wf(advanced(st, now)),
        slot(st, id) == st.len() ==> slot(advanced(st, now), id) == advanced(st, now).len(),
        slot(st, id) < st.len() && !expired(st[slot(st, id)].since, now) ==> {
            let s = advanced(st, now);
            slot(s, id) < s.len() && s[slot(s, id)] == st[slot(st, id)]
        },
        advanced(st, now).len() <= st.len(),
{
    lemma_expired_count(st, now);
    lemma_slot(st, id);
    let n = expired_count(st, now);
    let s = advanced(st, now);
    let i = slot(st, id);
    if i == st.len() {
        assert forall|k: int| 0 <= k < s.len() implies (#[trigger] s[k]).id != id by {
            assert(s[k] == st[k + n]);
        }
        lemma_slot_is(s, id, s.len() as int);
    } else if !expired(st[i].since, now) {
        assert(s[i - n] == st[i]);
        assert forall|k: int| 0 <= k < i - n implies (#[trigger] s[k]).id != id by {
            assert(s[k] == st[k + n]);
        }
        lemma_slot_is(s, id, i - n);
    }
    assert forall|j: int, k: int| 0 <= j < k < s.len() implies (#[trigger] s[j]).id
        != (#[trigger] s[k]).id by {
        assert(s[j] == st[j + n] && s[k] == st[k + n]);
    }
    assert forall|j: int| 0 <= j < s.len() implies !pieces::all_arrived((#[trigger] s[j]).parts) by {
        assert(s[j] == st[j + n]);
    }
}

/// The partial messages without the times at which they began.
pub open spec fn undated(st: Seq<PartialModel>) -> Seq<PartialModel> {
    st.map_values(|p: PartialModel| PartialModel { since: 0, ..p })
}

proof fn lemma_undated_slot(st: Seq<PartialModel>, id: Seq<u8>)
    ensures
        slot(undated(st), id) == slot(st, id),
{
    lemma_slot(st, id);
    let i = slot(st, id);
    assert forall|k: int| 0 <= k < i implies (#[trigger] undated(st)[k]).id != id by {
        assert(undated(st)[k].id == st[k].id);
    }
    lemma_slot_is(undated(st), id, i);
}

/// When a message began has no bearing on what comes out of the reassembler.
pub proof fn lemma_undated_fed(st: Seq<PartialModel>, s: Seq<u8>, now: u64)
    ensures
        undated(fed(st, s, now).0) == fed(undated(st), s, 0).0,
        fed(st, s, now).1 == fed(undated(st), s, 0).1,
{
    if let Some(c) = chunk_of(s) {
        let u = undated(st);
        lemma_slot(st, c.id);
        lemma_undated_slot(st, c.id);
        let st1 = opened(st, c.id, c.total, now);
        let u1 = opened(u, c.id, c.total, 0);
        assert(undated(st1) =~= u1);
        lemma_slot(st1, c.id);
        lemma_undated_slot(st1, c.id);
        let i = slot(st1, c.id);
        lemma_slot_is(st1, c.id, slot(st, c.id));
        let parts = st1[i].parts.update(c.seq as int, Some(c.data));
        let st2 = st1.update(i, PartialModel { parts, ..st1[i] });
        let u2 = u1.update(i, PartialModel { parts, ..u1[i] });
        assert(undated(st2) =~= u2);
        assert(undated(st1.remove(i)) =~= u1.remove(i));
        assert(undated(bounded(st2, c.id)) =~= bounded(u2, c.id));
    }
}

/// The bytes of the chunks of a message, in the given order.
pub open spec fn chunks_in_order(
    payload: Seq<u8>,
    chunk_size: int,
    id: Seq<u8>,
    order: Seq<int>,
) -> Seq<Seq<u8>> {
    Seq::new(order.len(), |k: int| chunk_bytes(chunks_of(payload, chunk_size, id)[order[k]]))
}

proof fn lemma_prefix_fed(
    st: Seq<PartialModel>,
    payload: Seq<u8>,
    chunk_size: int,
    id: Seq<u8>,
    order: Seq<int>,
    times: Seq<u64>,
    k: int,
)
    requires
        in_time(times, order.len()),
        partials_wf(st),
        slot(st, id) == st.len(),
        id.len() == 16,
        0 < chunk_size,
        chunk_data(payload, chunk_size).len() <= 0xFFFF,
        pieces::completing(order, chunk_data(payload, chunk_size).len() as int),
        0 <= k < order.len(),
    ensures
        ({
            let inputs = chunks_in_order(payload, chunk_size, id, order);
            let (s, outs) = fed_all(st, inputs.take(k), times);
            &&& partials_wf(s)
            &&& outs.len() == k
            &&& forall|j: int| 0 <= j < k ==> (#[trigger] outs[j]) is None
            &&& k == 0 ==> s == st
            &&& st.len() == 0 && k > 0 ==> s.len() == 1
            &&& k > 0 ==> slot(s, id) < s.len() && s[slot(s, id)] == (PartialModel {
                id,
                since: times[0],
                parts: pieces::arrived_in(chunk_data(payload, chunk_size), order.take(k)),
            })
        }),
    decreases k,
{
    let inputs = chunks_in_order(payload, chunk_size, id, order);
    let data = chunk_data(payload, chunk_size);
    if k == 0 {
        assert(inputs.take(0) =~= Seq::empty());
    } else {
        lemma_prefix_fed(st, payload, chunk_size, id, order, times, k - 1);
        let (held, outs) = fed_all(st, inputs.take(k - 1), times);
        assert(inputs.take(k).drop_last() =~= inputs.take(k - 1));
        assert(inputs.take(k).last() == inputs[k - 1]);
        let now = times[k - 1];
        let s = advanced(held, now);
        lemma_advanced(held, id, now);
        let q = order[k - 1];
        let c = chunks_of(payload, chunk_size, id)[q];
        lemma_chunk_round_trip(c);
        lemma_fed_chunk_wf(s, c, now);
        pieces::lemma_arrives(data, order, k - 1);
        let before = pieces::arrived_in(data, order.take(k - 1));
        let after = pieces::arrived_in(data, order.take(k));
        lemma_slot(s, id);
        let st1 = opened(s, id, c.total, now);
        let i = slot(s, id);
        lemma_slot_is(st1, id, i);
        if k == 1 {
            assert(order.take(0) =~= Seq::empty());
            assert(before =~= pieces::none_arrived(data.len()));
        }
        assert(st1[i] == (PartialModel { id, since: times[0], parts: before }));
        pieces::lemma_not_complete(data, order, k);
        if before[q] is None {
            lemma_bounded_slot(
                st1.update(i, PartialModel { id, since: times[0], parts: after }),
                id,
                i,
            );
        } else {
            assert(st1 == s);
        }
    }
}

/// A message that was split comes out whole, and only with the chunk that completes it, in
/// whatever order its chunks are fed and however often, whatever else the reassembler holds in part, as long as none comes later
/// than the first may wait for it. Where nothing else was held, nothing is held afterwards.
pub proof fn lemma_fragments_reassemble(
    st: Seq<PartialModel>,
    payload: Seq<u8>,
    chunk_size: int,
    id: Seq<u8>,
    order: Seq<int>,
    times: Seq<u64>,
)
    requires
        in_time(times, order.len()),
        partials_wf(st),
        slot(st, id) == st.len(),
        id.len() == 16,
        0 < chunk_size,
        chunk_data(payload, chunk_size).len() <= 0xFFFF,
        pieces::completing(order, chunk_data(payload, chunk_size).len() as int),
    ensures
        ({
            let inputs = chunks_in_order(payload, chunk_size, id, order);
            let (s, outs) = fed_all(st, inputs, times);
            &&& st.len() == 0 ==> s.len() == 0
            &&& outs.len() == order.len()
            &&& forall|j: int| 0 <= j < order.len() - 1 ==> (#[trigger] outs[j]) is None
            &&& outs.last() == Some(payload)
        }),
{
    let inputs = chunks_in_order(payload, chunk_size, id, order);
    let data = chunk_data(payload, chunk_size);
    if payload.len() > 0 {
        pieces::lemma_piece_count_positive(payload.len() as int, chunk_size);
    }
    let k = order.len() - 1;
    lemma_prefix_fed(st, payload, chunk_size, id, order, times, k);
    let (held, outs) = fed_all(st, inputs.take(k), times);
    let now = times[k];
    let s = advanced(held, now);
    lemma_advanced(held, id, now);
    assert(inputs.drop_last() =~= inputs.take(k));
    let q = order[k];
    let c = chunks_of(payload, chunk_size, id)[q];
    lemma_chunk_round_trip(c);
    pieces::lemma_arrives(data, order, k);
    let before = pieces::arrived_in(data, order.take(k));
    let after = pieces::arrived_in(data, order.take(k + 1));
    lemma_slot(s, id);
    let st1 = opened(s, id, c.total, now);
    let i = slot(s, id);
    lemma_slot_is(st1, id, i);
    if k == 0 {
        assert(order.take(0) =~= Seq::empty());
        assert(before =~= pieces::none_arrived(data.len()));
    }
    assert(st1[i] == (PartialModel { id, since: times[0], parts: before }));
    assert(order.take(k + 1) =~= order);
    assert(after =~= pieces::filled(data));
    assert(order.drop_last() =~= order.take(k));
    assert(before[q] is None);
    if payload.len() == 0 {
        assert(pieces::filled(data).drop_last() =~= Seq::empty());
        assert(pieces::joined(pieces::filled(data).drop_last()) =~= Seq::<u8>::empty());
        assert(pieces::joined(pieces::filled(data)) =~= payload);
    } else {
        pieces::lemma_joined_cut(payload, chunk_size);
    }
}

/// A chunk of one message leaves what is held of the others as it was, and holds nothing else of
/// them. Only where as many are held as may be, and the chunk begins one more, the oldest goes.
#[verifier::spinoff_prover]
#[verifier::rlimit(40)]
pub proof fn lemma_messages_apart(st: Seq<PartialModel>, c: ChunkModel, now: u64, p: PartialModel)
    requires
        partials_wf(st),
        c.seq < c.total,
        p.id != c.id,
    ensures
        ({
            let after = fed_chunk(st, c, now).0;
            let held = exists|i: int| 0 <= i < st.len() && (#[trigger] st[i]).id == c.id;
            if held || st.len() < MAX_PARTIAL_MESSAGES || c.total == 1 {
                after.contains(p) <==> st.contains(p)
            } else {
                after.contains(p) <==> st.contains(p) && p != st[0]
            }
        }),
{
    lemma_slot(st, c.id);
    let i = slot(st, c.id);
    let st1 = opened(st, c.id, c.total, now);
    lemma_slot_is(st1, c.id, i);
    let parts = st1[i].parts.update(c.seq as int, Some(c.data));
    let st2 = st1.update(i, PartialModel { parts, ..st1[i] });
    let after = fed_chunk(st, c, now).0;
    if i == st.len() {
        assert(!(exists|j: int| 0 <= j < st.len() && (#[trigger] st[j]).id == c.id));
        if c.total > 1 {
            let j: int = if c.seq == 0 {
                1
            } else {
                0
            };
            assert(parts[j] is None);
        } else {
            assert(pieces::all_arrived(parts));
        }
    } else {
        assert(st[i].id == c.id);
    }
    if st.contains(p) {
        let k = st.index_of(p);
        assert(k != i);
        assert(st1[k] == p && st2[k] == p);
        if after == st1.remove(i) {
            if k < i {
                assert(after[k] == p);
            } else {
                assert(after[k - 1] == p);
            }
        } else if after == st1 {
            assert(after[k] == p);
        } else if st2.len() <= MAX_PARTIAL_MESSAGES {
            assert(after[k] == p);
        } else {
            assert(i == st.len());
            assert(st2[0] == st[0]);
            if k > 0 {
                assert(after[k - 1] == p);
            } else if after.contains(p) {
                let j = after.index_of(p);
                assert(after[j] == st2[j + 1]);
                assert(st2[j + 1].id == st2[0].id);
                assert(j + 1 < st.len() ==> st[j + 1].id == st[0].id);
            }
        }
    } else if after.contains(p) {
        let k = after.index_of(p);
        let j = choose|j: int| 0 <= j < st1.len() && (st1[j] == p || st2[j] == p) && j != i;
        assert(exists|j: int| 0 <= j < st1.len() && (st1[j] == p || st2[j] == p) && j != i) by {
            if after == st1.remove(i) {
                let w = if k < i {
                    k
                } else {
                    k + 1
                };
                assert(st1[w] == p);
            } else if after == st1 {
                assert(st1[k] == p);
            } else if st2.len() <= MAX_PARTIAL_MESSAGES {
                assert(st2[k] == p);
            } else {
                assert(st2[k + 1] == p);
            }
        }
        assert(st1[j] == st[j]);
        assert(st.contains(p));
    }
}

/// What a chunk does to its own message: one of a message of which nothing is held begins it; one
/// that is there already changes nothing; any other is put in its place, and completes the message
/// when it is the last that lacks.
pub proof fn lemma_chunk_in_its_place(st: Seq<PartialModel>, c: ChunkModel, now: u64, p: PartialModel)
    requires
        partials_wf(st),
        c.seq < c.total,
        p.id == c.id,
        st.contains(p),
        p.parts.len() == c.total,
    ensures
        ({
            let (after, out) = fed_chunk(st, c, now);
            let full = PartialModel { parts: p.parts.update(c.seq as int, Some(c.data)), ..p };
            let last = forall|j: int|
                0 <= j < c.total && j != c.seq ==> (#[trigger] p.parts[j]) is Some;
            &&& p.parts[c.seq as int] is Some ==> after == st && out is None
            &&& p.parts[c.seq as int] is None && !last ==> after.contains(full) && out is None
            &&& p.parts[c.seq as int] is None && last ==> out == Some(
                pieces::joined(full.parts),
            ) && forall|j: int| 0 <= j < after.len() ==> (#[trigger] after[j]).id != c.id
        }),
{
    let (after, out) = fed_chunk(st, c, now);
    let i = st.index_of(p);
    lemma_slot(st, c.id);
    if slot(st, c.id) < i {
        assert(st[slot(st, c.id)].id != st[i].id);
    }
    lemma_slot_is(st, c.id, i);
    let full = PartialModel { parts: p.parts.update(c.seq as int, Some(c.data)), ..p };
    let last = forall|j: int| 0 <= j < c.total && j != c.seq ==> (#[trigger] p.parts[j]) is Some;
    assert(pieces::all_arrived(full.parts) == last) by {
        if pieces::all_arrived(full.parts) {
            assert forall|j: int| 0 <= j < c.total && j != c.seq implies (
            #[trigger] p.parts[j]) is Some by {
                assert(full.parts[j] is Some);
            }
        }
    }
    if p.parts[c.seq as int] is None {
        if last {
            assert(after == st.remove(i));
            assert forall|j: int| 0 <= j < after.len() implies (#[trigger] after[j]).id != c.id by {
                if j < i {
                    assert(after[j] == st[j]);
                } else {
                    assert(after[j] == st[j + 1]);
                }
            }
        } else {
            assert(after == st.update(i, full));
            assert(after[i] == full);
        }
    }
}

/// A chunk of a message that is held, but that tells another count, starts the message afresh: only
/// that chunk is held of it then, and it waits no longer for it.
pub proof fn lemma_count_changed(st: Seq<PartialModel>, c: ChunkModel, now: u64, p: PartialModel)
    requires
        partials_wf(st),
        c.seq < c.total,
        p.id == c.id,
        st.contains(p),
        p.parts.len() != c.total,
    ensures
        ({
            let (after, out) = fed_chunk(st, c, now);
            let begun = PartialModel {
                parts: pieces::none_arrived(c.total as nat).update(c.seq as int, Some(c.data)),
                ..p
            };
            &&& c.total > 1 ==> out is None && after.contains(begun)
            &&& c.total == 1 ==> out == Some(c.data)
        }),
{
    let (after, out) = fed_chunk(st, c, now);
    lemma_slot_of(st, p);
    let i = slot(st, c.id);
    lemma_slot(st, c.id);
    let st1 = opened(st, c.id, c.total, now);
    lemma_slot_is(st1, c.id, i);
    let parts = st1[i].parts.update(c.seq as int, Some(c.data));
    if c.total > 1 {
        let j: int = if c.seq == 0 {
            1
        } else {
            0
        };
        assert(parts[j] is None);
        assert(after[i] == PartialModel { parts, ..p });
    } else {
        assert(parts =~= seq![Some(c.data)]);
        assert(parts.drop_last() =~= Seq::empty());
        assert(pieces::joined(parts.drop_last()) =~= Seq::<u8>::empty());
        assert(pieces::joined(parts) =~= c.data);
    }
}

/// How many of byte strings are chunks of the message `id`.
pub open spec fn count_of(inputs: Seq<Seq<u8>>, id: Seq<u8>) -> nat
    decreases inputs.len(),
{
    if inputs.len() == 0 {
        0
    } else {
        count_of(inputs.drop_last(), id) + if is_of(inputs.last(), id) {
            1nat
        } else {
            0nat
        }
    }
}

/// Whether a byte string is a chunk of the message `id`.
pub open spec fn is_of(s: Seq<u8>, id: Seq<u8>) -> bool {
    chunk_of(s) matches Some(c) && c.id == id
}

/// Whether the chunks of one message come in the given order, with whatever else between them.
pub open spec fn mixed_in(
    inputs: Seq<Seq<u8>>,
    payload: Seq<u8>,
    chunk_size: int,
    id: Seq<u8>,
    order: Seq<int>,
) -> bool {
    forall|i: int|
        0 <= i < inputs.len() && is_of(#[trigger] inputs[i], id) ==> {
            let k = count_of(inputs.take(i), id) as int;
            k < order.len() && inputs[i] == chunk_bytes(
                chunks_of(payload, chunk_size, id)[order[k]],
            )
        }
}

/// Whether everything comes while the message whose first chunk comes at `first` waits.
pub open spec fn all_in_time(
    inputs: Seq<Seq<u8>>,
    times: Seq<u64>,
    id: Seq<u8>,
    first: u64,
) -> bool {
    forall|i: int|
        0 <= i < inputs.len() ==> {
            let k = count_of(inputs.take(i), id);
            &&& k > 0 ==> #[trigger] times[i] <= first + PARTIAL_LIFETIME
            &&& k == 0 && is_of(inputs[i], id) ==> times[i] == first
        }
}

/// Whether there is always room for one more message.
pub open spec fn never_full(st: Seq<PartialModel>, inputs: Seq<Seq<u8>>, times: Seq<u64>) -> bool {
    forall|k: int|
        0 <= k < inputs.len() ==> fed_all(st, #[trigger] inputs.take(k), times).0.len()
            < MAX_PARTIAL_MESSAGES
}

proof fn lemma_slot_of(st: Seq<PartialModel>, p: PartialModel)
    requires
        partials_wf(st),
        st.contains(p),
    ensures
        slot(st, p.id) < st.len(),
        st[slot(st, p.id)] == p,
{
    let i = st.index_of(p);
    lemma_slot(st, p.id);
    if slot(st, p.id) < i {
        assert(st[slot(st, p.id)].id != st[i].id);
    }
}

#[verifier::spinoff_prover]
#[verifier::rlimit(40)]
proof fn lemma_mixed_prefix(
    st: Seq<PartialModel>,
    inputs: Seq<Seq<u8>>,
    times: Seq<u64>,
    payload: Seq<u8>,
    chunk_size: int,
    id: Seq<u8>,
    order: Seq<int>,
    first: u64,
    n: int,
)
    requires
        partials_wf(st),
        slot(st, id) == st.len(),
        id.len() == 16,
        0 < chunk_size,
        chunk_data(payload, chunk_size).len() <= 0xFFFF,
        pieces::completing(order, chunk_data(payload, chunk_size).len() as int),
        mixed_in(inputs, payload, chunk_size, id, order),
        all_in_time(inputs, times, id, first),
        never_full(st, inputs, times),
        0 <= n <= inputs.len(),
        count_of(inputs.take(n), id) < order.len(),
    ensures
        ({
            let (s, outs) = fed_all(st, inputs.take(n), times);
            let k = count_of(inputs.take(n), id) as int;
            &&& partials_wf(s)
            &&& outs.len() == n
            &&& forall|j: int|
                0 <= j < n && is_of(inputs[j], id) ==> (#[trigger] outs[j]) is None
            &&& k == 0 ==> slot(s, id) == s.len()
            &&& k > 0 ==> slot(s, id) < s.len() && s[slot(s, id)] == (PartialModel {
                id,
                since: first,
                parts: pieces::arrived_in(chunk_data(payload, chunk_size), order.take(k)),
            })
        }),
    decreases n,
{
    let data = chunk_data(payload, chunk_size);
    if n == 0 {
        assert(inputs.take(0) =~= Seq::empty());
    } else {
        let all = inputs.take(n);
        let bytes = inputs[n - 1];
        let now = times[n - 1];
        assert(all.drop_last() =~= inputs.take(n - 1));
        assert(all.last() == bytes);
        let k = count_of(inputs.take(n - 1), id) as int;
        lemma_mixed_prefix(
            st,
            inputs,
            times,
            payload,
            chunk_size,
            id,
            order,
            first,
            n - 1,
        );
        let (held, outs) = fed_all(st, inputs.take(n - 1), times);
        let s = advanced(held, now);
        lemma_advanced(held, id, now);
        if is_of(bytes, id) {
            lemma_own_chunk_fed(s, payload, chunk_size, id, order, first, now, k);
        } else if let Some(c) = chunk_of(bytes) {
            lemma_fed_chunk_wf(s, c, now);
            let (after, out) = fed_chunk(s, c, now);
            if k > 0 {
                lemma_slot(s, id);
                let p = s[slot(s, id)];
                assert(s.contains(p));
                lemma_messages_apart(s, c, now, p);
                lemma_slot_of(after, p);
            } else {
                assert forall|j: int| 0 <= j < after.len() implies (#[trigger] after[j]).id != id by {
                    if after[j].id == id {
                        lemma_messages_apart(s, c, now, after[j]);
                        assert(after.contains(after[j]));
                        let w = s.index_of(after[j]);
                        lemma_slot(s, id);
                        assert(s[w].id == id);
                    }
                }
                lemma_slot_is(after, id, after.len() as int);
            }
        }
        let results = fed_all(st, all, times).1;
        assert forall|j: int| 0 <= j < n && is_of(inputs[j], id) implies (
        #[trigger] results[j]) is None by {
            if j < n - 1 {
                assert(results[j] == outs[j]);
            }
        }
    }
}

#[verifier::spinoff_prover]
#[verifier::rlimit(40)]
proof fn lemma_own_chunk_fed(
    s: Seq<PartialModel>,
    payload: Seq<u8>,
    chunk_size: int,
    id: Seq<u8>,
    order: Seq<int>,
    first: u64,
    now: u64,
    k: int,
)
    requires
        partials_wf(s),
        id.len() == 16,
        chunk_data(payload, chunk_size).len() <= 0xFFFF,
        pieces::completing(order, chunk_data(payload, chunk_size).len() as int),
        0 <= k < order.len(),
        k == 0 ==> slot(s, id) == s.len() && now == first,
        k > 0 ==> slot(s, id) < s.len() && s[slot(s, id)] == (PartialModel {
            id,
            since: first,
            parts: pieces::arrived_in(chunk_data(payload, chunk_size), order.take(k)),
        }),
    ensures
        ({
            let data = chunk_data(payload, chunk_size);
            let c = chunks_of(payload, chunk_size, id)[order[k]];
            let (after, out) = fed(s, chunk_bytes(c), now);
            let has = pieces::arrived_in(data, order.take(k + 1));
            &&& partials_wf(after)
            &&& k + 1 < order.len() ==> out is None && slot(after, id) < after.len() && after[slot(
                after,
                id,
            )] == (PartialModel { id, since: first, parts: has })
            &&& k + 1 == order.len() ==> out == Some(pieces::joined(pieces::filled(data)))
        }),
{
    let data = chunk_data(payload, chunk_size);
    let q = order[k];
    let c = chunks_of(payload, chunk_size, id)[q];
    lemma_chunk_round_trip(c);
    lemma_fed_chunk_wf(s, c, now);
    pieces::lemma_arrives(data, order, k);
    let before = pieces::arrived_in(data, order.take(k));
    let after = pieces::arrived_in(data, order.take(k + 1));
    lemma_slot(s, id);
    let st1 = opened(s, id, c.total, now);
    let i = slot(s, id);
    lemma_slot_is(st1, id, i);
    if k == 0 {
        assert(order.take(0) =~= Seq::empty());
        assert(before =~= pieces::none_arrived(data.len()));
    }
    assert(st1[i] == (PartialModel { id, since: first, parts: before }));
    if k + 1 < order.len() {
        pieces::lemma_not_complete(data, order, k + 1);
        if before[q] is None {
            lemma_bounded_slot(
                st1.update(i, PartialModel { id, since: first, parts: after }),
                id,
                i,
            );
        } else {
            assert(st1 == s);
        }
    } else {
        assert(order.take(k + 1) =~= order);
        assert(after =~= pieces::filled(data));
        assert(order.drop_last() =~= order.take(k));
        assert(before[q] is None);
    }
}

/// A message that was split comes out whole whatever comes between its chunks, be it chunks of other
/// messages or anything else, in whatever order its own are fed and however often: it comes with
/// the one that completes it, and with none before that, as long as no more messages are begun
/// than may be held.
#[verifier::spinoff_prover]
#[verifier::rlimit(40)]
pub proof fn lemma_reassembled_among_others(
    st: Seq<PartialModel>,
    inputs: Seq<Seq<u8>>,
    times: Seq<u64>,
    payload: Seq<u8>,
    chunk_size: int,
    id: Seq<u8>,
    order: Seq<int>,
    first: u64,
)
    requires
        partials_wf(st),
        forall|i: int| 0 <= i < st.len() ==> (#[trigger] st[i]).id != id,
        id.len() == 16,
        0 < chunk_size,
        chunk_data(payload, chunk_size).len() <= 0xFFFF,
        pieces::completing(order, chunk_data(payload, chunk_size).len() as int),
        mixed_in(inputs, payload, chunk_size, id, order),
        all_in_time(inputs, times, id, first),
        never_full(st, inputs, times),
        count_of(inputs, id) == order.len(),
        is_of(inputs.last(), id),
    ensures
        ({
            let outs = fed_all(st, inputs, times).1;
            &&& outs.len() == inputs.len()
            &&& outs.last() == Some(payload)
            &&& forall|j: int|
                0 <= j < inputs.len() - 1 && is_of(inputs[j], id) ==> (#[trigger] outs[j]) is None
        }),
{
    let data = chunk_data(payload, chunk_size);
    let n = inputs.len() - 1;
    let k = order.len() - 1;
    let now = times[n];
    if payload.len() > 0 {
        pieces::lemma_piece_count_positive(payload.len() as int, chunk_size);
    }
    lemma_slot_is(st, id, st.len() as int);
    assert(inputs.drop_last() =~= inputs.take(n));
    assert(inputs[n] == inputs.last());
    lemma_mixed_prefix(st, inputs, times, payload, chunk_size, id, order, first, n);
    let (held, before) = fed_all(st, inputs.take(n), times);
    lemma_advanced(held, id, now);
    lemma_own_chunk_fed(advanced(held, now), payload, chunk_size, id, order, first, now, k);
    if payload.len() == 0 {
        assert(pieces::filled(data).drop_last() =~= Seq::empty());
        assert(pieces::joined(pieces::filled(data).drop_last()) =~= Seq::<u8>::empty());
        assert(pieces::joined(pieces::filled(data)) =~= payload);
    } else {
        pieces::lemma_joined_cut(payload, chunk_size);
    }
    let outs = fed_all(st, inputs, times).1;
    assert forall|j: int| 0 <= j < n && is_of(inputs[j], id) implies (
    #[trigger] outs[j]) is None by {
        assert(outs[j] == before[j]);
    }
}

/// What is held of messages of which one chunk each was fed: those numbered from `from` up to
/// `to`, oldest first.
pub open spec fn begun(chunks: Seq<ChunkModel>, times: Seq<u64>, from: int, to: int) -> Seq<
    PartialModel,
> {
    Seq::new(
        (to - from) as nat,
        |i: int|
            PartialModel {
                id: chunks[from + i].id,
                since: times[from + i],
                parts: pieces::none_arrived(chunks[from + i].total as nat).update(
                    chunks[from + i].seq as int,
                    Some(chunks[from + i].data),
                ),
            },
    )
}

/// Of more messages in part than may be held, the newest are: fed one chunk each of so many
/// messages, none of which waits too long, a reassembler holds the last of them, as many as it
/// may, and has given out nothing.
pub proof fn lemma_newest_held(chunks: Seq<ChunkModel>, times: Seq<u64>)
    requires
        forall|i: int|
            0 <= i < chunks.len() ==> (#[trigger] chunks[i]).id.len() == 16 && chunks[i].seq
                < chunks[i].total && chunks[i].total > 1,
        forall|i: int, j: int|
            0 <= i < j < chunks.len() ==> (#[trigger] chunks[i]).id != (#[trigger] chunks[j]).id,
        forall|i: int, j: int|
            0 <= i < j < chunks.len() ==> !expired(#[trigger] times[i], #[trigger] times[j]),
    ensures
        ({
            let n = chunks.len() as int;
            let first = if n > MAX_PARTIAL_MESSAGES {
                n - MAX_PARTIAL_MESSAGES
            } else {
                0
            };
            let inputs = chunks.map_values(|c: ChunkModel| chunk_bytes(c));
            let (held, outs) = fed_all(Seq::empty(), inputs, times);
            &&& held == begun(chunks, times, first, n)
            &&& outs.len() == n
            &&& forall|i: int| 0 <= i < n ==> (#[trigger] outs[i]) is None
        }),
    decreases chunks.len(),
{
    let n = chunks.len() as int;
    let inputs = chunks.map_values(|c: ChunkModel| chunk_bytes(c));
    if n == 0 {
        assert(begun(chunks, times, 0, 0) =~= Seq::empty());
    } else {
        let front = chunks.drop_last();
        let c = chunks.last();
        let now = times[n - 1];
        assert(chunks[n - 1] == c);
        assert forall|i: int| 0 <= i < front.len() implies (#[trigger] front[i]).id.len() == 16
            && front[i].seq < front[i].total && front[i].total > 1 by {
            assert(front[i] == chunks[i]);
        }
        lemma_newest_held(front, times);
        assert(inputs.drop_last() =~= front.map_values(|c: ChunkModel| chunk_bytes(c)));
        assert(inputs.last() == chunk_bytes(c));
        lemma_chunk_round_trip(c);
        let first = if n - 1 > MAX_PARTIAL_MESSAGES {
            n - 1 - MAX_PARTIAL_MESSAGES
        } else {
            0
        };
        let (held, outs) = fed_all(Seq::empty(), inputs.drop_last(), times);
        assert(held =~= begun(chunks, times, first, n - 1));
        if held.len() > 0 {
            assert(held[0].since == times[first]);
        }
        assert(expired_count(held, now) == 0);
        assert(advanced(held, now) =~= held);
        assert forall|k: int| 0 <= k < held.len() implies (#[trigger] held[k]).id != c.id by {
            assert(held[k].id == chunks[first + k].id);
        }
        lemma_slot_is(held, c.id, held.len() as int);
        let st1 = opened(held, c.id, c.total, now);
        lemma_slot_is(st1, c.id, held.len() as int);
        let i = held.len() as int;
        let parts = st1[i].parts.update(c.seq as int, Some(c.data));
        let other = if c.seq == 0 {
            1int
        } else {
            0
        };
        assert(parts[other] is None);
        let all = st1.update(i, PartialModel { parts, ..st1[i] });
        assert(all =~= begun(chunks, times, first, n));
        if all.len() > MAX_PARTIAL_MESSAGES {
            assert(all[0].id == held[0].id);
            assert(all.remove(0) =~= begun(chunks, times, first + 1, n));
        }
    }
}

struct Partial {
    fragment_id: [u8; 16],
    since: u64,
    pieces: Pieces,
}

impl Partial {
    spec fn model(&self) -> PartialModel {
        PartialModel { id: self.fragment_id@, since: self.since, parts: self.pieces@ }
    }
}

/// Collects chunks and gives out whole messages.
///
/// Messages of which only a part has arrived are held in the order in which their first
/// chunk came, and no longer than they may wait.
pub struct Reassembler {
    buffers: Vec<Partial>,
    clock: u64,
}

impl View for Reassembler {
    type V = Seq<PartialModel>;

    closed spec fn view(&self) -> Seq<PartialModel> {
        Seq::new(self.buffers@.len(), |i: int| self.buffers@[i].model())
    }
}

impl Reassembler {
    /// The latest time that the reassembler was told.
    pub closed spec fn clock(&self) -> u64 {
        self.clock
    }

    /// What holds of every reassembler.
    pub closed spec fn wf(&self) -> bool {
        &&& partials_wf(self@)
        &&& dated(self@, self.clock)
        &&& forall|i: int| 0 <= i < self.buffers@.len() ==> (#[trigger] self.buffers@[i]).pieces.wf()
    }

    /// A reassembler that holds nothing.
    pub fn new() -> (r: Self)
        ensures
            r.wf(),
            r@ == Seq::<PartialModel>::empty(),
            r.clock() == 0,
    {
        let r = Reassembler { buffers: Vec::new(), clock: 0 };
        assert(r@ =~= Seq::<PartialModel>::empty());
        r
    }

    /// Tells the reassembler the time, and drops the messages that wait no longer. A time before
    /// one that it was told counts as that one.
    pub fn advance(&mut self, now: u64)
        requires
            old(self).wf(),
        ensures
            final(self).wf(),
            partials_wf(final(self)@),
            dated(final(self)@, final(self).clock()),
            final(self).clock() == (if now > old(self).clock() {
                now
            } else {
                old(self).clock()
            }),
            final(self)@ == advanced(old(self)@, final(self).clock()),
    {
        if now > self.clock {
            self.clock = now;
        }
        let ghost st = old(self)@;
        let ghost mut n: int = 0;
        assert(st.skip(0) =~= st);
        assert(self@ =~= st);
        assert forall|k: int| 0 <= k < self.buffers@.len() implies (#[trigger] self.buffers@[k]).since
            <= self.clock by {
            assert(self@[k].since == self.buffers@[k].since);
        }
        while self.buffers.len() > 0 && self.clock - self.buffers[0].since > PARTIAL_LIFETIME
            invariant
                self.wf(),
                self.clock == (if now > old(self).clock {
                    now
                } else {
                    old(self).clock
                }),
                0 <= n <= st.len(),
                self@ == st.skip(n),
                forall|k: int| 0 <= k < n ==> expired((#[trigger] st[k]).since, self.clock),
                forall|k: int|
                    0 <= k < self.buffers@.len() ==> (#[trigger] self.buffers@[k]).since
                        <= self.clock,
            decreases self.buffers@.len(),
        {
            let ghost before = self@;
            assert(before[0] == st[n]);
            self.buffers.remove(0);
            assert(self@ =~= before.remove(0));
            assert(before.remove(0) =~= st.skip(n + 1));
            proof {
                n = n + 1;
            }
        }
        proof {
            if n < st.len() {
                assert(self@[0] == st[n]);
                assert(self@[0].since == self.buffers@[0].since);
            }
            lemma_expired_count_is(st, self.clock, n);
        }
    }

    fn find(&self, id: &[u8; 16]) -> (i: usize)
        ensures
            i == slot(self@, id@),
    {
        let mut i: usize = 0;
        while i < self.buffers.len()
            invariant
                i <= self.buffers@.len(),
                forall|k: int| 0 <= k < i ==> (#[trigger] self@[k]).id != id@,
            decreases self.buffers@.len() - i,
        {
            if same_bytes(self.buffers[i].fragment_id.as_slice(), id.as_slice()) {
                proof {
                    lemma_slot_is(self@, id@, i as int);
                }
                return i;
            }
            i = i + 1;
        }
        proof {
            lemma_slot_is(self@, id@, i as int);
        }
        i
    }

    fn open(&mut self, id: &[u8; 16], total: u16) -> (i: usize)
        requires
            old(self).wf(),
            0 < total,
        ensures
            final(self)@ == opened(old(self)@, id@, total, old(self).clock),
            final(self).clock == old(self).clock,
            dated(final(self)@, final(self).clock),
            i == slot(final(self)@, id@),
            i == slot(old(self)@, id@),
            i < final(self)@.len(),
            final(self)@[i as int].id == id@,
            final(self)@[i as int].parts.len() == total,
            final(self).buffers@.len() <= MAX_PARTIAL_MESSAGES + 1,
            forall|k: int|
                0 <= k < final(self).buffers@.len() ==> (#[trigger] final(self).buffers@[k]).pieces.wf(),
            forall|k: int, j: int|
                0 <= k < j < final(self)@.len() ==> (#[trigger] final(self)@[k]).id
                    != (#[trigger] final(self)@[j]).id,
            forall|k: int|
                0 <= k < final(self)@.len() ==> !pieces::all_arrived((#[trigger] final(self)@[k]).parts),
    {
        let i = self.find(id);
        proof {
            lemma_slot(self@, id@);
        }
        let ghost fresh = pieces::none_arrived(total as nat);
        assert(fresh[0] is None);
        if i == self.buffers.len() {
            let since = self.clock;
            let p = Partial { fragment_id: *id, since, pieces: Pieces::new(total as usize) };
            self.buffers.push(p);
            assert(self@ =~= opened(old(self)@, id@, total, self.clock));
            proof {
                lemma_slot_is(self@, id@, i as int);
            }
        } else if self.buffers[i].pieces.count() != total as usize {
            let since = self.buffers[i].since;
            let p = Partial { fragment_id: *id, since, pieces: Pieces::new(total as usize) };
            self.buffers[i] = p;
            assert(self@ =~= opened(old(self)@, id@, total, self.clock));
            proof {
                lemma_slot_is(self@, id@, i as int);
            }
        } else {
            assert(self@ =~= opened(old(self)@, id@, total, self.clock));
        }
        i
    }

    /// Feeds one chunk. Gives out the message that it completes; a chunk that is invalid, a
    /// duplicate or not the last to arrive gives `None`.
    pub fn feed(&mut self, chunk: &[u8]) -> (out: Option<Vec<u8>>)
        requires
            old(self).wf(),
        ensures
            final(self).wf(),
            partials_wf(final(self)@),
            dated(final(self)@, final(self).clock()),
            final(self).clock() == old(self).clock(),
            final(self)@ == fed(old(self)@, chunk@, old(self).clock()).0,
            out is Some <==> fed(old(self)@, chunk@, old(self).clock()).1 is Some,
            out matches Some(m) ==> fed(old(self)@, chunk@, old(self).clock()).1 == Some(m@),
    {
        let c = match parse_chunk(chunk) {
            Some(c) => c,
            None => {
                return None;
            },
        };
        let ghost model = c@;
        let i = self.open(&c.fragment_id, c.total);
        let ghost st1 = self@;
        if self.buffers[i].pieces.has(c.seq as usize) {
            assert(st1.len() <= MAX_PARTIAL_MESSAGES) by {
                assert(st1[i as int].parts[model.seq as int] is Some);
                lemma_slot(old(self)@, model.id);
                if slot(old(self)@, model.id) == old(self)@.len() {
                    assert(st1[i as int].parts[model.seq as int] is None);
                }
            }
            return None;
        }
        self.buffers[i].pieces.put(c.seq as usize, c.data);
        let ghost parts = st1[i as int].parts.update(model.seq as int, Some(model.data));
        let ghost st2 = st1.update(i as int, PartialModel { parts, ..st1[i as int] });
        assert(self@ =~= st2);
        if !self.buffers[i].pieces.complete() {
            if self.buffers.len() > MAX_PARTIAL_MESSAGES {
                let victim: usize = if same_bytes(
                    self.buffers[0].fragment_id.as_slice(),
                    c.fragment_id.as_slice(),
                ) {
                    1
                } else {
                    0
                };
                assert(self@[0].id == self.buffers@[0].fragment_id@);
                self.buffers.remove(victim);
                assert(self@ =~= st2.remove(victim as int));
            }
            return None;
        }
        let done = self.buffers.remove(i);
        assert(self@ =~= st1.remove(i as int));
        Some(done.pieces.join())
    }
}

impl Default for Reassembler {
    fn default() -> (r: Self)
        ensures
            r.wf(),
            r@ == Seq::<PartialModel>::empty(),
            r.clock() == 0,
    {
        Reassembler::new()
    }
}

} // verus!
