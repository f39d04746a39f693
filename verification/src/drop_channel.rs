//! Drop: a file handed over in chunks, at the pace of its receiver.
//!
//! The sender offers a file and answers requests for ranges of chunks; it keeps nothing but
//! the file. The receiver asks for the ranges that it lacks, one window at a time, so that a
//! transfer resumes from whatever chunks are there, and checks the digest at the end.
use crate::hex::{self, to_hex};
use crate::octets::{self, copy_range, get_be32, push_all, push_be32};
use crate::pieces;
use crate::primitives::{self, sha256};
use std::collections::HashMap;
use vstd::prelude::*;

verus! {

/// The bytes of a full chunk.
pub const CHUNK_SIZE: usize = 1024;

/// The most chunks that one requested range spans.
pub const MAX_RANGE_CHUNKS: u64 = 64;

/// The milliseconds without progress after which a receiver asks again.
pub const REREQUEST_TIMEOUT: u64 = 1000;

/// The first byte of an offer.
pub const TYPE_OFFER: u8 = 0x01;

/// The first byte of a request.
pub const TYPE_REQUEST: u8 = 0x02;

/// The first byte of a chunk.
pub const TYPE_CHUNK: u8 = 0x03;

/// The first byte of a receiver's verdict.
pub const TYPE_DONE: u8 = 0x04;

/// What an offer announces of a file.
#[derive(Debug, Clone, PartialEq)]
pub struct OfferPayload {
    pub name: String,
    pub size: u64,
    pub chunk_size: u64,
    pub total_chunks: u64,
    pub sha256: String,
}

/// What an offer says.
#[verifier::ext_equal]
pub struct OfferModel {
    pub name: Seq<char>,
    pub size: u64,
    pub chunk_size: u64,
    pub total_chunks: u64,
    pub sha256: Seq<char>,
}

impl View for OfferPayload {
    type V = OfferModel;

    open spec fn view(&self) -> OfferModel {
        OfferModel {
            name: self.name@,
            size: self.size,
            chunk_size: self.chunk_size,
            total_chunks: self.total_chunks,
            sha256: self.sha256@,
        }
    }
}

/// A message between the two ends.
pub enum DropMessage {
    /// The sender announces its file.
    Offer(OfferPayload),
    /// The receiver asks for ranges of chunks, each from its start up to its end.
    Request(Vec<(i64, i64)>),
    /// The sender hands over the chunk with this index.
    Chunk(u32, Vec<u8>),
    /// The receiver reports the digest of what it received.
    Done(String),
}

/// What a message says.
#[verifier::ext_equal]
pub enum MessageModel {
    Offer(OfferModel),
    Request(Seq<(i64, i64)>),
    Chunk(u32, Seq<u8>),
    Done(Seq<char>),
}

impl View for DropMessage {
    type V = MessageModel;

    open spec fn view(&self) -> MessageModel {
        match self {
            DropMessage::Offer(o) => MessageModel::Offer(o@),
            DropMessage::Request(r) => MessageModel::Request(r@),
            DropMessage::Chunk(i, d) => MessageModel::Chunk(*i, d@),
            DropMessage::Done(s) => MessageModel::Done(s@),
        }
    }
}

/// What messages say.
pub open spec fn said(messages: Seq<DropMessage>) -> Seq<MessageModel> {
    messages.map_values(|m: DropMessage| m@)
}

/// A frame of the given type: the type byte, then the body.
pub fn typed_frame(kind: u8, body: &[u8]) -> (frame: Vec<u8>)
    ensures
        frame@ == seq![kind] + body@,
{
    let mut frame: Vec<u8> = Vec::new();
    frame.push(kind);
    push_all(&mut frame, body);
    assert(frame@ =~= seq![kind] + body@);
    frame
}

/// The type and the body of a frame; `None` where it is empty.
pub fn split_frame(frame: &[u8]) -> (r: Option<(u8, Vec<u8>)>)
    ensures
        r is Some <==> frame@.len() > 0,
        r matches Some((kind, body)) ==> kind == frame@[0] && body@ == frame@.skip(1),
{
    if frame.len() == 0 {
        return None;
    }
    let body = copy_range(frame, 1, frame.len());
    assert(body@ =~= frame@.skip(1));
    Some((frame[0], body))
}

/// The body of a chunk frame: the chunk's index, then its bytes.
pub open spec fn chunk_body(index: u32, data: Seq<u8>) -> Seq<u8> {
    octets::be32(index) + data
}

/// The frame of a chunk.
pub fn chunk_frame(index: u32, data: &[u8]) -> (frame: Vec<u8>)
    ensures
        frame@ == seq![TYPE_CHUNK] + chunk_body(index, data@),
{
    let mut body: Vec<u8> = Vec::new();
    push_be32(&mut body, index);
    push_all(&mut body, data);
    assert(body@ =~= chunk_body(index, data@));
    typed_frame(TYPE_CHUNK, body.as_slice())
}

/// The index and the bytes in the body of a chunk frame; `None` where it is too short.
pub fn parse_chunk_body(body: &[u8]) -> (r: Option<(u32, Vec<u8>)>)
    ensures
        r is Some <==> body@.len() >= 4,
        r matches Some((index, data)) ==> index == octets::be32_at(body@, 0) && data@ == body@.skip(4),
{
    if body.len() < 4 {
        return None;
    }
    let data = copy_range(body, 4, body.len());
    assert(data@ =~= body@.skip(4));
    Some((get_be32(body, 0), data))
}

/// Parsing the body of a chunk frame gives back what it was built of.
pub proof fn lemma_chunk_body_round_trip(index: u32, data: Seq<u8>)
    ensures
        octets::be32_at(chunk_body(index, data), 0) == index,
        chunk_body(index, data).skip(4) == data,
{
    let s = chunk_body(index, data);
    assert(s.subrange(0, 4) =~= octets::be32(index));
    octets::lemma_be32_at(s, 0, index);
    assert(s.skip(4) =~= data);
}

/// How many chunks of `chunk_size` bytes a file of `size` bytes has; an empty file has one.
pub open spec fn chunk_total(size: int, chunk_size: int) -> int {
    if size <= 0 {
        1
    } else {
        pieces::piece_count(size, chunk_size)
    }
}

/// Where things stand in the body of a chunk: its number, the most significant byte first, and its
/// bytes.
pub proof fn lemma_chunk_body_layout(index: u32, data: Seq<u8>)
    ensures
        chunk_body(index, data).len() == 4 + data.len(),
        chunk_body(index, data).take(4) == octets::be32(index),
        chunk_body(index, data).skip(4) == data,
{
    assert(chunk_body(index, data).take(4) =~= octets::be32(index));
    assert(chunk_body(index, data).skip(4) =~= data);
}

/// The chunk numbered `i` of a file; past the file's end there is nothing.
pub open spec fn file_chunk(data: Seq<u8>, i: int) -> Seq<u8> {
    if i * CHUNK_SIZE >= data.len() {
        Seq::empty()
    } else {
        pieces::piece(data, CHUNK_SIZE as int, i)
    }
}

/// The first chunk that a requested range is served from.
pub open spec fn served_start(start: i64) -> int {
    if start < 0 {
        0
    } else {
        start as int
    }
}

/// How many chunks of a requested range are served: within the file, and no more than a
/// range may span.
pub open spec fn served_count(total: u32, start: i64, end: i64) -> int {
    let first = served_start(start);
    let last = if end < total {
        end as int
    } else {
        total as int
    };
    if last <= first {
        0
    } else if last - first > MAX_RANGE_CHUNKS {
        MAX_RANGE_CHUNKS as int
    } else {
        last - first
    }
}

/// The chunks that answer the request for one range.
pub open spec fn served(data: Seq<u8>, total: u32, start: i64, end: i64) -> Seq<MessageModel> {
    Seq::new(
        served_count(total, start, end) as nat,
        |k: int|
            MessageModel::Chunk(
                (served_start(start) + k) as u32,
                file_chunk(data, served_start(start) + k),
            ),
    )
}

/// The chunks that answer the request for several ranges.
pub open spec fn served_all(data: Seq<u8>, total: u32, ranges: Seq<(i64, i64)>) -> Seq<MessageModel>
    decreases ranges.len(),
{
    if ranges.len() == 0 {
        Seq::empty()
    } else {
        served_all(data, total, ranges.drop_last()) + served(
            data,
            total,
            ranges.last().0,
            ranges.last().1,
        )
    }
}

/// However large a range is asked for, no more chunks are served than it may span, nor than
/// the file has, and none outside the file.
pub proof fn lemma_request_clamped(data: Seq<u8>, total: u32, start: i64, end: i64)
    ensures
        served(data, total, start, end).len() <= MAX_RANGE_CHUNKS,
        served(data, total, start, end).len() <= total,
        forall|k: int|
            0 <= k < served(data, total, start, end).len() ==> (#[trigger] served(
                data,
                total,
                start,
                end,
            )[k])->Chunk_0 < total,
{
}

/// The sending end: one file, and the verdicts of its receivers.
pub struct DropSenderCore {
    pub name: String,
    pub data: Vec<u8>,
    pub total_chunks: u32,
    pub sha256: String,
    /// For each peer that reported, whether its digest matched.
    pub completed: HashMap<u64, bool>,
}

/// The digest of `data` in lowercase hexadecimal.
pub open spec fn digest_text(data: Seq<u8>) -> Seq<char> {
    hex::hex_of(primitives::sha256_of(data))
}

/// The digest of `data` in lowercase hexadecimal.
pub fn sha256_hex(data: &[u8]) -> (r: String)
    ensures
        r@ == digest_text(data@),
{
    to_hex(sha256(data).as_slice())
}

/// What a sender of `data` says to a message, the verdict that it brings, if any, and the verdicts
/// of all receivers then.
pub open spec fn sender_heard(
    data: Seq<u8>,
    total: u32,
    sha256: Seq<char>,
    completed: Map<u64, bool>,
    from: u64,
    message: MessageModel,
) -> (Seq<MessageModel>, Option<bool>, Map<u64, bool>) {
    match message {
        MessageModel::Request(ranges) => (served_all(data, total, ranges), None, completed),
        MessageModel::Done(digest) => (
            Seq::empty(),
            Some(digest == sha256),
            completed.insert(from, digest == sha256),
        ),
        _ => (Seq::empty(), None, completed),
    }
}

/// A receiver's verdict is right exactly if the digest that it tells is the file's. It is remembered
/// of that receiver alone, the latest of each; nothing else changes what is remembered, and a
/// verdict is not answered.
pub proof fn lemma_verdict_remembered(
    data: Seq<u8>,
    total: u32,
    sha256: Seq<char>,
    completed: Map<u64, bool>,
    from: u64,
    message: MessageModel,
    other: u64,
)
    ensures
        ({
            let (out, verdict, after) = sender_heard(data, total, sha256, completed, from, message);
            &&& message matches MessageModel::Done(digest) ==> {
                &&& verdict == Some(digest == sha256)
                &&& after.contains_key(from) && after[from] == (digest == sha256)
                &&& out.len() == 0
            }
            &&& !(message is Done) ==> verdict is None && after == completed
            &&& other != from ==> after.contains_key(other) == completed.contains_key(other) && (
            completed.contains_key(other) ==> after[other] == completed[other])
            &&& !(message is Request) ==> out.len() == 0
        }),
{
}

impl DropSenderCore {
    /// Offers `data` under `name`. The count of chunks is kept modulo 2^32.
    pub fn new(name: String, data: Vec<u8>) -> (r: Self)
        ensures
            r.name == name,
            r.data == data,
            r.total_chunks == chunk_total(data@.len() as int, CHUNK_SIZE as int) % 0x1_0000_0000,
            r.sha256@ == digest_text(data@),
            r.completed@ == Map::<u64, bool>::empty(),
    {
        let len: u128 = data.len() as u128;
        let total: u128 = if len == 0 {
            1
        } else {
            (len + CHUNK_SIZE as u128 - 1) / CHUNK_SIZE as u128
        };
        let sha256 = sha256_hex(data.as_slice());
        DropSenderCore {
            name,
            data,
            total_chunks: (total % 0x1_0000_0000) as u32,
            sha256,
            completed: HashMap::new(),
        }
    }

    /// The offer of the file.
    pub fn offer_frame(&self) -> (r: OfferPayload)
        ensures
            r@ == (OfferModel {
                name: self.name@,
                size: self.data@.len() as u64,
                chunk_size: CHUNK_SIZE as u64,
                total_chunks: self.total_chunks as u64,
                sha256: self.sha256@,
            }),
    {
        OfferPayload {
            name: self.name.clone(),
            size: self.data.len() as u64,
            chunk_size: CHUNK_SIZE as u64,
            total_chunks: self.total_chunks as u64,
            sha256: self.sha256.clone(),
        }
    }

    /// Answers a message of the peer `from`: a request with the chunks it asks for, a verdict
    /// with whether its digest is the file's. Anything else is ignored.
    pub fn handle_frame(&mut self, from: u64, message: &DropMessage) -> (r: (
        Vec<DropMessage>,
        Option<bool>,
    ))
        ensures
            final(self).name == old(self).name,
            final(self).data == old(self).data,
            final(self).total_chunks == old(self).total_chunks,
            final(self).sha256 == old(self).sha256,
            message matches DropMessage::Request(ranges) ==> {
                &&& said(r.0@) == served_all(old(self).data@, old(self).total_chunks, ranges@)
                &&& r.1 is None
            },
            message matches DropMessage::Done(digest) ==> {
                &&& r.0@.len() == 0
                &&& r.1 == Some(digest@ == old(self).sha256@)
                &&& final(self).completed@ == old(self).completed@.insert(
                    from,
                    digest@ == old(self).sha256@,
                )
            },
            !(message is Done) ==> final(self).completed@ == old(self).completed@,
            !(message is Done) && !(message is Request) ==> r.0@.len() == 0 && r.1 is None,
            (said(r.0@), r.1, final(self).completed@) == sender_heard(
                old(self).data@,
                old(self).total_chunks,
                old(self).sha256@,
                old(self).completed@,
                from,
                message@,
            ),
    {
        proof {
            assert(said(Seq::empty()) =~= Seq::empty());
        }
        match message {
            DropMessage::Request(ranges) => {
                let mut out: Vec<DropMessage> = Vec::new();
                let mut i: usize = 0;
                assert(said(out@) =~= served_all(self.data@, self.total_chunks, ranges@.take(0)));
                while i < ranges.len()
                    invariant
                        i <= ranges@.len(),
                        *self == *old(self),
                        said(out@) == served_all(
                            self.data@,
                            self.total_chunks,
                            ranges@.take(i as int),
                        ),
                    decreases ranges@.len() - i,
                {
                    let (start, end) = ranges[i];
                    let mut chunks = self.serve_range(start, end);
                    let ghost before = out@;
                    let ghost more = chunks@;
                    out.append(&mut chunks);
                    proof {
                        assert(ranges@.take(i + 1).drop_last() =~= ranges@.take(i as int));
                        assert(said(before + more) =~= said(before) + said(more));
                    }
                    i = i + 1;
                }
                assert(ranges@.take(i as int) =~= ranges@);
                (out, None)
            },
            DropMessage::Done(digest) => {
                let ok = digest.clone() == self.sha256;
                self.completed.insert(from, ok);
                (Vec::new(), Some(ok))
            },
            _ => (Vec::new(), None),
        }
    }

    fn serve_range(&self, start: i64, end: i64) -> (out: Vec<DropMessage>)
        ensures
            said(out@) == served(self.data@, self.total_chunks, start, end),
    {
        let first: u64 = if start < 0 {
            0
        } else {
            start as u64
        };
        let asked: u64 = if end < 0 {
            0
        } else {
            end as u64
        };
        let within: u64 = if asked < self.total_chunks as u64 {
            asked
        } else {
            self.total_chunks as u64
        };
        let last: u64 = if within < first + MAX_RANGE_CHUNKS {
            within
        } else {
            first + MAX_RANGE_CHUNKS
        };
        let mut out: Vec<DropMessage> = Vec::new();
        let mut index: u64 = first;
        let ghost all = served(self.data@, self.total_chunks, start, end);
        while index < last
            invariant
                first == served_start(start),
                last <= self.total_chunks,
                last <= first + MAX_RANGE_CHUNKS,
                first <= index,
                index <= last || last < first,
                out@.len() == index - first,
                first <= last ==> all.len() == last - first,
                last < first ==> all.len() == 0 && index == first,
                all == served(self.data@, self.total_chunks, start, end),
                forall|k: int| 0 <= k < out@.len() ==> (#[trigger] out@[k])@ == all[k],
            decreases last - index,
        {
            let chunk = self.file_chunk(index as u32);
            out.push(DropMessage::Chunk(index as u32, chunk));
            index = index + 1;
        }
        assert(said(out@) =~= all);
        out
    }

    fn file_chunk(&self, index: u32) -> (chunk: Vec<u8>)
        ensures
            chunk@ == file_chunk(self.data@, index as int),
    {
        let len: u64 = self.data.len() as u64;
        let lo: u64 = index as u64 * CHUNK_SIZE as u64;
        if lo >= len {
            return Vec::new();
        }
        let hi: u64 = if lo + (CHUNK_SIZE as u64) < len {
            lo + CHUNK_SIZE as u64
        } else {
            len
        };
        copy_range(self.data.as_slice(), lo as usize, hi as usize)
    }
}

/// Whether an offer makes sense: its count of chunks is that of its size.
pub open spec fn offer_valid(o: OfferModel) -> bool {
    &&& 0 < o.chunk_size
    &&& o.total_chunks <= u32::MAX
    &&& o.total_chunks == chunk_total(o.size as int, o.chunk_size as int)
}

/// How long the chunk numbered `i` of an offered file is.
pub open spec fn chunk_len(o: OfferModel, i: int) -> int {
    if (i + 1) * o.chunk_size <= o.size {
        o.chunk_size as int
    } else if i * o.chunk_size < o.size {
        o.size - i * o.chunk_size
    } else {
        0
    }
}

/// The chunks held that fit an offer: numbered within it, and of the right length.
pub open spec fn fitting(have: Map<u32, Seq<u8>>, o: OfferModel) -> Map<u32, Seq<u8>> {
    Map::new(
        |k: u32| have.contains_key(k) && k < o.total_chunks && have[k].len() == chunk_len(o, k as int),
        |k: u32| have[k],
    )
}

/// The first chunk at or after `from` that is lacking; the count of chunks if none is.
pub open spec fn next_lacking(have: Map<u32, Seq<u8>>, total: int, from: int) -> int
    decreases total - from,
{
    if from >= total {
        total
    } else if !have.contains_key(from as u32) {
        from
    } else {
        next_lacking(have, total, from + 1)
    }
}

/// The first chunk from `from` up to `stop` that is there; `stop` if none is.
pub open spec fn next_held(have: Map<u32, Seq<u8>>, stop: int, from: int) -> int
    decreases stop - from,
{
    if from >= stop {
        stop
    } else if have.contains_key(from as u32) {
        from
    } else {
        next_held(have, stop, from + 1)
    }
}

/// Where a range that starts at the lacking chunk `start` ends: before the next chunk that is
/// there, at the end of the file, or at the longest that a range may be.
pub open spec fn range_end(have: Map<u32, Seq<u8>>, total: int, start: int) -> int {
    next_held(
        have,
        if start + MAX_RANGE_CHUNKS < total {
            start + MAX_RANGE_CHUNKS
        } else {
            total
        },
        start,
    )
}

/// What the first lacking chunk is.
pub proof fn lemma_next_lacking(have: Map<u32, Seq<u8>>, total: int, from: int)
    requires
        0 <= from <= total <= u32::MAX,
    ensures
        from <= next_lacking(have, total, from) <= total,
        forall|i: u32| from <= i < next_lacking(have, total, from) ==> #[trigger] have.contains_key(i),
        next_lacking(have, total, from) < total ==> !have.contains_key(
            next_lacking(have, total, from) as u32,
        ),
    decreases total - from,
{
    if from < total && have.contains_key(from as u32) {
        lemma_next_lacking(have, total, from + 1);
    }
}

/// What the first chunk that is there is.
pub proof fn lemma_next_held(have: Map<u32, Seq<u8>>, stop: int, from: int)
    requires
        0 <= from <= stop <= u32::MAX,
    ensures
        from <= next_held(have, stop, from) <= stop,
        forall|i: u32|
            from <= i < next_held(have, stop, from) ==> !#[trigger] have.contains_key(i),
        next_held(have, stop, from) < stop ==> have.contains_key(next_held(have, stop, from) as u32),
    decreases stop - from,
{
    if from < stop && !have.contains_key(from as u32) {
        lemma_next_held(have, stop, from + 1);
    }
}

/// The ranges of lacking chunks at or after `from`, in order, each as long as it can be.
pub open spec fn missing(have: Map<u32, Seq<u8>>, total: int, from: int) -> Seq<(u32, u32)>
    decreases total - from,
    when 0 <= from <= total <= u32::MAX
{
    let start = next_lacking(have, total, from);
    if start >= total {
        Seq::empty()
    } else {
        let end = range_end(have, total, start);
        proof {
            lemma_next_lacking(have, total, from);
            reveal_with_fuel(next_held, 2);
            lemma_next_held(
                have,
                if start + MAX_RANGE_CHUNKS < total {
                    start + MAX_RANGE_CHUNKS
                } else {
                    total
                },
                start + 1,
            );
        }
        seq![(start as u32, end as u32)] + missing(have, total, end)
    }
}

/// A receiver asks for exactly what it lacks: every range is within the file and no longer
/// than it may be, none names a chunk that is there, and every lacking chunk is named. The
/// ranges ascend, and one that could be longer ends at a chunk that is there or at the end of
/// the file.
pub proof fn lemma_missing_exact(have: Map<u32, Seq<u8>>, total: int, from: int)
    requires
        0 <= from <= total <= u32::MAX,
    ensures
        forall|k: int|
            0 <= k < missing(have, total, from).len() ==> {
                let (s, e) = #[trigger] missing(have, total, from)[k];
                &&& from <= s < e <= total
                &&& e - s <= MAX_RANGE_CHUNKS
                &&& forall|i: u32| s <= i < e ==> !have.contains_key(i)
                &&& e - s < MAX_RANGE_CHUNKS ==> e == total || have.contains_key(e)
            },
        forall|j: int, k: int|
            0 <= j < k < missing(have, total, from).len() ==> (#[trigger] missing(
                have,
                total,
                from,
            )[j]).1 <= (#[trigger] missing(have, total, from)[k]).0,
        forall|i: u32|
            from <= i < total && !#[trigger] have.contains_key(i) ==> exists|k: int|
                0 <= k < missing(have, total, from).len() && (#[trigger] missing(have, total, from)[k]).0
                    <= i < missing(have, total, from)[k].1,
    decreases total - from,
{
    let list = missing(have, total, from);
    lemma_next_lacking(have, total, from);
    let start = next_lacking(have, total, from);
    if start < total {
        let stop = if start + MAX_RANGE_CHUNKS < total {
            start + MAX_RANGE_CHUNKS
        } else {
            total
        };
        let end = range_end(have, total, start);
        lemma_next_held(have, stop, start);
        assert(end > start) by {
            reveal_with_fuel(next_held, 2);
            lemma_next_held(have, stop, start + 1);
        }
        let rest = missing(have, total, end);
        lemma_missing_exact(have, total, end);
        assert(list =~= seq![(start as u32, end as u32)] + rest);
        assert forall|k: int| 0 <= k < list.len() implies {
            let (s, e) = #[trigger] list[k];
            &&& from <= s < e <= total
            &&& e - s <= MAX_RANGE_CHUNKS
            &&& forall|i: u32| s <= i < e ==> !have.contains_key(i)
            &&& e - s < MAX_RANGE_CHUNKS ==> e == total || have.contains_key(e)
        } by {
            if k > 0 {
                assert(list[k] == rest[k - 1]);
            }
        }
        assert forall|j: int, k: int| 0 <= j < k < list.len() implies (#[trigger] list[j]).1 <= (
        #[trigger] list[k]).0 by {
            assert(list[k] == rest[k - 1]);
            if j > 0 {
                assert(list[j] == rest[j - 1]);
            }
        }
        assert forall|i: u32| from <= i < total && !#[trigger] have.contains_key(i) implies exists|
            k: int,
        |
            0 <= k < list.len() && (#[trigger] list[k]).0 <= i < list[k].1 by {
            if i < end {
                assert(list[0].0 <= i < list[0].1);
            } else {
                let k = choose|k: int|
                    0 <= k < rest.len() && (#[trigger] rest[k]).0 <= i < rest[k].1;
                assert(list[k + 1] == rest[k]);
            }
        }
    }
}

/// What a receiver knows.
#[verifier::ext_equal]
pub struct ReceiverModel {
    pub offer: Option<OfferModel>,
    pub have: Map<u32, Seq<u8>>,
    pub sender: Option<u64>,
    pub verified: Option<bool>,
    pub outstanding: Option<(u32, u32)>,
    pub last_progress: Option<u64>,
    pub rerequest_timeout: u64,
    pub completion: Option<(Seq<u8>, bool)>,
}

impl ReceiverModel {
    /// The count of chunks that was offered.
    pub open spec fn total(self) -> int {
        match self.offer {
            Some(o) => o.total_chunks as int,
            None => 0,
        }
    }

    /// Whether every chunk is there.
    pub open spec fn complete(self) -> bool {
        forall|i: u32| i < self.total() ==> #[trigger] self.have.contains_key(i)
    }

    /// What holds of every receiver: an accepted offer makes sense, and only chunks of it are
    /// held.
    pub open spec fn wf(self) -> bool {
        &&& self.offer matches Some(o) ==> offer_valid(o) && (forall|k: u32|
            #[trigger] self.have.contains_key(k) ==> k < o.total_chunks)
        &&& self.have.dom().finite()
    }
}

/// Asks for the next window of lacking chunks, unless there is nothing to ask for or nobody
/// to ask.
pub open spec fn requested(m: ReceiverModel) -> (ReceiverModel, Seq<MessageModel>) {
    let list = missing(m.have, m.total(), 0);
    if m.offer is None || m.sender is None || m.verified is Some || list.len() == 0 {
        (m, Seq::empty())
    } else {
        (
            ReceiverModel { outstanding: Some(list[0]), ..m },
            seq![MessageModel::Request(seq![(list[0].0 as i64, list[0].1 as i64)])],
        )
    }
}

/// Takes an offer: one that makes no sense is ignored; another file than before starts over;
/// of the chunks held only those that fit stay.
pub open spec fn offered(m: ReceiverModel, from: u64, o: OfferModel, now: u64) -> (
    ReceiverModel,
    Seq<MessageModel>,
) {
    let other = m.offer matches Some(p) && (p.sha256 != o.sha256 || p.size != o.size);
    if !offer_valid(o) {
        (m, Seq::empty())
    } else {
        requested(
            ReceiverModel {
                offer: Some(o),
                have: fitting(
                    if other {
                        Map::empty()
                    } else {
                        m.have
                    },
                    o,
                ),
                verified: if other {
                    None
                } else {
                    m.verified
                },
                sender: Some(from),
                last_progress: Some(now),
                ..m
            },
        )
    }
}

/// The first `n` chunks, one after the other.
pub open spec fn assembled(have: Map<u32, Seq<u8>>, n: int) -> Seq<u8>
    decreases n,
{
    if n <= 0 {
        Seq::empty()
    } else {
        assembled(have, n - 1) + have[(n - 1) as u32]
    }
}

/// The file that the chunks make up: all of them, no longer than the size that was offered.
pub open spec fn received_file(m: ReceiverModel) -> Seq<u8> {
    let all = assembled(m.have, m.total());
    match m.offer {
        Some(o) => if o.size < all.len() {
            all.take(o.size as int)
        } else {
            all
        },
        None => all,
    }
}

/// Puts the file together, checks its digest and reports it.
pub open spec fn finished(m: ReceiverModel) -> (ReceiverModel, Seq<MessageModel>) {
    let data = received_file(m);
    let ok = m.offer matches Some(o) && digest_text(data) == o.sha256;
    (
        ReceiverModel { verified: Some(ok), completion: Some((data, ok)), ..m },
        seq![MessageModel::Done(digest_text(data))],
    )
}

/// Whether the chunks from `start` up to `end` are there.
pub open spec fn holds_range(have: Map<u32, Seq<u8>>, start: u32, end: u32) -> bool {
    forall|i: u32| start <= i < end ==> #[trigger] have.contains_key(i)
}

/// Whether a window was asked for and all of it is there.
pub open spec fn window_filled(m: ReceiverModel) -> bool {
    match m.outstanding {
        Some((start, end)) => holds_range(m.have, start, end),
        None => false,
    }
}

/// Takes a chunk: one that was not offered is ignored, the first one with its index stays.
/// When it completes the file, the file is checked; when it completes the window asked for,
/// the next one is asked for.
pub open spec fn chunk_taken(m: ReceiverModel, index: u32, data: Seq<u8>, now: u64) -> (
    ReceiverModel,
    Seq<MessageModel>,
) {
    let m1 = if m.have.contains_key(index) {
        m
    } else {
        ReceiverModel { have: m.have.insert(index, data), last_progress: Some(now), ..m }
    };
    if index >= m.total() {
        (m, Seq::empty())
    } else if m1.complete() {
        finished(m1)
    } else if window_filled(m1) {
        requested(m1)
    } else {
        (m1, Seq::empty())
    }
}

/// Takes a message of the peer `from`.
pub open spec fn message_taken(m: ReceiverModel, from: u64, message: MessageModel, now: u64) -> (
    ReceiverModel,
    Seq<MessageModel>,
) {
    match message {
        MessageModel::Offer(o) => offered(m, from, o, now),
        MessageModel::Chunk(index, data) => chunk_taken(m, index, data, now),
        _ => (m, Seq::empty()),
    }
}

/// Whether a receiver with an unfinished file has made no progress for too long.
pub open spec fn stalled(m: ReceiverModel, now: u64) -> bool {
    &&& m.offer is Some
    &&& m.verified is None
    &&& m.last_progress matches Some(t) ==> now - t > m.rerequest_timeout
}

/// Asks again where the transfer has stalled.
pub open spec fn ticked(m: ReceiverModel, now: u64) -> (ReceiverModel, Seq<MessageModel>) {
    if stalled(m, now) {
        requested(ReceiverModel { last_progress: Some(now), ..m })
    } else {
        (m, Seq::empty())
    }
}

proof fn lemma_full(dom: Set<u32>, total: int)
    requires
        dom.finite(),
        0 <= total <= u32::MAX,
        forall|k: u32| #[trigger] dom.contains(k) ==> k < total,
    ensures
        dom.len() <= total,
        dom.len() == total <==> forall|k: u32| k < total ==> #[trigger] dom.contains(k),
    decreases total,
{
    if total == 0 {
        assert(dom =~= Set::empty());
    } else {
        let last = (total - 1) as u32;
        let rest = dom.remove(last);
        lemma_full(rest, total - 1);
        if dom.contains(last) {
            if dom.len() == total {
                assert forall|k: u32| k < total implies #[trigger] dom.contains(k) by {
                    if k != last {
                        assert(rest.contains(k));
                    }
                }
            }
            if forall|k: u32| k < total ==> #[trigger] dom.contains(k) {
                assert forall|k: u32| k < total - 1 implies #[trigger] rest.contains(k) by {
                    assert(dom.contains(k));
                }
            }
        } else {
            assert(rest =~= dom);
        }
    }
}

/// A transfer gives the file: whatever way the chunks came, once all of them are chunks of the
/// file that the sender offered, what the receiver puts together is that file, and its digest
/// is right.
pub proof fn lemma_transfer_complete(m: ReceiverModel, data: Seq<u8>, name: Seq<char>)
    requires
        m.complete(),
        data.len() <= u64::MAX,
        chunk_total(data.len() as int, CHUNK_SIZE as int) <= u32::MAX,
        m.offer == Some(
            OfferModel {
                name,
                size: data.len() as u64,
                chunk_size: CHUNK_SIZE as u64,
                total_chunks: chunk_total(data.len() as int, CHUNK_SIZE as int) as u64,
                sha256: digest_text(data),
            },
        ),
        forall|i: u32| i < m.total() ==> #[trigger] m.have[i] == file_chunk(data, i as int),
    ensures
        offer_valid(m.offer->0),
        received_file(m) == data,
        finished(m).0.verified == Some(true),
{
    if data.len() == 0 {
        assert(m.have[0u32] == file_chunk(data, 0));
        assert(assembled(m.have, 0) =~= Seq::empty());
        assert(assembled(m.have, 1) =~= data);
    } else {
        let n = m.total();
        pieces::lemma_piece_count_positive(data.len() as int, CHUNK_SIZE as int);
        lemma_assembled(m.have, data, n);
        pieces::lemma_joined_cut(data, CHUNK_SIZE as int);
        let all = pieces::filled(pieces::cut(data, CHUNK_SIZE as int));
        assert(all.take(n) =~= all);
    }
    assert(received_file(m) =~= data);
}

proof fn lemma_assembled(have: Map<u32, Seq<u8>>, data: Seq<u8>, n: int)
    requires
        data.len() > 0,
        0 <= n <= pieces::piece_count(data.len() as int, CHUNK_SIZE as int) <= u32::MAX,
        forall|i: u32| i < n ==> #[trigger] have[i] == file_chunk(data, i as int),
    ensures
        assembled(have, n) == pieces::joined(
            pieces::filled(pieces::cut(data, CHUNK_SIZE as int)).take(n),
        ),
    decreases n,
{
    let all = pieces::filled(pieces::cut(data, CHUNK_SIZE as int));
    if n > 0 {
        lemma_assembled(have, data, n - 1);
        assert(all.take(n).drop_last() =~= all.take(n - 1));
        pieces::lemma_piece_bounds(data.len() as int, CHUNK_SIZE as int, n - 1);
        assert(have[(n - 1) as u32] == file_chunk(data, n - 1));
    } else {
        assert(all.take(0) =~= Seq::empty());
    }
}

/// Whether the chunk numbered `i` is the first that a receiver lacks.
pub open spec fn is_first_lacking(m: ReceiverModel, i: int) -> bool {
    &&& m.offer matches Some(o) && 0 <= i < o.total_chunks
    &&& !m.have.contains_key(i as u32)
    &&& forall|j: u32| j < i ==> #[trigger] m.have.contains_key(j)
}

proof fn lemma_first_window(m: ReceiverModel)
    requires
        m.wf(),
    ensures
        m.complete() <==> missing(m.have, m.total(), 0).len() == 0,
        !m.complete() ==> {
            let (s, e) = missing(m.have, m.total(), 0)[0];
            &&& is_first_lacking(m, s as int)
            &&& s < e <= m.total()
            &&& e - s <= MAX_RANGE_CHUNKS
            &&& forall|i: u32| s <= i < e ==> !#[trigger] m.have.contains_key(i)
        },
{
    let list = missing(m.have, m.total(), 0);
    lemma_missing_exact(m.have, m.total(), 0);
    lemma_next_lacking(m.have, m.total(), 0);
    let start = next_lacking(m.have, m.total(), 0);
    if m.complete() {
        if list.len() > 0 {
            let (s, e) = list[0];
            assert(!m.have.contains_key(s));
        }
    } else {
        let i = choose|i: u32| i < m.total() && !#[trigger] m.have.contains_key(i);
        let k = choose|k: int| 0 <= k < list.len() && (#[trigger] list[k]).0 <= i < list[k].1;
        assert(list.len() > 0);
        assert(list[0].0 == start);
    }
}

/// A receiver that knows whom to ask, has given no verdict and lacks a chunk asks, when it asks,
/// for a range that starts with the first chunk that it lacks and names only chunks that it
/// lacks. One that lacks nothing, or has given its verdict, asks for nothing.
pub proof fn lemma_asks_for_what_it_lacks(m: ReceiverModel)
    requires
        m.wf(),
        m.offer is Some,
        m.sender is Some,
        m.verified is None,
    ensures
        !m.complete() ==> {
            let (after, out) = requested(m);
            &&& out.len() == 1
            &&& out[0] matches MessageModel::Request(ranges) && {
                &&& ranges.len() == 1
                &&& is_first_lacking(m, ranges[0].0 as int)
                &&& ranges[0].0 < ranges[0].1 <= m.total()
                &&& ranges[0].1 - ranges[0].0 <= MAX_RANGE_CHUNKS
                &&& forall|i: u32|
                    ranges[0].0 <= i < ranges[0].1 ==> !#[trigger] m.have.contains_key(i)
                &&& after.outstanding == Some((ranges[0].0 as u32, ranges[0].1 as u32))
            }
            &&& after.have == m.have
            &&& after.offer == m.offer
            &&& after.sender == m.sender
            &&& after.verified == m.verified
        },
        m.complete() ==> requested(m) == (m, Seq::<MessageModel>::empty()),
{
    lemma_first_window(m);
}

/// A receiver whose transfer has stalled asks again, whichever chunks it holds: with an offer, a
/// sender, no verdict and a chunk lacking, and no progress for longer than it waits, a look at
/// the time makes it ask for the first chunk that it lacks. If there was progress since, or it
/// has given its verdict, it asks for nothing and nothing changes.
pub proof fn lemma_stalled_transfer_resumes(m: ReceiverModel, now: u64, lacking: u32)
    requires
        m.wf(),
    ensures
        (m.offer matches Some(o) && lacking < o.total_chunks && !m.have.contains_key(lacking))
            && m.sender is Some && m.verified is None && (m.last_progress is None || now
            > m.last_progress->0 + m.rerequest_timeout) ==> {
            let (after, out) = ticked(m, now);
            &&& out.len() == 1
            &&& out[0] matches MessageModel::Request(ranges) && ranges.len() == 1
                && is_first_lacking(m, ranges[0].0 as int) && ranges[0].0 < ranges[0].1
                <= m.offer->0.total_chunks
            &&& after.last_progress == Some(now)
            &&& after.have == m.have
            &&& after.verified is None
        },
        m.offer is None || m.verified is Some || (m.last_progress is Some && now
            <= m.last_progress->0 + m.rerequest_timeout) ==> ticked(m, now) == (
            m,
            Seq::<MessageModel>::empty(),
        ),
{
    let waiting = ReceiverModel { last_progress: Some(now), ..m };
    assert(waiting.complete() == m.complete());
    if m.offer is Some && m.sender is Some && m.verified is None {
        lemma_asks_for_what_it_lacks(waiting);
        if !m.complete() {
            assert(requested(waiting).0.last_progress == Some(now));
        }
    }
}

/// What an offer must say to be taken: as many chunks as its size fills, all full but the last,
/// which is not empty; an empty file has one.
pub proof fn lemma_offer_makes_sense(o: OfferModel)
    ensures
        offer_valid(o) <==> {
            &&& o.chunk_size > 0
            &&& o.total_chunks <= u32::MAX
            &&& if o.size == 0 {
                o.total_chunks == 1
            } else {
                (o.total_chunks - 1) * o.chunk_size < o.size <= o.total_chunks * o.chunk_size
            }
        },
{
    if o.chunk_size > 0 && o.size > 0 {
        let (size, step) = (o.size as int, o.chunk_size as int);
        let n = pieces::piece_count(size, step);
        pieces::lemma_piece_count_positive(size, step);
        pieces::lemma_piece_bounds(size, step, n - 1);
        assert((n - 1 + 1) * step == n * step);
        let t = o.total_chunks as int;
        if (t - 1) * step < size <= t * step && t != n {
            if t < n {
                assert(t * step <= (n - 1) * step) by (nonlinear_arith)
                    requires
                        t <= n - 1,
                        0 < step,
                ;
            } else {
                assert(n * step <= (t - 1) * step) by (nonlinear_arith)
                    requires
                        n <= t - 1,
                        0 < step,
                ;
            }
        }
    }
}

/// How long the chunks of an offered file are: all full but the last, which holds the rest.
pub proof fn lemma_chunk_lengths(o: OfferModel, i: int)
    requires
        offer_valid(o),
        0 <= i < o.total_chunks,
    ensures
        i < o.total_chunks - 1 ==> chunk_len(o, i) == o.chunk_size,
        i == o.total_chunks - 1 ==> chunk_len(o, i) == o.size - i * o.chunk_size,
{
    lemma_offer_makes_sense(o);
    let step = o.chunk_size as int;
    assert(i < o.total_chunks - 1 ==> (i + 1) * step <= (o.total_chunks - 1) * step)
        by (nonlinear_arith)
        requires
            0 < step,
            i < o.total_chunks - 1 ==> i + 1 <= o.total_chunks - 1,
    ;
    if i == o.total_chunks - 1 {
        assert((i + 1) * step == o.total_chunks * step);
        assert(i * step == (o.total_chunks - 1) * step);
        assert(i == 0 ==> i * step == 0);
        assert((i + 1) * step == i * step + step) by (nonlinear_arith);
    }
}

/// An offer that is taken is remembered with who made it. The chunks at hand that are chunks of
/// it by number and length stay, so that a transfer resumes, unless it is of another file than
/// the one before, which starts with none and no verdict; no other chunk stays.
pub proof fn lemma_offer_taken(m: ReceiverModel, from: u64, o: OfferModel, now: u64, i: u32)
    requires
        offer_valid(o),
    ensures
        ({
            let after = offered(m, from, o, now).0;
            let other = m.offer is Some && (m.offer->0.sha256 != o.sha256 || m.offer->0.size
                != o.size);
            &&& after.offer == Some(o)
            &&& after.sender == Some(from)
            &&& after.last_progress == Some(now)
            &&& after.have.contains_key(i) <==> !other && m.have.contains_key(i) && i
                < o.total_chunks && m.have[i].len() == chunk_len(o, i as int)
            &&& after.have.contains_key(i) ==> after.have[i] == m.have[i]
            &&& after.verified == if other {
                None
            } else {
                m.verified
            }
        }),
{
}

/// An offer that is taken is answered, unless a verdict was given on that file already: with a
/// request for the first chunk that is lacking, if one is.
pub proof fn lemma_offer_answered(
    m: ReceiverModel,
    from: u64,
    o: OfferModel,
    now: u64,
    lacking: u32,
)
    requires
        offer_valid(o),
        m.have.dom().finite(),
        lacking < o.total_chunks,
        !offered(m, from, o, now).0.have.contains_key(lacking),
        m.verified is None || (m.offer matches Some(p) && (p.sha256 != o.sha256 || p.size
            != o.size)),
    ensures
        ({
            let (after, out) = offered(m, from, o, now);
            &&& out.len() == 1
            &&& out[0] matches MessageModel::Request(ranges) && ranges.len() == 1
                && is_first_lacking(after, ranges[0].0 as int) && ranges[0].0 < ranges[0].1
                <= o.total_chunks && after.outstanding == Some(
                (ranges[0].0 as u32, ranges[0].1 as u32),
            ) && forall|i: u32|
                ranges[0].0 <= i < ranges[0].1 ==> !#[trigger] after.have.contains_key(i)
        }),
{
    let other = m.offer matches Some(p) && (p.sha256 != o.sha256 || p.size != o.size);
    let kept = if other {
        Map::empty()
    } else {
        m.have
    };
    let ready = ReceiverModel {
        offer: Some(o),
        have: fitting(kept, o),
        verified: if other {
            None
        } else {
            m.verified
        },
        sender: Some(from),
        last_progress: Some(now),
        ..m
    };
    assert(ready.have.dom().subset_of(kept.dom()));
    vstd::set_lib::lemma_len_subset(ready.have.dom(), kept.dom());
    assert(ready.wf());
    lemma_asks_for_what_it_lacks(ready);
    assert(!ready.have.contains_key(lacking));
}

/// What a sender offers of a file makes sense, so that no receiver ignores it, as long as the
/// chunks can be numbered; and a receiver that takes it with nothing but chunks of that file at
/// hand is then in the midst of taking it over.
pub proof fn lemma_offer_starts_transfer(
    m: ReceiverModel,
    from: u64,
    data: Seq<u8>,
    name: Seq<char>,
    now: u64,
)
    requires
        data.len() <= u64::MAX,
        chunk_total(data.len() as int, CHUNK_SIZE as int) <= u32::MAX,
        m.have.dom().finite(),
        m.verified is None,
        forall|i: u32| #[trigger]
            m.have.contains_key(i) ==> m.have[i] == file_chunk(data, i as int),
    ensures
        ({
            let o = OfferModel {
                name,
                size: data.len() as u64,
                chunk_size: CHUNK_SIZE as u64,
                total_chunks: chunk_total(data.len() as int, CHUNK_SIZE as int) as u64,
                sha256: digest_text(data),
            };
            &&& offer_valid(o)
            &&& receiving(offered(m, from, o, now).0, data)
        }),
{
    if data.len() > 0 {
        pieces::lemma_piece_count_positive(data.len() as int, CHUNK_SIZE as int);
    }
    let o = OfferModel {
        name,
        size: data.len() as u64,
        chunk_size: CHUNK_SIZE as u64,
        total_chunks: chunk_total(data.len() as int, CHUNK_SIZE as int) as u64,
        sha256: digest_text(data),
    };
    let after = offered(m, from, o, now).0;
    let other = m.offer matches Some(p) && (p.sha256 != o.sha256 || p.size != o.size);
    let kept = if other {
        Map::empty()
    } else {
        m.have
    };
    assert(after.have == fitting(kept, o));
    assert(after.have.dom().subset_of(kept.dom()));
    vstd::set_lib::lemma_len_subset(after.have.dom(), kept.dom());
}

/// A request for several ranges is answered with the chunks of each, range after range.
pub proof fn lemma_ranges_served(data: Seq<u8>, total: u32, ranges: Seq<(i64, i64)>, r: int, k: int)
    requires
        0 <= r < ranges.len(),
        0 <= k < served(data, total, ranges[r].0, ranges[r].1).len(),
    ensures
        served_all(data, total, ranges.take(r)).len() + k < served_all(data, total, ranges).len(),
        served_all(data, total, ranges)[served_all(data, total, ranges.take(r)).len() + k] == served(
            data,
            total,
            ranges[r].0,
            ranges[r].1,
        )[k],
    decreases ranges.len(),
{
    let front = ranges.drop_last();
    if r < front.len() {
        assert(front[r] == ranges[r]);
        lemma_ranges_served(data, total, front, r, k);
        assert(front.take(r) =~= ranges.take(r));
    } else {
        assert(ranges.take(r) =~= front);
        assert(ranges[r] == ranges.last());
    }
}

/// An offer that makes no sense changes nothing and is not answered.
pub proof fn lemma_bad_offer_ignored(m: ReceiverModel, from: u64, o: OfferModel, now: u64)
    requires
        !offer_valid(o),
    ensures
        offered(m, from, o, now) == (m, Seq::<MessageModel>::empty()),
{
}

/// What a chunk does: one outside the file does nothing; one that is there already stays as it
/// was; a new one is there from then on, and counts as progress. No other chunk changes.
pub proof fn lemma_chunk_kept(m: ReceiverModel, index: u32, data: Seq<u8>, now: u64, i: u32)
    requires
        m.wf(),
    ensures
        ({
            let (after, out) = chunk_taken(m, index, data, now);
            &&& index >= m.total() ==> after == m && out.len() == 0
            &&& after.offer == m.offer
            &&& after.sender == m.sender
            &&& i != index || index >= m.total() || m.have.contains_key(i) ==> (
            after.have.contains_key(i) == m.have.contains_key(i) && (m.have.contains_key(i)
                ==> after.have[i] == m.have[i]))
            &&& index < m.total() && !m.have.contains_key(index) ==> {
                &&& after.have.contains_key(index)
                &&& after.have[index] == data
                &&& after.last_progress == Some(now)
            }
        }),
{
}

/// What a chunk is answered with: the one that completes the file with the digest of all of
/// them, and the verdict is whether that is the digest that was offered; one that completes the
/// window asked for with a request for the next; any other with nothing.
#[verifier::spinoff_prover]
#[verifier::rlimit(40)]
pub proof fn lemma_chunk_answered(m: ReceiverModel, index: u32, data: Seq<u8>, now: u64)
    requires
        m.wf(),
        index < m.total(),
        !m.have.contains_key(index),
        m.sender is Some,
        m.verified is None,
    ensures
        ({
            let (after, out) = chunk_taken(m, index, data, now);
            let file = received_file(after);
            if forall|i: u32| i < m.total() && i != index ==> #[trigger] m.have.contains_key(i) {
                &&& out == seq![MessageModel::Done(digest_text(file))]
                &&& after.verified == Some(digest_text(file) == m.offer->0.sha256)
                &&& after.completion == Some((file, digest_text(file) == m.offer->0.sha256))
            } else if m.outstanding matches Some((start, end)) && forall|i: u32|
                start <= i < end && i != index ==> #[trigger] m.have.contains_key(i) {
                &&& after.verified is None
                &&& out.len() == 1
                &&& out[0] matches MessageModel::Request(ranges) && ranges.len() == 1
                    && is_first_lacking(after, ranges[0].0 as int)
            } else {
                after.verified is None && out.len() == 0
            }
        }),
{
    let m1 = ReceiverModel { have: m.have.insert(index, data), last_progress: Some(now), ..m };
    assert(m1.wf());
    lemma_first_window(m1);
    let all_others = forall|i: u32|
        i < m.total() && i != index ==> #[trigger] m.have.contains_key(i);
    assert(m1.complete() == all_others) by {
        if all_others {
            assert forall|i: u32| i < m1.total() implies #[trigger] m1.have.contains_key(i) by {
                if i != index {
                    assert(m.have.contains_key(i));
                }
            }
        }
        if m1.complete() {
            assert forall|i: u32| i < m.total() && i != index implies #[trigger] m.have.contains_key(
                i,
            ) by {
                assert(m1.have.contains_key(i));
            }
        }
    }
    let (after, out) = chunk_taken(m, index, data, now);
    assert(received_file(after) == received_file(m1)) by {
        assert(after.have == m1.have && after.offer == m1.offer);
    }
    if !m1.complete() {
        lemma_asks_for_what_it_lacks(m1);
        if m.outstanding is Some {
            let (a, b) = m.outstanding->0;
            let filled = forall|i: u32| a <= i < b && i != index ==> #[trigger] m.have.contains_key(i);
            assert(window_filled(m1) == filled) by {
                if filled {
                    assert forall|i: u32| a <= i < b implies #[trigger] m1.have.contains_key(i) by {
                        if i != index {
                            assert(m.have.contains_key(i));
                        }
                    }
                }
                if window_filled(m1) {
                    assert forall|i: u32| a <= i < b && i != index implies #[trigger] m.have.contains_key(
                        i,
                    ) by {
                        assert(m1.have.contains_key(i));
                    }
                }
            }
        }
        assert(requested(m1).0.have == m1.have);
    }
}

/// A receiver goes by offers and chunks alone: a request or a verdict changes nothing and is not
/// answered.
pub proof fn lemma_only_offers_and_chunks(
    m: ReceiverModel,
    from: u64,
    message: MessageModel,
    now: u64,
)
    ensures
        !(message is Offer) && !(message is Chunk) ==> message_taken(m, from, message, now) == (
            m,
            Seq::<MessageModel>::empty(),
        ),
        message matches MessageModel::Offer(o) ==> message_taken(m, from, message, now) == offered(
            m,
            from,
            o,
            now,
        ),
        message matches MessageModel::Chunk(i, data) ==> message_taken(m, from, message, now)
            == chunk_taken(m, i, data, now),
{
}

/// A request is answered with exactly the chunks of the range that are chunks of the file, in
/// order, as many as one range may span, each with its own bytes of the file.
pub proof fn lemma_served_exact(data: Seq<u8>, total: u32, start: i64, end: i64, i: u32)
    ensures
        ({
            let first = if start < 0 {
                0
            } else {
                start as int
            };
            let out = served(data, total, start, end);
            &&& first <= i < end && i < total && i < first + MAX_RANGE_CHUNKS ==> out.len() > i
                - first && out[i - first] == MessageModel::Chunk(i, file_chunk(data, i as int))
            &&& forall|k: int|
                0 <= k < out.len() ==> ((#[trigger] out[k]) matches MessageModel::Chunk(n, _) && n
                    == first + k && n < end && n < total)
        }),
{
}

/// The bytes of a chunk: from its place in the file on, as many as are full, or what is left.
pub proof fn lemma_chunk_bytes(data: Seq<u8>, i: int, k: int)
    requires
        0 <= i,
    ensures
        i * CHUNK_SIZE >= data.len() ==> file_chunk(data, i).len() == 0,
        (i + 1) * CHUNK_SIZE <= data.len() ==> file_chunk(data, i).len() == CHUNK_SIZE,
        i * CHUNK_SIZE < data.len() < (i + 1) * CHUNK_SIZE ==> file_chunk(data, i).len()
            == data.len() - i * CHUNK_SIZE,
        0 <= k < file_chunk(data, i).len() ==> file_chunk(data, i)[k] == data[i * CHUNK_SIZE + k],
{
}

/// Whether a receiver is in the midst of taking over `data`: it knows the offer of it and who
/// makes it, has given no verdict, and what it holds are chunks of it.
pub open spec fn receiving(m: ReceiverModel, data: Seq<u8>) -> bool {
    &&& m.wf()
    &&& m.sender is Some
    &&& m.verified is None
    &&& m.offer matches Some(o) && o.size == data.len() && o.chunk_size == CHUNK_SIZE
        && o.total_chunks == chunk_total(data.len() as int, CHUNK_SIZE as int) && o.sha256
        == digest_text(data)
    &&& forall|i: u32| #[trigger]
        m.have.contains_key(i) ==> m.have[i] == file_chunk(data, i as int)
}

/// A receiver that has taken `n` chunks of a file from `start` on, and what it said to the last.
pub open spec fn chunks_taken(m: ReceiverModel, data: Seq<u8>, start: int, n: nat, now: u64) -> (
    ReceiverModel,
    Seq<MessageModel>,
)
    decreases n,
{
    if n == 0 {
        (m, Seq::empty())
    } else {
        let i = start + n - 1;
        let before = chunks_taken(m, data, start, (n - 1) as nat, now).0;
        chunk_taken(before, i as u32, file_chunk(data, i), now)
    }
}

#[verifier::spinoff_prover]
#[verifier::rlimit(40)]
proof fn lemma_within_window(
    m: ReceiverModel,
    data: Seq<u8>,
    start: u32,
    end: u32,
    n: nat,
    now: u64,
)
    requires
        receiving(m, data),
        data.len() <= u64::MAX,
        start < end <= m.total(),
        m.outstanding == Some((start, end)),
        forall|i: u32| start <= i < end ==> !#[trigger] m.have.contains_key(i),
        n < end - start,
    ensures
        ({
            let after = chunks_taken(m, data, start as int, n, now).0;
            &&& receiving(after, data)
            &&& after.offer == m.offer
            &&& after.outstanding == m.outstanding
            &&& forall|i: u32| #[trigger]
                after.have.contains_key(i) <==> m.have.contains_key(i) || start <= i < start + n
        }),
    decreases n,
{
    if n > 0 {
        lemma_within_window(m, data, start, end, (n - 1) as nat, now);
        let before = chunks_taken(m, data, start as int, (n - 1) as nat, now).0;
        let i = (start + n - 1) as u32;
        let last = (end - 1) as u32;
        assert(!before.have.contains_key(i));
        assert(!before.have.contains_key(last));
        assert(start <= last < end);
        lemma_chunk_answered(before, i, file_chunk(data, i as int), now);
        lemma_chunk_kept(before, i, file_chunk(data, i as int), now, i);
        let after = chunks_taken(m, data, start as int, n, now).0;
        assert(last != i && last < m.total());
        assert(!(forall|j: u32|
            j < before.total() && j != i ==> #[trigger] before.have.contains_key(j)));
        assert(!(forall|j: u32|
            start <= j < end && j != i ==> #[trigger] before.have.contains_key(j)));
        assert(after.have =~= before.have.insert(i, file_chunk(data, i as int)));
    }
}

/// Once a receiver has the chunks of the window that it asked for, it either has the whole file,
/// finds its digest right and says so, or asks for the next chunks, which start past that
/// window.
#[verifier::spinoff_prover]
#[verifier::rlimit(40)]
pub proof fn lemma_window_completes(
    m: ReceiverModel,
    data: Seq<u8>,
    start: u32,
    end: u32,
    now: u64,
)
    requires
        receiving(m, data),
        data.len() <= u64::MAX,
        is_first_lacking(m, start as int),
        start < end <= m.total(),
        m.outstanding == Some((start, end)),
        forall|i: u32| start <= i < end ==> !#[trigger] m.have.contains_key(i),
    ensures
        ({
            let (after, out) = chunks_taken(m, data, start as int, (end - start) as nat, now);
            ||| after.verified == Some(true) && after.completion == Some((data, true)) && out
                == seq![MessageModel::Done(digest_text(data))]
            ||| {
                &&& receiving(after, data)
                &&& after.total() == m.total()
                &&& out.len() == 1
                &&& out[0] matches MessageModel::Request(ranges) && {
                    &&& ranges.len() == 1
                    &&& is_first_lacking(after, ranges[0].0 as int)
                    &&& end <= ranges[0].0 < ranges[0].1 <= m.total()
                    &&& after.outstanding == Some((ranges[0].0 as u32, ranges[0].1 as u32))
                    &&& forall|i: u32|
                        ranges[0].0 <= i < ranges[0].1 ==> !#[trigger] after.have.contains_key(i)
                }
            }
        }),
{
    let n = (end - start) as nat;
    lemma_within_window(m, data, start, end, (n - 1) as nat, now);
    let before = chunks_taken(m, data, start as int, (n - 1) as nat, now).0;
    let i = (end - 1) as u32;
    let chunk = file_chunk(data, i as int);
    assert(start + n - 1 == i);
    assert(start <= i < end);
    assert(!m.have.contains_key(i));
    assert(!before.have.contains_key(i));
    let m1 = ReceiverModel { have: before.have.insert(i, chunk), last_progress: Some(now), ..before };
    assert(m1.wf());
    let (after, out) = chunks_taken(m, data, start as int, n, now);
    assert((after, out) == chunk_taken(before, i, chunk, now));
    assert forall|j: u32| start <= j < end implies #[trigger] m1.have.contains_key(j) by {
        if j != i {
            assert(before.have.contains_key(j));
        }
    }
    assert(window_filled(m1));
    lemma_first_window(m1);
    if m1.complete() {
        assert forall|j: u32| j < m1.total() implies #[trigger] m1.have[j] == file_chunk(
            data,
            j as int,
        ) by {
            assert(m1.have.contains_key(j));
            if j != i {
                assert(before.have.contains_key(j));
            }
        }
        assert(m1.offer == Some(
            OfferModel {
                name: m1.offer->0.name,
                size: data.len() as u64,
                chunk_size: CHUNK_SIZE as u64,
                total_chunks: chunk_total(data.len() as int, CHUNK_SIZE as int) as u64,
                sha256: digest_text(data),
            },
        ));
        lemma_transfer_complete(m1, data, m1.offer->0.name);
    } else {
        lemma_asks_for_what_it_lacks(m1);
        let (s, e) = missing(m1.have, m1.total(), 0)[0];
        assert(s >= end) by {
            if s < end {
                if s < start {
                    assert(m.have.contains_key(s));
                    assert(before.have.contains_key(s));
                }
                assert(m1.have.contains_key(s));
            }
        }
        assert(receiving(after, data));
        assert(after.have == m1.have);
    }
}

/// A receiver after rounds in each of which the sender answers what it asked for, and every
/// answer arrives.
pub open spec fn rounds_taken(m: ReceiverModel, data: Seq<u8>, rounds: nat, now: u64) -> ReceiverModel
    decreases rounds,
{
    if rounds == 0 || m.verified is Some {
        m
    } else {
        let (start, end) = m.outstanding->0;
        let after = chunks_taken(m, data, start as int, (end - start) as nat, now).0;
        rounds_taken(after, data, (rounds - 1) as nat, now)
    }
}

/// A transfer ends: a receiver that asks for the first window that it lacks, and whose requests
/// are answered and the answers arrive, has the file with the right digest after no more rounds
/// than the file has chunks, whichever chunks it had at the start.
#[verifier::spinoff_prover]
#[verifier::rlimit(40)]
pub proof fn lemma_transfer_ends(
    m: ReceiverModel,
    data: Seq<u8>,
    start: u32,
    end: u32,
    now: u64,
)
    requires
        receiving(m, data),
        data.len() <= u64::MAX,
        is_first_lacking(m, start as int),
        start < end <= m.total(),
        m.outstanding == Some((start, end)),
        forall|i: u32| start <= i < end ==> !#[trigger] m.have.contains_key(i),
    ensures
        rounds_taken(m, data, (m.total() - start) as nat, now).verified == Some(true),
        rounds_taken(m, data, (m.total() - start) as nat, now).completion == Some((data, true)),
    decreases m.total() - start,
{
    let rounds = (m.total() - start) as nat;
    let (after, out) = chunks_taken(m, data, start as int, (end - start) as nat, now);
    lemma_window_completes(m, data, start, end, now);
    if after.verified != Some(true) {
        let (s, e) = after.outstanding->0;
        lemma_transfer_ends(after, data, s, e, now);
        lemma_more_rounds(after, data, (m.total() - s) as nat, (rounds - 1) as nat, now);
    } else {
        assert(rounds_taken(after, data, (rounds - 1) as nat, now) == after);
    }
}

proof fn lemma_more_rounds(m: ReceiverModel, data: Seq<u8>, few: nat, many: nat, now: u64)
    requires
        few <= many,
        rounds_taken(m, data, few, now).verified is Some,
    ensures
        rounds_taken(m, data, many, now) == rounds_taken(m, data, few, now),
    decreases few,
{
    if few > 0 && m.verified is None {
        let (start, end) = m.outstanding->0;
        let after = chunks_taken(m, data, start as int, (end - start) as nat, now).0;
        lemma_more_rounds(after, data, (few - 1) as nat, (many - 1) as nat, now);
    }
}

/// The receiving end of one file.
pub struct DropReceiverCore {
    pub offer: Option<OfferPayload>,
    /// The chunks that are there; may be seeded with those of an earlier attempt.
    pub have: HashMap<u32, Vec<u8>>,
    pub sender_addr: Option<u64>,
    /// Whether the digest matched, once every chunk is there.
    pub verified: Option<bool>,
    /// The window of chunks that was asked for last.
    pub outstanding: Option<(u32, u32)>,
    /// When a chunk of it last came.
    pub last_progress: Option<u64>,
    pub rerequest_timeout: u64,
    /// The file and whether its digest matched, until they are taken.
    pub completion: Option<(Vec<u8>, bool)>,
}

impl View for DropReceiverCore {
    type V = ReceiverModel;

    open spec fn view(&self) -> ReceiverModel {
        ReceiverModel {
            offer: match self.offer {
                Some(o) => Some(o@),
                None => None,
            },
            have: self.have@.map_values(|c: Vec<u8>| c@),
            sender: self.sender_addr,
            verified: self.verified,
            outstanding: self.outstanding,
            last_progress: self.last_progress,
            rerequest_timeout: self.rerequest_timeout,
            completion: match self.completion {
                Some((d, ok)) => Some((d@, ok)),
                None => None,
            },
        }
    }
}

impl DropReceiverCore {
    /// Starts with the chunks in `have`.
    pub fn new(have: HashMap<u32, Vec<u8>>) -> (r: Self)
        ensures
            r@.wf(),
            r@ == (ReceiverModel {
                offer: None,
                have: have@.map_values(|c: Vec<u8>| c@),
                sender: None,
                verified: None,
                outstanding: None,
                last_progress: None,
                rerequest_timeout: REREQUEST_TIMEOUT,
                completion: None,
            }),
    {
        let r = DropReceiverCore {
            offer: None,
            have,
            sender_addr: None,
            verified: None,
            outstanding: None,
            last_progress: None,
            rerequest_timeout: REREQUEST_TIMEOUT,
            completion: None,
        };
        assert(r@.have.dom() =~= have@.dom());
        r
    }

    fn total(&self) -> (r: u32)
        requires
            self@.wf(),
        ensures
            r == self@.total(),
    {
        match &self.offer {
            Some(o) => o.total_chunks as u32,
            None => 0,
        }
    }

    /// The ranges of chunks that are lacking, in order, none longer than a request may be.
    pub fn missing_ranges(&self) -> (out: Vec<(u32, u32)>)
        requires
            self@.wf(),
        ensures
            out@ == missing(self@.have, self@.total(), 0),
    {
        let total = self.total();
        let mut out: Vec<(u32, u32)> = Vec::new();
        let mut i: u32 = 0;
        let ghost have = self@.have;
        while i < total
            invariant
                i <= total,
                have == self@.have,
                out@ + missing(have, total as int, i as int) == missing(have, total as int, 0),
            decreases total - i,
        {
            assert(have.contains_key(i) == self.have@.contains_key(i));
            if self.have.contains_key(&i) {
                proof {
                    assert(next_lacking(have, total as int, i as int) == next_lacking(
                        have,
                        total as int,
                        i + 1,
                    ));
                    assert(missing(have, total as int, i as int) =~= missing(
                        have,
                        total as int,
                        i + 1,
                    ));
                }
                i = i + 1;
            } else {
                let stop: u32 = if total - i > MAX_RANGE_CHUNKS as u32 {
                    i + MAX_RANGE_CHUNKS as u32
                } else {
                    total
                };
                let mut end: u32 = i + 1;
                assert(next_held(have, stop as int, i as int) == next_held(
                    have,
                    stop as int,
                    end as int,
                ));
                while end < stop && !self.have.contains_key(&end)
                    invariant
                        i < end <= stop,
                        have == self@.have,
                        next_held(have, stop as int, i as int) == next_held(
                            have,
                            stop as int,
                            end as int,
                        ),
                    decreases stop - end,
                {
                    assert(have.contains_key(end) == self.have@.contains_key(end));
                    end = end + 1;
                }
                assert(have.contains_key(end) == self.have@.contains_key(end));
                let ghost before = out@;
                out.push((i, end));
                proof {
                    assert(end == range_end(have, total as int, i as int));
                    assert(missing(have, total as int, i as int) == seq![(i, end)] + missing(
                        have,
                        total as int,
                        end as int,
                    ));
                    assert(out@ + missing(have, total as int, end as int) =~= before + missing(
                        have,
                        total as int,
                        i as int,
                    ));
                }
                i = end;
            }
        }
        assert(missing(have, total as int, i as int) =~= Seq::empty());
        assert(out@ + Seq::<(u32, u32)>::empty() =~= out@);
        out
    }

    /// Asks for the next window of lacking chunks.
    pub fn request_missing(&mut self) -> (out: Vec<DropMessage>)
        requires
            old(self)@.wf(),
        ensures
            final(self)@.wf(),
            final(self)@ == requested(old(self)@).0,
            said(out@) == requested(old(self)@).1,
    {
        let mut out: Vec<DropMessage> = Vec::new();
        assert(said(out@) =~= Seq::empty());
        if self.offer.is_none() || self.sender_addr.is_none() || self.verified.is_some() {
            return out;
        }
        let list = self.missing_ranges();
        if list.len() > 0 {
            let (start, end) = list[0];
            self.outstanding = Some((start, end));
            let mut ranges: Vec<(i64, i64)> = Vec::new();
            ranges.push((start as i64, end as i64));
            assert(ranges@ =~= seq![(start as i64, end as i64)]);
            out.push(DropMessage::Request(ranges));
            assert(said(out@) =~= requested(old(self)@).1);
        }
        assert(self@ =~= requested(old(self)@).0);
        out
    }

    /// Asks again where nothing has arrived for too long.
    pub fn tick(&mut self, now: u64) -> (out: Vec<DropMessage>)
        requires
            old(self)@.wf(),
        ensures
            final(self)@.wf(),
            final(self)@ == ticked(old(self)@, now).0,
            said(out@) == ticked(old(self)@, now).1,
    {
        let waited = match self.last_progress {
            Some(t) => now > t && now - t > self.rerequest_timeout,
            None => true,
        };
        if self.offer.is_some() && self.verified.is_none() && waited {
            self.last_progress = Some(now);
            assert(self@ =~= (ReceiverModel { last_progress: Some(now), ..old(self)@ }));
            self.request_missing()
        } else {
            let out: Vec<DropMessage> = Vec::new();
            assert(said(out@) =~= Seq::empty());
            out
        }
    }

    /// Takes a message of the peer `from`; what is returned goes to the sender.
    pub fn handle_frame(&mut self, from: u64, message: DropMessage, now: u64) -> (out: Vec<
        DropMessage,
    >)
        requires
            old(self)@.wf(),
        ensures
            final(self)@.wf(),
            final(self)@ == message_taken(old(self)@, from, message@, now).0,
            said(out@) == message_taken(old(self)@, from, message@, now).1,
    {
        match message {
            DropMessage::Offer(offer) => self.take_offer(from, offer, now),
            DropMessage::Chunk(index, data) => self.take_chunk(index, data, now),
            _ => {
                let out: Vec<DropMessage> = Vec::new();
                assert(said(out@) =~= Seq::empty());
                out
            },
        }
    }

    /// Drops the chunks that do not fit an offer.
    fn prune(&mut self, o: &OfferPayload)
        requires
            offer_valid(o@),
            old(self)@.have.dom().finite(),
        ensures
            final(self)@ == (ReceiverModel { have: fitting(old(self)@.have, o@), ..old(self)@ }),
            final(self)@.have.dom().finite(),
    {
        let ghost have = old(self)@.have;
        let mut kept: HashMap<u32, Vec<u8>> = HashMap::new();
        let total: u32 = o.total_chunks as u32;
        let mut i: u32 = 0;
        while i < total
            invariant
                i <= total,
                total == o.total_chunks,
                have == old(self)@.have,
                self@ == (ReceiverModel { have: self@.have, ..old(self)@ }),
                forall|k: u32|
                    i <= k ==> #[trigger] self.have@.contains_key(k) == have.contains_key(k),
                forall|k: u32|
                    i <= k && self.have@.contains_key(k) ==> (#[trigger] self.have@[k])@ == have[k],
                forall|k: u32|
                    #[trigger] kept@.contains_key(k) <==> k < i && fitting(have, o@).contains_key(k),
                forall|k: u32| kept@.contains_key(k) ==> (#[trigger] kept@[k])@ == have[k],
            decreases total - i,
        {
            let ghost was = self.have@;
            assert(was.contains_key(i) == have.contains_key(i));
            if let Some(chunk) = self.have.remove(&i) {
                assert(was[i]@ == have[i]);
                let size: u128 = o.size as u128;
                let each: u128 = o.chunk_size as u128;
                assert(i * each <= 0x1_0000_0000 * 0x1_0000_0000_0000_0000 && (i + 1) * each
                    == i * each + each) by (nonlinear_arith)
                    requires
                        i < 0x1_0000_0000u64,
                        each < 0x1_0000_0000_0000_0000u128,
                ;
                let at: u128 = i as u128 * each;
                let len: u128 = if at + each <= size {
                    each
                } else if at < size {
                    size - at
                } else {
                    0
                };
                assert(len == chunk_len(o@, i as int));
                if chunk.len() as u128 == len {
                    kept.insert(i, chunk);
                }
            }
            assert(self@ =~= (ReceiverModel { have: self@.have, ..old(self)@ }));
            i = i + 1;
        }
        self.have = kept;
        proof {
            assert(self@.have =~= fitting(have, o@));
            assert(self@ =~= (ReceiverModel { have: fitting(have, o@), ..old(self)@ }));
            assert(self@.have.dom() =~= kept@.dom());
        }
    }

    fn take_offer(&mut self, from: u64, offer: OfferPayload, now: u64) -> (out: Vec<DropMessage>)
        requires
            old(self)@.wf(),
        ensures
            final(self)@.wf(),
            final(self)@ == offered(old(self)@, from, offer@, now).0,
            said(out@) == offered(old(self)@, from, offer@, now).1,
    {
        let ghost m = old(self)@;
        let ghost o = offer@;
        let size: u128 = offer.size as u128;
        let each: u128 = offer.chunk_size as u128;
        let valid = each > 0 && offer.total_chunks <= u32::MAX as u64 && offer.total_chunks as u128
            == if size == 0 {
            1
        } else {
            (size + each - 1) / each
        };
        assert(valid == offer_valid(o));
        if !valid {
            let out: Vec<DropMessage> = Vec::new();
            assert(said(out@) =~= Seq::empty());
            return out;
        }
        let other = match &self.offer {
            Some(prev) => offer.sha256 != prev.sha256 || offer.size != prev.size,
            None => false,
        };
        if other {
            self.have.clear();
            self.verified = None;
        }
        let ghost have1 = if other {
            Map::empty()
        } else {
            m.have
        };
        let ghost verified1 = if other {
            None
        } else {
            m.verified
        };
        assert(self@.have =~= have1);
        assert(self@ =~= (ReceiverModel { have: have1, verified: verified1, ..m }));
        self.prune(&offer);
        self.offer = Some(offer);
        self.sender_addr = Some(from);
        self.last_progress = Some(now);
        let ghost m2 = ReceiverModel {
            offer: Some(o),
            have: fitting(have1, o),
            verified: verified1,
            sender: Some(from),
            last_progress: Some(now),
            ..m
        };
        assert(self@ =~= m2);
        self.request_missing()
    }

    fn take_chunk(&mut self, index: u32, data: Vec<u8>, now: u64) -> (out: Vec<DropMessage>)
        requires
            old(self)@.wf(),
        ensures
            final(self)@.wf(),
            final(self)@ == chunk_taken(old(self)@, index, data@, now).0,
            said(out@) == chunk_taken(old(self)@, index, data@, now).1,
    {
        let ghost m = old(self)@;
        let none: Vec<DropMessage> = Vec::new();
        assert(said(none@) =~= Seq::empty());
        if index >= self.total() {
            return none;
        }
        assert(m.have.contains_key(index) == self.have@.contains_key(index));
        if !self.have.contains_key(&index) {
            self.have.insert(index, data);
            self.last_progress = Some(now);
            assert(self@.have =~= m.have.insert(index, data@));
            assert(self@.have.dom() =~= m.have.dom().insert(index));
        }
        let ghost m1 = if m.have.contains_key(index) {
            m
        } else {
            ReceiverModel { have: m.have.insert(index, data@), last_progress: Some(now), ..m }
        };
        assert(self@ =~= m1);
        proof {
            assert(self@.have.dom() =~= self.have@.dom());
            lemma_full(self.have@.dom(), self@.total());
            assert(m1.complete() == forall|k: u32|
                k < self@.total() ==> #[trigger] self.have@.dom().contains(k)) by {
                if m1.complete() {
                    assert forall|k: u32| k < self@.total() implies #[trigger] self.have@.dom().contains(
                        k,
                    ) by {
                        assert(m1.have.contains_key(k));
                    }
                }
            }
        }
        if self.have.len() as u64 == self.total() as u64 {
            return self.finish();
        }
        let drained = match self.outstanding {
            Some((start, end)) => self.holds(start, end),
            None => false,
        };
        assert(!m1.complete());
        assert(drained == window_filled(m1));
        if drained {
            self.request_missing()
        } else {
            none
        }
    }

    fn holds(&self, start: u32, end: u32) -> (r: bool)
        ensures
            r == holds_range(self@.have, start, end),
    {
        let mut i: u32 = start;
        while i < end
            invariant
                start <= i,
                i <= end || end < start,
                forall|k: u32| start <= k < i ==> #[trigger] self@.have.contains_key(k),
            decreases end - i,
        {
            assert(self@.have.contains_key(i) == self.have@.contains_key(i));
            if !self.have.contains_key(&i) {
                return false;
            }
            i = i + 1;
        }
        true
    }

    fn finish(&mut self) -> (out: Vec<DropMessage>)
        requires
            old(self)@.wf(),
            old(self)@.offer is Some,
            old(self)@.complete(),
        ensures
            final(self)@.wf(),
            final(self)@ == finished(old(self)@).0,
            said(out@) == finished(old(self)@).1,
    {
        let ghost m = old(self)@;
        let total = self.total();
        let mut data: Vec<u8> = Vec::new();
        let mut i: u32 = 0;
        while i < total
            invariant
                i <= total,
                total == m.total(),
                m == self@,
                m == old(self)@,
                m.complete(),
                data@ == assembled(m.have, i as int),
            decreases total - i,
        {
            assert(m.have.contains_key(i));
            match self.have.get(&i) {
                Some(chunk) => {
                    assert(m.have[i] == chunk@);
                    push_all(&mut data, chunk.as_slice());
                },
                None => {
                    assert(false);
                },
            }
            i = i + 1;
        }
        let mut ok = false;
        let mut digest: String = String::new();
        match &self.offer {
            Some(o) => {
                if (data.len() as u64) > o.size {
                    data.truncate(o.size as usize);
                    assert(data@ =~= assembled(m.have, m.total()).take(o.size as int));
                }
                assert(data@ == received_file(m));
                digest = sha256_hex(data.as_slice());
                ok = digest == o.sha256;
            },
            None => {},
        }
        self.verified = Some(ok);
        let mut out: Vec<DropMessage> = Vec::new();
        out.push(DropMessage::Done(digest));
        self.completion = Some((data, ok));
        assert(self@ =~= finished(m).0);
        assert(said(out@) =~= finished(m).1);
        out
    }

    /// Takes the file and whether its digest matched, once every chunk has arrived.
    pub fn take_completion(&mut self) -> (r: Option<(Vec<u8>, bool)>)
        ensures
            r is Some <==> old(self)@.completion is Some,
            r matches Some((data, ok)) ==> old(self)@.completion == Some((data@, ok)),
            final(self)@ == (ReceiverModel { completion: None, ..old(self)@ }),
    {
        let r = self.completion.take();
        assert(self@ =~= (ReceiverModel { completion: None, ..old(self)@ }));
        r
    }
}

} // verus!
