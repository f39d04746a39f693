//! A message that arrives in numbered pieces, in any order.
use crate::octets::push_all;
use vstd::prelude::*;

verus! {

/// Whether every piece has arrived.
pub open spec fn all_arrived(parts: Seq<Option<Seq<u8>>>) -> bool {
    forall|i: int| 0 <= i < parts.len() ==> parts[i] is Some
}

/// The pieces that have arrived, one after the other.
pub open spec fn joined(parts: Seq<Option<Seq<u8>>>) -> Seq<u8>
    decreases parts.len(),
{
    if parts.len() == 0 {
        Seq::empty()
    } else {
        joined(parts.drop_last()) + match parts.last() {
            Some(p) => p,
            None => Seq::empty(),
        }
    }
}

/// `count` pieces, none of which has arrived.
pub open spec fn none_arrived(count: nat) -> Seq<Option<Seq<u8>>> {
    Seq::new(count, |i: int| None)
}

/// How many pieces have arrived.
pub open spec fn arrived(parts: Seq<Option<Seq<u8>>>) -> nat
    decreases parts.len(),
{
    if parts.len() == 0 {
        0
    } else {
        arrived(parts.drop_last()) + if parts.last() is Some {
            1nat
        } else {
            0nat
        }
    }
}

/// The piece numbered `i` of `msg` when it is cut into pieces of `size` bytes.
pub open spec fn piece(msg: Seq<u8>, size: int, i: int) -> Seq<u8> {
    msg.subrange(
        i * size,
        if (i + 1) * size < msg.len() {
            (i + 1) * size
        } else {
            msg.len() as int
        },
    )
}

/// How many pieces of `size` bytes a message of `len` bytes is cut into.
pub open spec fn piece_count(len: int, size: int) -> int {
    (len + size - 1) / size
}

/// `msg` cut into pieces of `size` bytes.
pub open spec fn cut(msg: Seq<u8>, size: int) -> Seq<Seq<u8>> {
    Seq::new(piece_count(msg.len() as int, size) as nat, |i: int| piece(msg, size, i))
}

/// The state in which every piece of `pieces` has arrived.
pub open spec fn filled(pieces: Seq<Seq<u8>>) -> Seq<Option<Seq<u8>>> {
    Seq::new(pieces.len(), |i: int| Some(pieces[i]))
}

proof fn lemma_arrived_bound(parts: Seq<Option<Seq<u8>>>)
    ensures
        arrived(parts) <= parts.len(),
        arrived(parts) == parts.len() <==> all_arrived(parts),
    decreases parts.len(),
{
    if parts.len() > 0 {
        let init = parts.drop_last();
        lemma_arrived_bound(init);
        assert forall|i: int| 0 <= i < init.len() implies init[i] == parts[i] by {}
        if all_arrived(parts) {
            assert(all_arrived(init));
            assert(parts[parts.len() - 1] is Some);
        }
        if arrived(parts) == parts.len() {
            assert(all_arrived(init));
            assert forall|i: int| 0 <= i < parts.len() implies parts[i] is Some by {
                if i < init.len() {
                    assert(init[i] is Some);
                }
            }
        }
    }
}

proof fn lemma_arrived_none(count: nat)
    ensures
        arrived(none_arrived(count)) == 0,
    decreases count,
{
    if count > 0 {
        assert(none_arrived(count).drop_last() =~= none_arrived((count - 1) as nat));
        lemma_arrived_none((count - 1) as nat);
    }
}

proof fn lemma_arrived_put(parts: Seq<Option<Seq<u8>>>, i: int, p: Seq<u8>)
    requires
        0 <= i < parts.len(),
        parts[i] is None,
    ensures
        arrived(parts.update(i, Some(p))) == arrived(parts) + 1,
    decreases parts.len(),
{
    let next = parts.update(i, Some(p));
    if i == parts.len() - 1 {
        assert(next.drop_last() =~= parts.drop_last());
    } else {
        assert(next.drop_last() =~= parts.drop_last().update(i, Some(p)));
        lemma_arrived_put(parts.drop_last(), i, p);
    }
}

/// Where a message of `len` bytes is cut: every piece but the last is full, the last is
/// not empty, and the last ends where the message ends.
pub proof fn lemma_piece_bounds(len: int, size: int, i: int)
    requires
        0 < len,
        0 < size,
        0 <= i < piece_count(len, size),
    ensures
        0 <= i * size < len,
        i + 1 < piece_count(len, size) ==> (i + 1) * size < len,
        i + 1 == piece_count(len, size) ==> len <= (i + 1) * size,
{
    let n = piece_count(len, size);
    assert(n * size <= len + size - 1 < n * size + size) by (nonlinear_arith)
        requires
            n == (len + size - 1) / size,
            0 < size,
    ;
    assert(0 <= i * size && (i + 1) * size <= n * size && (i + 1) * size == i * size + size)
        by (nonlinear_arith)
        requires
            0 <= i < n,
            0 < size,
    ;
    if i + 1 < n {
        assert((i + 2) * size <= n * size && (i + 2) * size == (i + 1) * size + size)
            by (nonlinear_arith)
            requires
                i + 2 <= n,
                0 < size,
        ;
    }
}

/// A non-empty message is cut into at least one piece.
pub proof fn lemma_piece_count_positive(len: int, size: int)
    requires
        0 < len,
        0 < size,
    ensures
        1 <= piece_count(len, size) <= len,
{
    assert(1 <= (len + size - 1) / size <= len) by (nonlinear_arith)
        requires
            0 < len,
            0 < size,
    ;
}

proof fn lemma_joined_prefix(msg: Seq<u8>, size: int, k: int)
    requires
        0 < size,
        0 < msg.len(),
        0 <= k <= piece_count(msg.len() as int, size),
    ensures
        joined(filled(cut(msg, size)).take(k)) == msg.take(
            if k * size < msg.len() {
                k * size
            } else {
                msg.len() as int
            },
        ),
    decreases k,
{
    let all = filled(cut(msg, size));
    if k == 0 {
        assert(all.take(0) =~= Seq::empty());
        assert(msg.take(0) =~= Seq::empty());
        assert(0 * size == 0);
    } else {
        lemma_joined_prefix(msg, size, k - 1);
        lemma_piece_bounds(msg.len() as int, size, k - 1);
        assert(all.take(k).drop_last() =~= all.take(k - 1));
        assert(all.take(k).last() == Some(piece(msg, size, k - 1)));
        assert(k * size == (k - 1) * size + size) by (nonlinear_arith);
        assert(joined(all.take(k)) =~= msg.take(
            if k * size < msg.len() {
                k * size
            } else {
                msg.len() as int
            },
        ));
    }
}

/// Cutting a message and joining the pieces gives the message back.
pub proof fn lemma_joined_cut(msg: Seq<u8>, size: int)
    requires
        0 < size,
        0 < msg.len(),
    ensures
        joined(filled(cut(msg, size))) == msg,
{
    let n = piece_count(msg.len() as int, size);
    lemma_piece_count_positive(msg.len() as int, size);
    lemma_joined_prefix(msg, size, n);
    lemma_piece_bounds(msg.len() as int, size, n - 1);
    assert(filled(cut(msg, size)).take(n) =~= filled(cut(msg, size)));
    assert(msg.take(msg.len() as int) =~= msg);
    assert((n - 1 + 1) * size == n * size);
}

/// The state of a message of which the pieces named in `order` have arrived.
pub open spec fn arrived_in(data: Seq<Seq<u8>>, order: Seq<int>) -> Seq<Option<Seq<u8>>> {
    Seq::new(
        data.len(),
        |j: int|
            if order.contains(j) {
                Some(data[j])
            } else {
                None
            },
    )
}

/// Whether pieces that arrive in this order, however often, complete a message of `n` pieces
/// with the last that arrives, and not before.
pub open spec fn completing(order: Seq<int>, n: int) -> bool {
    &&& order.len() > 0
    &&& forall|k: int| 0 <= k < order.len() ==> 0 <= #[trigger] order[k] < n
    &&& forall|j: int| 0 <= j < n ==> #[trigger] order.contains(j)
    &&& !order.drop_last().contains(order.last())
}

/// Pieces that arrive once each complete their message with the last, in whatever order.
pub proof fn lemma_once_each(order: Seq<int>)
    requires
        order.len() > 0,
        order.no_duplicates(),
        forall|k: int| 0 <= k < order.len() ==> 0 <= #[trigger] order[k] < order.len(),
    ensures
        completing(order, order.len() as int),
{
    assert forall|j: int| 0 <= j < order.len() implies #[trigger] order.contains(j) by {
        lemma_order_covers(order, j);
    }
    if order.drop_last().contains(order.last()) {
        let w = order.drop_last().index_of(order.last());
        assert(order[w] == order[order.len() - 1]);
    }
}

/// Before the last piece of an order that completes a message, that piece is lacking.
pub proof fn lemma_not_complete(data: Seq<Seq<u8>>, order: Seq<int>, k: int)
    requires
        completing(order, data.len() as int),
        0 <= k < order.len(),
    ensures
        arrived_in(data, order.take(k))[order.last()] is None,
        !all_arrived(arrived_in(data, order.take(k))),
{
    let last = order.last();
    assert(order[order.len() - 1] == last);
    if order.take(k).contains(last) {
        let w = order.take(k).index_of(last);
        assert(order.drop_last()[w] == last);
    }
}

/// The turn of a piece adds it and nothing else; one that has arrived adds nothing.
pub proof fn lemma_arrives(data: Seq<Seq<u8>>, order: Seq<int>, k: int)
    requires
        0 <= k < order.len(),
        0 <= order[k] < data.len(),
    ensures
        arrived_in(data, order.take(k + 1)) == arrived_in(data, order.take(k)).update(
            order[k],
            Some(data[order[k]]),
        ),
        arrived_in(data, order.take(k))[order[k]] is Some ==> arrived_in(data, order.take(k + 1))
            == arrived_in(data, order.take(k)),
{
    let a = order.take(k);
    let b = order.take(k + 1);
    assert(b =~= a.push(order[k]));
    assert forall|j: int| 0 <= j < data.len() implies b.contains(j) == (a.contains(j) || j
        == order[k]) by {
        if b.contains(j) {
            let w = b.index_of(j);
            assert(w < k ==> a[w] == j);
        }
        if a.contains(j) {
            let w = a.index_of(j);
            assert(b[w] == j);
        }
        assert(b[k] == order[k]);
    }
    assert(arrived_in(data, b) =~= arrived_in(data, a).update(order[k], Some(data[order[k]])));
    if a.contains(order[k]) {
        assert(arrived_in(data, b) =~= arrived_in(data, a));
    }
}

/// A sequence of `n` different numbers below `n` holds all of them.
pub proof fn lemma_order_covers(order: Seq<int>, j: int)
    requires
        order.no_duplicates(),
        forall|k: int| 0 <= k < order.len() ==> 0 <= #[trigger] order[k] < order.len(),
        0 <= j < order.len(),
    ensures
        order.contains(j),
{
    let n = order.len() as int;
    let all = vstd::set_lib::set_int_range(0, n);
    vstd::set_lib::lemma_int_range(0, n);
    order.unique_seq_to_set();
    assert forall|x: int| order.to_set().contains(x) implies all.contains(x) by {}
    assert(order.to_set().subset_of(all));
    vstd::set_lib::lemma_subset_equality(order.to_set(), all);
    assert(all.contains(j));
}

/// The pieces of one message that have arrived so far.
pub struct Pieces {
    parts: Vec<Option<Vec<u8>>>,
    have: usize,
}

spec fn opt_view(o: Option<Vec<u8>>) -> Option<Seq<u8>> {
    match o {
        Some(v) => Some(v@),
        None => None,
    }
}

impl View for Pieces {
    type V = Seq<Option<Seq<u8>>>;

    closed spec fn view(&self) -> Seq<Option<Seq<u8>>> {
        Seq::new(self.parts@.len(), |i: int| opt_view(self.parts@[i]))
    }
}

impl Pieces {
    /// The count of pieces that have arrived is kept beside the pieces.
    pub closed spec fn wf(&self) -> bool {
        self.have == arrived(self@)
    }

    /// Nothing of a message of `count` pieces has arrived.
    pub fn new(count: usize) -> (r: Self)
        ensures
            r.wf(),
            r@ == none_arrived(count as nat),
    {
        let mut parts: Vec<Option<Vec<u8>>> = Vec::new();
        let mut i: usize = 0;
        while i < count
            invariant
                i <= count,
                parts@.len() == i,
                forall|k: int| 0 <= k < i ==> parts@[k] is None,
            decreases count - i,
        {
            parts.push(None);
            i = i + 1;
        }
        let r = Pieces { parts, have: 0 };
        proof {
            lemma_arrived_none(count as nat);
            assert(r@ =~= none_arrived(count as nat));
        }
        r
    }

    /// How many pieces the message has.
    pub fn count(&self) -> (r: usize)
        ensures
            r == self@.len(),
    {
        self.parts.len()
    }

    /// Whether the piece numbered `i` has arrived.
    pub fn has(&self, i: usize) -> (r: bool)
        requires
            i < self@.len(),
        ensures
            r == self@[i as int] is Some,
    {
        self.parts[i].is_some()
    }

    /// Records the piece numbered `i`; the first one recorded under a number stays.
    pub fn put(&mut self, i: usize, data: Vec<u8>)
        requires
            old(self).wf(),
            i < old(self)@.len(),
        ensures
            final(self).wf(),
            final(self)@ == if old(self)@[i as int] is None {
                old(self)@.update(i as int, Some(data@))
            } else {
                old(self)@
            },
    {
        if self.parts[i].is_none() {
            proof {
                lemma_arrived_put(self@, i as int, data@);
                lemma_arrived_bound(self@.update(i as int, Some(data@)));
            }
            let ghost before = self@;
            assert(self.parts.len() == self@.len());
            self.parts[i] = Some(data);
            self.have = self.have + 1;
            assert(self@ =~= before.update(i as int, Some(data@)));
        }
    }

    /// Whether every piece has arrived.
    pub fn complete(&self) -> (r: bool)
        requires
            self.wf(),
        ensures
            r == all_arrived(self@),
    {
        proof {
            lemma_arrived_bound(self@);
        }
        self.have == self.parts.len()
    }

    /// The pieces that have arrived, one after the other.
    pub fn join(&self) -> (out: Vec<u8>)
        ensures
            out@ == joined(self@),
    {
        let mut out: Vec<u8> = Vec::new();
        let mut i: usize = 0;
        assert(self@.take(0) =~= Seq::empty());
        while i < self.parts.len()
            invariant
                i <= self.parts@.len(),
                self@.len() == self.parts@.len(),
                out@ == joined(self@.take(i as int)),
            decreases self.parts@.len() - i,
        {
            assert(self@.take(i + 1).drop_last() =~= self@.take(i as int));
            assert(self@[i as int] == opt_view(self.parts@[i as int]));
            match &self.parts[i] {
                Some(p) => {
                    push_all(&mut out, p.as_slice());
                },
                None => {
                    assert(out@ + Seq::<u8>::empty() =~= out@);
                },
            }
            i = i + 1;
        }
        assert(self@.take(i as int) =~= self@);
        out
    }
}

/// Cuts `msg` into pieces of `size` bytes.
pub fn cut_slices<'a>(msg: &'a [u8], size: usize) -> (out: Vec<&'a [u8]>)
    requires
        0 < size,
    ensures
        out@.len() == cut(msg@, size as int).len(),
        forall|i: int| 0 <= i < out@.len() ==> (#[trigger] out@[i])@ == cut(msg@, size as int)[i],
{
    let mut out: Vec<&'a [u8]> = Vec::new();
    let n: usize = msg.len();
    let mut at: usize = 0;
    let ghost count = piece_count(n as int, size as int);
    proof {
        if n == 0 {
            assert(count == 0) by (nonlinear_arith)
                requires
                    count == (0 + size - 1) / size as int,
                    0 < size,
            ;
        } else {
            lemma_piece_count_positive(n as int, size as int);
        }
        assert(0 * size == 0);
    }
    while at < n
        invariant
            0 < size,
            n == msg@.len(),
            at <= n,
            count == piece_count(n as int, size as int),
            out@.len() <= count,
            at == if out@.len() * size < n {
                out@.len() * size
            } else {
                n as int
            },
            at == n ==> out@.len() == count,
            forall|i: int|
                0 <= i < out@.len() ==> (#[trigger] out@[i])@ == piece(msg@, size as int, i),
        decreases n - at,
    {
        let ghost k = out@.len() as int;
        proof {
            assert(k < count) by {
                if k == count {
                    lemma_piece_count_positive(n as int, size as int);
                    lemma_piece_bounds(n as int, size as int, count - 1);
                    assert((count - 1 + 1) * size == k * size);
                }
            }
            lemma_piece_bounds(n as int, size as int, k);
            assert((k + 1) * size == k * size + size) by (nonlinear_arith);
        }
        let end: usize = if n - at > size {
            at + size
        } else {
            n
        };
        out.push(vstd::slice::slice_subrange(msg, at, end));
        at = end;
    }
    out
}

} // verus!
