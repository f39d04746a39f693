//! Board: a map replicated between peers, where the last writer of a key wins.
//!
//! Every write carries a Lamport clock and its writer's name; the greater pair wins
//! everywhere, so replicas that have seen the same writes agree. A digest over all versions
//! tells two replicas whether they do.
use crate::assoc;
use crate::hex::{self, to_hex};
use crate::octets::{self, push_all, push_be64};
use crate::order::{self, text_before};
use crate::pieces;
use crate::primitives::{self, random16, sha256};
use crate::replay::{self, forget_peer, replay_stale};
use crate::wire::fragment::{self, fragment, ChunkModel, PartialModel, Reassembler, MAX_CHUNK_PAYLOAD};
use std::collections::HashMap;
use vstd::prelude::*;

verus! {

/// One write.
pub const TYPE_SET: u8 = 0x01;

/// The digest of a replica.
pub const TYPE_DIGEST: u8 = 0x02;

/// A request for a snapshot.
pub const TYPE_SYNC_REQ: u8 = 0x03;

/// Every write that a replica holds.
pub const TYPE_SNAPSHOT: u8 = 0x04;

/// The milliseconds between two digests that a replica sends.
pub const DIGEST_INTERVAL: u64 = 10000;

/// One write: the key, the value as JSON text, the clock and the writer, and whether it
/// deletes.
#[derive(Debug, PartialEq)]
pub struct SetPayload {
    pub key: String,
    pub value: String,
    pub ts: (u64, String),
    pub deleted: bool,
}

/// One entry of the map. A deleted one stays, so that the deletion spreads.
#[derive(Debug, Clone, PartialEq)]
pub struct BoardEntry {
    pub value: String,
    pub lamport: u64,
    pub actor: String,
    pub deleted: bool,
}

/// A change of the map, by a local write or by a merge.
#[derive(Debug, Clone)]
pub struct BoardChange {
    pub key: String,
    pub value: String,
    pub deleted: bool,
}

/// What an entry says.
#[verifier::ext_equal]
pub struct EntryModel {
    pub value: Seq<char>,
    pub lamport: u64,
    pub actor: Seq<char>,
    pub deleted: bool,
}

impl View for BoardEntry {
    type V = EntryModel;

    open spec fn view(&self) -> EntryModel {
        EntryModel {
            value: self.value@,
            lamport: self.lamport,
            actor: self.actor@,
            deleted: self.deleted,
        }
    }
}

/// What a write says: its key, and the entry that it makes.
impl View for SetPayload {
    type V = (Seq<char>, EntryModel);

    open spec fn view(&self) -> (Seq<char>, EntryModel) {
        (
            self.key@,
            EntryModel {
                value: self.value@,
                lamport: self.ts.0,
                actor: self.ts.1@,
                deleted: self.deleted,
            },
        )
    }
}

impl Clone for SetPayload {
    fn clone(&self) -> (r: Self)
        ensures
            r@ == self@,
    {
        SetPayload {
            key: self.key.clone(),
            value: self.value.clone(),
            ts: (self.ts.0, self.ts.1.clone()),
            deleted: self.deleted,
        }
    }
}

/// What a change says: the key, the value, and whether it was deleted.
impl View for BoardChange {
    type V = (Seq<char>, Seq<char>, bool);

    open spec fn view(&self) -> (Seq<char>, Seq<char>, bool) {
        (self.key@, self.value@, self.deleted)
    }
}

/// The value of a deleted entry: JSON's null.
pub open spec fn null_text() -> Seq<char> {
    seq!['n', 'u', 'l', 'l']
}

/// Whether the version of `a` is older than that of `b`: by clock, then by writer.
pub open spec fn older(a: EntryModel, b: EntryModel) -> bool {
    a.lamport < b.lamport || a.lamport == b.lamport && order::text_less(a.actor, b.actor)
}

/// A replica: its writer's name, the entries, and the clock.
#[verifier::ext_equal]
pub struct BoardModel {
    pub actor: Seq<char>,
    pub entries: Map<Seq<char>, EntryModel>,
    pub lamport: u64,
}

impl BoardModel {
    /// No entry is ahead of the clock.
    pub open spec fn wf(self) -> bool {
        forall|k: Seq<char>|
            #[trigger] self.entries.contains_key(k) ==> self.entries[k].lamport <= self.lamport
    }
}

/// Whether merging a write changes the map: its key is new, or its version is newer.
pub open spec fn wins(m: BoardModel, write: (Seq<char>, EntryModel)) -> bool {
    !m.entries.contains_key(write.0) || older(m.entries[write.0], write.1)
}

/// The replica after a write was merged. The clock catches up in any case.
pub open spec fn merged(m: BoardModel, write: (Seq<char>, EntryModel)) -> BoardModel {
    BoardModel {
        lamport: if m.lamport < write.1.lamport {
            write.1.lamport
        } else {
            m.lamport
        },
        entries: if wins(m, write) {
            m.entries.insert(write.0, write.1)
        } else {
            m.entries
        },
        ..m
    }
}

/// The replica after its own writer wrote.
pub open spec fn written(m: BoardModel, key: Seq<char>, value: Seq<char>, deleted: bool) -> (
    BoardModel,
    (Seq<char>, EntryModel),
) {
    let lamport = (m.lamport + 1) as u64;
    let entry = EntryModel { value, lamport, actor: m.actor, deleted };
    (BoardModel { lamport, entries: m.entries.insert(key, entry), ..m }, (key, entry))
}

/// Whether a list of entries is in the order of its keys.
pub open spec fn sorted(list: Seq<(Seq<char>, EntryModel)>) -> bool {
    forall|i: int, j: int|
        0 <= i < j < list.len() ==> order::text_less((#[trigger] list[i]).0, (#[trigger] list[j]).0)
}

/// Whether `list` is the map in the order of its keys.
pub open spec fn lists(list: Seq<(Seq<char>, EntryModel)>, map: Map<Seq<char>, EntryModel>) -> bool {
    sorted(list) && assoc::to_map(list) == map
}

/// The map in the order of its keys.
pub open spec fn listing(map: Map<Seq<char>, EntryModel>) -> Seq<(Seq<char>, EntryModel)> {
    choose|list: Seq<(Seq<char>, EntryModel)>| lists(list, map)
}

/// What the digest is taken over: for each entry in the order of the keys its key, clock,
/// writer and whether it is deleted. Values are left out: the version decides them.
pub open spec fn digest_bytes(list: Seq<(Seq<char>, EntryModel)>) -> Seq<u8>
    decreases list.len(),
{
    if list.len() == 0 {
        Seq::empty()
    } else {
        let (key, e) = list.last();
        digest_bytes(list.drop_last()) + vstd::utf8::encode_utf8(key) + octets::be64(e.lamport)
            + vstd::utf8::encode_utf8(e.actor) + seq![
            if e.deleted {
                1u8
            } else {
                0u8
            },
        ]
    }
}

/// The entries of a list that are not deleted, with their values.
pub open spec fn live(list: Seq<(Seq<char>, EntryModel)>) -> Seq<(Seq<char>, Seq<char>)>
    decreases list.len(),
{
    if list.len() == 0 {
        Seq::empty()
    } else if list.last().1.deleted {
        live(list.drop_last())
    } else {
        live(list.drop_last()).push((list.last().0, list.last().1.value))
    }
}

proof fn lemma_sorted_distinct(list: Seq<(Seq<char>, EntryModel)>)
    requires
        sorted(list),
    ensures
        assoc::distinct(list),
{
    assert forall|i: int, j: int| 0 <= i < j < list.len() implies (#[trigger] list[i]).0
        != (#[trigger] list[j]).0 by {
        order::lemma_text_irreflexive(list[i].0);
        assert(order::text_less(list[i].0, list[j].0));
    }
}

proof fn lemma_same_prefix(
    a: Seq<(Seq<char>, EntryModel)>,
    b: Seq<(Seq<char>, EntryModel)>,
    n: int,
)
    requires
        sorted(a),
        sorted(b),
        assoc::to_map(a) == assoc::to_map(b),
        0 <= n <= a.len(),
    ensures
        n <= b.len(),
        forall|i: int| 0 <= i < n ==> a[i] == b[i],
    decreases n,
{
    lemma_sorted_distinct(a);
    lemma_sorted_distinct(b);
    if n > 0 {
        lemma_same_prefix(a, b, n - 1);
        let i = n - 1;
        assoc::lemma_entry(a, i);
        let j = assoc::lemma_key(b, a[i].0);
        if j < i {
            assert(a[j] == b[j]);
            assert(a[j].0 != a[i].0);
        }
        assoc::lemma_entry(b, i);
        let k = assoc::lemma_key(a, b[i].0);
        if k < i {
            assert(a[k] == b[k]);
            assert(b[k].0 != b[i].0);
        }
        if j > i && k > i {
            assert(order::text_less(b[i].0, b[j].0));
            assert(order::text_less(a[i].0, a[k].0));
            order::lemma_text_total(a[i].0, b[i].0);
        }
        if j == i {
            assert(a[i].0 == b[i].0);
        }
        if k == i {
            assert(a[i].0 == b[i].0);
        }
    }
}

/// A map has one listing.
pub proof fn lemma_listing_unique(
    list: Seq<(Seq<char>, EntryModel)>,
    map: Map<Seq<char>, EntryModel>,
)
    requires
        lists(list, map),
    ensures
        listing(map) == list,
{
    let other = listing(map);
    assert(lists(other, map));
    lemma_same_prefix(list, other, list.len() as int);
    lemma_same_prefix(other, list, other.len() as int);
    assert(other =~= list);
}

/// Merging the same write twice is merging it once.
pub proof fn lemma_merge_idempotent(m: BoardModel, write: (Seq<char>, EntryModel))
    ensures
        merged(merged(m, write), write) == merged(m, write),
{
    order::lemma_text_irreflexive(write.1.actor);
    assert(merged(merged(m, write), write) =~= merged(m, write));
}

/// Writes may be merged in either order, as long as no two of them bear the same version of
/// the same key and differ.
pub proof fn lemma_merge_commutes(
    m: BoardModel,
    a: (Seq<char>, EntryModel),
    b: (Seq<char>, EntryModel),
)
    requires
        a.0 == b.0 && a.1.lamport == b.1.lamport && a.1.actor == b.1.actor ==> a.1 == b.1,
    ensures
        merged(merged(m, a), b) == merged(merged(m, b), a),
{
    order::lemma_text_total(a.1.actor, b.1.actor);
    if m.entries.contains_key(a.0) {
        let e = m.entries[a.0];
        order::lemma_text_total(e.actor, a.1.actor);
        order::lemma_text_total(e.actor, b.1.actor);
        if order::text_less(e.actor, a.1.actor) && order::text_less(a.1.actor, b.1.actor) {
            order::lemma_text_transitive(e.actor, a.1.actor, b.1.actor);
        }
        if order::text_less(e.actor, b.1.actor) && order::text_less(b.1.actor, a.1.actor) {
            order::lemma_text_transitive(e.actor, b.1.actor, a.1.actor);
        }
    }
    assert(merged(merged(m, a), b).entries =~= merged(merged(m, b), a).entries);
}

/// An entry's version never goes back, and no key is lost: a deletion leaves its mark.
pub proof fn lemma_merge_monotonic(m: BoardModel, write: (Seq<char>, EntryModel), key: Seq<char>)
    requires
        m.entries.contains_key(key),
    ensures
        merged(m, write).entries.contains_key(key),
        merged(m, write).entries[key] == m.entries[key] || older(
            m.entries[key],
            merged(m, write).entries[key],
        ),
        m.lamport <= merged(m, write).lamport,
{
}

/// A local write is newer than anything the replica has seen, so that it wins wherever it is
/// merged after the same writes.
pub proof fn lemma_local_write_wins(
    m: BoardModel,
    key: Seq<char>,
    value: Seq<char>,
    deleted: bool,
    other: BoardModel,
)
    requires
        m.wf(),
        m.lamport < u64::MAX,
        other.entries.contains_key(key) ==> m.entries.contains_key(key) && m.entries[key]
            == other.entries[key],
    ensures
        written(m, key, value, deleted).0.wf(),
        wins(other, written(m, key, value, deleted).1),
        merged(other, written(m, key, value, deleted).1).entries[key] == written(
            m,
            key,
            value,
            deleted,
        ).1.1,
{
}

/// Whether two entries bear the same version.
pub open spec fn same_version(a: EntryModel, b: EntryModel) -> bool {
    a.lamport == b.lamport && a.actor == b.actor && a.deleted == b.deleted
}

proof fn lemma_same_digest_bytes(
    a: Seq<(Seq<char>, EntryModel)>,
    b: Seq<(Seq<char>, EntryModel)>,
)
    requires
        a.len() == b.len(),
        forall|i: int|
            0 <= i < a.len() ==> (#[trigger] a[i]).0 == b[i].0 && same_version(a[i].1, b[i].1),
    ensures
        digest_bytes(a) == digest_bytes(b),
    decreases a.len(),
{
    if a.len() > 0 {
        lemma_same_digest_bytes(a.drop_last(), b.drop_last());
        let n = a.len() - 1;
        assert(a[n].0 == b[n].0);
    }
}

/// Replicas that hold the same versions of the same keys have the same digest.
pub proof fn lemma_converged_digest(
    a: Seq<(Seq<char>, EntryModel)>,
    b: Seq<(Seq<char>, EntryModel)>,
    map_a: Map<Seq<char>, EntryModel>,
    map_b: Map<Seq<char>, EntryModel>,
)
    requires
        lists(a, map_a),
        lists(b, map_b),
        map_a.dom() == map_b.dom(),
        forall|k: Seq<char>| #[trigger] map_a.contains_key(k) ==> same_version(map_a[k], map_b[k]),
    ensures
        a.len() == b.len(),
        digest_bytes(a) == digest_bytes(b),
{
    lemma_sorted_distinct(a);
    lemma_sorted_distinct(b);
    // `b` with the entries of `a`.
    let c = Seq::new(b.len(), |i: int| (b[i].0, map_a[b[i].0]));
    assert forall|i: int, j: int| 0 <= i < j < c.len() implies order::text_less(
        (#[trigger] c[i]).0,
        (#[trigger] c[j]).0,
    ) by {
        assert(order::text_less(b[i].0, b[j].0));
    }
    lemma_sorted_distinct(c);
    assert forall|k: Seq<char>| assoc::to_map(c).contains_key(k) == map_a.contains_key(k) by {
        if assoc::to_map(c).contains_key(k) {
            let i = assoc::lemma_key(c, k);
            assoc::lemma_entry(b, i);
            assert(map_b.dom().contains(k));
            assert(map_a.dom().contains(k));
        }
        if map_a.contains_key(k) {
            assert(map_a.dom().contains(k));
            assert(map_b.dom().contains(k));
            let i = assoc::lemma_key(b, k);
            assoc::lemma_entry(c, i);
        }
    }
    assert forall|k: Seq<char>| assoc::to_map(c).contains_key(k) implies assoc::to_map(c)[k]
        == map_a[k] by {
        let i = assoc::lemma_key(c, k);
    }
    assert(assoc::to_map(c) =~= map_a);
    lemma_listing_unique(a, map_a);
    lemma_listing_unique(c, map_a);
    assert forall|i: int| 0 <= i < a.len() implies (#[trigger] a[i]).0 == b[i].0 && same_version(
        a[i].1,
        b[i].1,
    ) by {
        assert(a[i] == c[i]);
        assoc::lemma_entry(b, i);
        assoc::lemma_entry(a, i);
    }
    lemma_same_digest_bytes(a, b);
}

impl BoardEntry {
    /// The version: the clock and the writer.
    pub fn ts(&self) -> (r: (u64, &str))
        ensures
            r.0 == self.lamport,
            r.1@ == self.actor@,
    {
        (self.lamport, self.actor.as_str())
    }

    /// The write that makes this entry under `key`.
    pub fn to_payload(&self, key: &str) -> (r: SetPayload)
        ensures
            r@ == (key@, self@),
    {
        SetPayload {
            key: key.to_owned(),
            value: self.value.clone(),
            ts: (self.lamport, self.actor.clone()),
            deleted: self.deleted,
        }
    }
}

spec fn entry_views(list: Seq<(String, BoardEntry)>) -> Seq<(Seq<char>, EntryModel)> {
    Seq::new(list.len(), |i: int| (list[i].0@, list[i].1@))
}

/// A replica of the map, its entries in the order of their keys.
pub struct BoardCore {
    actor: String,
    entries: Vec<(String, BoardEntry)>,
    lamport: u64,
}

impl View for BoardCore {
    type V = BoardModel;

    closed spec fn view(&self) -> BoardModel {
        BoardModel {
            actor: self.actor@,
            entries: assoc::to_map(entry_views(self.entries@)),
            lamport: self.lamport,
        }
    }
}

impl BoardCore {
    /// What holds of every replica.
    pub closed spec fn wf(&self) -> bool {
        sorted(entry_views(self.entries@)) && self@.wf()
    }

    /// An empty replica of the writer `actor`.
    pub fn new(actor: String) -> (r: Self)
        ensures
            r.wf(),
            r@ == (BoardModel { actor: actor@, entries: Map::empty(), lamport: 0 }),
    {
        let r = BoardCore { actor, entries: Vec::new(), lamport: 0 };
        proof {
            assert(entry_views(r.entries@) =~= Seq::empty());
            assoc::lemma_empty::<Seq<char>, EntryModel>();
        }
        r
    }

    /// The writer's name.
    pub fn actor(&self) -> (r: &str)
        ensures
            r@ == self@.actor,
    {
        self.actor.as_str()
    }

    /// The clock.
    pub fn lamport(&self) -> (r: u64)
        ensures
            r == self@.lamport,
    {
        self.lamport
    }

    /// Where `key` stands or belongs among the entries.
    fn position(&self, key: &str) -> (i: usize)
        requires
            self.wf(),
        ensures
            i <= self.entries@.len(),
            forall|k: int| 0 <= k < i ==> order::text_less((#[trigger] entry_views(self.entries@)[k]).0, key@),
            forall|k: int|
                i <= k < self.entries@.len() ==> !order::text_less(
                    (#[trigger] entry_views(self.entries@)[k]).0,
                    key@,
                ),
    {
        let mut lo: usize = 0;
        let mut hi: usize = self.entries.len();
        let ghost list = entry_views(self.entries@);
        while lo < hi
            invariant
                self.wf(),
                list == entry_views(self.entries@),
                lo <= hi <= self.entries@.len(),
                forall|k: int| 0 <= k < lo ==> order::text_less((#[trigger] list[k]).0, key@),
                forall|k: int|
                    hi <= k < self.entries@.len() ==> !order::text_less((#[trigger] list[k]).0, key@),
            decreases hi - lo,
        {
            let mid: usize = lo + (hi - lo) / 2;
            assert(list[mid as int].0 == self.entries@[mid as int].0@);
            if text_before(self.entries[mid].0.as_str(), key) {
                proof {
                    assert forall|k: int| 0 <= k < mid + 1 implies order::text_less(
                        (#[trigger] list[k]).0,
                        key@,
                    ) by {
                        if k < mid {
                            order::lemma_text_transitive(list[k].0, list[mid as int].0, key@);
                        }
                    }
                }
                lo = mid + 1;
            } else {
                proof {
                    assert forall|k: int| mid <= k < self.entries@.len() implies !order::text_less(
                        (#[trigger] list[k]).0,
                        key@,
                    ) by {
                        if k > mid && order::text_less(list[k].0, key@) {
                            order::lemma_text_transitive(list[mid as int].0, list[k].0, key@);
                        }
                    }
                }
                hi = mid;
            }
        }
        lo
    }

    /// The entry under `key`, deleted or not.
    pub fn entry(&self, key: &str) -> (r: Option<&BoardEntry>)
        requires
            self.wf(),
        ensures
            r is Some <==> self@.entries.contains_key(key@),
            r matches Some(e) ==> e@ == self@.entries[key@],
    {
        let i = self.position(key);
        let ghost list = entry_views(self.entries@);
        proof {
            lemma_sorted_distinct(list);
        }
        if i < self.entries.len() && !text_before(key, self.entries[i].0.as_str()) {
            proof {
                assert(list[i as int].0 == self.entries@[i as int].0@);
                order::lemma_text_total(list[i as int].0, key@);
                assoc::lemma_entry(list, i as int);
            }
            Some(&self.entries[i].1)
        } else {
            proof {
                self.lemma_not_there(key@, i as int);
            }
            None
        }
    }

    /// A key that is not at its place is not there.
    proof fn lemma_not_there(&self, key: Seq<char>, i: int)
        requires
            sorted(entry_views(self.entries@)),
            0 <= i <= self.entries@.len(),
            forall|k: int| 0 <= k < i ==> order::text_less((#[trigger] entry_views(self.entries@)[k]).0, key),
            i < self.entries@.len() ==> order::text_less(key, entry_views(self.entries@)[i].0),
        ensures
            !self@.entries.contains_key(key),
    {
        let list = entry_views(self.entries@);
        assert forall|k: int| 0 <= k < list.len() implies (#[trigger] list[k]).0 != key by {
            order::lemma_text_irreflexive(key);
            if k > i {
                assert(order::text_less(list[i].0, list[k].0));
                order::lemma_text_transitive(key, list[i].0, list[k].0);
            }
        }
        assoc::lemma_absent(list, key);
    }

    fn put(&mut self, key: String, entry: BoardEntry)
        requires
            old(self).wf(),
            entry.lamport <= old(self)@.lamport,
        ensures
            final(self).wf(),
            final(self)@ == (BoardModel {
                entries: old(self)@.entries.insert(key@, entry@),
                ..old(self)@
            }),
    {
        let i = self.position(key.as_str());
        let ghost list = entry_views(self.entries@);
        let ghost model = entry@;
        let ghost name = key@;
        proof {
            lemma_sorted_distinct(list);
        }
        if i < self.entries.len() && !text_before(key.as_str(), self.entries[i].0.as_str()) {
            proof {
                assert(list[i as int].0 == self.entries@[i as int].0@);
                order::lemma_text_total(list[i as int].0, name);
                assoc::lemma_update(list, i as int, model);
            }
            self.entries[i] = (key, entry);
            proof {
                let now = entry_views(self.entries@);
                assert(now =~= list.update(i as int, (name, model)));
                assert forall|a: int, b: int| 0 <= a < b < now.len() implies order::text_less(
                    (#[trigger] now[a]).0,
                    (#[trigger] now[b]).0,
                ) by {
                    assert(order::text_less(list[a].0, list[b].0));
                }
            }
        } else {
            proof {
                self.lemma_not_there(name, i as int);
                assoc::lemma_push(list, name, model);
            }
            self.entries.insert(i, (key, entry));
            proof {
                let now = entry_views(self.entries@);
                assert(now =~= list.insert(i as int, (name, model)));
                assert forall|a: int, b: int| 0 <= a < b < now.len() implies order::text_less(
                    (#[trigger] now[a]).0,
                    (#[trigger] now[b]).0,
                ) by {
                    let a0 = if a < i { a } else { a - 1 };
                    let b0 = if b < i { b } else { b - 1 };
                    if a == i {
                        assert(now[b] == list[b0]);
                        if b0 > i {
                            assert(order::text_less(list[i as int].0, list[b0].0));
                            order::lemma_text_transitive(name, list[i as int].0, list[b0].0);
                        }
                    } else if b == i {
                        assert(now[a] == list[a0]);
                    } else {
                        assert(now[a] == list[a0] && now[b] == list[b0]);
                        assert(order::text_less(list[a0].0, list[b0].0));
                    }
                }
                lemma_sorted_distinct(now);
                lemma_insert_map(list, i as int, name, model);
            }
        }
        assert(self@.entries == old(self)@.entries.insert(name, model));
        assert(self@ =~= (BoardModel { entries: old(self)@.entries.insert(name, model), ..old(self)@ }));
    }

    fn write(&mut self, key: &str, value: String, deleted: bool) -> (r: SetPayload)
        requires
            old(self).wf(),
            old(self)@.lamport < u64::MAX,
        ensures
            final(self).wf(),
            final(self)@ == written(old(self)@, key@, value@, deleted).0,
            r@ == written(old(self)@, key@, value@, deleted).1,
    {
        self.lamport = self.lamport + 1;
        assert(self@ =~= (BoardModel { lamport: (old(self)@.lamport + 1) as u64, ..old(self)@ }));
        let entry = BoardEntry {
            value,
            lamport: self.lamport,
            actor: self.actor.clone(),
            deleted,
        };
        let payload = entry.to_payload(key);
        self.put(key.to_owned(), entry);
        assert(self@ =~= written(old(self)@, key@, value@, deleted).0);
        payload
    }

    /// Writes `value` under `key`; the write is to be sent to the other replicas.
    pub fn set(&mut self, key: &str, value: String) -> (r: SetPayload)
        requires
            old(self).wf(),
            old(self)@.lamport < u64::MAX,
        ensures
            final(self).wf(),
            final(self)@ == written(old(self)@, key@, value@, false).0,
            r@ == written(old(self)@, key@, value@, false).1,
    {
        self.write(key, value, false)
    }

    /// Deletes `key`: the entry stays as deleted, so that the deletion spreads.
    pub fn delete(&mut self, key: &str) -> (r: SetPayload)
        requires
            old(self).wf(),
            old(self)@.lamport < u64::MAX,
        ensures
            final(self).wf(),
            final(self)@ == written(old(self)@, key@, null_text(), true).0,
            r@ == written(old(self)@, key@, null_text(), true).1,
    {
        proof {
            reveal_strlit("null");
            assert("null"@ =~= null_text());
        }
        self.write(key, "null".to_owned(), true)
    }

    /// The value under `key`, unless it is absent or deleted.
    pub fn get(&self, key: &str) -> (r: Option<&String>)
        requires
            self.wf(),
        ensures
            r is Some <==> self@.entries.contains_key(key@) && !self@.entries[key@].deleted,
            r matches Some(v) ==> v@ == self@.entries[key@].value,
    {
        match self.entry(key) {
            Some(e) => if e.deleted {
                None
            } else {
                Some(&e.value)
            },
            None => None,
        }
    }

    /// The keys and values that are not deleted, in the order of the keys.
    pub fn items(&self) -> (out: Vec<(String, String)>)
        requires
            self.wf(),
        ensures
            out@.map_values(|p: (String, String)| (p.0@, p.1@)) == live(listing(self@.entries)),
    {
        let mut out: Vec<(String, String)> = Vec::new();
        let mut i: usize = 0;
        let ghost list = entry_views(self.entries@);
        let ghost pairs = |p: (String, String)| (p.0@, p.1@);
        proof {
            lemma_listing_unique(list, self@.entries);
            assert(list.take(0) =~= Seq::empty());
            assert(out@.map_values(pairs) =~= live(list.take(0)));
        }
        while i < self.entries.len()
            invariant
                i <= self.entries@.len(),
                list == entry_views(self.entries@),
                pairs == (|p: (String, String)| (p.0@, p.1@)),
                out@.map_values(pairs) == live(list.take(i as int)),
            decreases self.entries@.len() - i,
        {
            assert(list.take(i + 1).drop_last() =~= list.take(i as int));
            let ghost before = out@;
            if !self.entries[i].1.deleted {
                out.push((self.entries[i].0.clone(), self.entries[i].1.value.clone()));
                assert(out@.map_values(pairs) =~= before.map_values(pairs).push(
                    (list[i as int].0, list[i as int].1.value),
                ));
            }
            i = i + 1;
        }
        assert(list.take(i as int) =~= list);
        out
    }

    /// The count of entries, and the digest of their versions in lowercase hexadecimal.
    pub fn digest(&self) -> (r: (u64, String))
        requires
            self.wf(),
        ensures
            r.0 == listing(self@.entries).len(),
            r.1@ == hex::hex_of(primitives::sha256_of(digest_bytes(listing(self@.entries)))),
    {
        let mut bytes: Vec<u8> = Vec::new();
        let mut i: usize = 0;
        let ghost list = entry_views(self.entries@);
        proof {
            lemma_listing_unique(list, self@.entries);
            assert(list.take(0) =~= Seq::empty());
        }
        while i < self.entries.len()
            invariant
                i <= self.entries@.len(),
                list == entry_views(self.entries@),
                bytes@ == digest_bytes(list.take(i as int)),
            decreases self.entries@.len() - i,
        {
            assert(list.take(i + 1).drop_last() =~= list.take(i as int));
            assert(list[i as int] == (self.entries@[i as int].0@, self.entries@[i as int].1@));
            push_all(&mut bytes, self.entries[i].0.as_str().as_bytes());
            push_be64(&mut bytes, self.entries[i].1.lamport);
            push_all(&mut bytes, self.entries[i].1.actor.as_str().as_bytes());
            bytes.push(
                if self.entries[i].1.deleted {
                    1
                } else {
                    0
                },
            );
            assert(bytes@ =~= digest_bytes(list.take(i + 1)));
            i = i + 1;
        }
        assert(list.take(i as int) =~= list);
        (self.entries.len() as u64, to_hex(sha256(bytes.as_slice()).as_slice()))
    }

    /// Merges a write of another replica; whether it changed the map.
    pub fn merge_entry(&mut self, payload: &SetPayload) -> (changed: bool)
        requires
            old(self).wf(),
        ensures
            final(self).wf(),
            final(self)@ == merged(old(self)@, payload@),
            changed == wins(old(self)@, payload@),
    {
        let ghost m = old(self)@;
        let ghost write = payload@;
        let lamport = payload.ts.0;
        if self.lamport < lamport {
            self.lamport = lamport;
        }
        assert(self@ =~= (BoardModel { lamport: merged(m, write).lamport, ..m }));
        if let Some(current) = self.entry(payload.key.as_str()) {
            let newer = current.lamport < lamport || current.lamport == lamport && text_before(
                current.actor.as_str(),
                payload.ts.1.as_str(),
            );
            if !newer {
                assert(self@ =~= merged(m, write));
                return false;
            }
        }
        let entry = BoardEntry {
            value: payload.value.clone(),
            lamport,
            actor: payload.ts.1.clone(),
            deleted: payload.deleted,
        };
        self.put(payload.key.clone(), entry);
        assert(self@ =~= merged(m, write));
        true
    }

    /// Every entry, deleted ones too, as writes in the order of the keys.
    pub fn snapshot(&self) -> (out: Vec<SetPayload>)
        requires
            self.wf(),
        ensures
            out@.map_values(|p: SetPayload| p@) == listing(self@.entries),
    {
        let mut out: Vec<SetPayload> = Vec::new();
        let mut i: usize = 0;
        let ghost list = entry_views(self.entries@);
        proof {
            lemma_listing_unique(list, self@.entries);
        }
        while i < self.entries.len()
            invariant
                i <= self.entries@.len(),
                list == entry_views(self.entries@),
                out@.len() == i,
                forall|k: int| 0 <= k < i ==> (#[trigger] out@[k])@ == list[k],
            decreases self.entries@.len() - i,
        {
            out.push(self.entries[i].1.to_payload(self.entries[i].0.as_str()));
            i = i + 1;
        }
        assert(out@.map_values(|p: SetPayload| p@) =~= list);
        out
    }
}

/// Inserting an entry under a new key anywhere in a list inserts it in the map.
proof fn lemma_insert_map(
    list: Seq<(Seq<char>, EntryModel)>,
    i: int,
    key: Seq<char>,
    e: EntryModel,
)
    requires
        assoc::distinct(list),
        assoc::distinct(list.insert(i, (key, e))),
        0 <= i <= list.len(),
        !assoc::to_map(list).contains_key(key),
    ensures
        assoc::to_map(list.insert(i, (key, e))) == assoc::to_map(list).insert(key, e),
{
    let now = list.insert(i, (key, e));
    assoc::lemma_entry(now, i);
    assert(now[i] == (key, e));
    assert forall|k: Seq<char>|
        assoc::to_map(now).contains_key(k) == assoc::to_map(list).insert(key, e).contains_key(k) by {
        if assoc::to_map(now).contains_key(k) {
            let j = assoc::lemma_key(now, k);
            if j != i {
                let j0 = if j < i { j } else { j - 1 };
                assert(now[j] == list[j0]);
                assoc::lemma_entry(list, j0);
            }
        }
        if assoc::to_map(list).contains_key(k) {
            let j = assoc::lemma_key(list, k);
            let j1 = if j < i { j } else { j + 1 };
            assert(now[j1] == list[j]);
            assoc::lemma_entry(now, j1);
        }
    }
    assert forall|k: Seq<char>| assoc::to_map(now).contains_key(k) implies assoc::to_map(now)[k]
        == assoc::to_map(list).insert(key, e)[k] by {
        let j = assoc::lemma_key(now, k);
        if j != i {
            let j0 = if j < i { j } else { j - 1 };
            assert(now[j] == list[j0]);
            assoc::lemma_entry(list, j0);
        }
    }
    assert(assoc::to_map(now) =~= assoc::to_map(list).insert(key, e));
}

/// A message of another replica.
pub enum BoardMessage {
    /// One write.
    Write(SetPayload),
    /// The count of entries and the digest of a replica, as far as they were given.
    Digest(Option<u64>, Option<String>),
    /// A request for a snapshot.
    SyncReq,
    /// Every write that a replica holds.
    Snapshot(Vec<SetPayload>),
}

/// What is sent back for a message.
pub enum BoardReply {
    Nothing,
    SyncReq,
    Snapshot(Vec<SetPayload>),
}

/// What a message of another replica says.
pub enum BoardMessageModel {
    Write((Seq<char>, EntryModel)),
    Digest(Option<u64>, Option<Seq<char>>),
    SyncReq,
    Snapshot(Seq<(Seq<char>, EntryModel)>),
}

impl View for BoardMessage {
    type V = BoardMessageModel;

    open spec fn view(&self) -> BoardMessageModel {
        match self {
            BoardMessage::Write(write) => BoardMessageModel::Write(write@),
            BoardMessage::Digest(count, hash) => BoardMessageModel::Digest(
                *count,
                match hash {
                    Some(h) => Some(h@),
                    None => None,
                },
            ),
            BoardMessage::SyncReq => BoardMessageModel::SyncReq,
            BoardMessage::Snapshot(writes) => BoardMessageModel::Snapshot(writes_of(writes@)),
        }
    }
}

/// What a reply says, as the message that it is to the other replica.
impl View for BoardReply {
    type V = Option<BoardMessageModel>;

    open spec fn view(&self) -> Option<BoardMessageModel> {
        match self {
            BoardReply::Nothing => None,
            BoardReply::SyncReq => Some(BoardMessageModel::SyncReq),
            BoardReply::Snapshot(writes) => Some(
                BoardMessageModel::Snapshot(writes_of(writes@)),
            ),
        }
    }
}

/// The writes that a list of payloads says.
pub open spec fn writes_of(payloads: Seq<SetPayload>) -> Seq<(Seq<char>, EntryModel)> {
    payloads.map_values(|p: SetPayload| p@)
}

/// The change that a write makes.
pub open spec fn change_of(write: (Seq<char>, EntryModel)) -> (Seq<char>, Seq<char>, bool) {
    (write.0, write.1.value, write.1.deleted)
}

/// The replica after writes were merged one after the other.
pub open spec fn merged_all(m: BoardModel, writes: Seq<(Seq<char>, EntryModel)>) -> BoardModel
    decreases writes.len(),
{
    if writes.len() == 0 {
        m
    } else {
        merged(merged_all(m, writes.drop_last()), writes.last())
    }
}

/// The entries of two replicas, of each key the newer.
pub open spec fn newest(
    a: Map<Seq<char>, EntryModel>,
    b: Map<Seq<char>, EntryModel>,
) -> Map<Seq<char>, EntryModel> {
    Map::new(
        |k: Seq<char>| a.contains_key(k) || b.contains_key(k),
        |k: Seq<char>|
            if a.contains_key(k) && !(b.contains_key(k) && older(a[k], b[k])) {
                a[k]
            } else {
                b[k]
            },
    )
}

/// Whether no key stands in both with different writes that bear the same clock and writer.
pub open spec fn compatible(
    a: Map<Seq<char>, EntryModel>,
    b: Map<Seq<char>, EntryModel>,
) -> bool {
    forall|k: Seq<char>|
        #![trigger a.contains_key(k), b.contains_key(k)]
        a.contains_key(k) && b.contains_key(k) && a[k].lamport == b[k].lamport && a[k].actor
            == b[k].actor ==> a[k] == b[k]
}

proof fn lemma_merged_prefix(m: BoardModel, list: Seq<(Seq<char>, EntryModel)>, n: int)
    requires
        assoc::distinct(list),
        0 <= n <= list.len(),
    ensures
        assoc::distinct(list.take(n)),
        merged_all(m, list.take(n)).entries == newest(m.entries, assoc::to_map(list.take(n))),
    decreases n,
{
    if n == 0 {
        assoc::lemma_empty::<Seq<char>, EntryModel>();
        assert(list.take(0) =~= Seq::empty());
        assert(newest(m.entries, Map::empty()) =~= m.entries);
    } else {
        lemma_merged_prefix(m, list, n - 1);
        let front = list.take(n - 1);
        let (key, e) = list[n - 1];
        assert(list.take(n) =~= front.push((key, e)));
        assert(list.take(n).drop_last() =~= front);
        assert forall|i: int| 0 <= i < front.len() implies (#[trigger] front[i]).0 != key by {
            assert(list[i].0 != list[n - 1].0);
        }
        assoc::lemma_absent(front, key);
        assoc::lemma_push(front, key, e);
        assert(merged_all(m, list.take(n)).entries =~= newest(
            m.entries,
            assoc::to_map(list.take(n)),
        ));
    }
}

/// A snapshot brings a replica up to the newer of both for each key.
pub proof fn lemma_snapshot_merged(
    m: BoardModel,
    list: Seq<(Seq<char>, EntryModel)>,
    map: Map<Seq<char>, EntryModel>,
)
    requires
        lists(list, map),
    ensures
        merged_all(m, list).entries == newest(m.entries, map),
{
    lemma_sorted_distinct(list);
    lemma_merged_prefix(m, list, list.len() as int);
    assert(list.take(list.len() as int) =~= list);
}

/// Two replicas that have sent each other a snapshot hold the same entries, whether the second
/// was taken before the first was merged or after.
pub proof fn lemma_snapshots_converge(
    a: BoardModel,
    b: BoardModel,
    list_a: Seq<(Seq<char>, EntryModel)>,
    list_b: Seq<(Seq<char>, EntryModel)>,
    list_merged: Seq<(Seq<char>, EntryModel)>,
)
    requires
        lists(list_a, a.entries),
        lists(list_b, b.entries),
        lists(list_merged, merged_all(b, list_a).entries),
        compatible(a.entries, b.entries),
    ensures
        merged_all(a, list_b).entries == merged_all(b, list_a).entries,
        merged_all(a, list_merged).entries == merged_all(b, list_a).entries,
{
    lemma_snapshot_merged(a, list_b, b.entries);
    lemma_snapshot_merged(b, list_a, a.entries);
    lemma_snapshot_merged(a, list_merged, merged_all(b, list_a).entries);
    assert forall|k: Seq<char>| a.entries.contains_key(k) && b.entries.contains_key(k) implies {
        let (x, y) = (a.entries[k], b.entries[k]);
        (older(x, y) || older(y, x) || x == y) && !(older(x, y) && older(y, x))
    } by {
        order::lemma_text_total(a.entries[k].actor, b.entries[k].actor);
    }
    assert(newest(a.entries, b.entries) =~= newest(b.entries, a.entries));
    assert(newest(a.entries, newest(b.entries, a.entries)) =~= newest(b.entries, a.entries)) by {
        assert forall|k: Seq<char>| a.entries.contains_key(k) implies !older(
            a.entries[k],
            a.entries[k],
        ) by {
            order::lemma_text_irreflexive(a.entries[k].actor);
        }
    }
}

/// The changes that merging writes one after the other makes.
pub open spec fn changes_of(m: BoardModel, writes: Seq<(Seq<char>, EntryModel)>) -> Seq<
    (Seq<char>, Seq<char>, bool),
>
    decreases writes.len(),
{
    if writes.len() == 0 {
        Seq::empty()
    } else {
        let before = changes_of(m, writes.drop_last());
        if wins(merged_all(m, writes.drop_last()), writes.last()) {
            before.push(change_of(writes.last()))
        } else {
            before
        }
    }
}

/// Whether a digest that came is that of the replica.
pub open spec fn digest_matches(m: BoardModel, count: Option<u64>, hash: Option<Seq<char>>) -> bool {
    let list = listing(m.entries);
    count == Some(list.len() as u64) && hash == Some(
        hex::hex_of(primitives::sha256_of(digest_bytes(list))),
    )
}

/// A snapshot brings a replica up to date: after it was merged, the replica has every key of
/// the other, and no older version of it.
pub proof fn lemma_snapshot_catches_up(
    m: BoardModel,
    writes: Seq<(Seq<char>, EntryModel)>,
    i: int,
)
    requires
        0 <= i < writes.len(),
    ensures
        merged_all(m, writes).entries.contains_key(writes[i].0),
        !older(merged_all(m, writes).entries[writes[i].0], writes[i].1),
    decreases writes.len(),
{
    let init = writes.drop_last();
    let before = merged_all(m, init);
    let key = writes[i].0;
    let e = writes[i].1;
    order::lemma_text_irreflexive(e.actor);
    if i < writes.len() - 1 {
        lemma_snapshot_catches_up(m, init, i);
        assert(init[i] == writes[i]);
        lemma_merge_monotonic(before, writes.last(), key);
        let was = before.entries[key];
        let now = merged(before, writes.last()).entries[key];
        if older(now, e) && now != was {
            if order::text_less(was.actor, now.actor) && order::text_less(now.actor, e.actor) {
                order::lemma_text_transitive(was.actor, now.actor, e.actor);
            }
        }
    }
}

/// One replica as it is driven by packets: the map, where local writes go, the newest
/// sequence number of each peer, and the snapshots that arrive in chunks.
pub struct BoardNode {
    core: BoardCore,
    destinations: Vec<u64>,
    watermark: HashMap<u64, u64>,
    reassemblers: HashMap<u64, Reassembler>,
    clock: u64,
}

/// The state of a replica as it is driven by packets.
#[verifier::ext_equal]
pub struct NodeModel {
    pub core: BoardModel,
    pub destinations: Seq<u64>,
    pub marks: Map<u64, u64>,
    pub partials: Map<u64, Seq<PartialModel>>,
    /// The latest time at which a chunk came.
    pub clock: u64,
}

impl View for BoardNode {
    type V = NodeModel;

    closed spec fn view(&self) -> NodeModel {
        NodeModel {
            core: self.core@,
            destinations: self.destinations@,
            marks: self.watermark@,
            partials: self.reassemblers@.map_values(|r: Reassembler| r@),
            clock: self.clock,
        }
    }
}

/// What is held in chunks of a peer.
pub open spec fn partials_from(m: NodeModel, from: u64) -> Seq<PartialModel> {
    if m.partials.contains_key(from) {
        m.partials[from]
    } else {
        Seq::empty()
    }
}

/// Whether a payload is a chunk of a snapshot: it starts with the envelope's version.
pub open spec fn is_chunk(payload: Seq<u8>) -> bool {
    payload.len() > 0 && payload[0] == fragment::VERSION
}

/// The later of two times.
pub open spec fn later(a: u64, b: u64) -> u64 {
    if a < b {
        b
    } else {
        a
    }
}

/// What a packet that comes at the time `now` leaves behind, and the message text that it
/// gives, if any: a replay gives none, a chunk gives one when it completes it in time, any
/// other payload is one.
pub open spec fn accepted(m: NodeModel, from: u64, seq: u64, payload: Seq<u8>, now: u64) -> (
    NodeModel,
    Option<Seq<u8>>,
) {
    let marks = replay::marked(m.marks, from, seq);
    if replay::is_stale(m.marks, from, seq) {
        (m, None)
    } else if is_chunk(payload) {
        let clock = later(m.clock, now);
        let held = fragment::advanced(partials_from(m, from), clock);
        let (partials, out) = fragment::fed(held, payload, clock);
        (NodeModel { marks, partials: m.partials.insert(from, partials), clock, ..m }, out)
    } else {
        (NodeModel { marks, ..m }, Some(payload))
    }
}

/// The frames that carry the text of a snapshot, under the given id.
pub open spec fn snapshot_bytes(text: Seq<u8>, id: Seq<u8>) -> Seq<Seq<u8>> {
    fragment::chunks_of(text, MAX_CHUNK_PAYLOAD as int, id).map_values(
        |c: ChunkModel| fragment::chunk_bytes(c),
    )
}

/// The frames that carry the text of a snapshot, under an id drawn at random. It rides in the
/// envelope even where it would fit into one frame.
pub fn snapshot_frames(text: &[u8]) -> (out: Vec<Vec<u8>>)
    requires
        pieces::piece_count(text@.len() as int, MAX_CHUNK_PAYLOAD as int) <= 0xFFFF,
    ensures
        exists|id: [u8; 16]| octets::views(out@) == #[trigger] snapshot_bytes(text@, id@),
{
    let id = random16();
    let out = fragment(text, MAX_CHUNK_PAYLOAD, &id);
    assert(octets::views(out@) == snapshot_bytes(text@, id@));
    out
}

/// What packets from one peer leave behind that are numbered one after the other from `first`
/// on and come at the given times, and what each of them gave.
pub open spec fn accepted_all(
    m: NodeModel,
    from: u64,
    first: int,
    payloads: Seq<Seq<u8>>,
    times: Seq<u64>,
) -> (NodeModel, Seq<Option<Seq<u8>>>)
    decreases payloads.len(),
{
    if payloads.len() == 0 {
        (m, Seq::empty())
    } else {
        let before = accepted_all(m, from, first, payloads.drop_last(), times);
        let (after, out) = accepted(
            before.0,
            from,
            (first + payloads.len() - 1) as u64,
            payloads.last(),
            times[payloads.len() - 1],
        );
        (after, before.1.push(out))
    }
}

/// Whether the first `n` of the given times do not go back, nor lie before `start`.
pub open spec fn rising(start: u64, times: Seq<u64>, n: nat) -> bool {
    &&& forall|i: int| 0 <= i < n ==> start <= #[trigger] times[i]
    &&& forall|i: int, j: int| 0 <= i < j < n ==> #[trigger] times[i] <= #[trigger] times[j]
}

proof fn lemma_chunks_accepted(
    m: NodeModel,
    from: u64,
    first: int,
    payloads: Seq<Seq<u8>>,
    times: Seq<u64>,
)
    requires
        rising(m.clock, times, payloads.len()),
        0 <= first,
        first + payloads.len() <= u64::MAX,
        !replay::is_stale(m.marks, from, first as u64),
        forall|i: int| 0 <= i < payloads.len() ==> is_chunk(#[trigger] payloads[i]),
    ensures
        ({
            let (after, outs) = accepted_all(m, from, first, payloads, times);
            let fed = fragment::fed_all(partials_from(m, from), payloads, times);
            &&& after.clock == if payloads.len() == 0 {
                m.clock
            } else {
                times[payloads.len() - 1]
            }
            &&& outs == fed.1
            &&& partials_from(after, from) == fed.0
            &&& !replay::is_stale(after.marks, from, (first + payloads.len()) as u64)
        }),
    decreases payloads.len(),
{
    if payloads.len() > 0 {
        let front = payloads.drop_last();
        assert forall|i: int| 0 <= i < front.len() implies is_chunk(#[trigger] front[i]) by {
            assert(front[i] == payloads[i]);
        }
        lemma_chunks_accepted(m, from, first, front, times);
        assert(is_chunk(payloads.last()));
    }
}

/// The text of a snapshot comes out whole, and only with its last frame, at a peer that gets
/// the frames in the order in which they were sent, none later than the first may wait for it.
pub proof fn lemma_snapshot_arrives(
    m: NodeModel,
    from: u64,
    first: int,
    text: Seq<u8>,
    id: Seq<u8>,
    times: Seq<u64>,
)
    requires
        rising(m.clock, times, snapshot_bytes(text, id).len()),
        fragment::in_time(times, snapshot_bytes(text, id).len()),
        fragment::partials_wf(partials_from(m, from)),
        fragment::slot(partials_from(m, from), id) == partials_from(m, from).len(),
        id.len() == 16,
        snapshot_bytes(text, id).len() <= 0xFFFF,
        0 <= first,
        first + snapshot_bytes(text, id).len() <= u64::MAX,
        !replay::is_stale(m.marks, from, first as u64),
    ensures
        ({
            let outs = accepted_all(m, from, first, snapshot_bytes(text, id), times).1;
            &&& outs.len() == snapshot_bytes(text, id).len()
            &&& forall|j: int| 0 <= j < outs.len() - 1 ==> (#[trigger] outs[j]) is None
            &&& outs.last() == Some(text)
        }),
{
    let frames = snapshot_bytes(text, id);
    let order = Seq::new(frames.len(), |i: int| i);
    assert(fragment::chunks_in_order(text, MAX_CHUNK_PAYLOAD as int, id, order) =~= frames);
    assert forall|i: int| 0 <= i < frames.len() implies is_chunk(#[trigger] frames[i]) by {}
    if text.len() > 0 {
        pieces::lemma_piece_count_positive(text.len() as int, MAX_CHUNK_PAYLOAD as int);
    }
    pieces::lemma_once_each(order);
    lemma_chunks_accepted(m, from, first, frames, times);
    fragment::lemma_fragments_reassemble(
        partials_from(m, from),
        text,
        MAX_CHUNK_PAYLOAD as int,
        id,
        order,
        times,
    );
}

/// What a message makes of the map, the changes that it makes, and what is sent back.
pub open spec fn message_taken(m: BoardModel, message: BoardMessageModel) -> (
    BoardModel,
    Seq<(Seq<char>, Seq<char>, bool)>,
    Option<BoardMessageModel>,
) {
    match message {
        BoardMessageModel::Write(write) => (merged(m, write), changes_of(m, seq![write]), None),
        BoardMessageModel::Snapshot(writes) => (merged_all(m, writes), changes_of(m, writes), None),
        BoardMessageModel::Digest(count, hash) => (
            m,
            Seq::empty(),
            if digest_matches(m, count, hash) {
                None
            } else {
                Some(BoardMessageModel::SyncReq)
            },
        ),
        BoardMessageModel::SyncReq => (
            m,
            Seq::empty(),
            Some(BoardMessageModel::Snapshot(listing(m.entries))),
        ),
    }
}

/// The peers that local writes go to, with one more.
pub open spec fn with_destination(list: Seq<u64>, peer: u64) -> Seq<u64> {
    if list.contains(peer) {
        list
    } else {
        list.push(peer)
    }
}

/// The peers that local writes go to, without one.
pub open spec fn without_destination(list: Seq<u64>, peer: u64) -> Seq<u64> {
    if list.contains(peer) {
        list.remove(list.index_of(peer))
    } else {
        list
    }
}

/// A peer that is added is among those that writes go to, one that is taken away is not, and every
/// other is exactly if it was before; none is twice.
pub proof fn lemma_destinations_kept(list: Seq<u64>, peer: u64, other: u64)
    requires
        list.no_duplicates(),
    ensures
        with_destination(list, peer).contains(other) <==> other == peer || list.contains(other),
        without_destination(list, peer).contains(other) <==> other != peer && list.contains(other),
        with_destination(list, peer).no_duplicates(),
        without_destination(list, peer).no_duplicates(),
{
    let with = with_destination(list, peer);
    let without = without_destination(list, peer);
    if !list.contains(peer) {
        assert(with[with.len() - 1] == peer);
        if list.contains(other) {
            assert(with[list.index_of(other)] == other);
        }
        if with.contains(other) && other != peer {
            let i = with.index_of(other);
            assert(list[i] == other);
        }
    } else {
        let k = list.index_of(peer);
        if list.contains(other) && other != peer {
            let i = list.index_of(other);
            if i < k {
                assert(without[i] == other);
            } else {
                assert(without[i - 1] == other);
            }
        }
        if without.contains(other) {
            let i = without.index_of(other);
            let j = if i < k {
                i
            } else {
                i + 1
            };
            assert(list[j] == other);
            assert(list[k] == peer);
        }
        assert forall|a: int, b: int|
            0 <= a < without.len() && 0 <= b < without.len() && a != b implies without[a]
            != without[b] by {
            let c = if a < k {
                a
            } else {
                a + 1
            };
            let d = if b < k {
                b
            } else {
                b + 1
            };
            assert(without[a] == list[c] && without[b] == list[d]);
        }
    }
}

/// A replica after a peer has restarted.
pub open spec fn rebased(m: NodeModel, peer: u64) -> NodeModel {
    NodeModel { marks: m.marks.remove(peer), partials: m.partials.remove(peer), ..m }
}

/// A peer that has restarted is heard whatever number it starts at, and nothing that it had sent in
/// part is held any more; what is known of other peers, and the map, stay as they were.
pub proof fn lemma_rebase_forgets_one_peer(
    m: NodeModel,
    peer: u64,
    seq: u64,
    payload: Seq<u8>,
    now: u64,
    other: u64,
)
    requires
        other != peer,
    ensures
        ({
            let r = rebased(m, peer);
            &&& payload.len() == 0 || payload[0] != 1 ==> accepted(r, peer, seq, payload, now).1
                == Some(payload)
            &&& partials_from(r, peer).len() == 0
            &&& r.marks.contains_key(other) == m.marks.contains_key(other)
            &&& m.marks.contains_key(other) ==> r.marks[other] == m.marks[other]
            &&& partials_from(r, other) == partials_from(m, other)
            &&& r.core == m.core
            &&& r.destinations == m.destinations
        }),
{
}

impl BoardNode {
    /// What holds of every replica.
    pub closed spec fn wf(&self) -> bool {
        &&& self.core.wf()
        &&& self.destinations@.no_duplicates()
        &&& forall|k: u64|
            self.reassemblers@.contains_key(k) ==> (#[trigger] self.reassemblers@[k]).wf()
                && self.reassemblers@[k].clock() <= self.clock
    }

    /// An empty replica of the writer `actor`.
    pub fn new(actor: String) -> (r: Self)
        ensures
            r.wf(),
            r@ == (NodeModel {
                core: BoardModel { actor: actor@, entries: Map::empty(), lamport: 0 },
                destinations: Seq::empty(),
                marks: Map::empty(),
                partials: Map::empty(),
                clock: 0,
            }),
    {
        let r = BoardNode {
            core: BoardCore::new(actor),
            destinations: Vec::new(),
            watermark: HashMap::new(),
            reassemblers: HashMap::new(),
            clock: 0,
        };
        assert(r@.partials =~= Map::empty());
        r
    }

    /// The map of the replica, to be read.
    pub fn replica(&self) -> (r: &BoardCore)
        requires
            self.wf(),
        ensures
            r.wf(),
            r@ == self@.core,
    {
        &self.core
    }

    /// Writes `value` under `key`; the write is to be sent to the other replicas.
    pub fn set(&mut self, key: &str, value: String) -> (r: SetPayload)
        requires
            old(self).wf(),
            old(self)@.core.lamport < u64::MAX,
        ensures
            final(self).wf(),
            final(self)@ == (NodeModel {
                core: written(old(self)@.core, key@, value@, false).0,
                ..old(self)@
            }),
            r@ == written(old(self)@.core, key@, value@, false).1,
    {
        self.core.set(key, value)
    }

    /// Deletes `key`; the write is to be sent to the other replicas.
    pub fn delete(&mut self, key: &str) -> (r: SetPayload)
        requires
            old(self).wf(),
            old(self)@.core.lamport < u64::MAX,
        ensures
            final(self).wf(),
            final(self)@ == (NodeModel {
                core: written(old(self)@.core, key@, null_text(), true).0,
                ..old(self)@
            }),
            r@ == written(old(self)@.core, key@, null_text(), true).1,
    {
        self.core.delete(key)
    }

    /// The peers that local writes go to.
    pub fn destinations(&self) -> (r: &Vec<u64>)
        ensures
            r@ == self@.destinations,
    {
        &self.destinations
    }

    fn destination(&self, peer: u64) -> (r: Option<usize>)
        ensures
            r matches Some(i) ==> i < self@.destinations.len() && self@.destinations[i as int] == peer,
            r is None <==> !self@.destinations.contains(peer),
    {
        let mut i: usize = 0;
        while i < self.destinations.len()
            invariant
                i <= self.destinations@.len(),
                forall|k: int| 0 <= k < i ==> self.destinations@[k] != peer,
            decreases self.destinations@.len() - i,
        {
            if self.destinations[i] == peer {
                return Some(i);
            }
            i = i + 1;
        }
        None
    }

    /// Adds a peer that local writes go to, once.
    pub fn add_destination(&mut self, peer: u64)
        requires
            old(self).wf(),
        ensures
            final(self).wf(),
            final(self)@ == (NodeModel {
                destinations: if old(self)@.destinations.contains(peer) {
                    old(self)@.destinations
                } else {
                    old(self)@.destinations.push(peer)
                },
                ..old(self)@
            }),
            final(self)@.destinations == with_destination(old(self)@.destinations, peer),
    {
        if self.destination(peer).is_none() {
            self.destinations.push(peer);
        }
    }

    /// Stops sending local writes to a peer.
    pub fn remove_destination(&mut self, peer: u64)
        requires
            old(self).wf(),
        ensures
            final(self).wf(),
            !final(self)@.destinations.contains(peer),
            final(self)@ == (NodeModel {
                destinations: if old(self)@.destinations.contains(peer) {
                    old(self)@.destinations.remove(old(self)@.destinations.index_of(peer))
                } else {
                    old(self)@.destinations
                },
                ..old(self)@
            }),
            final(self)@.destinations == without_destination(old(self)@.destinations, peer),
    {
        if let Some(i) = self.destination(peer) {
            let ghost list = self.destinations@;
            self.destinations.remove(i);
            proof {
                let j = list.index_of(peer);
                assert(list.contains(peer));
                assert(j == i);
                if self.destinations@.contains(peer) {
                    let k = self.destinations@.index_of(peer);
                    let k0 = if k < i {
                        k
                    } else {
                        k + 1
                    };
                    assert(list[k0] == peer);
                }
            }
        }
    }

    /// Forgets what was received of a peer that has restarted.
    pub fn rebase(&mut self, peer: u64)
        requires
            old(self).wf(),
        ensures
            final(self).wf(),
            final(self)@ == (NodeModel {
                marks: old(self)@.marks.remove(peer),
                partials: old(self)@.partials.remove(peer),
                ..old(self)@
            }),
            final(self)@ == rebased(old(self)@, peer),
    {
        forget_peer(&mut self.watermark, peer);
        self.reassemblers.remove(&peer);
        assert(self@.partials =~= old(self)@.partials.remove(peer));
    }

    /// Takes a packet of the peer `from`, numbered `seq`, at the time `now`. Gives the text of
    /// the message that it holds or completes; a replay gives none.
    pub fn accept(&mut self, from: u64, seq: u64, payload: Vec<u8>, now: u64) -> (r: Option<
        Vec<u8>,
    >)
        requires
            old(self).wf(),
        ensures
            final(self).wf(),
            final(self)@ == accepted(old(self)@, from, seq, payload@, now).0,
            r is Some <==> accepted(old(self)@, from, seq, payload@, now).1 is Some,
            r matches Some(text) ==> accepted(old(self)@, from, seq, payload@, now).1 == Some(text@),
    {
        let ghost m = old(self)@;
        if replay_stale(&mut self.watermark, from, seq) {
            assert(self@ =~= m);
            return None;
        }
        if payload.len() > 0 && payload[0] == fragment::VERSION {
            if self.clock < now {
                self.clock = now;
            }
            let mut reassembler = match self.reassemblers.remove(&from) {
                Some(r) => r,
                None => Reassembler::new(),
            };
            assert(reassembler@ == partials_from(m, from));
            reassembler.advance(self.clock);
            let out = reassembler.feed(payload.as_slice());
            self.reassemblers.insert(from, reassembler);
            assert(self@.partials =~= m.partials.insert(from, reassembler@));
            out
        } else {
            Some(payload)
        }
    }

    /// Takes a message: what changed in the map, and what is to be sent back. A write is
    /// merged; a digest that differs is answered with a request for a snapshot; such a
    /// request is answered with a snapshot; of a snapshot every write is merged.
    pub fn handle(&mut self, message: BoardMessage) -> (r: (Vec<BoardChange>, BoardReply))
        requires
            old(self).wf(),
        ensures
            final(self).wf(),
            final(self)@ == (NodeModel { core: final(self)@.core, ..old(self)@ }),
            message matches BoardMessage::Write(write) ==> {
                &&& final(self)@.core == merged(old(self)@.core, write@)
                &&& r.0@.map_values(|c: BoardChange| c@) == changes_of(old(self)@.core, seq![write@])
                &&& r.1 is Nothing
            },
            message matches BoardMessage::Snapshot(writes) ==> {
                &&& final(self)@.core == merged_all(old(self)@.core, writes_of(writes@))
                &&& r.0@.map_values(|c: BoardChange| c@) == changes_of(
                    old(self)@.core,
                    writes_of(writes@),
                )
                &&& r.1 is Nothing
            },
            message matches BoardMessage::Digest(count, hash) ==> {
                &&& final(self)@.core == old(self)@.core
                &&& r.0@.len() == 0
                &&& r.1 == if digest_matches(
                    old(self)@.core,
                    count,
                    match hash {
                        Some(h) => Some(h@),
                        None => None,
                    },
                ) {
                    BoardReply::Nothing
                } else {
                    BoardReply::SyncReq
                }
            },
            message is SyncReq ==> {
                &&& final(self)@.core == old(self)@.core
                &&& r.0@.len() == 0
                &&& r.1 matches BoardReply::Snapshot(writes) && writes_of(writes@) == listing(
                    old(self)@.core.entries,
                )
            },
            (final(self)@.core, r.0@.map_values(|c: BoardChange| c@), r.1@) == message_taken(
                old(self)@.core,
                message@,
            ),
    {
        proof {
            let none: Seq<BoardChange> = Seq::empty();
            assert(none.map_values(|c: BoardChange| c@) =~= Seq::empty());
        }
        match message {
            BoardMessage::Write(write) => {
                let mut writes: Vec<SetPayload> = Vec::new();
                let ghost one = write@;
                writes.push(write);
                let changes = self.merge_all(writes);
                proof {
                    assert(writes_of(writes@) =~= seq![one]);
                    assert(seq![one].drop_last() =~= Seq::empty());
                    reveal_with_fuel(merged_all, 2);
                }
                (changes, BoardReply::Nothing)
            },
            BoardMessage::Snapshot(writes) => {
                let changes = self.merge_all(writes);
                (changes, BoardReply::Nothing)
            },
            BoardMessage::Digest(count, hash) => {
                let (my_count, my_hash) = self.core.digest();
                let same_count = match count {
                    Some(c) => c == my_count,
                    None => false,
                };
                let same_hash = match hash {
                    Some(h) => h == my_hash,
                    None => false,
                };
                if same_count && same_hash {
                    (Vec::new(), BoardReply::Nothing)
                } else {
                    (Vec::new(), BoardReply::SyncReq)
                }
            },
            BoardMessage::SyncReq => {
                let writes = self.core.snapshot();
                (Vec::new(), BoardReply::Snapshot(writes))
            },
        }
    }

    fn merge_all(&mut self, writes: Vec<SetPayload>) -> (changes: Vec<BoardChange>)
        requires
            old(self).wf(),
        ensures
            final(self).wf(),
            final(self)@ == (NodeModel {
                core: merged_all(old(self)@.core, writes_of(writes@)),
                ..old(self)@
            }),
            changes@.map_values(|c: BoardChange| c@) == changes_of(
                old(self)@.core,
                writes_of(writes@),
            ),
    {
        let ghost m = old(self)@.core;
        let ghost all = writes_of(writes@);
        let ghost view = |c: BoardChange| c@;
        let mut changes: Vec<BoardChange> = Vec::new();
        let mut i: usize = 0;
        assert(all.take(0) =~= Seq::empty());
        assert(changes@.map_values(view) =~= Seq::empty());
        while i < writes.len()
            invariant
                self.wf(),
                i <= writes@.len(),
                m == old(self)@.core,
                all == writes_of(writes@),
                view == (|c: BoardChange| c@),
                self@ == (NodeModel { core: merged_all(m, all.take(i as int)), ..old(self)@ }),
                changes@.map_values(view) == changes_of(m, all.take(i as int)),
            decreases writes@.len() - i,
        {
            let ghost before = changes@;
            assert(all.take(i + 1).drop_last() =~= all.take(i as int));
            assert(all.take(i + 1).last() == writes@[i as int]@);
            if self.core.merge_entry(&writes[i]) {
                changes.push(
                    BoardChange {
                        key: writes[i].key.clone(),
                        value: writes[i].value.clone(),
                        deleted: writes[i].deleted,
                    },
                );
                assert(changes@.map_values(view) =~= before.map_values(view).push(
                    change_of(writes@[i as int]@),
                ));
            }
            i = i + 1;
        }
        assert(all.take(i as int) =~= all);
        changes
    }
}

/// Of two writes of a key the one with the greater clock stays, whichever was there first; of
/// two with the same clock the one of the writer that comes later. Other keys are untouched.
pub proof fn lemma_greater_version_stays(
    m: BoardModel,
    write: (Seq<char>, EntryModel),
    k: Seq<char>,
)
    ensures
        k != write.0 ==> merged(m, write).entries.contains_key(k) == m.entries.contains_key(k) && (
        m.entries.contains_key(k) ==> merged(m, write).entries[k] == m.entries[k]),
        merged(m, write).entries.contains_key(write.0),
        merged(m, write).entries[write.0] == if !m.entries.contains_key(write.0) {
            write.1
        } else if m.entries[write.0].lamport < write.1.lamport {
            write.1
        } else if m.entries[write.0].lamport > write.1.lamport {
            m.entries[write.0]
        } else if order::text_less(m.entries[write.0].actor, write.1.actor) {
            write.1
        } else {
            m.entries[write.0]
        },
        merged(m, write).lamport >= m.lamport,
        merged(m, write).lamport >= write.1.lamport,
        merged(m, write).lamport == m.lamport || merged(m, write).lamport == write.1.lamport,
        merged(m, write).actor == m.actor,
{
}

/// A local write stands under its key, bears the writer's name and a clock greater than any that
/// the replica has seen, and leaves every other key as it was.
pub proof fn lemma_local_write_stands(
    m: BoardModel,
    key: Seq<char>,
    value: Seq<char>,
    deleted: bool,
    k: Seq<char>,
)
    requires
        m.wf(),
        m.lamport < u64::MAX,
    ensures
        ({
            let (after, write) = written(m, key, value, deleted);
            &&& write.0 == key
            &&& write.1.value == value
            &&& write.1.deleted == deleted
            &&& write.1.actor == m.actor
            &&& write.1.lamport > m.lamport
            &&& m.entries.contains_key(k) ==> write.1.lamport > m.entries[k].lamport
            &&& after.entries.contains_key(key) && after.entries[key] == write.1
            &&& after.lamport == write.1.lamport
            &&& after.actor == m.actor
            &&& k != key ==> after.entries.contains_key(k) == m.entries.contains_key(k) && (
            m.entries.contains_key(k) ==> after.entries[k] == m.entries[k])
        }),
{
}

proof fn lemma_live_in(list: Seq<(Seq<char>, EntryModel)>, i: int)
    requires
        0 <= i < live(list).len(),
    ensures
        exists|j: int|
            0 <= j < list.len() && live(list)[i] == ((#[trigger] list[j]).0, list[j].1.value)
                && !list[j].1.deleted,
    decreases list.len(),
{
    let front = list.drop_last();
    if list.last().1.deleted || i < live(front).len() {
        lemma_live_in(front, i);
        let j = choose|j: int|
            0 <= j < front.len() && live(front)[i] == ((#[trigger] front[j]).0, front[j].1.value)
                && !front[j].1.deleted;
        assert(list[j] == front[j]);
    } else {
        assert(list[list.len() - 1] == list.last());
    }
}

proof fn lemma_live_has(list: Seq<(Seq<char>, EntryModel)>, j: int)
    requires
        0 <= j < list.len(),
        !list[j].1.deleted,
    ensures
        live(list).contains((list[j].0, list[j].1.value)),
    decreases list.len(),
{
    let front = list.drop_last();
    let item = (list[j].0, list[j].1.value);
    if j < front.len() {
        lemma_live_has(front, j);
        let i = live(front).index_of(item);
        assert(live(list)[i] == item);
    } else {
        assert(live(list)[live(list).len() - 1] == item);
    }
}

/// What is listed of a replica is exactly what it holds and was not deleted.
pub proof fn lemma_items_exact(
    list: Seq<(Seq<char>, EntryModel)>,
    map: Map<Seq<char>, EntryModel>,
    k: Seq<char>,
    v: Seq<char>,
)
    requires
        lists(list, map),
    ensures
        live(list).contains((k, v)) <==> map.contains_key(k) && !map[k].deleted && map[k].value
            == v,
{
    lemma_sorted_distinct(list);
    if live(list).contains((k, v)) {
        let i = live(list).index_of((k, v));
        lemma_live_in(list, i);
        let j = choose|j: int|
            0 <= j < list.len() && live(list)[i] == ((#[trigger] list[j]).0, list[j].1.value)
                && !list[j].1.deleted;
        assoc::lemma_entry(list, j);
    }
    if map.contains_key(k) && !map[k].deleted && map[k].value == v {
        let j = assoc::lemma_key(list, k);
        lemma_live_has(list, j);
    }
}

/// A replica's listing has as many entries as the replica has keys.
pub proof fn lemma_listing_count(
    list: Seq<(Seq<char>, EntryModel)>,
    map: Map<Seq<char>, EntryModel>,
)
    requires
        lists(list, map),
    ensures
        map.dom().finite(),
        map.dom().len() == list.len(),
{
    lemma_sorted_distinct(list);
    let names = list.map_values(|p: (Seq<char>, EntryModel)| p.0);
    assert(names.no_duplicates()) by {
        assert forall|i: int, j: int| 0 <= i < names.len() && 0 <= j < names.len() && i != j implies names[i]
            != names[j] by {
            assert(names[i] == list[i].0 && names[j] == list[j].0);
        }
    }
    names.unique_seq_to_set();
    assert forall|k: Seq<char>| names.to_set().contains(k) <==> map.dom().contains(k) by {
        if names.contains(k) {
            let i = names.index_of(k);
            assert(list[i].0 == k);
            assoc::lemma_entry(list, i);
        }
        if map.contains_key(k) {
            let i = assoc::lemma_key(list, k);
            assert(names[i] == k);
        }
    }
    assert(names.to_set() =~= map.dom());
}

/// The listings of replicas with the same keys name the same key in each place.
proof fn lemma_same_keys(
    a: Seq<(Seq<char>, EntryModel)>,
    b: Seq<(Seq<char>, EntryModel)>,
    map_a: Map<Seq<char>, EntryModel>,
    map_b: Map<Seq<char>, EntryModel>,
)
    requires
        lists(a, map_a),
        lists(b, map_b),
        map_a.dom() == map_b.dom(),
    ensures
        a.len() == b.len(),
        forall|i: int| 0 <= i < a.len() ==> (#[trigger] a[i]).0 == b[i].0,
{
    lemma_sorted_distinct(a);
    lemma_sorted_distinct(b);
    // `b` with the entries of `a`.
    let c = Seq::new(b.len(), |i: int| (b[i].0, map_a[b[i].0]));
    assert forall|i: int, j: int| 0 <= i < j < c.len() implies order::text_less(
        (#[trigger] c[i]).0,
        (#[trigger] c[j]).0,
    ) by {
        assert(order::text_less(b[i].0, b[j].0));
    }
    lemma_sorted_distinct(c);
    assert forall|k: Seq<char>| assoc::to_map(c).contains_key(k) == map_a.contains_key(k) by {
        if assoc::to_map(c).contains_key(k) {
            let i = assoc::lemma_key(c, k);
            assoc::lemma_entry(b, i);
            assert(map_b.dom().contains(k));
            assert(map_a.dom().contains(k));
        }
        if map_a.contains_key(k) {
            assert(map_a.dom().contains(k));
            assert(map_b.dom().contains(k));
            let i = assoc::lemma_key(b, k);
            assoc::lemma_entry(c, i);
        }
    }
    assert forall|k: Seq<char>| assoc::to_map(c).contains_key(k) implies assoc::to_map(c)[k]
        == map_a[k] by {
        let i = assoc::lemma_key(c, k);
    }
    assert(assoc::to_map(c) =~= map_a);
    lemma_listing_unique(a, map_a);
    lemma_listing_unique(c, map_a);
}

proof fn lemma_digest_add(a: Seq<(Seq<char>, EntryModel)>, b: Seq<(Seq<char>, EntryModel)>)
    ensures
        digest_bytes(a + b) == digest_bytes(a) + digest_bytes(b),
    decreases b.len(),
{
    if b.len() == 0 {
        assert(a + b =~= a);
        assert(digest_bytes(a) + digest_bytes(b) =~= digest_bytes(a));
    } else {
        lemma_digest_add(a, b.drop_last());
        assert((a + b).drop_last() =~= a + b.drop_last());
        assert(digest_bytes(a + b) =~= digest_bytes(a) + digest_bytes(b));
    }
}

/// What stands behind the key in the digest of one entry.
spec fn version_bytes(e: EntryModel) -> Seq<u8> {
    octets::be64(e.lamport) + vstd::utf8::encode_utf8(e.actor) + seq![
        if e.deleted {
            1u8
        } else {
            0u8
        },
    ]
}

proof fn lemma_digest_one(key: Seq<char>, e: EntryModel)
    ensures
        digest_bytes(seq![(key, e)]) == vstd::utf8::encode_utf8(key) + version_bytes(e),
{
    let one = seq![(key, e)];
    assert(one.drop_last() =~= Seq::empty());
    assert(digest_bytes(one.drop_last()) =~= Seq::empty());
    assert(digest_bytes(one) =~= vstd::utf8::encode_utf8(key) + version_bytes(e));
}

proof fn lemma_digest_front(list: Seq<(Seq<char>, EntryModel)>)
    requires
        list.len() > 0,
    ensures
        digest_bytes(list) == vstd::utf8::encode_utf8(list[0].0) + version_bytes(list[0].1)
            + digest_bytes(list.skip(1)),
{
    assert(list =~= seq![list[0]] + list.skip(1));
    lemma_digest_add(seq![list[0]], list.skip(1));
    lemma_digest_one(list[0].0, list[0].1);
    assert(seq![list[0]] =~= seq![(list[0].0, list[0].1)]);
}

/// Whether a name holds no character below U+0002, which a mark of deletion looks like.
pub open spec fn is_plain(name: Seq<char>) -> bool {
    forall|i: int| 0 <= i < name.len() ==> (#[trigger] name[i]) as u32 >= 2
}

proof fn lemma_scalar_plain(v: u32)
    requires
        vstd::utf8::is_scalar(v),
        v >= 2,
    ensures
        forall|i: int|
            0 <= i < vstd::utf8::encode_scalar(v).len() ==> #[trigger] vstd::utf8::encode_scalar(
                v,
            )[i] >= 2,
{
    assert(v <= 0x7F && v >= 2 ==> (v & 0x7F) as u8 >= 2) by (bit_vector);
    assert((0xC0u8 | ((v >> 6) & 0x1F) as u8) >= 2 && (0xE0u8 | ((v >> 12) & 0x0F) as u8) >= 2 && (
    0xF0u8 | ((v >> 18) & 0x7) as u8) >= 2 && (0x80u8 | (v & 0x3F) as u8) >= 2 && (0x80u8 | ((v
        >> 6) & 0x3F) as u8) >= 2 && (0x80u8 | ((v >> 12) & 0x3F) as u8) >= 2) by (bit_vector);
}

proof fn lemma_plain_bytes(name: Seq<char>)
    requires
        is_plain(name),
    ensures
        forall|i: int|
            0 <= i < vstd::utf8::encode_utf8(name).len() ==> #[trigger] vstd::utf8::encode_utf8(
                name,
            )[i] >= 2,
    decreases name.len(),
{
    if name.len() > 0 {
        let rest = name.drop_first();
        assert(is_plain(rest)) by {
            assert forall|i: int| 0 <= i < rest.len() implies (#[trigger] rest[i]) as u32 >= 2 by {
                assert(rest[i] == name[i + 1]);
            }
        }
        lemma_plain_bytes(rest);
        vstd::utf8::char_is_scalar(name[0]);
        assert(name[0] as u32 >= 2);
        lemma_scalar_plain(name[0] as u32);
        let first = vstd::utf8::encode_scalar(name[0] as u32);
        let all = vstd::utf8::encode_utf8(name);
        assert forall|i: int| 0 <= i < all.len() implies #[trigger] all[i] >= 2 by {
            if i < first.len() {
                assert(all[i] == first[i]);
            } else {
                assert(all[i] == vstd::utf8::encode_utf8(rest)[i - first.len()]);
            }
        }
    }
}

proof fn lemma_same_name(a: Seq<char>, b: Seq<char>)
    requires
        vstd::utf8::encode_utf8(a) == vstd::utf8::encode_utf8(b),
    ensures
        a == b,
{
    vstd::utf8::encode_utf8_decode_utf8(a);
    vstd::utf8::encode_utf8_decode_utf8(b);
}

/// A version is told by its bytes where it is known how many there are of them.
proof fn lemma_same_version_bytes(a: EntryModel, b: EntryModel)
    requires
        version_bytes(a) == version_bytes(b),
    ensures
        same_version(a, b),
{
    let (x, y) = (version_bytes(a), version_bytes(b));
    let (na, nb) = (vstd::utf8::encode_utf8(a.actor), vstd::utf8::encode_utf8(b.actor));
    assert(x.take(8) =~= octets::be64(a.lamport));
    assert(y.take(8) =~= octets::be64(b.lamport));
    octets::lemma_be64_injective(a.lamport, b.lamport);
    assert(x.len() == 8 + na.len() + 1 && y.len() == 8 + nb.len() + 1);
    assert(x.subrange(8, x.len() - 1) =~= na);
    assert(y.subrange(8, y.len() - 1) =~= nb);
    lemma_same_name(a.actor, b.actor);
    assert(x[x.len() - 1] == y[y.len() - 1]);
}

/// Versions are told apart by their bytes, whatever follows, where the writers' names are plain.
proof fn lemma_version_split(a: EntryModel, b: EntryModel, ra: Seq<u8>, rb: Seq<u8>)
    requires
        is_plain(a.actor),
        is_plain(b.actor),
        version_bytes(a) + ra == version_bytes(b) + rb,
    ensures
        same_version(a, b),
        ra == rb,
{
    let (x, y) = (version_bytes(a) + ra, version_bytes(b) + rb);
    let (na, nb) = (vstd::utf8::encode_utf8(a.actor), vstd::utf8::encode_utf8(b.actor));
    lemma_plain_bytes(a.actor);
    lemma_plain_bytes(b.actor);
    if na.len() < nb.len() {
        assert(x[8 + na.len() as int] < 2);
        assert(y[8 + na.len() as int] == nb[na.len() as int]);
    } else if nb.len() < na.len() {
        assert(y[8 + nb.len() as int] < 2);
        assert(x[8 + nb.len() as int] == na[nb.len() as int]);
    }
    let n = version_bytes(a).len() as int;
    assert(x.take(n) =~= version_bytes(a));
    assert(y.take(n) =~= version_bytes(b));
    lemma_same_version_bytes(a, b);
    assert(x.skip(n) =~= ra);
    assert(y.skip(n) =~= rb);
}

proof fn lemma_digests_tell(a: Seq<(Seq<char>, EntryModel)>, b: Seq<(Seq<char>, EntryModel)>)
    requires
        a.len() == b.len(),
        forall|i: int| 0 <= i < a.len() ==> (#[trigger] a[i]).0 == b[i].0,
        forall|i: int| 0 <= i < a.len() ==> is_plain((#[trigger] a[i]).1.actor),
        forall|i: int| 0 <= i < b.len() ==> is_plain((#[trigger] b[i]).1.actor),
        digest_bytes(a) == digest_bytes(b),
    ensures
        forall|i: int| 0 <= i < a.len() ==> same_version((#[trigger] a[i]).1, b[i].1),
    decreases a.len(),
{
    if a.len() > 0 {
        lemma_digest_front(a);
        lemma_digest_front(b);
        let key = vstd::utf8::encode_utf8(a[0].0);
        assert(a[0].0 == b[0].0);
        let (ta, tb) = (a.skip(1), b.skip(1));
        assert(digest_bytes(a).skip(key.len() as int) =~= version_bytes(a[0].1) + digest_bytes(ta));
        assert(digest_bytes(b).skip(key.len() as int) =~= version_bytes(b[0].1) + digest_bytes(tb));
        lemma_version_split(a[0].1, b[0].1, digest_bytes(ta), digest_bytes(tb));
        assert forall|i: int| 0 <= i < ta.len() implies (#[trigger] ta[i]).0 == tb[i].0 by {
            assert(a[i + 1].0 == b[i + 1].0);
        }
        assert forall|i: int| 0 <= i < ta.len() implies is_plain((#[trigger] ta[i]).1.actor) by {
            assert(ta[i] == a[i + 1]);
        }
        assert forall|i: int| 0 <= i < tb.len() implies is_plain((#[trigger] tb[i]).1.actor) by {
            assert(tb[i] == b[i + 1]);
        }
        lemma_digests_tell(ta, tb);
        assert forall|i: int| 0 <= i < a.len() implies same_version((#[trigger] a[i]).1, b[i].1) by {
            if i > 0 {
                assert(a[i] == ta[i - 1]);
                assert(b[i] == tb[i - 1]);
            }
        }
    }
}

/// Replicas with the same keys that hold a key in different versions, by clock, writer or mark
/// of deletion, hash different bytes. The names of their writers hold no character below
/// U+0002: one that did could be read as the end of another's version.
pub proof fn lemma_digest_tells_versions_apart(
    a: Seq<(Seq<char>, EntryModel)>,
    b: Seq<(Seq<char>, EntryModel)>,
    map_a: Map<Seq<char>, EntryModel>,
    map_b: Map<Seq<char>, EntryModel>,
    k: Seq<char>,
)
    requires
        lists(a, map_a),
        lists(b, map_b),
        map_a.dom() == map_b.dom(),
        forall|n: Seq<char>| #[trigger] map_a.contains_key(n) ==> is_plain(map_a[n].actor),
        forall|n: Seq<char>| #[trigger] map_b.contains_key(n) ==> is_plain(map_b[n].actor),
        map_a.contains_key(k),
        map_a[k].lamport != map_b[k].lamport || map_a[k].actor != map_b[k].actor
            || map_a[k].deleted != map_b[k].deleted,
    ensures
        digest_bytes(a) != digest_bytes(b),
{
    lemma_same_keys(a, b, map_a, map_b);
    lemma_sorted_distinct(a);
    lemma_sorted_distinct(b);
    if digest_bytes(a) == digest_bytes(b) {
        assert forall|i: int| 0 <= i < a.len() implies is_plain((#[trigger] a[i]).1.actor) by {
            assoc::lemma_entry(a, i);
        }
        assert forall|i: int| 0 <= i < b.len() implies is_plain((#[trigger] b[i]).1.actor) by {
            assoc::lemma_entry(b, i);
        }
        lemma_digests_tell(a, b);
        let i = assoc::lemma_key(a, k);
        assert(a[i].0 == b[i].0);
        assoc::lemma_entry(b, i);
        assert(same_version(a[i].1, b[i].1));
    }
}

/// Replicas that differ in the version of one key only hash different bytes, whatever their
/// names.
pub proof fn lemma_digest_tells_one_version(
    a: Seq<(Seq<char>, EntryModel)>,
    b: Seq<(Seq<char>, EntryModel)>,
    map_a: Map<Seq<char>, EntryModel>,
    map_b: Map<Seq<char>, EntryModel>,
    k: Seq<char>,
)
    requires
        lists(a, map_a),
        lists(b, map_b),
        map_a.dom() == map_b.dom(),
        map_a.contains_key(k),
        forall|n: Seq<char>| #[trigger] map_a.contains_key(n) && n != k ==> map_a[n] == map_b[n],
        map_a[k].lamport != map_b[k].lamport || map_a[k].actor != map_b[k].actor
            || map_a[k].deleted != map_b[k].deleted,
    ensures
        digest_bytes(a) != digest_bytes(b),
{
    lemma_same_keys(a, b, map_a, map_b);
    lemma_sorted_distinct(a);
    lemma_sorted_distinct(b);
    let i = assoc::lemma_key(a, k);
    assert(a[i].0 == b[i].0);
    assoc::lemma_entry(b, i);
    assert forall|j: int| 0 <= j < a.len() && j != i implies a[j] == b[j] by {
        assoc::lemma_entry(a, j);
        assert(a[j].0 == b[j].0);
        assoc::lemma_entry(b, j);
        assert(a[j].0 != a[i].0) by {
            if j < i {
                assert(a[j].0 != a[i].0);
            } else {
                assert(a[i].0 != a[j].0);
            }
        }
    }
    let (front, back) = (a.take(i), a.skip(i + 1));
    assert(a =~= front + seq![(k, a[i].1)] + back);
    assert(b =~= front + seq![(k, b[i].1)] + back);
    lemma_one_version_tells(front, k, a[i].1, b[i].1, back);
}

proof fn lemma_one_version_tells(
    front: Seq<(Seq<char>, EntryModel)>,
    k: Seq<char>,
    x: EntryModel,
    y: EntryModel,
    back: Seq<(Seq<char>, EntryModel)>,
)
    requires
        !same_version(x, y),
    ensures
        digest_bytes(front + seq![(k, x)] + back) != digest_bytes(front + seq![(k, y)] + back),
{
    lemma_digest_add(front + seq![(k, x)], back);
    lemma_digest_add(front + seq![(k, y)], back);
    lemma_digest_add(front, seq![(k, x)]);
    lemma_digest_add(front, seq![(k, y)]);
    lemma_digest_one(k, x);
    lemma_digest_one(k, y);
    let key = vstd::utf8::encode_utf8(k);
    lemma_middle_tells(digest_bytes(front), key, version_bytes(x), digest_bytes(back));
    lemma_middle_tells(digest_bytes(front), key, version_bytes(y), digest_bytes(back));
    if version_bytes(x) == version_bytes(y) {
        lemma_same_version_bytes(x, y);
    }
}

proof fn lemma_middle_tells(a: Seq<u8>, b: Seq<u8>, c: Seq<u8>, d: Seq<u8>)
    ensures
        ({
            let all = a + (b + c) + d;
            all.subrange((a.len() + b.len()) as int, all.len() - d.len()) == c
        }),
{
    let all = a + (b + c) + d;
    assert(all.subrange((a.len() + b.len()) as int, all.len() - d.len()) =~= c);
}

/// A replica that writes or deletes a key that it holds hashes other bytes than before; one that
/// writes a new key counts one entry more.
pub proof fn lemma_local_write_changes_digest(
    m: BoardModel,
    key: Seq<char>,
    value: Seq<char>,
    deleted: bool,
    before: Seq<(Seq<char>, EntryModel)>,
    after: Seq<(Seq<char>, EntryModel)>,
)
    requires
        m.wf(),
        m.lamport < u64::MAX,
        lists(before, m.entries),
        lists(after, written(m, key, value, deleted).0.entries),
    ensures
        m.entries.contains_key(key) ==> before.len() == after.len() && digest_bytes(before)
            != digest_bytes(after),
        !m.entries.contains_key(key) ==> after.len() == before.len() + 1,
{
    let now = written(m, key, value, deleted).0.entries;
    lemma_listing_count(before, m.entries);
    lemma_listing_count(after, now);
    if m.entries.contains_key(key) {
        assert(now.dom() =~= m.entries.dom());
        assert(m.entries[key].lamport <= m.lamport);
        lemma_digest_tells_one_version(before, after, m.entries, now, key);
    } else {
        assert(now.dom() =~= m.entries.dom().insert(key));
    }
}

/// Whether keys and writers' names are plain, and clocks leave their first byte empty.
pub open spec fn is_ordinary(map: Map<Seq<char>, EntryModel>) -> bool {
    forall|k: Seq<char>| #[trigger]
        map.contains_key(k) ==> is_plain(k) && is_plain(map[k].actor) && map[k].lamport
            < 0x100_0000_0000_0000
}

proof fn lemma_clock_starts_empty(x: u64)
    requires
        x < 0x100_0000_0000_0000,
    ensures
        octets::be64(x).len() == 8,
        octets::be64(x)[0] == 0,
{
    assert(x / 0x1_0000_0000 < 0x100_0000);
    let hi = (x / 0x1_0000_0000) as u32;
    assert(octets::be64(x)[0] == octets::be32(hi)[0]);
}

proof fn lemma_version_starts_empty(e: EntryModel)
    requires
        e.lamport < 0x100_0000_0000_0000,
    ensures
        version_bytes(e).len() > 0,
        version_bytes(e)[0] == 0,
{
    lemma_clock_starts_empty(e.lamport);
    assert(version_bytes(e)[0] == octets::be64(e.lamport)[0]);
}

proof fn lemma_key_split(
    ka: Seq<u8>,
    va: Seq<u8>,
    ra: Seq<u8>,
    kb: Seq<u8>,
    vb: Seq<u8>,
    rb: Seq<u8>,
)
    requires
        ka + va + ra == kb + vb + rb,
        va.len() > 0,
        vb.len() > 0,
        va[0] == 0,
        vb[0] == 0,
        forall|i: int| 0 <= i < ka.len() ==> #[trigger] ka[i] >= 2,
        forall|i: int| 0 <= i < kb.len() ==> #[trigger] kb[i] >= 2,
    ensures
        ka == kb,
        va + ra == vb + rb,
{
    let (x, y) = (ka + va + ra, kb + vb + rb);
    assert(x[ka.len() as int] == va[0]);
    assert(y[kb.len() as int] == vb[0]);
    if ka.len() < kb.len() {
        assert(y[ka.len() as int] == kb[ka.len() as int]);
    } else if kb.len() < ka.len() {
        assert(x[kb.len() as int] == ka[kb.len() as int]);
    }
    let n = ka.len() as int;
    assert(x.take(n) =~= ka);
    assert(y.take(n) =~= kb);
    assert(x.skip(n) =~= va + ra);
    assert(y.skip(n) =~= vb + rb);
}

/// Whether the key and the writer's name of an entry are plain, and its clock leaves its first byte
/// empty.
#[verifier::opaque]
spec fn ordinary_entry(p: (Seq<char>, EntryModel)) -> bool {
    is_plain(p.0) && is_plain(p.1.actor) && p.1.lamport < 0x100_0000_0000_0000
}

proof fn lemma_heads_tell(a: Seq<(Seq<char>, EntryModel)>, b: Seq<(Seq<char>, EntryModel)>)
    requires
        a.len() > 0,
        b.len() > 0,
        ordinary_entry(a[0]),
        ordinary_entry(b[0]),
        digest_bytes(a) == digest_bytes(b),
    ensures
        a[0].0 == b[0].0,
        same_version(a[0].1, b[0].1),
        digest_bytes(a.skip(1)) == digest_bytes(b.skip(1)),
{
    reveal(ordinary_entry);
    lemma_digest_front(a);
    lemma_digest_front(b);
    let (ka, kb) = (vstd::utf8::encode_utf8(a[0].0), vstd::utf8::encode_utf8(b[0].0));
    let (da, db) = (digest_bytes(a.skip(1)), digest_bytes(b.skip(1)));
    lemma_plain_bytes(a[0].0);
    lemma_plain_bytes(b[0].0);
    lemma_version_starts_empty(a[0].1);
    lemma_version_starts_empty(b[0].1);
    lemma_key_split(ka, version_bytes(a[0].1), da, kb, version_bytes(b[0].1), db);
    lemma_same_name(a[0].0, b[0].0);
    lemma_version_split(a[0].1, b[0].1, da, db);
}

proof fn lemma_some_digest(a: Seq<(Seq<char>, EntryModel)>)
    ensures
        a.len() == 0 <==> digest_bytes(a).len() == 0,
{
    if a.len() > 0 {
        lemma_digest_front(a);
        assert(version_bytes(a[0].1).len() > 0);
    }
}

proof fn lemma_digests_tell_all(a: Seq<(Seq<char>, EntryModel)>, b: Seq<(Seq<char>, EntryModel)>)
    requires
        forall|i: int| 0 <= i < a.len() ==> ordinary_entry(#[trigger] a[i]),
        forall|i: int| 0 <= i < b.len() ==> ordinary_entry(#[trigger] b[i]),
        digest_bytes(a) == digest_bytes(b),
    ensures
        a.len() == b.len(),
        forall|i: int|
            0 <= i < a.len() ==> (#[trigger] a[i]).0 == b[i].0 && same_version(a[i].1, b[i].1),
    decreases a.len(),
{
    lemma_some_digest(a);
    lemma_some_digest(b);
    if a.len() > 0 {
        let (ta, tb) = (a.skip(1), b.skip(1));
        lemma_heads_tell(a, b);
        assert forall|i: int| 0 <= i < ta.len() implies ordinary_entry(#[trigger] ta[i]) by {
            assert(ta[i] == a[i + 1]);
        }
        assert forall|i: int| 0 <= i < tb.len() implies ordinary_entry(#[trigger] tb[i]) by {
            assert(tb[i] == b[i + 1]);
        }
        lemma_digests_tell_all(ta, tb);
        assert forall|i: int| 0 <= i < a.len() implies (#[trigger] a[i]).0 == b[i].0
            && same_version(a[i].1, b[i].1) by {
            if i > 0 {
                assert(a[i] == ta[i - 1]);
                assert(b[i] == tb[i - 1]);
            }
        }
    }
}

/// Replicas that hash the same bytes hold the same keys in the same versions, where their keys
/// and names are plain and their clocks leave the first of eight bytes empty.
pub proof fn lemma_same_digest_same_replica(
    a: Seq<(Seq<char>, EntryModel)>,
    b: Seq<(Seq<char>, EntryModel)>,
    map_a: Map<Seq<char>, EntryModel>,
    map_b: Map<Seq<char>, EntryModel>,
    k: Seq<char>,
)
    requires
        lists(a, map_a),
        lists(b, map_b),
        is_ordinary(map_a),
        is_ordinary(map_b),
        digest_bytes(a) == digest_bytes(b),
    ensures
        map_a.contains_key(k) <==> map_b.contains_key(k),
        map_a.contains_key(k) ==> map_a[k].lamport == map_b[k].lamport && map_a[k].actor
            == map_b[k].actor && map_a[k].deleted == map_b[k].deleted,
{
    lemma_sorted_distinct(a);
    lemma_sorted_distinct(b);
    assert forall|i: int| 0 <= i < a.len() implies ordinary_entry(#[trigger] a[i]) by {
        reveal(ordinary_entry);
        assoc::lemma_entry(a, i);
    }
    assert forall|i: int| 0 <= i < b.len() implies ordinary_entry(#[trigger] b[i]) by {
        reveal(ordinary_entry);
        assoc::lemma_entry(b, i);
    }
    lemma_digests_tell_all(a, b);
    if map_a.contains_key(k) {
        let i = assoc::lemma_key(a, k);
        assert(a[i].0 == b[i].0);
        assoc::lemma_entry(b, i);
    }
    if map_b.contains_key(k) {
        let i = assoc::lemma_key(b, k);
        assert(a[i].0 == b[i].0);
        assoc::lemma_entry(a, i);
    }
}

/// A digest is taken for the replica's own only where both the count and the hash are; and the
/// digest of a replica with the same versions of the same keys is.
pub proof fn lemma_digest_answers(
    m: BoardModel,
    other: BoardModel,
    mine: Seq<(Seq<char>, EntryModel)>,
    theirs: Seq<(Seq<char>, EntryModel)>,
    count: Option<u64>,
    hash: Option<Seq<char>>,
)
    requires
        lists(mine, m.entries),
        lists(theirs, other.entries),
        mine.len() <= u64::MAX,
    ensures
        count != Some(mine.len() as u64) ==> !digest_matches(m, count, hash),
        hash != Some(hex::hex_of(primitives::sha256_of(digest_bytes(mine)))) ==> !digest_matches(
            m,
            count,
            hash,
        ),
        m.entries.dom() == other.entries.dom() && (forall|k: Seq<char>| #[trigger]
            m.entries.contains_key(k) ==> m.entries[k].lamport == other.entries[k].lamport
                && m.entries[k].actor == other.entries[k].actor && m.entries[k].deleted
                == other.entries[k].deleted) ==> digest_matches(
            m,
            Some(theirs.len() as u64),
            Some(hex::hex_of(primitives::sha256_of(digest_bytes(theirs)))),
        ),
{
    lemma_listing_unique(mine, m.entries);
    if m.entries.dom() == other.entries.dom() && (forall|k: Seq<char>| #[trigger]
        m.entries.contains_key(k) ==> same_version(m.entries[k], other.entries[k])) {
        lemma_converged_digest(mine, theirs, m.entries, other.entries);
    }
}

/// A change is told of every key whose entry a merge of writes has changed, with what it now
/// says; and where nothing is told, nothing has changed.
pub proof fn lemma_changes_told(
    m: BoardModel,
    writes: Seq<(Seq<char>, EntryModel)>,
    k: Seq<char>,
)
    ensures
        ({
            let after = merged_all(m, writes).entries;
            after.contains_key(k) && !(m.entries.contains_key(k) && m.entries[k] == after[k])
                ==> changes_of(m, writes).contains((k, after[k].value, after[k].deleted))
        }),
        changes_of(m, writes).len() == 0 ==> merged_all(m, writes).entries == m.entries,
    decreases writes.len(),
{
    if writes.len() > 0 {
        let front = writes.drop_last();
        let before = merged_all(m, front).entries;
        let after = merged_all(m, writes).entries;
        lemma_changes_told(m, front, k);
        let told = changes_of(m, front);
        let all = changes_of(m, writes);
        if after.contains_key(k) && !(m.entries.contains_key(k) && m.entries[k] == after[k]) {
            let c = (k, after[k].value, after[k].deleted);
            if wins(merged_all(m, front), writes.last()) && writes.last().0 == k {
                assert(all[all.len() - 1] == c);
            } else {
                assert(told.contains(c));
                assert(all[told.index_of(c)] == c);
            }
        }
    }
}

/// Every change that is told is one that a write made, and of a key that then stands there in
/// that version or a later one.
pub proof fn lemma_changes_true(m: BoardModel, writes: Seq<(Seq<char>, EntryModel)>, i: int)
    requires
        0 <= i < changes_of(m, writes).len(),
    ensures
        exists|j: int|
            0 <= j < writes.len() && changes_of(m, writes)[i] == (
                (#[trigger] writes[j]).0,
                writes[j].1.value,
                writes[j].1.deleted,
            ) && merged_all(m, writes.take(j + 1)).entries[writes[j].0] == writes[j].1,
    decreases writes.len(),
{
    let front = writes.drop_last();
    let told = changes_of(m, front);
    if i < told.len() {
        lemma_changes_true(m, front, i);
        let j = choose|j: int|
            0 <= j < front.len() && told[i] == (
                (#[trigger] front[j]).0,
                front[j].1.value,
                front[j].1.deleted,
            ) && merged_all(m, front.take(j + 1)).entries[front[j].0] == front[j].1;
        assert(writes[j] == front[j]);
        assert(writes.take(j + 1) =~= front.take(j + 1));
    } else {
        let j = writes.len() - 1;
        assert(writes[j] == writes.last());
        assert(writes.take(j + 1) =~= writes);
    }
}

/// What a peer sends has no bearing on what is remembered of another, nor on the map; and what
/// is no chunk comes out as it was sent, unless it is no newer than what came before it.
pub proof fn lemma_packets_of_peers(
    m: NodeModel,
    from: u64,
    seq: u64,
    payload: Seq<u8>,
    now: u64,
    other: u64,
)
    ensures
        ({
            let (after, out) = accepted(m, from, seq, payload, now);
            &&& after.core == m.core
            &&& after.destinations == m.destinations
            &&& other != from ==> after.marks.contains_key(other) == m.marks.contains_key(other)
            &&& other != from && m.marks.contains_key(other) ==> after.marks[other]
                == m.marks[other]
            &&& other != from ==> partials_from(after, other) == partials_from(m, other)
            &&& m.marks.contains_key(from) && seq <= m.marks[from] ==> after == m && out is None
            &&& !(m.marks.contains_key(from) && seq <= m.marks[from]) ==> after.marks.contains_key(
                from,
            ) && after.marks[from] == seq
            &&& !(m.marks.contains_key(from) && seq <= m.marks[from]) && (payload.len() == 0
                || payload[0] != 1) ==> out == Some(payload)
        }),
{
}

/// How replicas that differ come to agree: one that is told a digest other than its own asks for a
/// snapshot, and changes nothing; one that is asked sends every entry that it holds, and changes
/// nothing; and one that is sent a snapshot then holds of every key of either the newer entry. A
/// replica that is told its own digest asks for nothing.
pub proof fn lemma_replicas_sync(
    a: BoardModel,
    b: BoardModel,
    list_a: Seq<(Seq<char>, EntryModel)>,
    list_b: Seq<(Seq<char>, EntryModel)>,
    k: Seq<char>,
)
    requires
        lists(list_a, a.entries),
        lists(list_b, b.entries),
    ensures
        ({
            let count = Some(list_a.len() as u64);
            let hash = Some(hex::hex_of(primitives::sha256_of(digest_bytes(list_a))));
            let asked = message_taken(b, BoardMessageModel::Digest(count, hash));
            let sent = message_taken(a, BoardMessageModel::SyncReq);
            let synced = message_taken(b, BoardMessageModel::Snapshot(list_a));
            &&& asked.0 == b
            &&& asked.2 is None || asked.2 == Some(BoardMessageModel::SyncReq)
            &&& list_a.len() as u64 != list_b.len() as u64 || hex::hex_of(
                primitives::sha256_of(digest_bytes(list_a)),
            ) != hex::hex_of(primitives::sha256_of(digest_bytes(list_b))) ==> asked.2 == Some(
                BoardMessageModel::SyncReq,
            )
            &&& message_taken(a, BoardMessageModel::Digest(count, hash)).2 is None
            &&& sent.0 == a
            &&& sent.2 == Some(BoardMessageModel::Snapshot(list_a))
            &&& synced.2 is None
            &&& synced.0.entries.contains_key(k) <==> a.entries.contains_key(k)
                || b.entries.contains_key(k)
            &&& synced.0.entries.contains_key(k) ==> synced.0.entries[k] == if a.entries.contains_key(
                k,
            ) && (!b.entries.contains_key(k) || b.entries[k].lamport < a.entries[k].lamport
                || b.entries[k].lamport == a.entries[k].lamport && order::text_less(
                b.entries[k].actor,
                a.entries[k].actor,
            )) {
                a.entries[k]
            } else {
                b.entries[k]
            }
        }),
{
    lemma_listing_unique(list_a, a.entries);
    lemma_listing_unique(list_b, b.entries);
    lemma_snapshot_merged(b, list_a, a.entries);
}

/// A write that is told is merged, and told to the application exactly if it changes the map; it
/// is not answered.
pub proof fn lemma_write_told(m: BoardModel, write: (Seq<char>, EntryModel))
    ensures
        ({
            let (after, changes, reply) = message_taken(m, BoardMessageModel::Write(write));
            &&& after == merged(m, write)
            &&& after.entries == m.entries ==> changes.len() == 0 || m.entries[write.0] == write.1
            &&& after.entries != m.entries ==> changes == seq![
                (write.0, write.1.value, write.1.deleted),
            ]
            &&& reply is None
        }),
{
    assert(seq![write].drop_last() =~= Seq::empty());
    reveal_with_fuel(changes_of, 2);
    reveal_with_fuel(merged_all, 2);
    let changes = changes_of(m, seq![write]);
    if wins(m, write) {
        assert(changes =~= seq![change_of(write)]);
        if merged(m, write).entries == m.entries {
            assert(m.entries.insert(write.0, write.1)[write.0] == write.1);
        }
    }
}

} // verus!
