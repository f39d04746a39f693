//! Lists of keyed entries, seen as maps.
use vstd::prelude::*;

verus! {

/// Whether no two entries have the same key.
pub open spec fn distinct<K, V>(s: Seq<(K, V)>) -> bool {
    forall|i: int, j: int| 0 <= i < j < s.len() ==> (#[trigger] s[i]).0 != (#[trigger] s[j]).0
}

/// Whether the entry numbered `i` is there and has the key `k`.
pub open spec fn at_key<K, V>(s: Seq<(K, V)>, k: K, i: int) -> bool {
    0 <= i < s.len() && s[i].0 == k
}

/// Whether some entry has the key `k`.
pub open spec fn has_key<K, V>(s: Seq<(K, V)>, k: K) -> bool {
    exists|i: int| at_key(s, k, i)
}

/// The map that a list of entries stands for.
pub open spec fn to_map<K, V>(s: Seq<(K, V)>) -> Map<K, V> {
    Map::new(|k: K| has_key(s, k), |k: K| s[choose|i: int| at_key(s, k, i)].1)
}

/// An entry is in the map, under its key.
pub proof fn lemma_entry<K, V>(s: Seq<(K, V)>, i: int)
    requires
        distinct(s),
        0 <= i < s.len(),
    ensures
        to_map(s).contains_key(s[i].0),
        to_map(s)[s[i].0] == s[i].1,
{
    let k = s[i].0;
    assert(at_key(s, k, i));
    let j = choose|j: int| at_key(s, k, j);
    assert(at_key(s, k, j));
    assert(s[i].0 == s[j].0);
    if i < j {
        assert(s[i].0 != s[j].0);
    } else if j < i {
        assert(s[j].0 != s[i].0);
    }
}

/// A key of the map is the key of an entry.
pub proof fn lemma_key<K, V>(s: Seq<(K, V)>, k: K) -> (i: int)
    requires
        distinct(s),
        to_map(s).contains_key(k),
    ensures
        0 <= i < s.len(),
        s[i].0 == k,
        s[i].1 == to_map(s)[k],
{
    let i = choose|i: int| at_key(s, k, i);
    assert(at_key(s, k, i));
    lemma_entry(s, i);
    i
}

/// A key that no entry has is not in the map.
pub proof fn lemma_absent<K, V>(s: Seq<(K, V)>, k: K)
    requires
        forall|i: int| 0 <= i < s.len() ==> (#[trigger] s[i]).0 != k,
    ensures
        !to_map(s).contains_key(k),
{
    if has_key(s, k) {
        let i = choose|i: int| at_key(s, k, i);
        assert(s[i].0 == k);
    }
}

/// No entries stand for the empty map.
pub proof fn lemma_empty<K, V>()
    ensures
        distinct(Seq::<(K, V)>::empty()),
        to_map(Seq::<(K, V)>::empty()) == Map::<K, V>::empty(),
{
    assert forall|k: K| !to_map(Seq::<(K, V)>::empty()).contains_key(k) by {
        lemma_absent(Seq::<(K, V)>::empty(), k);
    }
    assert(to_map(Seq::<(K, V)>::empty()) =~= Map::<K, V>::empty());
}

/// Adding an entry under a new key inserts it.
pub proof fn lemma_push<K, V>(s: Seq<(K, V)>, k: K, v: V)
    requires
        distinct(s),
        !to_map(s).contains_key(k),
    ensures
        distinct(s.push((k, v))),
        to_map(s.push((k, v))) == to_map(s).insert(k, v),
{
    let t = s.push((k, v));
    assert forall|i: int| 0 <= i < s.len() implies (#[trigger] s[i]).0 != k by {
        lemma_entry(s, i);
    }
    assert(distinct(t));
    assert forall|x: K| to_map(t).contains_key(x) == to_map(s).insert(k, v).contains_key(x) by {
        if to_map(t).contains_key(x) {
            let i = lemma_key(t, x);
            if i < s.len() {
                lemma_entry(s, i);
            }
        }
        if to_map(s).contains_key(x) {
            let i = lemma_key(s, x);
            assert(t[i] == s[i]);
            lemma_entry(t, i);
        }
        lemma_entry(t, s.len() as int);
    }
    assert forall|x: K| to_map(t).contains_key(x) implies to_map(t)[x] == to_map(s).insert(k, v)[x] by {
        let i = lemma_key(t, x);
        if i < s.len() {
            lemma_entry(s, i);
        }
    }
    assert(to_map(t) =~= to_map(s).insert(k, v));
}

/// Replacing an entry's value replaces it in the map.
pub proof fn lemma_update<K, V>(s: Seq<(K, V)>, i: int, v: V)
    requires
        distinct(s),
        0 <= i < s.len(),
    ensures
        distinct(s.update(i, (s[i].0, v))),
        to_map(s.update(i, (s[i].0, v))) == to_map(s).insert(s[i].0, v),
{
    let k = s[i].0;
    let t = s.update(i, (k, v));
    assert forall|a: int, b: int| 0 <= a < b < t.len() implies (#[trigger] t[a]).0
        != (#[trigger] t[b]).0 by {
        assert(s[a].0 == t[a].0 && s[b].0 == t[b].0);
    }
    lemma_entry(t, i);
    assert forall|x: K| to_map(t).contains_key(x) == to_map(s).insert(k, v).contains_key(x) by {
        if to_map(t).contains_key(x) {
            let j = lemma_key(t, x);
            lemma_entry(s, j);
        }
        if to_map(s).contains_key(x) {
            let j = lemma_key(s, x);
            assert(t[j].0 == s[j].0);
            lemma_entry(t, j);
        }
    }
    assert forall|x: K| to_map(t).contains_key(x) implies to_map(t)[x] == to_map(s).insert(k, v)[x] by {
        let j = lemma_key(t, x);
        if j != i {
            lemma_entry(s, j);
            assert(s[i].0 != s[j].0) by {
                if i < j {
                    assert(s[i].0 != s[j].0);
                } else {
                    assert(s[j].0 != s[i].0);
                }
            }
        }
    }
    assert(to_map(t) =~= to_map(s).insert(k, v));
}

/// Removing an entry removes its key.
pub proof fn lemma_remove<K, V>(s: Seq<(K, V)>, i: int)
    requires
        distinct(s),
        0 <= i < s.len(),
    ensures
        distinct(s.remove(i)),
        to_map(s.remove(i)) == to_map(s).remove(s[i].0),
{
    let k = s[i].0;
    let t = s.remove(i);
    assert forall|a: int| 0 <= a < t.len() implies #[trigger] t[a] == s[if a < i {
        a
    } else {
        a + 1
    }] by {}
    assert(distinct(t));
    assert forall|x: K| to_map(t).contains_key(x) == to_map(s).remove(k).contains_key(x) by {
        if to_map(t).contains_key(x) {
            let j = lemma_key(t, x);
            let j0 = if j < i {
                j
            } else {
                j + 1
            };
            lemma_entry(s, j0);
            assert(x != k) by {
                if j0 < i {
                    assert(s[j0].0 != s[i].0);
                } else {
                    assert(s[i].0 != s[j0].0);
                }
            }
        }
        if to_map(s).remove(k).contains_key(x) {
            let j = lemma_key(s, x);
            assert(j != i);
            let j1 = if j < i {
                j
            } else {
                j - 1
            };
            assert(t[j1] == s[j]);
            lemma_entry(t, j1);
        }
    }
    assert forall|x: K| to_map(t).contains_key(x) implies to_map(t)[x] == to_map(s).remove(k)[x] by {
        let j = lemma_key(t, x);
        let j0 = if j < i {
            j
        } else {
            j + 1
        };
        lemma_entry(s, j0);
    }
    assert(to_map(t) =~= to_map(s).remove(k));
}

} // verus!
