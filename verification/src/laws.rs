//! Laws shared by every dictionary variant, stated over the abstract view.
//!
//! Each tree's operations are specified against a `Map<u64, V>`: `insert`
//! adds a fresh pair and refuses a present key, `modify` replaces the value
//! under a present key, `remove` takes a pair out. The lemmas here state the
//! round-trip consequences of those contracts once, for all variants.

use vstd::prelude::*;

verus! {

/// Each key strictly below the next: sorted, and no key repeated.
pub open spec fn strictly_increasing(s: Seq<u64>) -> bool {
    forall|i: int, j: int| 0 <= i < j < s.len() ==> s[i] < s[j]
}

/// The larger of two mathematical integers.
pub open spec fn imax(a: int, b: int) -> int {
    if a >= b {
        a
    } else {
        b
    }
}

/// What `insert` leaves behind: a present key keeps its old value, a fresh
/// key is bound to the new one.
pub open spec fn map_after_insert<V>(m: Map<u64, V>, key: u64, value: V) -> Map<u64, V> {
    if m.dom().contains(key) {
        m
    } else {
        m.insert(key, value)
    }
}

/// Inserting a fresh key and then looking it up returns the inserted value.
/// (On a key already present, `insert` is a refused no-op and the lookup
/// returns the older value instead, so that case is excluded here.)
pub proof fn lemma_insert_then_get<V>(m: Map<u64, V>, key: u64, value: V)
    requires
        !m.dom().contains(key),
    ensures
        map_after_insert(m, key, value).dom().contains(key),
        map_after_insert(m, key, value)[key] == value,
{
}

/// Inserting the same key twice: the first call is accepted, the second is
/// refused, and the value bound to the key stays the first one.
pub proof fn lemma_insert_twice<V>(m: Map<u64, V>, key: u64, v1: V, v2: V)
    requires
        !m.dom().contains(key),
    ensures
        map_after_insert(m, key, v1).dom().contains(key),
        map_after_insert(map_after_insert(m, key, v1), key, v2) == map_after_insert(m, key, v1),
        map_after_insert(map_after_insert(m, key, v1), key, v2)[key] == v1,
{
}

/// After an insert of `key`, a `modify` of the same key is accepted and a
/// lookup then returns the replacement value.
pub proof fn lemma_modify_after_insert<V>(m: Map<u64, V>, key: u64, v1: V, v2: V)
    ensures
        map_after_insert(m, key, v1).dom().contains(key),
        map_after_insert(m, key, v1).insert(key, v2).dom().contains(key),
        map_after_insert(m, key, v1).insert(key, v2)[key] == v2,
{
}

/// Removing a freshly inserted key returns the inserted value and restores
/// the original map; removing it again finds nothing.
pub proof fn lemma_insert_then_remove<V>(m: Map<u64, V>, key: u64, value: V)
    requires
        !m.dom().contains(key),
    ensures
        map_after_insert(m, key, value)[key] == value,
        map_after_insert(m, key, value).remove(key) == m,
        !map_after_insert(m, key, value).remove(key).dom().contains(key),
{
    assert(m.insert(key, value).remove(key) =~= m);
}

/// No key appears twice in a sequence of pairs.
pub open spec fn distinct_keys<V>(s: Seq<(u64, V)>) -> bool {
    forall|i: int, j: int| 0 <= i < j < s.len() ==> s[i].0 != s[j].0
}

/// The map left behind by inserting each pair in turn into an initially
/// empty dictionary, under the dictionaries' semantics: a later duplicate
/// key is refused.
pub open spec fn inserted_all<V>(s: Seq<(u64, V)>) -> Map<u64, V>
    decreases s.len(),
{
    if s.len() == 0 {
        Map::empty()
    } else {
        map_after_insert(inserted_all(s.drop_last()), s.last().0, s.last().1)
    }
}

/// With distinct keys, the inserted map binds exactly the listed pairs.
proof fn lemma_inserted_all_graph<V>(s: Seq<(u64, V)>)
    requires
        distinct_keys(s),
    ensures
        forall|k: u64|
            inserted_all(s).dom().contains(k) <==> exists|i: int|
                0 <= i < s.len() && s[i].0 == k,
        forall|i: int|
            0 <= i < s.len() ==> inserted_all(s).dom().contains(#[trigger] s[i].0)
                && inserted_all(s)[s[i].0] == s[i].1,
    decreases s.len(),
{
    if s.len() > 0 {
        let s0 = s.drop_last();
        assert(distinct_keys(s0)) by {
            assert(forall|i: int, j: int|
                0 <= i < j < s0.len() ==> s0[i] == s[i] && s0[j] == s[j]);
        }
        lemma_inserted_all_graph(s0);
        assert(!inserted_all(s0).dom().contains(s.last().0)) by {
            if inserted_all(s0).dom().contains(s.last().0) {
                let i = choose|i: int| 0 <= i < s0.len() && s0[i].0 == s.last().0;
                assert(s[i].0 == s[s.len() - 1].0);
            }
        }
        assert forall|i: int|
            0 <= i < s.len() implies inserted_all(s).dom().contains(#[trigger] s[i].0)
            && inserted_all(s)[s[i].0] == s[i].1 by {
            if i < s.len() - 1 {
                assert(s0[i] == s[i]);
                assert(s[i].0 != s.last().0);
            }
        }
        assert forall|k: u64|
            inserted_all(s).dom().contains(k) implies exists|i: int|
            0 <= i < s.len() && s[i].0 == k by {
            if k == s.last().0 {
                assert(s[s.len() - 1].0 == k);
            } else {
                assert(inserted_all(s0).dom().contains(k));
                let i = choose|i: int| 0 <= i < s0.len() && s0[i].0 == k;
                assert(s[i].0 == k);
            }
        }
    }
}

/// Order independence: inserting the same pairs, with pairwise distinct
/// keys, in any order builds the same dictionary contents. This holds of
/// every variant at once, since each variant's `insert` is specified by
/// `map_after_insert` on its view.
pub proof fn lemma_insert_permutation<V>(s1: Seq<(u64, V)>, s2: Seq<(u64, V)>)
    requires
        distinct_keys(s1),
        s1.to_multiset() == s2.to_multiset(),
    ensures
        distinct_keys(s2),
        inserted_all(s1) == inserted_all(s2),
{
    broadcast use vstd::seq_lib::group_to_multiset_ensures;

    assert(s1.no_duplicates()) by {
        assert(forall|i: int, j: int|
            0 <= i < j < s1.len() ==> s1[i] != s1[j]);
    }
    s1.lemma_multiset_has_no_duplicates();
    s2.lemma_multiset_has_no_duplicates_conv();
    assert forall|p: (u64, V)| s1.contains(p) <==> s2.contains(p) by {
        assert(s1.contains(p) <==> s1.to_multiset().count(p) > 0);
        assert(s2.contains(p) <==> s2.to_multiset().count(p) > 0);
    }
    assert(distinct_keys(s2)) by {
        assert forall|i: int, j: int|
            0 <= i < j < s2.len() implies s2[i].0 != s2[j].0 by {
            if s2[i].0 == s2[j].0 {
                assert(s2[i] != s2[j]);
                assert(s2.contains(s2[i]));
                assert(s2.contains(s2[j]));
                assert(s1.contains(s2[i]));
                assert(s1.contains(s2[j]));
                let a = choose|a: int| 0 <= a < s1.len() && s1[a] == s2[i];
                let b = choose|b: int| 0 <= b < s1.len() && s1[b] == s2[j];
                assert(a != b);
                assert(s1[a].0 != s1[b].0);
            }
        }
    }
    lemma_inserted_all_graph(s1);
    lemma_inserted_all_graph(s2);
    assert forall|k: u64|
        #![auto]
        inserted_all(s1).dom().contains(k) implies inserted_all(s2).dom().contains(k)
        && inserted_all(s2)[k] == inserted_all(s1)[k] by {
        let i = choose|i: int| 0 <= i < s1.len() && s1[i].0 == k;
        assert(s1.contains(s1[i]));
        assert(s2.contains(s1[i]));
        let j = choose|j: int| 0 <= j < s2.len() && s2[j] == s1[i];
        assert(s2[j].0 == k);
        assert(inserted_all(s2)[k] == s2[j].1);
        assert(inserted_all(s1)[k] == s1[i].1);
    }
    assert forall|k: u64|
        inserted_all(s2).dom().contains(k) implies inserted_all(s1).dom().contains(k) by {
        let j = choose|j: int| 0 <= j < s2.len() && s2[j].0 == k;
        assert(s2.contains(s2[j]));
        assert(s1.contains(s2[j]));
        let i = choose|i: int| 0 <= i < s1.len() && s1[i] == s2[j];
        assert(s1[i].0 == k);
    }
    assert(inserted_all(s1) =~= inserted_all(s2));
}

/// Removing the only key of a one-pair map empties it.
pub proof fn lemma_remove_only_key<V>(m: Map<u64, V>, key: u64, value: V)
    requires
        m == Map::<u64, V>::empty().insert(key, value),
    ensures
        m.remove(key) == Map::<u64, V>::empty(),
{
    assert(m.remove(key) =~= Map::<u64, V>::empty());
}

} // verus!
