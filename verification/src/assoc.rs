//! Association lists as maps: the map a sequence of key/value entries
//! denotes, a later entry overriding an earlier one with the same key.
//! The slot store and the admin gate both keep their entries in a
//! vector and state their contracts over this map.

use vstd::prelude::*;

verus! {

/// The map a sequence of entries denotes; on a repeated key the later
/// entry wins.
pub open spec fn map_of<K, V>(s: Seq<(K, V)>) -> Map<K, V>
    decreases s.len(),
{
    if s.len() == 0 {
        Map::empty()
    } else {
        map_of(s.drop_last()).insert(s.last().0, s.last().1)
    }
}

/// No two entries share a key.
pub open spec fn unique_keys<K, V>(s: Seq<(K, V)>) -> bool {
    forall|i: int, j: int|
        0 <= i < j < s.len() ==> (#[trigger] s[i]).0 != (#[trigger] s[j]).0
}

/// What `map_of` holds: exactly the listed keys and, when no key
/// repeats, each key's own value.
pub proof fn lemma_map_of_props<K, V>(s: Seq<(K, V)>)
    ensures
        forall|k: K|
            #[trigger] map_of(s).contains_key(k) ==> exists|i: int|
                0 <= i < s.len() && (#[trigger] s[i]).0 == k,
        forall|i: int| 0 <= i < s.len() ==> map_of(s).contains_key((#[trigger] s[i]).0),
        unique_keys(s) ==> forall|i: int|
            0 <= i < s.len() ==> map_of(s)[(#[trigger] s[i]).0] == s[i].1,
    decreases s.len(),
{
    if s.len() > 0 {
        let t = s.drop_last();
        lemma_map_of_props(t);
        assert(forall|i: int| 0 <= i < t.len() ==> t[i] == s[i]);
        assert forall|k: K| #[trigger] map_of(s).contains_key(k) implies exists|i: int|
            0 <= i < s.len() && (#[trigger] s[i]).0 == k by {
            if k == s.last().0 {
                assert(s[s.len() - 1].0 == k);
            } else {
                assert(map_of(t).contains_key(k));
                let i = choose|i: int| 0 <= i < t.len() && (#[trigger] t[i]).0 == k;
                assert(s[i].0 == k);
            }
        }
        assert forall|i: int| 0 <= i < s.len() implies map_of(s).contains_key(
            (#[trigger] s[i]).0,
        ) by {
            if i < s.len() - 1 {
                assert(map_of(t).contains_key(t[i].0));
            }
        }
        if unique_keys(s) {
            assert(unique_keys(t));
            assert forall|i: int| 0 <= i < s.len() implies map_of(s)[(#[trigger] s[i]).0]
                == s[i].1 by {
                if i < s.len() - 1 {
                    assert(map_of(t)[t[i].0] == t[i].1);
                    assert(s[i].0 != s.last().0);
                }
            }
        }
    }
}

/// Inserting an entry with a fresh key anywhere in the list inserts it
/// into the map.
pub proof fn lemma_map_of_insert_fresh<K, V>(s: Seq<(K, V)>, p: int, e: (K, V))
    requires
        0 <= p <= s.len(),
        forall|i: int| 0 <= i < s.len() ==> (#[trigger] s[i]).0 != e.0,
    ensures
        map_of(s.insert(p, e)) == map_of(s).insert(e.0, e.1),
    decreases s.len(),
{
    let s2 = s.insert(p, e);
    if p == s.len() {
        assert(s2.drop_last() =~= s);
        assert(s2.last() == e);
    } else {
        assert(s2.last() == s.last());
        assert(s2.drop_last() =~= s.drop_last().insert(p, e));
        assert(forall|i: int|
            0 <= i < s.drop_last().len() ==> (#[trigger] s.drop_last()[i]).0 != e.0);
        lemma_map_of_insert_fresh(s.drop_last(), p, e);
        // The two inserted keys differ, so the inserts commute.
        assert(s.last().0 != e.0);
        assert(map_of(s.drop_last()).insert(e.0, e.1).insert(s.last().0, s.last().1) =~= map_of(
            s.drop_last(),
        ).insert(s.last().0, s.last().1).insert(e.0, e.1));
    }
}

/// Overwriting the entry of a key that no later entry repeats updates
/// that key in the map.
pub proof fn lemma_map_of_update<K, V>(s: Seq<(K, V)>, p: int, e: (K, V))
    requires
        0 <= p < s.len(),
        (s[p]).0 == e.0,
        forall|i: int| p < i < s.len() ==> (#[trigger] s[i]).0 != e.0,
    ensures
        map_of(s.update(p, e)) == map_of(s).insert(e.0, e.1),
    decreases s.len(),
{
    let s2 = s.update(p, e);
    if p == s.len() - 1 {
        assert(s2.drop_last() =~= s.drop_last());
        assert(s2.last() == e);
        assert(map_of(s.drop_last()).insert(s.last().0, s.last().1).insert(e.0, e.1) =~= map_of(
            s.drop_last(),
        ).insert(e.0, e.1));
    } else {
        assert(s2.last() == s.last());
        assert(s2.drop_last() =~= s.drop_last().update(p, e));
        lemma_map_of_update(s.drop_last(), p, e);
        assert(s.last().0 != e.0);
        assert(map_of(s.drop_last()).insert(e.0, e.1).insert(s.last().0, s.last().1) =~= map_of(
            s.drop_last(),
        ).insert(s.last().0, s.last().1).insert(e.0, e.1));
    }
}

} // verus!
