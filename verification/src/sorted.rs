//! Sorted association sequences and the maps they denote.
//!
//! The memtable's entries, a segment's records and the sparse index are
//! all sequences of key-value pairs kept in key order. This module gives
//! their shared vocabulary: the sortedness predicates, the map a
//! sequence denotes (later entries winning), and the lemmas that connect
//! the two.

use vstd::prelude::*;

use crate::keys::lex_lt;
use crate::keys::lemma_lex_lt_irreflexive;

verus! {

/// Keys strictly increase along the sequence.
pub open spec fn sorted_strict<V>(s: Seq<(Seq<char>, V)>) -> bool {
    forall|i: int, j: int| 0 <= i < j < s.len() ==> lex_lt(s[i].0, s[j].0)
}

/// Keys never decrease along the sequence; equal neighbours are allowed.
pub open spec fn sorted_nondec<V>(s: Seq<(Seq<char>, V)>) -> bool {
    forall|i: int, j: int| 0 <= i < j < s.len() ==> !lex_lt(s[j].0, s[i].0)
}

/// No two entries share a key.
pub open spec fn unique_keys<V>(s: Seq<(Seq<char>, V)>) -> bool {
    forall|i: int, j: int| 0 <= i < j < s.len() ==> s[i].0 != s[j].0
}

/// The map a sequence of entries denotes; a later entry overrides an
/// earlier one with the same key.
pub open spec fn map_of<V>(s: Seq<(Seq<char>, V)>) -> Map<Seq<char>, V>
    decreases s.len(),
{
    if s.len() == 0 {
        Map::empty()
    } else {
        map_of(s.drop_last()).insert(s.last().0, s.last().1)
    }
}

pub proof fn lemma_sorted_strict_unique<V>(s: Seq<(Seq<char>, V)>)
    requires
        sorted_strict(s),
    ensures
        unique_keys(s),
{
    assert forall|i: int, j: int| 0 <= i < j < s.len() implies s[i].0 != s[j].0 by {
        lemma_lex_lt_irreflexive(s[i].0);
    }
}

/// A key is in the map exactly when some entry carries it.
pub proof fn lemma_map_of_contains<V>(s: Seq<(Seq<char>, V)>)
    ensures
        forall|k: Seq<char>|
            map_of(s).contains_key(k) <==> exists|i: int| 0 <= i < s.len() && s[i].0 == k,
    decreases s.len(),
{
    if s.len() > 0 {
        lemma_map_of_contains(s.drop_last());
        assert(map_of(s) == map_of(s.drop_last()).insert(s.last().0, s.last().1));
        assert forall|k: Seq<char>| map_of(s).contains_key(k) implies exists|i: int|
            0 <= i < s.len() && s[i].0 == k by {
            if k == s.last().0 {
                assert(s[s.len() - 1].0 == k);
            } else {
                assert(map_of(s.drop_last()).contains_key(k));
                assert(exists|i: int|
                    0 <= i < s.drop_last().len() && s.drop_last()[i].0 == k);
                let i = choose|i: int| 0 <= i < s.drop_last().len() && s.drop_last()[i].0 == k;
                assert(s.drop_last()[i] == s[i]);
                assert(s[i].0 == k);
            }
        }
        assert forall|k: Seq<char>|
            (exists|i: int| 0 <= i < s.len() && s[i].0 == k) implies map_of(s).contains_key(
            k,
        ) by {
            let i = choose|i: int| 0 <= i < s.len() && s[i].0 == k;
            if i < s.len() - 1 {
                assert(s.drop_last()[i] == s[i]);
                assert(s.drop_last()[i].0 == k);
                assert(map_of(s.drop_last()).contains_key(k));
            } else {
                assert(k == s.last().0);
            }
        }
    }
}

/// With no repeated keys, each entry's key maps to that entry's value.
pub proof fn lemma_map_of_index<V>(s: Seq<(Seq<char>, V)>)
    requires
        unique_keys(s),
    ensures
        forall|i: int| 0 <= i < s.len() ==> map_of(s).contains_key(s[i].0) && map_of(s)[s[i].0]
            == s[i].1,
    decreases s.len(),
{
    if s.len() > 0 {
        assert(unique_keys(s.drop_last())) by {
            assert(forall|i: int|
                0 <= i < s.drop_last().len() ==> s.drop_last()[i] == s[i]);
        }
        lemma_map_of_index(s.drop_last());
        lemma_map_of_contains(s);
        assert forall|i: int| 0 <= i < s.len() implies map_of(s).contains_key(s[i].0) && map_of(
            s,
        )[s[i].0] == s[i].1 by {
            if i < s.len() - 1 {
                assert(s.drop_last()[i] == s[i]);
                assert(s[i].0 != s.last().0);
            }
        }
    }
}

/// Appending an entry inserts it into the denoted map.
pub proof fn lemma_map_of_push<V>(s: Seq<(Seq<char>, V)>, p: (Seq<char>, V))
    ensures
        map_of(s.push(p)) == map_of(s).insert(p.0, p.1),
{
    assert(s.push(p).drop_last() =~= s);
    assert(s.push(p).last() == p);
}

/// Inserting an entry with a fresh key anywhere inserts it into the map.
pub proof fn lemma_map_of_insert_mid<V>(s: Seq<(Seq<char>, V)>, idx: int, p: (Seq<char>, V))
    requires
        0 <= idx <= s.len(),
        forall|i: int| 0 <= i < s.len() ==> s[i].0 != p.0,
    ensures
        map_of(s.insert(idx, p)) == map_of(s).insert(p.0, p.1),
    decreases s.len(),
{
    if idx == s.len() {
        assert(s.insert(idx, p) =~= s.push(p));
        lemma_map_of_push(s, p);
    } else {
        let t = s.insert(idx, p);
        assert(t.len() == s.len() + 1);
        assert(t.last() == s.last());
        assert(t.drop_last() =~= s.drop_last().insert(idx, p));
        lemma_map_of_insert_mid(s.drop_last(), idx, p);
        assert(map_of(t) == map_of(s.drop_last()).insert(p.0, p.1).insert(
            s.last().0,
            s.last().1,
        ));
        assert(s[s.len() - 1].0 != p.0);
        assert(map_of(s.drop_last()).insert(p.0, p.1).insert(s.last().0, s.last().1)
            =~= map_of(s.drop_last()).insert(s.last().0, s.last().1).insert(p.0, p.1));
    }
}

/// Overwriting the entry that holds a key updates the map at that key.
pub proof fn lemma_map_of_update<V>(s: Seq<(Seq<char>, V)>, idx: int, p: (Seq<char>, V))
    requires
        0 <= idx < s.len(),
        unique_keys(s),
        s[idx].0 == p.0,
    ensures
        map_of(s.update(idx, p)) == map_of(s).insert(p.0, p.1),
    decreases s.len(),
{
    let t = s.update(idx, p);
    if idx == s.len() - 1 {
        assert(t.drop_last() =~= s.drop_last());
        assert(t.last() == p);
        assert(map_of(t) == map_of(s.drop_last()).insert(p.0, p.1));
        assert(map_of(s) == map_of(s.drop_last()).insert(s.last().0, s.last().1));
        assert(map_of(s.drop_last()).insert(p.0, p.1) =~= map_of(s.drop_last()).insert(
            s.last().0,
            s.last().1,
        ).insert(p.0, p.1));
    } else {
        assert(unique_keys(s.drop_last())) by {
            assert(forall|i: int|
                0 <= i < s.drop_last().len() ==> s.drop_last()[i] == s[i]);
        }
        assert(s.drop_last()[idx] == s[idx]);
        lemma_map_of_update(s.drop_last(), idx, p);
        assert(t.drop_last() =~= s.drop_last().update(idx, p));
        assert(t.last() == s.last());
        assert(map_of(t) == map_of(s.drop_last()).insert(p.0, p.1).insert(
            s.last().0,
            s.last().1,
        ));
        assert(s[idx].0 != s[s.len() - 1].0);
        assert(map_of(s.drop_last()).insert(p.0, p.1).insert(s.last().0, s.last().1)
            =~= map_of(s.drop_last()).insert(s.last().0, s.last().1).insert(p.0, p.1));
    }
}

} // verus!

verus! {

/// A map union that prefers the right never loses a right-hand insert.
pub proof fn lemma_union_insert_right<V>(
    a: Map<Seq<char>, V>,
    b: Map<Seq<char>, V>,
    k: Seq<char>,
    v: V,
)
    ensures
        a.union_prefer_right(b.insert(k, v)) == a.union_prefer_right(b).insert(k, v),
{
    assert(a.union_prefer_right(b.insert(k, v)) =~= a.union_prefer_right(b).insert(k, v));
}

pub proof fn lemma_union_empty_right<V>(a: Map<Seq<char>, V>)
    ensures
        a.union_prefer_right(Map::<Seq<char>, V>::empty()) == a,
{
    assert(a.union_prefer_right(Map::<Seq<char>, V>::empty()) =~= a);
}

/// The map of a concatenation: the right-hand entries override.
pub proof fn lemma_map_of_concat<V>(a: Seq<(Seq<char>, V)>, b: Seq<(Seq<char>, V)>)
    ensures
        map_of(a + b) == map_of(a).union_prefer_right(map_of(b)),
    decreases b.len(),
{
    if b.len() == 0 {
        assert(a + b =~= a);
        lemma_union_empty_right(map_of(a));
    } else {
        lemma_map_of_concat(a, b.drop_last());
        assert((a + b).drop_last() =~= a + b.drop_last());
        assert((a + b).last() == b.last());
        lemma_union_insert_right(map_of(a), map_of(b.drop_last()), b.last().0, b.last().1);
    }
}

} // verus!
