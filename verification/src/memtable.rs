//! The memtable: a capacity-bounded, sorted in-memory map.
//!
//! Writes land here first. Entries are kept strictly sorted by key, so
//! draining the table yields records already in segment order. The
//! table stores whatever value type the engine hands it and never
//! interprets a value; in particular it does not know which values are
//! tombstones.

use vstd::prelude::*;
use vstd::pervasive::VecAdditionalExecFns;

use crate::keys::lex_lt;
use crate::keys::key_lt;
use crate::keys::key_eq;
use crate::keys::lemma_lex_lt_irreflexive;
use crate::keys::lemma_lex_lt_trichotomy;
use crate::keys::lemma_lex_lt_transitive;
use crate::sorted::sorted_strict;
use crate::sorted::map_of;
use crate::sorted::lemma_sorted_strict_unique;
use crate::sorted::lemma_map_of_contains;
use crate::sorted::lemma_map_of_index;
use crate::sorted::lemma_map_of_insert_mid;
use crate::sorted::lemma_map_of_update;

verus! {

/// A sorted key-to-value map bounded by a distinct-key capacity.
pub struct Memtable<V> {
    entries: Vec<(String, V)>,
    capacity: usize,
}

impl<V> View for Memtable<V> {
    type V = Map<Seq<char>, V>;

    closed spec fn view(&self) -> Map<Seq<char>, V> {
        map_of(self.entries_view())
    }
}

impl<V> Memtable<V> {
    /// The entries in storage order, by view.
    pub closed spec fn entries_view(self) -> Seq<(Seq<char>, V)> {
        self.entries@.map_values(|e: (String, V)| (e.0@, e.1))
    }

    /// The number of entries held, which equals the number of distinct keys.
    pub closed spec fn len_spec(self) -> int {
        self.entries@.len() as int
    }

    /// The configured distinct-key capacity.
    pub closed spec fn cap_spec(self) -> int {
        self.capacity as int
    }

    /// Entries are strictly sorted by key.
    pub closed spec fn wf(self) -> bool {
        sorted_strict(self.entries_view())
    }

    pub fn new(capacity: usize) -> (r: Self)
        ensures
            r.wf(),
            r@ == Map::<Seq<char>, V>::empty(),
            r.len_spec() == 0,
            r.cap_spec() == capacity,
    {
        let r = Memtable { entries: Vec::new(), capacity };
        proof {
            assert(r.entries_view() =~= Seq::<(Seq<char>, V)>::empty());
        }
        r
    }

    /// Unconditional upsert: the map gains or updates this key.
    pub fn insert(&mut self, key: String, value: V)
        requires
            old(self).wf(),
        ensures
            final(self).wf(),
            final(self)@ == old(self)@.insert(key@, value),
            final(self).cap_spec() == old(self).cap_spec(),
            old(self)@.contains_key(key@) ==> final(self).len_spec() == old(self).len_spec(),
            !old(self)@.contains_key(key@) ==> final(self).len_spec() == old(self).len_spec()
                + 1,
    {
        let ghost ov = old(self).entries_view();
        let n = self.entries.len();
        let mut idx: usize = 0;
        loop
            invariant_except_break
                idx <= n,
                *self == *old(self),
                ov == old(self).entries_view(),
                n == self.entries@.len(),
                forall|q: int| 0 <= q < idx ==> lex_lt(ov[q].0, key@),
            ensures
                idx <= n,
                *self == *old(self),
                ov == old(self).entries_view(),
                n == self.entries@.len(),
                forall|q: int| 0 <= q < idx ==> lex_lt(ov[q].0, key@),
                idx < n ==> !lex_lt(ov[idx as int].0, key@),
            decreases n - idx,
        {
            if idx == n {
                break;
            }
            proof {
                assert(self.entries@ == old(self).entries@);
                assert(ov.len() == old(self).entries@.len());
                assert(ov[idx as int] == ((old(self).entries@[idx as int]).0@,
                (old(self).entries@[idx as int]).1));
            }
            let before = key_lt(self.entries[idx].0.as_str(), key.as_str());
            if !before {
                break;
            }
            idx = idx + 1;
        }
        proof {
            lemma_sorted_strict_unique(ov);
            lemma_map_of_contains(ov);
            lemma_map_of_index(ov);
        }
        let mut replace = false;
        if idx < n {
            proof {
                assert(ov[idx as int] == (self.entries@[idx as int].0@,
                self.entries@[idx as int].1));
            }
            if key_eq(self.entries[idx].0.as_str(), key.as_str()) {
                replace = true;
            }
        }
        proof {
            if idx < n && !(ov[idx as int].0 == key@) {
                lemma_lex_lt_trichotomy(ov[idx as int].0, key@);
                assert(lex_lt(key@, ov[idx as int].0));
            }
        }
        let ghost pv = (key@, value);
        if replace {
            self.entries.set(idx, (key, value));
            proof {
                assert(self.entries_view() =~= ov.update(idx as int, pv));
                lemma_map_of_update(ov, idx as int, pv);
                let nv = self.entries_view();
                assert forall|i: int, j: int| 0 <= i < j < nv.len() implies lex_lt(
                    nv[i].0,
                    nv[j].0,
                ) by {
                    assert(lex_lt(ov[i].0, ov[j].0));
                }
            }
        } else {
            proof {
                // The new key differs from every stored key.
                assert forall|i: int| 0 <= i < ov.len() implies ov[i].0 != key@ by {
                    lemma_lex_lt_irreflexive(ov[i].0);
                    if i >= idx {
                        if i > idx {
                            lemma_lex_lt_transitive(key@, ov[idx as int].0, ov[i].0);
                        }
                        lemma_lex_lt_irreflexive(key@);
                    }
                }
            }
            self.entries.insert(idx, (key, value));
            proof {
                assert(self.entries_view() =~= ov.insert(idx as int, pv));
                lemma_map_of_insert_mid(ov, idx as int, pv);
                let nv = self.entries_view();
                assert forall|i: int, j: int| 0 <= i < j < nv.len() implies lex_lt(
                    nv[i].0,
                    nv[j].0,
                ) by {
                    if j < idx {
                    } else if j == idx {
                        assert(nv[i].0 == ov[i].0);
                    } else {
                        if i < idx {
                            if i < j - 1 {
                                assert(lex_lt(ov[i].0, ov[j - 1].0));
                            }
                        } else if i == idx {
                            if idx < j - 1 {
                                lemma_lex_lt_transitive(key@, ov[idx as int].0, ov[j - 1].0);
                            }
                        }
                    }
                }
            }
        }
    }

    /// Membership: does the map hold this key?
    pub fn contains(&self, key: &str) -> (r: bool)
        requires
            self.wf(),
        ensures
            r == self@.contains_key(key@),
    {
        self.get(key).is_some()
    }

    /// Look a key up; the returned reference is the mapped value.
    pub fn get(&self, key: &str) -> (r: Option<&V>)
        requires
            self.wf(),
        ensures
            match r {
                Some(v) => self@.contains_key(key@) && self@[key@] == *v,
                None => !self@.contains_key(key@),
            },
    {
        let n = self.entries.len();
        let mut i: usize = 0;
        proof {
            lemma_sorted_strict_unique(self.entries_view());
            lemma_map_of_contains(self.entries_view());
            lemma_map_of_index(self.entries_view());
        }
        loop
            invariant
                i <= n,
                n == self.entries@.len(),
                self.wf(),
                forall|q: int| 0 <= q < i ==> self.entries_view()[q].0 != key@,
                forall|k: Seq<char>|
                    self@.contains_key(k) <==> exists|q: int|
                        0 <= q < self.entries_view().len() && self.entries_view()[q].0 == k,
                forall|q: int|
                    0 <= q < self.entries_view().len() ==> self@.contains_key(
                        self.entries_view()[q].0,
                    ) && self@[self.entries_view()[q].0] == self.entries_view()[q].1,
            decreases n - i,
        {
            if i == n {
                return None;
            }
            proof {
                assert(self.entries_view()[i as int] == (self.entries@[i as int].0@,
                self.entries@[i as int].1));
            }
            if key_eq(self.entries[i].0.as_str(), key) {
                proof {
                    assert(self.entries_view()[i as int].0 == key@);
                }
                return Some(&self.entries[i].1);
            }
            i = i + 1;
        }
    }

    /// Forget every entry; the capacity is kept.
    pub fn clear(&mut self)
        ensures
            final(self).wf(),
            final(self)@ == Map::<Seq<char>, V>::empty(),
            final(self).len_spec() == 0,
            final(self).cap_spec() == old(self).cap_spec(),
    {
        self.entries.clear();
        proof {
            assert(self.entries_view() =~= Seq::<(Seq<char>, V)>::empty());
        }
    }

    /// Hand out every entry in ascending key order and leave the table
    /// empty. The order makes the drained records directly writable to
    /// a segment.
    pub fn drain(&mut self) -> (out: Vec<(String, V)>)
        requires
            old(self).wf(),
        ensures
            out@.len() == old(self).len_spec(),
            out@.map_values(|e: (String, V)| (e.0@, e.1)) == old(self).entries_view(),
            sorted_strict(out@.map_values(|e: (String, V)| (e.0@, e.1))),
            map_of(out@.map_values(|e: (String, V)| (e.0@, e.1))) == old(self)@,
            final(self).wf(),
            final(self)@ == Map::<Seq<char>, V>::empty(),
            final(self).len_spec() == 0,
            final(self).cap_spec() == old(self).cap_spec(),
    {
        let mut out: Vec<(String, V)> = Vec::new();
        core::mem::swap(&mut self.entries, &mut out);
        proof {
            assert(self.entries_view() =~= Seq::<(Seq<char>, V)>::empty());
            assert(out@.map_values(|e: (String, V)| (e.0@, e.1)) =~= old(self).entries_view());
        }
        out
    }

    /// True exactly when the table holds as many distinct keys as its
    /// capacity allows.
    pub fn at_capacity(&self) -> (r: bool)
        ensures
            r == (self.len_spec() == self.cap_spec()),
    {
        self.entries.len() == self.capacity
    }
}

} // verus!
