//! Sorted segments and their primitives.
//!
//! A segment is an append-only run of records whose keys never
//! decrease; the engine's generations additionally keep keys strictly
//! increasing across the whole run. A segment carries a record-granular
//! cursor (the analogue of a file position), a creation timestamp used
//! as recency metadata, and the last written key, against which every
//! write is validated.

use vstd::prelude::*;
use vstd::multiset::Multiset;
use vstd::pervasive::VecAdditionalExecFns;

use crate::kv::KVPair;
use crate::kv::RecView;
use crate::keys::lex_lt;
use crate::keys::lex_le;
use crate::keys::key_le;
use crate::keys::key_eq;
use crate::keys::lemma_lex_lt_irreflexive;
use crate::keys::lemma_lex_lt_trichotomy;
use crate::keys::lemma_lex_lt_transitive;
use crate::keys::lemma_lex_le_transitive;
use crate::keys::lemma_lex_le_lt_transitive;
use crate::sorted::sorted_nondec;
use crate::sorted::sorted_strict;
use crate::sorted::map_of;
use crate::sorted::lemma_sorted_strict_unique;
use crate::sorted::lemma_map_of_index;
use crate::sorted::lemma_map_of_contains;
use crate::sorted::lemma_map_of_push;
use crate::keys::lemma_lex_le_antisymmetric;

verus! {

/// Errors of the segment layer.
#[derive(Debug)]
pub enum SstError {
    /// A write violated the segment's sort order: `current` was written
    /// while `previous`, a larger key, was already the last key.
    UnsortedWrite { previous: String, current: String },
}

/// An append-only, sort-ordered run of records.
pub struct Segment {
    records: Vec<KVPair>,
    pos: u64,
    previous_key: Option<String>,
    created_at: u64,
}

/// Scan `rs` from `from` for the first record whose key is not below
/// `key`; its value if that key matches, `None` otherwise. This is what
/// a forward search over a sorted run observes.
pub open spec fn search_spec(rs: Seq<RecView>, key: Seq<char>, from: int) -> Option<Seq<char>>
    decreases rs.len() - from,
{
    if from < 0 || from >= rs.len() {
        None
    } else if lex_le(key, rs[from].0) {
        if rs[from].0 == key {
            Some(rs[from].1)
        } else {
            None
        }
    } else {
        search_spec(rs, key, from + 1)
    }
}

/// On a strictly sorted run, a search from `from` finds a key present
/// at or after `from`, and returns that key's mapped value.
pub proof fn lemma_search_found(rs: Seq<RecView>, key: Seq<char>, from: int, w: int)
    requires
        sorted_strict(rs),
        0 <= from <= w < rs.len(),
        rs[w].0 == key,
    ensures
        map_of(rs).contains_key(key),
        search_spec(rs, key, from) == Some(map_of(rs)[key]),
    decreases rs.len() - from,
{
    lemma_sorted_strict_unique(rs);
    lemma_map_of_index(rs);
    if from == w {
        assert(lex_le(key, rs[from].0));
    } else {
        assert(lex_lt(rs[from].0, rs[w].0));
        if lex_le(key, rs[from].0) {
            lemma_lex_le_lt_transitive(key, rs[from].0, rs[w].0);
            lemma_lex_lt_irreflexive(key);
            assert(false);
        }
        lemma_search_found(rs, key, from + 1, w);
    }
}

impl Segment {
    /// The records, by view, in storage order.
    pub closed spec fn recs(self) -> Seq<RecView> {
        self.records@.map_values(|kv: KVPair| kv@)
    }

    /// The creation timestamp.
    pub closed spec fn stamp(self) -> u64 {
        self.created_at
    }

    /// The raw cursor field, which `tell` reports even past the end.
    pub closed spec fn pos_raw(self) -> u64 {
        self.pos
    }

    /// The cursor, clamped to the run's length.
    pub open spec fn cursor(self) -> int {
        if self.pos_raw() as int <= self.recs().len() as int {
            self.pos_raw() as int
        } else {
            self.recs().len() as int
        }
    }

    /// The last written key, if any.
    pub closed spec fn prev_key_view(self) -> Option<Seq<char>> {
        match self.previous_key {
            None => None,
            Some(p) => Some(p@),
        }
    }

    /// May `k` be appended without violating the sort order?
    pub open spec fn can_append(self, k: Seq<char>) -> bool {
        match self.prev_key_view() {
            None => true,
            Some(p) => lex_le(p, k),
        }
    }

    /// Keys never decrease, and the remembered last key is the run's
    /// last key.
    pub closed spec fn wf(self) -> bool {
        &&& sorted_nondec(self.recs())
        &&& match self.prev_key_view() {
            None => self.recs().len() == 0,
            Some(p) => self.recs().len() > 0 && p == self.recs().last().0
        }
    }

    /// Content equality: everything but the cursor.
    pub open spec fn eq_content(self, other: Segment) -> bool {
        &&& self.recs() == other.recs()
        &&& self.stamp() == other.stamp()
        &&& self.prev_key_view() == other.prev_key_view()
    }

    /// A fresh, empty segment bound to no file, stamped zero.
    pub fn temp() -> (s: Segment)
        ensures
            s.wf(),
            s.recs() == Seq::<RecView>::empty(),
            s.prev_key_view() is None,
            s.stamp() == 0,
            s.cursor() == 0,
    {
        Segment::with_timestamp(0)
    }

    /// A fresh, empty segment carrying the given creation timestamp.
    pub fn with_timestamp(stamp: u64) -> (s: Segment)
        ensures
            s.wf(),
            s.recs() == Seq::<RecView>::empty(),
            s.prev_key_view() is None,
            s.stamp() == stamp,
            s.cursor() == 0,
    {
        let s = Segment { records: Vec::new(), pos: 0, previous_key: None, created_at: stamp };
        proof {
            assert(s.recs() =~= Seq::<RecView>::empty());
        }
        s
    }

    /// The creation timestamp, monotone across a generation.
    pub fn timestamp(&self) -> (r: u64)
        ensures
            r == self.stamp(),
    {
        self.created_at
    }

    /// The number of records written.
    pub fn size(&self) -> (r: usize)
        ensures
            r == self.recs().len(),
    {
        self.records.len()
    }

    /// Append one record. Succeeds exactly when the key does not fall
    /// below the previously written key, returning the pre-write offset;
    /// otherwise fails with `UnsortedWrite` and changes nothing.
    pub fn write(&mut self, kv: KVPair) -> (r: Result<u64, SstError>)
        requires
            old(self).wf(),
        ensures
            final(self).wf(),
            match r {
                Ok(off) => {
                    &&& old(self).can_append(kv@.0)
                    &&& off == old(self).recs().len() as u64
                    &&& final(self).recs() == old(self).recs().push(kv@)
                    &&& final(self).stamp() == old(self).stamp()
                    &&& final(self).pos_raw() == old(self).pos_raw()
                    &&& final(self).prev_key_view() == Some(kv@.0)
                },
                Err(e) => {
                    &&& !old(self).can_append(kv@.0)
                    &&& *final(self) == *old(self)
                    &&& (e matches SstError::UnsortedWrite { previous, current }
                        && Some(previous@) == old(self).prev_key_view() && current@ == kv@.0)
                },
            },
    {
        let sorted_ok = match &self.previous_key {
            None => true,
            Some(p) => key_le(p.as_str(), kv.key.as_str()),
        };
        if !sorted_ok {
            let prev = match &self.previous_key {
                Some(p) => p.clone(),
                None => String::new(),
            };
            return Err(SstError::UnsortedWrite { previous: prev, current: kv.key });
        }
        let ghost ov = self.recs();
        let off = self.records.len();
        self.previous_key = Some(kv.key.clone());
        let ghost kvv = kv@;
        self.records.push(kv);
        proof {
            assert(self.recs() =~= ov.push(kvv));
            assert forall|i: int, j: int|
                0 <= i < j < self.recs().len() implies !lex_lt(
                self.recs()[j].0,
                self.recs()[i].0,
            ) by {
                if j == self.recs().len() - 1 {
                    let last = ov.len() - 1;
                    if i < last {
                        // ov[i] <= ov[last] <= kv's key
                        lemma_lex_lt_trichotomy(ov[i].0, ov[last].0);
                        if lex_lt(kvv.0, ov[i].0) {
                            lemma_lex_le_transitive(ov[i].0, ov[last].0, kvv.0);
                            lemma_lex_le_lt_transitive(ov[i].0, kvv.0, ov[i].0);
                            lemma_lex_lt_irreflexive(ov[i].0);
                        }
                    } else {
                        if lex_lt(kvv.0, ov[last].0) {
                            lemma_lex_le_lt_transitive(ov[last].0, kvv.0, ov[last].0);
                            lemma_lex_lt_irreflexive(ov[last].0);
                        }
                    }
                }
            }
        }
        Ok(off as u64)
    }

    /// Move the cursor; positions past the end read as end-of-run.
    pub fn seek(&mut self, pos: u64) -> (r: Result<(), SstError>)
        ensures
            r is Ok,
            old(self).eq_content(*final(self)),
            final(self).wf() == old(self).wf(),
            final(self).pos_raw() == pos,
    {
        self.pos = pos;
        Ok(())
    }

    /// Move the cursor back to the start.
    pub fn reset(&mut self) -> (r: Result<(), SstError>)
        ensures
            r is Ok,
            old(self).eq_content(*final(self)),
            final(self).wf() == old(self).wf(),
            final(self).pos_raw() == 0,
    {
        self.seek(0)
    }

    /// The cursor's position.
    pub fn tell(&self) -> (r: Result<u64, SstError>)
        ensures
            r matches Ok(p) && p == self.pos_raw(),
    {
        Ok(self.pos)
    }

    /// Read every record from the cursor to the end, advancing the
    /// cursor to the end.
    pub fn read(&mut self) -> (out: Vec<KVPair>)
        ensures
            old(self).eq_content(*final(self)),
            final(self).wf() == old(self).wf(),
            final(self).cursor() == final(self).recs().len(),
            out@.map_values(|kv: KVPair| kv@) == old(self).recs().skip(old(self).cursor()),
    {
        let n = self.records.len();
        let mut i: usize = if self.pos >= n as u64 {
            n
        } else {
            self.pos as usize
        };
        let ghost start = i as int;
        proof {
            assert(start == self.cursor());
        }
        let mut out: Vec<KVPair> = Vec::new();
        proof {
            assert(out@.map_values(|kv: KVPair| kv@) =~= self.recs().subrange(start, start));
        }
        while i < n
            invariant
                start <= i <= n,
                n == self.records@.len(),
                out@.map_values(|kv: KVPair| kv@) == self.recs().subrange(start, i as int),
                *self == *old(self),
                0 <= start <= self.recs().len(),
            decreases n - i,
        {
            let rec = self.records[i].clone();
            let ghost prev_out = out@;
            let ghost recv = rec@;
            out.push(rec);
            proof {
                assert(recv == self.records@[i as int]@);
                assert(prev_out.map_values(|kv: KVPair| kv@).len() == prev_out.len());
                assert(prev_out.len() == i - start);
                assert(out@ == prev_out.push(rec));
                assert forall|q: int| 0 <= q < i + 1 - start implies (#[trigger] out@[q])@
                    == self.recs().subrange(start, i + 1)[q] by {
                    if q < i as int - start {
                        assert(out@[q] == prev_out[q]);
                        assert(prev_out.map_values(|kv: KVPair| kv@)[q] == self.recs().subrange(
                            start,
                            i as int,
                        )[q]);
                    } else {
                        assert(out@[q] == rec);
                    }
                }
                assert(out@.map_values(|kv: KVPair| kv@) =~= self.recs().subrange(
                    start,
                    i + 1,
                ));
            }
            i = i + 1;
        }
        self.pos = n as u64;
        proof {
            assert(self.recs().subrange(start, n as int) =~= self.recs().skip(start));
        }
        out
    }

    /// Reset, then read everything: the whole run in order.
    pub fn read_from_start(&mut self) -> (r: Result<Vec<KVPair>, SstError>)
        ensures
            old(self).eq_content(*final(self)),
            final(self).wf() == old(self).wf(),
            r matches Ok(out) && out@.map_values(|kv: KVPair| kv@) == old(self).recs(),
    {
        let _ = self.reset();
        let out = self.read();
        proof {
            assert(old(self).recs().skip(0) =~= old(self).recs());
        }
        Ok(out)
    }

    /// The value of the single record at `offset`; the cursor is not
    /// touched.
    pub fn at(&self, offset: u64) -> (r: Result<Option<String>, SstError>)
        ensures
            r matches Ok(v) && match v {
                Some(s) => offset < self.recs().len() && s@ == self.recs()[offset as int].1,
                None => offset >= self.recs().len(),
            },
    {
        if offset >= self.records.len() as u64 {
            return Ok(None);
        }
        let value = self.records[offset as usize].value.clone();
        Ok(Some(value))
    }

    /// Scan forward from `offset` for the first record whose key is not
    /// below `key`; its value if the keys match. The cursor is not
    /// touched, so interleaved reads and searches compose.
    pub fn search_from(&self, key: &str, offset: u64) -> (r: Result<Option<String>, SstError>)
        ensures
            r matches Ok(v) && match v {
                Some(s) => search_spec(self.recs(), key@, offset as int) == Some(s@),
                None => search_spec(self.recs(), key@, offset as int) is None,
            },
    {
        let n = self.records.len();
        if offset >= n as u64 {
            return Ok(None);
        }
        let mut i = offset as usize;
        loop
            invariant
                offset as int <= i as int <= n,
                n == self.records@.len(),
                search_spec(self.recs(), key@, offset as int) == search_spec(
                    self.recs(),
                    key@,
                    i as int,
                ),
            decreases n - i,
        {
            if i == n {
                return Ok(None);
            }
            proof {
                assert(self.recs()[i as int] == (self.records@[i as int].key@,
                self.records@[i as int].value@));
            }
            if key_le(key, self.records[i].key.as_str()) {
                if key_eq(self.records[i].key.as_str(), key) {
                    let value = self.records[i].value.clone();
                    return Ok(Some(value));
                }
                return Ok(None);
            }
            i = i + 1;
        }
    }

    /// Scan the whole run for `key`.
    pub fn search_from_start(&self, key: &str) -> (r: Result<Option<String>, SstError>)
        ensures
            r matches Ok(v) && match v {
                Some(s) => search_spec(self.recs(), key@, 0) == Some(s@),
                None => search_spec(self.recs(), key@, 0) is None,
            },
    {
        self.search_from(key, 0)
    }
}

} // verus!

verus! {

/// Declares binary_heap_plus's heap type so that it can appear in
/// signatures; values of it are opaque to the verifier.
#[verifier::external_type_specification]
#[verifier::external_body]
#[verifier::reject_recursive_types(T)]
#[verifier::reject_recursive_types(C)]
pub struct ExBinaryHeap<T, C>(binary_heap_plus::BinaryHeap<T, C>);

/// Declares binary_heap_plus's min-ordering comparator.
#[verifier::external_type_specification]
#[verifier::external_body]
pub struct ExMinComparator(binary_heap_plus::MinComparator);

/// One entry of the merge's heap: a record together with where it came
/// from. `ix_rev` is the source's index counted from the newest input,
/// so the derived lexicographic order sorts by key ascending, then by
/// recency, newest first.
#[derive(PartialEq, Eq, PartialOrd, Ord, Debug)]
pub struct MetaKey {
    pub key: String,
    pub ix_rev: usize,
    pub which: usize,
    pub value: String,
}

/// The coarsening of `MetaKey`'s order that the merge relies on:
/// key ascending, ties broken by `ix_rev` ascending.
pub open spec fn meta_le(a: MetaKey, b: MetaKey) -> bool {
    lex_lt(a.key@, b.key@) || (a.key@ == b.key@ && a.ix_rev <= b.ix_rev)
}

/// What the heap holds, as a multiset of entries.
pub uninterp spec fn heap_entries(h: binary_heap_plus::BinaryHeap<
    MetaKey,
    binary_heap_plus::MinComparator,
>) -> Multiset<MetaKey>;

/// Relies on `binary_heap_plus::BinaryHeap::new_min`: a fresh heap is
/// empty.
#[verifier::external_body]
fn heap_new() -> (h: binary_heap_plus::BinaryHeap<MetaKey, binary_heap_plus::MinComparator>)
    ensures
        heap_entries(h) == Multiset::<MetaKey>::empty(),
{
    binary_heap_plus::BinaryHeap::new_min()
}

/// Relies on `binary_heap_plus::BinaryHeap::push`: the heap gains
/// exactly the pushed entry.
#[verifier::external_body]
fn heap_push(
    h: &mut binary_heap_plus::BinaryHeap<MetaKey, binary_heap_plus::MinComparator>,
    e: MetaKey,
)
    ensures
        heap_entries(*final(h)) == heap_entries(*old(h)).insert(e),
{
    h.push(e)
}

/// Relies on `binary_heap_plus::BinaryHeap::pop` on a heap built with
/// `MinComparator`, whose `compare(a, b)` is `b.cmp(a)`: `pop` removes
/// and returns the comparator-greatest entry, which is the least entry
/// under `MetaKey`'s derived `Ord`. The derived order compares fields
/// in declaration order — `key` first (`String` orders bytewise, which
/// on UTF-8 text is character-lexicographic order), then `ix_rev` —
/// and `meta_le` coarsens exactly that, so the returned entry is
/// `meta_le`-minimal among what the heap held. `None` comes exactly
/// from an empty heap.
#[verifier::external_body]
fn heap_pop(h: &mut binary_heap_plus::BinaryHeap<MetaKey, binary_heap_plus::MinComparator>) -> (r:
    Option<MetaKey>)
    ensures
        match r {
            Some(m) => {
                &&& heap_entries(*old(h)).count(m) > 0
                &&& heap_entries(*final(h)) == heap_entries(*old(h)).remove(m)
                &&& forall|o: MetaKey| heap_entries(*final(h)).count(o) > 0 ==> meta_le(m, o)
            },
            None => {
                &&& heap_entries(*old(h)) == Multiset::<MetaKey>::empty()
                &&& *final(h) == *old(h)
            },
        },
{
    h.pop()
}

/// The record runs of a list of segments.
pub open spec fn seg_views(ss: Seq<Segment>) -> Seq<Seq<RecView>> {
    ss.map_values(|s: Segment| s.recs())
}

/// All records of a generation, segment after segment.
pub open spec fn flatten_recs(vs: Seq<Seq<RecView>>) -> Seq<RecView>
    decreases vs.len(),
{
    if vs.len() == 0 {
        Seq::empty()
    } else {
        flatten_recs(vs.drop_last()) + vs.last()
    }
}

/// The number of records in the first `i` runs.
pub open spec fn len_upto(vs: Seq<Seq<RecView>>, i: int) -> int
    decreases i,
{
    if i <= 0 {
        0
    } else {
        len_upto(vs, i - 1) + vs[i - 1].len()
    }
}

pub proof fn lemma_len_upto_congruent(vs: Seq<Seq<RecView>>, ws: Seq<Seq<RecView>>, i: int)
    requires
        0 <= i,
        forall|j: int| 0 <= j < i ==> vs[j] == ws[j],
    ensures
        len_upto(vs, i) == len_upto(ws, i),
    decreases i,
{
    if i > 0 {
        lemma_len_upto_congruent(vs, ws, i - 1);
    }
}

pub proof fn lemma_flatten_recs_len(vs: Seq<Seq<RecView>>)
    ensures
        flatten_recs(vs).len() == len_upto(vs, vs.len() as int),
    decreases vs.len(),
{
    if vs.len() > 0 {
        lemma_flatten_recs_len(vs.drop_last());
        lemma_len_upto_congruent(vs, vs.drop_last(), vs.len() - 1);
    }
}

pub proof fn lemma_len_upto_mono(vs: Seq<Seq<RecView>>, i: int, j: int)
    requires
        0 <= i <= j,
    ensures
        len_upto(vs, i) <= len_upto(vs, j),
    decreases j - i,
{
    if i < j {
        lemma_len_upto_mono(vs, i, j - 1);
        if 0 <= j - 1 < vs.len() {
        }
    }
}

/// Where each run's records sit inside the flattened generation.
pub proof fn lemma_flatten_recs_index(vs: Seq<Seq<RecView>>, i: int, q: int)
    requires
        0 <= i < vs.len(),
        0 <= q < vs[i].len(),
    ensures
        0 <= len_upto(vs, i) + q < flatten_recs(vs).len(),
        flatten_recs(vs)[len_upto(vs, i) + q] == vs[i][q],
    decreases vs.len(),
{
    lemma_flatten_recs_len(vs);
    if i == vs.len() - 1 {
        lemma_flatten_recs_len(vs.drop_last());
        lemma_len_upto_congruent(vs, vs.drop_last(), i);
        assert(len_upto(vs, i) >= 0) by {
            lemma_len_upto_nonneg(vs, i);
        }
        assert(flatten_recs(vs)[len_upto(vs, i) + q] == vs.last()[q]);
    } else {
        lemma_flatten_recs_index(vs.drop_last(), i, q);
        lemma_len_upto_congruent(vs, vs.drop_last(), i);
        lemma_flatten_recs_len(vs.drop_last());
        lemma_len_upto_nonneg(vs, i);
        lemma_len_upto_mono(vs.drop_last(), i + 1, vs.drop_last().len() as int);
        assert(flatten_recs(vs)[len_upto(vs, i) + q] == flatten_recs(vs.drop_last())[len_upto(
            vs,
            i,
        ) + q]);
    }
}

pub proof fn lemma_len_upto_nonneg(vs: Seq<Seq<RecView>>, i: int)
    ensures
        len_upto(vs, i) >= 0,
    decreases i,
{
    if i > 0 {
        lemma_len_upto_nonneg(vs, i - 1);
    }
}

/// Every position of the flattened generation comes from some run.
pub proof fn lemma_flatten_recs_origin(vs: Seq<Seq<RecView>>, g: int) -> (r: (int, int))
    requires
        0 <= g < flatten_recs(vs).len(),
    ensures
        0 <= r.0 < vs.len(),
        0 <= r.1 < vs[r.0].len(),
        g == len_upto(vs, r.0) + r.1,
        flatten_recs(vs)[g] == vs[r.0][r.1],
    decreases vs.len(),
{
    lemma_flatten_recs_len(vs);
    let prefix = flatten_recs(vs.drop_last());
    if g < prefix.len() {
        let r = lemma_flatten_recs_origin(vs.drop_last(), g);
        lemma_len_upto_congruent(vs, vs.drop_last(), r.0);
        assert(flatten_recs(vs)[g] == prefix[g]);
        r
    } else {
        lemma_flatten_recs_len(vs.drop_last());
        lemma_len_upto_congruent(vs, vs.drop_last(), vs.len() - 1);
        let r = (vs.len() - 1, g - prefix.len());
        assert(flatten_recs(vs)[g] == vs.last()[g - prefix.len()]);
        r
    }
}

/// How many inputs still have a loaded entry in the heap.
pub open spec fn count_live(live: Seq<bool>) -> int
    decreases live.len(),
{
    if live.len() == 0 {
        0
    } else {
        count_live(live.drop_last()) + if live.last() {
            1int
        } else {
            0int
        }
    }
}

pub proof fn lemma_count_live_bounds(live: Seq<bool>)
    ensures
        0 <= count_live(live) <= live.len(),
    decreases live.len(),
{
    if live.len() > 0 {
        lemma_count_live_bounds(live.drop_last());
    }
}

pub proof fn lemma_count_live_zero(live: Seq<bool>)
    requires
        count_live(live) == 0,
    ensures
        forall|j: int| 0 <= j < live.len() ==> !live[j],
    decreases live.len(),
{
    if live.len() > 0 {
        lemma_count_live_bounds(live.drop_last());
        lemma_count_live_zero(live.drop_last());
        assert forall|j: int| 0 <= j < live.len() implies !live[j] by {
            if j < live.len() - 1 {
                assert(live.drop_last()[j] == live[j]);
            }
        }
    }
}

pub proof fn lemma_count_live_update(live: Seq<bool>, i: int, b: bool)
    requires
        0 <= i < live.len(),
    ensures
        count_live(live.update(i, b)) == count_live(live) + (if b {
            1int
        } else {
            0int
        }) - (if live[i] {
            1int
        } else {
            0int
        }),
    decreases live.len(),
{
    let u = live.update(i, b);
    if i == live.len() - 1 {
        assert(u.drop_last() =~= live.drop_last());
        assert(u.last() == b);
    } else {
        assert(u.drop_last() =~= live.drop_last().update(i, b));
        assert(u.last() == live.last());
        lemma_count_live_update(live.drop_last(), i, b);
        assert(live.drop_last()[i] == live[i]);
    }
}

/// The value a key resolves to across a generation, newest input first.
pub open spec fn latest_val(vs: Seq<Seq<RecView>>, k: Seq<char>) -> Option<Seq<char>>
    decreases vs.len(),
{
    if vs.len() == 0 {
        None
    } else if map_of(vs.last()).contains_key(k) {
        Some(map_of(vs.last())[k])
    } else {
        latest_val(vs.drop_last(), k)
    }
}

/// A key resolves exactly when some input holds it.
pub proof fn lemma_latest_val_witness(vs: Seq<Seq<RecView>>, k: Seq<char>)
    ensures
        (latest_val(vs, k) is Some) <==> exists|j: int|
            0 <= j < vs.len() && (#[trigger] map_of(vs[j])).contains_key(k),
    decreases vs.len(),
{
    if vs.len() > 0 {
        lemma_latest_val_witness(vs.drop_last(), k);
        if latest_val(vs, k) is Some {
            if map_of(vs.last()).contains_key(k) {
                assert(map_of(vs[vs.len() - 1]).contains_key(k));
            } else {
                let j = choose|j: int|
                    0 <= j < vs.drop_last().len() && (#[trigger] map_of(
                        vs.drop_last()[j],
                    )).contains_key(k);
                assert(vs.drop_last()[j] == vs[j]);
                assert(map_of(vs[j]).contains_key(k));
            }
        }
        if exists|j: int| 0 <= j < vs.len() && (#[trigger] map_of(vs[j])).contains_key(k) {
            let j = choose|j: int| 0 <= j < vs.len() && (#[trigger] map_of(vs[j])).contains_key(k);
            if j == vs.len() - 1 {
            } else {
                assert(vs.drop_last()[j] == vs[j]);
                assert(map_of(vs.drop_last()[j]).contains_key(k));
            }
        }
    }
}

/// When the newest input holding a key is known, the key resolves to
/// that input's value.
pub proof fn lemma_latest_val_from(vs: Seq<Seq<RecView>>, k: Seq<char>, j0: int)
    requires
        0 <= j0 < vs.len(),
        map_of(vs[j0]).contains_key(k),
        forall|j: int| j0 < j < vs.len() ==> !(#[trigger] map_of(vs[j])).contains_key(k),
    ensures
        latest_val(vs, k) == Some(map_of(vs[j0])[k]),
    decreases vs.len(),
{
    if j0 == vs.len() - 1 {
    } else {
        assert(!map_of(vs[vs.len() - 1]).contains_key(k));
        assert(vs.drop_last()[j0] == vs[j0]);
        lemma_latest_val_from(vs.drop_last(), k, j0)
    }
}

} // verus!

verus! {

/// One heap entry is the loaded frontier record of its source stream.
pub open spec fn entry_ok(
    e: MetaKey,
    invs: Seq<Seq<RecView>>,
    pos: Seq<usize>,
    live: Seq<bool>,
) -> bool {
    let j = e.which as int;
    &&& 0 <= j < invs.len()
    &&& live[j]
    &&& e.ix_rev + e.which + 1 == invs.len()
    &&& 1 <= pos[j] <= invs[j].len()
    &&& e.key@ == invs[j][pos[j] - 1].0
    &&& e.value@ == invs[j][pos[j] - 1].1
}

/// The heap holds exactly one frontier entry per live stream.
pub open spec fn heap_ok(
    hs: Multiset<MetaKey>,
    invs: Seq<Seq<RecView>>,
    pos: Seq<usize>,
    live: Seq<bool>,
) -> bool {
    &&& hs.len() == count_live(live)
    &&& forall|e: MetaKey| #[trigger] hs.count(e) > 0 ==> entry_ok(e, invs, pos, live)
    &&& forall|e: MetaKey| #[trigger] hs.count(e) <= 1
    &&& forall|e1: MetaKey, e2: MetaKey|
        hs.count(e1) > 0 && hs.count(e2) > 0 && e1.which == e2.which ==> e1 == e2
    &&& forall|j: int|
        0 <= j < live.len() && live[j] ==> exists|e: MetaKey|
            #[trigger] hs.count(e) > 0 && e.which == j
}

/// Stream positions agree with liveness: a live stream has loaded at
/// least one record, a dead one is exhausted.
pub open spec fn pos_ok(invs: Seq<Seq<RecView>>, pos: Seq<usize>, live: Seq<bool>) -> bool {
    &&& pos.len() == invs.len()
    &&& live.len() == invs.len()
    &&& forall|j: int| 0 <= j < invs.len() ==> #[trigger] pos[j] <= invs[j].len()
    &&& forall|j: int| 0 <= j < invs.len() && live[j] ==> 1 <= #[trigger] pos[j]
    &&& forall|j: int| 0 <= j < invs.len() && !live[j] ==> #[trigger] pos[j] == invs[j].len()
}

/// How many records a stream has consumed beyond the one in the heap.
pub open spec fn settled(pos: Seq<usize>, live: Seq<bool>, j: int) -> int {
    pos[j] - if live[j] {
        1int
    } else {
        0int
    }
}

pub open spec fn prev_view(prev: Option<String>) -> Option<Seq<char>> {
    match prev {
        None => None,
        Some(p) => Some(p@),
    }
}

/// `k` may still be emitted after `pv`.
pub open spec fn above_prev(pv: Option<Seq<char>>, k: Seq<char>) -> bool {
    match pv {
        None => true,
        Some(p) => lex_le(p, k),
    }
}

/// `k` lies in the already-emitted range.
pub open spec fn below_prev(pv: Option<Seq<char>>, k: Seq<char>) -> bool {
    match pv {
        None => false,
        Some(p) => lex_le(k, p),
    }
}

/// Every record a stream consumed beyond its frontier was resolved.
pub open spec fn consumed_below(
    invs: Seq<Seq<RecView>>,
    pos: Seq<usize>,
    live: Seq<bool>,
    pv: Option<Seq<char>>,
) -> bool {
    forall|j: int, q: int|
        0 <= j < invs.len() && 0 <= q < settled(pos, live, j) ==> below_prev(
            pv,
            (#[trigger] invs[j][q]).0,
        )
}

/// Everything still in the heap is at or above the last emitted key.
pub open spec fn frontier_above(hs: Multiset<MetaKey>, pv: Option<Seq<char>>) -> bool {
    forall|e: MetaKey| #[trigger] hs.count(e) > 0 ==> above_prev(pv, e.key@)
}

/// The emitted run is strictly sorted and ends at the last emitted key.
pub open spec fn emitted_ok(emitted: Seq<RecView>, pv: Option<Seq<char>>) -> bool {
    &&& sorted_strict(emitted)
    &&& (pv is None ==> emitted.len() == 0)
    &&& (pv matches Some(p) ==> emitted.len() > 0 && emitted.last().0 == p)
}

/// The emitted run resolves exactly the keys at or below the last
/// emitted key, each to its newest input value.
pub open spec fn resolved_ok(
    emitted: Seq<RecView>,
    invs: Seq<Seq<RecView>>,
    pv: Option<Seq<char>>,
) -> bool {
    &&& forall|k: Seq<char>|
        #[trigger] map_of(emitted).contains_key(k) <==> (latest_val(invs, k) is Some
            && below_prev(pv, k))
    &&& forall|k: Seq<char>|
        #[trigger] map_of(emitted).contains_key(k) ==> Some(map_of(emitted)[k]) == latest_val(
            invs,
            k,
        )
}

/// The records written so far: the sealed segments, then the open one.
pub open spec fn emitted_of(out: Seq<Segment>, cur: Segment) -> Seq<RecView> {
    flatten_recs(seg_views(out)) + cur.recs()
}

/// The output's shape while the merge runs: sealed segments are full
/// and numbered, the open segment has room.
pub open spec fn out_ok(out: Seq<Segment>, cur: Segment, t: int) -> bool {
    &&& forall|i: int|
        0 <= i < out.len() ==> (#[trigger] out[i]).wf() && out[i].recs().len() == t
            && out[i].stamp() == i as u64
    &&& cur.wf()
    &&& cur.recs().len() <= t
    &&& cur.stamp() == out.len() as u64
}

/// Records not yet loaded into the heap.
pub open spec fn unconsumed(invs: Seq<Seq<RecView>>, pos: Seq<usize>, i: int) -> int
    decreases i,
{
    if i <= 0 {
        0
    } else {
        unconsumed(invs, pos, i - 1) + (invs[i - 1].len() - pos[i - 1])
    }
}

pub proof fn lemma_unconsumed_nonneg(invs: Seq<Seq<RecView>>, pos: Seq<usize>, i: int)
    requires
        forall|j: int| 0 <= j < i ==> #[trigger] pos[j] <= invs[j].len(),
    ensures
        unconsumed(invs, pos, i) >= 0,
    decreases i,
{
    if i > 0 {
        lemma_unconsumed_nonneg(invs, pos, i - 1);
    }
}

pub proof fn lemma_unconsumed_update(
    invs: Seq<Seq<RecView>>,
    pos: Seq<usize>,
    i: int,
    j: int,
    v: usize,
)
    requires
        0 <= j < pos.len(),
        i <= pos.len(),
    ensures
        unconsumed(invs, pos.update(j, v), i) == unconsumed(invs, pos, i) + if j < i {
            pos[j] - v
        } else {
            0int
        },
    decreases i,
{
    if i > 0 {
        lemma_unconsumed_update(invs, pos, i - 1, j, v);
        assert(unconsumed(invs, pos.update(j, v), i) == unconsumed(invs, pos.update(j, v), i - 1)
            + (invs[i - 1].len() - pos.update(j, v)[i - 1]));
        if j == i - 1 {
            assert(pos.update(j, v)[i - 1] == v);
        } else {
            assert(pos.update(j, v)[i - 1] == pos[i - 1]);
        }
    }
}

/// A generation whose flattening is strictly sorted is strictly sorted
/// run by run.
pub proof fn lemma_generation_sorted(vs: Seq<Seq<RecView>>)
    requires
        sorted_strict(flatten_recs(vs)),
    ensures
        forall|s: int| 0 <= s < vs.len() ==> sorted_strict(#[trigger] vs[s]),
{
    assert forall|s: int| 0 <= s < vs.len() implies sorted_strict(#[trigger] vs[s]) by {
        assert forall|i: int, j: int| 0 <= i < j < vs[s].len() implies lex_lt(
            vs[s][i].0,
            vs[s][j].0,
        ) by {
            lemma_flatten_recs_index(vs, s, i);
            lemma_flatten_recs_index(vs, s, j);
        }
    }
}

/// The heart of the merge's resolution argument. When the minimum entry
/// is popped and found new, it carries its key's newest input value,
/// and no unresolved key lies strictly between the last emitted key and
/// it.
proof fn lemma_emit_step(
    invs: Seq<Seq<RecView>>,
    pos: Seq<usize>,
    live: Seq<bool>,
    hs: Multiset<MetaKey>,
    pv: Option<Seq<char>>,
    m_key: Seq<char>,
    m_val: Seq<char>,
    i: int,
    mrec: int,
)
    requires
        forall|j: int| 0 <= j < invs.len() ==> sorted_strict(#[trigger] invs[j]),
        pos_ok(invs, pos, live),
        forall|e: MetaKey| #[trigger] hs.count(e) > 0 ==> entry_ok(e, invs, pos, live),
        forall|j: int|
            0 <= j < live.len() && live[j] ==> exists|e: MetaKey|
                #[trigger] hs.count(e) > 0 && e.which == j,
        // every remaining entry is at or above the popped key, and on a
        // key tie comes from an older stream
        forall|e: MetaKey|
            #[trigger] hs.count(e) > 0 ==> lex_le(m_key, e.key@) && (e.key@ == m_key
                ==> e.which <= i),
        // the popped record
        0 <= i < invs.len(),
        0 <= mrec < invs[i].len(),
        invs[i][mrec].0 == m_key,
        invs[i][mrec].1 == m_val,
        // everything consumed beyond a frontier, except possibly the
        // popped record itself, was already resolved
        forall|j: int, q: int|
            0 <= j < invs.len() && 0 <= q < settled(pos, live, j) && !(j == i && q == mrec)
                ==> below_prev(pv, (#[trigger] invs[j][q]).0),
        above_prev(pv, m_key),
        !below_prev(pv, m_key),
    ensures
        latest_val(invs, m_key) == Some(m_val),
        forall|k: Seq<char>|
            !below_prev(pv, k) && lex_lt(k, m_key) ==> latest_val(invs, k) is None,
{
    // No stream newer than i holds m_key, and no stream at all holds a
    // key strictly between pv and m_key.
    assert forall|j: int, k: Seq<char>|
        0 <= j < invs.len() && #[trigger] map_of(invs[j]).contains_key(k) && !below_prev(pv, k)
            && lex_le(k, m_key) implies (k == m_key && j <= i) by {
        lemma_map_of_contains(invs[j]);
        let q = choose|q: int| 0 <= q < invs[j].len() && invs[j][q].0 == k;
        if q < settled(pos, live, j) {
            if j == i && q == mrec {
                // the popped record itself: k == m_key; j == i
            } else {
                assert(below_prev(pv, invs[j][q].0));
                assert(false);
            }
        } else {
            // q is the frontier or beyond it, so the stream is live
            assert(live[j]) by {
                if !live[j] {
                    assert(settled(pos, live, j) == pos[j]);
                    assert(pos[j] == invs[j].len());
                }
            }
            let e = choose|e: MetaKey| #[trigger] hs.count(e) > 0 && e.which == j;
            assert(entry_ok(e, invs, pos, live));
            let f = pos[j] - 1;
            assert(e.key@ == invs[j][f].0);
            assert(lex_le(m_key, e.key@));
            if q == f {
                // k is the frontier key: k >= m_key, and k <= m_key
                lemma_lex_le_antisymmetric(m_key, k);
                assert(k == m_key);
                assert(e.key@ == m_key);
                assert(e.which <= i);
            } else {
                // q lies beyond the frontier: frontier key < k <= m_key
                assert(f < q);
                assert(lex_lt(invs[j][f].0, invs[j][q].0));
                lemma_lex_le_lt_transitive(m_key, invs[j][f].0, invs[j][q].0);
                // m_key < k but also k <= m_key
                lemma_lex_le_lt_transitive(k, m_key, k);
                lemma_lex_lt_irreflexive(k);
                assert(false);
            }
        }
    }
    // m_key resolves from stream i.
    lemma_sorted_strict_unique(invs[i]);
    lemma_map_of_contains(invs[i]);
    lemma_map_of_index(invs[i]);
    assert(map_of(invs[i]).contains_key(m_key));
    assert(map_of(invs[i])[m_key] == m_val) by {
        let q2 = choose|q2: int| 0 <= q2 < invs[i].len() && invs[i][q2].0 == m_key;
        if q2 != mrec {
            assert(invs[i][q2].0 == invs[i][mrec].0);
            if q2 < mrec {
                lemma_lex_lt_irreflexive(m_key);
            } else {
                lemma_lex_lt_irreflexive(m_key);
            }
        }
    }
    lemma_lex_lt_irreflexive(m_key);
    assert forall|j: int| i < j < invs.len() implies !(#[trigger] map_of(
        invs[j],
    )).contains_key(m_key) by {
        if map_of(invs[j]).contains_key(m_key) {
            assert(lex_le(m_key, m_key));
        }
    }
    lemma_latest_val_from(invs, m_key, i);
    // Keys strictly between pv and m_key are nowhere.
    assert forall|k: Seq<char>| !below_prev(pv, k) && lex_lt(k, m_key) implies latest_val(
        invs,
        k,
    ) is None by {
        lemma_latest_val_witness(invs, k);
        if latest_val(invs, k) is Some {
            let j = choose|j: int| 0 <= j < invs.len() && (#[trigger] map_of(invs[j])).contains_key(k);
            assert(lex_le(k, m_key));
            assert(k == m_key);
            lemma_lex_lt_irreflexive(m_key);
        }
    }
}

} // verus!

verus! {

proof fn lemma_ms_remove_counts<V>(ms: Multiset<V>, v: V)
    requires
        ms.count(v) >= 1,
    ensures
        ms.remove(v).len() == ms.len() - 1,
        ms.remove(v).count(v) == ms.count(v) - 1,
        forall|w: V| w != v ==> ms.remove(v).count(w) == ms.count(w),
{
    assert(Multiset::singleton(v).subset_of(ms)) by {
        assert forall|w: V| Multiset::singleton(v).count(w) <= ms.count(w) by {
            if w == v {
            } else {
                assert(Multiset::singleton(v).count(w) == 0);
            }
        }
    }
    assert forall|w: V| w != v implies ms.remove(v).count(w) == ms.count(w) by {
        assert(Multiset::singleton(v).count(w) == 0);
    }
}

proof fn lemma_ms_insert_counts<V>(ms: Multiset<V>, v: V)
    ensures
        ms.insert(v).len() == ms.len() + 1,
        ms.insert(v).count(v) == ms.count(v) + 1,
        forall|w: V| w != v ==> ms.insert(v).count(w) == ms.count(w),
{
    assert forall|w: V| w != v implies ms.insert(v).count(w) == ms.count(w) by {
        assert(Multiset::singleton(v).count(w) == 0);
    }
}

/// What one compaction pass guarantees: the output generation is
/// globally strictly sorted, resolves exactly the keys of the inputs,
/// each to the newest input's value, and is cut into full segments of
/// `t` records except possibly the last, numbered from zero.
pub open spec fn merged_generation(invs: Seq<Seq<RecView>>, t: int, out: Seq<Segment>) -> bool {
    let all = flatten_recs(seg_views(out));
    &&& sorted_strict(all)
    &&& (forall|k: Seq<char>|
        #![trigger map_of(all).contains_key(k)]
        #![trigger latest_val(invs, k)]
        map_of(all).contains_key(k) <==> latest_val(invs, k) is Some)
    &&& (forall|k: Seq<char>|
        #[trigger] map_of(all).contains_key(k) ==> Some(map_of(all)[k]) == latest_val(invs, k))
    &&& (forall|i: int|
        0 <= i < out.len() ==> {
            &&& (#[trigger] out[i]).wf()
            &&& sorted_strict(out[i].recs())
            &&& 0 < out[i].recs().len() <= t
            &&& (i < out.len() - 1 ==> out[i].recs().len() == t)
            &&& out[i].stamp() == i as u64
        })
}

/// One compaction pass: a k-way merge of the inputs, listed oldest
/// first, into a fresh generation of segments of at most `segment_size`
/// records each, duplicate keys resolved in favour of the newest input.
#[verifier::rlimit(100)]
pub fn merge(segments: Vec<Segment>, segment_size: usize) -> (r: Result<Vec<Segment>, SstError>)
    requires
        segment_size >= 1,
        forall|i: int|
            0 <= i < segments@.len() ==> (#[trigger] segments@[i]).wf() && sorted_strict(
                segments@[i].recs(),
            ),
    ensures
        r matches Ok(out) && merged_generation(
            seg_views(segments@),
            segment_size as int,
            out@,
        ),
{
    let n = segments.len();
    let ghost invs = seg_views(segments@);
    proof {
        assert forall|j: int| 0 <= j < n implies sorted_strict(#[trigger] invs[j]) by {
            assert(invs[j] == segments@[j].recs());
        }
    }
    let mut heap = heap_new();
    let mut pos: Vec<usize> = Vec::new();
    let ghost mut live: Seq<bool> = Seq::empty();
    let mut idx: usize = 0;
    while idx < n
        invariant
            idx <= n,
            n == segments@.len(),
            invs == seg_views(segments@),
            forall|j: int|
                0 <= j < n ==> (#[trigger] segments@[j]).wf() && sorted_strict(
                    segments@[j].recs(),
                ),
            forall|j: int| 0 <= j < n ==> invs[j] == segments@[j].recs(),
            pos@.len() == idx,
            live.len() == idx,
            forall|j: int| 0 <= j < idx ==> #[trigger] live[j] == (invs[j].len() > 0),
            forall|j: int|
                0 <= j < idx ==> #[trigger] pos@[j] == if invs[j].len() > 0 {
                    1usize
                } else {
                    0usize
                },
            heap_entries(heap).len() == count_live(live),
            forall|e: MetaKey|
                #[trigger] heap_entries(heap).count(e) > 0 ==> entry_ok(e, invs, pos@, live)
                    && e.which < idx,
            forall|e: MetaKey| #[trigger] heap_entries(heap).count(e) <= 1,
            forall|e1: MetaKey, e2: MetaKey|
                #![trigger heap_entries(heap).count(e1), heap_entries(heap).count(e2)]
                heap_entries(heap).count(e1) > 0 && heap_entries(heap).count(e2) > 0
                    && e1.which == e2.which ==> e1 == e2,
            forall|j: int|
                0 <= j < live.len() && live[j] ==> exists|e: MetaKey|
                    #[trigger] heap_entries(heap).count(e) > 0 && e.which == j,
        decreases n - idx,
    {
        let ghost hs0 = heap_entries(heap);
        let ghost pos0 = pos@;
        let ghost live0 = live;
        if segments[idx].records.len() > 0 {
            let first = segments[idx].records[0].clone();
            let ghost firstv = first@;
            let e = MetaKey { key: first.key, ix_rev: n - 1 - idx, which: idx, value: first.value };
            let ghost eg = e;
            heap_push(&mut heap, e);
            pos.push(1);
            proof {
                live = live.push(true);
                let hs1 = heap_entries(heap);
                lemma_ms_insert_counts(hs0, eg);
                assert(live.drop_last() =~= live0);
                assert(count_live(live) == count_live(live0) + 1);
                assert(invs[idx as int] == segments@[idx as int].recs());
                assert(firstv == segments@[idx as int].records@[0]@);
                assert(invs[idx as int][0] == firstv);
                assert(eg.key@ == firstv.0);
                assert(eg.value@ == firstv.1);
                assert(pos@[idx as int] == 1);
                assert(live[idx as int]);
                assert(entry_ok(eg, invs, pos@, live));
                assert(hs0.count(eg) == 0) by {
                    if hs0.count(eg) > 0 {
                        assert(eg.which < idx);
                    }
                }
                assert forall|e2: MetaKey| #[trigger] hs1.count(e2) > 0 implies entry_ok(
                    e2,
                    invs,
                    pos@,
                    live,
                ) && e2.which < idx + 1 by {
                    if e2 != eg {
                        assert(hs0.count(e2) > 0);
                        assert(entry_ok(e2, invs, pos0, live0));
                        assert(pos@[e2.which as int] == pos0[e2.which as int]);
                        assert(live[e2.which as int] == live0[e2.which as int]);
                    }
                }
                assert(hs1.count(eg) > 0 && eg.which == idx as int);
            }
            idx = idx + 1;
        } else {
            pos.push(0);
            proof {
                live = live.push(false);
                assert(live.drop_last() =~= live0);
                assert(count_live(live) == count_live(live0));
                assert(invs[idx as int] == segments@[idx as int].recs());
                assert(invs[idx as int].len() == 0);
                assert forall|e2: MetaKey| #[trigger] heap_entries(heap).count(e2)
                    > 0 implies entry_ok(e2, invs, pos@, live) && e2.which < idx + 1 by {
                    assert(entry_ok(e2, invs, pos0, live0));
                    assert(pos@[e2.which as int] == pos0[e2.which as int]);
                    assert(live[e2.which as int] == live0[e2.which as int]);
                }
            }
            idx = idx + 1;
        }
    }
    proof {
        assert(pos_ok(invs, pos@, live)) by {
            assert forall|j: int|
                0 <= j < invs.len() && !live[j] implies #[trigger] pos@[j]
                == invs[j].len() by {}
        }
    }
    let mut out: Vec<Segment> = Vec::new();
    let mut cur = Segment::with_timestamp(0);
    let mut prev: Option<String> = None;
    proof {
        assert(seg_views(out@) =~= Seq::<Seq<RecView>>::empty());
        assert(emitted_of(out@, cur) =~= Seq::<RecView>::empty());
        assert(emitted_ok(emitted_of(out@, cur), prev_view(prev)));
        assert(resolved_ok(emitted_of(out@, cur), invs, prev_view(prev)));
        assert(out_ok(out@, cur, segment_size as int));
    }
    loop
        invariant_except_break
            n == segments@.len(),
            invs == seg_views(segments@),
            forall|j: int| 0 <= j < n ==> sorted_strict(#[trigger] invs[j]),
            forall|j: int| 0 <= j < n ==> invs[j] == (#[trigger] segments@[j]).recs(),
            segment_size >= 1,
            pos_ok(invs, pos@, live),
            heap_ok(heap_entries(heap), invs, pos@, live),
            frontier_above(heap_entries(heap), prev_view(prev)),
            consumed_below(invs, pos@, live, prev_view(prev)),
            emitted_ok(emitted_of(out@, cur), prev_view(prev)),
            resolved_ok(emitted_of(out@, cur), invs, prev_view(prev)),
            out_ok(out@, cur, segment_size as int),
        ensures
            n == segments@.len(),
            invs == seg_views(segments@),
            segment_size >= 1,
            pos_ok(invs, pos@, live),
            heap_entries(heap) == Multiset::<MetaKey>::empty(),
            count_live(live) == 0,
            consumed_below(invs, pos@, live, prev_view(prev)),
            emitted_ok(emitted_of(out@, cur), prev_view(prev)),
            resolved_ok(emitted_of(out@, cur), invs, prev_view(prev)),
            out_ok(out@, cur, segment_size as int),
        decreases unconsumed(invs, pos@, n as int) + heap_entries(heap).len(),
    {
        let ghost hs0 = heap_entries(heap);
        let ghost pos0 = pos@;
        let ghost live0 = live;
        let ghost pv = prev_view(prev);
        let m_opt = heap_pop(&mut heap);
        let m = match m_opt {
            None => {
                proof {
                    assert(heap_entries(heap).len() == 0);
                }
                break
            },
            Some(m) => m,
        };
        let ghost mg = m;
        proof {
            assert(hs0.count(mg) > 0);
            assert(entry_ok(mg, invs, pos0, live0));
            lemma_ms_remove_counts(hs0, mg);
        }
        let i = m.which;
        let ghost mrec = pos0[i as int] - 1;
        let ghost hs1 = heap_entries(heap);
        proof {
            assert(0 <= i < n);
            assert(invs[i as int][mrec] == (mg.key@, mg.value@));
            assert forall|e: MetaKey| #[trigger] hs1.count(e) > 0 implies e.which != i by {
                assert(hs0.count(e) > 0);
                if e.which == mg.which {
                    assert(e == mg);
                    assert(hs0.count(mg) <= 1);
                }
            }
            assert(above_prev(pv, mg.key@));
        }
        let pi = pos[i];
        proof {
            assert(pi == pos0[i as int]);
            assert(invs[i as int] == segments@[i as int].recs());
            assert(segments@[i as int].recs().len() == invs[i as int].len());
        }
        if pi < segments[i].records.len() {
            let nxt = segments[i].records[pi].clone();
            let ghost nxtv = nxt@;
            let e2 = MetaKey { key: nxt.key, ix_rev: m.ix_rev, which: i, value: nxt.value };
            let ghost e2g = e2;
            heap_push(&mut heap, e2);
            let newpi = pi + 1;
            pos.set(i, newpi);
            proof {
                lemma_ms_insert_counts(hs1, e2g);
                let hs2 = heap_entries(heap);
                assert(pos@ =~= pos0.update(i as int, newpi));
                assert(invs[i as int][pi as int] == nxtv) by {
                    assert(nxtv == segments@[i as int].records@[pi as int]@);
                }
                assert(e2g.key@ == invs[i as int][pi as int].0);
                assert(e2g.value@ == invs[i as int][pi as int].1);
                assert(entry_ok(e2g, invs, pos@, live));
                assert(hs1.count(e2g) == 0) by {
                    if hs1.count(e2g) > 0 {
                        assert(e2g.which != i);
                    }
                }
                assert forall|e: MetaKey| #[trigger] hs2.count(e) > 0 implies entry_ok(
                    e,
                    invs,
                    pos@,
                    live,
                ) by {
                    if e != e2g {
                        assert(hs1.count(e) > 0);
                        assert(hs0.count(e) > 0);
                        assert(entry_ok(e, invs, pos0, live0));
                        assert(e.which != i);
                        assert(pos@[e.which as int] == pos0[e.which as int]);
                    }
                }
                assert forall|e: MetaKey| #[trigger] hs2.count(e) <= 1 by {
                    if e != e2g {
                        assert(hs2.count(e) == hs1.count(e));
                        assert(hs1.count(e) <= hs0.count(e));
                    }
                }
                assert forall|ea: MetaKey, eb: MetaKey|
                    #![trigger hs2.count(ea), hs2.count(eb)]
                    hs2.count(ea) > 0 && hs2.count(eb) > 0 && ea.which == eb.which implies ea
                    == eb by {
                    if ea != e2g && eb != e2g {
                        assert(hs0.count(ea) > 0 && hs0.count(eb) > 0);
                    } else if ea == e2g && eb != e2g {
                        assert(hs1.count(eb) > 0);
                        assert(eb.which != i);
                    } else if eb == e2g && ea != e2g {
                        assert(hs1.count(ea) > 0);
                        assert(ea.which != i);
                    }
                }
                assert forall|j: int| 0 <= j < live.len() && live[j] implies exists|e: MetaKey|
                    #[trigger] hs2.count(e) > 0 && e.which == j by {
                    if j == i as int {
                        assert(hs2.count(e2g) > 0 && e2g.which == j);
                    } else {
                        let ew = choose|e: MetaKey| #[trigger] hs0.count(e) > 0 && e.which == j;
                        assert(ew != mg);
                        assert(hs1.count(ew) == hs0.count(ew));
                        assert(hs2.count(ew) > 0 && ew.which == j);
                    }
                }
                assert(pos_ok(invs, pos@, live));
                assert(heap_ok(hs2, invs, pos@, live));
                // every remaining entry is at or above the popped key
                assert forall|e: MetaKey| #[trigger] hs2.count(e) > 0 implies lex_le(
                    mg.key@,
                    e.key@,
                ) && (e.key@ == mg.key@ ==> e.which <= i) by {
                    if e == e2g {
                        assert(mrec < pi);
                        assert(lex_lt(invs[i as int][mrec].0, invs[i as int][pi as int].0));
                    } else {
                        assert(hs1.count(e) > 0);
                        assert(meta_le(mg, e));
                        if e.key@ == mg.key@ {
                            lemma_lex_lt_irreflexive(mg.key@);
                            assert(mg.ix_rev <= e.ix_rev);
                            assert(entry_ok(e, invs, pos@, live));
                        }
                    }
                }
                // consumed records stay resolved, except the popped one
                assert forall|j: int, q: int|
                    0 <= j < invs.len() && 0 <= q < settled(pos@, live, j) && !(j == i as int && q
                        == mrec) implies below_prev(pv, (#[trigger] invs[j][q]).0) by {
                    if j == i as int {
                        assert(settled(pos@, live, j) == mrec + 1);
                        assert(q < settled(pos0, live0, j));
                    } else {
                        assert(settled(pos@, live, j) == settled(pos0, live0, j));
                    }
                }
                lemma_unconsumed_update(invs, pos0, n as int, i as int, newpi);
                lemma_unconsumed_nonneg(invs, pos@, n as int);
                assert(unconsumed(invs, pos@, n as int) == unconsumed(invs, pos0, n as int) - 1);
                assert(hs2.len() == hs0.len());
            }
        } else {
            proof {
                live = live.update(i as int, false);
                lemma_count_live_update(live0, i as int, false);
                assert(pi == invs[i as int].len());
                let hs2 = heap_entries(heap);
                assert(hs2 == hs1);
                assert(hs2.len() == count_live(live));
                assert forall|e: MetaKey| #[trigger] hs2.count(e) > 0 implies entry_ok(
                    e,
                    invs,
                    pos@,
                    live,
                ) by {
                    assert(hs0.count(e) > 0);
                    assert(entry_ok(e, invs, pos0, live0));
                    assert(e.which != i);
                    assert(live[e.which as int] == live0[e.which as int]);
                }
                assert forall|e: MetaKey| #[trigger] hs2.count(e) <= 1 by {
                    assert(hs2.count(e) <= hs0.count(e));
                }
                assert forall|ea: MetaKey, eb: MetaKey|
                    #![trigger hs2.count(ea), hs2.count(eb)]
                    hs2.count(ea) > 0 && hs2.count(eb) > 0 && ea.which == eb.which implies ea
                    == eb by {
                    assert(hs0.count(ea) > 0 && hs0.count(eb) > 0);
                }
                assert forall|j: int| 0 <= j < live.len() && live[j] implies exists|e: MetaKey|
                    #[trigger] hs2.count(e) > 0 && e.which == j by {
                    assert(j != i as int);
                    let ew = choose|e: MetaKey| #[trigger] hs0.count(e) > 0 && e.which == j;
                    assert(ew != mg);
                    assert(hs1.count(ew) == hs0.count(ew));
                    assert(hs2.count(ew) > 0 && ew.which == j);
                }
                assert(pos_ok(invs, pos@, live));
                assert(heap_ok(hs2, invs, pos@, live));
                assert forall|e: MetaKey| #[trigger] hs2.count(e) > 0 implies lex_le(
                    mg.key@,
                    e.key@,
                ) && (e.key@ == mg.key@ ==> e.which <= i) by {
                    assert(hs1.count(e) > 0);
                    assert(meta_le(mg, e));
                    if e.key@ == mg.key@ {
                        lemma_lex_lt_irreflexive(mg.key@);
                        assert(mg.ix_rev <= e.ix_rev);
                        assert(entry_ok(e, invs, pos@, live));
                    }
                }
                assert forall|j: int, q: int|
                    0 <= j < invs.len() && 0 <= q < settled(pos@, live, j) && !(j == i as int && q
                        == mrec) implies below_prev(pv, (#[trigger] invs[j][q]).0) by {
                    if j == i as int {
                        assert(settled(pos@, live, j) == mrec + 1);
                        assert(q < settled(pos0, live0, j));
                    } else {
                        assert(settled(pos@, live, j) == settled(pos0, live0, j));
                    }
                }
                lemma_unconsumed_nonneg(invs, pos@, n as int);
                assert(unconsumed(invs, pos@, n as int) == unconsumed(invs, pos0, n as int));
                assert(hs2.len() == hs0.len() - 1);
            }
        }
        let ghost hs2 = heap_entries(heap);
        let is_dup = match &prev {
            Some(p) => key_eq(p.as_str(), m.key.as_str()),
            None => false,
        };
        if is_dup {
            proof {
                assert(pv matches Some(p) && p == mg.key@);
                assert forall|e: MetaKey| #[trigger] hs2.count(e) > 0 implies above_prev(
                    pv,
                    e.key@,
                ) by {
                    assert(lex_le(mg.key@, e.key@));
                }
                assert forall|j: int, q: int|
                    0 <= j < invs.len() && 0 <= q < settled(pos@, live, j) implies below_prev(
                    pv,
                    (#[trigger] invs[j][q]).0,
                ) by {
                    if j == i as int && q == mrec {
                        assert(invs[j][q].0 == mg.key@);
                    }
                }
            }
            continue;
        }
        proof {
            assert(!below_prev(pv, mg.key@)) by {
                match pv {
                    Some(p) => {
                        assert(p != mg.key@);
                        if lex_le(mg.key@, p) {
                            lemma_lex_le_antisymmetric(mg.key@, p);
                        }
                    },
                    None => {},
                }
            }
            lemma_emit_step(invs, pos@, live, hs2, pv, mg.key@, mg.value@, i as int, mrec);
        }
        let ghost out_b = out@;
        let ghost cur_b = cur;
        if cur.size() == segment_size {
            out.push(cur);
            cur = Segment::with_timestamp(out.len() as u64);
            proof {
                assert(seg_views(out@) =~= seg_views(out_b).push(cur_b.recs()));
                assert(seg_views(out@).drop_last() =~= seg_views(out_b));
                assert(flatten_recs(seg_views(out@)) == flatten_recs(seg_views(out_b))
                    + cur_b.recs());
                assert(emitted_of(out@, cur) =~= emitted_of(out_b, cur_b));
                assert(out_ok(out@, cur, segment_size as int)) by {
                    assert forall|ii: int| 0 <= ii < out@.len() implies (#[trigger] out@[ii]).wf()
                        && out@[ii].recs().len() == segment_size && out@[ii].stamp() == ii as u64 by {
                        if ii < out_b.len() {
                            assert(out@[ii] == out_b[ii]);
                        } else {
                            assert(out@[ii] == cur_b);
                        }
                    }
                }
            }
        }
        let ghost out_c = out@;
        let ghost cur_c = cur;
        let ghost em0 = emitted_of(out@, cur);
        let ghost mv: RecView = (mg.key@, mg.value@);
        let w_kv = KVPair { key: m.key.clone(), value: m.value };
        proof {
            assert(w_kv@ == mv);
            assert(emitted_ok(em0, pv));
        }
        let wr = cur.write(w_kv);
        match wr {
            Err(e) => {
                proof {
                    if cur_c.recs().len() == 0 {
                        assert(cur_c.can_append(mv.0));
                    } else {
                        assert(em0.len() > 0);
                        assert(em0.last() == cur_c.recs().last());
                        assert(pv matches Some(p) && em0.last().0 == p);
                        assert(cur_c.prev_key_view() == Some(cur_c.recs().last().0));
                        assert(cur_c.can_append(mv.0));
                    }
                    assert(false);
                }
                return Err(e);
            },
            Ok(_) => {},
        }
        prev = Some(m.key);
        proof {
            let pv2 = prev_view(prev);
            assert(pv2 == Some(mv.0));
            let em1 = emitted_of(out@, cur);
            assert(cur.recs() == cur_c.recs().push(mv));
            assert(em1 =~= em0.push(mv));
            lemma_map_of_push(em0, mv);
            // the emitted run stays strictly sorted
            assert forall|a: int, b: int| 0 <= a < b < em1.len() implies lex_lt(
                em1[a].0,
                em1[b].0,
            ) by {
                if b < em0.len() {
                    assert(em1[a] == em0[a] && em1[b] == em0[b]);
                } else {
                    assert(em1[b] == mv);
                    let p = pv.unwrap();
                    assert(em0.last().0 == p);
                    assert(lex_lt(p, mv.0)) by {
                        assert(lex_le(p, mv.0));
                        assert(p != mv.0);
                    }
                    if a < em0.len() - 1 {
                        assert(lex_lt(em0[a].0, em0[em0.len() - 1].0));
                        lemma_lex_lt_transitive(em0[a].0, p, mv.0);
                    } else {
                        assert(em1[a] == em0[a]);
                        assert(em0[a].0 == p);
                    }
                }
            }
            assert(emitted_ok(em1, pv2));
            // resolution is extended by exactly the popped key
            assert forall|k: Seq<char>| #[trigger] map_of(em1).contains_key(k) implies (latest_val(
                invs,
                k,
            ) is Some && below_prev(pv2, k)) by {
                if k == mv.0 {
                } else {
                    assert(map_of(em0).contains_key(k));
                    assert(below_prev(pv, k));
                    let p = pv.unwrap();
                    lemma_lex_le_transitive(k, p, mv.0);
                }
            }
            assert forall|k: Seq<char>|
                latest_val(invs, k) is Some && below_prev(pv2, k) implies #[trigger] map_of(
                em1,
            ).contains_key(k) by {
                if k == mv.0 {
                    assert(map_of(em1).contains_key(k));
                } else {
                    assert(lex_le(k, mv.0));
                    assert(lex_lt(k, mv.0));
                    if below_prev(pv, k) {
                        assert(map_of(em0).contains_key(k));
                    } else {
                        assert(latest_val(invs, k) is None);
                    }
                }
            }
            assert forall|k: Seq<char>| #[trigger] map_of(em1).contains_key(k) implies Some(
                map_of(em1)[k],
            ) == latest_val(invs, k) by {
                if k == mv.0 {
                    assert(map_of(em1)[k] == mv.1);
                } else {
                    assert(map_of(em0).contains_key(k));
                    assert(map_of(em1)[k] == map_of(em0)[k]);
                }
            }
            assert(resolved_ok(em1, invs, pv2));
            // shape of the open segment
            assert(cur_c.recs().len() < segment_size);
            assert(out_ok(out@, cur, segment_size as int));
            // the heap and consumed records sit at or above the new key
            assert forall|e: MetaKey| #[trigger] hs2.count(e) > 0 implies above_prev(
                pv2,
                e.key@,
            ) by {
                assert(lex_le(mg.key@, e.key@));
            }
            assert forall|j: int, q: int|
                0 <= j < invs.len() && 0 <= q < settled(pos@, live, j) implies below_prev(
                pv2,
                (#[trigger] invs[j][q]).0,
            ) by {
                if j == i as int && q == mrec {
                    assert(invs[j][q].0 == mv.0);
                } else {
                    assert(below_prev(pv, invs[j][q].0));
                    let p = pv.unwrap();
                    lemma_lex_le_transitive(invs[j][q].0, p, mv.0);
                }
            }
        }
    }
    // The heap is drained: every input record was consumed and resolved.
    let ghost em_end = emitted_of(out@, cur);
    let ghost pv_end = prev_view(prev);
    proof {
        lemma_count_live_zero(live);
        assert forall|k: Seq<char>| latest_val(invs, k) is Some implies below_prev(
            pv_end,
            k,
        ) by {
            lemma_latest_val_witness(invs, k);
            let j = choose|j: int|
                0 <= j < invs.len() && (#[trigger] map_of(invs[j])).contains_key(k);
            lemma_map_of_contains(invs[j]);
            let q = choose|q: int| 0 <= q < invs[j].len() && invs[j][q].0 == k;
            assert(!live[j]);
            assert(settled(pos@, live, j) == pos@[j]);
            assert(pos@[j] == invs[j].len());
            assert(below_prev(pv_end, invs[j][q].0));
        }
    }
    let ghost out_b = out@;
    let ghost cur_b = cur;
    let sealed_last = cur.size() > 0;
    if sealed_last {
        out.push(cur);
    }
    proof {
        let outv = out@;
        let all = flatten_recs(seg_views(outv));
        if sealed_last {
            assert(seg_views(outv) =~= seg_views(out_b).push(cur_b.recs()));
            assert(seg_views(outv).drop_last() =~= seg_views(out_b));
            assert(all == flatten_recs(seg_views(out_b)) + cur_b.recs());
            assert(all =~= em_end);
        } else {
            assert(cur_b.recs().len() == 0);
            assert(all =~= em_end);
        }
        assert(sorted_strict(all));
        lemma_generation_sorted(seg_views(outv));
        assert forall|ii: int| 0 <= ii < outv.len() implies {
            &&& (#[trigger] outv[ii]).wf()
            &&& sorted_strict(outv[ii].recs())
            &&& 0 < outv[ii].recs().len() <= segment_size as int
            &&& (ii < outv.len() - 1 ==> outv[ii].recs().len() == segment_size as int)
            &&& outv[ii].stamp() == ii as u64
        } by {
            assert(seg_views(outv)[ii] == outv[ii].recs());
            if sealed_last {
                if ii < out_b.len() {
                    assert(outv[ii] == out_b[ii]);
                } else {
                    assert(outv[ii] == cur_b);
                }
            }
        }
        assert forall|k: Seq<char>|
            #![trigger map_of(all).contains_key(k)]
            #![trigger latest_val(invs, k)]
            map_of(all).contains_key(k) <==> latest_val(invs, k) is Some by {
            if map_of(all).contains_key(k) {
                assert(map_of(em_end).contains_key(k));
            }
            if latest_val(invs, k) is Some {
                assert(below_prev(pv_end, k));
                assert(map_of(em_end).contains_key(k));
            }
        }
        assert forall|k: Seq<char>| #[trigger] map_of(all).contains_key(k) implies Some(
            map_of(all)[k],
        ) == latest_val(invs, k) by {
            assert(map_of(em_end).contains_key(k));
        }
        assert(merged_generation(invs, segment_size as int, outv));
    }
    Ok(out)
}

} // verus!

verus! {

/// Resolving newest-first across a generation is looking the key up in
/// the generation's records, later entries overriding earlier ones.
pub proof fn lemma_latest_is_flat(vs: Seq<Seq<RecView>>)
    ensures
        forall|k: Seq<char>|
            (latest_val(vs, k) is Some) == (#[trigger] map_of(flatten_recs(vs))).contains_key(k),
        forall|k: Seq<char>|
            (#[trigger] map_of(flatten_recs(vs))).contains_key(k) ==> latest_val(vs, k) == Some(
                map_of(flatten_recs(vs))[k],
            ),
    decreases vs.len(),
{
    if vs.len() == 0 {
        assert(flatten_recs(vs) =~= Seq::<RecView>::empty());
    } else {
        lemma_latest_is_flat(vs.drop_last());
        crate::sorted::lemma_map_of_concat(flatten_recs(vs.drop_last()), vs.last());
        assert(flatten_recs(vs) == flatten_recs(vs.drop_last()) + vs.last());
    }
}

} // verus!

verus! {

/// A successful search saw a record carrying the key it returned.
pub proof fn lemma_search_some_witness(rs: Seq<RecView>, key: Seq<char>, from: int)
    requires
        search_spec(rs, key, from) is Some,
    ensures
        exists|i: int|
            from <= i < rs.len() && #[trigger] rs[i] == (key, search_spec(rs, key, from).unwrap()),
    decreases rs.len() - from,
{
    if 0 <= from && from < rs.len() {
        if lex_le(key, rs[from].0) {
            assert(rs[from] == (key, search_spec(rs, key, from).unwrap()));
        } else {
            lemma_search_some_witness(rs, key, from + 1);
            let i = choose|i: int|
                from + 1 <= i < rs.len() && #[trigger] rs[i] == (
                key,
                search_spec(rs, key, from + 1).unwrap(),
                );
            assert(rs[i] == (key, search_spec(rs, key, from).unwrap()));
        }
    }
}

impl Segment {
    /// The record at `off`, read for index building.
    pub(crate) fn record_at(&self, off: usize) -> (r: &KVPair)
        requires
            off < self.recs().len(),
        ensures
            r@ == self.recs()[off as int],
    {
        &self.records[off]
    }

    /// A well-formed segment's records never decrease in key.
    pub proof fn lemma_sorted(self)
        requires
            self.wf(),
        ensures
            crate::sorted::sorted_nondec(self.recs()),
    {
    }
}

} // verus!

verus! {

impl SstError {
    /// The error described in words, standing in for a `Display` form.
    pub fn message(&self) -> (r: String)
        ensures
            match self {
                SstError::UnsortedWrite { previous, current } => r@ == "Attempted to write "@
                    + current@ + " but previous key is "@ + previous@,
            },
    {
        match self {
            SstError::UnsortedWrite { previous, current } => {
                let mut out = String::from_str("Attempted to write ");
                out.append(current.as_str());
                out.append(" but previous key is ");
                out.append(previous.as_str());
                proof {
                    assert(out@ =~= "Attempted to write "@ + current@
                        + " but previous key is "@ + previous@);
                }
                out
            },
        }
    }
}

} // verus!
