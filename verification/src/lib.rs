//! An embedded key-value store built on log-structured merge trees.
//!
//! Writes are absorbed by a bounded in-memory table and, on reaching
//! capacity, flushed into sorted, append-only segments which a k-way
//! merge compacts into a fresh generation with duplicates resolved in
//! favour of the most recent writer. Reads consult the memtable, then a
//! sparse index over the merged segments, then the segments themselves.
//! An optional write-ahead log records every mutation for recovery.
//!
//! The engine's observable behaviour is captured by one abstraction: a
//! map from keys to raw stored values, in which a distinguished
//! tombstone value marks deletion. `write` inserts into that map,
//! `delete` inserts the tombstone, and `read` looks a key up, hiding
//! tombstones.

use vstd::prelude::*;

pub mod keys;
pub mod kv;
pub mod memtable;
pub mod sorted;
pub mod sst;
pub mod wal;

verus! {

use crate::kv::KVPair;
use crate::kv::KvError;
use crate::kv::RecView;
use crate::memtable::Memtable;
use crate::sst::Segment;
use crate::sst::SstError;
use crate::sst::merge;
use crate::sst::seg_views;
use crate::sst::flatten_recs;
use crate::sst::len_upto;
use crate::sst::search_spec;
use crate::sst::lemma_search_found;
use crate::sst::lemma_search_some_witness;
use crate::sst::lemma_latest_is_flat;
use crate::sst::lemma_flatten_recs_len;
use crate::sst::lemma_flatten_recs_index;
use crate::sst::lemma_flatten_recs_origin;
use crate::sst::lemma_len_upto_mono;
use crate::sst::lemma_len_upto_nonneg;
use crate::wal::Wal;
use crate::keys::lex_lt;
use crate::keys::lex_le;
use crate::keys::key_eq;
use crate::keys::lemma_lex_lt_irreflexive;
use crate::keys::lemma_lex_le_lt_transitive;
use crate::sorted::sorted_strict;
use crate::sorted::map_of;
use crate::sorted::lemma_sorted_strict_unique;
use crate::sorted::lemma_map_of_contains;
use crate::sorted::lemma_map_of_index;
use crate::sorted::lemma_map_of_push;
use crate::sorted::lemma_union_insert_right;
use crate::sorted::lemma_union_empty_right;

/// The distinguished value that marks a deleted key. It is reserved:
/// user values must not collide with it, and the store's guarantees
/// about reading back what was written are stated for values other
/// than it.
pub open spec fn tombstone() -> Seq<char> {
    "t0mbst0ne_1qaz2wsx3e"@
}

/// The tombstone as a string, for storing and for comparing against.
pub fn tombstone_value() -> (s: String)
    ensures
        s@ == tombstone(),
{
    String::from_str("t0mbst0ne_1qaz2wsx3e")
}

/// What a read of `k` observes over the raw stored mapping `m`: the
/// stored value, unless none is stored or the stored value is the
/// tombstone.
pub open spec fn lookup(m: Map<Seq<char>, Seq<char>>, k: Seq<char>) -> Option<Seq<char>> {
    if m.contains_key(k) && m[k] != tombstone() {
        Some(m[k])
    } else {
        None
    }
}

/// Errors of the engine: those of the segment layer and of the codec.
#[derive(Debug)]
pub enum Error {
    SstError(SstError),
    KvError(KvError),
}

/// The store: a memtable over a merged generation of sorted segments,
/// with a sparse index and an optional write-ahead log.
pub struct LSMEngine {
    memtable: Memtable<String>,
    segments: Vec<Segment>,
    segment_size: usize,
    sparse_memory_index: Vec<(String, (u64, usize))>,
    sparse_offset: usize,
    wal: Option<Wal>,
}

impl LSMEngine {
    /// The memtable's mapping, by view.
    pub closed spec fn mem_map(self) -> Map<Seq<char>, Seq<char>> {
        self.memtable@.map_values(|v: String| v@)
    }

    /// The segment list, by view.
    pub closed spec fn segments_view(self) -> Seq<Segment> {
        self.segments@
    }

    /// The sparse index's entries, by view, in key order.
    pub closed spec fn index_view(self) -> Seq<(Seq<char>, (u64, usize))> {
        self.sparse_memory_index@.map_values(|e: (String, (u64, usize))| (e.0@, e.1))
    }

    /// The mapping stored in the segment generation.
    pub closed spec fn seg_map(self) -> Map<Seq<char>, Seq<char>> {
        map_of(flatten_recs(seg_views(self.segments@)))
    }

    /// The raw stored mapping: the generation overlaid by the memtable.
    pub open spec fn model(self) -> Map<Seq<char>, Seq<char>> {
        self.seg_map().union_prefer_right(self.mem_map())
    }

    /// The logged records, if a write-ahead log is attached.
    pub closed spec fn wal_recs(self) -> Option<Seq<RecView>> {
        match self.wal {
            None => None,
            Some(w) => Some(w.recs()),
        }
    }

    /// The memtable's distinct-key capacity.
    pub closed spec fn cap(self) -> int {
        self.memtable.cap_spec()
    }

    /// The target number of records per merged segment.
    pub closed spec fn seg_size(self) -> int {
        self.segment_size as int
    }

    /// One of every this many merged records is indexed.
    pub closed spec fn sparse(self) -> int {
        self.sparse_offset as int
    }

    /// The segment generation is globally strictly sorted and every
    /// segment in it is well-formed and non-empty.
    spec fn generation_ok(self) -> bool {
        &&& sorted_strict(flatten_recs(seg_views(self.segments@)))
        &&& forall|i: int|
            0 <= i < self.segments@.len() ==> {
                &&& (#[trigger] self.segments@[i]).wf()
                &&& sorted_strict(self.segments@[i].recs())
                &&& self.segments@[i].recs().len() > 0
                // each segment was stamped above everything before it
                &&& self.segments@[i].stamp() == i as u64
            }
    }

    /// Every index entry names a real record, the entries are in key
    /// order, and the generation's first record is indexed.
    spec fn index_ok(self) -> bool {
        let idxv = self.index_view();
        &&& sorted_strict(idxv)
        &&& (forall|a: int|
            0 <= a < idxv.len() ==> {
                let e = #[trigger] idxv[a];
                &&& e.1.1 < self.segments@.len()
                &&& (e.1.0 as int) < self.segments@[e.1.1 as int].recs().len()
                &&& self.segments@[e.1.1 as int].recs()[e.1.0 as int].0 == e.0
            })
        &&& (self.segments@.len() > 0 ==> {
            &&& idxv.len() > 0
            &&& self.segments@[0].recs().len() > 0
            &&& idxv[0] == (self.segments@[0].recs()[0].0, (0u64, 0usize))
        })
    }

    /// An attached log's replay is exactly the stored mapping.
    spec fn wal_ok(self) -> bool {
        match self.wal {
            None => true,
            Some(w) => map_of(w.recs()) == self.model(),
        }
    }

    /// The engine's invariant, established by construction and kept by
    /// every operation.
    pub closed spec fn wf(self) -> bool {
        &&& self.memtable.wf()
        &&& self.memtable.cap_spec() >= 1
        &&& self.segment_size >= 1
        &&& self.sparse_offset >= 1
        &&& self.memtable.cap_spec() <= self.segment_size as int
        &&& self.generation_ok()
        &&& self.index_ok()
        &&& self.wal_ok()
    }

    fn new(
        inmemory_capacity: usize,
        segment_size: usize,
        sparse_offset: usize,
        wal: Option<Wal>,
    ) -> (e: LSMEngine)
        requires
            1 <= inmemory_capacity,
            inmemory_capacity <= segment_size,
            1 <= sparse_offset,
            wal matches Some(w) ==> w.recs().len() == 0,
        ensures
            e.wf(),
            e.model() == Map::<Seq<char>, Seq<char>>::empty(),
            e.wal_recs() == match wal {
                Some(w) => Some(w.recs()),
                None => None::<Seq<RecView>>,
            },
            e.cap() == inmemory_capacity,
            e.seg_size() == segment_size,
            e.sparse() == sparse_offset,
    {
        let e = LSMEngine {
            memtable: Memtable::new(inmemory_capacity),
            segments: Vec::new(),
            sparse_memory_index: Vec::new(),
            segment_size,
            sparse_offset,
            wal,
        };
        proof {
            assert(seg_views(e.segments@) =~= Seq::<Seq<RecView>>::empty());
            assert(flatten_recs(seg_views(e.segments@)) =~= Seq::<RecView>::empty());
            assert(e.index_view() =~= Seq::<(Seq<char>, (u64, usize))>::empty());
            assert(e.mem_map() =~= Map::<Seq<char>, Seq<char>>::empty());
            assert(e.model() =~= Map::<Seq<char>, Seq<char>>::empty());
            match &e.wal {
                Some(w) => {
                    assert(w.recs() =~= Seq::<RecView>::empty());
                    assert(map_of(w.recs()) =~= Map::<Seq<char>, Seq<char>>::empty());
                },
                None => {},
            }
        }
        e
    }

    /// Whether a write-ahead log is attached.
    pub fn has_wal(&self) -> (r: bool)
        ensures
            r == (self.wal_recs() is Some),
    {
        self.wal.is_some()
    }

    /// Detach and return the write-ahead log, for the host to persist
    /// or to hand to a fresh engine's recovery.
    pub fn take_wal(&mut self) -> (r: Option<Wal>)
        ensures
            match r {
                Some(w) => old(self).wal_recs() == Some(w.recs()),
                None => old(self).wal_recs() is None,
            },
            final(self).wal_recs() is None,
            final(self).model() == old(self).model(),
    {
        let mut w: Option<Wal> = None;
        core::mem::swap(&mut self.wal, &mut w);
        w
    }
}

/// The fluent way to configure and construct an engine.
pub struct LSMBuilder {
    persist_data: bool,
    segment_size: usize,
    sparse_offset: usize,
    inmemory_capacity: usize,
    wal: Option<Wal>,
}

impl LSMBuilder {
    /// The configured memtable capacity.
    pub closed spec fn cap(self) -> int {
        self.inmemory_capacity as int
    }

    /// The configured segment size target.
    pub closed spec fn seg_size(self) -> int {
        self.segment_size as int
    }

    /// The configured sparse index stride.
    pub closed spec fn sparse(self) -> int {
        self.sparse_offset as int
    }

    /// Whether a write-ahead log will be attached.
    pub closed spec fn wal_on(self) -> bool {
        self.wal is Some
    }

    /// The attached log, if any, holds nothing yet.
    pub closed spec fn wal_fresh(self) -> bool {
        match self.wal {
            Some(w) => w.recs().len() == 0,
            None => true,
        }
    }

    /// A builder with the defaults: capacity 500, segment size 1500,
    /// sparse stride 35, no persistence, no log.
    pub fn new() -> (b: LSMBuilder)
        ensures
            b.cap() == 500,
            b.seg_size() == 1500,
            b.sparse() == 35,
            !b.wal_on(),
            b.wal_fresh(),
    {
        LSMBuilder {
            persist_data: false,
            segment_size: 1500,
            sparse_offset: 35,
            inmemory_capacity: 500,
            wal: None,
        }
    }

    /// Choose whether segments use named persistent files; temp-file
    /// allocation itself is the host's concern.
    pub fn persist_data(self, persist: bool) -> (b: Self)
        ensures
            b.cap() == self.cap(),
            b.seg_size() == self.seg_size(),
            b.sparse() == self.sparse(),
            b.wal_on() == self.wal_on(),
            b.wal_fresh() == self.wal_fresh(),
    {
        let mut b = self;
        b.persist_data = persist;
        b
    }

    /// The maximum number of records per merged segment.
    pub fn segment_size(self, size: usize) -> (b: Self)
        ensures
            b.cap() == self.cap(),
            b.seg_size() == size,
            b.sparse() == self.sparse(),
            b.wal_on() == self.wal_on(),
            b.wal_fresh() == self.wal_fresh(),
    {
        let mut b = self;
        b.segment_size = size;
        b
    }

    /// Index one of every `sparse_offset` merged records.
    pub fn sparse_offset(self, sparse_offset: usize) -> (b: Self)
        ensures
            b.cap() == self.cap(),
            b.seg_size() == self.seg_size(),
            b.sparse() == sparse_offset,
            b.wal_on() == self.wal_on(),
            b.wal_fresh() == self.wal_fresh(),
    {
        let mut b = self;
        b.sparse_offset = sparse_offset;
        b
    }

    /// The memtable's distinct-key capacity, the flush trigger.
    pub fn inmemory_capacity(self, inmemory_capacity: usize) -> (b: Self)
        ensures
            b.cap() == inmemory_capacity,
            b.seg_size() == self.seg_size(),
            b.sparse() == self.sparse(),
            b.wal_on() == self.wal_on(),
            b.wal_fresh() == self.wal_fresh(),
    {
        let mut b = self;
        b.inmemory_capacity = inmemory_capacity;
        b
    }

    /// Attach a fresh write-ahead log. Opening the log's backing file
    /// is the host's concern; the engine records every mutation in it.
    pub fn with_wal(self) -> (b: Self)
        ensures
            b.cap() == self.cap(),
            b.seg_size() == self.seg_size(),
            b.sparse() == self.sparse(),
            b.wal_on(),
            b.wal_fresh(),
    {
        let mut b = self;
        b.wal = Some(Wal::new());
        b
    }

    /// Construct the engine. The configuration must be sensible: the
    /// three sizes positive, and the segment size at least the
    /// memtable capacity.
    pub fn build(self) -> (e: LSMEngine)
        requires
            1 <= self.cap(),
            self.cap() <= self.seg_size(),
            1 <= self.sparse(),
            self.wal_fresh(),
        ensures
            e.wf(),
            e.model() == Map::<Seq<char>, Seq<char>>::empty(),
            e.wal_recs() is Some <==> self.wal_on(),
            e.wal_recs() matches Some(w) ==> w.len() == 0,
            e.cap() == self.cap(),
            e.seg_size() == self.seg_size(),
            e.sparse() == self.sparse(),
    {
        LSMEngine::new(self.inmemory_capacity, self.segment_size, self.sparse_offset, self.wal)
    }
}

impl Default for LSMEngine {
    /// An engine with the builder's default configuration.
    fn default() -> (e: Self)
        ensures
            e.wf(),
            e.model() == Map::<Seq<char>, Seq<char>>::empty(),
            e.wal_recs() is None,
    {
        LSMBuilder::new().build()
    }
}

} // verus!

verus! {

impl LSMEngine {
    /// Drop the whole segment generation and the sparse index.
    fn clear(&mut self)
        ensures
            final(self).segments@ == Seq::<Segment>::empty(),
            final(self).sparse_memory_index@.len() == 0,
            final(self).index_view() == Seq::<(Seq<char>, (u64, usize))>::empty(),
            final(self).seg_map() == Map::<Seq<char>, Seq<char>>::empty(),
            final(self).memtable == old(self).memtable,
            final(self).wal == old(self).wal,
            final(self).segment_size == old(self).segment_size,
            final(self).sparse_offset == old(self).sparse_offset,
    {
        self.segments.clear();
        self.sparse_memory_index.clear();
        proof {
            assert(self.index_view() =~= Seq::<(Seq<char>, (u64, usize))>::empty());
            assert(seg_views(self.segments@) =~= Seq::<Seq<RecView>>::empty());
            assert(flatten_recs(seg_views(self.segments@)) =~= Seq::<RecView>::empty());
            assert(self.seg_map() =~= Map::<Seq<char>, Seq<char>>::empty());
        }
    }

    /// Drain the memtable into a fresh segment. The drain's ascending
    /// order makes the segment sorted with no further work.
    fn flush_memtable(&mut self) -> (r: Result<Segment, Error>)
        requires
            old(self).memtable.wf(),
        ensures
            match r {
                Ok(s) => {
                    &&& s.wf()
                    &&& sorted_strict(s.recs())
                    &&& map_of(s.recs()) == old(self).mem_map()
                    &&& s.recs().len() == old(self).memtable.len_spec()
                    &&& final(self).memtable.wf()
                    &&& final(self).mem_map() == Map::<Seq<char>, Seq<char>>::empty()
                    &&& final(self).memtable.len_spec() == 0
                    &&& final(self).memtable.cap_spec() == old(self).memtable.cap_spec()
                    &&& final(self).segments@ == old(self).segments@
                    &&& final(self).sparse_memory_index@ == old(self).sparse_memory_index@
                    &&& final(self).wal == old(self).wal
                    &&& final(self).segment_size == old(self).segment_size
                    &&& final(self).sparse_offset == old(self).sparse_offset
                },
                Err(_) => false,
            },
    {
        let ghost old_mem = old(self).mem_map();
        let drained = self.memtable.drain();
        let ghost dview = drained@.map_values(|e: (String, String)| (e.0@, e.1));
        let ghost rv = drained@.map_values(|e: (String, String)| (e.0@, e.1@));
        proof {
            assert(self.mem_map() =~= Map::<Seq<char>, Seq<char>>::empty());
            assert forall|q: int| 0 <= q < rv.len() implies #[trigger] rv[q] == (dview[q].0,
            dview[q].1@) by {}
        }
        let stamp = self.segments.len() as u64;
        let mut seg = Segment::with_timestamp(stamp);
        let n = drained.len();
        let ghost snap = *self;
        proof {
            assert(seg.recs() =~= rv.subrange(0, 0));
        }
        let mut i: usize = 0;
        while i < n
            invariant
                i <= n,
                n == drained@.len(),
                *self == snap,
                rv == drained@.map_values(|e: (String, String)| (e.0@, e.1@)),
                dview == drained@.map_values(|e: (String, String)| (e.0@, e.1)),
                sorted_strict(dview),
                forall|q: int| 0 <= q < rv.len() ==> #[trigger] rv[q] == (dview[q].0, dview[q].1@),
                seg.recs() == rv.subrange(0, i as int),
                seg.wf(),
                seg.stamp() == snap.segments@.len() as u64,
                i > 0 ==> seg.prev_key_view() == Some(rv[i - 1].0),
                i == 0 ==> seg.prev_key_view() is None,
            decreases n - i,
        {
            let kv = KVPair { key: drained[i].0.clone(), value: drained[i].1.clone() };
            proof {
                assert(kv@ == rv[i as int]);
                if i > 0 {
                    assert(lex_lt(dview[i - 1].0, dview[i as int].0));
                    assert(seg.can_append(kv@.0));
                }
            }
            let wr = seg.write(kv);
            match wr {
                Ok(_) => {},
                Err(e) => {
                    proof {
                        assert(false);
                    }
                    return Err(Error::SstError(e));
                },
            }
            proof {
                assert(seg.recs() =~= rv.subrange(0, i + 1));
            }
            i = i + 1;
        }
        proof {
            assert(rv.subrange(0, n as int) =~= rv);
            assert(sorted_strict(rv)) by {
                assert forall|a: int, b: int| 0 <= a < b < rv.len() implies lex_lt(
                    rv[a].0,
                    rv[b].0,
                ) by {
                    assert(lex_lt(dview[a].0, dview[b].0));
                }
            }
            lemma_sorted_strict_unique(dview);
            lemma_sorted_strict_unique(rv);
            lemma_map_of_contains(dview);
            lemma_map_of_index(dview);
            lemma_map_of_contains(rv);
            lemma_map_of_index(rv);
            assert(map_of(rv) =~= old_mem) by {
                assert forall|k: Seq<char>| #[trigger] map_of(rv).contains_key(k) implies old_mem.contains_key(
                    k,
                ) && old_mem[k] == map_of(rv)[k] by {
                    let q = choose|q: int| 0 <= q < rv.len() && rv[q].0 == k;
                    assert(dview[q].0 == k);
                    assert(map_of(dview).contains_key(k));
                    assert(map_of(dview)[k] == dview[q].1);
                    assert(map_of(rv)[k] == rv[q].1);
                }
                assert forall|k: Seq<char>| #[trigger] old_mem.contains_key(k) implies map_of(
                    rv,
                ).contains_key(k) by {
                    assert(map_of(dview).contains_key(k));
                    let q = choose|q: int| 0 <= q < dview.len() && dview[q].0 == k;
                    assert(rv[q].0 == k);
                }
            }
        }
        Ok(seg)
    }

    /// Run one compaction pass over the whole generation and rebuild
    /// the sparse index from the result, indexing one of every
    /// `sparse_offset` merged records, the first record included. The
    /// stored mapping of the generation is unchanged.
    fn merge_segments(&mut self) -> (r: Result<(), Error>)
        requires
            old(self).segment_size >= 1,
            old(self).sparse_offset >= 1,
            forall|i: int|
                0 <= i < old(self).segments@.len() ==> (#[trigger] old(self).segments@[i]).wf()
                    && sorted_strict(old(self).segments@[i].recs()),
        ensures
            match r {
                Ok(u) => {
                    &&& final(self).generation_ok()
                    &&& final(self).index_ok()
                    &&& final(self).seg_map() == old(self).seg_map()
                    &&& final(self).memtable == old(self).memtable
                    &&& final(self).wal == old(self).wal
                    &&& final(self).segment_size == old(self).segment_size
                    &&& final(self).sparse_offset == old(self).sparse_offset
                },
                Err(_) => false,
            },
    {
        self.sparse_memory_index.clear();
        let mut taken: Vec<Segment> = Vec::new();
        core::mem::swap(&mut self.segments, &mut taken);
        let ghost oldsegs = taken@;
        proof {
            assert(oldsegs == old(self).segments@);
        }
        let merged = merge(taken, self.segment_size);
        let generation = match merged {
            Ok(g) => g,
            Err(e) => {
                proof {
                    assert(false);
                }
                return Err(Error::SstError(e));
            },
        };
        self.segments = generation;
        proof {
            let oldall = flatten_recs(seg_views(oldsegs));
            let newall = flatten_recs(seg_views(self.segments@));
            lemma_latest_is_flat(seg_views(oldsegs));
            assert(map_of(newall) =~= map_of(oldall)) by {
                assert forall|k: Seq<char>| #[trigger] map_of(newall).contains_key(k) implies map_of(
                    oldall,
                ).contains_key(k) && map_of(oldall)[k] == map_of(newall)[k] by {
                    assert(crate::sst::latest_val(seg_views(oldsegs), k) is Some);
                }
                assert forall|k: Seq<char>| #[trigger] map_of(oldall).contains_key(k) implies map_of(
                    newall,
                ).contains_key(k) by {
                    assert(crate::sst::latest_val(seg_views(oldsegs), k) is Some);
                }
            }
            assert(self.generation_ok()) by {
                assert forall|i: int| 0 <= i < self.segments@.len() implies {
                    &&& (#[trigger] self.segments@[i]).wf()
                    &&& sorted_strict(self.segments@[i].recs())
                    &&& self.segments@[i].recs().len() > 0
                } by {}
            }
        }
        // Rebuild the sparse index by walking the new generation in
        // global record order.
        let ghost snap = *self;
        let ghost vs = seg_views(self.segments@);
        let ghost all = flatten_recs(vs);
        let scount = self.segments.len();
        let mut cnt_mod: usize = 0;
        let ghost mut gpos: int = 0;
        let ghost mut ipos: Seq<int> = Seq::empty();
        let mut ix: usize = 0;
        proof {
            assert(self.index_view() =~= Seq::<(Seq<char>, (u64, usize))>::empty());
            lemma_flatten_recs_len(vs);
            lemma_sorted_strict_unique(all);
        }
        while ix < scount
            invariant
                ix <= scount,
                scount == self.segments@.len(),
                self.segments@ == snap.segments@,
                self.memtable == snap.memtable,
                self.wal == snap.wal,
                self.segment_size == snap.segment_size,
                self.sparse_offset == snap.sparse_offset,
                self.sparse_offset >= 1,
                vs == seg_views(self.segments@),
                all == flatten_recs(vs),
                all.len() == len_upto(vs, scount as int),
                sorted_strict(all),
                forall|s: int|
                    0 <= s < scount ==> (#[trigger] self.segments@[s]).wf() && sorted_strict(
                        self.segments@[s].recs(),
                    ) && self.segments@[s].recs().len() > 0,
                gpos == len_upto(vs, ix as int),
                gpos == 0 ==> cnt_mod == 0,
                cnt_mod < self.sparse_offset,
                ipos.len() == self.index_view().len(),
                forall|a: int|
                    0 <= a < ipos.len() ==> 0 <= #[trigger] ipos[a] < gpos,
                forall|a: int|
                    0 <= a < ipos.len() ==> (#[trigger] self.index_view()[a]).0 == all[ipos[a]].0,
                forall|a: int|
                    0 <= a < self.index_view().len() ==> {
                        let e = #[trigger] self.index_view()[a];
                        &&& e.1.1 < self.segments@.len()
                        &&& (e.1.0 as int) < self.segments@[e.1.1 as int].recs().len()
                        &&& self.segments@[e.1.1 as int].recs()[e.1.0 as int].0 == e.0
                    },
                sorted_strict(self.index_view()),
                gpos > 0 ==> self.index_view().len() > 0 && self.index_view()[0] == (
                all[0].0,
                (0u64, 0usize),
                ),
            decreases scount - ix,
        {
            let seg_len = self.segments[ix].size();
            proof {
                assert(self.segments@[ix as int].recs().len() == seg_len);
                lemma_len_upto_nonneg(vs, ix as int);
            }
            let mut off: usize = 0;
            while off < seg_len
                invariant
                    off <= seg_len,
                    ix < scount,
                    scount == self.segments@.len(),
                    seg_len == self.segments@[ix as int].recs().len(),
                    self.segments@ == snap.segments@,
                    self.memtable == snap.memtable,
                    self.wal == snap.wal,
                    self.segment_size == snap.segment_size,
                    self.sparse_offset == snap.sparse_offset,
                    self.sparse_offset >= 1,
                    vs == seg_views(self.segments@),
                    all == flatten_recs(vs),
                    all.len() == len_upto(vs, scount as int),
                    sorted_strict(all),
                    forall|s: int|
                        0 <= s < scount ==> (#[trigger] self.segments@[s]).wf() && sorted_strict(
                            self.segments@[s].recs(),
                        ) && self.segments@[s].recs().len() > 0,
                    gpos == len_upto(vs, ix as int) + off,
                    gpos == 0 ==> cnt_mod == 0,
                    cnt_mod < self.sparse_offset,
                    ipos.len() == self.index_view().len(),
                    forall|a: int|
                        0 <= a < ipos.len() ==> 0 <= #[trigger] ipos[a] < gpos,
                    forall|a: int|
                        0 <= a < ipos.len() ==> (#[trigger] self.index_view()[a]).0 == all[
                        ipos[a]].0,
                    forall|a: int|
                        0 <= a < self.index_view().len() ==> {
                            let e = #[trigger] self.index_view()[a];
                            &&& e.1.1 < self.segments@.len()
                            &&& (e.1.0 as int) < self.segments@[e.1.1 as int].recs().len()
                            &&& self.segments@[e.1.1 as int].recs()[e.1.0 as int].0 == e.0
                        },
                    sorted_strict(self.index_view()),
                    gpos > 0 ==> self.index_view().len() > 0 && self.index_view()[0] == (
                    all[0].0,
                    (0u64, 0usize),
                    ),
                decreases seg_len - off,
            {
                proof {
                    assert(vs[ix as int] == self.segments@[ix as int].recs());
                    lemma_flatten_recs_index(vs, ix as int, off as int);
                }
                if cnt_mod == 0 {
                    let rec = self.segments[ix].record_at(off);
                    let entry_key = rec.key.clone();
                    let ghost oldidx = self.index_view();
                    let ghost oldipos = ipos;
                    self.sparse_memory_index.push((entry_key, (off as u64, ix)));
                    proof {
                        ipos = ipos.push(gpos);
                        let newe = (all[gpos].0, (off as u64, ix));
                        assert(self.index_view() =~= oldidx.push(newe));
                        assert forall|a: int, b: int|
                            0 <= a < b < self.index_view().len() implies lex_lt(
                            self.index_view()[a].0,
                            self.index_view()[b].0,
                        ) by {
                            if b == self.index_view().len() - 1 {
                                assert(self.index_view()[a] == oldidx[a]);
                                assert(oldidx[a].0 == all[oldipos[a]].0);
                                assert(oldipos[a] < gpos);
                                assert(lex_lt(all[oldipos[a]].0, all[gpos].0));
                            } else {
                                assert(self.index_view()[a] == oldidx[a]);
                                assert(self.index_view()[b] == oldidx[b]);
                            }
                        }
                        if gpos == 0 {
                            assert(len_upto(vs, ix as int) + off == 0);
                            if ix > 0 {
                                lemma_len_upto_mono(vs, 1, ix as int);
                                assert(len_upto(vs, 0) == 0);
                                assert(len_upto(vs, 1) == vs[0].len());
                                assert(vs[0].len() > 0);
                                assert(false);
                            }
                            assert(ix == 0 && off == 0);
                            if oldipos.len() > 0 {
                                assert(0 <= oldipos[0] < gpos);
                                assert(false);
                            }
                            assert(oldidx.len() == 0);
                            assert(self.index_view()[0] == (all[0].0, (0u64, 0usize)));
                        }
                    }
                }
                cnt_mod = if cnt_mod + 1 == self.sparse_offset {
                    0
                } else {
                    cnt_mod + 1
                };
                proof {
                    gpos = gpos + 1;
                }
                off = off + 1;
            }
            proof {
                assert(len_upto(vs, ix + 1) == len_upto(vs, ix as int) + vs[ix as int].len());
            }
            ix = ix + 1;
        }
        proof {
            if self.segments@.len() > 0 {
                lemma_len_upto_mono(vs, 1, scount as int);
                assert(len_upto(vs, 0) == 0);
                assert(len_upto(vs, 1) == vs[0].len());
                assert(gpos > 0);
            }
            assert(self.index_ok());
            assert(self.seg_map() == old(self).seg_map());
        }
        Ok(())
    }
}

} // verus!

verus! {

impl LSMEngine {
    /// Store `value` under `key`: afterwards the stored mapping is the
    /// old mapping with this pair inserted. The pair is appended to the
    /// log first, if one is attached. At capacity, a write of a new key
    /// flushes the memtable into a fresh segment and compacts the whole
    /// generation; a write of a present key never triggers a flush.
    pub fn write(&mut self, key: String, value: String) -> (r: Result<(), Error>)
        requires
            old(self).wf(),
        ensures
            final(self).wf(),
            r is Ok,
            final(self).model() == old(self).model().insert(key@, value@),
            final(self).wal_recs() == match old(self).wal_recs() {
                Some(w) => Some(w.push((key@, value@))),
                None => None::<Seq<RecView>>,
            },
            final(self).cap() == old(self).cap(),
            final(self).seg_size() == old(self).seg_size(),
            final(self).sparse() == old(self).sparse(),
    {
        let ghost m0 = old(self).model();
        match &mut self.wal {
            Some(w) => {
                let kv = KVPair { key: key.clone(), value: value.clone() };
                let _ = w.persist(kv);
                proof {
                    lemma_map_of_push(old(self).wal_recs().unwrap(), (key@, value@));
                }
            },
            None => {},
        }
        proof {
            assert(self.memtable == old(self).memtable);
            assert(self.segments@ == old(self).segments@);
            assert(self.model() == m0);
        }
        let at_cap = self.memtable.at_capacity();
        let present = self.memtable.contains(key.as_str());
        let is_new = !present;
        if at_cap && is_new {
            let ghost pre_flush = *self;
            let flushed = match self.flush_memtable() {
                Ok(s) => s,
                Err(e) => {
                    proof {
                        assert(false);
                    }
                    return Err(e);
                },
            };
            let ghost segs1 = self.segments@;
            let ghost old_seg_map = self.seg_map();
            let ghost old_mem = pre_flush.mem_map();
            self.segments.push(flushed);
            proof {
                assert(seg_views(self.segments@) =~= seg_views(segs1).push(flushed.recs()));
                assert(seg_views(self.segments@).drop_last() =~= seg_views(segs1));
                assert(flatten_recs(seg_views(self.segments@)) == flatten_recs(seg_views(segs1))
                    + flushed.recs());
                crate::sorted::lemma_map_of_concat(
                    flatten_recs(seg_views(segs1)),
                    flushed.recs(),
                );
                assert(self.seg_map() == old_seg_map.union_prefer_right(map_of(flushed.recs())));
                assert(self.seg_map() == old_seg_map.union_prefer_right(old_mem));
            }
            let ghost gkey = key@;
            let ghost gval = value@;
            let ghost gvstr = value;
            self.memtable.insert(key, value);
            let ghost pre_merge = *self;
            proof {
                // every segment handed to the compaction is sorted
                assert forall|i: int| 0 <= i < self.segments@.len() implies (#[trigger] self.segments@[i]).wf()
                    && sorted_strict(self.segments@[i].recs()) by {
                    if i < segs1.len() {
                        assert(self.segments@[i] == segs1[i]);
                        assert(pre_flush.segments@[i] == segs1[i]);
                    } else {
                        assert(self.segments@[i] == flushed);
                    }
                }
            }
            let mr = self.merge_segments();
            match mr {
                Ok(u) => {},
                Err(e) => {
                    proof {
                        assert(false);
                    }
                    return Err(e);
                },
            }
            proof {
                // the generation now stores the old mapping overlaid by
                // the drained memtable; the memtable holds only the new
                // pair
                assert(self.seg_map() == old_seg_map.union_prefer_right(old_mem));
                assert(self.mem_map() =~= Map::<Seq<char>, Seq<char>>::empty().insert(
                    gkey,
                    gval,
                ));
                assert(self.model() =~= m0.insert(gkey, gval)) by {
                    assert(self.model() == old_seg_map.union_prefer_right(old_mem).union_prefer_right(
                        self.mem_map(),
                    ));
                }
                match &self.wal {
                    Some(w) => {
                        assert(map_of(w.recs()) == m0.insert(key@, value@));
                    },
                    None => {},
                }
                assert(self.wf());
            }
            Ok(())
        } else {
            let ghost mem1 = self.memtable@;
            let ghost gkey = key@;
            let ghost gval = value@;
            let ghost gvstr = value;
            self.memtable.insert(key, value);
            proof {
                assert(self.memtable@ == mem1.insert(gkey, gvstr));
                assert(gvstr@ == gval);
                assert(self.mem_map() =~= old(self).mem_map().insert(gkey, gval));
                lemma_union_insert_right(
                    self.seg_map(),
                    old(self).mem_map(),
                    gkey,
                    gval,
                );
                assert(self.seg_map() == old(self).seg_map());
                assert(self.model() == m0.insert(gkey, gval));
                match &self.wal {
                    Some(w) => {
                        assert(map_of(w.recs()) == m0.insert(key@, value@));
                    },
                    None => {},
                }
                assert(self.wf());
            }
            Ok(())
        }
    }
}

} // verus!

verus! {

impl LSMEngine {
    /// The greatest indexed key at or below `key`, with its payload.
    fn index_probe(&self, key: &str) -> (r: Option<(u64, usize)>)
        requires
            sorted_strict(self.index_view()),
        ensures
            match r {
                Some(p) => exists|a: int|
                    0 <= a < self.index_view().len() && (#[trigger] self.index_view()[a]).1 == p
                        && lex_le(self.index_view()[a].0, key@) && (forall|b: int|
                        a < b < self.index_view().len() ==> !lex_le(
                            self.index_view()[b].0,
                            key@,
                        )),
                None => forall|a: int|
                    0 <= a < self.index_view().len() ==> !lex_le(
                        (#[trigger] self.index_view()[a]).0,
                        key@,
                    ),
            },
    {
        let n = self.sparse_memory_index.len();
        let mut a: usize = 0;
        let mut best: Option<(u64, usize)> = None;
        let ghost mut besta: int = -1;
        while a < n
            invariant
                a <= n,
                n == self.sparse_memory_index@.len(),
                match best {
                    None => besta == -1 && forall|b: int|
                        0 <= b < a ==> !lex_le((#[trigger] self.index_view()[b]).0, key@),
                    Some(p) => 0 <= besta < a && self.index_view()[besta].1 == p && lex_le(
                        self.index_view()[besta].0,
                        key@,
                    ) && (forall|b: int|
                        besta < b < a ==> !lex_le((#[trigger] self.index_view()[b]).0, key@)),
                },
            decreases n - a,
        {
            proof {
                assert(self.index_view()[a as int] == (self.sparse_memory_index@[a as int].0@,
                self.sparse_memory_index@[a as int].1));
            }
            if crate::keys::key_le(self.sparse_memory_index[a].0.as_str(), key) {
                best = Some(self.sparse_memory_index[a].1);
                proof {
                    besta = a as int;
                }
            }
            a = a + 1;
        }
        best
    }

    /// Look `key` up: the stored value, unless none is stored or the
    /// stored value is the tombstone. The memtable is consulted first,
    /// then the generation, entered through the sparse index.
    #[verifier::rlimit(100)]
    pub fn read(&mut self, key: &str) -> (r: Result<Option<String>, Error>)
        requires
            old(self).wf(),
        ensures
            *final(self) == *old(self),
            r matches Ok(v) && match v {
                Some(s) => lookup(old(self).model(), key@) == Some(s@),
                None => lookup(old(self).model(), key@) is None,
            },
    {
        match self.memtable.get(key) {
            Some(v) => {
                proof {
                    assert(self.mem_map().contains_key(key@));
                    assert(self.mem_map()[key@] == v@);
                    assert(self.model().contains_key(key@));
                    assert(self.model()[key@] == v@);
                }
                let t = tombstone_value();
                if key_eq(v.as_str(), t.as_str()) {
                    return Ok(None);
                }
                return Ok(Some(v.clone()));
            },
            None => {},
        }
        let ghost vs = seg_views(self.segments@);
        let ghost all = flatten_recs(vs);
        proof {
            assert(!self.mem_map().contains_key(key@));
            assert(self.model().contains_key(key@) == self.seg_map().contains_key(key@));
            if self.seg_map().contains_key(key@) {
                assert(self.model()[key@] == self.seg_map()[key@]);
            }
            lemma_flatten_recs_len(vs);
            lemma_sorted_strict_unique(all);
            lemma_map_of_contains(all);
            lemma_map_of_index(all);
            assert forall|s: int| 0 <= s < vs.len() implies #[trigger] vs[s]
                == self.segments@[s].recs() by {}
        }
        let ghost in_gen = self.seg_map().contains_key(key@);
        let ghost gk: int = if in_gen {
            choose|g: int| 0 <= g < all.len() && all[g].0 == key@
        } else {
            0
        };
        let probe = self.index_probe(key);
        let pr = match probe {
            None => {
                proof {
                    if in_gen {
                        assert(0 <= gk < all.len() && all[gk].0 == key@);
                        if self.segments@.len() == 0 {
                            assert(vs =~= Seq::<Seq<RecView>>::empty());
                            assert(all =~= Seq::<RecView>::empty());
                        }
                        assert(self.segments@.len() > 0);
                        lemma_flatten_recs_index(vs, 0, 0);
                        assert(len_upto(vs, 0) == 0);
                        assert(all[0] == vs[0][0]);
                        assert(self.index_view()[0].0 == all[0].0);
                        if gk > 0 {
                            assert(lex_lt(all[0].0, all[gk].0));
                        }
                        assert(lex_le(self.index_view()[0].0, key@));
                        assert(false);
                    }
                }
                return Ok(None);
            },
            Some(p) => p,
        };
        let off = pr.0;
        let ix = pr.1;
        let ghost mut jx: int = 0;
        let ghost mut jp: int = 0;
        proof {
            if in_gen {
                let origin = lemma_flatten_recs_origin(vs, gk);
                jx = origin.0;
                jp = origin.1;
                let a = choose|a: int|
                    0 <= a < self.index_view().len() && (#[trigger] self.index_view()[a]).1 == (
                    off,
                    ix,
                    ) && lex_le(self.index_view()[a].0, key@) && (forall|b: int|
                        a < b < self.index_view().len() ==> !lex_le(
                            self.index_view()[b].0,
                            key@,
                        ));
                let e = self.index_view()[a];
                assert(e.1.1 == ix && e.1.0 == off);
                assert((ix as int) < self.segments@.len());
                assert((off as int) < self.segments@[ix as int].recs().len());
                assert(self.segments@[ix as int].recs()[off as int].0 == e.0);
                lemma_flatten_recs_index(vs, ix as int, off as int);
                let g0 = len_upto(vs, ix as int) + off;
                assert(all[g0].0 == e.0);
                // the probed position does not lie past the key
                if g0 > gk {
                    assert(lex_lt(all[gk].0, all[g0].0));
                    lemma_lex_le_lt_transitive(all[g0].0, key@, all[g0].0);
                    lemma_lex_lt_irreflexive(all[g0].0);
                }
                assert(g0 <= gk);
                if jx < ix as int {
                    lemma_len_upto_nonneg(vs, jx);
                    assert(len_upto(vs, jx + 1) == len_upto(vs, jx) + vs[jx].len());
                    lemma_len_upto_mono(vs, jx + 1, ix as int);
                    assert(gk < len_upto(vs, jx + 1));
                    assert(false);
                }
                assert(jx >= ix as int);
                if jx == ix as int {
                    assert(len_upto(vs, jx) + jp == gk >= g0);
                    assert(off as int <= jp);
                }
            }
        }
        let scount = self.segments.len();
        let mut index = ix;
        loop
            invariant
                ix <= index <= scount,
                scount == self.segments@.len(),
                *self == *old(self),
                self.wf(),
                vs == seg_views(self.segments@),
                all == flatten_recs(vs),
                forall|s: int| 0 <= s < vs.len() ==> #[trigger] vs[s] == self.segments@[s].recs(),
                forall|s: int|
                    0 <= s < scount ==> (#[trigger] self.segments@[s]).wf() && sorted_strict(
                        self.segments@[s].recs(),
                    ),
                crate::sorted::unique_keys(all),
                forall|g: int| 0 <= g < all.len() ==> map_of(all).contains_key(
                    (#[trigger] all[g]).0,
                ) && map_of(all)[all[g].0] == all[g].1,
                in_gen == self.seg_map().contains_key(key@),
                self.seg_map() == map_of(all),
                !self.mem_map().contains_key(key@),
                in_gen ==> {
                    &&& 0 <= jx < scount
                    &&& 0 <= jp < self.segments@[jx].recs().len()
                    &&& self.segments@[jx].recs()[jp].0 == key@
                    &&& gk == len_upto(vs, jx) + jp
                    &&& 0 <= gk < all.len()
                    &&& all[gk] == vs[jx][jp]
                    &&& index <= jx
                    &&& (jx == ix ==> off as int <= jp)
                },
            decreases scount - index,
        {
            if index == scount {
                proof {
                    if in_gen {
                        assert(false);
                    }
                    assert(lookup(self.model(), key@) is None);
                }
                return Ok(None);
            }
            let sr = if index == ix {
                self.segments[index].search_from(key, off)
            } else {
                self.segments[index].search_from_start(key)
            };
            let ghost from0: int = if index == ix {
                off as int
            } else {
                0
            };
            let found = match sr {
                Ok(v) => v,
                Err(e) => {
                    proof {
                        assert(false);
                    }
                    return Err(Error::SstError(e));
                },
            };
            match found {
                Some(value) => {
                    proof {
                        let recs = self.segments@[index as int].recs();
                        assert(search_spec(recs, key@, from0) == Some(value@));
                        lemma_search_some_witness(recs, key@, from0);
                        let w = choose|i: int|
                            from0 <= i < recs.len() && #[trigger] recs[i] == (
                            key@,
                            search_spec(recs, key@, from0).unwrap(),
                            );
                        lemma_flatten_recs_index(vs, index as int, w);
                        let gw = len_upto(vs, index as int) + w;
                        assert(all[gw] == (key@, value@));
                        assert(map_of(all).contains_key(key@));
                        assert(in_gen);
                        assert(map_of(all)[key@] == value@);
                        assert(self.model()[key@] == value@);
                    }
                    let t = tombstone_value();
                    if key_eq(value.as_str(), t.as_str()) {
                        return Ok(None);
                    }
                    return Ok(Some(value));
                },
                None => {
                    proof {
                        if in_gen && index as int == jx {
                            assert(from0 <= jp);
                            lemma_search_found(self.segments@[jx].recs(), key@, from0, jp);
                            assert(false);
                        }
                        if in_gen {
                            assert(index as int != jx);
                            assert(index as int + 1 <= jx);
                        }
                    }
                    index = index + 1;
                },
            }
        }
    }

    /// Delete `key`: store the tombstone under it, so that reads of it
    /// observe nothing. Logged like any other write.
    pub fn delete(&mut self, key: &str) -> (r: Result<(), Error>)
        requires
            old(self).wf(),
        ensures
            final(self).wf(),
            r is Ok,
            final(self).model() == old(self).model().insert(key@, tombstone()),
            final(self).wal_recs() == match old(self).wal_recs() {
                Some(w) => Some(w.push((key@, tombstone()))),
                None => None::<Seq<RecView>>,
            },
            final(self).cap() == old(self).cap(),
            final(self).seg_size() == old(self).seg_size(),
            final(self).sparse() == old(self).sparse(),
    {
        let t = tombstone_value();
        let k = key.to_owned();
        let wr = self.write(k, t);
        match wr {
            Ok(u) => Ok(u),
            Err(e) => {
                proof {
                    assert(false);
                }
                Err(e)
            },
        }
    }

    /// Whether a read of `key` would observe a value.
    pub fn contains(&mut self, key: &str) -> (r: Result<bool, Error>)
        requires
            old(self).wf(),
        ensures
            *final(self) == *old(self),
            r matches Ok(b) && b == (lookup(old(self).model(), key@) is Some),
    {
        let maybe_value = match self.read(key) {
            Ok(v) => v,
            Err(e) => {
                proof {
                    assert(false);
                }
                return Err(e);
            },
        };
        Ok(maybe_value.is_some())
    }

    /// Start over from a log: drop the segments, the sparse index and
    /// the memtable, replay every logged record in order through
    /// `write`, and adopt the log as the engine's own. Afterwards the
    /// stored mapping is exactly the log's replay.
    pub fn recover_from(&mut self, log: Wal) -> (r: Result<(), Error>)
        requires
            old(self).wf(),
        ensures
            r is Ok,
            final(self).wf(),
            final(self).model() == map_of(log.recs()),
            final(self).wal_recs() == Some(log.recs()),
            final(self).cap() == old(self).cap(),
            final(self).seg_size() == old(self).seg_size(),
            final(self).sparse() == old(self).sparse(),
    {
        self.clear();
        // the memtable is left empty for the replay
        self.memtable.clear();
        self.wal = None;
        proof {
            lemma_union_empty_right(self.seg_map());
            assert(self.mem_map() =~= Map::<Seq<char>, Seq<char>>::empty());
            assert(self.model() =~= Map::<Seq<char>, Seq<char>>::empty());
            assert(self.wf());
        }
        let mut w = log;
        let records = match w.read_from_start() {
            Ok(rs) => rs,
            Err(e) => {
                proof {
                    assert(false);
                }
                return Err(Error::KvError(KvError::DecodeError));
            },
        };
        let ghost rv = records@.map_values(|kv: KVPair| kv@);
        proof {
            assert(rv == log.recs());
            assert(rv.subrange(0, 0) =~= Seq::<RecView>::empty());
            assert(map_of(rv.subrange(0, 0)) =~= Map::<Seq<char>, Seq<char>>::empty());
        }
        let n = records.len();
        let mut i: usize = 0;
        while i < n
            invariant
                i <= n,
                n == records@.len(),
                rv == records@.map_values(|kv: KVPair| kv@),
                self.wf(),
                self.wal_recs() is None,
                self.model() == map_of(rv.subrange(0, i as int)),
                self.cap() == old(self).cap(),
                self.seg_size() == old(self).seg_size(),
                self.sparse() == old(self).sparse(),
            decreases n - i,
        {
            let kv = records[i].clone();
            proof {
                assert(kv@ == records@[i as int]@);
                assert(rv[i as int] == records@[i as int]@);
            }
            let ghost kvv = kv@;
            let wr = self.write(kv.key, kv.value);
            match wr {
                Ok(u) => {},
                Err(e) => {
                    proof {
                        assert(false);
                    }
                    return Err(e);
                },
            }
            proof {
                assert(rv.subrange(0, i + 1).drop_last() =~= rv.subrange(0, i as int));
                assert(rv.subrange(0, i + 1).last() == rv[i as int]);
                assert(map_of(rv.subrange(0, i + 1)) == map_of(rv.subrange(0, i as int)).insert(
                    kvv.0,
                    kvv.1,
                ));
            }
            i = i + 1;
        }
        proof {
            assert(rv.subrange(0, n as int) =~= rv);
        }
        self.wal = Some(w);
        proof {
            assert(map_of(self.wal_recs().unwrap()) == self.model());
            assert(self.wf());
        }
        Ok(())
    }
}

} // verus!

verus! {

/// A sequence of writes applied to a stored mapping, in order.
pub open spec fn apply_writes(
    m: Map<Seq<char>, Seq<char>>,
    ws: Seq<RecView>,
) -> Map<Seq<char>, Seq<char>>
    decreases ws.len(),
{
    if ws.len() == 0 {
        m
    } else {
        apply_writes(m, ws.drop_last()).insert(ws.last().0, ws.last().1)
    }
}

/// Read-your-writes: after a write of `v` under `k` with no intervening
/// write or delete of `k`, a read of `k` observes `v`. Stated over the
/// stored mapping: `write` ensures the mapping becomes
/// `m.insert(k, v)`, and `read` ensures its result is `lookup` of the
/// mapping. The tombstone is excluded: writing it is a deletion.
pub proof fn lemma_read_your_writes(m: Map<Seq<char>, Seq<char>>, k: Seq<char>, v: Seq<char>)
    requires
        v != tombstone(),
    ensures
        lookup(m.insert(k, v), k) == Some(v),
{
}

/// Last-writer-wins: after any sequence of writes to `k` whose final
/// value is `v`, a read of `k` observes `v` (or nothing, if the last
/// write was the deletion tombstone — that input is excluded here).
pub proof fn lemma_last_writer_wins(
    m: Map<Seq<char>, Seq<char>>,
    ws: Seq<RecView>,
    k: Seq<char>,
    v: Seq<char>,
)
    requires
        ws.len() > 0,
        forall|i: int| 0 <= i < ws.len() ==> (#[trigger] ws[i]).0 == k,
        ws.last().1 == v,
        v != tombstone(),
    ensures
        lookup(apply_writes(m, ws), k) == Some(v),
{
}

/// Delete visibility: after a delete of `k`, a read of `k` observes
/// nothing, whatever was written before. `delete` ensures the mapping
/// becomes `m.insert(k, tombstone())`.
pub proof fn lemma_delete_visibility(m: Map<Seq<char>, Seq<char>>, k: Seq<char>)
    ensures
        lookup(m.insert(k, tombstone()), k) is None,
{
}

/// A well-formed engine's attached log replays to exactly its stored
/// mapping.
pub proof fn lemma_wal_matches_model(e: LSMEngine)
    requires
        e.wf(),
        e.wal_recs() is Some,
    ensures
        map_of(e.wal_recs().unwrap()) == e.model(),
{
}

/// Replay identity: recovering a fresh engine from the log of an
/// engine `e1` yields an engine whose reads agree with `e1`'s on every
/// key. `recover_from` ensures the recovered mapping is the log's
/// replay; this connects that replay back to `e1`.
pub proof fn lemma_wal_replay_identity(e1: LSMEngine, e2: LSMEngine, k: Seq<char>)
    requires
        e1.wf(),
        e1.wal_recs() is Some,
        e2.model() == map_of(e1.wal_recs().unwrap()),
    ensures
        lookup(e2.model(), k) == lookup(e1.model(), k),
{
    lemma_wal_matches_model(e1);
}

/// Sparse-index correctness: every indexed entry `(k, (off, ix))`
/// points into segment `ix` so that a search for `k` from `off` finds
/// the generation's current value of `k`. When `k` is not overlaid by
/// the memtable, that value is what `read` observes before tombstone
/// filtering.
pub proof fn lemma_sparse_index_correct(e: LSMEngine, a: int)
    requires
        e.wf(),
        0 <= a < e.index_view().len(),
    ensures
        ({
            let entry = e.index_view()[a];
            let k = entry.0;
            let off = entry.1.0;
            let ix = entry.1.1;
            &&& (ix as int) < e.segments_view().len()
            &&& e.seg_map().contains_key(k)
            &&& search_spec(e.segments_view()[ix as int].recs(), k, off as int) == Some(
                e.seg_map()[k],
            )
            &&& !e.mem_map().contains_key(k) ==> e.model().contains_key(k) && e.model()[k]
                == e.seg_map()[k]
        }),
{
    let entry = e.index_view()[a];
    let k = entry.0;
    let off = entry.1.0 as int;
    let ix = entry.1.1 as int;
    let vs = seg_views(e.segments_view());
    let all = flatten_recs(vs);
    let recs = e.segments_view()[ix].recs();
    assert(vs[ix] == recs);
    assert(recs[off].0 == k);
    lemma_flatten_recs_index(vs, ix, off);
    let g = len_upto(vs, ix) + off;
    assert(all[g] == recs[off]);
    lemma_sorted_strict_unique(all);
    lemma_map_of_index(all);
    assert(e.seg_map().contains_key(k));
    assert(e.seg_map()[k] == all[g].1);
    lemma_sorted_strict_unique(recs);
    lemma_map_of_index(recs);
    lemma_search_found(recs, k, off, off);
    assert(map_of(recs)[k] == recs[off].1);
}

} // verus!
