//! The write-ahead log.
//!
//! An append-only run of records in the engine's write order: duplicate
//! keys and tombstones included, with no sort constraint. Replaying a
//! log's records in order reconstructs the engine's mapping, which is
//! the crash-recovery story: the engine appends every mutation here
//! before it touches the memtable.

use vstd::prelude::*;

use crate::kv::KVPair;
use crate::kv::RecView;

verus! {

/// Errors of the log layer.
#[derive(Debug)]
pub enum WalError {
    /// An appended record could not be persisted.
    WriteError,
}

/// An append-only log of records, in write order.
pub struct Wal {
    records: Vec<KVPair>,
}

impl Wal {
    /// The logged records, by view, oldest first.
    pub closed spec fn recs(self) -> Seq<RecView> {
        self.records@.map_values(|kv: KVPair| kv@)
    }

    /// A fresh, empty log.
    pub fn new() -> (w: Wal)
        ensures
            w.recs() == Seq::<RecView>::empty(),
    {
        let w = Wal { records: Vec::new() };
        proof {
            assert(w.recs() =~= Seq::<RecView>::empty());
        }
        w
    }

    /// A log holding the given records; how recovery adopts a log that
    /// the host read back from storage.
    pub fn from_records(records: Vec<KVPair>) -> (w: Wal)
        ensures
            w.recs() == records@.map_values(|kv: KVPair| kv@),
    {
        Wal { records }
    }

    /// Append one record, returning the pre-write offset.
    pub fn persist(&mut self, kv: KVPair) -> (r: Result<u64, WalError>)
        ensures
            r matches Ok(off) && off == old(self).recs().len() as u64,
            final(self).recs() == old(self).recs().push(kv@),
    {
        let off = self.records.len();
        let ghost kvv = kv@;
        self.records.push(kv);
        proof {
            assert(self.recs() =~= old(self).recs().push(kvv));
        }
        Ok(off as u64)
    }

    /// Every logged record, oldest first.
    pub fn read_from_start(&mut self) -> (r: Result<Vec<KVPair>, WalError>)
        ensures
            *final(self) == *old(self),
            r matches Ok(out) && out@.map_values(|kv: KVPair| kv@) == old(self).recs(),
    {
        let n = self.records.len();
        let mut out: Vec<KVPair> = Vec::new();
        proof {
            assert(out@.map_values(|kv: KVPair| kv@) =~= self.recs().subrange(0, 0));
        }
        let mut i: usize = 0;
        while i < n
            invariant
                i <= n,
                n == self.records@.len(),
                *self == *old(self),
                out@.map_values(|kv: KVPair| kv@) == self.recs().subrange(0, i as int),
            decreases n - i,
        {
            let rec = self.records[i].clone();
            let ghost prev_out = out@;
            let ghost recv = rec@;
            out.push(rec);
            proof {
                assert(recv == self.records@[i as int]@);
                assert(prev_out.map_values(|kv: KVPair| kv@).len() == prev_out.len());
                assert(prev_out.len() == i as int);
                assert(out@ == prev_out.push(rec));
                assert forall|q: int| 0 <= q < i + 1 implies (#[trigger] out@[q])@ == self.recs(
                ).subrange(0, i + 1)[q] by {
                    if q < i as int {
                        assert(out@[q] == prev_out[q]);
                        assert(prev_out.map_values(|kv: KVPair| kv@)[q] == self.recs().subrange(
                            0,
                            i as int,
                        )[q]);
                    } else {
                        assert(out@[q] == rec);
                    }
                }
                assert(out@.map_values(|kv: KVPair| kv@) =~= self.recs().subrange(0, i + 1));
            }
            i = i + 1;
        }
        proof {
            assert(self.recs().subrange(0, n as int) =~= self.recs());
        }
        Ok(out)
    }

    /// The logged records as they stand, for the host to persist.
    pub fn entries(&self) -> (r: &Vec<KVPair>)
        ensures
            r@.map_values(|kv: KVPair| kv@) == self.recs(),
    {
        &self.records
    }
}

} // verus!
