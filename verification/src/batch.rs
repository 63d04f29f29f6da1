use vstd::prelude::*;
use crate::errors::Errors;
use crate::log_record::{LogRecord, LogRecordPos, LogRecordType};
use crate::varint::{spec_varint, spec_varint_decode, encode_varint, decode_varint,
    lemma_varint_round_trip, lemma_varint_decode_bounds, lemma_varint_len};

verus! {

/// The key of the commit sentinel record, before its sequence prefix: the
/// ASCII bytes of "transaction_finished".
pub fn txn_fin_key() -> (r: Vec<u8>)
    ensures
        r@.len() == 20,
{
    let v: Vec<u8> = vec![
        116, 114, 97, 110, 115, 97, 99, 116, 105, 111,
        110, 95, 102, 105, 110, 105, 115, 104, 101, 100,
    ];
    v
}

/// A record of an uncommitted transaction, parked during replay until its
/// commit sentinel turns up.
pub struct TransactionRecord {
    pub record: LogRecord,
    pub pos: LogRecordPos,
}

/// A key as persisted in the log: the record's transaction sequence number,
/// as a length delimiter, followed by the user key.
pub open spec fn spec_seq_key(seq_no: u64, key: Seq<u8>) -> Seq<u8> {
    spec_varint(seq_no) + key
}

/// Splitting a persisted key back into the user key and the sequence number.
pub open spec fn spec_parse_seq_key(sk: Seq<u8>) -> Option<(Seq<u8>, u64)> {
    match spec_varint_decode(sk, 0) {
        Option::None => None,
        Option::Some((seq_no, n)) => Some((sk.subrange(n, sk.len() as int), seq_no)),
    }
}

/// A persisted key parses back to the user key and sequence number it was
/// built from.
pub proof fn lemma_seq_key_round_trip(seq_no: u64, key: Seq<u8>)
    ensures
        spec_parse_seq_key(spec_seq_key(seq_no, key)) == Some((key, seq_no)),
{
    let sk = spec_seq_key(seq_no, key);
    let n = spec_varint(seq_no).len() as int;
    assert(sk.subrange(0, n) =~= spec_varint(seq_no));
    lemma_varint_round_trip(sk, 0, seq_no);
    assert(sk.subrange(n, sk.len() as int) =~= key);
}

/// Prefixes a user key with its transaction sequence number.
pub fn log_record_key_with_seq(key: Vec<u8>, seq_no: u64) -> (r: Result<Vec<u8>, Errors>)
    requires
        key@.len() + 16 <= usize::MAX,
    ensures
        r is Ok,
        r matches Ok(sk) ==> sk@ == spec_seq_key(seq_no, key@),
{
    let mut enc_key: Vec<u8> = Vec::new();
    proof { lemma_varint_len(seq_no); }
    encode_varint(seq_no, &mut enc_key);
    crate::log_record::push_bytes(&mut enc_key, &key);
    Ok(enc_key)
}

/// Splits a persisted key into the user key and its sequence number.
pub fn parse_log_record_key(key: Vec<u8>) -> (r: Result<(Vec<u8>, u64), Errors>)
    ensures
        match r {
            Ok((rk, seq_no)) => spec_parse_seq_key(key@) == Some((rk@, seq_no)),
            Err(e) => spec_parse_seq_key(key@) is None && e == Errors::DecodeError,
        },
{
    let (seq_no, n) = match decode_varint(&key, 0) {
        Ok(v) => v,
        Err(e) => { return Err(e); },
    };
    proof { lemma_varint_decode_bounds(key@, 0); }
    let rk = crate::log_record::copy_range(&key, n, key.len());
    Ok((rk, seq_no))
}

/// A batch of writes that commits atomically: its operations are buffered,
/// keyed by the user key with a later operation replacing an earlier one,
/// and become visible all together or not at all.
pub struct WriteBatch {
    pub(crate) pending_writes: Vec<(Vec<u8>, LogRecord)>,
    pub(crate) options: crate::options::WriteBatchOptions,
}

/// The buffered operations applied in order to a key/value map: a live
/// record stores its value, a tombstone removes its key.
pub open spec fn spec_apply_batch(
    m: Map<Seq<u8>, Seq<u8>>, pending: Seq<(Seq<u8>, LogRecord)>,
) -> Map<Seq<u8>, Seq<u8>>
    decreases pending.len(),
{
    if pending.len() == 0 {
        m
    } else {
        let rest = spec_apply_batch(m, pending.drop_last());
        match pending.last().1.rec_type {
            LogRecordType::Deleted => rest.remove(pending.last().0),
            _ => rest.insert(pending.last().0, pending.last().1.value@),
        }
    }
}

/// The buffered operations as a map: each key to the type and value of the
/// last operation buffered for it.
pub open spec fn spec_batch_map(
    pending: Seq<(Seq<u8>, LogRecord)>,
) -> Map<Seq<u8>, (LogRecordType, Seq<u8>)>
    decreases pending.len(),
{
    if pending.len() == 0 {
        Map::empty()
    } else {
        spec_batch_map(pending.drop_last()).insert(
            pending.last().0,
            (pending.last().1.rec_type, pending.last().1.value@),
        )
    }
}

/// What a committed batch does to the store: a key the batch puts maps to
/// the put value, a key it deletes is gone, and every other key keeps its
/// old value.
pub open spec fn spec_commit_effect(
    m: Map<Seq<u8>, Seq<u8>>, bm: Map<Seq<u8>, (LogRecordType, Seq<u8>)>,
) -> Map<Seq<u8>, Seq<u8>> {
    Map::new(
        |k: Seq<u8>| if bm.contains_key(k) {
            bm[k].0 != LogRecordType::Deleted
        } else {
            m.contains_key(k)
        },
        |k: Seq<u8>| if bm.contains_key(k) { bm[k].1 } else { m[k] },
    )
}

/// A batch with no repeated keys changes the store exactly as its map of
/// buffered operations says.
pub proof fn lemma_apply_batch_as_map(
    m: Map<Seq<u8>, Seq<u8>>, pending: Seq<(Seq<u8>, LogRecord)>,
)
    requires
        forall|i: int, j: int| 0 <= i < j < pending.len()
            ==> (#[trigger] pending[i]).0 != (#[trigger] pending[j]).0,
    ensures
        spec_apply_batch(m, pending) == spec_commit_effect(m, spec_batch_map(pending)),
    decreases pending.len(),
{
    if pending.len() == 0 {
        assert(spec_apply_batch(m, pending)
            =~= spec_commit_effect(m, spec_batch_map(pending)));
    } else {
        let rest = pending.drop_last();
        assert(forall|i: int, j: int| 0 <= i < j < rest.len()
            ==> (#[trigger] rest[i]).0 != (#[trigger] rest[j]).0) by {
            assert(forall|i: int| 0 <= i < rest.len() ==> #[trigger] rest[i] == pending[i]);
        }
        lemma_apply_batch_as_map(m, rest);
        let (k, rec) = pending.last();
        assert(!spec_batch_map(rest).contains_key(k)) by {
            lemma_batch_map_contains(rest, k);
            if exists|i: int| 0 <= i < rest.len() && (#[trigger] rest[i]).0 == k {
                let i = choose|i: int| 0 <= i < rest.len() && (#[trigger] rest[i]).0 == k;
                assert(pending[i].0 == pending[pending.len() - 1].0);
            }
        }
        assert(spec_apply_batch(m, pending)
            =~= spec_commit_effect(m, spec_batch_map(pending)));
    }
}

/// A key is in the batch map exactly when some buffered operation carries it.
pub proof fn lemma_batch_map_contains(pending: Seq<(Seq<u8>, LogRecord)>, k: Seq<u8>)
    ensures
        spec_batch_map(pending).contains_key(k)
            <==> exists|i: int| 0 <= i < pending.len() && (#[trigger] pending[i]).0 == k,
    decreases pending.len(),
{
    if pending.len() > 0 {
        let rest = pending.drop_last();
        lemma_batch_map_contains(rest, k);
        if exists|i: int| 0 <= i < rest.len() && (#[trigger] rest[i]).0 == k {
            let i = choose|i: int| 0 <= i < rest.len() && (#[trigger] rest[i]).0 == k;
            assert(pending[i].0 == k);
        }
        if pending.last().0 != k
            && exists|i: int| 0 <= i < pending.len() && (#[trigger] pending[i]).0 == k {
            let i = choose|i: int| 0 <= i < pending.len() && (#[trigger] pending[i]).0 == k;
            assert(rest[i].0 == k);
        }
    }
}

/// Buffered operations with their keys as byte sequences.
pub open spec fn view_pending(s: Seq<(Vec<u8>, LogRecord)>) -> Seq<(Seq<u8>, LogRecord)> {
    s.map_values(|e: (Vec<u8>, LogRecord)| (e.0@, e.1))
}

impl WriteBatch {
    /// The buffered operations, in order, each under its user key.
    pub closed spec fn pending(&self) -> Seq<(Seq<u8>, LogRecord)> {
        view_pending(self.pending_writes@)
    }

    /// The batch as a map of buffered operations.
    pub open spec fn batch_map(&self) -> Map<Seq<u8>, (LogRecordType, Seq<u8>)> {
        spec_batch_map(self.pending())
    }

    /// Buffered keys are unique and are the records' own keys, non-empty
    /// and small enough to persist; no commit sentinel is ever buffered.
    pub closed spec fn wf(&self) -> bool {
        &&& forall|i: int| 0 <= i < self.pending().len() ==> {
            &&& 1 <= (#[trigger] self.pending()[i]).0.len()
            &&& self.pending()[i].0 == self.pending()[i].1.key@
            &&& self.pending()[i].0.len() + self.pending()[i].1.value@.len() + 96
                <= usize::MAX
            &&& self.pending()[i].1.rec_type != LogRecordType::TxnFinished
        }
        &&& forall|i: int, j: int| 0 <= i < j < self.pending().len()
            ==> (#[trigger] self.pending()[i]).0 != (#[trigger] self.pending()[j]).0
    }

    /// The most records this batch accepts at commit time.
    pub closed spec fn spec_max(&self) -> u32 {
        self.options.max_batch_num
    }

    /// Whether the commit flushes durably.
    pub closed spec fn spec_sync(&self) -> bool {
        self.options.sync_writes
    }

    /// How many operations the batch is holding.
    pub fn len(&self) -> (r: usize)
        ensures
            r == self.pending().len(),
    {
        self.pending_writes.len()
    }

    /// An empty batch with the given commit options.
    pub fn new(options: crate::options::WriteBatchOptions) -> (r: Self)
        ensures
            r.wf(),
            r.pending() == Seq::<(Seq<u8>, LogRecord)>::empty(),
            r.batch_map() == (Map::<Seq<u8>, (LogRecordType, Seq<u8>)>::empty()),
            r.spec_max() == options.max_batch_num,
            r.spec_sync() == options.sync_writes,
    {
        let b = WriteBatch { pending_writes: Vec::new(), options };
        proof {
            assert(b.pending() =~= Seq::<(Seq<u8>, LogRecord)>::empty());
        }
        b
    }

    /// Drops any buffered operation on `key`, then buffers `record` for it.
    fn set_pending(&mut self, key: Vec<u8>, record: LogRecord)
        requires
            old(self).wf(),
            key@.len() >= 1,
            key@ == record.key@,
            key@.len() + record.value@.len() + 96 <= usize::MAX,
            record.rec_type != LogRecordType::TxnFinished,
        ensures
            final(self).wf(),
            final(self).spec_max() == old(self).spec_max(),
            final(self).spec_sync() == old(self).spec_sync(),
            final(self).batch_map()
                == old(self).batch_map().insert(key@, (record.rec_type, record.value@)),
            final(self).pending().len() <= old(self).pending().len() + 1,
    {
        let ghost k = key@;
        self.remove_pending(&key);
        let ghost mid = self.pending();
        let ghost prevec = self.pending_writes@;
        self.pending_writes.push((key, record));
        proof {
            assert(self.pending() =~= mid.push((k, record))) by {
                assert forall|i: int| 0 <= i < self.pending().len()
                    implies #[trigger] self.pending()[i] == mid.push((k, record))[i] by {
                    if i < prevec.len() {
                        assert(self.pending_writes@[i] == prevec[i]);
                    }
                }
            }
            assert(self.pending().drop_last() =~= mid);
            assert(final(self).batch_map()
                =~= old(self).batch_map().insert(k, (record.rec_type, record.value@)));
            assert forall|i: int, j: int| 0 <= i < j < self.pending().len()
                implies (#[trigger] self.pending()[i]).0
                    != (#[trigger] self.pending()[j]).0 by {
                if j < mid.len() {
                } else {
                    assert(self.pending()[j].0 == k);
                    assert(mid[i].0 != k);
                }
            }
        }
    }

    /// Drops any buffered operation on `key`.
    fn remove_pending(&mut self, key: &Vec<u8>)
        requires
            old(self).wf(),
        ensures
            final(self).wf(),
            final(self).spec_max() == old(self).spec_max(),
            final(self).spec_sync() == old(self).spec_sync(),
            final(self).batch_map() == old(self).batch_map().remove(key@),
            forall|i: int| 0 <= i < final(self).pending().len()
                ==> (#[trigger] final(self).pending()[i]).0 != key@,
            final(self).pending().len() <= old(self).pending().len(),
    {
        let ghost k = key@;
        let mut i: usize = 0;
        let n = self.pending_writes.len();
        while i < n
            invariant
                i <= n == self.pending_writes@.len(),
                self == old(self),
                self.wf(),
                forall|j: int| 0 <= j < i
                    ==> (#[trigger] self.pending()[j]).0 != k,
                k == key@,
            decreases n - i,
        {
            if crate::index::compare_bytes(&self.pending_writes[i].0, key)
                == crate::index::ByteOrd::Equal {
                let ghost pre = self.pending();
                let ghost prevec = self.pending_writes@;
                self.pending_writes.remove(i);
                proof {
                    assert(self.pending() =~= pre.remove(i as int)) by {
                        assert forall|j: int| 0 <= j < self.pending().len()
                            implies #[trigger] self.pending()[j]
                                == pre.remove(i as int)[j] by {
                            if j < i {
                                assert(self.pending_writes@[j] == prevec[j]);
                            } else {
                                assert(self.pending_writes@[j] == prevec[j + 1]);
                            }
                        }
                    }
                    lemma_batch_map_remove_unique(pre, i as int);
                    assert forall|a: int| 0 <= a < self.pending().len()
                        implies (#[trigger] self.pending()[a]).0 != k by {
                        if a < i {
                            assert(self.pending()[a] == pre[a]);
                        } else {
                            assert(self.pending()[a] == pre[a + 1]);
                        }
                    }
                }
                return;
            }
            i = i + 1;
        }
        proof {
            lemma_batch_map_contains(self.pending(), k);
            assert(old(self).batch_map().remove(k) =~= old(self).batch_map());
        }
    }

    /// Buffers a put of `value` under `key`.
    pub fn put(&mut self, key: Vec<u8>, value: Vec<u8>) -> (r: Result<(), Errors>)
        requires
            old(self).wf(),
            key@.len() + value@.len() + 96 <= usize::MAX,
        ensures
            final(self).wf(),
            final(self).spec_max() == old(self).spec_max(),
            final(self).spec_sync() == old(self).spec_sync(),
            r matches Ok(_) ==> key@.len() >= 1 && final(self).batch_map()
                == old(self).batch_map().insert(key@, (LogRecordType::Normal, value@)),
            r matches Err(e) ==> e == Errors::KeyIsEmpty && key@.len() == 0
                && *final(self) == *old(self),
            final(self).pending().len() <= old(self).pending().len() + 1,
    {
        if key.len() == 0 {
            return Err(Errors::KeyIsEmpty);
        }
        let key_copy = crate::log_record::copy_range(&key, 0, key.len());
        proof {
            assert(key_copy@ =~= key@);
        }
        let record = LogRecord { key, value, rec_type: LogRecordType::Normal };
        self.set_pending(key_copy, record);
        Ok(())
    }

    /// Buffers a delete of `key`. When the store does not hold the key, any
    /// buffered operation on it is dropped instead and nothing is written.
    pub fn delete<IO: crate::fio::IOManager>(&mut self, db: &crate::db::Engine<IO>,
        key: Vec<u8>) -> (r: Result<(), Errors>)
        requires
            old(self).wf(),
            db.wf(),
            key@.len() + 96 <= usize::MAX,
        ensures
            final(self).wf(),
            final(self).spec_max() == old(self).spec_max(),
            final(self).spec_sync() == old(self).spec_sync(),
            r matches Ok(_) ==> key@.len() >= 1 && final(self).batch_map()
                == if db.view().contains_key(key@) {
                    old(self).batch_map().insert(key@,
                        (LogRecordType::Deleted, Seq::<u8>::empty()))
                } else {
                    old(self).batch_map().remove(key@)
                },
            r matches Err(e) ==> e == Errors::KeyIsEmpty && key@.len() == 0
                && *final(self) == *old(self),
    {
        if key.len() == 0 {
            return Err(Errors::KeyIsEmpty);
        }
        if !db.index_has(&key) {
            self.remove_pending(&key);
            return Ok(());
        }
        let key_copy = crate::log_record::copy_range(&key, 0, key.len());
        proof {
            assert(key_copy@ =~= key@);
        }
        let empty_val: Vec<u8> = Vec::new();
        proof {
            assert(empty_val@ =~= Seq::<u8>::empty());
        }
        let record = LogRecord { key, value: empty_val, rec_type: LogRecordType::Deleted };
        self.set_pending(key_copy, record);
        Ok(())
    }

    /// Commits the batch: every buffered operation is written under one
    /// fresh sequence number, sealed by a commit sentinel, and only then
    /// made visible in the store, all together. An empty batch commits to
    /// nothing. A batch larger than its configured maximum is refused.
    pub fn commit<IO: crate::fio::IOManager>(&mut self, db: &mut crate::db::Engine<IO>)
        -> (r: Result<(), Errors>)
        requires
            old(self).wf(),
            old(db).wf(),
        ensures
            final(self).wf(),
            final(db).wf(),
            r matches Ok(_) ==> {
                &&& final(db).view()
                    == spec_commit_effect(old(db).view(), old(self).batch_map())
                &&& final(self).batch_map()
                    == (Map::<Seq<u8>, (LogRecordType, Seq<u8>)>::empty())
            },
            // A committed batch consumes exactly one sequence number; an
            // empty batch commits to nothing and touches nothing.
            (r matches Ok(_) && old(self).pending().len() > 0)
                ==> final(db).spec_seq_no() == old(db).spec_seq_no() + 1,
            old(self).pending().len() == 0 ==> r is Ok && *final(db) == *old(db),
            r matches Err(e) ==> {
                &&& final(db).view() == old(db).view()
                &&& (e matches Errors::ExceedMaxBatchNum { max, current }
                    ==> old(self).pending().len() > old(self).spec_max()
                        && max == old(self).spec_max())
            },
            old(self).pending().len() > old(self).spec_max() ==> r matches
                Err(Errors::ExceedMaxBatchNum { max, current }),
    {
        let n = self.pending_writes.len();
        if n == 0 {
            proof {
                assert(final(db).view() =~= spec_commit_effect(
                    old(db).view(), old(self).batch_map()));
                assert(self.batch_map() =~= Map::<Seq<u8>, (LogRecordType, Seq<u8>)>::empty());
            }
            return Ok(());
        }
        let max = self.options.max_batch_num;
        let current: u32 = if n > u32::MAX as usize { u32::MAX } else { n as u32 };
        if n > max as usize {
            return Err(Errors::ExceedMaxBatchNum { max, current });
        }
        if let Err(e) = db.commit_batch(&self.pending_writes, self.options.sync_writes) {
            return Err(e);
        }
        proof {
            lemma_apply_batch_as_map(old(db).view(), self.pending());
        }
        self.pending_writes.clear();
        proof {
            assert(self.pending() =~= Seq::<(Seq<u8>, LogRecord)>::empty());
            assert(self.batch_map() =~= Map::<Seq<u8>, (LogRecordType, Seq<u8>)>::empty());
        }
        Ok(())
    }
}

/// Removing the only entry of a key removes it from the batch map.
proof fn lemma_batch_map_remove_unique(pending: Seq<(Seq<u8>, LogRecord)>, i: int)
    requires
        0 <= i < pending.len(),
        forall|a: int, b: int| 0 <= a < b < pending.len()
            ==> (#[trigger] pending[a]).0 != (#[trigger] pending[b]).0,
    ensures
        spec_batch_map(pending.remove(i))
            == spec_batch_map(pending).remove(pending[i].0),
    decreases pending.len(),
{
    let k = pending[i].0;
    let s2 = pending.remove(i);
    if i == pending.len() - 1 {
        assert(s2 =~= pending.drop_last());
        lemma_batch_map_contains(s2, k);
        assert(!(exists|j: int| 0 <= j < s2.len() && (#[trigger] s2[j]).0 == k)) by {
            if exists|j: int| 0 <= j < s2.len() && (#[trigger] s2[j]).0 == k {
                let j = choose|j: int| 0 <= j < s2.len() && (#[trigger] s2[j]).0 == k;
                assert(pending[j].0 == pending[i].0);
            }
        }
        assert(spec_batch_map(pending.drop_last()).insert(k,
            (pending.last().1.rec_type, pending.last().1.value@)).remove(k)
            =~= spec_batch_map(pending.drop_last()));
    } else {
        let rest = pending.drop_last();
        assert(forall|a: int| 0 <= a < rest.len() ==> #[trigger] rest[a] == pending[a]);
        assert(rest[i] == pending[i]);
        lemma_batch_map_remove_unique(rest, i);
        assert(s2.drop_last() =~= rest.remove(i));
        assert(s2.last() == pending.last());
        assert(pending.last().0 != k) by {
            assert(pending[pending.len() - 1].0 == pending.last().0);
        }
        assert(spec_batch_map(rest).remove(k).insert(pending.last().0,
            (pending.last().1.rec_type, pending.last().1.value@))
            =~= spec_batch_map(rest).insert(pending.last().0,
                (pending.last().1.rec_type, pending.last().1.value@)).remove(k));
    }
}

} // verus!
