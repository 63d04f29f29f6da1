use vstd::prelude::*;
use crate::errors::Errors;
use crate::fio::IOManager;
use crate::data_file::DataFile;
use crate::log_record::{
    LogRecord, LogRecordPos, LogRecordType, RecordParse, spec_parse_record, spec_record_bytes,
    lemma_record_round_trip, lemma_parse_local, lemma_parse_bounds, copy_range,
};
use crate::index::{Index, new_indexer};
use crate::options::{EngineOptions, Stat};
use crate::batch::{
    spec_seq_key, spec_parse_seq_key, log_record_key_with_seq, lemma_seq_key_round_trip,
    TransactionRecord,
};

verus! {

/// Relies on core::mem::replace: moves `src` into `dest` and returns the
/// value `dest` held before.
pub assume_specification<T>[ core::mem::replace ](dest: &mut T, src: T) -> (r: T)
    ensures
        *final(dest) == src,
        r == *old(dest),
;

/// The key of the merge completion marker's record: the ASCII bytes of
/// "merge.finished".
pub open spec fn spec_merge_fin_key() -> Seq<u8> {
    seq![109u8, 101, 114, 103, 101, 46, 102, 105, 110, 105, 115, 104, 101, 100]
}

/// The completion marker's key as stored bytes.
fn merge_fin_key() -> (r: Vec<u8>)
    ensures
        r@ == spec_merge_fin_key(),
{
    let v: Vec<u8> = vec![
        109, 101, 114, 103, 101, 46, 102, 105, 110, 105, 115, 104, 101, 100,
    ];
    proof {
        assert(v@ =~= spec_merge_fin_key());
    }
    v
}

/// The key under which the sequence counter is persisted on a clean close:
/// the ASCII bytes of "__seq_number_key__".
pub open spec fn spec_seq_no_key() -> Seq<u8> {
    seq![95u8, 95, 115, 101, 113, 95, 110, 117, 109, 98, 101, 114, 95, 107, 101, 121, 95, 95]
}

/// The sequence-counter key as stored bytes.
fn seq_no_key() -> (r: Vec<u8>)
    ensures
        r@ == spec_seq_no_key(),
{
    let v: Vec<u8> = vec![
        95, 95, 115, 101, 113, 95, 110, 117, 109, 98, 101, 114, 95, 107, 101, 121, 95, 95,
    ];
    proof {
        assert(v@ =~= spec_seq_no_key());
    }
    v
}

/// The storage engine: an append-only log of data files and an in-memory
/// index from each live key to its latest record.
pub struct Engine<IO: IOManager> {
    pub(crate) options: EngineOptions,
    pub(crate) active_file: DataFile<IO>,
    pub(crate) older_files: Vec<DataFile<IO>>,
    pub(crate) index: Index,
    pub(crate) seq_no: u64,
    pub(crate) reclaim_size: u64,
    pub(crate) bytes_write: u64,
    pub(crate) is_initial: bool,
    pub(crate) seq_no_file: Option<DataFile<IO>>,
    pub(crate) pending_merge: Option<MergeStaging<IO>>,
    pub(crate) kvs: Ghost<Map<Seq<u8>, Seq<u8>>>,
}

/// What a finished merge leaves staged for the next open: the compacted
/// data files, the hint file, and the completion marker.
pub(crate) struct MergeStaging<IO: IOManager> {
    pub(crate) data: Vec<DataFile<IO>>,
    pub(crate) hint: DataFile<IO>,
    pub(crate) fin: DataFile<IO>,
}

impl<IO: IOManager> Engine<IO> {
    /// The live key/value pairs the store holds.
    pub closed spec fn view(&self) -> Map<Seq<u8>, Seq<u8>> {
        self.kvs@
    }

    /// The engine's sequence counter.
    pub closed spec fn spec_seq_no(&self) -> u64 {
        self.seq_no
    }

    /// Whether the engine found its directory empty when it opened.
    pub closed spec fn spec_is_initial(&self) -> bool {
        self.is_initial
    }

    /// The count of bytes a merge could reclaim.
    pub closed spec fn spec_reclaim_size(&self) -> u64 {
        self.reclaim_size
    }

    /// How many sealed data files the engine holds.
    pub closed spec fn spec_data_file_num(&self) -> int {
        self.older_files@.len() as int
    }

    /// The bytes of the active data file.
    pub closed spec fn spec_active_contents(&self) -> Seq<u8> {
        self.active_file.contents()
    }

    /// The id of the active data file.
    pub closed spec fn spec_active_file_id(&self) -> u32 {
        self.active_file.spec_file_id()
    }

    /// The configured merge threshold, in percent of the directory size.
    pub closed spec fn spec_merge_ratio(&self) -> u32 {
        self.options.data_file_merge_ratio
    }

    /// How many bytes the engine's files hold together.
    pub closed spec fn spec_disk_size(&self) -> int {
        self.active_file.contents().len() + spec_files_bytes(self.older_files@)
    }

    /// The bytes of the staged completion marker, once a merge has run.
    pub closed spec fn spec_staged_fin(&self) -> Option<Seq<u8>> {
        match self.pending_merge {
            Option::Some(st) => Some(st.fin.contents()),
            Option::None => None,
        }
    }

    /// The bytes of the sequence-number file, once a close has written it.
    pub closed spec fn spec_seq_file_contents(&self) -> Option<Seq<u8>> {
        match self.seq_no_file {
            Option::Some(f) => Some(f.contents()),
            Option::None => None,
        }
    }

    /// The engine holds a file with this id.
    pub(crate) open spec fn has_file(&self, fid: u32) -> bool {
        ||| fid == self.active_file.spec_file_id()
        ||| exists|i: int| 0 <= i < self.older_files@.len()
            && (#[trigger] self.older_files@[i]).spec_file_id() == fid
    }

    /// The bytes of the file with this id.
    pub(crate) open spec fn file_contents(&self, fid: u32) -> Seq<u8> {
        if fid == self.active_file.spec_file_id() {
            self.active_file.contents()
        } else {
            let i = choose|i: int| 0 <= i < self.older_files@.len()
                && (#[trigger] self.older_files@[i]).spec_file_id() == fid;
            self.older_files@[i].contents()
        }
    }

    /// The record at `pos` is a live record of key `k` with value `v`: it
    /// parses as a normal record whose sequence-prefixed key carries `k`.
    pub(crate) open spec fn entry_valid(&self, k: Seq<u8>, pos: LogRecordPos, v: Seq<u8>) -> bool {
        &&& self.has_file(pos.file_id)
        &&& match spec_parse_record(self.file_contents(pos.file_id), pos.offset as int) {
            RecordParse::Valid(t, sk, val, sz) => {
                &&& t == LogRecordType::Normal
                &&& val == v
                &&& sz == pos.size
                &&& spec_parse_seq_key(sk) matches Some((rk, _)) && rk == k
            },
            _ => false,
        }
    }

    /// The engine's invariant: files are well formed with strictly
    /// ascending ids below the active file's id, the index is well formed
    /// and agrees key-for-key with the live view, and every index entry
    /// points at a valid record of its key.
    pub closed spec fn wf(&self) -> bool {
        &&& self.active_file.wf()
        &&& forall|i: int| 0 <= i < self.older_files@.len()
            ==> (#[trigger] self.older_files@[i]).wf()
        &&& forall|i: int, j: int| 0 <= i < j < self.older_files@.len()
            ==> (#[trigger] self.older_files@[i]).spec_file_id()
                < (#[trigger] self.older_files@[j]).spec_file_id()
        &&& forall|i: int| 0 <= i < self.older_files@.len()
            ==> (#[trigger] self.older_files@[i]).spec_file_id()
                < self.active_file.spec_file_id()
        &&& self.index.wf()
        &&& self.index.as_map().dom() == self.kvs@.dom()
        &&& forall|k: Seq<u8>| #[trigger] self.kvs@.contains_key(k)
            ==> self.entry_valid(k, self.index.as_map()[k], self.kvs@[k])
        &&& self.seq_no >= 1
        &&& self.options.data_file_size > 0
    }

    /// Appending to the active file, without touching the sealed files,
    /// keeps every valid entry valid.
    proof fn lemma_entries_after_append(pre: &Self, post: &Self)
        requires
            post.active_file.spec_file_id() == pre.active_file.spec_file_id(),
            pre.active_file.contents().len() <= post.active_file.contents().len(),
            pre.active_file.contents()
                == post.active_file.contents().subrange(
                    0, pre.active_file.contents().len() as int),
            post.older_files@ == pre.older_files@,
        ensures
            forall|k: Seq<u8>, pos: LogRecordPos, v: Seq<u8>|
                #[trigger] pre.entry_valid(k, pos, v) ==> post.entry_valid(k, pos, v),
    {
        assert forall|k: Seq<u8>, pos: LogRecordPos, v: Seq<u8>|
            #[trigger] pre.entry_valid(k, pos, v) implies post.entry_valid(k, pos, v) by {
            if pos.file_id == pre.active_file.spec_file_id() {
                let c1 = pre.active_file.contents();
                let c2 = post.active_file.contents();
                lemma_parse_bounds(c1, pos.offset as int);
                let total = spec_parse_record(c1, pos.offset as int)->Valid_3;
                assert(c2.subrange(pos.offset as int, pos.offset + total)
                    =~= c1.subrange(pos.offset as int, pos.offset + total)) by {
                    assert forall|x: int| pos.offset <= x < pos.offset + total
                        implies c2[x] == c1[x] by {
                        assert(c1[x] == c2.subrange(0, c1.len() as int)[x]);
                    }
                }
                lemma_parse_local(c1, c2, pos.offset as int, pos.offset as int);
            } else {
                assert(pre.file_contents(pos.file_id) == post.file_contents(pos.file_id));
            }
        }
    }

    /// Sealing the active file (moving it, contents unchanged, to the end
    /// of the sealed list and starting a fresh active file with a larger
    /// id) keeps every valid entry valid.
    proof fn lemma_entries_after_seal(pre: &Self, post: &Self)
        requires
            post.older_files@.len() == pre.older_files@.len() + 1,
            forall|i: int| 0 <= i < pre.older_files@.len()
                ==> #[trigger] post.older_files@[i] == pre.older_files@[i],
            post.older_files@.last().spec_file_id() == pre.active_file.spec_file_id(),
            post.older_files@.last().contents() == pre.active_file.contents(),
            post.active_file.spec_file_id() > pre.active_file.spec_file_id(),
            forall|i: int| 0 <= i < pre.older_files@.len()
                ==> (#[trigger] pre.older_files@[i]).spec_file_id()
                    < pre.active_file.spec_file_id(),
            forall|i: int, j: int| 0 <= i < j < pre.older_files@.len()
                ==> (#[trigger] pre.older_files@[i]).spec_file_id()
                    < (#[trigger] pre.older_files@[j]).spec_file_id(),
        ensures
            forall|k: Seq<u8>, pos: LogRecordPos, v: Seq<u8>|
                #[trigger] pre.entry_valid(k, pos, v) ==> post.entry_valid(k, pos, v),
    {
        let n = pre.older_files@.len() as int;
        assert forall|k: Seq<u8>, pos: LogRecordPos, v: Seq<u8>|
            #[trigger] pre.entry_valid(k, pos, v) implies post.entry_valid(k, pos, v) by {
            if pos.file_id == pre.active_file.spec_file_id() {
                assert(post.older_files@[n].spec_file_id() == pos.file_id);
                assert(post.has_file(pos.file_id));
                assert(pos.file_id != post.active_file.spec_file_id());
                let i = choose|i: int| 0 <= i < post.older_files@.len()
                    && (#[trigger] post.older_files@[i]).spec_file_id() == pos.file_id;
                assert(i == n) by {
                    if i < n {
                        assert(pre.older_files@[i].spec_file_id()
                            < pre.active_file.spec_file_id());
                    }
                }
                assert(post.file_contents(pos.file_id) == pre.active_file.contents());
            } else {
                let i = choose|i: int| 0 <= i < pre.older_files@.len()
                    && (#[trigger] pre.older_files@[i]).spec_file_id() == pos.file_id;
                assert(post.older_files@[i].spec_file_id() == pos.file_id);
                assert(post.has_file(pos.file_id));
                assert(pos.file_id != post.active_file.spec_file_id()) by {
                    assert(pre.older_files@[i].spec_file_id()
                        < pre.active_file.spec_file_id());
                }
                let j = choose|j: int| 0 <= j < post.older_files@.len()
                    && (#[trigger] post.older_files@[j]).spec_file_id() == pos.file_id;
                assert(j == i) by {
                    if j != i && j < n && i < n {
                        if i < j {
                            assert(pre.older_files@[i].spec_file_id()
                                < pre.older_files@[j].spec_file_id());
                        } else {
                            assert(pre.older_files@[j].spec_file_id()
                                < pre.older_files@[i].spec_file_id());
                        }
                    }
                    if j == n {
                        assert(pre.older_files@[i].spec_file_id()
                            < pre.active_file.spec_file_id());
                    }
                }
                assert(post.file_contents(pos.file_id) == pre.file_contents(pos.file_id));
            }
        }
    }

    /// Opens the engine on a directory that holds no data yet.
    pub fn open(options: EngineOptions) -> (r: Result<Self, Errors>)
        ensures
            r matches Ok(e) ==> {
                &&& e.wf()
                &&& e.view() == (Map::<Seq<u8>, Seq<u8>>::empty())
                &&& e.spec_is_initial()
                &&& e.spec_seq_no() == 1
            },
            (options.dir_path@.len() == 0 || options.data_file_size == 0) ==> r is Err,
            r matches Err(e) ==> {
                &&& (e == Errors::DirPathIsEmpty || e == Errors::DataFileSizeTooSmall
                    || e == Errors::Io)
                &&& options.dir_path@.len() == 0 ==> e == Errors::DirPathIsEmpty
                &&& (options.dir_path@.len() > 0 && options.data_file_size == 0)
                    ==> e == Errors::DataFileSizeTooSmall
            },
    {
        check_options(&options)?;
        let active_file = DataFile::<IO>::new(options.dir_path.as_str(), 0)?;
        let e = Engine {
            index: new_indexer(options.index_type),
            options,
            active_file,
            older_files: Vec::new(),
            seq_no: 1,
            reclaim_size: 0,
            bytes_write: 0,
            is_initial: true,
            seq_no_file: None,
            pending_merge: None,
            kvs: Ghost(Map::empty()),
        };
        proof {
            assert(e.index.as_map().dom() =~= e.kvs@.dom());
        }
        Ok(e)
    }

    /// Appends an encoded record to the log, sealing the active file and
    /// opening a fresh one first when the record would overflow it, and
    /// flushing per the durability options. Returns where the record landed.
    pub(crate) fn append_log_record(&mut self, log_record: &LogRecord)
        -> (r: Result<LogRecordPos, Errors>)
        requires
            old(self).wf(),
            log_record.key@.len() >= 1,
            log_record.key@.len() + log_record.value@.len() + 64 <= usize::MAX,
        ensures
            final(self).wf(),
            final(self).kvs == old(self).kvs,
            final(self).index == old(self).index,
            final(self).seq_no == old(self).seq_no,
            final(self).options == old(self).options,
            final(self).reclaim_size == old(self).reclaim_size,
            final(self).is_initial == old(self).is_initial,
            forall|k: Seq<u8>, pos: LogRecordPos, v: Seq<u8>|
                #[trigger] old(self).entry_valid(k, pos, v)
                    ==> final(self).entry_valid(k, pos, v),
            r matches Err(e) ==> e == Errors::Io || e == Errors::DataFileBroken,
            r matches Ok(pos) ==> {
                &&& pos.file_id == final(self).active_file.spec_file_id()
                &&& pos.size == spec_record_bytes(
                    log_record.rec_type, log_record.key@, log_record.value@).len()
                &&& spec_parse_record(final(self).active_file.contents(), pos.offset as int)
                    == RecordParse::Valid(log_record.rec_type, log_record.key@,
                        log_record.value@, pos.size as int)
                &&& pos.offset + pos.size == final(self).active_file.contents().len()
                &&& if pos.file_id == old(self).active_file.spec_file_id() {
                    // The record fit: the active file grew by exactly it.
                    &&& final(self).active_file.contents()
                        == old(self).active_file.contents() + spec_record_bytes(
                            log_record.rec_type, log_record.key@, log_record.value@)
                    &&& pos.offset == old(self).active_file.contents().len()
                    &&& final(self).older_files@ == old(self).older_files@
                } else {
                    // The active file was sealed first: the record opens a
                    // fresh file with the next id.
                    &&& pos.file_id == old(self).active_file.spec_file_id() + 1
                    &&& pos.offset == 0
                    &&& final(self).active_file.contents() == spec_record_bytes(
                        log_record.rec_type, log_record.key@, log_record.value@)
                    &&& final(self).older_files@.len() == old(self).older_files@.len() + 1
                    &&& (forall|i: int| 0 <= i < old(self).older_files@.len()
                        ==> #[trigger] final(self).older_files@[i]
                            == old(self).older_files@[i])
                    &&& final(self).older_files@.last().spec_file_id()
                        == old(self).active_file.spec_file_id()
                    &&& final(self).older_files@.last().contents()
                        == old(self).active_file.contents()
                }
            },
    {
        let enc = match log_record.encode() {
            Ok(v) => v,
            Err(_) => { return Err(Errors::Io); },
        };
        let enc_len = enc.len() as u64;

        // Seal the active file and start a new one when this record would
        // push it past the configured size.
        if saturating_add_u64(self.active_file.get_write_off(), enc_len)
            > self.options.data_file_size {
            if self.active_file.sync().is_err() {
                return Err(Errors::Io);
            }
            let current_id = self.active_file.get_file_id();
            if current_id == u32::MAX {
                return Err(Errors::DataFileBroken);
            }
            let new_file = match DataFile::<IO>::new(
                self.options.dir_path.as_str(), current_id + 1) {
                Ok(f) => f,
                Err(_) => { return Err(Errors::Io); },
            };
            let ghost pre = *self;
            let sealed = core::mem::replace(&mut self.active_file, new_file);
            self.older_files.push(sealed);
            proof {
                Self::lemma_entries_after_seal(&pre, self);
                assert forall|k: Seq<u8>| #[trigger] self.kvs@.contains_key(k)
                    implies self.entry_valid(k, self.index.as_map()[k], self.kvs@[k]) by {
                    assert(pre.entry_valid(k, pre.index.as_map()[k], pre.kvs@[k]));
                }
            }
        }

        let write_off = self.active_file.get_write_off();
        let ghost pre2 = *self;
        match self.active_file.write(&enc) {
            Ok(_) => {},
            Err(_) => {
                proof {
                    assert(pre2.active_file.contents()
                        =~= self.active_file.contents().subrange(
                            0, pre2.active_file.contents().len() as int));
                    Self::lemma_entries_after_append(&pre2, self);
                    assert forall|k: Seq<u8>| #[trigger] self.kvs@.contains_key(k)
                        implies self.entry_valid(k, self.index.as_map()[k], self.kvs@[k]) by {
                        assert(pre2.entry_valid(k, pre2.index.as_map()[k], pre2.kvs@[k]));
                    }
                }
                return Err(Errors::Io);
            },
        }
        proof {
            assert(pre2.active_file.contents()
                =~= self.active_file.contents().subrange(
                    0, pre2.active_file.contents().len() as int));
            Self::lemma_entries_after_append(&pre2, self);
            assert forall|k: Seq<u8>| #[trigger] self.kvs@.contains_key(k)
                implies self.entry_valid(k, self.index.as_map()[k], self.kvs@[k]) by {
                assert(pre2.entry_valid(k, pre2.index.as_map()[k], pre2.kvs@[k]));
            }
            lemma_record_round_trip(pre2.active_file.contents(), log_record.rec_type,
                log_record.key@, log_record.value@);
        }

        // Flush now if every write must be durable, or if enough unsynced
        // bytes have built up.
        let previous = self.bytes_write;
        self.bytes_write = if previous <= u64::MAX - enc_len { previous + enc_len } else { u64::MAX };
        let mut need_sync = self.options.sync_writes;
        if !need_sync && self.options.bytes_per_sync > 0
            && self.bytes_write >= self.options.bytes_per_sync {
            need_sync = true;
        }
        if need_sync {
            if self.active_file.sync().is_err() {
                return Err(Errors::Io);
            }
            self.bytes_write = 0;
        }

        Ok(LogRecordPos {
            file_id: self.active_file.get_file_id(),
            offset: write_off,
            size: enc.len(),
        })
    }

    /// Stores `value` under `key`. The key must not be empty; the value may
    /// be. Afterwards the store holds exactly the old pairs plus this one.
    pub fn put(&mut self, key: Vec<u8>, value: Vec<u8>) -> (r: Result<(), Errors>)
        requires
            old(self).wf(),
            key@.len() + value@.len() + 80 <= usize::MAX,
        ensures
            final(self).wf(),
            final(self).spec_seq_no() == old(self).spec_seq_no(),
            final(self).spec_reclaim_size() >= old(self).spec_reclaim_size(),
            r matches Ok(_) ==> {
                &&& key@.len() >= 1
                &&& final(self).view() == old(self).view().insert(key@, value@)
            },
            r matches Err(e) ==> {
                &&& final(self).view() == old(self).view()
                &&& (e == Errors::KeyIsEmpty <==> key@.len() == 0)
            },
    {
        if key.len() == 0 {
            return Err(Errors::KeyIsEmpty);
        }
        let real_key = copy_range(&key, 0, key.len());
        let ghost k = key@;
        proof {
            assert(real_key@ =~= k);
        }
        let seq_key = match log_record_key_with_seq(key, 0) {
            Ok(v) => v,
            Err(e) => { return Err(e); },
        };
        proof {
            crate::varint::lemma_varint_len(0);
        }
        let log_record = LogRecord {
            key: seq_key,
            value,
            rec_type: LogRecordType::Normal,
        };
        let ghost v = log_record.value@;
        let pos = match self.append_log_record(&log_record) {
            Ok(p) => p,
            Err(e) => { return Err(e); },
        };

        let old_pos = self.index.put(real_key, pos);
        self.kvs = Ghost(self.kvs@.insert(k, v));
        if let Some(op) = old_pos {
            self.reclaim_size = saturating_add_u64(self.reclaim_size, op.size as u64);
        }
        proof {
            lemma_seq_key_round_trip(0, k);
            assert(self.index.as_map().dom() =~= self.kvs@.dom());
            assert forall|k2: Seq<u8>| #[trigger] self.kvs@.contains_key(k2)
                implies self.entry_valid(k2, self.index.as_map()[k2], self.kvs@[k2]) by {
                if k2 != k {
                    assert(old(self).entry_valid(
                        k2, old(self).index.as_map()[k2], old(self).kvs@[k2]));
                }
            }
        }
        Ok(())
    }

    /// The value stored under `key`, or `KeyNotFound` when the store holds
    /// no such key (or only a tombstone for it).
    pub fn get(&self, key: Vec<u8>) -> (r: Result<Vec<u8>, Errors>)
        requires
            self.wf(),
        ensures
            r matches Ok(v) ==> self.view().contains_key(key@) && v@ == self.view()[key@],
            key@.len() == 0 ==> r == Err::<Vec<u8>, Errors>(Errors::KeyIsEmpty),
            r matches Err(e) ==> match e {
                Errors::KeyIsEmpty => key@.len() == 0,
                Errors::KeyNotFound => key@.len() >= 1 && !self.view().contains_key(key@),
                Errors::Io => true,
                Errors::InvalidLogRecordCrc => true,
                _ => false,
            },
    {
        if key.len() == 0 {
            return Err(Errors::KeyIsEmpty);
        }
        let pos = match self.index.get(&key) {
            Some(p) => p,
            None => { return Err(Errors::KeyNotFound); },
        };
        self.get_value_by_position(&pos, Ghost(key@))
    }

    /// Reads the value of the record at `pos`, which the index holds for
    /// the key `k`.
    pub(crate) fn get_value_by_position(&self, log_record_pos: &LogRecordPos, Ghost(k): Ghost<Seq<u8>>)
        -> (r: Result<Vec<u8>, Errors>)
        requires
            self.wf(),
            self.view().contains_key(k),
            self.index.as_map().contains_key(k),
            self.index.as_map()[k] == log_record_pos,
        ensures
            r matches Ok(v) ==> v@ == self.view()[k],
            r matches Err(e) ==> e == Errors::Io || e == Errors::InvalidLogRecordCrc,
    {
        proof {
            assert(self.entry_valid(k, self.index.as_map()[k], self.kvs@[k]));
        }
        // The entry was validated when it entered the index, so only the
        // storage itself can fail here; a checksum mismatch, were one ever
        // read, would pass through unchanged.
        let record = match self.read_record_at(log_record_pos) {
            Ok(rr) => rr.record,
            Err(e) => { return Err(e); },
        };
        match record.rec_type {
            LogRecordType::Deleted => Err(Errors::KeyNotFound),
            _ => Ok(record.value),
        }
    }

    /// Reads the whole record at `pos` from the file that holds it.
    pub(crate) fn read_record_at(&self, pos: &LogRecordPos)
        -> (r: Result<crate::log_record::ReadLogRecord, Errors>)
        requires
            self.wf(),
        ensures
            r matches Ok(rr) ==> self.has_file(pos.file_id) && spec_parse_record(
                self.file_contents(pos.file_id), pos.offset as int)
                == RecordParse::Valid(
                    rr.record.rec_type, rr.record.key@, rr.record.value@, rr.size as int),
            r matches Err(e) ==> if self.has_file(pos.file_id) {
                match spec_parse_record(
                    self.file_contents(pos.file_id), pos.offset as int) {
                    RecordParse::Valid(t, sk, v, sz) => e == Errors::Io,
                    RecordParse::Eof => e == Errors::ReadDataFileEOF || e == Errors::Io,
                    RecordParse::BadCrc => e == Errors::InvalidLogRecordCrc
                        || e == Errors::Io,
                    RecordParse::Corrupt => e == Errors::DecodeError
                        || e == Errors::DataFileBroken || e == Errors::Io,
                }
            } else {
                e == Errors::DataFileNotFound
            },
    {
        if self.active_file.get_file_id() == pos.file_id {
            return self.active_file.read_log_record(pos.offset);
        }
        let mut i: usize = 0;
        let n = self.older_files.len();
        while i < n
            invariant
                i <= n == self.older_files@.len(),
                self.wf(),
                pos.file_id != self.active_file.spec_file_id(),
                forall|j: int| 0 <= j < i
                    ==> (#[trigger] self.older_files@[j]).spec_file_id() != pos.file_id,
            decreases n - i,
        {
            if self.older_files[i].get_file_id() == pos.file_id {
                proof {
                    self.lemma_older_contents(i as int);
                }
                return self.older_files[i].read_log_record(pos.offset);
            }
            i = i + 1;
        }
        proof {
            assert(!self.has_file(pos.file_id));
        }
        Err(Errors::DataFileNotFound)
    }

    /// Marks `key` deleted. Removing an absent key is allowed and does
    /// nothing; otherwise a tombstone is appended and the key leaves the
    /// store.
    pub fn delete(&mut self, key: Vec<u8>) -> (r: Result<(), Errors>)
        requires
            old(self).wf(),
            key@.len() + 80 <= usize::MAX,
        ensures
            final(self).wf(),
            final(self).spec_seq_no() == old(self).spec_seq_no(),
            final(self).spec_reclaim_size() >= old(self).spec_reclaim_size(),
            r matches Ok(_) ==> final(self).view() == old(self).view().remove(key@),
            r matches Err(e) ==> {
                &&& final(self).view() == old(self).view()
                &&& (e == Errors::KeyIsEmpty <==> key@.len() == 0)
            },
            (key@.len() >= 1 && !old(self).view().contains_key(key@)) ==> {
                &&& r is Ok
                &&& final(self).spec_active_contents() == old(self).spec_active_contents()
                &&& final(self).spec_data_file_num() == old(self).spec_data_file_num()
                &&& final(self).spec_reclaim_size() == old(self).spec_reclaim_size()
            },
    {
        if key.len() == 0 {
            return Err(Errors::KeyIsEmpty);
        }
        let ghost k = key@;
        if self.index.get(&key).is_none() {
            proof {
                assert(self.view().remove(k) =~= self.view());
            }
            return Ok(());
        }

        let real_key = copy_range(&key, 0, key.len());
        proof {
            assert(real_key@ =~= k);
        }
        let seq_key = match log_record_key_with_seq(key, 0) {
            Ok(v) => v,
            Err(e) => { return Err(e); },
        };
        proof {
            crate::varint::lemma_varint_len(0);
        }
        let record = LogRecord {
            key: seq_key,
            value: Vec::new(),
            rec_type: LogRecordType::Deleted,
        };
        let pos = match self.append_log_record(&record) {
            Ok(p) => p,
            Err(e) => { return Err(e); },
        };
        self.reclaim_size = saturating_add_u64(self.reclaim_size, pos.size as u64);

        let old_pos = self.index.delete(&real_key);
        self.kvs = Ghost(self.kvs@.remove(k));
        if let Some(op) = old_pos {
            self.reclaim_size = saturating_add_u64(self.reclaim_size, op.size as u64);
        }
        proof {
            assert(self.index.as_map().dom() =~= self.kvs@.dom());
            assert forall|k2: Seq<u8>| #[trigger] self.kvs@.contains_key(k2)
                implies self.entry_valid(k2, self.index.as_map()[k2], self.kvs@[k2]) by {
                assert(old(self).entry_valid(
                    k2, old(self).index.as_map()[k2], old(self).kvs@[k2]));
            }
        }
        Ok(())
    }

    /// The sequence counter's current value.
    pub fn current_seq_no(&self) -> (r: u64)
        ensures
            r == self.spec_seq_no(),
    {
        self.seq_no
    }

    /// Whether the engine found its directory empty when it opened.
    pub fn initial(&self) -> (r: bool)
        ensures
            r == self.spec_is_initial(),
    {
        self.is_initial
    }

    /// Whether the index holds `key`.
    pub(crate) fn index_has(&self, key: &Vec<u8>) -> (r: bool)
        requires
            self.wf(),
        ensures
            r == self.view().contains_key(key@),
    {
        self.index.get(key).is_some()
    }

    /// A fresh write batch for this store, with the given commit options.
    pub fn new_write_batch(&self, options: crate::options::WriteBatchOptions)
        -> (r: Result<crate::batch::WriteBatch, Errors>)
        ensures
            r matches Ok(b) ==> {
                &&& b.wf()
                &&& b.batch_map() == (Map::<Seq<u8>, (LogRecordType, Seq<u8>)>::empty())
                &&& b.spec_max() == options.max_batch_num
                &&& b.spec_sync() == options.sync_writes
            },
            r is Ok,
    {
        Ok(crate::batch::WriteBatch::new(options))
    }

    /// Writes every buffered operation of a batch under one fresh sequence
    /// number followed by the commit sentinel, flushes if asked to, and
    /// only then applies the operations to the index, in order.
    pub(crate) fn commit_batch(&mut self, pending: &Vec<(Vec<u8>, LogRecord)>, sync: bool)
        -> (r: Result<(), Errors>)
        requires
            old(self).wf(),
            forall|i: int| 0 <= i < crate::batch::view_pending(pending@).len() ==> {
                &&& 1 <= (#[trigger] crate::batch::view_pending(pending@)[i]).0.len()
                &&& crate::batch::view_pending(pending@)[i].0
                    == crate::batch::view_pending(pending@)[i].1.key@
                &&& crate::batch::view_pending(pending@)[i].0.len()
                    + crate::batch::view_pending(pending@)[i].1.value@.len() + 96
                    <= usize::MAX
                &&& crate::batch::view_pending(pending@)[i].1.rec_type
                    != LogRecordType::TxnFinished
            },
        ensures
            final(self).wf(),
            r matches Ok(_) ==> final(self).view() == crate::batch::spec_apply_batch(
                old(self).view(), crate::batch::view_pending(pending@)),
            r matches Ok(_) ==> final(self).spec_seq_no() == old(self).spec_seq_no() + 1,
            r matches Err(e) ==> final(self).view() == old(self).view()
                && (e == Errors::Io || e == Errors::DataFileBroken),
    {
        let ghost pview = crate::batch::view_pending(pending@);
        let ghost view0 = self.view();
        let seq = self.seq_no;
        if seq == u64::MAX {
            return Err(Errors::Io);
        }
        self.seq_no = seq + 1;

        // First phase: persist every record under the allocated sequence
        // number, collecting where each one landed.
        let mut positions: Vec<LogRecordPos> = Vec::new();
        let n = pending.len();
        let mut i: usize = 0;
        while i < n
            invariant
                i <= n == pending@.len(),
                pview == crate::batch::view_pending(pending@),
                positions@.len() == i,
                self.wf(),
                view0 == old(self).view(),
                self.view() == view0,
                self.seq_no == old(self).spec_seq_no() + 1,
                self.index == old(self).index,
                forall|j: int| 0 <= j < pview.len() ==> {
                    &&& 1 <= (#[trigger] pview[j]).0.len()
                    &&& pview[j].0 == pview[j].1.key@
                    &&& pview[j].0.len() + pview[j].1.value@.len() + 96 <= usize::MAX
                    &&& pview[j].1.rec_type != LogRecordType::TxnFinished
                },
                forall|j: int| 0 <= j < i && (#[trigger] pview[j]).1.rec_type
                    == LogRecordType::Normal
                    ==> self.entry_valid(pview[j].0, positions@[j], pview[j].1.value@),
            decreases n - i,
        {
            let key_copy = copy_range(&pending[i].0, 0, pending[i].0.len());
            proof {
                assert(key_copy@ =~= pview[i as int].0);
            }
            let enc_key = match log_record_key_with_seq(key_copy, seq) {
                Ok(v) => v,
                Err(_) => { return Err(Errors::Io); },
            };
            let value_copy = copy_range(&pending[i].1.value, 0, pending[i].1.value.len());
            proof {
                assert(value_copy@ =~= pview[i as int].1.value@);
                crate::varint::lemma_varint_len(seq);
            }
            let record = LogRecord {
                key: enc_key,
                value: value_copy,
                rec_type: pending[i].1.rec_type,
            };
            let ghost pre = *self;
            let pos = match self.append_log_record(&record) {
                Ok(p) => p,
                Err(e) => { return Err(e); },
            };
            positions.push(pos);
            proof {
                lemma_seq_key_round_trip(seq, pview[i as int].0);
                if pview[i as int].1.rec_type == LogRecordType::Normal {
                    assert(self.entry_valid(pview[i as int].0, pos,
                        pview[i as int].1.value@));
                }
                assert forall|j: int| 0 <= j < i && (#[trigger] pview[j]).1.rec_type
                    == LogRecordType::Normal
                    implies self.entry_valid(pview[j].0, positions@[j], pview[j].1.value@) by {
                    assert(pre.entry_valid(pview[j].0, positions@[j], pview[j].1.value@));
                }
            }
            i = i + 1;
        }

        // The commit sentinel: until it is on disk, none of the records
        // above will be replayed.
        let fin_key = match log_record_key_with_seq(crate::batch::txn_fin_key(), seq) {
            Ok(v) => v,
            Err(_) => { return Err(Errors::Io); },
        };
        proof {
            crate::varint::lemma_varint_len(seq);
        }
        let fin_record = LogRecord {
            key: fin_key,
            value: Vec::new(),
            rec_type: LogRecordType::TxnFinished,
        };
        let ghost pre_fin = *self;
        if let Err(e) = self.append_log_record(&fin_record) {
            return Err(e);
        }
        proof {
            assert forall|j: int| 0 <= j < n && (#[trigger] pview[j]).1.rec_type
                == LogRecordType::Normal
                implies self.entry_valid(pview[j].0, positions@[j], pview[j].1.value@) by {
                assert(pre_fin.entry_valid(pview[j].0, positions@[j], pview[j].1.value@));
            }
        }
        if sync {
            if self.active_file.sync().is_err() {
                return Err(Errors::Io);
            }
        }

        // Second phase: the operations become visible, in order.
        let mut i2: usize = 0;
        while i2 < n
            invariant
                i2 <= n == pending@.len(),
                pview == crate::batch::view_pending(pending@),
                positions@.len() == n,
                self.wf(),
                view0 == old(self).view(),
                self.seq_no == old(self).spec_seq_no() + 1,
                self.view() == crate::batch::spec_apply_batch(
                    view0, pview.subrange(0, i2 as int)),
                forall|j: int| 0 <= j < pview.len() ==> {
                    &&& 1 <= (#[trigger] pview[j]).0.len()
                    &&& pview[j].0 == pview[j].1.key@
                    &&& pview[j].0.len() + pview[j].1.value@.len() + 96 <= usize::MAX
                    &&& pview[j].1.rec_type != LogRecordType::TxnFinished
                },
                forall|j: int| i2 <= j < n && (#[trigger] pview[j]).1.rec_type
                    == LogRecordType::Normal
                    ==> self.entry_valid(pview[j].0, positions@[j], pview[j].1.value@),
            decreases n - i2,
        {
            let key_copy = copy_range(&pending[i2].0, 0, pending[i2].0.len());
            proof {
                assert(key_copy@ =~= pview[i2 as int].0);
                assert(pview.subrange(0, i2 + 1).drop_last() =~= pview.subrange(0, i2 as int));
                assert(pview.subrange(0, i2 + 1).last() == pview[i2 as int]);
            }
            let ghost pre = *self;
            match pending[i2].1.rec_type {
                LogRecordType::Deleted => {
                    let old_pos = self.index.delete(&key_copy);
                    self.kvs = Ghost(self.kvs@.remove(key_copy@));
                    if let Some(op) = old_pos {
                        self.reclaim_size = saturating_add_u64(
                            self.reclaim_size, op.size as u64);
                    }
                },
                _ => {
                    let pos = positions[i2];
                    let old_pos = self.index.put(key_copy, pos);
                    self.kvs = Ghost(self.kvs@.insert(pview[i2 as int].0,
                        pview[i2 as int].1.value@));
                    if let Some(op) = old_pos {
                        self.reclaim_size = saturating_add_u64(
                            self.reclaim_size, op.size as u64);
                    }
                },
            }
            proof {
                assert(self.index.as_map().dom() =~= self.kvs@.dom());
                assert forall|k2: Seq<u8>| #[trigger] self.kvs@.contains_key(k2)
                    implies self.entry_valid(k2, self.index.as_map()[k2], self.kvs@[k2]) by {
                    if pview[i2 as int].1.rec_type != LogRecordType::Deleted
                        && k2 == pview[i2 as int].0 {
                        assert(pre.entry_valid(pview[i2 as int].0, positions@[i2 as int],
                            pview[i2 as int].1.value@));
                    } else {
                        assert(pre.entry_valid(k2, pre.index.as_map()[k2], pre.kvs@[k2]));
                    }
                }
                assert forall|j: int| i2 + 1 <= j < n && (#[trigger] pview[j]).1.rec_type
                    == LogRecordType::Normal
                    implies self.entry_valid(pview[j].0, positions@[j], pview[j].1.value@) by {
                    assert(pre.entry_valid(pview[j].0, positions@[j], pview[j].1.value@));
                }
            }
            i2 = i2 + 1;
        }
        proof {
            assert(pview.subrange(0, n as int) =~= pview);
        }
        Ok(())
    }

    /// A snapshot cursor over the index, with every entry a live key at
    /// its current position.
    pub(crate) fn index_iterator(&self, options: crate::options::IteratorOptions)
        -> (r: crate::index::btree_iterator::BTreeIterator)
        requires
            self.wf(),
        ensures
            r.wf(),
            r.spec_curr() == 0,
            r.spec_prefix() == options.prefix@,
            r.spec_reverse() == options.reverse,
            r.spec_items().len() == self.view().dom().len(),
            forall|i: int| 0 <= i < r.spec_items().len() ==> {
                &&& self.view().contains_key((#[trigger] r.spec_items()[i]).0)
                &&& self.index.as_map().contains_key(r.spec_items()[i].0)
                &&& self.index.as_map()[r.spec_items()[i].0] == r.spec_items()[i].1
            },
    {
        let it = self.index.iterator(options);
        proof {
            assert forall|i: int| 0 <= i < it.spec_items().len()
                implies self.view().contains_key((#[trigger] it.spec_items()[i]).0) by {
                assert(self.index.as_map().contains_key(it.spec_items()[i].0));
                assert(self.index.as_map().dom() == self.kvs@.dom());
            }
            assert(it.key_set() == self.index.as_map().dom());
        }
        it
    }

    /// All keys of the index, ascending: exactly the live keys.
    pub(crate) fn index_list_keys(&self) -> (r: Result<Vec<Vec<u8>>, Errors>)
        requires
            self.wf(),
        ensures
            r matches Ok(keys) ==> {
                &&& keys@.len() == self.view().dom().len()
                &&& forall|i: int| 0 <= i < keys@.len()
                    ==> self.view().contains_key(#[trigger] keys@[i]@)
                &&& forall|i: int, j: int| 0 <= i < j < keys@.len()
                    ==> crate::index::lex_lt(keys@[i]@, keys@[j]@)
                &&& forall|k: Seq<u8>| self.view().contains_key(k)
                    ==> exists|i: int| 0 <= i < keys@.len() && #[trigger] keys@[i]@ == k
            },
            r is Ok,
    {
        let r = self.index.list_keys();
        proof {
            assert(self.index.as_map().dom() == self.kvs@.dom());
        }
        r
    }

    /// Compacts the store: every sealed file is scanned and only the
    /// records the index still points at are rewritten into a staged copy,
    /// together with a hint file and a completion marker. The next open
    /// adopts the staged copy; the live pairs are untouched throughout.
    pub fn merge(&mut self) -> (r: Result<(), Errors>)
        requires
            old(self).wf(),
        ensures
            final(self).wf(),
            final(self).view() == old(self).view(),
            // A finished merge leaves a staged marker naming the first file
            // id it did not cover: the id of the fresh active file.
            r matches Ok(_) ==> final(self).spec_staged_fin()
                == Some(spec_record_bytes(LogRecordType::Normal, spec_merge_fin_key(),
                    crate::data_file::spec_dec_bytes(
                        final(self).spec_active_file_id() as int, 10))),
            r matches Err(e) ==> match e {
                Errors::MergeRatioUnreached { reclaim_size, total_size } => {
                    &&& reclaim_size == old(self).spec_reclaim_size()
                    &&& (reclaim_size as int) * 100
                        < (old(self).spec_merge_ratio() as int) * (total_size as int)
                },
                Errors::MergeSpaceNotEnough { actual, expected } => {
                    &&& expected == old(self).spec_reclaim_size()
                    &&& expected >= actual
                },
                _ => true,
            },
    {
        // Too little reclaimable space makes a merge pointless.
        let reclaim = self.reclaim_size;
        let mut total: u64 = self.active_file.get_write_off();
        let mut i: usize = 0;
        let n = self.older_files.len();
        while i < n
            invariant
                i <= n == self.older_files@.len(),
                self.wf(),
            decreases n - i,
        {
            total = saturating_add_u64(total, self.older_files[i].get_write_off());
            i = i + 1;
        }
        proof {
            assert((reclaim as u128) * 100 <= 0xFFFFFFFFFFFFFFFFu128 * 100)
                by (nonlinear_arith)
                requires reclaim as u128 <= 0xFFFFFFFFFFFFFFFFu128;
            assert((self.options.data_file_merge_ratio as u128) * (total as u128)
                <= 0xFFFFFFFFu128 * 0xFFFFFFFFFFFFFFFFu128) by (nonlinear_arith)
                requires
                    self.options.data_file_merge_ratio as u128 <= 0xFFFFFFFFu128,
                    total as u128 <= 0xFFFFFFFFFFFFFFFFu128;
        }
        if (reclaim as u128) * 100
            < (self.options.data_file_merge_ratio as u128) * (total as u128) {
            return Err(Errors::MergeRatioUnreached {
                reclaim_size: reclaim, total_size: total,
            });
        }
        // A compacted copy must fit beside the store.
        let avail = IO::available_space(self.options.dir_path.as_str());
        if reclaim >= avail {
            return Err(Errors::MergeSpaceNotEnough { actual: avail, expected: reclaim });
        }

        // Seal the active file: the files to merge are everything sealed,
        // and writes go on in files past the marker id.
        if self.active_file.sync().is_err() {
            return Err(Errors::Io);
        }
        let current_id = self.active_file.get_file_id();
        if current_id == u32::MAX {
            return Err(Errors::DataFileBroken);
        }
        let new_file = match DataFile::<IO>::new(
            self.options.dir_path.as_str(), current_id + 1) {
            Ok(f) => f,
            Err(_) => { return Err(Errors::Io); },
        };
        let ghost pre = *self;
        let sealed = core::mem::replace(&mut self.active_file, new_file);
        self.older_files.push(sealed);
        proof {
            Self::lemma_entries_after_seal(&pre, self);
            assert forall|k: Seq<u8>| #[trigger] self.kvs@.contains_key(k)
                implies self.entry_valid(k, self.index.as_map()[k], self.kvs@[k]) by {
                assert(pre.entry_valid(k, pre.index.as_map()[k], pre.kvs@[k]));
            }
        }
        let non_merge_fid = current_id + 1;

        // A second, fresh store in the staging directory receives the
        // records that are still live.
        let merge_path = crate::merge::get_merge_path(self.options.dir_path.as_str());
        let merge_opts = crate::options::EngineOptions {
            dir_path: merge_path.clone(),
            data_file_size: self.options.data_file_size,
            sync_writes: false,
            index_type: crate::options::IndexType::BTree,
            bytes_per_sync: 0,
            use_mmap_when_startup: false,
            data_file_merge_ratio: 50,
        };
        if merge_path.as_str().unicode_len() == 0 {
            return Err(Errors::DirPathIsEmpty);
        }
        let mut merge_db = match Engine::<IO>::open(merge_opts) {
            Ok(e) => e,
            Err(e) => { return Err(e); },
        };
        let mut hint_file = match DataFile::<IO>::new_hint_file(merge_path.as_str()) {
            Ok(f) => f,
            Err(_) => { return Err(Errors::Io); },
        };

        let nf = self.older_files.len();
        let mut fi: usize = 0;
        while fi < nf
            invariant
                fi <= nf == self.older_files@.len(),
                self.wf(),
                merge_db.wf(),
                hint_file.wf(),
                self.kvs == old(self).kvs,
            decreases nf - fi,
        {
            let fid = self.older_files[fi].get_file_id();
            let ghost file_c = self.older_files@[fi as int].contents();
            let mut offset: u64 = 0;
            loop
                invariant
                    fi < self.older_files@.len(),
                    self.wf(),
                    merge_db.wf(),
                    hint_file.wf(),
                    self.kvs == old(self).kvs,
                    file_c == self.older_files@[fi as int].contents(),
                decreases file_c.len() - offset,
            {
                let rr = match self.older_files[fi].read_log_record(offset) {
                    Ok(rr) => rr,
                    Err(Errors::ReadDataFileEOF) => { break; },
                    Err(e) => { return Err(e); },
                };
                proof {
                    lemma_parse_bounds(file_c, offset as int);
                    self.older_files@[fi as int].lemma_wf_bounds();
                }
                let (real_key, _seq) = match crate::batch::parse_log_record_key(rr.record.key) {
                    Ok(v) => v,
                    Err(e) => { return Err(e); },
                };
                if let Some(index_pos) = self.index.get(&real_key) {
                    if index_pos.file_id == fid && index_pos.offset == offset {
                        // The record is live: rewrite it without its
                        // transactional identity and note where it lands.
                        if real_key.len() as u128 + rr.record.value.len() as u128 + 96
                            > usize::MAX as u128 {
                            return Err(Errors::Io);
                        }
                        let key_copy = copy_range(&real_key, 0, real_key.len());
                        let seq_key = match log_record_key_with_seq(key_copy, 0) {
                            Ok(v) => v,
                            Err(_) => { return Err(Errors::Io); },
                        };
                        proof {
                            crate::varint::lemma_varint_len(0);
                        }
                        let rec2 = LogRecord {
                            key: seq_key,
                            value: rr.record.value,
                            rec_type: rr.record.rec_type,
                        };
                        let pos2 = match merge_db.append_log_record(&rec2) {
                            Ok(p) => p,
                            Err(e) => { return Err(e); },
                        };
                        if let Err(e) = hint_file.write_hint_record(real_key, pos2) {
                            return Err(e);
                        }
                    }
                }
                offset = offset + rr.size as u64;
            }
            fi = fi + 1;
        }

        if merge_db.sync().is_err() {
            return Err(Errors::Io);
        }
        if hint_file.sync().is_err() {
            return Err(Errors::Io);
        }

        // The marker: its value names the first file id the merge did not
        // cover. Only once it is durable will the next open adopt the copy.
        let mut fin_file = match DataFile::<IO>::new_merge_fin_file(merge_path.as_str()) {
            Ok(f) => f,
            Err(_) => { return Err(Errors::Io); },
        };
        let mut fin_value: Vec<u8> = Vec::new();
        crate::data_file::push_dec_bytes(&mut fin_value, non_merge_fid as u64, 10);
        proof {
            crate::data_file::lemma_dec_bytes_len(non_merge_fid as int, 10);
            // The marker's digits read back as the id they were made from.
            assert(crate::data_file::pow10(10) == 10000000000) by {
                reveal_with_fuel(crate::data_file::pow10, 11);
            }
            crate::data_file::lemma_dec_bytes_value(non_merge_fid as u64, 10);
            assert(crate::data_file::spec_dec_value(fin_value@) == non_merge_fid);
        }
        let fin_record = LogRecord {
            key: merge_fin_key(),
            value: fin_value,
            rec_type: LogRecordType::Normal,
        };
        let enc = match fin_record.encode() {
            Ok(v) => v,
            Err(_) => { return Err(Errors::Io); },
        };
        if fin_file.write(&enc).is_err() {
            return Err(Errors::Io);
        }
        if fin_file.sync().is_err() {
            return Err(Errors::Io);
        }

        let Engine { active_file: m_active, older_files: m_older, .. } = merge_db;
        let mut m_data = m_older;
        m_data.push(m_active);
        self.pending_merge = Some(MergeStaging {
            data: m_data,
            hint: hint_file,
            fin: fin_file,
        });
        Ok(())
    }

    /// Gives up every file the engine holds, in the shape the next open
    /// takes: the data files, and any staged merge output.
    pub fn into_files(self) -> (r: OpenFiles<IO>) {
        let Engine { active_file, older_files, pending_merge, .. } = self;
        let mut data: Vec<(u32, IO)> = Vec::new();
        let mut rest = older_files;
        while rest.len() > 0
            decreases rest@.len(),
        {
            let f = rest.remove(0);
            data.push(f.into_parts());
        }
        data.push(active_file.into_parts());
        let merge = match pending_merge {
            None => None,
            Some(st) => {
                let MergeStaging { data: sdata, hint, fin } = st;
                let mut mdata: Vec<(u32, IO)> = Vec::new();
                let mut srest = sdata;
                while srest.len() > 0
                    decreases srest@.len(),
                {
                    let f = srest.remove(0);
                    mdata.push(f.into_parts());
                }
                let (_, hint_io) = hint.into_parts();
                let (_, fin_io) = fin.into_parts();
                Some(MergeFiles { data: mdata, hint: Some(hint_io), fin: Some(fin_io) })
            },
        };
        OpenFiles { data, hint: None, merge }
    }

    /// Flushes the active file durably.
    pub fn sync(&self) -> (r: Result<(), Errors>)
        requires
            self.wf(),
    {
        self.active_file.sync()
    }

    /// Closes the store: persists the sequence counter beside the data
    /// files and flushes the active file. The stored pairs are untouched.
    pub fn close(&mut self) -> (r: Result<(), Errors>)
        requires
            old(self).wf(),
        ensures
            final(self).wf(),
            final(self).view() == old(self).view(),
            final(self).spec_seq_no() == old(self).spec_seq_no(),
            r matches Ok(_) ==> final(self).spec_seq_file_contents()
                == Some(spec_record_bytes(LogRecordType::Normal, spec_seq_no_key(),
                    crate::data_file::spec_dec_bytes(old(self).spec_seq_no() as int, 20))),
    {
        let mut seq_file = match DataFile::<IO>::new_seq_no_file(self.options.dir_path.as_str()) {
            Ok(f) => f,
            Err(e) => { return Err(e); },
        };
        let mut value: Vec<u8> = Vec::new();
        crate::data_file::push_dec_bytes(&mut value, self.seq_no, 20);
        proof {
            crate::data_file::lemma_dec_bytes_len(self.seq_no as int, 20);
        }
        let record = LogRecord {
            key: seq_no_key(),
            value,
            rec_type: LogRecordType::Normal,
        };
        let enc = match record.encode() {
            Ok(v) => v,
            Err(e) => { return Err(e); },
        };
        if seq_file.write(&enc).is_err() {
            return Err(Errors::Io);
        }
        if seq_file.sync().is_err() {
            return Err(Errors::Io);
        }
        self.seq_no_file = Some(seq_file);
        if self.active_file.sync().is_err() {
            return Err(Errors::Io);
        }
        Ok(())
    }

    /// A snapshot of the store's size: its key count, its sealed file
    /// count, its reclaimable bytes, and the bytes its files occupy.
    pub fn stat(&self) -> (r: Result<Stat, Errors>)
        requires
            self.wf(),
        ensures
            r matches Ok(st) ==> {
                &&& st.key_num == self.view().dom().len()
                &&& st.data_file_num == self.spec_data_file_num()
                &&& st.reclaim_size == self.spec_reclaim_size()
                    || st.reclaim_size == usize::MAX
                &&& self.spec_disk_size() <= usize::MAX
                    ==> st.disk_size == self.spec_disk_size()
            },
    {
        let keys = match self.index.list_keys() {
            Ok(v) => v,
            Err(e) => { return Err(e); },
        };
        let reclaim = self.reclaim_size;
        let reclaim_us: usize = if reclaim > usize::MAX as u64 {
            usize::MAX
        } else {
            reclaim as usize
        };
        let mut disk_size: u64 = self.active_file.get_write_off();
        let mut i: usize = 0;
        let n = self.older_files.len();
        while i < n
            invariant
                i <= n == self.older_files@.len(),
                self.wf(),
                self.spec_disk_size() <= usize::MAX
                    ==> disk_size == self.active_file.contents().len()
                        + spec_files_bytes(self.older_files@.subrange(0, i as int)),
            decreases n - i,
        {
            proof {
                lemma_files_bytes_prefix(self.older_files@, i + 1);
                assert(self.older_files@.subrange(0, i + 1).drop_last()
                    =~= self.older_files@.subrange(0, i as int));
                assert(self.older_files@.subrange(0, i + 1).last()
                    == self.older_files@[i as int]);
                self.older_files@[i as int].lemma_wf_bounds();
            }
            disk_size = saturating_add_u64(disk_size, self.older_files[i].get_write_off());
            i = i + 1;
        }
        proof {
            assert(self.older_files@.subrange(0, n as int) =~= self.older_files@);
        }
        let disk_us: usize = if disk_size > usize::MAX as u64 {
            usize::MAX
        } else {
            disk_size as usize
        };
        Ok(Stat {
            key_num: keys.len(),
            data_file_num: n,
            reclaim_size: reclaim_us,
            disk_size: disk_us,
        })
    }
}

/// The files a merge left behind in the staging directory, as found on the
/// next open: compacted data files, the hint file, and the completion
/// marker. Without the marker the merge never finished and the staged files
/// are ignored.
pub struct MergeFiles<IO: IOManager> {
    pub data: Vec<(u32, IO)>,
    pub hint: Option<IO>,
    pub fin: Option<IO>,
}

/// What a directory holds when the engine opens it: each data file with the
/// id parsed from its name, the hint file if one exists, and any staged
/// merge output.
pub struct OpenFiles<IO: IOManager> {
    pub data: Vec<(u32, IO)>,
    pub hint: Option<IO>,
    pub merge: Option<MergeFiles<IO>>,
}

impl<IO: IOManager> OpenFiles<IO> {
    /// What an empty directory holds.
    pub fn empty() -> (r: Self) {
        OpenFiles { data: Vec::new(), hint: None, merge: None }
    }
}

/// One replayed operation: a key, what the record does, and its value.
pub type ReplayOp = (Seq<u8>, LogRecordType, Seq<u8>);

/// The state a replay builds: the live view, the operations parked per
/// uncommitted transaction, and the highest sequence number seen.
pub struct ReplayState {
    pub view: Map<Seq<u8>, Seq<u8>>,
    pub pending: Map<u64, Seq<ReplayOp>>,
    pub max_seq: u64,
}

/// The replay state an open starts from: a base view (empty, unless a hint
/// file seeded it), nothing parked, no sequence number seen.
pub open spec fn spec_replay_init(base: Map<Seq<u8>, Seq<u8>>) -> ReplayState {
    ReplayState { view: base, pending: Map::empty(), max_seq: 0 }
}

/// One operation applied to the live view: a live record stores its value,
/// a tombstone removes its key, a sentinel alone changes nothing.
pub open spec fn spec_apply_op(m: Map<Seq<u8>, Seq<u8>>, op: ReplayOp) -> Map<Seq<u8>, Seq<u8>> {
    match op.1 {
        LogRecordType::Deleted => m.remove(op.0),
        LogRecordType::TxnFinished => m,
        LogRecordType::Normal => m.insert(op.0, op.2),
    }
}

/// A list of operations applied to the live view, in order.
pub open spec fn spec_apply_ops(m: Map<Seq<u8>, Seq<u8>>, ops: Seq<ReplayOp>) -> Map<Seq<u8>, Seq<u8>>
    decreases ops.len(),
{
    if ops.len() == 0 {
        m
    } else {
        spec_apply_op(spec_apply_ops(m, ops.drop_last()), ops.last())
    }
}

/// One record folded into the replay state. A record of sequence zero takes
/// effect at once; a commit sentinel releases everything parked under its
/// number, or fails when nothing is; any other sequenced record is parked.
pub open spec fn spec_replay_step(
    st: ReplayState, rk: Seq<u8>, seq_no: u64, t: LogRecordType, v: Seq<u8>,
) -> Option<ReplayState> {
    let bumped = if seq_no > st.max_seq { seq_no } else { st.max_seq };
    if seq_no == 0 {
        Some(ReplayState {
            view: spec_apply_op(st.view, (rk, t, v)),
            pending: st.pending,
            max_seq: bumped,
        })
    } else if t == LogRecordType::TxnFinished {
        if st.pending.contains_key(seq_no) {
            Some(ReplayState {
                view: spec_apply_ops(st.view, st.pending[seq_no]),
                pending: st.pending.remove(seq_no),
                max_seq: bumped,
            })
        } else {
            None
        }
    } else {
        let prior = if st.pending.contains_key(seq_no) {
            st.pending[seq_no]
        } else {
            Seq::empty()
        };
        Some(ReplayState {
            view: st.view,
            pending: st.pending.insert(seq_no, prior.push((rk, t, v))),
            max_seq: bumped,
        })
    }
}

/// The replay of one file's records from `off` to its end: stops at the end
/// of the file (or zero-length padding), fails on bytes that do not form
/// checksummed records, on keys without a sequence prefix, and on orphan
/// commit sentinels. Operations parked for a transaction whose sentinel
/// never follows are discarded with the state's `pending`.
pub open spec fn spec_replay_file(c: Seq<u8>, off: int, st: ReplayState) -> Option<ReplayState>
    decreases c.len() - off,
{
    match spec_parse_record(c, off) {
        RecordParse::Eof => Some(st),
        RecordParse::Corrupt => None,
        RecordParse::BadCrc => None,
        RecordParse::Valid(t, sk, v, sz) => {
            if sz < 1 || off < 0 || off + sz > c.len() {
                None
            } else {
                match spec_parse_seq_key(sk) {
                    Option::None => None,
                    Option::Some((rk, seq_no)) => match spec_replay_step(st, rk, seq_no, t, v) {
                        Option::None => None,
                        Option::Some(st2) => spec_replay_file(c, off + sz, st2),
                    },
                }
            }
        },
    }
}

/// The replay of a list of `(file id, bytes)` pairs, oldest first. With a
/// completed merge, files below the first non-merged id are covered by the
/// hint file and skipped.
pub open spec fn spec_replay_files(
    files: Seq<(u32, Seq<u8>)>, non_merge_fid: u32, has_merge: bool, st: ReplayState,
) -> Option<ReplayState>
    decreases files.len(),
{
    if files.len() == 0 {
        Some(st)
    } else {
        match spec_replay_files(files.drop_last(), non_merge_fid, has_merge, st) {
            Option::None => None,
            Option::Some(st2) => {
                if has_merge && files.last().0 < non_merge_fid {
                    Some(st2)
                } else {
                    spec_replay_file(files.last().1, 0, st2)
                }
            },
        }
    }
}

/// Parked records as replay operations.
pub open spec fn spec_recs_view(recs: Seq<TransactionRecord>) -> Seq<ReplayOp> {
    recs.map_values(|t: TransactionRecord| (t.record.key@, t.record.rec_type, t.record.value@))
}

/// The parked transactions as a map from sequence number to operations.
pub open spec fn spec_txns_map(
    txns: Seq<(u64, Vec<TransactionRecord>)>,
) -> Map<u64, Seq<ReplayOp>>
    decreases txns.len(),
{
    if txns.len() == 0 {
        Map::empty()
    } else {
        spec_txns_map(txns.drop_last()).insert(
            txns.last().0, spec_recs_view(txns.last().1@))
    }
}

/// No two parked transactions share a sequence number.
pub open spec fn spec_txns_unique(txns: Seq<(u64, Vec<TransactionRecord>)>) -> bool {
    forall|i: int, j: int| 0 <= i < j < txns.len()
        ==> (#[trigger] txns[i]).0 != (#[trigger] txns[j]).0
}

/// A replay that already failed on a prefix of the files fails on all of
/// them.
proof fn lemma_replay_files_none(
    files: Seq<(u32, Seq<u8>)>, non_merge_fid: u32, has_merge: bool, st: ReplayState, m: int,
)
    requires
        0 <= m <= files.len(),
        spec_replay_files(files.subrange(0, m), non_merge_fid, has_merge, st) is None,
    ensures
        spec_replay_files(files, non_merge_fid, has_merge, st) is None,
    decreases files.len(),
{
    if m == files.len() {
        assert(files.subrange(0, m) =~= files);
    } else {
        let rest = files.drop_last();
        assert(files.subrange(0, m) =~= rest.subrange(0, m));
        lemma_replay_files_none(rest, non_merge_fid, has_merge, st, m);
    }
}

/// A sequence number is parked exactly when some entry carries it.
proof fn lemma_txns_map_contains(txns: Seq<(u64, Vec<TransactionRecord>)>, seq_no: u64)
    ensures
        spec_txns_map(txns).contains_key(seq_no)
            <==> exists|i: int| 0 <= i < txns.len() && (#[trigger] txns[i]).0 == seq_no,
    decreases txns.len(),
{
    if txns.len() > 0 {
        let rest = txns.drop_last();
        lemma_txns_map_contains(rest, seq_no);
        if exists|i: int| 0 <= i < rest.len() && (#[trigger] rest[i]).0 == seq_no {
            let i = choose|i: int| 0 <= i < rest.len() && (#[trigger] rest[i]).0 == seq_no;
            assert(txns[i].0 == seq_no);
        }
        if txns.last().0 != seq_no
            && exists|i: int| 0 <= i < txns.len() && (#[trigger] txns[i]).0 == seq_no {
            let i = choose|i: int| 0 <= i < txns.len() && (#[trigger] txns[i]).0 == seq_no;
            assert(rest[i].0 == seq_no);
        }
    }
}

/// With unique numbers, the map sends each entry's number to its operations.
proof fn lemma_txns_map_value(txns: Seq<(u64, Vec<TransactionRecord>)>, i: int)
    requires
        spec_txns_unique(txns),
        0 <= i < txns.len(),
    ensures
        spec_txns_map(txns).contains_key(txns[i].0),
        spec_txns_map(txns)[txns[i].0] == spec_recs_view(txns[i].1@),
    decreases txns.len(),
{
    lemma_txns_map_contains(txns, txns[i].0);
    if i < txns.len() - 1 {
        assert(txns.drop_last()[i] == txns[i]);
        assert(forall|a: int, b: int| 0 <= a < b < txns.drop_last().len()
            ==> (#[trigger] txns.drop_last()[a]).0 != (#[trigger] txns.drop_last()[b]).0) by {
            assert(forall|a: int| 0 <= a < txns.drop_last().len()
                ==> #[trigger] txns.drop_last()[a] == txns[a]);
        }
        lemma_txns_map_value(txns.drop_last(), i);
        assert(txns[txns.len() - 1].0 != txns[i].0);
    }
}

/// Removing the entry that holds a number removes it from the map.
proof fn lemma_txns_map_remove(txns: Seq<(u64, Vec<TransactionRecord>)>, i: int)
    requires
        spec_txns_unique(txns),
        0 <= i < txns.len(),
    ensures
        spec_txns_map(txns.remove(i)) == spec_txns_map(txns).remove(txns[i].0),
    decreases txns.len(),
{
    let k = txns[i].0;
    let s2 = txns.remove(i);
    if i == txns.len() - 1 {
        assert(s2 =~= txns.drop_last());
        lemma_txns_map_contains(txns.drop_last(), k);
        assert(!(exists|j: int| 0 <= j < txns.drop_last().len()
            && (#[trigger] txns.drop_last()[j]).0 == k)) by {
            if exists|j: int| 0 <= j < txns.drop_last().len()
                && (#[trigger] txns.drop_last()[j]).0 == k {
                let j = choose|j: int| 0 <= j < txns.drop_last().len()
                    && (#[trigger] txns.drop_last()[j]).0 == k;
                assert(txns[j].0 == txns[i].0);
            }
        }
        assert(spec_txns_map(txns.drop_last()).insert(k,
            spec_recs_view(txns.last().1@)).remove(k)
            =~= spec_txns_map(txns.drop_last()));
        assert(txns.last() == txns[i]);
    } else {
        let rest = txns.drop_last();
        assert(forall|a: int| 0 <= a < rest.len() ==> #[trigger] rest[a] == txns[a]);
        assert(rest[i] == txns[i]);
        assert(forall|a: int, b: int| 0 <= a < b < rest.len()
            ==> (#[trigger] rest[a]).0 != (#[trigger] rest[b]).0);
        lemma_txns_map_remove(rest, i);
        assert(s2.drop_last() =~= rest.remove(i));
        assert(s2.last() == txns.last());
        assert(txns.last().0 != k) by {
            assert(txns[txns.len() - 1].0 == txns.last().0);
        }
        assert(spec_txns_map(rest).remove(k).insert(txns.last().0,
            spec_recs_view(txns.last().1@))
            =~= spec_txns_map(rest).insert(txns.last().0,
                spec_recs_view(txns.last().1@)).remove(k));
    }
}

impl<IO: IOManager> Engine<IO> {
    /// A sealed file at index `i` is the file the engine associates with
    /// its id.
    proof fn lemma_older_contents(&self, i: int)
        requires
            self.wf(),
            0 <= i < self.older_files@.len(),
        ensures
            self.has_file(self.older_files@[i].spec_file_id()),
            self.file_contents(self.older_files@[i].spec_file_id())
                == self.older_files@[i].contents(),
    {
        let fid = self.older_files@[i].spec_file_id();
        assert(self.has_file(fid));
        assert(fid != self.active_file.spec_file_id());
        let c = choose|c: int| 0 <= c < self.older_files@.len()
            && (#[trigger] self.older_files@[c]).spec_file_id() == fid;
        assert(c == i) by {
            if c < i {
                assert(self.older_files@[c].spec_file_id()
                    < self.older_files@[i].spec_file_id());
            } else if c > i {
                assert(self.older_files@[i].spec_file_id()
                    < self.older_files@[c].spec_file_id());
            }
        }
    }

    /// The engine's data files as `(id, bytes)` pairs, sealed files in
    /// ascending id order with the active file last.
    pub closed spec fn spec_files(&self) -> Seq<(u32, Seq<u8>)> {
        self.older_files@.map_values(|f: DataFile<IO>| (f.spec_file_id(), f.contents()))
            .push((self.active_file.spec_file_id(), self.active_file.contents()))
    }

    /// The replay state the engine and the parked transactions stand for.
    pub(crate) open spec fn spec_rstate(
        &self, txns: Seq<(u64, Vec<TransactionRecord>)>, max_seq: u64,
    ) -> ReplayState {
        ReplayState { view: self.kvs@, pending: spec_txns_map(txns), max_seq }
    }

    /// The bytes the replay reads at step `fi`: a sealed file, or the
    /// active file once the sealed ones are done.
    pub(crate) open spec fn spec_replay_source(&self, fi: int) -> Seq<u8> {
        if fi < self.older_files@.len() {
            self.older_files@[fi].contents()
        } else {
            self.active_file.contents()
        }
    }

    /// Looking a file up by id in the engine's file list agrees with the
    /// engine's own notion of which files it holds.
    proof fn lemma_spec_files_lookup(&self, fid: u32)
        requires
            self.wf(),
        ensures
            spec_list_file(self.spec_files(), fid)
                == if self.has_file(fid) {
                    Some(self.file_contents(fid))
                } else {
                    None::<Seq<u8>>
                },
    {
        let m = self.spec_files();
        let older_m = self.older_files@.map_values(
            |f: DataFile<IO>| (f.spec_file_id(), f.contents()));
        assert(m.drop_last() =~= older_m);
        assert(m.last() == (self.active_file.spec_file_id(), self.active_file.contents()));
        lemma_list_file_entries(self.older_files@, fid);
        if fid == self.active_file.spec_file_id() {
        } else {
            if self.has_file(fid) {
                let i = choose|i: int| 0 <= i < self.older_files@.len()
                    && (#[trigger] self.older_files@[i]).spec_file_id() == fid;
                self.lemma_older_contents(i);
            }
        }
    }

    /// A parked transaction record may be applied later: a normal record
    /// must still be a valid entry of its key.
    pub(crate) open spec fn txn_rec_valid(&self, t: TransactionRecord) -> bool {
        t.record.rec_type == LogRecordType::Normal
            ==> self.entry_valid(t.record.key@, t.pos, t.record.value@)
    }

    /// Every record parked for any pending transaction may be applied later.
    pub(crate) open spec fn txns_valid(&self, txns: Seq<(u64, Vec<TransactionRecord>)>) -> bool {
        forall|i: int, j: int| 0 <= i < txns.len() && 0 <= j < txns[i].1@.len()
            ==> self.txn_rec_valid(#[trigger] txns[i].1@[j])
    }

    /// Opens the engine over the files its directory holds: adopts any
    /// completed merge, replays the hint file, then replays the data files
    /// and recovers the sequence counter.
    #[verifier::spinoff_prover]
    #[verifier::rlimit(100)]
    pub fn open_with_files(options: EngineOptions, files: OpenFiles<IO>)
        -> (r: Result<Self, Errors>)
        ensures
            r matches Ok(e) ==> e.wf() && e.spec_seq_no() >= 1,
            // The opened view is the replay of the engine's files: a base
            // view the hint file seeded (empty without one), folded through
            // every record per its sequence number and commit sentinel.
            r matches Ok(e) ==> exists|base: Map<Seq<u8>, Seq<u8>>, nm: u32, hm: bool| {
                &&& match (if spec_adopts(files.merge) {
                    files.merge->Some_0.hint
                } else {
                    files.hint
                }) {
                    Option::None => base == (Map::<Seq<u8>, Seq<u8>>::empty()),
                    Option::Some(h) => spec_replay_hint(e.spec_files(), h.contents(),
                        0, (Map::<Seq<u8>, Seq<u8>>::empty())) == Some(base),
                }
                &&& files.merge is None ==> (nm == 0 && hm == false)
                &&& spec_adopts(files.merge) ==> (hm == true
                    && Some(nm as int) == spec_fin_id(
                        files.merge->Some_0.fin->Some_0.contents()))
                &&& #[trigger] spec_replay_files(e.spec_files(), nm, hm,
                        spec_replay_init(base))
                    matches Some(st) && e.view() == st.view
                    && e.spec_seq_no() == (if st.max_seq > 0 { st.max_seq } else { 1u64 })
            },
            // With a staged merge whose marker reads back, the staged files
            // and the log tail at or past the marker id are all among the
            // engine's files.
            r matches Ok(e) ==> files.merge matches Some(mf)
                ==> mf.fin matches Some(fin)
                ==> spec_fin_id(fin.contents()) matches Some(nm0) ==> {
                &&& forall|j: int| 0 <= j < mf.data@.len()
                    ==> exists|i: int| 0 <= i < e.spec_files().len()
                        && e.spec_files()[i].0 == (#[trigger] mf.data@[j]).0
                        && e.spec_files()[i].1 == mf.data@[j].1.contents()
                &&& forall|j: int| 0 <= j < files.data@.len()
                        && (#[trigger] files.data@[j]).0 >= nm0
                    ==> exists|i: int| 0 <= i < e.spec_files().len()
                        && e.spec_files()[i].0 == files.data@[j].0
                        && e.spec_files()[i].1 == files.data@[j].1.contents()
            },
            // Without a staged merge, the engine's files are exactly the
            // files it was given (an empty directory opens one fresh file).
            r matches Ok(e) ==> files.merge is None ==> {
                &&& files.data@.len() == 0 ==> e.spec_files().len() == 1
                    && e.spec_files()[0].1 == Seq::<u8>::empty()
                &&& files.data@.len() > 0 ==> e.spec_files().len() == files.data@.len()
                &&& forall|j: int| 0 <= j < files.data@.len()
                    ==> exists|i: int| 0 <= i < e.spec_files().len()
                        && e.spec_files()[i].0 == (#[trigger] files.data@[j]).0
                        && e.spec_files()[i].1 == files.data@[j].1.contents()
            },
    {
        if let Err(e) = check_options(&options) {
            return Err(e);
        }
        let OpenFiles { data, hint, merge } = files;

        // Adopt a completed merge: its compacted files replace every data
        // file below the id its marker names, and its hint file replaces
        // the old one.
        let mut data = data;
        let mut hint = hint;
        let mut non_merge_fid: u32 = 0;
        let mut has_merge = false;
        let ghost mut g_mdata: Seq<(u32, IO)> = Seq::empty();
        match merge {
            None => {},
            Some(mf) => {
                let MergeFiles { data: mdata, hint: mhint, fin } = mf;
                proof {
                    g_mdata = mdata@;
                }
                match fin {
                    None => {
                        proof {
                            assert(files.merge matches Some(m2) && m2.fin is None);
                        }
                    },
                    Some(fin_io) => {
                        let fin_file = match DataFile::<IO>::from_io(0, fin_io) {
                            Ok(f) => f,
                            Err(e) => { return Err(e); },
                        };
                        let rr = match fin_file.read_log_record(0) {
                            Ok(rr) => rr,
                            Err(_) => { return Err(Errors::DataFileBroken); },
                        };
                        let nm = match crate::data_file::parse_dec_u64(&rr.record.value) {
                            Ok(v) => v,
                            Err(_) => { return Err(Errors::DataFileBroken); },
                        };
                        if nm > u32::MAX as u64 {
                            return Err(Errors::DataFileBroken);
                        }
                        non_merge_fid = nm as u32;
                        has_merge = true;
                        proof {
                            assert(spec_fin_id(fin_file.contents())
                                == Some(non_merge_fid as int));
                        }
                        let ghost in_data = data@;
                        let ghost mdata0 = mdata@;
                        let mut kept = mdata;
                        let mut rest = data;
                        let ghost mut di: int = 0;
                        proof {
                            assert(rest@ =~= in_data.subrange(0, in_data.len() as int));
                        }
                        while rest.len() > 0
                            invariant
                                0 <= di <= in_data.len(),
                                rest@ == in_data.subrange(di, in_data.len() as int),
                                forall|j: int| 0 <= j < mdata0.len()
                                    ==> #[trigger] kept@[j] == mdata0[j],
                                kept@.len() >= mdata0.len(),
                                forall|j: int| 0 <= j < di
                                    && (#[trigger] in_data[j]).0 >= non_merge_fid
                                    ==> file_appears(kept@, in_data[j]),
                            decreases rest@.len(),
                        {
                            let ghost prerest = rest@;
                            let ghost prekept = kept@;
                            let (fid, io) = rest.remove(0);
                            proof {
                                assert(prerest[0] == in_data[di]);
                                assert((fid, io) == in_data[di]);
                                assert(rest@ =~= in_data.subrange(
                                    di + 1, in_data.len() as int));
                            }
                            if fid >= non_merge_fid {
                                kept.push((fid, io));
                            }
                            proof {
                                assert forall|j: int| 0 <= j < di + 1
                                    && (#[trigger] in_data[j]).0 >= non_merge_fid
                                    implies file_appears(kept@, in_data[j]) by {
                                    if j < di {
                                        assert(file_appears(prekept, in_data[j]));
                                        let jj = choose|jj: int| 0 <= jj < prekept.len()
                                            && #[trigger] prekept[jj] == in_data[j];
                                        assert(kept@[jj] == in_data[j]);
                                    } else {
                                        assert(kept@[kept@.len() - 1] == in_data[j]);
                                    }
                                }
                                di = di + 1;
                            }
                        }
                        data = kept;
                        hint = mhint;
                        proof {
                            assert(forall|j: int| 0 <= j < g_mdata.len()
                                ==> #[trigger] data@[j] == g_mdata[j]);
                            assert(forall|j: int| 0 <= j < in_data.len()
                                && (#[trigger] in_data[j]).0 >= non_merge_fid
                                ==> file_appears(data@, in_data[j]));
                            assert(files.merge matches Some(mf2)
                                && mf2.data@ == g_mdata
                                && (mf2.fin matches Some(f2)
                                    && spec_fin_id(f2.contents())
                                        == Some(non_merge_fid as int)));
                            assert(files.merge matches Some(mf2)
                                && hint == mf2.hint);
                            assert(in_data == files.data@);
                        }
                    },
                }
            },
        }

        let is_initial = data.len() == 0;
        let ghost data_view = data@;
        let sorted = match sort_files_by_id(data) {
            Ok(v) => v,
            Err(e) => { return Err(e); },
        };

        // The file with the highest id becomes the active file; the rest
        // are sealed.
        let mut older_files: Vec<DataFile<IO>> = Vec::new();
        let mut active_opt: Option<DataFile<IO>> = None;
        let ghost orig = sorted@;
        let total = sorted.len();
        let mut rest = sorted;
        let mut i: usize = 0;
        while i < total
            invariant
                total > 0 || i == total,
                i <= total == orig.len(),
                rest@ == orig.subrange(i as int, total as int),
                forall|a: int, b: int| 0 <= a < b < orig.len()
                    ==> (#[trigger] orig[a]).0 < (#[trigger] orig[b]).0,
                older_files@.len() == if i < total || total == 0 { i as int } else { total - 1 },
                forall|j: int| 0 <= j < older_files@.len() ==> {
                    &&& (#[trigger] older_files@[j]).wf()
                    &&& older_files@[j].spec_file_id() == orig[j].0
                    &&& older_files@[j].contents() == orig[j].1.contents()
                },
                i == total && total > 0 ==> (active_opt matches Some(f)
                    && f.wf() && f.spec_file_id() == orig[total - 1].0
                    && f.contents() == orig[total - 1].1.contents()),
                i < total || total == 0 ==> active_opt is None,
            decreases total - i,
        {
            let (fid, io) = rest.remove(0);
            proof {
                assert(orig.subrange(i as int, total as int)[0] == orig[i as int]);
                assert(rest@ =~= orig.subrange(i + 1, total as int));
                assert((fid, io) == orig[i as int]);
            }
            let f = match DataFile::<IO>::from_io(fid, io) {
                Ok(f) => f,
                Err(e) => { return Err(e); },
            };
            if i + 1 < total {
                older_files.push(f);
            } else {
                active_opt = Some(f);
            }
            i = i + 1;
        }
        let active_file = match active_opt {
            Some(f) => f,
            None => {
                match DataFile::<IO>::new(options.dir_path.as_str(), 0) {
                    Ok(f) => f,
                    Err(_) => { return Err(Errors::Io); },
                }
            },
        };

        let mut engine = Engine {
            index: new_indexer(options.index_type),
            options,
            active_file,
            older_files,
            seq_no: 1,
            reclaim_size: 0,
            bytes_write: 0,
            is_initial,
            seq_no_file: None,
            pending_merge: None,
            kvs: Ghost(Map::empty()),
        };
        proof {
            assert(engine.index.as_map().dom() =~= engine.kvs@.dom());
            assert forall|a: int, b: int| 0 <= a < b < engine.older_files@.len()
                implies (#[trigger] engine.older_files@[a]).spec_file_id()
                    < (#[trigger] engine.older_files@[b]).spec_file_id() by {
                assert(engine.older_files@[a].spec_file_id() == orig[a].0);
                assert(engine.older_files@[b].spec_file_id() == orig[b].0);
            }
            assert forall|a: int| 0 <= a < engine.older_files@.len()
                implies (#[trigger] engine.older_files@[a]).spec_file_id()
                    < engine.active_file.spec_file_id() by {
                assert(engine.older_files@[a].spec_file_id() == orig[a].0);
            }
            assert(engine.wf());
        }

        let ghost spec_files0 = engine.spec_files();
        proof {
            assert(spec_files0.len() == if total == 0 { 1int } else { total as int });
            assert forall|j: int| 0 <= j < total
                implies #[trigger] spec_files0[j] == (orig[j].0, orig[j].1.contents()) by {
                if j < total - 1 {
                    assert(spec_files0[j]
                        == (engine.older_files@[j].spec_file_id(),
                            engine.older_files@[j].contents()));
                }
            }
            if total == 0 {
                assert(spec_files0[0].1 == Seq::<u8>::empty());
            }
        }
        let ghost g_hint = hint;
        if let Err(e) = engine.load_index_from_hint_file(hint) {
            return Err(e);
        }
        let ghost base = engine.kvs@;
        proof {
            assert(spec_adopts(files.merge) == has_merge);
            assert(g_hint == if has_merge {
                files.merge->Some_0.hint
            } else {
                files.hint
            });
            match g_hint {
                Option::None => {
                    assert(base == (Map::<Seq<u8>, Seq<u8>>::empty()));
                },
                Option::Some(h) => {
                    assert(spec_replay_hint(spec_files0, h.contents(), 0,
                        (Map::<Seq<u8>, Seq<u8>>::empty())) == Some(base));
                },
            }
        }
        let current_seq_no = match engine.load_index_from_data_files(non_merge_fid, has_merge) {
            Ok(v) => v,
            Err(e) => { return Err(e); },
        };
        if current_seq_no > 0 {
            engine.seq_no = current_seq_no;
        }
        proof {
            assert(engine.spec_files() == spec_files0);
            assert(spec_replay_files(engine.spec_files(), non_merge_fid, has_merge,
                spec_replay_init(base)) matches Some(st)
                && engine.view() == st.view
                && engine.spec_seq_no()
                    == (if st.max_seq > 0 { st.max_seq } else { 1u64 }));
            if has_merge {
                assert forall|j: int| 0 <= j < g_mdata.len()
                    implies exists|i: int| 0 <= i < engine.spec_files().len()
                        && engine.spec_files()[i].0 == (#[trigger] g_mdata[j]).0
                        && engine.spec_files()[i].1 == g_mdata[j].1.contents() by {
                    assert(data_view[j] == g_mdata[j]);
                    assert(file_appears(orig, data_view[j]));
                    let i = choose|i: int| 0 <= i < orig.len()
                        && #[trigger] orig[i] == data_view[j];
                    assert(engine.spec_files()[i] == (orig[i].0, orig[i].1.contents()));
                    assert(exists|i2: int| 0 <= i2 < engine.spec_files().len()
                        && engine.spec_files()[i2].0 == g_mdata[j].0
                        && engine.spec_files()[i2].1 == g_mdata[j].1.contents()) by {
                        assert(0 <= i < engine.spec_files().len()
                            && engine.spec_files()[i].0 == g_mdata[j].0
                            && engine.spec_files()[i].1 == g_mdata[j].1.contents());
                    }
                }
                assert forall|j: int| 0 <= j < files.data@.len()
                    && (#[trigger] files.data@[j]).0 >= non_merge_fid
                    implies exists|i: int| 0 <= i < engine.spec_files().len()
                        && engine.spec_files()[i].0 == files.data@[j].0
                        && engine.spec_files()[i].1 == files.data@[j].1.contents() by {
                    assert(file_appears(data_view, files.data@[j]));
                    let jj = choose|jj: int| 0 <= jj < data_view.len()
                        && #[trigger] data_view[jj] == files.data@[j];
                    assert(file_appears(orig, data_view[jj]));
                    let i = choose|i: int| 0 <= i < orig.len()
                        && #[trigger] orig[i] == data_view[jj];
                    assert(engine.spec_files()[i] == (orig[i].0, orig[i].1.contents()));
                    assert(exists|i2: int| 0 <= i2 < engine.spec_files().len()
                        && engine.spec_files()[i2].0 == files.data@[j].0
                        && engine.spec_files()[i2].1 == files.data@[j].1.contents()) by {
                        assert(0 <= i < engine.spec_files().len()
                            && engine.spec_files()[i].0 == files.data@[j].0
                            && engine.spec_files()[i].1 == files.data@[j].1.contents());
                    }
                }
            }
            if files.merge is None {
                assert(data_view == files.data@);
                assert(total == files.data@.len());
                assert forall|j: int| 0 <= j < files.data@.len()
                    implies exists|i: int| 0 <= i < engine.spec_files().len()
                        && engine.spec_files()[i].0 == (#[trigger] files.data@[j]).0
                        && engine.spec_files()[i].1 == files.data@[j].1.contents() by {
                    assert(file_appears(orig, files.data@[j]));
                    let i = choose|i: int| 0 <= i < orig.len()
                        && #[trigger] orig[i] == files.data@[j];
                    assert(engine.spec_files()[i]
                        == (orig[i].0, orig[i].1.contents()));
                    assert(exists|i2: int| 0 <= i2 < engine.spec_files().len()
                        && engine.spec_files()[i2].0 == files.data@[j].0
                        && engine.spec_files()[i2].1 == files.data@[j].1.contents()) by {
                        assert(0 <= i < engine.spec_files().len()
                            && engine.spec_files()[i].0 == files.data@[j].0
                            && engine.spec_files()[i].1 == files.data@[j].1.contents());
                    }
                }
            }
        }
        Ok(engine)
    }

    /// Replays the hint file: each hint record names a key and the encoded
    /// position of that key's record, which is read back and checked before
    /// the key enters the index.
    fn load_index_from_hint_file(&mut self, hint: Option<IO>) -> (r: Result<(), Errors>)
        requires
            old(self).wf(),
        ensures
            final(self).wf(),
            hint is None ==> final(self).kvs@ == old(self).kvs@,
            hint matches Some(h) ==> (r matches Ok(_) ==> spec_replay_hint(
                old(self).spec_files(), h.contents(), 0, old(self).kvs@)
                == Some(final(self).kvs@)),
            hint matches Some(h) ==> (r matches Err(e) ==> e == Errors::Io
                || e == Errors::DataFileLoadError
                || spec_replay_hint(old(self).spec_files(), h.contents(), 0,
                    old(self).kvs@) is None),
            final(self).active_file == old(self).active_file,
            final(self).older_files == old(self).older_files,
            final(self).seq_no == old(self).seq_no,
            final(self).options == old(self).options,
            final(self).is_initial == old(self).is_initial,
    {
        let hio = match hint {
            Some(h) => h,
            None => { return Ok(()); },
        };
        let hint_file = match DataFile::<IO>::from_io(0, hio) {
            Ok(f) => f,
            Err(e) => { return Err(e); },
        };
        let ghost gfiles = self.spec_files();
        let ghost base0 = old(self).kvs@;
        let ghost hc = hint_file.contents();
        let mut offset: u64 = 0;
        loop
            invariant
                self.wf(),
                hint_file.wf(),
                !(hint is None),
                gfiles == old(self).spec_files(),
                gfiles == self.spec_files(),
                base0 == old(self).kvs@,
                hc == hint_file.contents(),
                hint matches Some(h) ==> hc == h.contents(),
                spec_replay_hint(gfiles, hc, 0, base0)
                    == spec_replay_hint(gfiles, hc, offset as int, self.kvs@),
                self.active_file == old(self).active_file,
                self.older_files == old(self).older_files,
                self.seq_no == old(self).seq_no,
                self.options == old(self).options,
                self.is_initial == old(self).is_initial,
            decreases hint_file.contents().len() - offset,
        {
            let rr = match hint_file.read_log_record(offset) {
                Ok(rr) => rr,
                Err(Errors::ReadDataFileEOF) => {
                    proof {
                        assert(spec_replay_hint(gfiles, hc, offset as int, self.kvs@)
                            == Some(self.kvs@));
                    }
                    return Ok(());
                },
                Err(e) => { return Err(e); },
            };
            proof {
                lemma_parse_bounds(hc, offset as int);
                hint_file.lemma_wf_bounds();
            }
            let pos = match LogRecordPos::decode(rr.record.value) {
                Ok(p) => p,
                Err(e) => {
                    proof {
                        assert(spec_replay_hint(gfiles, hc, offset as int,
                            self.kvs@) is None);
                    }
                    return Err(e);
                },
            };
            let ghost pre_kvs = self.kvs@;
            if let Err(e) = self.insert_validated(rr.record.key, pos) {
                proof {
                    if e != Errors::Io {
                        assert(spec_replay_hint(gfiles, hc, offset as int,
                            pre_kvs) is None);
                    }
                }
                return Err(e);
            }
            proof {
                assert(spec_replay_hint(gfiles, hc, offset as int, pre_kvs)
                    == spec_replay_hint(gfiles, hc, offset + rr.size, self.kvs@));
            }
            offset = offset + rr.size as u64;
        }
    }

    /// Reads the record at `pos`, checks that it is a live record whose
    /// stored key carries `key`, and only then records the position in the
    /// index.
    fn insert_validated(&mut self, key: Vec<u8>, pos: LogRecordPos) -> (r: Result<(), Errors>)
        requires
            old(self).wf(),
        ensures
            final(self).wf(),
            final(self).active_file == old(self).active_file,
            final(self).older_files == old(self).older_files,
            final(self).seq_no == old(self).seq_no,
            final(self).options == old(self).options,
            final(self).is_initial == old(self).is_initial,
            r matches Ok(_) ==> (spec_validated_value(old(self).spec_files(), key@, pos)
                matches Some(v) && final(self).kvs@ == old(self).kvs@.insert(key@, v)),
            r matches Err(e) ==> e == Errors::Io
                || spec_validated_value(old(self).spec_files(), key@, pos) is None,
    {
        let ghost k = key@;
        proof {
            self.lemma_spec_files_lookup(pos.file_id);
        }
        let rr = match self.read_record_at(&pos) {
            Ok(rr) => rr,
            Err(Errors::Io) => { return Err(Errors::Io); },
            Err(_) => { return Err(Errors::DataFileBroken); },
        };
        if !matches!(rr.record.rec_type, LogRecordType::Normal) {
            return Err(Errors::DataFileBroken);
        }
        if rr.size != pos.size {
            return Err(Errors::DataFileBroken);
        }
        let (rk, _seq) = match crate::batch::parse_log_record_key(rr.record.key) {
            Ok(v) => v,
            Err(_) => { return Err(Errors::DataFileBroken); },
        };
        if !matches!(crate::index::compare_bytes(&rk, &key), crate::index::ByteOrd::Equal) {
            return Err(Errors::DataFileBroken);
        }
        let ghost v = rr.record.value@;
        proof {
            assert(spec_validated_value(old(self).spec_files(), k, pos) == Some(v));
        }
        self.index.put(key, pos);
        self.kvs = Ghost(self.kvs@.insert(k, v));
        proof {
            assert(self.index.as_map().dom() =~= self.kvs@.dom());
            assert(self.entry_valid(k, pos, v));
            assert forall|k2: Seq<u8>| #[trigger] self.kvs@.contains_key(k2)
                implies self.entry_valid(k2, self.index.as_map()[k2], self.kvs@[k2]) by {
                if k2 != k {
                    assert(old(self).entry_valid(
                        k2, old(self).index.as_map()[k2], old(self).kvs@[k2]));
                }
            }
        }
        Ok(())
    }

    /// Applies one replayed record to the index: a live record registers
    /// its position, a tombstone removes its key, and both count the bytes
    /// they displace as reclaimable.
    fn update_index_replay(&mut self, key: Vec<u8>, rec_type: LogRecordType,
        pos: LogRecordPos, Ghost(v): Ghost<Seq<u8>>)
        requires
            old(self).wf(),
            rec_type == LogRecordType::Normal ==> old(self).entry_valid(key@, pos, v),
        ensures
            final(self).wf(),
            final(self).kvs@ == spec_apply_op(old(self).kvs@, (key@, rec_type, v)),
            final(self).active_file == old(self).active_file,
            final(self).older_files == old(self).older_files,
            final(self).seq_no == old(self).seq_no,
            final(self).options == old(self).options,
            final(self).is_initial == old(self).is_initial,
    {
        let ghost k = key@;
        match rec_type {
            LogRecordType::Normal => {
                let old_pos = self.index.put(key, pos);
                self.kvs = Ghost(self.kvs@.insert(k, v));
                if let Some(op) = old_pos {
                    // A record that merely confirms the position it already
                    // holds (a hint entry replayed again) displaces nothing.
                    if !(op.file_id == pos.file_id && op.offset == pos.offset
                        && op.size == pos.size) {
                        self.reclaim_size = saturating_add_u64(
                            self.reclaim_size, op.size as u64);
                    }
                }
                proof {
                    assert(self.index.as_map().dom() =~= self.kvs@.dom());
                    assert forall|k2: Seq<u8>| #[trigger] self.kvs@.contains_key(k2)
                        implies self.entry_valid(k2, self.index.as_map()[k2], self.kvs@[k2]) by {
                        if k2 != k {
                            assert(old(self).entry_valid(
                                k2, old(self).index.as_map()[k2], old(self).kvs@[k2]));
                        }
                    }
                }
            },
            LogRecordType::Deleted => {
                let mut size: u64 = pos.size as u64;
                let old_pos = self.index.delete(&key);
                self.kvs = Ghost(self.kvs@.remove(k));
                if let Some(op) = old_pos {
                    size = saturating_add_u64(size, op.size as u64);
                }
                self.reclaim_size = saturating_add_u64(self.reclaim_size, size);
                proof {
                    assert(self.index.as_map().dom() =~= self.kvs@.dom());
                    assert forall|k2: Seq<u8>| #[trigger] self.kvs@.contains_key(k2)
                        implies self.entry_valid(k2, self.index.as_map()[k2], self.kvs@[k2]) by {
                        assert(old(self).entry_valid(
                            k2, old(self).index.as_map()[k2], old(self).kvs@[k2]));
                    }
                }
            },
            LogRecordType::TxnFinished => {},
        }
    }

    /// Replays every data file at or past the first non-merged id, newest
    /// file last: the index and view become exactly what folding the files'
    /// records prescribes — non-transactional records take effect at once,
    /// transactional ones only at their commit sentinel, the rest are
    /// discarded — and the returned number is the highest sequence seen.
    fn load_index_from_data_files(&mut self, non_merge_fid: u32, has_merge: bool)
        -> (r: Result<u64, Errors>)
        requires
            old(self).wf(),
        ensures
            final(self).wf(),
            final(self).active_file == old(self).active_file,
            final(self).older_files == old(self).older_files,
            final(self).seq_no == old(self).seq_no,
            final(self).options == old(self).options,
            final(self).is_initial == old(self).is_initial,
            r matches Ok(n) ==> (spec_replay_files(old(self).spec_files(),
                non_merge_fid, has_merge, spec_replay_init(old(self).kvs@))
                matches Some(st) && final(self).kvs@ == st.view && n == st.max_seq),
            r matches Err(e) ==> e == Errors::Io
                || spec_replay_files(old(self).spec_files(), non_merge_fid, has_merge,
                    spec_replay_init(old(self).kvs@)) is None,
    {
        let mut current_seq_no: u64 = 0;
        let mut txns: Vec<(u64, Vec<TransactionRecord>)> = Vec::new();
        let ghost st_init = spec_replay_init(old(self).kvs@);
        let ghost allfiles = old(self).spec_files();
        proof {
            assert(allfiles.subrange(0, 0) =~= Seq::<(u32, Seq<u8>)>::empty());
        }
        let n = self.older_files.len();
        let mut fi: usize = 0;
        while fi < n
            invariant
                fi <= n,
                n == self.older_files@.len(),
                self.wf(),
                self.txns_valid(txns@),
                spec_txns_unique(txns@),
                st_init == spec_replay_init(old(self).kvs@),
                allfiles == old(self).spec_files(),
                allfiles == self.spec_files(),
                allfiles.len() == n + 1,
                spec_replay_files(allfiles.subrange(0, fi as int), non_merge_fid,
                    has_merge, st_init) == Some(self.spec_rstate(txns@, current_seq_no)),
                self.active_file == old(self).active_file,
                self.older_files == old(self).older_files,
                self.seq_no == old(self).seq_no,
                self.options == old(self).options,
                self.is_initial == old(self).is_initial,
            decreases n - fi,
        {
            let fid = self.older_files[fi].get_file_id();
            proof {
                assert(allfiles[fi as int]
                    == (self.older_files@[fi as int].spec_file_id(),
                        self.older_files@[fi as int].contents()));
                assert(allfiles.subrange(0, fi + 1).drop_last()
                    =~= allfiles.subrange(0, fi as int));
                assert(allfiles.subrange(0, fi + 1).last() == allfiles[fi as int]);
            }
            if !(has_merge && fid < non_merge_fid) {
                let ghost pre_state = self.spec_rstate(txns@, current_seq_no);
                match self.replay_file(fi, fid, &mut txns, &mut current_seq_no) {
                    Ok(()) => {
                        proof {
                            assert(old(self).spec_replay_source(fi as int)
                                == allfiles[fi as int].1);
                        }
                    },
                    Err(e) => {
                        proof {
                            if e != Errors::Io {
                                assert(spec_replay_file(allfiles[fi as int].1, 0,
                                    pre_state) is None);
                                assert(spec_replay_files(allfiles.subrange(0, fi + 1),
                                    non_merge_fid, has_merge, st_init) is None);
                                lemma_replay_files_none(allfiles, non_merge_fid,
                                    has_merge, st_init, fi + 1);
                            }
                        }
                        return Err(e);
                    },
                }
            }
            fi = fi + 1;
        }
        let active_fid = self.active_file.get_file_id();
        proof {
            assert(allfiles[n as int]
                == (self.active_file.spec_file_id(), self.active_file.contents()));
            assert(allfiles.subrange(0, n + 1).drop_last()
                =~= allfiles.subrange(0, n as int));
            assert(allfiles.subrange(0, n + 1).last() == allfiles[n as int]);
            assert(allfiles.subrange(0, n + 1) =~= allfiles);
        }
        if !(has_merge && active_fid < non_merge_fid) {
            let ghost pre_state = self.spec_rstate(txns@, current_seq_no);
            match self.replay_file(n, active_fid, &mut txns, &mut current_seq_no) {
                Ok(()) => {
                    proof {
                        assert(old(self).spec_replay_source(n as int)
                            == allfiles[n as int].1);
                    }
                },
                Err(e) => {
                    proof {
                        if e != Errors::Io {
                            assert(spec_replay_file(allfiles[n as int].1, 0,
                                pre_state) is None);
                            assert(spec_replay_files(allfiles, non_merge_fid,
                                has_merge, st_init) is None);
                        }
                    }
                    return Err(e);
                },
            }
        }
        Ok(current_seq_no)
    }

    /// Replays the records of one data file: the sealed file at index `fi`,
    /// or the active file when `fi` is past the sealed ones.
    fn replay_file(&mut self, fi: usize, fid: u32,
        txns: &mut Vec<(u64, Vec<TransactionRecord>)>, current_seq_no: &mut u64)
        -> (r: Result<(), Errors>)
        requires
            old(self).wf(),
            old(self).txns_valid(old(txns)@),
            spec_txns_unique(old(txns)@),
            fi < old(self).older_files@.len()
                ==> fid == old(self).older_files@[fi as int].spec_file_id(),
            fi >= old(self).older_files@.len()
                ==> fid == old(self).active_file.spec_file_id(),
        ensures
            final(self).wf(),
            final(self).txns_valid(final(txns)@),
            spec_txns_unique(final(txns)@),
            final(self).active_file == old(self).active_file,
            final(self).older_files == old(self).older_files,
            final(self).seq_no == old(self).seq_no,
            final(self).options == old(self).options,
            final(self).is_initial == old(self).is_initial,
            r matches Ok(_) ==> spec_replay_file(
                old(self).spec_replay_source(fi as int), 0,
                old(self).spec_rstate(old(txns)@, *old(current_seq_no)))
                == Some(final(self).spec_rstate(final(txns)@, *final(current_seq_no))),
            r matches Err(e) ==> e == Errors::Io || spec_replay_file(
                old(self).spec_replay_source(fi as int), 0,
                old(self).spec_rstate(old(txns)@, *old(current_seq_no))) is None,
    {
        let ghost st0 = old(self).spec_rstate(old(txns)@, *old(current_seq_no));
        let ghost file_c = if fi < self.older_files@.len() {
            self.older_files@[fi as int].contents()
        } else {
            self.active_file.contents()
        };
        proof {
            if fi < self.older_files@.len() {
                self.lemma_older_contents(fi as int);
            }
            assert(self.has_file(fid));
            assert(self.file_contents(fid) == file_c);
        }
        let mut offset: u64 = 0;
        loop
            invariant
                self.wf(),
                self.txns_valid(txns@),
                spec_txns_unique(txns@),
                st0 == old(self).spec_rstate(old(txns)@, *old(current_seq_no)),
                file_c == old(self).spec_replay_source(fi as int),
                spec_replay_file(file_c, 0, st0) == spec_replay_file(
                    file_c, offset as int, self.spec_rstate(txns@, *current_seq_no)),
                self.active_file == old(self).active_file,
                self.older_files == old(self).older_files,
                self.seq_no == old(self).seq_no,
                self.options == old(self).options,
                self.is_initial == old(self).is_initial,
                fi < self.older_files@.len()
                    ==> fid == self.older_files@[fi as int].spec_file_id(),
                fi >= self.older_files@.len()
                    ==> fid == self.active_file.spec_file_id(),
                file_c == self.file_contents(fid),
                self.has_file(fid),
                file_c == if fi < self.older_files@.len() {
                    self.older_files@[fi as int].contents()
                } else {
                    self.active_file.contents()
                },
                fi < self.older_files@.len() ==> self.older_files@[fi as int].wf(),
            decreases file_c.len() - offset,
        {
            let read_res = if fi < self.older_files.len() {
                self.older_files[fi].read_log_record(offset)
            } else {
                self.active_file.read_log_record(offset)
            };
            let ghost st_cur = self.spec_rstate(txns@, *current_seq_no);
            let rr = match read_res {
                Ok(rr) => rr,
                Err(Errors::ReadDataFileEOF) => {
                    proof {
                        assert(spec_replay_file(file_c, offset as int, st_cur)
                            == Some(st_cur));
                    }
                    return Ok(());
                },
                Err(e) => { return Err(e); },
            };
            proof {
                lemma_parse_bounds(file_c, offset as int);
                if fi < self.older_files@.len() {
                    self.older_files@[fi as int].lemma_wf_bounds();
                } else {
                    self.active_file.lemma_wf_bounds();
                }
            }
            let pos = LogRecordPos { file_id: fid, offset, size: rr.size };
            let rec_type = rr.record.rec_type;
            let ghost val = rr.record.value@;
            let (real_key, seq_no) = match crate::batch::parse_log_record_key(rr.record.key) {
                Ok(v) => v,
                Err(e) => {
                    proof {
                        assert(spec_replay_file(file_c, offset as int, st_cur) is None);
                    }
                    return Err(e);
                },
            };
            let ghost rk = real_key@;
            proof {
                if matches!(rec_type, LogRecordType::Normal) {
                    assert(self.entry_valid(real_key@, pos, val));
                }
            }
            if seq_no == 0 {
                let ghost pre = *self;
                self.update_index_replay(real_key, rec_type, pos, Ghost(val));
                proof {
                    assert forall|a: int, b: int| 0 <= a < txns@.len()
                        && 0 <= b < txns@[a].1@.len()
                        implies self.txn_rec_valid(#[trigger] txns@[a].1@[b]) by {
                        assert(pre.txn_rec_valid(txns@[a].1@[b]));
                    }
                    assert(spec_replay_step(st_cur, rk, seq_no, rec_type, val)
                        matches Some(st2) && st2.view == self.kvs@
                        && st2.pending == spec_txns_map(txns@));
                }
            } else if matches!(rec_type, LogRecordType::TxnFinished) {
                if let Err(e) = self.apply_txn(txns, seq_no) {
                    proof {
                        assert(spec_replay_step(st_cur, rk, seq_no, rec_type, val) is None);
                        assert(spec_replay_file(file_c, offset as int, st_cur) is None);
                    }
                    return Err(e);
                }
                proof {
                    assert(spec_replay_step(st_cur, rk, seq_no, rec_type, val)
                        matches Some(st2) && st2.view == self.kvs@
                        && st2.pending == spec_txns_map(txns@));
                }
            } else {
                let record = LogRecord { key: real_key, value: rr.record.value, rec_type };
                let entry = TransactionRecord { record, pos };
                let ghost pre_txns = txns@;
                proof {
                    assert(self.txn_rec_valid(entry));
                }
                push_txn_record(txns, seq_no, entry);
                proof {
                    assert forall|a: int, b: int| 0 <= a < txns@.len()
                        && 0 <= b < txns@[a].1@.len()
                        implies self.txn_rec_valid(#[trigger] txns@[a].1@[b]) by {
                        if txns@[a].1@[b] != entry {
                            let (a2, b2) = choose|a2: int, b2: int| 0 <= a2 < pre_txns.len()
                                && 0 <= b2 < pre_txns[a2].1@.len()
                                && txns@[a].1@[b] == pre_txns[a2].1@[b2];
                            assert(self.txn_rec_valid(pre_txns[a2].1@[b2]));
                        }
                    }
                    assert(spec_replay_step(st_cur, rk, seq_no, rec_type, val)
                        matches Some(st2) && st2.view == self.kvs@
                        && st2.pending == spec_txns_map(txns@));
                }
            }
            if seq_no > *current_seq_no {
                *current_seq_no = seq_no;
            }
            proof {
                let st2 = spec_replay_step(st_cur, rk, seq_no, rec_type, val)->Some_0;
                assert(st2.max_seq == *current_seq_no);
                assert(st2 == self.spec_rstate(txns@, *current_seq_no));
                assert(spec_replay_file(file_c, offset as int, st_cur)
                    == spec_replay_file(file_c, offset + rr.size, st2));
            }
            offset = offset + rr.size as u64;
        }
    }

    /// A commit sentinel was replayed: applies every record parked for its
    /// sequence number, or reports the number unknown.
    fn apply_txn(&mut self, txns: &mut Vec<(u64, Vec<TransactionRecord>)>, seq_no: u64)
        -> (r: Result<(), Errors>)
        requires
            old(self).wf(),
            old(self).txns_valid(old(txns)@),
            spec_txns_unique(old(txns)@),
        ensures
            final(self).wf(),
            final(self).txns_valid(final(txns)@),
            spec_txns_unique(final(txns)@),
            final(self).active_file == old(self).active_file,
            final(self).older_files == old(self).older_files,
            final(self).seq_no == old(self).seq_no,
            final(self).options == old(self).options,
            final(self).is_initial == old(self).is_initial,
            r matches Ok(_) ==> {
                &&& spec_txns_map(old(txns)@).contains_key(seq_no)
                &&& final(self).kvs@ == spec_apply_ops(
                    old(self).kvs@, spec_txns_map(old(txns)@)[seq_no])
                &&& spec_txns_map(final(txns)@)
                    == spec_txns_map(old(txns)@).remove(seq_no)
            },
            r matches Err(e) ==> {
                &&& e == Errors::TxnNumberNotFound(seq_no)
                &&& !spec_txns_map(old(txns)@).contains_key(seq_no)
                &&& *final(self) == *old(self)
                &&& final(txns)@ == old(txns)@
            },
    {
        let mut ti: usize = 0;
        let nt = txns.len();
        while ti < nt
            invariant
                ti <= nt == txns@.len(),
                self.wf(),
                self.txns_valid(txns@),
                spec_txns_unique(txns@),
                self == old(self),
                txns@ == old(txns)@,
                forall|j: int| 0 <= j < ti ==> (#[trigger] old(txns)@[j]).0 != seq_no,
            decreases nt - ti,
        {
            if txns[ti].0 == seq_no {
                proof {
                    lemma_txns_map_value(old(txns)@, ti as int);
                    lemma_txns_map_remove(old(txns)@, ti as int);
                }
                let (_, mut recs) = txns.remove(ti);
                let ghost ops0 = spec_recs_view(recs@);
                let ghost view0 = self.kvs@;
                proof {
                    assert(txns@ =~= old(txns)@.remove(ti as int));
                    assert(ops0 == spec_txns_map(old(txns)@)[seq_no]);
                    assert forall|j: int| 0 <= j < recs@.len()
                        implies self.txn_rec_valid(#[trigger] recs@[j]) by {
                        assert(old(txns)@[ti as int].1@[j] == recs@[j]);
                    }
                    assert forall|a: int, b: int| 0 <= a < txns@.len()
                        && 0 <= b < txns@[a].1@.len()
                        implies self.txn_rec_valid(#[trigger] txns@[a].1@[b]) by {
                        if a < ti {
                            assert(txns@[a] == old(txns)@[a]);
                        } else {
                            assert(txns@[a] == old(txns)@[a + 1]);
                        }
                    }
                    assert(spec_txns_unique(txns@)) by {
                        assert forall|a: int, c: int| 0 <= a < c < txns@.len()
                            implies (#[trigger] txns@[a]).0 != (#[trigger] txns@[c]).0 by {
                            let a2 = if a < ti { a } else { a + 1 };
                            let c2 = if c < ti { c } else { c + 1 };
                            assert(txns@[a] == old(txns)@[a2]);
                            assert(txns@[c] == old(txns)@[c2]);
                        }
                    }
                }
                // Release the parked operations in the order they arrived.
                while recs.len() > 0
                    invariant
                        self.wf(),
                        self.txns_valid(txns@),
                        spec_txns_unique(txns@),
                        forall|j: int| 0 <= j < recs@.len()
                            ==> self.txn_rec_valid(#[trigger] recs@[j]),
                        recs@.len() <= ops0.len(),
                        spec_recs_view(recs@) =~= ops0.subrange(
                            ops0.len() - recs@.len(), ops0.len() as int),
                        self.kvs@ == spec_apply_ops(view0, ops0.subrange(
                            0, ops0.len() - recs@.len())),
                        self.active_file == old(self).active_file,
                        self.older_files == old(self).older_files,
                        self.seq_no == old(self).seq_no,
                        self.options == old(self).options,
                        self.is_initial == old(self).is_initial,
                    decreases recs@.len(),
                {
                    let ghost pre = *self;
                    let ghost prerecs = recs@;
                    let ghost p = ops0.len() - recs@.len();
                    let t = recs.remove(0);
                    let ghost tval = t.record.value@;
                    proof {
                        assert(prerecs[0] == t);
                        assert(spec_recs_view(prerecs)[0]
                            == (t.record.key@, t.record.rec_type, t.record.value@));
                        assert(ops0[p] == spec_recs_view(prerecs)[0]);
                    }
                    self.update_index_replay(t.record.key, t.record.rec_type, t.pos, Ghost(tval));
                    proof {
                        assert(ops0.subrange(0, p + 1).drop_last()
                            =~= ops0.subrange(0, p));
                        assert(ops0.subrange(0, p + 1).last() == ops0[p]);
                        assert(self.kvs@ == spec_apply_ops(view0, ops0.subrange(0, p + 1)));
                        assert(spec_recs_view(recs@) =~= ops0.subrange(
                            ops0.len() - recs@.len(), ops0.len() as int)) by {
                            assert forall|j: int| 0 <= j < recs@.len()
                                implies #[trigger] spec_recs_view(recs@)[j]
                                    == ops0[p + 1 + j] by {
                                assert(recs@[j] == prerecs[j + 1]);
                                assert(spec_recs_view(prerecs)[j + 1] == ops0[p + 1 + j]);
                            }
                        }
                        assert forall|j: int| 0 <= j < recs@.len()
                            implies self.txn_rec_valid(#[trigger] recs@[j]) by {
                            assert(pre.txn_rec_valid(recs@[j]));
                        }
                        assert forall|a: int, b: int| 0 <= a < txns@.len()
                            && 0 <= b < txns@[a].1@.len()
                            implies self.txn_rec_valid(#[trigger] txns@[a].1@[b]) by {
                            assert(pre.txn_rec_valid(txns@[a].1@[b]));
                        }
                    }
                }
                proof {
                    assert(ops0.subrange(0, ops0.len() as int) =~= ops0);
                }
                return Ok(());
            }
            ti = ti + 1;
        }
        proof {
            lemma_txns_map_contains(old(txns)@, seq_no);
        }
        Err(Errors::TxnNumberNotFound(seq_no))
    }
}

/// The bytes of the file with the given id among `(id, bytes)` pairs.
pub open spec fn spec_list_file(files: Seq<(u32, Seq<u8>)>, fid: u32) -> Option<Seq<u8>>
    decreases files.len(),
{
    if files.len() == 0 {
        None
    } else if files.last().0 == fid {
        Some(files.last().1)
    } else {
        spec_list_file(files.drop_last(), fid)
    }
}

/// The value a hint entry's position vouches for among the given files:
/// the record there must be a live record of exactly that key with exactly
/// that size.
pub open spec fn spec_validated_value(
    files: Seq<(u32, Seq<u8>)>, k: Seq<u8>, pos: LogRecordPos,
) -> Option<Seq<u8>> {
    match spec_list_file(files, pos.file_id) {
        Option::None => None,
        Option::Some(c) => match spec_parse_record(c, pos.offset as int) {
            RecordParse::Valid(t, sk, v, sz) => {
                if t == LogRecordType::Normal && sz == pos.size
                    && (spec_parse_seq_key(sk) matches Some((rk, _)) && rk == k) {
                    Some(v)
                } else {
                    None
                }
            },
            _ => None,
        },
    }
}

/// The replay of a hint file over the given data files: each hint record
/// names a key and an encoded position; the record at that position is
/// read back and checked, and the key takes its value. A hint that names a
/// position whose record does not vouch for its key fails the replay.
pub open spec fn spec_replay_hint(
    files: Seq<(u32, Seq<u8>)>, h: Seq<u8>, off: int, view: Map<Seq<u8>, Seq<u8>>,
) -> Option<Map<Seq<u8>, Seq<u8>>>
    decreases h.len() - off,
{
    match spec_parse_record(h, off) {
        RecordParse::Eof => Some(view),
        RecordParse::Corrupt => None,
        RecordParse::BadCrc => None,
        RecordParse::Valid(t, k, val, sz) => {
            if sz < 1 || off < 0 || off + sz > h.len() {
                None
            } else {
                match crate::log_record::spec_pos_decode(val) {
                    Option::None => None,
                    Option::Some(pos) => match spec_validated_value(files, k, pos) {
                        Option::None => None,
                        Option::Some(v) => spec_replay_hint(
                            files, h, off + sz, view.insert(k, v)),
                    },
                }
            }
        },
    }
}

/// Among files with distinct ids, looking one up by id finds exactly the
/// entry that carries it.
proof fn lemma_list_file_entries<IO: IOManager>(files: Seq<DataFile<IO>>, fid: u32)
    requires
        forall|i: int, j: int| 0 <= i < j < files.len()
            ==> (#[trigger] files[i]).spec_file_id() < (#[trigger] files[j]).spec_file_id(),
    ensures
        ({
            let m = files.map_values(|f: DataFile<IO>| (f.spec_file_id(), f.contents()));
            &&& (spec_list_file(m, fid) is Some <==> exists|i: int|
                0 <= i < files.len() && (#[trigger] files[i]).spec_file_id() == fid)
            &&& forall|i: int| 0 <= i < files.len()
                && (#[trigger] files[i]).spec_file_id() == fid
                ==> spec_list_file(m, fid) == Some(files[i].contents())
        }),
    decreases files.len(),
{
    let m = files.map_values(|f: DataFile<IO>| (f.spec_file_id(), f.contents()));
    if files.len() > 0 {
        let rest = files.drop_last();
        assert(forall|i: int| 0 <= i < rest.len() ==> #[trigger] rest[i] == files[i]);
        lemma_list_file_entries(rest, fid);
        let mr = rest.map_values(|f: DataFile<IO>| (f.spec_file_id(), f.contents()));
        assert(m.drop_last() =~= mr);
        assert(m.last() == (files.last().spec_file_id(), files.last().contents()));
        if files.last().spec_file_id() == fid {
            assert(files[files.len() - 1].spec_file_id() == fid);
            assert forall|i: int| 0 <= i < files.len()
                && (#[trigger] files[i]).spec_file_id() == fid
                implies spec_list_file(m, fid) == Some(files[i].contents()) by {
                if i < files.len() - 1 {
                    assert(files[i].spec_file_id() < files[files.len() - 1].spec_file_id());
                }
            }
        } else {
            if exists|i: int| 0 <= i < rest.len()
                && (#[trigger] rest[i]).spec_file_id() == fid {
                let i = choose|i: int| 0 <= i < rest.len()
                    && (#[trigger] rest[i]).spec_file_id() == fid;
                assert(files[i].spec_file_id() == fid);
            }
            if exists|i: int| 0 <= i < files.len()
                && (#[trigger] files[i]).spec_file_id() == fid {
                let i = choose|i: int| 0 <= i < files.len()
                    && (#[trigger] files[i]).spec_file_id() == fid;
                assert(rest[i].spec_file_id() == fid);
            }
        }
    }
}

/// Whether a staged merge will be adopted: its marker is present and its
/// bytes name an id.
pub open spec fn spec_adopts<IO: IOManager>(m: Option<MergeFiles<IO>>) -> bool {
    m matches Some(mf) && mf.fin matches Some(f) && spec_fin_id(f.contents()) is Some
}

/// The id a completion marker's bytes name: the value of the record at the
/// file's start, read as decimal digits, when it fits a file id.
pub open spec fn spec_fin_id(c: Seq<u8>) -> Option<int> {
    match spec_parse_record(c, 0) {
        RecordParse::Valid(t, k, v, sz) => {
            if v.len() >= 1 && crate::data_file::spec_all_digits(v)
                && crate::data_file::spec_dec_value(v) <= u32::MAX {
                Some(crate::data_file::spec_dec_value(v))
            } else {
                None
            }
        },
        _ => None,
    }
}

/// The bytes a list of data files holds together.
pub open spec fn spec_files_bytes<IO: IOManager>(files: Seq<DataFile<IO>>) -> int
    decreases files.len(),
{
    if files.len() == 0 {
        0
    } else {
        spec_files_bytes(files.drop_last()) + files.last().contents().len()
    }
}

/// File-size sums only grow with more files.
proof fn lemma_files_bytes_prefix<IO: IOManager>(files: Seq<DataFile<IO>>, i: int)
    requires
        0 <= i <= files.len(),
    ensures
        0 <= spec_files_bytes(files.subrange(0, i)) <= spec_files_bytes(files),
    decreases files.len(),
{
    if files.len() == 0 {
        assert(files.subrange(0, i) =~= files);
    } else if i == files.len() {
        assert(files.subrange(0, i) =~= files);
        lemma_files_bytes_prefix(files.drop_last(), i - 1);
    } else {
        assert(files.subrange(0, i) =~= files.drop_last().subrange(0, i));
        lemma_files_bytes_prefix(files.drop_last(), i);
    }
}

/// The pair `x` is one of the elements of `s`.
pub open spec fn file_appears<IO: IOManager>(s: Seq<(u32, IO)>, x: (u32, IO)) -> bool {
    exists|i: int| 0 <= i < s.len() && s[i] == x
}

/// Orders files by their parsed ids, strictly ascending; a repeated id
/// means the directory is broken.
fn sort_files_by_id<IO: IOManager>(files: Vec<(u32, IO)>)
    -> (r: Result<Vec<(u32, IO)>, Errors>)
    ensures
        r matches Ok(out) ==> {
            &&& forall|a: int, b: int| 0 <= a < b < out@.len()
                ==> (#[trigger] out@[a]).0 < (#[trigger] out@[b]).0
            &&& out@.len() == files@.len()
            &&& forall|j: int| 0 <= j < files@.len()
                ==> file_appears(out@, #[trigger] files@[j])
        },
{
    let ghost input = files@;
    let mut rest = files;
    let mut out: Vec<(u32, IO)> = Vec::new();
    proof {
        assert forall|j: int| 0 <= j < input.len()
            implies file_appears(rest@, #[trigger] input[j]) by {
            assert(rest@[j] == input[j]);
        }
    }
    while rest.len() > 0
        invariant
            forall|a: int, b: int| 0 <= a < b < out@.len()
                ==> (#[trigger] out@[a]).0 < (#[trigger] out@[b]).0,
            forall|a: int, b: int| 0 <= a < out@.len() && 0 <= b < rest@.len()
                ==> (#[trigger] out@[a]).0 < (#[trigger] rest@[b]).0,
            out@.len() + rest@.len() == input.len(),
            forall|j: int| 0 <= j < input.len()
                ==> file_appears(out@, #[trigger] input[j])
                    || file_appears(rest@, input[j]),
        decreases rest@.len(),
    {
        // Find the position of the smallest remaining id.
        let mut mi: usize = 0;
        let mut j: usize = 1;
        let n = rest.len();
        while j < n
            invariant
                mi < j <= n == rest@.len(),
                forall|x: int| 0 <= x < j
                    ==> (#[trigger] rest@[x]).0 >= rest@[mi as int].0,
            decreases n - j,
        {
            if rest[j].0 < rest[mi].0 {
                mi = j;
            }
            j = j + 1;
        }
        let ghost pre = rest@;
        let ghost preout = out@;
        let (fid, io) = rest.remove(mi);
        // A second file with the same id means the directory is broken.
        let mut d: usize = 0;
        let m = rest.len();
        while d < m
            invariant
                d <= m == rest@.len(),
                rest@ == pre.remove(mi as int),
                forall|x: int| 0 <= x < d ==> (#[trigger] rest@[x]).0 != fid,
            decreases m - d,
        {
            if rest[d].0 == fid {
                return Err(Errors::DataFileBroken);
            }
            d = d + 1;
        }
        proof {
            assert forall|b: int| 0 <= b < rest@.len()
                implies fid < (#[trigger] rest@[b]).0 by {
                if b < mi {
                    assert(rest@[b] == pre[b]);
                    assert(pre[b].0 >= pre[mi as int].0);
                } else {
                    assert(rest@[b] == pre[b + 1]);
                    assert(pre[b + 1].0 >= pre[mi as int].0);
                }
            }
        }
        out.push((fid, io));
        proof {
            assert((fid, io) == pre[mi as int]);
            assert forall|jj: int| 0 <= jj < input.len()
                implies file_appears(out@, #[trigger] input[jj])
                    || file_appears(rest@, input[jj]) by {
                if file_appears(preout, input[jj]) {
                    let i = choose|i: int| 0 <= i < preout.len()
                        && #[trigger] preout[i] == input[jj];
                    assert(out@[i] == input[jj]);
                    assert(file_appears(out@, input[jj]));
                } else {
                    assert(file_appears(pre, input[jj]));
                    let i = choose|i: int| 0 <= i < pre.len()
                        && #[trigger] pre[i] == input[jj];
                    if i == mi {
                        assert(out@[out@.len() - 1] == input[jj]);
                        assert(file_appears(out@, input[jj]));
                    } else if i < mi {
                        assert(rest@[i] == input[jj]);
                        assert(file_appears(rest@, input[jj]));
                    } else {
                        assert(rest@[i - 1] == input[jj]);
                        assert(file_appears(rest@, input[jj]));
                    }
                }
            }
        }
    }
    Ok(out)
}

/// Parks one transactional record under its sequence number: that
/// number's operations grow by exactly this one, every other number keeps
/// its operations, and every parked record is either one that was already
/// parked or this one.
fn push_txn_record(txns: &mut Vec<(u64, Vec<TransactionRecord>)>, seq_no: u64,
    entry: TransactionRecord)
    requires
        spec_txns_unique(old(txns)@),
    ensures
        spec_txns_unique(final(txns)@),
        spec_txns_map(final(txns)@) == spec_txns_map(old(txns)@).insert(seq_no,
            (if spec_txns_map(old(txns)@).contains_key(seq_no) {
                spec_txns_map(old(txns)@)[seq_no]
            } else {
                Seq::<ReplayOp>::empty()
            }).push((entry.record.key@, entry.record.rec_type, entry.record.value@))),
        forall|a: int, b: int|
            0 <= a < final(txns)@.len() && 0 <= b < final(txns)@[a].1@.len()
            ==> (#[trigger] final(txns)@[a].1@[b]) == entry
                || exists|a2: int, b2: int| 0 <= a2 < old(txns)@.len()
                    && 0 <= b2 < old(txns)@[a2].1@.len()
                    && final(txns)@[a].1@[b] == old(txns)@[a2].1@[b2],
{
    let mut ti: usize = 0;
    let nt = txns.len();
    while ti < nt
        invariant
            ti <= nt == txns@.len(),
            txns@ == old(txns)@,
            spec_txns_unique(old(txns)@),
            forall|j: int| 0 <= j < ti ==> (#[trigger] old(txns)@[j]).0 != seq_no,
        decreases nt - ti,
    {
        if txns[ti].0 == seq_no {
            // Move the number's entry to the end with the record appended.
            let (sn, mut recs) = txns.remove(ti);
            let ghost precs = recs@;
            let ghost mid = txns@;
            recs.push(entry);
            proof {
                lemma_txns_map_value(old(txns)@, ti as int);
                lemma_txns_map_remove(old(txns)@, ti as int);
                assert(mid =~= old(txns)@.remove(ti as int));
            }
            txns.push((sn, recs));
            proof {
                assert(txns@.drop_last() =~= mid);
                assert(txns@.last() == (sn, recs));
                assert(spec_recs_view(recs@) =~= spec_recs_view(precs).push(
                    (entry.record.key@, entry.record.rec_type, entry.record.value@)));
                assert(spec_txns_map(txns@)
                    =~= spec_txns_map(old(txns)@).insert(seq_no,
                        spec_txns_map(old(txns)@)[seq_no].push(
                            (entry.record.key@, entry.record.rec_type,
                                entry.record.value@))));
                assert(spec_txns_unique(txns@)) by {
                    assert forall|a: int, c: int| 0 <= a < c < txns@.len()
                        implies (#[trigger] txns@[a]).0 != (#[trigger] txns@[c]).0 by {
                        let n0 = old(txns)@.len() as int;
                        if c < txns@.len() - 1 {
                            if a < ti {
                                assert(txns@[a] == old(txns)@[a]);
                            } else {
                                assert(txns@[a] == old(txns)@[a + 1]);
                            }
                            if c < ti {
                                assert(txns@[c] == old(txns)@[c]);
                            } else {
                                assert(txns@[c] == old(txns)@[c + 1]);
                            }
                        } else {
                            assert(txns@[c].0 == seq_no);
                            if a < ti {
                                assert(txns@[a] == old(txns)@[a]);
                                assert(old(txns)@[a].0 != old(txns)@[ti as int].0);
                            } else {
                                assert(txns@[a] == old(txns)@[a + 1]);
                                assert(old(txns)@[a + 1].0 != old(txns)@[ti as int].0);
                            }
                        }
                    }
                }
                assert forall|a: int, b: int|
                    0 <= a < txns@.len() && 0 <= b < txns@[a].1@.len()
                    implies (#[trigger] txns@[a].1@[b]) == entry
                        || exists|a2: int, b2: int| 0 <= a2 < old(txns)@.len()
                            && 0 <= b2 < old(txns)@[a2].1@.len()
                            && txns@[a].1@[b] == old(txns)@[a2].1@[b2] by {
                    if a < txns@.len() - 1 {
                        let a2 = if a < ti { a } else { a + 1 };
                        assert(txns@[a] == old(txns)@[a2]);
                        assert(exists|a3: int, b3: int| 0 <= a3 < old(txns)@.len()
                            && 0 <= b3 < old(txns)@[a3].1@.len()
                            && txns@[a].1@[b] == old(txns)@[a3].1@[b3]) by {
                            assert(0 <= a2 < old(txns)@.len()
                                && 0 <= b < old(txns)@[a2].1@.len()
                                && txns@[a].1@[b] == old(txns)@[a2].1@[b]);
                        }
                    } else {
                        if b < precs.len() {
                            assert(txns@[a].1@[b] == old(txns)@[ti as int].1@[b]);
                            assert(exists|a3: int, b3: int| 0 <= a3 < old(txns)@.len()
                                && 0 <= b3 < old(txns)@[a3].1@.len()
                                && txns@[a].1@[b] == old(txns)@[a3].1@[b3]) by {
                                assert(0 <= ti < old(txns)@.len()
                                    && 0 <= b < old(txns)@[ti as int].1@.len()
                                    && txns@[a].1@[b] == old(txns)@[ti as int].1@[b]);
                            }
                        } else {
                            assert(txns@[a].1@[b] == entry);
                        }
                    }
                }
            }
            return;
        }
        ti = ti + 1;
    }
    let ghost mid = txns@;
    let mut recs: Vec<TransactionRecord> = Vec::new();
    recs.push(entry);
    txns.push((seq_no, recs));
    proof {
        assert(txns@.drop_last() =~= mid);
        lemma_txns_map_contains(old(txns)@, seq_no);
        assert(!spec_txns_map(old(txns)@).contains_key(seq_no));
        assert(spec_recs_view(recs@) =~= Seq::<ReplayOp>::empty().push(
            (entry.record.key@, entry.record.rec_type, entry.record.value@)));
        assert(spec_txns_map(txns@)
            =~= spec_txns_map(old(txns)@).insert(seq_no,
                Seq::<ReplayOp>::empty().push(
                    (entry.record.key@, entry.record.rec_type, entry.record.value@))));
        assert(spec_txns_unique(txns@)) by {
            assert forall|a: int, c: int| 0 <= a < c < txns@.len()
                implies (#[trigger] txns@[a]).0 != (#[trigger] txns@[c]).0 by {
                if c < txns@.len() - 1 {
                    assert(txns@[a] == old(txns)@[a]);
                    assert(txns@[c] == old(txns)@[c]);
                } else {
                    assert(txns@[a] == old(txns)@[a]);
                }
            }
        }
        assert forall|a: int, b: int|
            0 <= a < txns@.len() && 0 <= b < txns@[a].1@.len()
            implies (#[trigger] txns@[a].1@[b]) == entry
                || exists|a2: int, b2: int| 0 <= a2 < old(txns)@.len()
                    && 0 <= b2 < old(txns)@[a2].1@.len()
                    && txns@[a].1@[b] == old(txns)@[a2].1@[b2] by {
            if a < txns@.len() - 1 {
                assert(txns@[a] == old(txns)@[a]);
                assert(exists|a3: int, b3: int| 0 <= a3 < old(txns)@.len()
                    && 0 <= b3 < old(txns)@[a3].1@.len()
                    && txns@[a].1@[b] == old(txns)@[a3].1@[b3]) by {
                    assert(0 <= a < old(txns)@.len() && 0 <= b < old(txns)@[a].1@.len()
                        && txns@[a].1@[b] == old(txns)@[a].1@[b]);
                }
            } else {
                assert(txns@[a].1@[b] == entry);
            }
        }
    }
}

/// Adds without overflowing, stopping at the largest value.
pub(crate) fn saturating_add_u64(a: u64, b: u64) -> (r: u64)
    ensures
        r == if a + b <= u64::MAX { a + b } else { u64::MAX as int },
{
    if a <= u64::MAX - b {
        a + b
    } else {
        u64::MAX
    }
}

/// Rejects options the engine cannot run with: an empty directory path or a
/// zero data file size.
fn check_options(opts: &EngineOptions) -> (r: Result<(), Errors>)
    ensures
        r is Ok <==> opts.dir_path@.len() > 0 && opts.data_file_size > 0,
        r matches Err(e) ==> {
            &&& (e == Errors::DirPathIsEmpty || e == Errors::DataFileSizeTooSmall)
            &&& opts.dir_path@.len() == 0 ==> e == Errors::DirPathIsEmpty
            &&& (opts.dir_path@.len() > 0 && opts.data_file_size == 0)
                ==> e == Errors::DataFileSizeTooSmall
        },
{
    if opts.dir_path.as_str().unicode_len() == 0 {
        return Err(Errors::DirPathIsEmpty);
    }
    if opts.data_file_size == 0 {
        return Err(Errors::DataFileSizeTooSmall);
    }
    Ok(())
}

} // verus!
