use vstd::prelude::*;

verus! {

/// Which in-memory index backs the engine.
#[derive(Debug, PartialEq, Eq, Structural, Clone, Copy)]
pub enum IndexType {
    /// A balanced ordered map behind a coarse lock.
    BTree,
    /// A lock-free skip list.
    SkipList,
}

/// How the engine is configured.
#[derive(Debug, Clone)]
pub struct EngineOptions {
    /// The database directory.
    pub dir_path: String,
    /// The size in bytes at which a data file is sealed and a new one opened.
    pub data_file_size: u64,
    /// Whether every append is flushed durably at once.
    pub sync_writes: bool,
    /// Which index implementation to use.
    pub index_type: IndexType,
    /// Flush once this many bytes have accumulated since the last flush;
    /// zero turns the policy off.
    pub bytes_per_sync: u64,
    /// Whether to read files through a memory map while starting up.
    pub use_mmap_when_startup: bool,
    /// The least share of reclaimable bytes, in percent of the directory
    /// size, at which a merge is allowed to run.
    pub data_file_merge_ratio: u32,
}

impl Default for EngineOptions {
    /// A 256 MiB data file size, no forced flushes, the balanced-map index,
    /// and a merge threshold of half the directory.
    fn default() -> (r: Self)
        ensures
            r.dir_path@ =~= "/tmp/lucasdb"@,
            r.data_file_size == 0x10000000,
            r.sync_writes == false,
            r.index_type == IndexType::BTree,
            r.bytes_per_sync == 0,
            r.use_mmap_when_startup == true,
            r.data_file_merge_ratio == 50,
    {
        EngineOptions {
            dir_path: "/tmp/lucasdb".to_owned(),
            data_file_size: 0x10000000,
            sync_writes: false,
            index_type: IndexType::BTree,
            bytes_per_sync: 0,
            use_mmap_when_startup: true,
            data_file_merge_ratio: 50,
        }
    }
}

/// How an iterator walks the keys.
#[derive(Debug, Clone)]
pub struct IteratorOptions {
    /// Yield only keys that start with these bytes; empty means no filter.
    pub prefix: Vec<u8>,
    /// Walk the keys in descending order.
    pub reverse: bool,
}

impl Default for IteratorOptions {
    /// No prefix filter, ascending order.
    fn default() -> (r: Self)
        ensures
            r.prefix@ == Seq::<u8>::empty(),
            r.reverse == false,
    {
        IteratorOptions { prefix: Vec::new(), reverse: false }
    }
}

/// How a write batch commits.
#[derive(Debug, Clone)]
pub struct WriteBatchOptions {
    /// The most records one batch may hold at commit time.
    pub max_batch_num: u32,
    /// Whether the commit is flushed durably before it returns.
    pub sync_writes: bool,
}

impl Default for WriteBatchOptions {
    /// Up to ten thousand records, flushed on commit.
    fn default() -> (r: Self)
        ensures
            r.max_batch_num == 10000,
            r.sync_writes == true,
    {
        WriteBatchOptions { max_batch_num: 10000, sync_writes: true }
    }
}

/// A snapshot of the store's size: how many keys it holds, how many sealed
/// data files, how many bytes a merge could reclaim, and how many bytes the
/// directory occupies.
#[derive(Debug, PartialEq, Eq, Structural, Clone, Copy)]
pub struct Stat {
    pub key_num: usize,
    pub data_file_num: usize,
    pub reclaim_size: usize,
    pub disk_size: usize,
}

} // verus!
