use vstd::prelude::*;

verus! {

/// Every fallible operation of this crate reports one of these errors.
#[derive(Debug)]
pub enum Errors {
    /// An input/output operation on the underlying storage failed.
    Io,
    /// The caller passed an empty key.
    KeyIsEmpty,
    /// The key is not present in the store (or only a tombstone remains).
    KeyNotFound,
    /// The in-memory index rejected an update.
    IndexUpdateFailed,
    /// A record position referred to a data file the engine does not hold.
    DataFileNotFound,
    /// The configured database directory path is empty.
    DirPathIsEmpty,
    /// The configured data file size is zero.
    DataFileSizeTooSmall,
    /// The database directory could not be read.
    DataFileLoadError,
    /// A data file holds bytes that do not form a record.
    DataFileBroken,
    /// The end of a data file was reached while reading records.
    ReadDataFileEOF,
    /// A length delimiter could not be decoded.
    DecodeError,
    /// A record's stored checksum does not match its bytes.
    InvalidLogRecordCrc,
    /// The batch holds more records than the configured maximum.
    ExceedMaxBatchNum { max: u32, current: u32 },
    /// A commit sentinel was replayed with no pending records for its number.
    TxnNumberNotFound(u64),
    /// Another merge is already running.
    MergeInProgress,
    /// The sequence number file does not exist.
    SeqNoFileNotExist,
    /// Stored bytes were expected to be text but are not valid UTF-8.
    FromUtf8Error,
    /// Stored text was expected to be a number but is not.
    ParseIntError,
    /// Another engine instance already holds the directory.
    DatabaseIsUsing,
    /// The merge ratio option is out of range.
    InvalidMergeRatio,
    /// Too little of the store is reclaimable for a merge to pay off.
    MergeRatioUnreached { reclaim_size: u64, total_size: u64 },
    /// The disk lacks room for a compacted copy of the store.
    MergeSpaceNotEnough { actual: u64, expected: u64 },
    /// A typed operation was applied to a key holding another type.
    WrongTypeOperation { expected: u8, actual: u8 },
}

impl Errors {
    /// A short human-readable description of the error.
    pub fn message(&self) -> (r: &'static str) {
        match self {
            Errors::Io => "io error",
            Errors::KeyIsEmpty => "key is empty",
            Errors::KeyNotFound => "key not found",
            Errors::IndexUpdateFailed => "failed to update index",
            Errors::DataFileNotFound => "failed to find data file",
            Errors::DirPathIsEmpty => "database dir path can not be empty",
            Errors::DataFileSizeTooSmall => "database data file size must be greater than 0",
            Errors::DataFileLoadError => "failed to read database data file directory",
            Errors::DataFileBroken => "data file has been broken",
            Errors::ReadDataFileEOF => "read data file eof",
            Errors::DecodeError => "failed to decode length delimiter",
            Errors::InvalidLogRecordCrc => "invalid log record crc",
            Errors::ExceedMaxBatchNum { .. } => "exceed the max batch num",
            Errors::TxnNumberNotFound(_) => "transaction sequence number not found",
            Errors::MergeInProgress => "merge is in progress",
            Errors::SeqNoFileNotExist => "seq number file not found",
            Errors::FromUtf8Error => "invalid utf-8 bytes",
            Errors::ParseIntError => "invalid integer text",
            Errors::DatabaseIsUsing => "the database dir is used by another process",
            Errors::InvalidMergeRatio => "invalid merge ratio",
            Errors::MergeRatioUnreached { .. } => "do not reach the merge ratio",
            Errors::MergeSpaceNotEnough { .. } => "disk space is not enough for merge",
            Errors::WrongTypeOperation { .. } => "wrong type operation",
        }
    }
}

} // verus!
