//! An embeddable, persistent key/value store in the log-structured family:
//! every write is appended to a log of data files, and an in-memory index
//! maps each live key to the position of its latest record. The engine's
//! write and read paths, its record format, its atomic write batches and
//! the replay that reopening a directory performs are stated in contracts
//! and proved; a caller supplies the file handles through the
//! `fio::IOManager` trait.

pub mod errors;
pub mod varint;
pub mod log_record;
pub mod fio;
pub mod data_file;
pub mod options;
pub mod index;
pub mod batch;
pub mod db;
pub mod iterator;
pub mod merge;
pub mod redis;
pub mod laws;
