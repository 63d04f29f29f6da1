use lucasdb::batch::log_record_key_with_seq;
use lucasdb::db::{Engine, MergeFiles, OpenFiles};
use lucasdb::errors::Errors;
use lucasdb::fio::MemIO;
use lucasdb::log_record::{LogRecord, LogRecordType};
use lucasdb::options::EngineOptions;
use lucasdb::redis::Metadata;

fn opts(name: &str) -> EngineOptions {
    let mut opts = EngineOptions::default();
    opts.dir_path = format!("./tmp/recovery/{}", name);
    opts
}

#[test]
fn test_replay_refuses_orphan_commit_sentinel() {
    // A commit sentinel whose records never made it to the log names a
    // transaction the replay cannot find.
    let sentinel = LogRecord {
        key: log_record_key_with_seq(b"transaction_finished".to_vec(), 7).unwrap(),
        value: Vec::new(),
        rec_type: LogRecordType::TxnFinished,
    };
    let bytes = sentinel.encode().unwrap();
    let files = OpenFiles {
        data: vec![(0u32, MemIO::from_bytes(bytes))],
        hint: None,
        merge: None,
    };
    match Engine::<MemIO>::open_with_files(opts("orphan"), files) {
        Err(Errors::TxnNumberNotFound(seq)) => assert_eq!(seq, 7),
        _ => panic!("expected the sentinel to be refused"),
    }
}

#[test]
fn test_open_refuses_broken_merge_marker() {
    // A completion marker that holds no readable id means the staged merge
    // cannot be adopted.
    let files = OpenFiles {
        data: Vec::new(),
        hint: None,
        merge: Some(MergeFiles {
            data: Vec::new(),
            hint: None,
            fin: Some(MemIO::from_bytes(b"not a record".to_vec())),
        }),
    };
    match Engine::<MemIO>::open_with_files(opts("broken_marker"), files) {
        Err(Errors::DataFileBroken) => {}
        _ => panic!("expected the marker to be refused"),
    }
}

#[test]
fn test_unfinished_merge_is_ignored() {
    // Staged files without the completion marker are a merge that died:
    // the primary files alone decide what is live.
    let mut db = Engine::<MemIO>::open(opts("unfinished")).unwrap();
    db.put(b"kept".to_vec(), b"value".to_vec()).unwrap();
    let mut files = db.into_files();
    files.merge = Some(MergeFiles {
        data: vec![(0u32, MemIO::from_bytes(Vec::new()))],
        hint: None,
        fin: None,
    });
    let db2 = Engine::<MemIO>::open_with_files(opts("unfinished"), files).unwrap();
    assert_eq!(db2.get(b"kept".to_vec()).unwrap(), b"value".to_vec());
    assert_eq!(db2.list_keys().unwrap().len(), 1);
}

#[test]
fn test_metadata_round_trip() {
    let m = Metadata {
        data_type: lucasdb::redis::RedisDataType::Lists,
        expire: 12345678901234567890,
        version: 98765,
        size: 42,
        head: 1000,
        tail: 1003,
    };
    let bytes = m.encode();
    let back = Metadata::decode(&bytes).unwrap();
    assert_eq!(m, back);

    // A truncated record is refused.
    match Metadata::decode(&bytes[..10].to_vec()) {
        Err(Errors::DecodeError) => {}
        _ => panic!("expected a decode error"),
    }
}
