use lucasdb::db::Engine;
use lucasdb::errors::Errors;
use lucasdb::fio::MemIO;
use lucasdb::options::EngineOptions;

fn setup(dir_name: &str) -> EngineOptions {
    let mut opts = EngineOptions::default();
    opts.dir_path = format!("./tmp/db/{}", dir_name);
    opts
}

#[test]
fn teset_db_open() {
    let opts = setup("open");

    let db_res = Engine::<MemIO>::open(opts);
    assert!(db_res.is_ok());
    let _ = db_res.unwrap();
}

#[test]
fn test_db_put() {
    let opts = setup("put");

    let db_res = Engine::<MemIO>::open(opts);
    assert!(db_res.is_ok());
    let mut db = db_res.unwrap();

    let key = b"Hello".to_vec();
    let value = b"World".to_vec();

    let res = db.put(key.clone(), value.clone());
    assert!(res.is_ok());

    let empty_key: Vec<u8> = Vec::new();
    let res = db.put(empty_key, value.clone());
    assert!(res.is_err());
    match res.unwrap_err() {
        Errors::KeyIsEmpty => {}
        _ => panic!("Unexpected error"),
    }
}

#[test]
fn test_db_get() {
    let opts = setup("get");

    let db_res = Engine::<MemIO>::open(opts);
    assert!(db_res.is_ok());
    let mut db = db_res.unwrap();

    let key = b"Hello".to_vec();
    let value = b"World".to_vec();

    let res = db.put(key.clone(), value.clone());
    assert!(res.is_ok());

    // A present key.
    let get_res = db.get(key.clone());
    assert!(get_res.is_ok());
    let get_value = get_res.unwrap();
    assert_eq!(get_value, value.clone());

    // An absent key.
    let non_exist_key = b"non-existent".to_vec();
    let res = db.get(non_exist_key);
    assert!(res.is_err());
    match res.unwrap_err() {
        Errors::KeyNotFound => {}
        _ => panic!("Unexpected error"),
    }

    // An empty value is preserved.
    {
        let key = b"LucasDb".to_vec();
        let value: Vec<u8> = Vec::new();
        let res = db.put(key.clone(), value.clone());
        assert!(res.is_ok());

        let res = db.get(key.clone());
        assert!(res.is_ok());
        let get_value = res.unwrap();
        assert_eq!(get_value, value.clone());
    }
}

#[test]
fn test_db_delete() {
    let opts = setup("delete");

    let db_res = Engine::<MemIO>::open(opts);
    assert!(db_res.is_ok());
    let mut db = db_res.unwrap();

    let key = b"Hello".to_vec();
    let value = b"World".to_vec();

    let res = db.put(key.clone(), value.clone());
    assert!(res.is_ok());

    let res = db.delete(key.clone());
    assert!(res.is_ok());

    let res = db.get(key.clone());
    assert!(res.is_err());
    match res.unwrap_err() {
        Errors::KeyNotFound => {}
        _ => panic!("Unexpected error"),
    }
}

#[test]
fn test_db_close() {
    let opts = setup("close");

    let db_res = Engine::<MemIO>::open(opts);
    assert!(db_res.is_ok());
    let mut db = db_res.unwrap();

    let key = b"Hello".to_vec();
    let value = b"World".to_vec();

    let res = db.put(key.clone(), value.clone());
    assert!(res.is_ok());

    assert_eq!(true, db.close().is_ok());
}

#[test]
fn test_db_sync() {
    let opts = setup("sync");

    let db_res = Engine::<MemIO>::open(opts);
    assert!(db_res.is_ok());
    let mut db = db_res.unwrap();

    let key = b"Hello".to_vec();
    let value = b"World".to_vec();

    let res = db.put(key.clone(), value.clone());
    assert!(res.is_ok());

    assert_eq!(true, db.sync().is_ok());
}

#[test]
fn test_db_stat() {
    let opts = setup("db_stat");

    let mut db = Engine::<MemIO>::open(opts).expect("failed to open engine");

    let get_kv = |x: usize| -> (Vec<u8>, Vec<u8>) {
        let key = format!("test_key_{}", x).into_bytes();
        let value = format!("test_value_{}", x).into_bytes();

        (key, value)
    };

    // Fill the store.
    {
        for i in 0..=100000 {
            let (key, value) = get_kv(i);
            let ret = db.put(key, value);
            assert_eq!(true, ret.is_ok());
        }
    }

    // Delete a slice of it.
    {
        for i in 2000..=5000 {
            let (key, _) = get_kv(i);
            let ret = db.delete(key);
            assert_eq!(true, ret.is_ok());
        }
    }

    // Flush.
    {
        let ret = db.sync();
        assert_eq!(true, ret.is_ok());
    }

    // The snapshot shows reclaimable space.
    {
        let stat = db.stat();
        assert!(stat.is_ok());
        let stat = stat.unwrap();
        println!("stat: {:#?}", stat);

        assert!(stat.reclaim_size > 0);
    }
}

#[test]
fn test_db_open_rejects_bad_options() {
    let mut opts = EngineOptions::default();
    opts.dir_path = String::new();
    match Engine::<MemIO>::open(opts) {
        Err(Errors::DirPathIsEmpty) => {}
        _ => panic!("expected an empty-path error"),
    }

    let mut opts = EngineOptions::default();
    opts.dir_path = "./tmp/db/bad".to_string();
    opts.data_file_size = 0;
    match Engine::<MemIO>::open(opts) {
        Err(Errors::DataFileSizeTooSmall) => {}
        _ => panic!("expected a file-size error"),
    }
}

#[test]
fn test_db_reopen_scenario() {
    let opts = setup("s1");

    let mut db = Engine::<MemIO>::open(opts.clone()).unwrap();
    db.put(b"Hello".to_vec(), b"World".to_vec()).unwrap();
    assert_eq!(db.get(b"Hello".to_vec()).unwrap(), b"World".to_vec());
    match db.put(Vec::new(), b"x".to_vec()) {
        Err(Errors::KeyIsEmpty) => {}
        _ => panic!("expected KeyIsEmpty"),
    }
    db.delete(b"Hello".to_vec()).unwrap();
    match db.get(b"Hello".to_vec()) {
        Err(Errors::KeyNotFound) => {}
        _ => panic!("expected KeyNotFound"),
    }

    // Everything written survives the file images round trip.
    db.put(b"LucasDb".to_vec(), Vec::new()).unwrap();
    db.close().unwrap();
    let files = db.into_files();
    let db2 = Engine::<MemIO>::open_with_files(opts, files).unwrap();
    assert_eq!(db2.get(b"LucasDb".to_vec()).unwrap(), Vec::<u8>::new());
    match db2.get(b"Hello".to_vec()) {
        Err(Errors::KeyNotFound) => {}
        _ => panic!("expected KeyNotFound after reopen"),
    }
}

#[test]
fn test_db_durable_writes_survive_a_kill() {
    // With every append flushed, a write that returned is visible after a
    // reopen even when the store was never closed.
    let mut opts = setup("durable");
    opts.sync_writes = true;

    let mut db = Engine::<MemIO>::open(opts.clone()).unwrap();
    db.put(b"stable".to_vec(), b"kept".to_vec()).unwrap();
    // No close: the engine is torn down as a killed process would leave it.
    let files = db.into_files();
    let db2 = Engine::<MemIO>::open_with_files(opts, files).unwrap();
    assert_eq!(db2.get(b"stable".to_vec()).unwrap(), b"kept".to_vec());
}

#[test]
fn test_db_crc_detects_corruption() {
    let opts = setup("crc");

    let mut db = Engine::<MemIO>::open(opts.clone()).unwrap();
    db.put(b"Hello".to_vec(), b"World".to_vec()).unwrap();
    let files = db.into_files();

    // Flip one byte of the record's value on "disk": the reopen replay
    // must refuse the record's checksum.
    let mut raw: Vec<(u32, Vec<u8>)> = files
        .data
        .into_iter()
        .map(|(fid, io)| (fid, io.into_bytes()))
        .collect();
    assert_eq!(raw.len(), 1);
    let bytes = &mut raw[0].1;
    let n = bytes.len();
    bytes[n - 5] ^= 0xFF;
    let corrupted = lucasdb::db::OpenFiles {
        data: raw
            .into_iter()
            .map(|(fid, b)| (fid, MemIO::from_bytes(b)))
            .collect(),
        hint: None,
        merge: None,
    };
    match Engine::<MemIO>::open_with_files(opts, corrupted) {
        Err(Errors::InvalidLogRecordCrc) => {}
        other => panic!("expected a checksum error, got {:?}", other.is_ok()),
    }
}
