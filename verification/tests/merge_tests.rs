use lucasdb::db::Engine;
use lucasdb::errors::Errors;
use lucasdb::fio::MemIO;
use lucasdb::options::EngineOptions;

fn setup(name: &str) -> (Engine<MemIO>, EngineOptions) {
    let mut opts = EngineOptions::default();
    opts.dir_path = format!("./tmp/merge/{}", name);
    opts.data_file_size = 32 * 1024 * 1024;
    opts.data_file_merge_ratio = 0;

    let db = match Engine::<MemIO>::open(opts.clone()) {
        Ok(engine) => engine,
        Err(e) => {
            panic!("{}", format!("open db error: {:?}", e));
        }
    };

    (db, opts)
}

fn get_test_kv(i: usize) -> (Vec<u8>, Vec<u8>) {
    let key = format!("test_lucas_db_key_{:09}", i).into_bytes();
    let value = format!("test_lucas_db_value_{:09}", i).into_bytes();

    (key, value)
}

#[test]
fn test_merge_with_empty_data() {
    let name = "empty_data";
    let (mut db, _) = setup(&name);

    let res = db.merge();
    assert!(res.is_ok());
}

#[test]
fn test_merge_with_valid_data() {
    let name = "valid_data";
    let (mut db, opts) = setup(name);

    // Fill the store.
    let begin = 0;
    let end = 50000;
    {
        for i in begin..end {
            let (key, value) = get_test_kv(i);
            let put_res = db.put(key, value);
            assert!(put_res.is_ok());
        }
    }

    // First merge.
    {
        let merge_res = db.merge();
        assert!(merge_res.is_ok());
    }

    // Reopen over the staged files.
    let files = db.into_files();
    let db = Engine::<MemIO>::open_with_files(opts.clone(), files).unwrap();

    // Every key survived.
    {
        let keys = db.list_keys().unwrap();
        assert_eq!(keys.len(), end - begin);
    }

    // Every value survived.
    {
        for i in begin..end {
            let (key, value) = get_test_kv(i);
            let get_res = db.get(key);
            assert!(get_res.is_ok());
            let get_value = get_res.unwrap();

            assert_eq!(get_value, value);
        }
    }
}

#[test]
fn test_merge_with_deleted_data() {
    let name = "deleted_data";
    let (mut db, opts) = setup(name);

    // Fill, update a slice, delete the rest.
    let begin = 0;
    let mid = 10000;
    let end = 50000;
    let new_value = b"new_value".to_vec();
    {
        for i in begin..end {
            let (key, value) = get_test_kv(i);
            let put_res = db.put(key, value);
            assert!(put_res.is_ok());
        }
    }

    {
        for i in begin..mid {
            let (key, _) = get_test_kv(i);
            let put_res = db.put(key, new_value.clone());
            assert!(put_res.is_ok());
        }
    }

    {
        for i in mid..end {
            let (key, _) = get_test_kv(i);
            let delete_res = db.delete(key);
            assert!(delete_res.is_ok());
        }
    }

    {
        let merge_res = db.merge();
        assert!(merge_res.is_ok());
    }

    // Reopen over the staged files.
    let files = db.into_files();
    let db = Engine::<MemIO>::open_with_files(opts.clone(), files)
        .expect("failed to reopen database");

    // Only the updated slice survives, with its new value.
    {
        let keys = db.list_keys().expect("listkey error");
        assert_eq!(keys.len(), mid - begin);

        for i in begin..mid {
            let (k, _) = get_test_kv(i);
            let get_res = db.get(k);
            assert!(get_res.is_ok());
            assert_eq!(new_value.clone(), get_res.unwrap());
        }
    }
}

#[test]
fn test_merge_with_invalid_data() {
    let name = "invalid_data";
    let (mut db, opts) = setup(name);

    // Every written key is deleted again.
    let begin = 0;
    let end = 50000;
    {
        for i in begin..end {
            let (key, value) = get_test_kv(i);
            let put_res = db.put(key.clone(), value.clone());
            assert!(put_res.is_ok());

            let delete_res = db.delete(key);
            assert!(delete_res.is_ok());
        }
    }

    {
        let merge_res = db.merge();
        assert!(merge_res.is_ok());
    }

    // Reopen over the staged files.
    let files = db.into_files();
    let db = Engine::<MemIO>::open_with_files(opts.clone(), files)
        .expect("fail to open database");

    // Nothing is left.
    {
        let keys = db.list_keys().expect("failed to list keys");
        assert_eq!(0, keys.len());

        for i in begin..end {
            let (key, _) = get_test_kv(i);
            let get_res = db.get(key.clone());
            match get_res {
                Ok(v) => panic!("{}", format!("should not get this value: {:?}", v)),
                Err(e) => match e {
                    Errors::KeyNotFound => {}
                    _ => {
                        panic!("unexpected error: {:?}", e)
                    }
                },
            }
        }
    }
}

#[test]
fn test_merge_ratio_unreached() {
    let name = "ratio";
    let mut opts = EngineOptions::default();
    opts.dir_path = format!("./tmp/merge/{}", name);
    // The default threshold asks for half the store to be reclaimable.
    let mut db = Engine::<MemIO>::open(opts).unwrap();
    db.put(b"only".to_vec(), b"live".to_vec()).unwrap();
    match db.merge() {
        Err(Errors::MergeRatioUnreached { .. }) => {}
        _ => panic!("expected the merge to be refused"),
    }
}

#[test]
fn test_merge_twice_keeps_live_data() {
    let name = "twice";
    let (mut db, opts) = setup(name);
    for i in 0..100 {
        let (key, value) = get_test_kv(i);
        db.put(key, value).unwrap();
    }
    for i in 50..100 {
        let (key, _) = get_test_kv(i);
        db.delete(key).unwrap();
    }

    // Two merges back to back leave the same live pairs.
    db.merge().unwrap();
    db.merge().unwrap();
    let keys_now = db.list_keys().unwrap();
    assert_eq!(keys_now.len(), 50);

    let files = db.into_files();
    let db = Engine::<MemIO>::open_with_files(opts, files).unwrap();
    let keys = db.list_keys().unwrap();
    assert_eq!(keys.len(), 50);
    for i in 0..50 {
        let (key, value) = get_test_kv(i);
        assert_eq!(db.get(key).unwrap(), value);
    }

    // The compacted region holds only live records: nothing to reclaim.
    let stat = db.stat().unwrap();
    assert_eq!(stat.reclaim_size, 0);
}
