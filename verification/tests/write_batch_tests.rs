use lucasdb::db::Engine;
use lucasdb::errors::Errors;
use lucasdb::fio::MemIO;
use lucasdb::options::{EngineOptions, WriteBatchOptions};

fn setup(dir_name: &str) -> EngineOptions {
    let mut opts = EngineOptions::default();
    opts.dir_path = format!("./tmp/write_batch/{}", dir_name);
    opts
}

#[test]
fn test_write_batch_put() {
    let opts = setup("put");

    let mut db = Engine::<MemIO>::open(opts).expect("failed to open database");

    {
        // Writes that are not committed are not visible.
        let mut wb = db
            .new_write_batch(WriteBatchOptions::default())
            .expect("new write batch failed");

        let key = b"Hello World".to_vec();
        let value = b"Rust World".to_vec();
        assert_eq!(true, wb.put(key.clone(), value.clone()).is_ok());
        assert_eq!(true, db.get(key.clone()).is_err());

        let key = b"key-1".to_vec();
        let value = b"value-1".to_vec();
        assert_eq!(true, wb.put(key.clone(), value.clone()).is_ok());
        assert_eq!(true, db.get(key.clone()).is_err());

        let key = b"key-2".to_vec();
        let value = b"value-2".to_vec();
        assert_eq!(true, wb.put(key.clone(), value.clone()).is_ok());
        assert_eq!(true, db.get(key.clone()).is_err());
    }

    {
        // Committed writes are visible.
        let mut wb = db
            .new_write_batch(WriteBatchOptions::default())
            .expect("new write batch failed");

        let key = b"Hello World".to_vec();
        let value = b"Rust World".to_vec();
        assert_eq!(true, wb.put(key.clone(), value.clone()).is_ok());
        assert_eq!(true, wb.commit(&mut db).is_ok()); // commit 1
        let res = db.get(key.clone());
        assert_eq!(true, res.is_ok());
        let res = res.unwrap();
        assert_eq!(res, value.clone());

        let key = b"key-1".to_vec();
        let value = b"value-1".to_vec();
        assert_eq!(true, wb.put(key.clone(), value.clone()).is_ok());
        assert_eq!(true, wb.commit(&mut db).is_ok()); // commit 2
        let res = db.get(key.clone());
        assert_eq!(true, res.is_ok());
        let res = res.unwrap();
        assert_eq!(res, value.clone());

        let key = b"key-2".to_vec();
        let value = b"value-2".to_vec();
        assert_eq!(true, wb.put(key.clone(), value.clone()).is_ok());
        assert_eq!(true, wb.commit(&mut db).is_ok()); // commit 3
        let res = db.get(key.clone());
        assert_eq!(true, res.is_ok());
        let res = res.unwrap();
        assert_eq!(res, value.clone());

        // The next sequence number to hand out follows the three commits.
        let seq_no = db.current_seq_no();
        assert_eq!(4, seq_no);
    }
}

#[test]
fn test_write_batch_delete() {
    let opts = setup("delete");

    let mut db = Engine::<MemIO>::open(opts).expect("failed to open database");

    // Fill the store through one batch.
    {
        let mut wb = db
            .new_write_batch(WriteBatchOptions::default())
            .expect("new write batch failed");

        let key = b"key-1".to_vec();
        let value = b"value-1".to_vec();
        assert_eq!(true, wb.put(key.clone(), value.clone()).is_ok());

        let key = b"key-2".to_vec();
        let value = b"value-2".to_vec();
        assert_eq!(true, wb.put(key.clone(), value.clone()).is_ok());

        assert_eq!(true, wb.commit(&mut db).is_ok());
    }

    // Delete through another batch.
    {
        let mut wb = db
            .new_write_batch(WriteBatchOptions::default())
            .expect("new write batch failed");

        let key = b"key-1".to_vec();
        assert_eq!(true, wb.delete(&db, key.clone()).is_ok());
        let key = b"key-2".to_vec();
        assert_eq!(true, wb.delete(&db, key.clone()).is_ok());

        wb.commit(&mut db).unwrap();

        let key = b"key-1".to_vec();
        assert_eq!(true, db.get(key.clone()).is_err());
        let key = b"key-2".to_vec();
        assert_eq!(true, db.get(key.clone()).is_err());
    }
}

#[test]
fn test_write_batch_after_reopen() {
    let opts = setup("reopen");

    let mut db = Engine::<MemIO>::open(opts.clone()).expect("failed to open database");
    {
        let mut wb = db
            .new_write_batch(WriteBatchOptions::default())
            .expect("new write batch failed");

        let key = b"Hello World".to_vec();
        let value = b"Rust World".to_vec();
        assert_eq!(true, wb.put(key.clone(), value.clone()).is_ok());
        assert_eq!(true, wb.commit(&mut db).is_ok()); // commit 1

        let key = b"key-1".to_vec();
        let value = b"value-1".to_vec();
        assert_eq!(true, wb.put(key.clone(), value.clone()).is_ok());
        assert_eq!(true, wb.commit(&mut db).is_ok()); // commit 2

        let key = b"key-2".to_vec();
        let value = b"value-2".to_vec();
        assert_eq!(true, wb.put(key.clone(), value.clone()).is_ok());
        assert_eq!(true, wb.commit(&mut db).is_ok()); // commit 3

        println!("seq_no: {}", db.current_seq_no());
    }

    db.close().expect("failed to close database");
    let files = db.into_files();
    let db = Engine::<MemIO>::open_with_files(opts, files).expect("failed to open database");

    // Replay recovers the last assigned sequence number.
    let seq_no = db.current_seq_no();
    assert_eq!(3, seq_no);

    // The committed keys are all visible, in order.
    let keys = db.list_keys().unwrap();
    assert_eq!(
        keys,
        vec![b"Hello World".to_vec(), b"key-1".to_vec(), b"key-2".to_vec()]
    );
}

#[test]
fn test_write_batch_too_large() {
    let opts = setup("too_large");
    let mut db = Engine::<MemIO>::open(opts).unwrap();
    let mut wb = db
        .new_write_batch(WriteBatchOptions {
            max_batch_num: 1,
            sync_writes: true,
        })
        .unwrap();
    wb.put(b"a".to_vec(), b"1".to_vec()).unwrap();
    wb.put(b"b".to_vec(), b"2".to_vec()).unwrap();
    match wb.commit(&mut db) {
        Err(Errors::ExceedMaxBatchNum { max, current }) => {
            assert_eq!(max, 1);
            assert_eq!(current, 2);
        }
        _ => panic!("expected the batch to be refused"),
    }
}

#[test]
fn test_write_batch_uncommitted_invisible_after_reopen() {
    // A batch whose commit never ran leaves no trace after a crash: the
    // records lack their sentinel and replay discards them.
    let opts = setup("uncommitted");
    let mut db = Engine::<MemIO>::open(opts.clone()).unwrap();
    db.put(b"solo".to_vec(), b"direct".to_vec()).unwrap();

    let mut wb = db.new_write_batch(WriteBatchOptions::default()).unwrap();
    wb.put(b"ghostly".to_vec(), b"pending".to_vec()).unwrap();
    // The batch is dropped without a commit; nothing of it was written.

    let files = db.into_files();
    let db2 = Engine::<MemIO>::open_with_files(opts, files).unwrap();
    assert_eq!(db2.get(b"solo".to_vec()).unwrap(), b"direct".to_vec());
    assert!(db2.get(b"ghostly".to_vec()).is_err());
}
