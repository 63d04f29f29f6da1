use std::sync::Arc;

use lucasdb::db::Engine;
use lucasdb::fio::MemIO;
use lucasdb::options::EngineOptions;
use parking_lot::RwLock;

fn get_test_kv(i: usize) -> (Vec<u8>, Vec<u8>) {
    let key = format!("test_lucas_db_key_{:09}", i).into_bytes();
    let value = format!("test_lucas_db_value_{:09}", i).into_bytes();
    (key, value)
}

#[test]
fn test_merge_while_writing() {
    // A writer keeps adding keys while another thread compacts the store;
    // afterwards the key set is what was live before plus what was added.
    let mut opts = EngineOptions::default();
    opts.dir_path = "./tmp/concurrency/merge_while_writing".to_string();
    opts.data_file_size = 4 * 1024 * 1024;
    opts.data_file_merge_ratio = 0;

    let mut db = Engine::<MemIO>::open(opts.clone()).unwrap();

    let begin = 0;
    let mid = 1000;
    let end = 5000;
    for i in begin..end {
        let (key, value) = get_test_kv(i);
        db.put(key, value).unwrap();
    }
    for i in begin..mid {
        let (key, _) = get_test_kv(i);
        db.put(key, b"new-value-in-merge".to_vec()).unwrap();
    }
    for i in mid..end {
        let (key, _) = get_test_kv(i);
        db.delete(key).unwrap();
    }

    let shared = Arc::new(RwLock::new(db));

    crossbeam_utils::thread::scope(|scope| {
        let writer_db = shared.clone();
        scope.spawn(move |_| {
            for i in 60000..70000 {
                let (key, value) = get_test_kv(i);
                writer_db.write().put(key, value).unwrap();
            }
        });
        let merger_db = shared.clone();
        scope.spawn(move |_| {
            merger_db.write().merge().unwrap();
        });
    })
    .unwrap();

    let db = Arc::try_unwrap(shared)
        .unwrap_or_else(|_| panic!("engine still shared"))
        .into_inner();
    let files = db.into_files();
    let db = Engine::<MemIO>::open_with_files(opts, files).unwrap();
    let keys = db.list_keys().unwrap();
    assert_eq!(keys.len(), mid + 10000);
}
