use lucasdb::index::skiplist::SkipList;
use lucasdb::log_record::LogRecordPos;

#[test]
fn skiplist_test_btree_put() {
    let mut bt = SkipList::new();
    let ret1 = bt.put(
        "ret1".as_bytes().to_vec(),
        LogRecordPos {
            file_id: 1,
            offset: 32,
            size: 100,
        },
    );

    assert_eq!(ret1.is_none(), true);

    let ret2 = bt.put(
        "ret2".as_bytes().to_vec(),
        LogRecordPos {
            file_id: 1,
            offset: 32,
            size: 100,
        },
    );

    assert_eq!(ret2.is_none(), true);

    let ret1 = bt.put(
        "ret1".as_bytes().to_vec(),
        LogRecordPos {
            file_id: 3,
            offset: 4,
            size: 100,
        },
    );
    assert_eq!(ret1.is_some(), true);
    let old_pos = ret1.unwrap();
    assert_eq!(old_pos.file_id, 1);
    assert_eq!(old_pos.offset, 32);
}

#[test]
fn skiplist_test_btree_get_exist_key() {
    let mut bt = SkipList::new();
    let ret1 = bt.put(
        "ret1".as_bytes().to_vec(),
        LogRecordPos {
            file_id: 1,
            offset: 32,
            size: 100,
        },
    );
    assert_eq!(ret1.is_none(), true);

    let pos = bt.get(&"ret1".as_bytes().to_vec());
    assert!(pos.is_some());
    let pos = pos.unwrap();
    assert_eq!(pos.file_id, 1);
    assert_eq!(pos.offset, 32);
}

#[test]
fn skiplist_test_btree_get_non_exist_key() {
    let bt = SkipList::new();
    let pos1 = bt.get(&"ret1".as_bytes().to_vec());
    assert!(pos1.is_none());

    let pos2: Option<LogRecordPos> = bt.get(&"".as_bytes().to_vec());
    assert!(pos2.is_none());
}

#[test]
fn skiplist_test_btree_delete_exist_key() {
    let mut bt = SkipList::new();
    let ret1 = bt.put(
        "ret1".as_bytes().to_vec(),
        LogRecordPos {
            file_id: 1,
            offset: 32,
            size: 100,
        },
    );
    assert_eq!(ret1.is_none(), true);

    let delete_ret = bt.delete(&"ret1".as_bytes().to_vec());
    assert_eq!(delete_ret.is_some(), true);
    let delete_pos = delete_ret.unwrap();
    assert_eq!(delete_pos.file_id, 1);
    assert_eq!(delete_pos.offset, 32);

    let pos1 = bt.get(&"ret1".as_bytes().to_vec());
    assert!(pos1.is_none());
}

#[test]
fn skiplist_test_btree_delete_non_exist_key() {
    let mut bt = SkipList::new();

    let delete_ret = bt.delete(&"ret1".as_bytes().to_vec());
    assert_eq!(delete_ret.is_none(), true);

    let pos1 = bt.get(&"ret1".as_bytes().to_vec());
    assert!(pos1.is_none());
}

#[test]
fn skiplist_list_keys_sorted() {
    let mut sl = SkipList::new();
    sl.put(b"bb".to_vec(), LogRecordPos { file_id: 0, offset: 0, size: 1 });
    sl.put(b"aa".to_vec(), LogRecordPos { file_id: 0, offset: 1, size: 1 });
    sl.put(b"cc".to_vec(), LogRecordPos { file_id: 0, offset: 2, size: 1 });
    let keys = sl.list_keys().unwrap();
    assert_eq!(keys, vec![b"aa".to_vec(), b"bb".to_vec(), b"cc".to_vec()]);
}
