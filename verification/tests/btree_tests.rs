use lucasdb::index::btree::BTree;
use lucasdb::log_record::LogRecordPos;

#[test]
fn btree_test_btree_put() {
    let mut bt = BTree::new();
    let ret1 = bt.put(
        "ret1".as_bytes().to_vec(),
        LogRecordPos {
            file_id: 1,
            offset: 32,
            size: 100,
        },
    );

    assert_eq!(true, ret1.is_none());

    let ret2 = bt.put(
        "ret2".as_bytes().to_vec(),
        LogRecordPos {
            file_id: 1,
            offset: 32,
            size: 100,
        },
    );

    assert_eq!(true, ret2.is_none());

    let ret1 = bt.put(
        "ret1".as_bytes().to_vec(),
        LogRecordPos {
            file_id: 1,
            offset: 32,
            size: 100,
        },
    );
    assert_eq!(true, ret1.is_some());
    let pos = ret1.unwrap();
    assert_eq!(1, pos.file_id);
    assert_eq!(32, pos.offset);
}

#[test]
fn btree_test_btree_get_exist_key() {
    let mut bt = BTree::new();
    let ret1 = bt.put(
        "ret1".as_bytes().to_vec(),
        LogRecordPos {
            file_id: 1,
            offset: 32,
            size: 100,
        },
    );
    assert_eq!(ret1.is_none(), true);

    let pos = bt.get(&"ret1".as_bytes().to_vec());
    assert!(pos.is_some());
    let pos = pos.unwrap();
    assert_eq!(pos.file_id, 1);
    assert_eq!(pos.offset, 32);
}

#[test]
fn btree_test_btree_get_non_exist_key() {
    let bt = BTree::new();
    let pos1 = bt.get(&"ret1".as_bytes().to_vec());
    assert!(pos1.is_none());

    let pos2: Option<LogRecordPos> = bt.get(&"".as_bytes().to_vec());
    assert!(pos2.is_none());
}

#[test]
fn btree_test_btree_delete_exist_key() {
    let mut bt = BTree::new();
    let ret1 = bt.put(
        "ret1".as_bytes().to_vec(),
        LogRecordPos {
            file_id: 1,
            offset: 32,
            size: 100,
        },
    );
    assert_eq!(ret1.is_none(), true);

    let delete_ret = bt.delete(&"ret1".as_bytes().to_vec());
    assert_eq!(delete_ret.is_some(), true);
    let delete_pos = delete_ret.unwrap();
    assert_eq!(delete_pos.file_id, 1);
    assert_eq!(delete_pos.offset, 32);

    let pos1 = bt.get(&"ret1".as_bytes().to_vec());
    assert!(pos1.is_none());
}

#[test]
fn btree_test_btree_delete_non_exist_key() {
    let mut bt = BTree::new();

    let delete_ret = bt.delete(&"ret1".as_bytes().to_vec());
    assert_eq!(delete_ret.is_none(), true);

    let pos1 = bt.get(&"ret1".as_bytes().to_vec());
    assert!(pos1.is_none());
}
