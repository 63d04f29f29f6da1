use lucasdb::index::btree::BTree;
use lucasdb::log_record::LogRecordPos;
use lucasdb::options::IteratorOptions;

#[test]
fn test_btree_iterator_seek() {
    // No entries.
    {
        let bt = BTree::new();
        let mut iter = bt.iterator(IteratorOptions::default());
        let key = "abc".as_bytes().to_vec();

        iter.seek(key.clone());
        let res = iter.next();
        assert!(res.is_none());
    }

    // One entry.
    {
        let mut bt = BTree::new();
        let key = "abc".as_bytes().to_vec();
        let pos = LogRecordPos {
            file_id: 0,
            offset: 10,
            size: 5,
        };
        bt.put(key.clone(), pos.clone());

        let mut iter = bt.iterator(IteratorOptions::default());

        iter.seek(key.clone());
        let res = iter.next();
        assert!(res.is_some());

        println!("res: {:?}", res);
    }
}

#[test]
fn test_btree_iterator_seek_with_prefix() {
    let mut bt = BTree::new();
    let prefix = "aa";
    let opts = IteratorOptions {
        prefix: prefix.as_bytes().to_vec(),
        reverse: false,
    };

    // Several entries.
    {
        let key = "aa-11-22".as_bytes().to_vec();
        let pos = LogRecordPos {
            file_id: 0,
            offset: 10,
            size: 5,
        };
        bt.put(key.clone(), pos.clone());
        let key = "aa-33-44".as_bytes().to_vec();
        let pos = LogRecordPos {
            file_id: 0,
            offset: 10,
            size: 5,
        };
        bt.put(key.clone(), pos.clone());
        let key = "bb-11-22".as_bytes().to_vec();
        let pos = LogRecordPos {
            file_id: 0,
            offset: 10,
            size: 5,
        };
        bt.put(key.clone(), pos.clone());
        let key: Vec<u8> = "bb-33-44".as_bytes().to_vec();
        let pos = LogRecordPos {
            file_id: 0,
            offset: 10,
            size: 5,
        };
        bt.put(key.clone(), pos.clone());
    }

    // Every key walked starts with the prefix.
    {
        let mut iter = bt.iterator(opts);
        while let Some((key, _)) = iter.next() {
            let key_str = String::from_utf8(key.clone());
            assert!(key_str.is_ok());
            let key_str = key_str.unwrap();

            assert!(key_str.starts_with(prefix));
        }
    }
}

#[test]
fn test_btree_iterator_next() {}
