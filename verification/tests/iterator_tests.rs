use std::cell::RefCell;
use std::rc::Rc;

use lucasdb::db::Engine;
use lucasdb::fio::MemIO;
use lucasdb::options::{EngineOptions, IteratorOptions};

fn setup(dir_name: &str) -> EngineOptions {
    let mut opts = EngineOptions::default();
    opts.dir_path = format!("./tmp/iterator/{}", dir_name);
    opts
}

#[test]
fn test_iterator_seek() {
    let opts = setup("seek");
    let mut engine = Engine::<MemIO>::open(opts).expect("failed to open engine");

    // No entries.
    {
        let key = "aa".as_bytes().to_vec();
        let mut iter = engine.iter(IteratorOptions::default());
        iter.seek(key.clone());

        assert!(iter.next().is_none());
    }

    // One entry.
    {
        let key = b"aa".to_vec();
        let value = b"bb".to_vec();
        let put_res = engine.put(key.clone(), value.clone());
        assert!(put_res.is_ok());

        let mut iter = engine.iter(IteratorOptions::default());
        iter.seek("a".as_bytes().to_vec());
        let next_kv = iter.next();
        assert!(next_kv.is_some());
        let next_kv = next_kv.unwrap();

        assert_eq!(next_kv.0, key.clone());
        assert_eq!(next_kv.1, value.clone());
    }
}

#[test]
fn test_iterator_seek_with_prefix() {
    let opts = setup("prefix");
    let prefix = "a";
    let mut engine = Engine::<MemIO>::open(opts).expect("failed to open engine");
    let iter_opts = IteratorOptions {
        prefix: prefix.as_bytes().to_vec(),
        reverse: false,
    };

    // Fill the store.
    {
        let _ = engine.put(b"abc-1".to_vec(), b"v1".to_vec());
        let _ = engine.put(b"abc-2".to_vec(), b"v2".to_vec());
        let _ = engine.put(b"abc-3".to_vec(), b"v3".to_vec());
        let _ = engine.put(b"a-1".to_vec(), b"v1".to_vec());
        let _ = engine.put(b"a-2".to_vec(), b"v2".to_vec());
        let _ = engine.put(b"a-3".to_vec(), b"v3".to_vec());

        let _ = engine.put(b"b-1".to_vec(), b"v1".to_vec());
        let _ = engine.put(b"b-2".to_vec(), b"v2".to_vec());
        let _ = engine.put(b"b-3".to_vec(), b"v3".to_vec());
        let _ = engine.put(b"c-1".to_vec(), b"v1".to_vec());
        let _ = engine.put(b"c-2".to_vec(), b"v2".to_vec());
        let _ = engine.put(b"c-3".to_vec(), b"v3".to_vec());
        let _ = engine.put(b"zacb-1".to_vec(), b"v1".to_vec());
        let _ = engine.put(b"zacb-2".to_vec(), b"v2".to_vec());
        let _ = engine.put(b"zacb-3".to_vec(), b"v3".to_vec());
    }

    // Every key walked starts with the prefix.
    {
        let mut iter = engine.iter(iter_opts);
        let mut count = 0;
        while let Some((key, _)) = iter.next() {
            let key = String::from_utf8(key.to_vec());
            assert!(key.is_ok());
            let key = key.unwrap();
            assert_eq!(true, key.starts_with(prefix));
            count += 1;
        }
        assert_eq!(count, 6);
    }
}

#[test]
fn test_iterator_list_keys() {
    let opts = setup("list_keys");
    let mut engine = Engine::<MemIO>::open(opts).expect("failed to open engine");

    // Fill the store.
    {
        let _ = engine.put(b"abc-1".to_vec(), b"v1".to_vec());
        let _ = engine.put(b"abc-2".to_vec(), b"v2".to_vec());
        let _ = engine.put(b"abc-3".to_vec(), b"v3".to_vec());
    }

    // Every key is listed.
    {
        let keys = engine.list_keys();
        assert_eq!(true, keys.is_ok());
        let keys = keys.unwrap();
        assert_eq!(3, keys.len());
    }
}

#[test]
fn test_iterator_fold() {
    let opts = setup("fold");
    let mut engine = Engine::<MemIO>::open(opts).expect("failed to open engine");

    // Fill the store.
    {
        let _ = engine.put(b"abc-1".to_vec(), b"v1".to_vec());
        let _ = engine.put(b"abc-2".to_vec(), b"v2".to_vec());
        let _ = engine.put(b"abc-3".to_vec(), b"v3".to_vec());
    }

    // The walk visits as many pairs as there are keys.
    let count = Rc::new(RefCell::new(0usize));
    let count_clone = count.clone();
    engine
        .fold(move |key, value| {
            println!("key: {:?} \t value:{:?}", key, value);
            *count_clone.borrow_mut() += 1;
            return true;
        })
        .unwrap();

    let keys = engine.list_keys().unwrap();

    assert_eq!(*count.borrow(), keys.len());
}

#[test]
fn test_iterator_reverse_order() {
    let opts = setup("reverse");
    let mut engine = Engine::<MemIO>::open(opts).unwrap();
    engine.put(b"a".to_vec(), b"1".to_vec()).unwrap();
    engine.put(b"b".to_vec(), b"2".to_vec()).unwrap();
    engine.put(b"c".to_vec(), b"3".to_vec()).unwrap();

    let mut iter = engine.iter(IteratorOptions {
        prefix: Vec::new(),
        reverse: true,
    });
    let mut seen: Vec<Vec<u8>> = Vec::new();
    while let Some((k, _)) = iter.next() {
        seen.push(k);
    }
    assert_eq!(seen, vec![b"c".to_vec(), b"b".to_vec(), b"a".to_vec()]);
}
