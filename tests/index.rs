use bitcask_kv::data::log_record::LogRecordPos;
use bitcask_kv::index::btree::Btree;
use bitcask_kv::index::order::compare_bytes;
use bitcask_kv::index::{new_indexer, Indexer};
use bitcask_kv::options::IndexType;

#[test]
fn test_btree_put() {
    let mut bt = Btree::new();
    let res1 = bt.put("".as_bytes().to_vec(), LogRecordPos { file_id: 1, offset: 10 });
    assert_eq!(res1, true);
    let res2 = bt.put("aa".as_bytes().to_vec(), LogRecordPos { file_id: 11, offset: 22 });
    assert_eq!(res2, true);
}

#[test]
fn test_btree_get() {
    let mut bt = Btree::new();
    let res1 = bt.put("".as_bytes().to_vec(), LogRecordPos { file_id: 1, offset: 10 });
    assert_eq!(res1, true);
    let res2 = bt.put("aa".as_bytes().to_vec(), LogRecordPos { file_id: 11, offset: 22 });
    assert_eq!(res2, true);

    let pos1 = bt.get("".as_bytes().to_vec());
    println!("pos={:?}", pos1);
    assert!(pos1.is_some());
    assert_eq!(pos1.unwrap().file_id, 1);
    assert_eq!(pos1.unwrap().offset, 10);

    let pos1 = bt.get("aa".as_bytes().to_vec());
    println!("pos={:?}", pos1);
    assert!(pos1.is_some());
    assert_eq!(pos1.unwrap().file_id, 11);
    assert_eq!(pos1.unwrap().offset, 22);
}

#[test]
fn test_btree_del() {
    let mut bt = Btree::new();
    let res1 = bt.put("".as_bytes().to_vec(), LogRecordPos { file_id: 1, offset: 10 });
    assert_eq!(res1, true);
    let res2 = bt.put("aa".as_bytes().to_vec(), LogRecordPos { file_id: 11, offset: 22 });
    assert_eq!(res2, true);

    let del1 = bt.delete("".as_bytes().to_vec());
    assert!(del1);

    let del2 = bt.delete("not exist key".as_bytes().to_vec());
    println!("del2={:?}", del2);

    let pos1 = bt.get("".as_bytes().to_vec());
    println!("pos={:?}", pos1);

    let pos1 = bt.get("aa".as_bytes().to_vec());
    println!("pos={:?}", pos1);
    assert!(pos1.is_some());
    assert_eq!(pos1.unwrap().file_id, 11);
    assert_eq!(pos1.unwrap().offset, 22);
}

#[test]
fn btree_overwrite_and_delete_report_presence() {
    let mut bt = Btree::new();
    assert!(bt.put(b"k".to_vec(), LogRecordPos { file_id: 1, offset: 0 }));
    assert!(bt.put(b"k".to_vec(), LogRecordPos { file_id: 2, offset: 7 }));
    assert_eq!(bt.get(b"k".to_vec()), Some(LogRecordPos { file_id: 2, offset: 7 }));
    assert!(bt.delete(b"k".to_vec()));
    assert!(!bt.delete(b"k".to_vec()));
    assert_eq!(bt.get(b"k".to_vec()), None);
}

#[test]
fn new_indexer_starts_empty_for_both_kinds() {
    let a = new_indexer(IndexType::Btree);
    let b = new_indexer(IndexType::SkipList);
    assert_eq!(a.get(b"x".to_vec()), None);
    assert_eq!(b.get(b"x".to_vec()), None);
}

#[test]
fn btree_keeps_many_keys_apart() {
    let mut bt = Btree::new();
    let keys: Vec<Vec<u8>> = vec![b"b".to_vec(), b"a".to_vec(), b"ab".to_vec(), b"".to_vec(), b"ba".to_vec(), b"a\x00".to_vec()];
    for (i, k) in keys.iter().enumerate() {
        assert!(bt.put(k.clone(), LogRecordPos { file_id: i as u32, offset: i as u64 }));
    }
    for (i, k) in keys.iter().enumerate() {
        assert_eq!(bt.get(k.clone()), Some(LogRecordPos { file_id: i as u32, offset: i as u64 }));
    }
    assert!(bt.delete(b"ab".to_vec()));
    assert_eq!(bt.get(b"ab".to_vec()), None);
    assert_eq!(bt.get(b"a".to_vec()), Some(LogRecordPos { file_id: 1, offset: 1 }));
    assert_eq!(bt.get(b"b".to_vec()), Some(LogRecordPos { file_id: 0, offset: 0 }));
}

#[test]
fn byte_order_compares_lexicographically() {
    assert!(compare_bytes(b"a", b"b") < 0);
    assert!(compare_bytes(b"ab", b"a") > 0);
    assert_eq!(compare_bytes(b"abc", b"abc"), 0);
    assert!(compare_bytes(b"", b"\x00") < 0);
    assert!(compare_bytes(b"\xff", b"\x00\x01") > 0);
}
