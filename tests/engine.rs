use bitcask_kv::data::data_file::DataFile;
use bitcask_kv::db::{check_options, Engine, INITIAL_FILE_ID};
use bitcask_kv::errors::Errors;
use bitcask_kv::fio::MemIO;
use bitcask_kv::options::{IndexType, Options};

fn options(data_file_size: u64) -> Options {
    Options {
        dir_path: String::from("/tmp/bitcask-kv-test"),
        data_file_size,
        sync_writes: false,
        index_type: IndexType::Btree,
    }
}

fn fresh(data_file_size: u64) -> Engine<MemIO> {
    Engine::<MemIO>::open(options(data_file_size), &Vec::new()).unwrap()
}

/// Closes the store and opens it again over copies of its files.
fn reopen(engine: Engine<MemIO>, data_file_size: u64) -> Engine<MemIO> {
    Engine::open_with_files(options(data_file_size), copy_files(engine.close())).unwrap()
}

fn copy_files(files: Vec<DataFile<MemIO>>) -> Vec<DataFile<MemIO>> {
    files
        .iter()
        .map(|f| DataFile::with_io(f.get_file_id(), MemIO::from_bytes(f.io_manager().bytes().clone())))
        .collect()
}

#[test]
fn fresh_directory_put_get() {
    let mut engine = fresh(1024);
    engine.put(b"a".to_vec(), b"1".to_vec()).unwrap();
    assert_eq!(engine.get(b"a".to_vec()).unwrap(), b"1".to_vec());
    let files = engine.close();
    assert_eq!(files.len(), 1);
    assert_eq!(files[0].get_file_id(), INITIAL_FILE_ID);
    assert_eq!(bitcask_kv::data::data_file::get_data_file_name(files[0].get_file_id()), "000000000.data");
}

#[test]
fn overwrite_reads_latest_before_and_after_reopen() {
    let mut engine = fresh(1024);
    engine.put(b"a".to_vec(), b"1".to_vec()).unwrap();
    engine.put(b"a".to_vec(), b"2".to_vec()).unwrap();
    assert_eq!(engine.get(b"a".to_vec()).unwrap(), b"2".to_vec());
    let engine = reopen(engine, 1024);
    assert_eq!(engine.get(b"a".to_vec()).unwrap(), b"2".to_vec());
}

#[test]
fn delete_then_get_is_not_found() {
    let mut engine = fresh(1024);
    engine.put(b"a".to_vec(), b"1".to_vec()).unwrap();
    engine.delete(b"a".to_vec()).unwrap();
    assert_eq!(engine.get(b"a".to_vec()), Err(Errors::KeyNotFound));
    let engine = reopen(engine, 1024);
    assert_eq!(engine.get(b"a".to_vec()), Err(Errors::KeyNotFound));
}

#[test]
fn delete_of_absent_key_succeeds_and_writes_nothing() {
    let mut engine = fresh(1024);
    engine.put(b"b".to_vec(), b"2".to_vec()).unwrap();
    let before = engine.close();
    let len_before = before[0].file_size();
    let mut engine = Engine::open_with_files(options(1024), before).unwrap();
    assert_eq!(engine.delete(b"zzz".to_vec()), Ok(()));
    assert_eq!(engine.get(b"b".to_vec()).unwrap(), b"2".to_vec());
    let after = engine.close();
    assert_eq!(after[0].file_size(), len_before);
}

#[test]
fn empty_key_is_rejected() {
    let mut engine = fresh(1024);
    assert_eq!(engine.put(Vec::new(), b"1".to_vec()), Err(Errors::KeyIsEmpty));
    assert_eq!(engine.get(Vec::new()), Err(Errors::KeyIsEmpty));
    assert_eq!(engine.delete(Vec::new()), Err(Errors::KeyIsEmpty));
}

#[test]
fn empty_value_round_trips() {
    let mut engine = fresh(1024);
    engine.put(b"k".to_vec(), Vec::new()).unwrap();
    assert_eq!(engine.get(b"k".to_vec()).unwrap(), Vec::<u8>::new());
}

#[test]
fn small_files_roll_over_and_every_key_reads_back() {
    let mut engine = fresh(64);
    for i in 0..10 {
        let key = format!("k{}", i).into_bytes();
        let value = format!("v{}", i).into_bytes();
        engine.put(key, value).unwrap();
    }
    for i in 0..10 {
        let key = format!("k{}", i).into_bytes();
        assert_eq!(engine.get(key).unwrap(), format!("v{}", i).into_bytes());
    }
    let engine = reopen(engine, 64);
    for i in 0..10 {
        let key = format!("k{}", i).into_bytes();
        assert_eq!(engine.get(key).unwrap(), format!("v{}", i).into_bytes());
    }
    let files = engine.close();
    assert!(files.len() >= 2);
    for w in files.windows(2) {
        assert!(w[0].get_file_id() < w[1].get_file_id());
    }
}

#[test]
fn rollover_moves_to_the_next_file_id() {
    // each record of a one-byte key and value takes 9 bytes
    let mut engine = fresh(20);
    engine.put(b"a".to_vec(), b"1".to_vec()).unwrap();
    engine.put(b"b".to_vec(), b"2".to_vec()).unwrap();
    engine.put(b"c".to_vec(), b"3".to_vec()).unwrap();
    let files = engine.close();
    let ids: Vec<u32> = files.iter().map(|f| f.get_file_id()).collect();
    assert_eq!(ids, vec![0, 1]);
    assert_eq!(files[0].file_size(), 18);
    assert_eq!(files[1].file_size(), 9);
}

#[test]
fn a_record_larger_than_the_file_size_still_goes_to_a_fresh_file() {
    let mut engine = fresh(4);
    engine.put(b"key".to_vec(), b"a long value".to_vec()).unwrap();
    engine.put(b"key2".to_vec(), b"another long value".to_vec()).unwrap();
    assert_eq!(engine.get(b"key".to_vec()).unwrap(), b"a long value".to_vec());
    let files = engine.close();
    let ids: Vec<u32> = files.iter().map(|f| f.get_file_id()).collect();
    assert_eq!(ids, vec![0, 1, 2]);
    assert_eq!(files[0].file_size(), 0);
}

#[test]
fn corrupted_value_byte_is_detected() {
    let mut engine = fresh(1024);
    engine.put(b"a".to_vec(), b"1".to_vec()).unwrap();
    engine.put(b"b".to_vec(), b"hello".to_vec()).unwrap();
    let files = engine.close();
    let mut bytes = files[0].io_manager().bytes().clone();
    // the second record starts at 9; its value starts after a 3-byte header and a 1-byte key
    bytes[9 + 3 + 1] ^= 0x20;
    let damaged = DataFile::with_io(0, MemIO::from_bytes(bytes.clone()));
    assert!(damaged.read_log_record(0).is_ok());
    assert!(matches!(damaged.read_log_record(9), Err(Errors::InvalidLogRecordCrc)));
    let reopened = Engine::open_with_files(options(1024), vec![DataFile::with_io(0, MemIO::from_bytes(bytes))]);
    assert!(matches!(reopened, Err(Errors::InvalidLogRecordCrc)));
}

#[test]
fn non_numeric_data_file_name_is_corruption() {
    let names = vec![String::from("foo.data")];
    let res = Engine::<MemIO>::open(options(1024), &names);
    assert!(matches!(res, Err(Errors::DataDirectoryCorrupted)));
}

#[test]
fn other_entries_are_ignored_and_data_files_opened_in_order() {
    let names = vec![
        String::from("000000002.data"),
        String::from("LOCK"),
        String::from("000000001.data"),
        String::from("000000002.data"),
    ];
    let engine = Engine::<MemIO>::open(options(1024), &names).unwrap();
    let ids: Vec<u32> = engine.close().iter().map(|f| f.get_file_id()).collect();
    assert_eq!(ids, vec![1, 2]);
}

#[test]
fn reopening_twice_gives_the_same_mapping() {
    let mut engine = fresh(40);
    for i in 0..8 {
        engine.put(format!("key{}", i % 3).into_bytes(), format!("value{}", i).into_bytes()).unwrap();
    }
    engine.delete(b"key1".to_vec()).unwrap();
    let files = engine.close();
    let first = Engine::open_with_files(options(40), copy_files(files.iter().map(|f| DataFile::with_io(f.get_file_id(), MemIO::from_bytes(f.io_manager().bytes().clone()))).collect())).unwrap();
    let second = Engine::open_with_files(options(40), copy_files(files)).unwrap();
    for k in ["key0", "key1", "key2", "key3"] {
        assert_eq!(first.get(k.as_bytes().to_vec()), second.get(k.as_bytes().to_vec()));
    }
    assert_eq!(first.get(b"key0".to_vec()).unwrap(), b"value6".to_vec());
    assert_eq!(first.get(b"key1".to_vec()), Err(Errors::KeyNotFound));
    assert_eq!(first.get(b"key2".to_vec()).unwrap(), b"value5".to_vec());
}

#[test]
fn files_out_of_order_are_corruption() {
    let files = vec![
        DataFile::with_io(2, MemIO::from_bytes(Vec::new())),
        DataFile::with_io(1, MemIO::from_bytes(Vec::new())),
    ];
    assert!(matches!(Engine::open_with_files(options(1024), files), Err(Errors::DataDirectoryCorrupted)));
}

#[test]
fn torn_tail_sends_appends_to_a_fresh_file() {
    let mut engine = fresh(1024);
    engine.put(b"a".to_vec(), b"1".to_vec()).unwrap();
    let files = engine.close();
    let mut bytes = files[0].io_manager().bytes().clone();
    bytes.extend_from_slice(&[1, 1]);
    let mut engine = Engine::open_with_files(options(1024), vec![DataFile::with_io(0, MemIO::from_bytes(bytes))]).unwrap();
    engine.put(b"b".to_vec(), b"2".to_vec()).unwrap();
    assert_eq!(engine.get(b"a".to_vec()).unwrap(), b"1".to_vec());
    assert_eq!(engine.get(b"b".to_vec()).unwrap(), b"2".to_vec());
    let ids: Vec<u32> = engine.close().iter().map(|f| f.get_file_id()).collect();
    assert_eq!(ids, vec![0, 1]);
}

#[test]
fn bad_options_are_rejected() {
    let mut opts = options(1024);
    opts.dir_path = String::new();
    assert_eq!(check_options(&opts), Some(Errors::DirPathIsEmpty));
    assert!(matches!(Engine::<MemIO>::open(opts, &Vec::new()), Err(Errors::DirPathIsEmpty)));
    let opts = options(0);
    assert_eq!(check_options(&opts), Some(Errors::DataFileSizeTooSmall));
    assert!(matches!(Engine::<MemIO>::open(opts, &Vec::new()), Err(Errors::DataFileSizeTooSmall)));
    assert_eq!(check_options(&options(1)), None);
}

#[test]
fn error_messages_are_not_empty() {
    assert_eq!(Errors::KeyNotFound.message(), "key is not found in database");
    assert!(!Errors::InvalidLogRecordCrc.message().is_empty());
}

#[test]
fn blank_tail_after_records_recovers_them() {
    let mut engine = fresh(1024);
    engine.put(b"a".to_vec(), b"1".to_vec()).unwrap();
    engine.put(b"b".to_vec(), b"2".to_vec()).unwrap();
    let files = engine.close();
    let mut bytes = files[0].io_manager().bytes().clone();
    bytes.extend_from_slice(&[0u8; 32]);
    let mut engine = Engine::open_with_files(options(1024), vec![DataFile::with_io(0, MemIO::from_bytes(bytes))]).unwrap();
    assert_eq!(engine.get(b"a".to_vec()).unwrap(), b"1".to_vec());
    assert_eq!(engine.get(b"b".to_vec()).unwrap(), b"2".to_vec());
    engine.put(b"c".to_vec(), b"3".to_vec()).unwrap();
    assert_eq!(engine.get(b"c".to_vec()).unwrap(), b"3".to_vec());
}
