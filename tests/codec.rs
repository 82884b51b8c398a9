use bitcask_kv::data::data_file::{decode_header, get_data_file_name, DataFile};
use bitcask_kv::data::log_record::{
    get_u32_le, header_len, max_log_record_header_size, put_u32_le, LogRecord, LogRecordType,
};
use bitcask_kv::errors::Errors;
use bitcask_kv::fio::{IOManager, MemIO};
use bitcask_kv::names::data_file_id;

fn record(key: &[u8], value: &[u8], rec_type: LogRecordType) -> LogRecord {
    LogRecord { key: key.to_vec(), value: value.to_vec(), rec_type }
}

#[test]
fn encode_lays_out_header_key_value_and_crc() {
    let r = record(b"a", b"1", LogRecordType::NORMAL);
    let enc = r.encode();
    let body = vec![1u8, 1, 1, b'a', b'1'];
    let crc = crc32fast::hash(&body);
    assert_eq!(&enc[..5], &body[..]);
    assert_eq!(&enc[5..], &crc.to_le_bytes()[..]);
    assert_eq!(r.get_crc(), crc);
    assert_ne!(r.get_crc(), 0);
}

#[test]
fn encode_uses_varints_for_sizes() {
    let key = vec![7u8; 300];
    let r = record(&key, b"", LogRecordType::DELETE);
    let enc = r.encode();
    assert_eq!(enc[0], 2);
    assert_eq!(enc[1], 0xac);
    assert_eq!(enc[2], 0x02);
    assert_eq!(enc[3], 0);
    assert_eq!(enc.len(), 4 + 300 + 4);
}

#[test]
fn header_sizes() {
    assert_eq!(max_log_record_header_size(), 11);
    assert_eq!(header_len(1, 1), 3);
    assert_eq!(header_len(300, 0), 4);
    assert_eq!(header_len(u32::MAX as usize, u32::MAX as usize), 11);
}

#[test]
fn from_u8_and_back() {
    assert_eq!(LogRecordType::from_u8(1), LogRecordType::NORMAL);
    assert_eq!(LogRecordType::from_u8(2), LogRecordType::DELETE);
    assert_eq!(LogRecordType::DELETE.to_u8(), 2);
}

#[test]
fn u32_little_endian() {
    let mut buf = Vec::new();
    put_u32_le(&mut buf, 0x0403_0201);
    assert_eq!(buf, vec![1, 2, 3, 4]);
    assert_eq!(get_u32_le(&buf), 0x0403_0201);
}

#[test]
fn decode_of_encode_gives_the_record_back() {
    for (k, v, t) in [
        (&b"a"[..], &b"1"[..], LogRecordType::NORMAL),
        (&b"key"[..], &b""[..], LogRecordType::DELETE),
        (&[9u8; 200][..], &[3u8; 1000][..], LogRecordType::NORMAL),
    ] {
        let r = record(k, v, t);
        let enc = r.encode();
        let f = DataFile::with_io(3, MemIO::from_bytes(enc.clone()));
        let read = f.read_log_record(0).unwrap();
        assert_eq!(read.record.key, k.to_vec());
        assert_eq!(read.record.value, v.to_vec());
        assert_eq!(read.record.rec_type, t);
        assert_eq!(read.size, enc.len());
    }
}

#[test]
fn every_single_bit_flip_is_detected() {
    let r = record(b"name", b"value", LogRecordType::NORMAL);
    let enc = r.encode();
    for byte in 0..enc.len() {
        for bit in 0..8 {
            let mut bad = enc.clone();
            bad[byte] ^= 1 << bit;
            let f = DataFile::with_io(0, MemIO::from_bytes(bad));
            let res = f.read_log_record(0);
            assert!(res.is_err(), "flip of bit {} in byte {} went unnoticed", bit, byte);
            if byte >= 3 {
                assert!(matches!(res, Err(Errors::InvalidLogRecordCrc)));
            }
        }
    }
}

#[test]
fn reading_past_the_end_is_eof() {
    let r = record(b"a", b"1", LogRecordType::NORMAL);
    let enc = r.encode();
    let f = DataFile::with_io(0, MemIO::from_bytes(enc.clone()));
    assert!(matches!(f.read_log_record(enc.len() as u64), Err(Errors::ReadDataFileEOF)));
    let cut = DataFile::with_io(0, MemIO::from_bytes(enc[..enc.len() - 1].to_vec()));
    assert!(matches!(cut.read_log_record(0), Err(Errors::ReadDataFileEOF)));
}

#[test]
fn decode_header_rejects_blank_and_reads_sizes() {
    let blank = [0u8; 11];
    assert!(matches!(decode_header(&blank, 0), Err(Errors::ReadDataFileEOF)));
    let mut h = [0u8; 11];
    h[0] = 1;
    h[1] = 0xac;
    h[2] = 0x02;
    h[3] = 5;
    assert_eq!(decode_header(&h, 11).unwrap(), (1, 300, 5, 4));
}

#[test]
fn data_file_names() {
    assert_eq!(get_data_file_name(0), "000000000.data");
    assert_eq!(get_data_file_name(660), "000000660.data");
    assert_eq!(get_data_file_name(u32::MAX), "4294967295.data");
    assert_eq!(data_file_id("000000001.data"), Some(Ok(1)));
    assert_eq!(data_file_id("4294967295.data"), Some(Ok(u32::MAX)));
    assert_eq!(data_file_id("4294967296.data"), Some(Err(Errors::DataDirectoryCorrupted)));
    assert_eq!(data_file_id("foo.data"), Some(Err(Errors::DataDirectoryCorrupted)));
    assert_eq!(data_file_id(".data"), Some(Err(Errors::DataDirectoryCorrupted)));
    assert_eq!(data_file_id("notes.txt"), None);
}

#[test]
fn test_new_data_file() {
    let dir_path = "/tmp";
    let data_file_res1 = DataFile::<MemIO>::new(dir_path, 0);
    assert!(data_file_res1.is_ok());
    let data_file1 = data_file_res1.unwrap();
    assert_eq!(data_file1.get_file_id(), 0);

    let data_file_res2 = DataFile::<MemIO>::new(dir_path, 0);
    assert!(data_file_res2.is_ok());
    let data_file2 = data_file_res2.unwrap();
    assert_eq!(data_file2.get_file_id(), 0);

    let data_file_res3 = DataFile::<MemIO>::new(dir_path, 660);
    assert!(data_file_res3.is_ok());
    let data_file3 = data_file_res3.unwrap();
    assert_eq!(data_file3.get_file_id(), 660);
}

#[test]
fn data_file_write_returns_start_offsets() {
    let mut f = DataFile::<MemIO>::new("/tmp", 100).unwrap();
    assert_eq!(f.get_file_id(), 100);
    assert_eq!(f.write(b"aaa").unwrap(), 0);
    assert_eq!(f.write(b"bbb").unwrap(), 3);
    assert_eq!(f.write(b"ccc").unwrap(), 6);
    assert_eq!(f.get_write_off(), 9);
    assert_eq!(f.io_manager().bytes(), &b"aaabbbccc".to_vec());
    assert_eq!(f.file_size(), 9);
}

#[test]
fn test_data_file_sync() {
    let dir_path = "/tmp";
    let data_file_res1 = DataFile::<MemIO>::new(dir_path, 200);
    assert!(data_file_res1.is_ok());
    let data_file1 = data_file_res1.unwrap();
    assert_eq!(data_file1.get_file_id(), 200);

    let sync_res = data_file1.sync();
    assert!(sync_res.is_ok());
}

#[test]
fn mem_io_short_read_at_end() {
    let io = MemIO::from_bytes(b"hello".to_vec());
    let mut buf = vec![9u8; 4];
    assert_eq!(io.read(&mut buf, 3).unwrap(), 2);
    assert_eq!(buf, vec![b'l', b'o', 9, 9]);
    assert_eq!(io.read(&mut buf, 10).unwrap(), 0);
    assert_eq!(io.size(), 5);
}

#[test]
fn blank_header_inside_a_file_is_eof() {
    let mut bytes = record(b"a", b"1", LogRecordType::NORMAL).encode();
    let end = bytes.len() as u64;
    bytes.extend_from_slice(&[0u8; 16]);
    let f = DataFile::with_io(0, MemIO::from_bytes(bytes));
    assert!(f.read_log_record(0).is_ok());
    assert!(matches!(f.read_log_record(end), Err(Errors::ReadDataFileEOF)));
}

#[test]
fn record_size_limits() {
    use_record_fits();
}

fn use_record_fits() {
    assert!(bitcask_kv::data::log_record::record_fits(1, 1));
    assert!(bitcask_kv::data::log_record::record_fits(u32::MAX as usize, 0));
    assert!(!bitcask_kv::data::log_record::record_fits(u32::MAX as usize + 1, 0));
}

#[test]
fn data_file_stem_may_carry_a_plus_sign() {
    assert_eq!(data_file_id("+5.data"), Some(Ok(5)));
    assert_eq!(data_file_id("+.data"), Some(Err(Errors::DataDirectoryCorrupted)));
    assert_eq!(data_file_id("++5.data"), Some(Err(Errors::DataDirectoryCorrupted)));
}
