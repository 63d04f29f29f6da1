use lucasdb::data_file::DataFile;
use lucasdb::fio::MemIO;
use lucasdb::log_record::{LogRecord, LogRecordType};

#[test]
fn test_data_file_new() {
    let dir_path = "./tmp/data_file/new";
    {
        let file_id = 0;
        let data_file_res = DataFile::<MemIO>::new(dir_path, file_id);
        assert!(data_file_res.is_ok());
        let data_file = data_file_res.unwrap();
        assert_eq!(file_id, data_file.get_file_id());
    }

    {
        let file_id = 1;
        let data_file_res = DataFile::<MemIO>::new(dir_path, file_id);
        assert!(data_file_res.is_ok());
        let data_file = data_file_res.unwrap();
        assert_eq!(file_id, data_file.get_file_id());
    }

    {
        let file_id = 6999123;
        let data_file_res = DataFile::<MemIO>::new(dir_path, file_id);
        assert!(data_file_res.is_ok());
        let data_file = data_file_res.unwrap();
        assert_eq!(file_id, data_file.get_file_id());
    }
}

#[test]
fn test_data_file_write() {
    let dir_path = "./tmp/data_file/write";
    let file_id = 1;
    {
        let data_file_res = DataFile::<MemIO>::new(dir_path, file_id);
        assert!(data_file_res.is_ok());
        let mut data_file = data_file_res.unwrap();
        assert_eq!(file_id, data_file.get_file_id());

        let buf = "abc".as_bytes().to_vec();
        let write_res = data_file.write(&buf);
        assert!(write_res.is_ok());
        assert_eq!(buf.len(), write_res.unwrap());
    }

    {
        let data_file_res = DataFile::<MemIO>::new(dir_path, file_id);
        assert!(data_file_res.is_ok());
        let mut data_file = data_file_res.unwrap();
        assert_eq!(file_id, data_file.get_file_id());

        let buf = "LucasDb".as_bytes().to_vec();
        let write_res = data_file.write(&buf);
        assert!(write_res.is_ok());
        assert_eq!(buf.len(), write_res.unwrap());
    }

    {
        let data_file_res = DataFile::<MemIO>::new(dir_path, file_id);
        assert!(data_file_res.is_ok());
        let mut data_file = data_file_res.unwrap();
        assert_eq!(file_id, data_file.get_file_id());

        let buf = "I Love Rust".as_bytes().to_vec();
        let write_res = data_file.write(&buf);
        assert!(write_res.is_ok());
        assert_eq!(buf.len(), write_res.unwrap());
    }
}

#[test]
fn test_data_file_sync() {
    let dir_path = "./tmp/data_file/sync";
    let file_id = 2;

    {
        let data_file_res = DataFile::<MemIO>::new(dir_path, file_id);
        assert!(data_file_res.is_ok());
        let mut data_file = data_file_res.unwrap();
        assert_eq!(file_id, data_file.get_file_id());

        let buf = "abc".as_bytes().to_vec();
        let write_res = data_file.write(&buf);
        assert!(write_res.is_ok());
        assert_eq!(buf.len(), write_res.unwrap());

        let sync_res = data_file.sync();
        assert!(sync_res.is_ok());
    }
}

#[test]
fn test_data_file_read_log_record() {
    let dir_path = "./tmp/data_file/read";
    let file_id = 4;
    let mut offset = 0;

    let data_file_res = DataFile::<MemIO>::new(dir_path, file_id);
    assert!(data_file_res.is_ok());
    let mut data_file = data_file_res.unwrap();
    assert_eq!(file_id, data_file.get_file_id());
    // Write, read, write, read.
    {
        let key = "lucas".as_bytes().to_vec();
        let value = "LucasDBValue".as_bytes().to_vec();
        let log_record = LogRecord {
            key: key.clone(),
            value: value.clone(),
            rec_type: LogRecordType::Normal,
        };

        let encode_res = log_record.encode();
        assert!(encode_res.is_ok());
        let encode = encode_res.unwrap();

        let write_res = data_file.write(&encode);
        assert!(write_res.is_ok());

        let read_log_record_res = data_file.read_log_record(offset);
        offset += write_res.unwrap() as u64;

        assert!(read_log_record_res.is_ok());
        let read_log_record = read_log_record_res.unwrap();

        assert_eq!(read_log_record.record.key, key);
        assert_eq!(read_log_record.record.value, value);

        let key = "Hello".as_bytes().to_vec();
        let value = "Rust".as_bytes().to_vec();
        let log_record = LogRecord {
            key: key.clone(),
            value: value.clone(),
            rec_type: LogRecordType::Normal,
        };

        let encode_res = log_record.encode();
        assert!(encode_res.is_ok());
        let encode = encode_res.unwrap();

        let write_res = data_file.write(&encode);
        assert!(write_res.is_ok());

        let read_log_record_res = data_file.read_log_record(offset);
        offset += write_res.unwrap() as u64;

        assert!(read_log_record_res.is_ok());
        let read_log_record = read_log_record_res.unwrap();

        assert_eq!(read_log_record.record.key, key);
        assert_eq!(read_log_record.record.value, value);
    }

    // Write a tombstone, read it back.
    {
        let key = "Hello".as_bytes().to_vec();
        let log_record = LogRecord {
            key: key.clone(),
            value: Default::default(),
            rec_type: LogRecordType::Deleted,
        };

        let encode_res = log_record.encode();
        assert!(encode_res.is_ok());
        let encode = encode_res.unwrap();

        let write_res = data_file.write(&encode);
        assert!(write_res.is_ok());

        let read_log_record_res = data_file.read_log_record(offset);

        assert!(read_log_record_res.is_ok());
        let read_log_record = read_log_record_res.unwrap();

        assert_eq!(read_log_record.record.key, key);
        assert!(matches!(read_log_record.record.rec_type, LogRecordType::Deleted));
    }

    // Reading past the end reports the end of the file.
    {
        let read_res = data_file.read_log_record(offset + 1000);
        match read_res {
            Err(lucasdb::errors::Errors::ReadDataFileEOF) => {}
            _ => panic!("expected end of file"),
        }
    }

    // A flipped byte in a stored record is caught by its checksum.
    {
        let record = LogRecord {
            key: b"crc".to_vec(),
            value: b"guard".to_vec(),
            rec_type: LogRecordType::Normal,
        };
        let mut bytes = record.encode().unwrap();
        let n = bytes.len();
        bytes[n - 6] ^= 0x01;
        let broken = lucasdb::data_file::DataFile::from_io(9, MemIO::from_bytes(bytes)).unwrap();
        match broken.read_log_record(0) {
            Err(lucasdb::errors::Errors::InvalidLogRecordCrc) => {}
            _ => panic!("expected a checksum error"),
        }
    }
}
