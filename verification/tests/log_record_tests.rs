use lucasdb::log_record::{LogRecord, LogRecordPos, LogRecordType};

#[test]
fn test_log_record_encode() {
    // An ordinary record.
    {
        let key = "lucas".as_bytes().to_vec();
        let value = "DbTest".as_bytes().to_vec();
        let log_record = LogRecord {
            key: key,
            value: value,
            rec_type: LogRecordType::Normal,
        };

        let encode_res = log_record.encode();
        assert!(encode_res.is_ok());
        let encode = encode_res.unwrap();
        assert!(encode.len() > 5);

        // The last four bytes hold the checksum of everything before them.
        let buf = &encode[..encode.len() - 4];
        let mut hasher = crc32fast::Hasher::new();
        hasher.update(buf);
        let recalculated_crc = hasher.finalize();

        assert_eq!(recalculated_crc, log_record.get_crc());
    }

    // A record with an empty value.
    {
        let key = "lucas2".as_bytes().to_vec();
        let value = "".as_bytes().to_vec();
        let log_record = LogRecord {
            key: key,
            value: value,
            rec_type: LogRecordType::Normal,
        };

        let encode_res = log_record.encode();
        assert!(encode_res.is_ok());
        let encode = encode_res.unwrap();
        assert!(encode.len() > 5);

        let buf = &encode[..encode.len() - 4];
        let mut hasher = crc32fast::Hasher::new();
        hasher.update(buf);
        let recalculated_crc = hasher.finalize();

        assert_eq!(recalculated_crc, log_record.get_crc());
    }

    // A tombstone.
    {
        let key = "lucas3".as_bytes().to_vec();
        let log_record = LogRecord {
            key: key,
            value: Default::default(),
            rec_type: LogRecordType::Deleted,
        };

        let encode_res = log_record.encode();
        assert!(encode_res.is_ok());
        let encode = encode_res.unwrap();
        assert!(encode.len() > 5);

        let buf = &encode[..encode.len() - 4];
        let mut hasher = crc32fast::Hasher::new();
        hasher.update(buf);
        let recalculated_crc = hasher.finalize();

        assert_eq!(recalculated_crc, log_record.get_crc());
    }
}

#[test]
fn test_log_record_pos_decode() {
    let pos = LogRecordPos {
        file_id: 1,
        offset: 2,
        size: 3,
    };

    let encoded_pos = pos.encode().unwrap();

    let decoded_pos = LogRecordPos::decode(encoded_pos).unwrap();

    assert_eq!(pos.file_id, decoded_pos.file_id);
    assert_eq!(pos.offset, decoded_pos.offset);
    assert_eq!(pos.size, decoded_pos.size);
}

#[test]
fn test_record_type_round_trip() {
    assert!(matches!(LogRecordType::from_u8(1), LogRecordType::Normal));
    assert!(matches!(LogRecordType::from_u8(2), LogRecordType::Deleted));
    assert!(matches!(LogRecordType::from_u8(3), LogRecordType::TxnFinished));
    assert_eq!(LogRecordType::Normal.to_u8(), 1);
    assert_eq!(LogRecordType::Deleted.to_u8(), 2);
    assert_eq!(LogRecordType::TxnFinished.to_u8(), 3);
}
