use simple_datastore::error::StoreError;
use simple_datastore::file::serializer::{decode_pairs, encode_pairs, pairs_size};
use simple_datastore::file::{deserialize_bytes, serialize, serialized_size};
use simple_datastore::{DBData, DBIndex, Operation};

#[test]
fn data_record_bytes() {
    let data = DBData::new("a".to_string(), "1".to_string(), Operation::ADD, 1);
    let bytes = serialize(&data).unwrap();
    assert_eq!(
        bytes,
        vec![
            1, 0, 0, 0, 0, 0, 0, 0, 97, // key
            1, 0, 0, 0, 0, 0, 0, 0, 49, // value
            0, 0, 0, 0, // operation
            1, 0, 0, 0, 0, 0, 0, 0, // timestamp
        ]
    );
    assert_eq!(serialized_size(&data), Ok(30));
}

#[test]
fn data_record_bytes_with_wide_characters_and_negative_time() {
    let data = DBData::new("é".to_string(), "".to_string(), Operation::DELETE, -2);
    let bytes = serialize(&data).unwrap();
    assert_eq!(
        bytes,
        vec![
            2, 0, 0, 0, 0, 0, 0, 0, 0xc3, 0xa9, // key
            0, 0, 0, 0, 0, 0, 0, 0, // value
            2, 0, 0, 0, // operation
            0xfe, 0xff, 0xff, 0xff, 0xff, 0xff, 0xff, 0xff, // timestamp
        ]
    );
    assert_eq!(serialized_size(&data), Ok(30));
    assert_eq!(deserialize_bytes::<DBData>(&bytes), Ok(data));
}

#[test]
fn index_record_bytes() {
    let index = DBIndex::new("ab".to_string(), 258, 3, Operation::UPDATE, 4);
    let bytes = serialize(&index).unwrap();
    assert_eq!(
        bytes,
        vec![
            2, 0, 0, 0, 0, 0, 0, 0, 97, 98, // key
            2, 1, 0, 0, 0, 0, 0, 0, // offset
            3, 0, 0, 0, 0, 0, 0, 0, // length
            1, 0, 0, 0, // operation
            4, 0, 0, 0, 0, 0, 0, 0, // timestamp
        ]
    );
    assert_eq!(serialized_size(&index), Ok(38));
    assert_eq!(deserialize_bytes::<DBIndex>(&bytes), Ok(index));
}

#[test]
fn decode_is_the_inverse_of_encode() {
    for (key, val, operation, timestamp) in [
        ("", "", Operation::ADD, 0),
        ("key", "value", Operation::UPDATE, i64::MAX),
        ("ключ", "значение", Operation::DELETE, i64::MIN),
        ("k\n\0", "TOMBSTONE", Operation::ADD, 1_700_000_000_000),
    ] {
        let data = DBData::new(key.to_string(), val.to_string(), operation, timestamp);
        let bytes = serialize(&data).unwrap();
        assert_eq!(serialized_size(&data), Ok(bytes.len() as u64));
        assert_eq!(deserialize_bytes::<DBData>(&bytes), Ok(data.clone()));
        let mut longer = bytes.clone();
        longer.extend_from_slice(&[1, 2, 3]);
        assert_eq!(deserialize_bytes::<DBData>(&longer), Ok(data));

        let index = DBIndex::new(key.to_string(), 7, 9, operation, timestamp);
        let bytes = serialize(&index).unwrap();
        assert_eq!(serialized_size(&index), Ok(bytes.len() as u64));
        assert_eq!(deserialize_bytes::<DBIndex>(&bytes), Ok(index));
    }
}

#[test]
fn decode_rejects_malformed_bytes() {
    let data = DBData::new("a".to_string(), "1".to_string(), Operation::ADD, 1);
    let bytes = serialize(&data).unwrap();
    assert_eq!(deserialize_bytes::<DBData>(&[]), Err(StoreError::Decode));
    assert_eq!(deserialize_bytes::<DBData>(&bytes[..29]), Err(StoreError::Decode));

    let mut unknown_operation = bytes.clone();
    unknown_operation[18] = 3;
    assert_eq!(deserialize_bytes::<DBData>(&unknown_operation), Err(StoreError::Decode));

    let mut bad_text = bytes.clone();
    bad_text[8] = 0xff;
    assert_eq!(deserialize_bytes::<DBData>(&bad_text), Err(StoreError::Decode));

    let mut long_key = bytes.clone();
    long_key[7] = 0x80;
    assert_eq!(deserialize_bytes::<DBData>(&long_key), Err(StoreError::Decode));

    let index = DBIndex::new("a".to_string(), 1, 2, Operation::ADD, 3);
    let mut bytes = serialize(&index).unwrap();
    bytes[25] = 9;
    assert_eq!(deserialize_bytes::<DBIndex>(&bytes), Err(StoreError::Decode));
}

#[test]
fn pairs_bytes_and_size() {
    let pairs = vec![(1u64, "a".to_string()), (258u64, "".to_string())];
    let bytes = encode_pairs(&pairs).unwrap();
    assert_eq!(
        bytes,
        vec![
            2, 0, 0, 0, 0, 0, 0, 0, // number of pairs
            1, 0, 0, 0, 0, 0, 0, 0, 1, 0, 0, 0, 0, 0, 0, 0, 97, // first
            2, 1, 0, 0, 0, 0, 0, 0, 0, 0, 0, 0, 0, 0, 0, 0, // second
        ]
    );
    assert_eq!(pairs_size(&pairs), Ok(41));
    assert_eq!(decode_pairs(&bytes), Ok(pairs));
    assert_eq!(pairs_size(&Vec::new()), Ok(8));
    assert_eq!(decode_pairs(&[0, 0, 0, 0, 0, 0, 0, 0, 9]), Ok(Vec::new()));
    assert_eq!(decode_pairs(&bytes[..40]), Err(StoreError::Decode));
    assert_eq!(decode_pairs(&[]), Err(StoreError::Decode));
}

#[test]
fn operation_codes() {
    assert_eq!(Operation::ADD.code(), 0);
    assert_eq!(Operation::UPDATE.code(), 1);
    assert_eq!(Operation::DELETE.code(), 2);
    assert_eq!(Operation::from_code(0), Some(Operation::ADD));
    assert_eq!(Operation::from_code(1), Some(Operation::UPDATE));
    assert_eq!(Operation::from_code(2), Some(Operation::DELETE));
    assert_eq!(Operation::from_code(3), None);
    assert_eq!(Operation::from_code(u32::MAX), None);
}

#[test]
fn error_messages() {
    assert_eq!(StoreError::Io.message(), "byte operation failed");
    assert_eq!(StoreError::Decode.message(), "malformed record");
    assert_eq!(StoreError::NotFound.message(), "key not found");
    assert_eq!(StoreError::AlreadyExists.message(), "key already exists");
    assert_eq!(StoreError::Corrupt.message(), "index entry out of range");
}
