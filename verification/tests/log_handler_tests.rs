use chrono::Utc;
use simple_datastore::datastore::indexable::Indexable;
use simple_datastore::datastore::store::IndexMap;
use simple_datastore::error::StoreError;
use simple_datastore::file::log_handler::{
    read, restore_indexes, scan, sequential_scan, LogFile,
};
use simple_datastore::{DBData, DBIndex, Operation};

fn setup() -> (LogFile, DBData, DBData) {
    let log = LogFile::new();

    let old_data: DBData = DBData::new(
        String::from("test-key-1"),
        String::from("test-value-1"),
        Operation::ADD,
        Utc::now().timestamp_millis(),
    );
    let new_data: DBData = DBData::new(
        String::from("test-key-1"),
        String::from("test-value-2-larger-size"),
        Operation::ADD,
        Utc::now().timestamp_millis(),
    );

    (log, old_data, new_data)
}

fn scanner(log: &LogFile, key: &str, data: (&DBData, u64, usize)) -> (DBData, u64, usize) {
    let (newest_data, newest_offset, newest_length) = data;

    match scan::<DBData>(log, key) {
        Ok(Some((data, offset, length))) => {
            assert_eq!(data, *newest_data, "Data mismatch");
            assert_eq!(offset, newest_offset, "Offset mismatch");
            assert_eq!(length, newest_length, "Length mismatch");

            (data, offset, length)
        }
        Ok(None) => panic!("Scan did not find the data"),
        Err(err) => panic!("Scan failed: {}", err.message()),
    }
}

#[test]
fn log_handler_read_test() {
    let (mut log, data, _) = setup();

    let result = (|| -> Result<(), StoreError> {
        let (offset, length) = simple_datastore::file::log_handler::write::<DBData>(&mut log, &data)?;
        assert_eq!(offset, 0, "Offset mismatch");

        let actual_data = read::<DBData>(&log, offset, length)?;
        assert_eq!(actual_data, data, "Data mismatch");

        Ok(())
    })();

    match result {
        Ok(_) => {}
        Err(err) => panic!("Read failed: {}", err.message()),
    }
}

#[test]
fn log_handler_scan_test() {
    let (mut log, old_data, new_data) = setup();

    let result = (|| -> Result<(), StoreError> {
        let (old_offset, old_length) =
            simple_datastore::file::log_handler::write::<DBData>(&mut log, &old_data)?;
        let (_data, _offset, _length) =
            scanner(&log, old_data.key(), (&old_data, old_offset, old_length));

        let (new_offset, new_length) =
            simple_datastore::file::log_handler::write::<DBData>(&mut log, &new_data)?;
        let (_data, _offset, _length) =
            scanner(&log, new_data.key(), (&new_data, new_offset, new_length));

        Ok(())
    })();

    match result {
        Ok(_) => {}
        Err(err) => panic!("Scan failed: {}", err.message()),
    }
}

#[test]
fn restore_indexes_test() {
    let mut log = LogFile::new();

    let old_data: DBIndex = DBIndex::new(
        String::from("test-key-1"),
        0u64,
        10usize,
        Operation::ADD,
        Utc::now().timestamp_millis(),
    );

    let new_data: DBIndex = DBIndex::new(
        String::from("test-key-1"),
        0u64,
        10usize,
        Operation::DELETE,
        Utc::now().timestamp_millis(),
    );

    let result = (|| -> Result<(), StoreError> {
        simple_datastore::file::log_handler::write::<DBIndex>(&mut log, &old_data)?;

        let mut map: IndexMap = restore_indexes(&log)?;
        assert!(!map.is_empty(), "Map should contain one index");
        assert!(
            map.contains_key(&old_data.key),
            "Map should contain index key"
        );

        simple_datastore::file::log_handler::write::<DBIndex>(&mut log, &new_data)?;

        map = restore_indexes(&log)?;
        assert!(
            map.is_empty(),
            "Map should be empty after adding and deleting index."
        );

        Ok(())
    })();

    match result {
        Ok(_) => {}
        Err(err) => panic!("Restoring indexes failed: {}", err.message()),
    }
}

fn setup_one() -> (LogFile, DBData, u64) {
    let db_data: DBData = DBData::new(
        String::from("test-key"),
        String::from("test-value"),
        Operation::ADD,
        Utc::now().timestamp_millis(),
    );
    let db_offset: u64 = 0;

    (LogFile::new(), db_data, db_offset)
}

#[test]
fn log_handler_tests_read_test() {
    let (mut log, db_data, db_offset) = setup_one();

    match simple_datastore::file::log_handler::write::<DBData>(&mut log, &db_data) {
        Ok((offset, length)) => {
            assert_eq!(offset, db_offset);

            match read::<DBData>(&log, offset, length) {
                Ok(data) => {
                    assert_eq!(data, db_data);
                }
                Err(err) => panic!("Read failed: {}", err.message()),
            }
        }
        Err(err) => panic!("Write failed: {}", err.message()),
    }
}

#[test]
fn log_handler_tests_scan_test() {
    let (mut log, db_data, db_offset) = setup_one();

    match simple_datastore::file::log_handler::write(&mut log, &db_data) {
        Ok((offset, length)) => {
            assert_eq!(offset, db_offset);

            match scan::<DBData>(&log, &db_data.key) {
                Ok(Some((scanned_data, scanned_offset, scanned_length))) => {
                    assert_eq!(scanned_data, db_data);
                    assert_eq!(scanned_offset, offset);
                    assert_eq!(scanned_length, length);
                }
                Ok(None) => panic!("Scan did not find the data"),
                Err(err) => panic!("Scan failed: {}", err.message()),
            }
        }
        Err(err) => panic!("Write failed: {}", err.message()),
    }
}

fn record(key: &str, val: &str, timestamp: i64) -> DBData {
    DBData::new(key.to_string(), val.to_string(), Operation::ADD, timestamp)
}

#[test]
fn scanner_newest_wins() {
    let mut log = LogFile::new();
    let first = simple_datastore::file::log_handler::write(&mut log, &record("k", "v1", 5)).unwrap();
    let other = simple_datastore::file::log_handler::write(&mut log, &record("x", "y", 9)).unwrap();
    let second = simple_datastore::file::log_handler::write(&mut log, &record("k", "v2", 5)).unwrap();
    assert_eq!(first, (0, 31));
    assert_eq!(other, (31, 30));
    assert_eq!(second, (61, 31));
    let (data, offset, length) = scan::<DBData>(&log, "k").unwrap().unwrap();
    assert_eq!(data.val, "v2");
    assert!(offset >= first.0);
    assert_eq!((offset, length), second);
}

#[test]
fn scanner_prefers_the_greater_timestamp() {
    let mut log = LogFile::new();
    let late = simple_datastore::file::log_handler::write(&mut log, &record("k", "late", 9)).unwrap();
    simple_datastore::file::log_handler::write(&mut log, &record("k", "early", 3)).unwrap();
    let (data, offset, length) = scan::<DBData>(&log, "k").unwrap().unwrap();
    assert_eq!(data.val, "late");
    assert_eq!((offset, length), late);
}

#[test]
fn scanner_finds_nothing_for_an_unknown_key() {
    let mut log = LogFile::new();
    assert!(scan::<DBData>(&log, "k").unwrap().is_none());
    simple_datastore::file::log_handler::write(&mut log, &record("a", "1", 1)).unwrap();
    assert!(scan::<DBData>(&log, "k").unwrap().is_none());
}

#[test]
fn scanner_stops_at_the_first_malformed_record() {
    let mut log = LogFile::new();
    simple_datastore::file::log_handler::write(&mut log, &record("k", "v1", 1)).unwrap();
    log.append(vec![0xff, 0xff, 0xff]);
    simple_datastore::file::log_handler::write(&mut log, &record("k", "v2", 2)).unwrap();
    let (data, offset, length) = scan::<DBData>(&log, "k").unwrap().unwrap();
    assert_eq!(data.val, "v1");
    assert_eq!((offset, length), (0, 31));
}

#[test]
fn restore_accepts_the_prefix_before_a_truncated_record() {
    let mut log = LogFile::new();
    let a = DBIndex::new("a".to_string(), 1, 2, Operation::ADD, 1);
    let b = DBIndex::new("b".to_string(), 3, 4, Operation::ADD, 2);
    simple_datastore::file::log_handler::write(&mut log, &a).unwrap();
    simple_datastore::file::log_handler::write(&mut log, &b).unwrap();
    let mut bytes = log.bytes.clone();
    bytes.truncate(bytes.len() - 1);
    let map = restore_indexes(&LogFile::from_bytes(bytes)).unwrap();
    assert_eq!(map.len(), 1);
    assert!(map.contains_key("a"));
    assert!(!map.contains_key("b"));
}

#[test]
fn restore_replays_add_update_delete() {
    let mut log = LogFile::new();
    for index in [
        DBIndex::new("a".to_string(), 1, 2, Operation::ADD, 1),
        DBIndex::new("b".to_string(), 3, 4, Operation::ADD, 2),
        DBIndex::new("a".to_string(), 5, 6, Operation::UPDATE, 3),
        DBIndex::new("b".to_string(), 0, 0, Operation::DELETE, 4),
        DBIndex::new("c".to_string(), 0, 0, Operation::DELETE, 5),
    ] {
        simple_datastore::file::log_handler::write(&mut log, &index).unwrap();
    }
    let map = restore_indexes(&log).unwrap();
    assert_eq!(map.len(), 1);
    let bucket = *map.get("a").unwrap();
    assert_eq!((bucket.offset, bucket.length), (5, 6));
    assert!(map.get("b").is_none());
    assert!(restore_indexes(&LogFile::new()).unwrap().is_empty());
}

#[test]
fn read_checks_the_range_and_the_bytes() {
    let mut log = LogFile::new();
    let (offset, length) =
        simple_datastore::file::log_handler::write(&mut log, &record("k", "v", 1)).unwrap();
    assert_eq!(read::<DBData>(&log, offset, length).unwrap().val, "v");
    assert_eq!(read::<DBData>(&log, offset, length + 1).err(), Some(StoreError::Corrupt));
    assert_eq!(read::<DBData>(&log, 31, 0).err(), Some(StoreError::Corrupt));
    assert_eq!(read::<DBData>(&log, u64::MAX, usize::MAX).err(), Some(StoreError::Corrupt));
    assert_eq!(read::<DBData>(&log, offset, length - 1).err(), Some(StoreError::Decode));
    assert_eq!(read::<DBData>(&log, 30, 0).err(), Some(StoreError::Decode));
    assert_eq!(read::<DBIndex>(&log, offset, length).err(), Some(StoreError::Decode));
}

#[test]
fn append_then_read_gives_the_record_bytes() {
    let mut log = LogFile::from_bytes(vec![7, 7, 7]);
    let data = record("key", "value", -1);
    let bytes = simple_datastore::file::serialize(&data).unwrap();
    let (offset, length) = simple_datastore::file::log_handler::write(&mut log, &data).unwrap();
    assert_eq!(offset, 3);
    assert_eq!(length, bytes.len());
    assert_eq!(&log.bytes[offset as usize..offset as usize + length], &bytes[..]);
    assert_eq!(read::<DBData>(&log, offset, length).unwrap(), data);
    assert_eq!(log.len(), 3 + bytes.len());
}

#[test]
fn sequential_scan_yields_every_record_with_its_place() {
    let mut log = LogFile::new();
    assert_eq!(sequential_scan::<DBData>(&log).unwrap().len(), 0);
    let records = [record("a", "1", 1), record("bb", "22", 2), record("a", "3", 3)];
    for data in records.iter() {
        simple_datastore::file::log_handler::write(&mut log, data).unwrap();
    }
    log.append(vec![1, 2, 3]);
    let found = sequential_scan::<DBData>(&log).unwrap();
    assert_eq!(found.len(), 3);
    assert_eq!(found[0], (records[0].clone(), 0, 30));
    assert_eq!(found[1], (records[1].clone(), 30, 32));
    assert_eq!(found[2], (records[2].clone(), 62, 30));

    let mut short = LogFile::new();
    simple_datastore::file::log_handler::write(&mut short, &records[0]).unwrap();
    assert_eq!(sequential_scan::<DBIndex>(&short).unwrap().len(), 0);
}
