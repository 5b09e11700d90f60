use simple_datastore::indexable::Indexable;
use simple_datastore::error::StoreError;
use simple_datastore::{DBConfig, DBData, DBStore, Operation};

fn setup() -> (DBStore, String, String, String) {
    let log_path = String::from("test_log.txt");
    let index_path = String::from("test_index_log.txt");

    let db: DBStore = DBStore::new(DBConfig::new(log_path, index_path));

    let key: String = "key".to_string();
    let old_val: String = "val1".to_string();
    let new_val: String = "val2-bigger".to_string();

    (db, key, old_val, new_val)
}

#[test]
fn update_index_test() {
    let (mut db, key, _old_val, _new_val) = setup();

    let result = (|| -> Result<(), StoreError> {
        db.update_index(&key, 10, 10, Operation::ADD)?;
        assert!(!db.indexes.is_empty());
        assert!(db.indexes.contains_key(&key));

        db.update_index(&key, 12, 12, Operation::DELETE)?;
        assert!(db.indexes.is_empty());

        Ok(())
    })();

    match result {
        Ok(_) => {}
        Err(e) => panic!("Failed to update index: {}", e.message()),
    }
}

#[test]
fn create_index_test() {
    let (mut db, key, old_val, new_val) = setup();

    let result = (|| -> Result<(), StoreError> {
        let (_old_offset, _old_length) = db.put(key.clone(), old_val.clone())?;
        let (new_offset, new_length) = db.put(key.clone(), new_val.clone())?;

        let (index_offset, index_length) = db.create_index(&key)?;
        assert!(db.indexes.contains_key(&key));
        assert_eq!(index_offset, new_offset);
        assert_eq!(index_length, new_length);

        let data: DBData = db.get(&key)?;
        assert_eq!(&data.key, &key, "Key mismatch");
        assert_eq!(&data.val, &new_val, "Val mismatch");

        db.delete_index(&key)?;
        assert!(db.indexes.is_empty());

        Ok(())
    })();

    match result {
        Ok(_) => {}
        Err(e) => panic!("Put/Get (where key is not indexed) failed: {}", e.message()),
    }
}

#[test]
fn put_get_without_index() {
    let mut db = DBStore::new(DBConfig::new("db".to_string(), "index".to_string()));
    db.put_at("a".to_string(), "1".to_string(), 10).unwrap();
    db.put_at("a".to_string(), "2".to_string(), 11).unwrap();
    let data = db.get("a").unwrap();
    assert_eq!(data.val, "2");
    assert_eq!(data.key(), "a");
    assert_eq!(*data.operation(), Operation::ADD);
    assert_eq!(*data.timestamp(), 11);
    assert!(db.indexes.is_empty());
    assert_eq!(db.index_log.len(), 0);
}

#[test]
fn put_get_with_index() {
    let mut db = DBStore::new(DBConfig::new("db".to_string(), "index".to_string()));
    let first = db.put_at("a".to_string(), "1".to_string(), 10).unwrap();
    let second = db.put_at("a".to_string(), "2".to_string(), 11).unwrap();
    assert_eq!(first, (0, 30));
    assert_eq!(second, (30, 30));
    assert_eq!(db.create_index_at("a", 12), Ok(second));
    assert_eq!(db.create_index_at("a", 13), Err(StoreError::AlreadyExists));
    let bucket = *db.indexes.get("a").unwrap();
    assert_eq!((bucket.offset, bucket.length), second);
    assert_eq!(db.get("a").unwrap().val, "2");
}

#[test]
fn crash_recovery() {
    let mut db = DBStore::new(DBConfig::new("db".to_string(), "index".to_string()));
    db.put_at("a".to_string(), "1".to_string(), 10).unwrap();
    db.create_index_at("a", 11).unwrap();
    let second = db.put_at("a".to_string(), "2".to_string(), 12).unwrap();

    let mut restarted = DBStore::new(DBConfig::new("db".to_string(), "index".to_string()));
    restarted.data_log = simple_datastore::file::log_handler::LogFile::from_bytes(
        db.data_log.bytes.clone(),
    );
    restarted.index_log = simple_datastore::file::log_handler::LogFile::from_bytes(
        db.index_log.bytes.clone(),
    );
    assert!(restarted.indexes.is_empty());
    restarted.restore_indexes();
    assert_eq!(restarted.indexes.len(), 1);
    let bucket = *restarted.indexes.get("a").unwrap();
    assert_eq!((bucket.offset, bucket.length), second);
    assert_eq!(restarted.get("a").unwrap().val, "2");
}

#[test]
fn delete_index_then_restore_is_empty() {
    let mut db = DBStore::new(DBConfig::new("db".to_string(), "index".to_string()));
    db.put_at("a".to_string(), "1".to_string(), 10).unwrap();
    db.create_index_at("a", 11).unwrap();
    db.delete_index_at("a", 12).unwrap();

    let mut fresh = DBStore::new(DBConfig::new("db".to_string(), "index".to_string()));
    fresh.index_log = simple_datastore::file::log_handler::LogFile::from_bytes(
        db.index_log.bytes.clone(),
    );
    fresh.restore_indexes();
    assert!(fresh.indexes.is_empty());
    assert_eq!(fresh.indexes.len(), 0);
}

#[test]
fn restore_twice_gives_the_same_index() {
    let mut db = DBStore::new(DBConfig::new("db".to_string(), "index".to_string()));
    db.put_at("a".to_string(), "1".to_string(), 1).unwrap();
    db.put_at("b".to_string(), "2".to_string(), 2).unwrap();
    db.create_index_at("a", 3).unwrap();
    db.create_index_at("b", 4).unwrap();
    db.put_at("a".to_string(), "3".to_string(), 5).unwrap();
    db.restore_indexes();
    let once: Vec<(u64, usize)> = ["a", "b"]
        .iter()
        .map(|k| {
            let b = db.indexes.get(k).unwrap();
            (b.offset, b.length)
        })
        .collect();
    db.restore_indexes();
    let twice: Vec<(u64, usize)> = ["a", "b"]
        .iter()
        .map(|k| {
            let b = db.indexes.get(k).unwrap();
            (b.offset, b.length)
        })
        .collect();
    assert_eq!(once, twice);
    assert_eq!(once, vec![(60, 30), (30, 30)]);
    assert_eq!(db.indexes.len(), 2);
}

#[test]
fn last_put_wins_indexed_or_not() {
    let mut plain = DBStore::new(DBConfig::new("db".to_string(), "index".to_string()));
    let mut indexed = DBStore::new(DBConfig::new("db".to_string(), "index".to_string()));
    indexed.put_at("k".to_string(), "v0".to_string(), 0).unwrap();
    indexed.create_index_at("k", 0).unwrap();
    for (i, val) in ["v1", "v2", "v3"].iter().enumerate() {
        plain.put_at("k".to_string(), val.to_string(), i as i64).unwrap();
        indexed.put_at("k".to_string(), val.to_string(), i as i64).unwrap();
        assert_eq!(plain.get("k").unwrap().val, *val);
        assert_eq!(indexed.get("k").unwrap().val, *val);
    }
}

#[test]
fn index_survives_a_clock_that_runs_backwards() {
    let mut db = DBStore::new(DBConfig::new("db".to_string(), "index".to_string()));
    db.put_at("k".to_string(), "late".to_string(), 100).unwrap();
    db.create_index_at("k", 100).unwrap();
    db.put_at("k".to_string(), "early".to_string(), 50).unwrap();
    assert_eq!(db.get("k").unwrap().val, "early");
    db.delete_index_at("k", 101).unwrap();
    assert_eq!(db.get("k").unwrap().val, "late");
}

#[test]
fn get_of_a_missing_key_is_not_found() {
    let mut db = DBStore::new(DBConfig::new("db".to_string(), "index".to_string()));
    assert_eq!(db.get("a").err(), Some(StoreError::NotFound));
    db.put_at("b".to_string(), "1".to_string(), 1).unwrap();
    assert_eq!(db.get("a").err(), Some(StoreError::NotFound));
    assert_eq!(db.create_index_at("a", 2), Err(StoreError::NotFound));
    assert!(db.indexes.is_empty());
    assert_eq!(db.index_log.len(), 0);
}

#[test]
fn index_past_the_end_is_corrupt() {
    let mut db = DBStore::new(DBConfig::new("db".to_string(), "index".to_string()));
    db.put_at("a".to_string(), "1".to_string(), 1).unwrap();
    db.update_index_at("a", 1000, 30, Operation::ADD, 2).unwrap();
    assert_eq!(db.get("a").err(), Some(StoreError::Corrupt));
    db.update_index_at("a", 0, 31, Operation::UPDATE, 3).unwrap();
    assert_eq!(db.get("a").err(), Some(StoreError::Corrupt));
    db.update_index_at("a", 1, 29, Operation::UPDATE, 4).unwrap();
    assert_eq!(db.get("a").err(), Some(StoreError::Decode));
    db.update_index_at("a", 0, 30, Operation::UPDATE, 5).unwrap();
    assert_eq!(db.get("a").unwrap().val, "1");
}

#[test]
fn delete_index_is_idempotent_and_shrinks_the_map() {
    let mut db = DBStore::new(DBConfig::new("db".to_string(), "index".to_string()));
    db.put_at("a".to_string(), "1".to_string(), 1).unwrap();
    db.put_at("b".to_string(), "2".to_string(), 2).unwrap();
    db.create_index_at("a", 3).unwrap();
    db.create_index_at("b", 4).unwrap();
    assert_eq!(db.indexes.len(), 2);
    assert_eq!(db.delete_index_at("a", 5), Ok(()));
    assert_eq!(db.indexes.len(), 1);
    assert!(!db.indexes.contains_key("a"));
    assert!(db.indexes.contains_key("b"));
    assert_eq!(db.delete_index_at("a", 6), Ok(()));
    assert_eq!(db.indexes.len(), 1);
    assert_eq!(db.delete_index("zzz"), Ok(()));
    assert_eq!(db.indexes.len(), 1);
    db.restore_indexes();
    assert_eq!(db.indexes.len(), 1);
    assert!(db.indexes.contains_key("b"));
}

#[test]
fn put_journals_an_update_for_an_indexed_key_only() {
    let mut db = DBStore::new(DBConfig::new("db".to_string(), "index".to_string()));
    db.put_at("a".to_string(), "1".to_string(), 1).unwrap();
    assert_eq!(db.index_log.len(), 0);
    db.create_index_at("a", 2).unwrap();
    assert_eq!(db.index_log.len(), 37);
    db.put_at("b".to_string(), "2".to_string(), 3).unwrap();
    assert_eq!(db.index_log.len(), 37);
    db.put_at("a".to_string(), "3".to_string(), 4).unwrap();
    assert_eq!(db.index_log.len(), 74);
    let journal =
        simple_datastore::file::log_handler::read::<simple_datastore::DBIndex>(&db.index_log, 37, 37)
            .unwrap();
    assert_eq!(journal.key, "a");
    assert_eq!(journal.offset, 60);
    assert_eq!(journal.length, 30);
    assert_eq!(journal.operation, Operation::UPDATE);
    assert_eq!(journal.timestamp, 4);
}

#[test]
fn write_index_log_leaves_the_index_alone() {
    let mut db = DBStore::new(DBConfig::new("db".to_string(), "index".to_string()));
    db.write_index_log("a", 5, 6, Operation::ADD).unwrap();
    assert!(db.indexes.is_empty());
    assert_eq!(db.index_log.len(), 37);
    db.restore_indexes();
    let bucket = *db.indexes.get("a").unwrap();
    assert_eq!((bucket.offset, bucket.length), (5, 6));
    db.write_index_log_at("a", 5, 6, Operation::DELETE, 9).unwrap();
    db.restore_indexes();
    assert!(db.indexes.is_empty());
}

#[test]
fn new_store_is_empty() {
    let db = DBStore::new(DBConfig::new("one".to_string(), "two".to_string()));
    assert_eq!(db.config.log_path_db, "one");
    assert_eq!(db.config.log_path_index, "two");
    assert!(db.indexes.is_empty());
    assert_eq!(db.data_log.len(), 0);
    assert_eq!(db.index_log.len(), 0);
}

#[test]
fn writes_never_fail_and_return_the_place() {
    let mut db = DBStore::new(DBConfig::new("db".to_string(), "index".to_string()));
    assert_eq!(db.put_at("key".to_string(), "val1".to_string(), 1), Ok((0, 35)));
    assert_eq!(db.put_at("key".to_string(), "val2-bigger".to_string(), 2), Ok((35, 42)));
    assert_eq!(db.create_index_at("key", 3), Ok((35, 42)));
    assert_eq!(db.indexes.get("key").map(|b| (b.offset, b.length)), Some((35, 42)));
    assert_eq!(db.index_log.len(), 39);
    assert_eq!(db.update_index_at("other", 10, 10, Operation::ADD, 4), Ok(()));
    assert_eq!(db.indexes.get("other").map(|b| (b.offset, b.length)), Some((10, 10)));
    assert_eq!(db.update_index_at("other", 12, 12, Operation::DELETE, 5), Ok(()));
    assert!(!db.indexes.contains_key("other"));
    let journal = simple_datastore::file::log_handler::sequential_scan::<simple_datastore::DBIndex>(
        &db.index_log,
    )
    .unwrap();
    assert_eq!(journal.len(), 3);
    let deleted = &journal[2].0;
    assert_eq!((deleted.key.as_str(), deleted.offset, deleted.length), ("other", 0, 0));
    assert_eq!(deleted.operation, Operation::DELETE);
    assert_eq!(db.delete_index_at("key", 6), Ok(()));
    assert!(db.indexes.is_empty());
}
