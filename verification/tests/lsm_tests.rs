use bloom::BloomFilter;
use simple_datastore::db::Datastore;
use simple_datastore::file::{Metadata, SSTableSegment};
use simple_datastore::index::memtable::SIZE_THRESHOLD_TEN_MB;
use simple_datastore::index::{
    convert_hashmap_to_vec, convert_skipmap_to_vec, convert_vec_to_hashmap, convert_vec_to_skipmap,
    Memtable, SSTable,
};
use simple_datastore::StoreError;
use std::collections::HashMap;

fn table(entries: &[(u64, &str)]) -> SSTable {
    let mut data: HashMap<u64, String> = HashMap::new();
    for (key, val) in entries {
        data.insert(*key, val.to_string());
    }
    SSTable::new(data)
}

fn listing(table: &SSTable) -> Vec<(u64, String)> {
    table.entries()
}

fn pairs(entries: &[(u64, &str)]) -> Vec<(u64, String)> {
    entries.iter().map(|(k, v)| (*k, v.to_string())).collect()
}

fn segment(table: &SSTable, timestamp: i64) -> SSTableSegment {
    let (min_key, max_key) = table.get_key_range().unwrap();
    SSTableSegment {
        path: format!("sstable_{}_{}_{}", min_key, max_key, timestamp),
        min_key,
        max_key,
        size: table.size().unwrap(),
        timestamp,
        is_compacted: false,
    }
}

fn datastore(tables: Vec<SSTable>) -> Datastore {
    let mut metadata = Metadata::new("manifest".to_string(), "recovery".to_string());
    for (i, table) in tables.iter().enumerate() {
        metadata.add_segment(segment(table, 100 + i as i64));
    }
    Datastore::new(metadata, tables, BloomFilter::with_rate(0.01, 1000)).unwrap()
}

#[test]
fn sstable_read_and_contains() {
    let t = table(&[(1, "a"), (5, "e")]);
    assert!(t.contains(&1));
    assert!(!t.contains(&2));
    assert_eq!(t.read(&5), Some(&"e".to_string()));
    assert_eq!(t.read(&6), None);
    assert_eq!(t.get_key_range(), Ok((1, 5)));
    assert_eq!(table(&[]).get_key_range(), Err(StoreError::NotFound));
    assert_eq!(table(&[(7, "x")]).get_key_range(), Ok((7, 7)));
}

#[test]
fn sstable_entries_are_sorted() {
    let t = table(&[(9, "i"), (1, "a"), (5, "e"), (3, "c"), (7, "g"), (0, "z")]);
    assert_eq!(
        listing(&t),
        pairs(&[(0, "z"), (1, "a"), (3, "c"), (5, "e"), (7, "g"), (9, "i")])
    );
    assert_eq!(listing(&table(&[])), Vec::new());
}

#[test]
fn sstable_size_counts_the_bytes_of_the_file() {
    assert_eq!(table(&[]).size(), Ok(8));
    assert_eq!(table(&[(1, "a")]).size(), Ok(8 + 17));
    assert_eq!(table(&[(1, "a"), (2, "bcd")]).size(), Ok(8 + 17 + 19));
}

#[test]
fn sstable_scan_gives_the_entries_between_the_bounds() {
    let t = table(&[(1, "a"), (3, "c"), (5, "e"), (7, "g")]);
    assert_eq!(t.scan(&3, &5), Ok(Some(pairs(&[(3, "c"), (5, "e")]))));
    assert_eq!(t.scan(&1, &7), Ok(Some(listing(&t))));
    assert_eq!(t.scan(&0, &u64::MAX), Ok(Some(listing(&t))));
    assert_eq!(t.scan(&3, &3), Ok(Some(pairs(&[(3, "c")]))));
    assert_eq!(t.scan(&5, &3), Ok(Some(Vec::new())));
    assert_eq!(t.scan(&2, &5), Ok(Some(pairs(&[(3, "c"), (5, "e")]))));
    assert_eq!(t.scan(&3, &6), Ok(Some(pairs(&[(3, "c"), (5, "e")]))));
    assert_eq!(t.scan(&4, &4), Ok(Some(Vec::new())));
    assert_eq!(t.scan(&8, &9), Ok(Some(Vec::new())));
    assert_eq!(table(&[]).scan(&0, &9), Ok(Some(Vec::new())));

    let t = table(&[(1, "a"), (2, "b"), (3, "c"), (5, "e")]);
    assert_eq!(t.scan(&2, &4), Ok(Some(pairs(&[(2, "b"), (3, "c")]))));
}

#[test]
fn sstable_merge_newer_wins_and_tombstones_drop_keys() {
    let mut older = table(&[(1, "a"), (2, "b"), (3, "c")]);
    let newer = table(&[(2, "B"), (3, "TOMBSTONE"), (4, "d"), (5, "TOMBSTONE")]);
    assert_eq!(older.merge(&newer), Ok(()));
    assert_eq!(listing(&older), pairs(&[(1, "a"), (2, "B"), (4, "d")]));
    assert_eq!(listing(&newer).len(), 4);
}

#[test]
fn sstable_split_is_key_contiguous() {
    let mut t = table(&[(4, "dddd"), (1, "a"), (3, "ccc"), (2, "bb")]);
    // the entries take 17, 18, 19 and 20 bytes
    let overflow = t.split(17 + 18).unwrap();
    assert_eq!(listing(&t), pairs(&[(1, "a"), (2, "bb")]));
    assert_eq!(listing(&overflow), pairs(&[(3, "ccc"), (4, "dddd")]));
    assert!(t.get_key_range().unwrap().1 < overflow.get_key_range().unwrap().0);

    let mut t = table(&[(1, "a"), (2, "bb")]);
    let overflow = t.split(16).unwrap();
    assert_eq!(listing(&t), Vec::new());
    assert_eq!(listing(&overflow), pairs(&[(1, "a"), (2, "bb")]));

    let mut t = table(&[(1, "a"), (2, "bb")]);
    let overflow = t.split(34).unwrap();
    assert_eq!(listing(&t), pairs(&[(1, "a")]));
    assert_eq!(listing(&overflow), pairs(&[(2, "bb")]));

    let mut t = table(&[(1, "a"), (2, "bb")]);
    let overflow = t.split(u64::MAX).unwrap();
    assert_eq!(listing(&t), pairs(&[(1, "a"), (2, "bb")]));
    assert_eq!(listing(&overflow), Vec::new());
}

#[test]
fn sstable_flush_gives_the_row_and_the_bytes() {
    let t = table(&[(5, "e"), (1, "a")]);
    let (row, bytes) = t.flush_at(123).unwrap();
    assert_eq!(row.path, "sstable_1_5_123");
    assert_eq!(row.min_key, 1);
    assert_eq!(row.max_key, 5);
    assert_eq!(row.size, 42);
    assert_eq!(row.timestamp, 123);
    assert!(!row.is_compacted);
    assert_eq!(bytes.len(), 42);
    let loaded = SSTable::from_bytes(&bytes).unwrap().unwrap();
    assert_eq!(listing(&loaded), listing(&t));
    assert_eq!(table(&[]).flush_at(1).err(), Some(StoreError::NotFound));
    let (row, _) = t.flush().unwrap();
    assert_eq!(row.path, format!("sstable_1_5_{}", row.timestamp));
    assert_eq!(table(&[(1, "a")]).flush_at(-7).unwrap().0.path, "sstable_1_1_-7");
}

#[test]
fn sstable_from_bytes() {
    assert!(SSTable::from_bytes(&[]).unwrap().is_none());
    assert_eq!(SSTable::from_bytes(&[1, 2, 3]).err(), Some(StoreError::Decode));
    let bytes =
        simple_datastore::file::serializer::encode_pairs(&pairs(&[(2, "x"), (1, "y"), (2, "z")]))
            .unwrap();
    let loaded = SSTable::from_bytes(&bytes).unwrap().unwrap();
    assert_eq!(listing(&loaded), pairs(&[(1, "y"), (2, "z")]));
}

#[test]
fn converters() {
    let list = pairs(&[(3, "c"), (1, "a"), (3, "C")]);
    let map = convert_vec_to_hashmap(&list);
    assert_eq!(map.len(), 2);
    assert_eq!(map.get(&3), Some(&"C".to_string()));
    let mut back = convert_hashmap_to_vec(&map);
    back.sort();
    assert_eq!(back, pairs(&[(1, "a"), (3, "C")]));

    let skipmap = convert_vec_to_skipmap(&list);
    assert_eq!(skipmap.len(), 2);
    assert_eq!(convert_skipmap_to_vec(&skipmap), pairs(&[(1, "a"), (3, "C")]));
    assert_eq!(convert_skipmap_to_vec(&convert_vec_to_skipmap(&Vec::new())), Vec::new());
}

#[test]
fn memtable_put_get_delete() {
    let mut memtable = Memtable::new();
    assert_eq!(memtable.get(&1), None);
    assert_eq!(memtable.size(), Ok(8));
    assert!(memtable.put(1, "a".to_string()).unwrap().is_none());
    assert!(memtable.put(1, "b".to_string()).unwrap().is_none());
    assert!(memtable.put_at(9, "i".to_string(), 5).unwrap().is_none());
    assert_eq!(memtable.get(&1), Some(&"b".to_string()));
    assert_eq!(memtable.size(), Ok(8 + 17 + 17));
    memtable.delete(&1);
    assert_eq!(memtable.get(&1), Some(&"TOMBSTONE".to_string()));
    memtable.delete(&4);
    assert_eq!(memtable.get(&4), Some(&"TOMBSTONE".to_string()));
    assert_eq!(memtable.get(&9), Some(&"i".to_string()));
    assert_eq!(SIZE_THRESHOLD_TEN_MB, 10 * 1024 * 1024);
}

#[test]
fn memtable_flush_returns_the_segment_and_clears() {
    let mut memtable = Memtable::new();
    assert!(memtable.flush_at(1).unwrap().is_none());
    memtable.put(7, "g".to_string()).unwrap();
    memtable.put(2, "b".to_string()).unwrap();
    memtable.delete(&5);
    let (row, flushed) = memtable.flush_at(77).unwrap().unwrap();
    assert_eq!(row.path, "sstable_2_7_77");
    assert_eq!((row.min_key, row.max_key), (2, 7));
    assert_eq!(row.size, 8 + 17 + 25 + 17);
    assert_eq!(row.timestamp, 77);
    assert!(!row.is_compacted);
    assert_eq!(listing(&flushed), pairs(&[(2, "b"), (5, "TOMBSTONE"), (7, "g")]));
    assert_eq!(memtable.get(&7), None);
    assert_eq!(memtable.size(), Ok(8));
    assert!(memtable.flush().unwrap().is_none());
}

#[test]
fn memtable_flushes_itself_at_ten_mebibytes() {
    let mut memtable = Memtable::new();
    let big = "x".repeat(6 * 1024 * 1024);
    assert!(memtable.put_at(1, big.clone(), 1).unwrap().is_none());
    assert!(memtable.put_at(2, big.clone(), 2).unwrap().is_none());
    let (row, flushed) = memtable.put_at(3, "c".to_string(), 3).unwrap().unwrap();
    assert_eq!((row.min_key, row.max_key, row.timestamp), (1, 2, 3));
    assert_eq!(row.size, 8 + 2 * (16 + 6 * 1024 * 1024));
    assert_eq!(flushed.read(&2), Some(&big));
    assert_eq!(memtable.get(&1), None);
    assert_eq!(memtable.get(&3), Some(&"c".to_string()));
}

#[test]
fn datastore_new_checks_its_parts() {
    let metadata = Metadata::new("manifest".to_string(), "recovery".to_string());
    assert!(Datastore::new(metadata, Vec::new(), BloomFilter::with_size(0, 3)).is_none());

    let metadata = Metadata::new("manifest".to_string(), "recovery".to_string());
    assert!(
        Datastore::new(metadata, vec![table(&[(1, "a")])], BloomFilter::with_rate(0.01, 100))
            .is_none()
    );

    let t = table(&[(1, "a"), (9, "i")]);
    let mut row = segment(&t, 1);
    row.max_key = 8;
    let mut metadata = Metadata::new("manifest".to_string(), "recovery".to_string());
    metadata.add_segment(row);
    assert!(Datastore::new(metadata, vec![t], BloomFilter::with_rate(0.01, 100)).is_none());

    let store = datastore(vec![table(&[(1, "a")])]);
    assert_eq!(store.size_threshold, 10 * 1024 * 1024);
    assert_eq!(store.metadata.segments.len(), 1);
    assert_eq!(store.tables.len(), 1);
    assert_eq!(store.metadata.metadata_path, "manifest");
}

#[test]
fn datastore_get_prefers_the_memtable() {
    let mut store = datastore(vec![table(&[(1, "old"), (2, "two")])]);
    assert_eq!(store.get(&1), Ok(Some("old".to_string())));
    assert_eq!(store.put(1, "new".to_string()), Ok(()));
    assert_eq!(store.get(&1), Ok(Some("new".to_string())));
    // a get of a key in the memtable does not depend on the segments
    store.tables[0] = table(&[(1, "other"), (2, "two")]);
    assert_eq!(store.get(&1), Ok(Some("new".to_string())));
    assert_eq!(store.get(&2), Ok(Some("two".to_string())));
    assert_eq!(store.get(&3), Ok(None));
}

#[test]
fn datastore_get_takes_the_newest_segment_that_claims_the_key() {
    let store = datastore(vec![
        table(&[(1, "a1"), (2, "b1"), (3, "c1")]),
        table(&[(2, "b2"), (3, "TOMBSTONE")]),
        table(&[(3, "c3"), (4, "d3")]),
        table(&[(4, "TOMBSTONE"), (9, "i4")]),
    ]);
    assert_eq!(store.get(&1), Ok(Some("a1".to_string())));
    assert_eq!(store.get(&2), Ok(Some("b2".to_string())));
    assert_eq!(store.get(&3), Ok(Some("c3".to_string())));
    assert_eq!(store.get(&4), Ok(None));
    assert_eq!(store.get(&5), Ok(None));
    assert_eq!(store.get(&9), Ok(Some("i4".to_string())));
    assert_eq!(store.get(&10), Ok(None));
}

#[test]
fn datastore_tombstone_survives_a_flush() {
    let mut store = datastore(Vec::new());
    store.put(7, "v".to_string()).unwrap();
    assert_eq!(store.get(&7), Ok(Some("v".to_string())));
    store.delete(7).unwrap();
    assert_eq!(store.get(&7), Ok(None));
    assert_eq!(store.flush(), Ok(true));
    assert_eq!(store.metadata.segments.len(), 1);
    assert_eq!(store.tables.len(), 1);
    assert_eq!(store.memtable.get(&7), None);
    assert_eq!(store.tables[0].read(&7), Some(&"TOMBSTONE".to_string()));
    assert_eq!(store.get(&7), Ok(None));
    assert_eq!(store.flush(), Ok(false));
    assert_eq!(store.metadata.segments.len(), 1);
}

#[test]
fn datastore_tombstone_shadows_an_older_segment() {
    let mut store = datastore(vec![table(&[(7, "old")])]);
    store.put_at(7, "v".to_string(), 200).unwrap();
    store.delete(7).unwrap();
    assert_eq!(store.flush_at(201), Ok(true));
    assert_eq!(store.get(&7), Ok(None));
    assert_eq!(store.metadata.segments[1].path, "sstable_7_7_201");
    assert_eq!(store.metadata.segments[1].timestamp, 201);
}

#[test]
fn datastore_put_flushes_at_the_threshold() {
    let mut store = datastore(Vec::new());
    store.size_threshold = 8 + 17;
    store.put_at(1, "a".to_string(), 10).unwrap();
    assert_eq!(store.metadata.segments.len(), 0);
    store.put_at(2, "b".to_string(), 11).unwrap();
    assert_eq!(store.metadata.segments.len(), 1);
    assert_eq!(store.metadata.segments[0].path, "sstable_1_1_11");
    assert_eq!(store.metadata.segments[0].size, 25);
    assert!(!store.metadata.segments[0].is_compacted);
    assert_eq!(listing(&store.tables[0]), pairs(&[(1, "a")]));
    assert_eq!(store.memtable.get(&1), None);
    assert_eq!(store.memtable.get(&2), Some(&"b".to_string()));
    assert_eq!(store.get(&1), Ok(Some("a".to_string())));
    assert_eq!(store.get(&2), Ok(Some("b".to_string())));
    store.put_at(1, "A".to_string(), 12).unwrap();
    assert_eq!(store.metadata.segments.len(), 2);
    assert_eq!(store.get(&1), Ok(Some("A".to_string())));
    assert_eq!(store.get(&2), Ok(Some("b".to_string())));
}

#[test]
fn datastore_snapshot_and_restore() {
    let mut store = datastore(vec![table(&[(1, "seg")])]);
    store.put(5, "e".to_string()).unwrap();
    store.put(3, "c".to_string()).unwrap();
    store.delete(1).unwrap();
    let bytes = store.snapshot().unwrap();
    assert_eq!(
        bytes,
        simple_datastore::file::serializer::encode_pairs(&pairs(&[
            (1, "TOMBSTONE"),
            (3, "c"),
            (5, "e")
        ]))
        .unwrap()
    );

    let mut restarted = datastore(vec![table(&[(1, "seg")])]);
    assert_eq!(restarted.get(&1), Ok(Some("seg".to_string())));
    assert!(!restarted.restore(&[]));
    assert!(!restarted.restore(&[1, 2, 3]));
    assert_eq!(restarted.get(&3), Ok(None));
    assert!(restarted.restore(&bytes));
    assert_eq!(restarted.get(&1), Ok(None));
    assert_eq!(restarted.get(&3), Ok(Some("c".to_string())));
    assert_eq!(restarted.get(&5), Ok(Some("e".to_string())));
}

#[test]
fn compaction_converges_on_the_newest_values() {
    let segment_1 = table(&[(1, "a1"), (2, "b1"), (3, "c1"), (6, "f1")]);
    let segment_2 = table(&[(2, "b2"), (3, "c2"), (4, "d2"), (6, "TOMBSTONE")]);
    let segment_3 = table(&[(3, "c3"), (4, "TOMBSTONE"), (5, "e3")]);
    let mut store = datastore(vec![segment_1, segment_2, segment_3]);
    store.put(9, "mem".to_string()).unwrap();
    let before: Vec<Option<String>> = (0..12).map(|k| store.get(&k).unwrap()).collect();

    assert_eq!(store.merge_and_compact_at(500), Ok(()));

    let after: Vec<Option<String>> = (0..12).map(|k| store.get(&k).unwrap()).collect();
    assert_eq!(before, after);
    assert_eq!(store.get(&1), Ok(Some("a1".to_string())));
    assert_eq!(store.get(&2), Ok(Some("b2".to_string())));
    assert_eq!(store.get(&3), Ok(Some("c3".to_string())));
    assert_eq!(store.get(&4), Ok(None));
    assert_eq!(store.get(&5), Ok(Some("e3".to_string())));
    assert_eq!(store.get(&6), Ok(None));
    assert_eq!(store.get(&9), Ok(Some("mem".to_string())));

    assert_eq!(store.tables.len(), 1);
    assert_eq!(store.metadata.segments.len(), 1);
    assert_eq!(
        listing(&store.tables[0]),
        pairs(&[(1, "a1"), (2, "b2"), (3, "c3"), (5, "e3")])
    );
    let row = &store.metadata.segments[0];
    assert_eq!(row.path, "sstable_1_5_500");
    assert_eq!((row.min_key, row.max_key), (1, 5));
    assert_eq!(row.size, 8 + 4 * 18);
    assert_eq!(row.timestamp, 500);
    assert!(row.is_compacted);
}

#[test]
fn compaction_orders_by_timestamp() {
    let first = table(&[(1, "newest")]);
    let second = table(&[(1, "oldest")]);
    let mut metadata = Metadata::new("manifest".to_string(), "recovery".to_string());
    metadata.add_segment(segment(&first, 9));
    metadata.add_segment(segment(&second, 3));
    let mut store =
        Datastore::new(metadata, vec![first, second], BloomFilter::with_rate(0.01, 100)).unwrap();
    assert_eq!(store.newest_first(), vec![0, 1]);
    assert_eq!(store.merge_and_compact(), Ok(()));
    assert_eq!(store.get(&1), Ok(Some("newest".to_string())));
}

#[test]
fn compaction_takes_the_later_of_two_segments_with_one_timestamp() {
    let first = table(&[(1, "first"), (2, "b")]);
    let second = table(&[(1, "second")]);
    let third = table(&[(3, "c")]);
    let mut metadata = Metadata::new("manifest".to_string(), "recovery".to_string());
    metadata.add_segment(segment(&first, 5));
    metadata.add_segment(segment(&second, 5));
    metadata.add_segment(segment(&third, 7));
    let mut store = Datastore::new(
        metadata,
        vec![first, second, third],
        BloomFilter::with_rate(0.01, 100),
    )
    .unwrap();
    assert_eq!(store.newest_first(), vec![2, 1, 0]);
    assert_eq!(store.get(&1), Ok(Some("second".to_string())));
    assert_eq!(store.merge_and_compact_at(8), Ok(()));
    assert_eq!(store.get(&1), Ok(Some("second".to_string())));
    assert_eq!(store.get(&2), Ok(Some("b".to_string())));
    assert_eq!(store.get(&3), Ok(Some("c".to_string())));
}

#[test]
fn compaction_twice_changes_nothing_more() {
    let mut store = datastore(vec![
        table(&[(1, "a"), (3, "c")]),
        table(&[(2, "b"), (4, "d"), (3, "C")]),
    ]);
    store.size_threshold = 17 + 17 + 17;
    store.merge_and_compact_at(9).unwrap();
    let once: Vec<Option<String>> = (0..6).map(|k| store.get(&k).unwrap()).collect();
    store.size_threshold = u64::MAX;
    store.merge_and_compact_at(9).unwrap();
    let twice: Vec<Option<String>> = (0..6).map(|k| store.get(&k).unwrap()).collect();
    assert_eq!(once, twice);
    assert_eq!(store.tables.len(), 1);
    assert_eq!(
        listing(&store.tables[0]),
        pairs(&[(1, "a"), (2, "b"), (3, "C"), (4, "d")])
    );
}

#[test]
fn compaction_splits_a_table_that_outgrows_the_threshold() {
    let mut store = datastore(vec![
        table(&[(1, "a"), (3, "c")]),
        table(&[(2, "b"), (4, "d"), (3, "C")]),
    ]);
    store.size_threshold = 17 + 17 + 17;
    assert_eq!(store.merge_and_compact_at(9), Ok(()));
    assert_eq!(store.tables.len(), 2);
    assert_eq!(listing(&store.tables[0]), pairs(&[(4, "d")]));
    assert_eq!(listing(&store.tables[1]), pairs(&[(1, "a"), (2, "b"), (3, "C")]));
    assert_eq!(store.metadata.segments[0].path, "sstable_4_4_9");
    assert_eq!(store.metadata.segments[1].path, "sstable_1_3_9");
    assert_eq!(store.metadata.segments[0].size, 25);
    assert_eq!(store.metadata.segments[1].size, 8 + 3 * 17);
    for (key, val) in [(1, "a"), (2, "b"), (3, "C"), (4, "d")] {
        assert_eq!(store.get(&key), Ok(Some(val.to_string())));
    }
    assert_eq!(store.get(&5), Ok(None));
}

#[test]
fn compaction_of_nothing_and_of_one_segment() {
    let mut store = datastore(Vec::new());
    assert_eq!(store.merge_and_compact(), Ok(()));
    assert_eq!(store.tables.len(), 0);

    let mut store = datastore(vec![table(&[(1, "a"), (2, "TOMBSTONE")])]);
    assert_eq!(store.merge_and_compact_at(4), Ok(()));
    assert_eq!(store.tables.len(), 1);
    assert_eq!(store.get(&1), Ok(Some("a".to_string())));
    assert_eq!(store.get(&2), Ok(None));

    let mut store = datastore(vec![table(&[(1, "a")]), table(&[(1, "TOMBSTONE")])]);
    assert_eq!(store.merge_and_compact_at(4), Ok(()));
    assert_eq!(store.tables.len(), 0);
    assert_eq!(store.metadata.segments.len(), 0);
    assert_eq!(store.get(&1), Ok(None));
}

#[test]
fn metadata_load_or_create() {
    let fresh = Metadata::load_or_create(None, "m".to_string(), "r".to_string());
    assert_eq!(fresh.metadata_path, "m");
    assert_eq!(fresh.database_recovery_path, "r");
    assert!(fresh.segments.is_empty());

    let mut loaded = Metadata::new("old".to_string(), "older".to_string());
    loaded.add_segment(segment(&table(&[(1, "a")]), 5));
    let kept = Metadata::load_or_create(Some(loaded), "m".to_string(), "r".to_string());
    assert_eq!(kept.metadata_path, "old");
    assert_eq!(kept.segments.len(), 1);
    assert_eq!(kept.segments[0].path, "sstable_1_1_5");
}

#[test]
fn datastore_flush_if_due_flushes_what_a_put_would_flush() {
    let mut store = datastore(Vec::new());
    store.size_threshold = 8 + 17;
    assert_eq!(store.flush_if_due_at(5), Ok(false));
    store.put_at(1, "a".to_string(), 10).unwrap();
    assert_eq!(store.metadata.segments.len(), 0);
    assert_eq!(store.flush_if_due_at(11), Ok(true));
    assert_eq!(store.metadata.segments.len(), 1);
    assert_eq!(store.metadata.segments[0].path, "sstable_1_1_11");
    assert_eq!(store.memtable.get(&1), None);
    assert_eq!(store.flush_if_due(), Ok(false));
    store.put_at(2, "b".to_string(), 12).unwrap();
    assert_eq!(store.metadata.segments.len(), 1);
    assert_eq!(store.get(&1), Ok(Some("a".to_string())));
    assert_eq!(store.get(&2), Ok(Some("b".to_string())));
}

#[test]
fn datastore_delete_puts_the_marker() {
    let mut store = datastore(vec![table(&[(3, "c")])]);
    assert_eq!(store.delete(3), Ok(()));
    assert_eq!(store.memtable.get(&3), Some(&"TOMBSTONE".to_string()));
    assert_eq!(store.metadata.segments.len(), 1);
    assert_eq!(store.get(&3), Ok(None));
    assert_eq!(store.delete(4), Ok(()));
    assert_eq!(store.get(&4), Ok(None));
}
