use simple_datastore::data::Data;
use simple_datastore::datastore::converters::convert_db_index_to_index_bucket;
use simple_datastore::datastore::store::{IndexBucket, IndexMap};
use simple_datastore::file::metadata::{decimal_text, segment_path, signed_decimal_text};
use simple_datastore::index::order::sorted_order;
use simple_datastore::simple_datastore::{DBConfig, SimpleDatastore};
use simple_datastore::text::text_eq;
use simple_datastore::{DBIndex, Operation, StoreError};

#[test]
fn data_accessors_and_line() {
    let mut data = Data::new("k".to_string(), "v".to_string());
    assert_eq!(data.get_key(), "k");
    assert_eq!(data.get_val(), "v");
    assert_eq!(data.print(), "Key: k, Val: v");
    data.set_key("key".to_string());
    data.set_val("".to_string());
    assert_eq!(data.get_key(), "key");
    assert_eq!(data.get_val(), "");
    assert_eq!(data.print(), "Key: key, Val: ");
}

#[test]
fn file_data_accessors_and_bytes() {
    let mut data = simple_datastore::file_handler::Data::new("k".to_string(), "v".to_string());
    assert_eq!(data.print_data(), "Key: k, Val: v");
    data.set_key("ab".to_string());
    data.set_val("c".to_string());
    assert_eq!(data.get_key(), "ab");
    assert_eq!(data.get_val(), "c");
    let bytes = simple_datastore::file_handler::write(&data).unwrap();
    assert_eq!(
        bytes,
        vec![2, 0, 0, 0, 0, 0, 0, 0, 97, 98, 1, 0, 0, 0, 0, 0, 0, 0, 99]
    );
    let back = simple_datastore::file_handler::read(&bytes).unwrap();
    assert_eq!(back.key, "ab");
    assert_eq!(back.val, "c");
    assert_eq!(
        simple_datastore::file_handler::read(&bytes[..18]).err(),
        Some(StoreError::Decode)
    );
}

#[test]
fn simple_datastore_holds_nothing() {
    let config = DBConfig::new(
        "db".to_string(),
        "/tmp/db".to_string(),
        vec!["s1".to_string(), "s\"2".to_string()],
        "/tmp/rec".to_string(),
    );
    assert_eq!(
        config.print_config(),
        "Database: db, Path: /tmp/db, Recovery: /tmp/rec, Segments: [\"s1\", \"s\\\"2\"]"
    );
    let mut store = SimpleDatastore::new(config);
    assert!(store.db_indexes.is_empty());
    let data = simple_datastore::file_handler::Data::new("k".to_string(), "v".to_string());
    store.set(&data);
    store.set_index("i", &data);
    assert!(store.db_indexes.is_empty());
    assert_eq!(store.db_config.db_name, "db");
    assert_eq!(SimpleDatastore::get("k"), "");
    assert_eq!(SimpleDatastore::get_index("i"), "");
}

#[test]
fn index_map_behaves_as_a_map() {
    let mut map = IndexMap::new();
    assert!(map.is_empty());
    assert_eq!(map.len(), 0);
    assert_eq!(map.insert("a".to_string(), IndexBucket { offset: 1, length: 2 }), None);
    assert_eq!(map.insert("b".to_string(), IndexBucket { offset: 3, length: 4 }), None);
    assert_eq!(
        map.insert("a".to_string(), IndexBucket { offset: 5, length: 6 }),
        Some(IndexBucket { offset: 1, length: 2 })
    );
    assert_eq!(map.len(), 2);
    assert!(!map.is_empty());
    assert!(map.contains_key("a"));
    assert!(!map.contains_key("c"));
    assert_eq!(map.get("a"), Some(&IndexBucket { offset: 5, length: 6 }));
    assert_eq!(map.get("c"), None);
    assert_eq!(map.remove("c"), None);
    assert_eq!(map.remove("a"), Some(IndexBucket { offset: 5, length: 6 }));
    assert_eq!(map.remove("a"), None);
    assert_eq!(map.len(), 1);
    assert_eq!(map.get("b"), Some(&IndexBucket { offset: 3, length: 4 }));
}

#[test]
fn index_bucket_of_an_index_record() {
    let index = DBIndex::new("k".to_string(), 11, 22, Operation::ADD, 33);
    assert_eq!(
        convert_db_index_to_index_bucket(&index),
        IndexBucket { offset: 11, length: 22 }
    );
}

#[test]
fn sorted_order_is_stable() {
    assert_eq!(sorted_order(&vec![]), Vec::<usize>::new());
    assert_eq!(sorted_order(&vec![5]), vec![0]);
    assert_eq!(sorted_order(&vec![3, 1, 2]), vec![1, 2, 0]);
    assert_eq!(sorted_order(&vec![2, 1, 2, 1, -7]), vec![4, 1, 3, 0, 2]);
    assert_eq!(sorted_order(&vec![i128::MAX, i128::MIN, 0]), vec![1, 2, 0]);
}

#[test]
fn text_equality() {
    assert!(text_eq("", ""));
    assert!(text_eq("abc", "abc"));
    assert!(!text_eq("abc", "abd"));
    assert!(!text_eq("abc", "ab"));
    assert!(text_eq("ключ", "ключ"));
    assert!(!text_eq("ключ", "ключи"));
}

#[test]
fn decimal_texts() {
    assert_eq!(decimal_text(0), "0");
    assert_eq!(decimal_text(7), "7");
    assert_eq!(decimal_text(10), "10");
    assert_eq!(decimal_text(1234567890), "1234567890");
    assert_eq!(decimal_text(u64::MAX), "18446744073709551615");
    assert_eq!(signed_decimal_text(0), "0");
    assert_eq!(signed_decimal_text(-1), "-1");
    assert_eq!(signed_decimal_text(i64::MAX), "9223372036854775807");
    assert_eq!(signed_decimal_text(i64::MIN), "-9223372036854775808");
    for number in [0u64, 9, 10, 99, 100, 101, 65535, 1_700_000_000_000] {
        assert_eq!(decimal_text(number), format!("{}", number));
    }
    for number in [-5i64, -10, -999, 42, -1_700_000_000_000] {
        assert_eq!(signed_decimal_text(number), format!("{}", number));
    }
}

#[test]
fn segment_paths() {
    assert_eq!(segment_path(1, 5, 123), "sstable_1_5_123");
    assert_eq!(segment_path(0, 0, 0), "sstable_0_0_0");
    assert_eq!(segment_path(10, u64::MAX, -7), "sstable_10_18446744073709551615_-7");
}
