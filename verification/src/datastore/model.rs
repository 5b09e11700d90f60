//! The store as a mathematical value, its operations as functions on that
//! value, and what holds of them.

use crate::datastore::index_map::IndexBucket;
use crate::datastore::operation::Operation;
use crate::error::StoreError;
use crate::file::log_handler::{
    apply_index, lemma_append_entries, lemma_append_then_read, lemma_empty_log,
    lemma_entries_located, lemma_newest_wins, log_clean, log_entries, newest, newest_index,
    read_at, replay, Entry,
};
use crate::file::serializer::{encoding, Record, RecordKind};
use vstd::prelude::*;

verus! {

/// The state of a store: its index and the content of its two logs.
pub struct StoreModel {
    pub indexes: Map<Seq<char>, IndexBucket>,
    pub data_log: Seq<u8>,
    pub index_log: Seq<u8>,
}

/// The data record that a put of `val` under `key` at time `now` appends.
pub open spec fn data_record(key: Seq<char>, val: Seq<char>, now: i64) -> Record {
    Record::Data { key, val, operation: Operation::ADD, timestamp: now }
}

/// The index record that journals `operation` on `key`. A `DELETE` carries no
/// place.
pub open spec fn index_record(
    key: Seq<char>,
    offset: u64,
    length: usize,
    operation: Operation,
    now: i64,
) -> Record {
    if operation == Operation::DELETE {
        Record::Index { key, offset: 0, length: 0, operation, timestamp: now }
    } else {
        Record::Index { key, offset, length, operation, timestamp: now }
    }
}

impl StoreModel {
    /// A store with empty logs and no index.
    pub open spec fn empty() -> StoreModel {
        StoreModel { indexes: Map::empty(), data_log: Seq::empty(), index_log: Seq::empty() }
    }

    /// The store after `bytes` were appended to its data log.
    pub open spec fn with_data(self, bytes: Seq<u8>) -> StoreModel {
        StoreModel { data_log: self.data_log + bytes, ..self }
    }

    /// The store after `record` was appended to its index log.
    pub open spec fn with_journal(self, record: Record) -> StoreModel {
        StoreModel { index_log: self.index_log + encoding(record), ..self }
    }

    /// The store after an index operation: the operation is journalled and
    /// applied to the index.
    pub open spec fn update_index(
        self,
        key: Seq<char>,
        offset: u64,
        length: usize,
        operation: Operation,
        now: i64,
    ) -> StoreModel {
        let record = index_record(key, offset, length, operation, now);
        StoreModel {
            indexes: apply_index(self.indexes, record),
            index_log: self.index_log + encoding(record),
            data_log: self.data_log,
        }
    }

    /// The store after a put: the record is appended to the data log, and where
    /// the key is indexed its index moves to the new record.
    pub open spec fn put(self, key: Seq<char>, val: Seq<char>, now: i64) -> StoreModel {
        let record = data_record(key, val, now);
        let appended = self.with_data(encoding(record));
        if self.indexes.contains_key(key) {
            appended.update_index(
                key,
                self.data_log.len() as u64,
                encoding(record).len() as usize,
                Operation::UPDATE,
                now,
            )
        } else {
            appended
        }
    }

    /// The store after the index of `key` was deleted: the deletion is
    /// journalled and the key leaves the index.
    pub open spec fn delete_index(self, key: Seq<char>, now: i64) -> StoreModel {
        self.update_index(key, 0, 0, Operation::DELETE, now)
    }

    /// What creating an index for `key` returns: the place of the newest
    /// record of the key; `AlreadyExists` where the key is indexed, `NotFound`
    /// where the data log holds no record of it.
    pub open spec fn create_index_result(self, key: Seq<char>) -> Result<(u64, usize), StoreError> {
        if self.indexes.contains_key(key) {
            Err(StoreError::AlreadyExists)
        } else {
            match newest(log_entries(RecordKind::Data, self.data_log), key) {
                Some(entry) => Ok((entry.offset as u64, entry.length as usize)),
                None => Err(StoreError::NotFound),
            }
        }
    }

    /// The store after an index was created for `key`: the place of the newest
    /// record of the key is journalled and put into the index. Where creating
    /// the index fails the store is as it was.
    pub open spec fn create_index(self, key: Seq<char>, now: i64) -> StoreModel {
        match self.create_index_result(key) {
            Ok((offset, length)) => self.update_index(key, offset, length, Operation::ADD, now),
            Err(_) => self,
        }
    }

    /// What a get of `key` returns: the record at the key's index, or, where the
    /// key has none, the newest record of the key in the data log.
    pub open spec fn get(self, key: Seq<char>) -> Result<Record, StoreError> {
        if self.indexes.contains_key(key) {
            read_at(
                RecordKind::Data,
                self.data_log,
                self.indexes[key].offset as nat,
                self.indexes[key].length as nat,
            )
        } else {
            match newest(log_entries(RecordKind::Data, self.data_log), key) {
                Some(entry) => Ok(entry.record),
                None => Err(StoreError::NotFound),
            }
        }
    }

    /// The store after its index was rebuilt from its index log.
    pub open spec fn restore(self) -> StoreModel {
        StoreModel { indexes: replay(log_entries(RecordKind::Index, self.index_log)), ..self }
    }

    /// Whether `bucket` is the place of a record of `key` in the data log.
    pub open spec fn locates(self, key: Seq<char>, bucket: IndexBucket) -> bool {
        match read_at(
            RecordKind::Data,
            self.data_log,
            bucket.offset as nat,
            bucket.length as nat,
        ) {
            Ok(record) => record.key() == key,
            Err(_) => false,
        }
    }

    /// Whether every index points at a record of its key.
    pub open spec fn indexes_valid(self) -> bool {
        forall|key: Seq<char>| #[trigger]
            self.indexes.contains_key(key) ==> self.locates(key, self.indexes[key])
    }

    /// Whether the index log is clean and replays to the index in memory.
    pub open spec fn journal_synced(self) -> bool {
        &&& log_clean(RecordKind::Index, self.index_log)
        &&& replay(log_entries(RecordKind::Index, self.index_log)) == self.indexes
    }
}

/// A new store is consistent: it has no index and its journal is empty.
pub proof fn lemma_empty_store()
    ensures
        StoreModel::empty().indexes_valid(),
        StoreModel::empty().journal_synced(),
        log_clean(RecordKind::Data, StoreModel::empty().data_log),
{
    lemma_empty_log(RecordKind::Index);
    lemma_empty_log(RecordKind::Data);
}

/// A record that was read before bytes were appended is read after it too.
pub proof fn lemma_read_survives_append(
    kind: RecordKind,
    bytes: Seq<u8>,
    added: Seq<u8>,
    offset: nat,
    length: nat,
)
    requires
        read_at(kind, bytes, offset, length) is Ok,
    ensures
        read_at(kind, bytes + added, offset, length) == read_at(kind, bytes, offset, length),
{
    assert((bytes + added).subrange(offset as int, (offset + length) as int) =~= bytes.subrange(
        offset as int,
        (offset + length) as int,
    ));
}

/// Journalling an index operation keeps the journal in step with the index.
pub proof fn lemma_update_index_synced(
    s: StoreModel,
    key: Seq<char>,
    offset: u64,
    length: usize,
    operation: Operation,
    now: i64,
)
    requires
        s.journal_synced(),
        s.index_log.len() + encoding(index_record(key, offset, length, operation, now)).len()
            <= u64::MAX,
    ensures
        s.update_index(key, offset, length, operation, now).journal_synced(),
{
    let record = index_record(key, offset, length, operation, now);
    lemma_append_entries(RecordKind::Index, s.index_log, record);
    let before = log_entries(RecordKind::Index, s.index_log);
    let entry = Entry { record, offset: s.index_log.len(), length: encoding(record).len() };
    assert(before.push(entry).drop_last() =~= before);
}

/// An index operation keeps every index pointing at a record of its key,
/// where the place that it records is one.
pub proof fn lemma_update_index_valid(
    s: StoreModel,
    key: Seq<char>,
    offset: u64,
    length: usize,
    operation: Operation,
    now: i64,
)
    requires
        s.indexes_valid(),
        operation != Operation::DELETE ==> s.locates(key, IndexBucket { offset, length }),
    ensures
        s.update_index(key, offset, length, operation, now).indexes_valid(),
{
    let after = s.update_index(key, offset, length, operation, now);
    assert forall|k: Seq<char>| #[trigger] after.indexes.contains_key(k) implies after.locates(
        k,
        after.indexes[k],
    ) by {
        if k != key {
            assert(s.indexes.contains_key(k));
            assert(s.locates(k, s.indexes[k]));
        }
    }
}

/// Appending to the data log keeps every index pointing at a record of its key.
pub proof fn lemma_with_data_valid(s: StoreModel, bytes: Seq<u8>)
    requires
        s.indexes_valid(),
    ensures
        s.with_data(bytes).indexes_valid(),
{
    let after = s.with_data(bytes);
    assert forall|k: Seq<char>| #[trigger] after.indexes.contains_key(k) implies after.locates(
        k,
        after.indexes[k],
    ) by {
        assert(s.locates(k, s.indexes[k]));
        lemma_read_survives_append(
            RecordKind::Data,
            s.data_log,
            bytes,
            s.indexes[k].offset as nat,
            s.indexes[k].length as nat,
        );
    }
}

/// A put keeps the store consistent: every index still points at a record of
/// its key, the journal still replays to the index, and a clean data log
/// stays clean.
pub proof fn lemma_put_consistent(s: StoreModel, key: Seq<char>, val: Seq<char>, now: i64)
    requires
        s.put(key, val, now).data_log.len() <= usize::MAX,
        s.put(key, val, now).index_log.len() <= usize::MAX,
    ensures
        s.indexes_valid() ==> s.put(key, val, now).indexes_valid(),
        s.journal_synced() ==> s.put(key, val, now).journal_synced(),
        log_clean(RecordKind::Data, s.data_log) ==> log_clean(
            RecordKind::Data,
            s.put(key, val, now).data_log,
        ),
{
    let record = data_record(key, val, now);
    let appended = s.with_data(encoding(record));
    let offset = s.data_log.len() as u64;
    let length = encoding(record).len() as usize;
    if s.indexes_valid() {
        lemma_with_data_valid(s, encoding(record));
        if s.indexes.contains_key(key) {
            lemma_append_then_read(RecordKind::Data, s.data_log, record);
            lemma_update_index_valid(appended, key, offset, length, Operation::UPDATE, now);
        }
    }
    if s.journal_synced() {
        if s.indexes.contains_key(key) {
            lemma_update_index_synced(appended, key, offset, length, Operation::UPDATE, now);
        }
    }
    if log_clean(RecordKind::Data, s.data_log) {
        lemma_append_entries(RecordKind::Data, s.data_log, record);
    }
}

/// The last put wins: a get of a key after a put under that key returns the
/// record of that put, whether or not the key is indexed. For a key without
/// index this needs a clean data log in which no record of the key is later
/// than the put.
pub proof fn lemma_put_then_get(s: StoreModel, key: Seq<char>, val: Seq<char>, now: i64)
    requires
        s.data_log.len() + encoding(data_record(key, val, now)).len() <= usize::MAX,
        !s.indexes.contains_key(key) ==> log_clean(RecordKind::Data, s.data_log),
        !s.indexes.contains_key(key) ==> forall|i: int|
            0 <= i < log_entries(RecordKind::Data, s.data_log).len() && #[trigger] log_entries(
                RecordKind::Data,
                s.data_log,
            )[i].record.key() == key ==> log_entries(
                RecordKind::Data,
                s.data_log,
            )[i].record.timestamp() <= now,
    ensures
        s.put(key, val, now).get(key) == Ok::<Record, StoreError>(data_record(key, val, now)),
{
    let record = data_record(key, val, now);
    if s.indexes.contains_key(key) {
        lemma_append_then_read(RecordKind::Data, s.data_log, record);
    } else {
        lemma_append_entries(RecordKind::Data, s.data_log, record);
        let before = log_entries(RecordKind::Data, s.data_log);
        let entry = Entry { record, offset: s.data_log.len(), length: encoding(record).len() };
        let after = before.push(entry);
        assert(after.drop_last() =~= before);
        lemma_newest_wins(before, key);
        match newest_index(before, key) {
            Some(i) => {
                assert(before[i].record.timestamp() <= now);
                assert(after[i] == before[i]);
            },
            None => {},
        }
    }
}

/// Of two puts under one key without index, the scanner returns the second,
/// which lies at the greater offset, where the clock did not run backwards.
pub proof fn lemma_scanner_newest_wins(
    bytes: Seq<u8>,
    key: Seq<char>,
    val1: Seq<char>,
    now1: i64,
    val2: Seq<char>,
    now2: i64,
)
    requires
        log_clean(RecordKind::Data, bytes),
        now1 <= now2,
        bytes.len() + encoding(data_record(key, val1, now1)).len() + encoding(
            data_record(key, val2, now2),
        ).len() <= usize::MAX,
        forall|i: int|
            0 <= i < log_entries(RecordKind::Data, bytes).len() && #[trigger] log_entries(
                RecordKind::Data,
                bytes,
            )[i].record.key() == key ==> log_entries(RecordKind::Data, bytes)[i].record.timestamp()
                <= now2,
    ensures
        newest(
            log_entries(
                RecordKind::Data,
                bytes + encoding(data_record(key, val1, now1)) + encoding(
                    data_record(key, val2, now2),
                ),
            ),
            key,
        ) == Some(
            Entry {
                record: data_record(key, val2, now2),
                offset: bytes.len() + encoding(data_record(key, val1, now1)).len(),
                length: encoding(data_record(key, val2, now2)).len(),
            },
        ),
        bytes.len() + encoding(data_record(key, val1, now1)).len() >= bytes.len(),
{
    let first = data_record(key, val1, now1);
    let second = data_record(key, val2, now2);
    lemma_append_entries(RecordKind::Data, bytes, first);
    let middle = bytes + encoding(first);
    lemma_append_entries(RecordKind::Data, middle, second);
    let entries0 = log_entries(RecordKind::Data, bytes);
    let entry1 = Entry { record: first, offset: bytes.len(), length: encoding(first).len() };
    let entries1 = entries0.push(entry1);
    let entry2 = Entry { record: second, offset: middle.len(), length: encoding(second).len() };
    let entries2 = entries1.push(entry2);
    assert(entries2.drop_last() =~= entries1);
    lemma_newest_wins(entries1, key);
    match newest_index(entries1, key) {
        Some(i) => {
            if i < entries0.len() {
                assert(entries1[i] == entries0[i]);
            }
            assert(entries2[i] == entries1[i]);
        },
        None => {},
    }
}

/// The newest record of a key lies where the scanner says: reading at that
/// place gives a record of the key.
pub proof fn lemma_newest_located(bytes: Seq<u8>, key: Seq<char>)
    requires
        bytes.len() <= usize::MAX,
    ensures
        match newest(log_entries(RecordKind::Data, bytes), key) {
            Some(entry) => {
                &&& entry.record.key() == key
                &&& entry.offset + entry.length <= bytes.len()
                &&& read_at(
                    RecordKind::Data,
                    bytes,
                    entry.offset,
                    entry.length,
                ) == Ok::<Record, StoreError>(entry.record)
            },
            None => true,
        },
{
    let entries = log_entries(RecordKind::Data, bytes);
    lemma_newest_wins(entries, key);
    match newest_index(entries, key) {
        Some(i) => {
            lemma_entries_located(RecordKind::Data, bytes, 0, i);
        },
        None => {},
    }
}

/// Creating an index changes nothing that a get sees: the index points at the
/// record that the scanner finds.
pub proof fn lemma_create_index_keeps_get(s: StoreModel, key: Seq<char>, now: i64)
    requires
        s.data_log.len() <= usize::MAX,
        !s.indexes.contains_key(key),
        newest(log_entries(RecordKind::Data, s.data_log), key) is Some,
    ensures
        ({
            let entry = newest(log_entries(RecordKind::Data, s.data_log), key).unwrap();
            s.update_index(
                key,
                entry.offset as u64,
                entry.length as usize,
                Operation::ADD,
                now,
            ).get(key) == s.get(key)
        }),
{
    lemma_newest_located(s.data_log, key);
}

/// Creating an index keeps the store consistent: every index still points at
/// a record of its key, and the journal still replays to the index.
pub proof fn lemma_create_index_consistent(s: StoreModel, key: Seq<char>, now: i64)
    requires
        s.data_log.len() <= usize::MAX,
        s.create_index(key, now).index_log.len() <= usize::MAX,
    ensures
        s.indexes_valid() ==> s.create_index(key, now).indexes_valid(),
        s.journal_synced() ==> s.create_index(key, now).journal_synced(),
{
    lemma_newest_located(s.data_log, key);
    match s.create_index_result(key) {
        Ok((offset, length)) => {
            if s.indexes_valid() {
                lemma_update_index_valid(s, key, offset, length, Operation::ADD, now);
            }
            if s.journal_synced() {
                lemma_update_index_synced(s, key, offset, length, Operation::ADD, now);
            }
        },
        Err(_) => {},
    }
}

/// Replay is deterministic: rebuilding the index twice gives what rebuilding it
/// once gives.
pub proof fn lemma_restore_twice(s: StoreModel)
    ensures
        s.restore().restore() == s.restore(),
{
}

/// Recovery: where the journal is in step with the index, rebuilding the index
/// from the journal gives the store back.
pub proof fn lemma_restore_recovers(s: StoreModel)
    requires
        s.journal_synced(),
    ensures
        s.restore() == s,
{
}

/// Deleting an index leaves a smaller index, or the same where the key had
/// none.
pub proof fn lemma_delete_index_shrinks(s: StoreModel, key: Seq<char>, now: i64)
    requires
        s.indexes.dom().finite(),
    ensures
        s.update_index(key, 0, 0, Operation::DELETE, now).indexes == s.indexes.remove(key),
        s.indexes.contains_key(key) ==> s.update_index(
            key,
            0,
            0,
            Operation::DELETE,
            now,
        ).indexes.len() == s.indexes.len() - 1,
        !s.indexes.contains_key(key) ==> s.update_index(
            key,
            0,
            0,
            Operation::DELETE,
            now,
        ).indexes == s.indexes,
{
    if !s.indexes.contains_key(key) {
        assert(s.indexes.remove(key) =~= s.indexes);
    }
}

} // verus!
