//! What holds of every store that was made by operations on a new store.

use crate::datastore::index_map::IndexBucket;
use crate::datastore::model::{
    data_record, lemma_create_index_consistent, lemma_empty_store, lemma_newest_located,
    lemma_put_consistent, lemma_update_index_synced, lemma_update_index_valid, StoreModel,
};
use crate::datastore::operation::Operation;
use crate::error::StoreError;
use crate::file::log_handler::{
    lemma_append_entries, lemma_newest_wins, log_clean, log_entries, newest, newest_index, Entry,
};
use crate::file::serializer::{encoding, Record, RecordKind};
use vstd::prelude::*;

verus! {

/// An operation on a store, with the time at which it runs.
pub enum StoreOp {
    Put { key: Seq<char>, val: Seq<char>, now: i64 },
    CreateIndex { key: Seq<char>, now: i64 },
    DeleteIndex { key: Seq<char>, now: i64 },
    RestoreIndexes,
}

impl StoreModel {
    /// The store after one operation.
    pub open spec fn apply(self, op: StoreOp) -> StoreModel {
        match op {
            StoreOp::Put { key, val, now } => self.put(key, val, now),
            StoreOp::CreateIndex { key, now } => self.create_index(key, now),
            StoreOp::DeleteIndex { key, now } => self.delete_index(key, now),
            StoreOp::RestoreIndexes => self.restore(),
        }
    }

    /// The store after a list of operations, the first first.
    pub open spec fn run(self, ops: Seq<StoreOp>) -> StoreModel
        decreases ops.len(),
    {
        if ops.len() == 0 {
            self
        } else {
            self.run(ops.drop_last()).apply(ops.last())
        }
    }

    /// Whether both logs fit into memory.
    pub open spec fn fits(self) -> bool {
        self.data_log.len() <= usize::MAX && self.index_log.len() <= usize::MAX
    }

    /// Whether every index points at the newest record of its key.
    pub open spec fn indexes_current(self) -> bool {
        forall|key: Seq<char>| #[trigger]
            self.indexes.contains_key(key) ==> {
                &&& newest(log_entries(RecordKind::Data, self.data_log), key) is Some
                &&& self.indexes[key] == (IndexBucket {
                    offset: newest(
                        log_entries(RecordKind::Data, self.data_log),
                        key,
                    ).unwrap().offset as u64,
                    length: newest(
                        log_entries(RecordKind::Data, self.data_log),
                        key,
                    ).unwrap().length as usize,
                })
            }
    }
}

/// The data records that a list of operations puts, in their order.
pub open spec fn puts_of(ops: Seq<StoreOp>) -> Seq<Record>
    decreases ops.len(),
{
    if ops.len() == 0 {
        Seq::empty()
    } else {
        match ops.last() {
            StoreOp::Put { key, val, now } => puts_of(ops.drop_last()).push(
                data_record(key, val, now),
            ),
            _ => puts_of(ops.drop_last()),
        }
    }
}

/// The last of `records` that has the key.
pub open spec fn last_of(records: Seq<Record>, key: Seq<char>) -> Option<Record>
    decreases records.len(),
{
    if records.len() == 0 {
        None
    } else if records.last().key() == key {
        Some(records.last())
    } else {
        last_of(records.drop_last(), key)
    }
}

/// Whether no record carries an earlier time than one before it.
pub open spec fn times_grow(records: Seq<Record>) -> bool {
    forall|i: int, j: int|
        0 <= i < j < records.len() ==> records[i].timestamp() <= records[j].timestamp()
}

/// Whether `entries` holds the records `records`, in their order.
pub open spec fn holds_records(entries: Seq<Entry>, records: Seq<Record>) -> bool {
    &&& entries.len() == records.len()
    &&& forall|i: int| 0 <= i < entries.len() ==> (#[trigger] entries[i]).record == records[i]
}

/// An operation shortens no log.
pub proof fn lemma_logs_grow(s: StoreModel, op: StoreOp)
    ensures
        s.data_log.len() <= s.apply(op).data_log.len(),
        s.index_log.len() <= s.apply(op).index_log.len(),
{
}

/// A record of another key changes nothing in what is the newest of a key.
pub proof fn lemma_newest_other_key(entries: Seq<Entry>, entry: Entry, key: Seq<char>)
    requires
        entry.record.key() != key,
    ensures
        newest(entries.push(entry), key) == newest(entries, key),
{
    let grown = entries.push(entry);
    assert(grown.drop_last() =~= entries);
    lemma_newest_wins(entries, key);
    match newest_index(entries, key) {
        Some(i) => {
            assert(grown[i] == entries[i]);
        },
        None => {},
    }
}

/// A record that is no earlier than the records of its key before it is the
/// newest of its key.
pub proof fn lemma_newest_pushed(entries: Seq<Entry>, entry: Entry)
    requires
        forall|i: int|
            0 <= i < entries.len() ==> (#[trigger] entries[i]).record.timestamp()
                <= entry.record.timestamp(),
    ensures
        newest(entries.push(entry), entry.record.key()) == Some(entry),
{
    let grown = entries.push(entry);
    assert(grown.drop_last() =~= entries);
    lemma_newest_wins(entries, entry.record.key());
    match newest_index(entries, entry.record.key()) {
        Some(i) => {
            assert(grown[i] == entries[i]);
        },
        None => {},
    }
}

/// Where the times grow, the newest record of a key is the last record of the
/// key.
pub proof fn lemma_newest_is_last(entries: Seq<Entry>, records: Seq<Record>, key: Seq<char>)
    requires
        holds_records(entries, records),
        times_grow(records),
    ensures
        match newest(entries, key) {
            Some(entry) => last_of(records, key) == Some(entry.record),
            None => last_of(records, key) is None,
        },
    decreases entries.len(),
{
    if entries.len() > 0 {
        let front = entries.drop_last();
        let fewer = records.drop_last();
        assert(holds_records(front, fewer)) by {
            assert forall|i: int| 0 <= i < front.len() implies (#[trigger] front[i]).record
                == fewer[i] by {
                assert(entries[i].record == records[i]);
            }
        }
        assert(times_grow(fewer)) by {
            assert forall|i: int, j: int| 0 <= i < j < fewer.len() implies fewer[i].timestamp()
                <= fewer[j].timestamp() by {
                assert(records[i].timestamp() <= records[j].timestamp());
            }
        }
        lemma_newest_is_last(front, fewer, key);
        lemma_newest_wins(front, key);
        let last = entries.last();
        assert(last.record == records.last());
        if last.record.key() == key {
            match newest_index(front, key) {
                Some(i) => {
                    assert(entries[i] == front[i]);
                    assert(entries[i].record == records[i]);
                    assert(records[i].timestamp() <= records[records.len() - 1].timestamp());
                },
                None => {},
            }
        } else {
            match newest_index(front, key) {
                Some(i) => {
                    assert(entries[i] == front[i]);
                },
                None => {},
            }
        }
    }
}

/// Whether a store is consistent with the operations that made it: its logs
/// are clean and fit into memory, its journal replays to its index, every
/// index points at the newest record of its key, and the data log holds the
/// records that were put, in their order.
pub open spec fn consistent_with(s: StoreModel, ops: Seq<StoreOp>) -> bool {
    &&& s.fits()
    &&& log_clean(RecordKind::Data, s.data_log)
    &&& s.journal_synced()
    &&& s.indexes_valid()
    &&& s.indexes_current()
    &&& holds_records(log_entries(RecordKind::Data, s.data_log), puts_of(ops))
}

/// Every store that operations made of a new store is consistent with them,
/// where the clock did not run backwards between two puts and the logs fit
/// into memory.
pub proof fn lemma_history(ops: Seq<StoreOp>)
    requires
        StoreModel::empty().run(ops).fits(),
        times_grow(puts_of(ops)),
    ensures
        consistent_with(StoreModel::empty().run(ops), ops),
    decreases ops.len(),
{
    let s = StoreModel::empty().run(ops);
    if ops.len() == 0 {
        lemma_empty_store();
        crate::file::log_handler::lemma_empty_log(RecordKind::Data);
    } else {
        let before_ops = ops.drop_last();
        let before = StoreModel::empty().run(before_ops);
        let op = ops.last();
        lemma_logs_grow(before, op);
        let records = puts_of(ops);
        let fewer = puts_of(before_ops);
        assert(times_grow(fewer)) by {
            assert forall|i: int, j: int| 0 <= i < j < fewer.len() implies fewer[i].timestamp()
                <= fewer[j].timestamp() by {
                assert(records[i] == fewer[i]);
                assert(records[j] == fewer[j]);
                assert(records[i].timestamp() <= records[j].timestamp());
            }
        }
        lemma_history(before_ops);
        let entries = log_entries(RecordKind::Data, before.data_log);
        match op {
            StoreOp::Put { key, val, now } => {
                let record = data_record(key, val, now);
                let entry = Entry {
                    record,
                    offset: before.data_log.len(),
                    length: encoding(record).len(),
                };
                lemma_put_consistent(before, key, val, now);
                lemma_append_entries(RecordKind::Data, before.data_log, record);
                let grown = entries.push(entry);
                assert(records == fewer.push(record));
                assert forall|i: int| 0 <= i < entries.len() implies (#[trigger] entries[i]).record.timestamp()
                    <= now by {
                    assert(entries[i].record == records[i]);
                    assert(records[i].timestamp() <= records[records.len() - 1].timestamp());
                }
                lemma_newest_pushed(entries, entry);
                assert forall|k: Seq<char>| #[trigger] s.indexes.contains_key(k) implies {
                    &&& newest(grown, k) is Some
                    &&& s.indexes[k] == (IndexBucket {
                        offset: newest(grown, k).unwrap().offset as u64,
                        length: newest(grown, k).unwrap().length as usize,
                    })
                } by {
                    if k != key {
                        lemma_newest_other_key(entries, entry, k);
                        assert(before.indexes.contains_key(k));
                    }
                }
            },
            StoreOp::CreateIndex { key, now } => {
                lemma_create_index_consistent(before, key, now);
                assert forall|k: Seq<char>| #[trigger] s.indexes.contains_key(k) implies {
                    &&& newest(entries, k) is Some
                    &&& s.indexes[k] == (IndexBucket {
                        offset: newest(entries, k).unwrap().offset as u64,
                        length: newest(entries, k).unwrap().length as usize,
                    })
                } by {
                    if k != key {
                        assert(before.indexes.contains_key(k));
                    }
                }
            },
            StoreOp::DeleteIndex { key, now } => {
                lemma_update_index_synced(before, key, 0, 0, Operation::DELETE, now);
                lemma_update_index_valid(before, key, 0, 0, Operation::DELETE, now);
                assert forall|k: Seq<char>| #[trigger] s.indexes.contains_key(k) implies {
                    &&& newest(entries, k) is Some
                    &&& s.indexes[k] == (IndexBucket {
                        offset: newest(entries, k).unwrap().offset as u64,
                        length: newest(entries, k).unwrap().length as usize,
                    })
                } by {
                    assert(before.indexes.contains_key(k));
                }
            },
            StoreOp::RestoreIndexes => {
                assert(s == before);
            },
        }
    }
}

/// Whether a store is sound: its logs fit into memory, its data log is clean,
/// its journal replays to its index, and every index points at a record of
/// its key.
pub open spec fn sound(s: StoreModel) -> bool {
    &&& s.fits()
    &&& log_clean(RecordKind::Data, s.data_log)
    &&& s.journal_synced()
    &&& s.indexes_valid()
}

/// Every store that operations made of a new store is sound, whatever the
/// clock read, where its logs fit into memory.
pub proof fn lemma_history_sound(ops: Seq<StoreOp>)
    requires
        StoreModel::empty().run(ops).fits(),
    ensures
        sound(StoreModel::empty().run(ops)),
    decreases ops.len(),
{
    if ops.len() == 0 {
        lemma_empty_store();
    } else {
        let before = StoreModel::empty().run(ops.drop_last());
        lemma_logs_grow(before, ops.last());
        lemma_history_sound(ops.drop_last());
        match ops.last() {
            StoreOp::Put { key, val, now } => {
                lemma_put_consistent(before, key, val, now);
            },
            StoreOp::CreateIndex { key, now } => {
                lemma_create_index_consistent(before, key, now);
            },
            StoreOp::DeleteIndex { key, now } => {
                lemma_update_index_synced(before, key, 0, 0, Operation::DELETE, now);
                lemma_update_index_valid(before, key, 0, 0, Operation::DELETE, now);
            },
            StoreOp::RestoreIndexes => {
                assert(before.restore() == before);
            },
        }
    }
}

/// Every index of a store that operations made points at a record of its key:
/// reading at the place that the index holds gives a record with the key.
pub proof fn lemma_history_indexes_valid(ops: Seq<StoreOp>, key: Seq<char>)
    requires
        StoreModel::empty().run(ops).fits(),
        StoreModel::empty().run(ops).indexes.contains_key(key),
    ensures
        StoreModel::empty().run(ops).locates(
            key,
            StoreModel::empty().run(ops).indexes[key],
        ),
{
    lemma_history_sound(ops);
}

/// The last put wins: in a store that operations made, a get of a key returns
/// the record of the last put under the key, whether or not the key is
/// indexed, and fails with `NotFound` where nothing was put under the key.
pub proof fn lemma_last_put_wins(ops: Seq<StoreOp>, key: Seq<char>)
    requires
        StoreModel::empty().run(ops).fits(),
        times_grow(puts_of(ops)),
    ensures
        StoreModel::empty().run(ops).get(key) == match last_of(puts_of(ops), key) {
            Some(record) => Ok::<Record, StoreError>(record),
            None => Err::<Record, StoreError>(StoreError::NotFound),
        },
{
    let s = StoreModel::empty().run(ops);
    lemma_history(ops);
    lemma_newest_is_last(log_entries(RecordKind::Data, s.data_log), puts_of(ops), key);
    lemma_newest_located(s.data_log, key);
}

} // verus!
