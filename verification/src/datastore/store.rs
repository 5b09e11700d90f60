//! The store engine: puts, gets and the index with its journal.

use crate::clock::now_ms;
use crate::datastore::config::DBConfig;
use crate::datastore::data::DBData;
use crate::datastore::index::DBIndex;
pub use crate::datastore::index_map::{IndexBucket, IndexMap};
use crate::datastore::indexable::Indexable;
use crate::datastore::model::{
    data_record, index_record, lemma_create_index_consistent, lemma_newest_located,
    lemma_put_consistent, lemma_update_index_synced, lemma_update_index_valid, StoreModel,
};
use crate::datastore::operation::Operation;
use crate::error::StoreError;
use crate::file::log_handler::{log_clean, read, restore_indexes, scan, LogFile};
use crate::file::serializer::{encoding, Record, RecordKind};
use vstd::prelude::*;

verus! {

/// A key/value store on an append-only data log, with an index in memory that
/// is journalled in an index log.
#[derive(Debug)]
pub struct DBStore {
    pub config: DBConfig,
    pub indexes: IndexMap,
    /// The content of the file at `config.log_path_db`.
    pub data_log: LogFile,
    /// The content of the file at `config.log_path_index`.
    pub index_log: LogFile,
}

impl View for DBStore {
    type V = StoreModel;

    open spec fn view(&self) -> StoreModel {
        StoreModel {
            indexes: self.indexes@,
            data_log: self.data_log@,
            index_log: self.index_log@,
        }
    }
}

impl DBStore {
    /// A store with empty logs and no index.
    pub fn new(config: DBConfig) -> (store: Self)
        ensures
            store.config == config,
            store@ == StoreModel::empty(),
    {
        Self {
            config,
            indexes: IndexMap::new(),
            data_log: LogFile::new(),
            index_log: LogFile::new(),
        }
    }

    /// Puts `val` under `key`, stamped with the time of the call. See
    /// [`DBStore::put_at`].
    pub fn put(&mut self, key: String, val: String) -> (r: Result<(u64, usize), StoreError>)
        ensures
            final(self).config == old(self).config,
            exists|now: i64|
                {
                    &&& final(self)@ == #[trigger] old(self)@.put(key@, val@, now)
                    &&& r matches Ok(place) && place.0 == old(self)@.data_log.len() && place.1
                        == encoding(data_record(key@, val@, now)).len()
                },
            old(self)@.indexes_valid() ==> final(self)@.indexes_valid(),
            old(self)@.journal_synced() ==> final(self)@.journal_synced(),
            log_clean(RecordKind::Data, old(self)@.data_log) ==> log_clean(
                RecordKind::Data,
                final(self)@.data_log,
            ),
    {
        let now: i64 = now_ms();
        self.put_at(key, val, now)
    }

    /// Puts `val` under `key` at the time `now`: appends the record to the data
    /// log and, where the key is indexed, journals the record's place and then
    /// moves the index to it. Returns the place of the record: the old length
    /// of the data log and the number of the record's bytes. A put never fails.
    pub fn put_at(&mut self, key: String, val: String, now: i64) -> (r: Result<
        (u64, usize),
        StoreError,
    >)
        ensures
            final(self).config == old(self).config,
            final(self)@ == old(self)@.put(key@, val@, now),
            r matches Ok(place) && place.0 == old(self)@.data_log.len() && place.1 == encoding(
                data_record(key@, val@, now),
            ).len(),
            old(self)@.indexes_valid() ==> final(self)@.indexes_valid(),
            old(self)@.journal_synced() ==> final(self)@.journal_synced(),
            log_clean(RecordKind::Data, old(self)@.data_log) ==> log_clean(
                RecordKind::Data,
                final(self)@.data_log,
            ),
    {
        let data: DBData = DBData::new(key, val, Operation::ADD, now);
        let (offset, length) = crate::file::log_handler::write::<DBData>(
            &mut self.data_log,
            &data,
        )?;
        if self.indexes.contains_key(data.key()) {
            self.update_index_at(data.key(), offset, length, Operation::UPDATE, now)?;
        }
        proof {
            self.data_log.lemma_fits();
            self.index_log.lemma_fits();
            lemma_put_consistent(old(self)@, data@.key(), data.val@, now);
        }
        Ok((offset, length))
    }

    /// Gets the newest record of `key`: where the key is indexed, the record at
    /// its index; otherwise the newest record of the key in the data log.
    /// Fails with `NotFound` where the key has no index and no record, with
    /// `Corrupt` where its index points outside the data log, and with `Decode`
    /// where no record begins at its index.
    pub fn get(&self, key: &str) -> (r: Result<DBData, StoreError>)
        ensures
            match r {
                Ok(data) => self@.get(key@) == Ok::<Record, StoreError>(data@),
                Err(e) => self@.get(key@) == Err::<Record, StoreError>(e),
            },
    {
        match self.indexes.get(key) {
            Some(bucket) => read::<DBData>(&self.data_log, bucket.offset, bucket.length),
            None => match scan::<DBData>(&self.data_log, key) {
                Ok(Some((data, _, _))) => Ok(data),
                Ok(None) => Err(StoreError::NotFound),
                Err(err) => Err(err),
            },
        }
    }

    /// Rebuilds the index from the index log: the index is replaced by what
    /// the records of the log build, read up to the first place where no record
    /// begins.
    pub fn restore_indexes(&mut self)
        ensures
            final(self).config == old(self).config,
            final(self)@ == old(self)@.restore(),
    {
        match restore_indexes(&self.index_log) {
            Ok(indexes) => {
                self.indexes = indexes;
            },
            Err(_) => {},
        }
    }

    /// Creates an index for `key`, stamped with the time of the call. See
    /// [`DBStore::create_index_at`].
    pub fn create_index(&mut self, key: &str) -> (r: Result<(u64, usize), StoreError>)
        ensures
            final(self).config == old(self).config,
            r == old(self)@.create_index_result(key@),
            exists|now: i64| final(self)@ == #[trigger] old(self)@.create_index(key@, now),
            old(self)@.indexes_valid() ==> final(self)@.indexes_valid(),
            old(self)@.journal_synced() ==> final(self)@.journal_synced(),
    {
        let now: i64 = now_ms();
        self.create_index_at(key, now)
    }

    /// Creates an index for `key` at the time `now`: finds the newest record of
    /// the key in the data log, journals its place, puts it into the index and
    /// returns it. Fails with `AlreadyExists` where the key is indexed and with
    /// `NotFound` where the data log holds no record of it; the store is then
    /// as it was. It succeeds wherever the key has a record and no index.
    pub fn create_index_at(&mut self, key: &str, now: i64) -> (r: Result<(u64, usize), StoreError>)
        ensures
            final(self).config == old(self).config,
            r == old(self)@.create_index_result(key@),
            final(self)@ == old(self)@.create_index(key@, now),
            old(self)@.indexes_valid() ==> final(self)@.indexes_valid(),
            old(self)@.journal_synced() ==> final(self)@.journal_synced(),
    {
        if self.indexes.contains_key(key) {
            return Err(StoreError::AlreadyExists);
        }
        proof {
            self.data_log.lemma_fits();
            self.index_log.lemma_fits();
            lemma_newest_located(self.data_log@, key@);
        }
        match scan::<DBData>(&self.data_log, key) {
            Ok(Some((data, offset, length))) => {
                self.update_index_at(data.key(), offset, length, Operation::ADD, now)?;
                proof {
                    self.index_log.lemma_fits();
                    lemma_create_index_consistent(old(self)@, key@, now);
                }
                Ok((offset, length))
            },
            Ok(None) => Err(StoreError::NotFound),
            Err(err) => Err(err),
        }
    }

    /// Appends an index record, stamped with the time of the call, to the
    /// index log. See [`DBStore::write_index_log_at`].
    pub fn write_index_log(
        &mut self,
        key: &str,
        offset: u64,
        length: usize,
        operation: Operation,
    ) -> (r: Result<(), StoreError>)
        ensures
            final(self).config == old(self).config,
            r is Ok,
            exists|now: i64|
                final(self)@ == #[trigger] old(self)@.with_journal(
                    Record::Index { key: key@, offset, length, operation, timestamp: now },
                ),
    {
        let now: i64 = now_ms();
        self.write_index_log_at(key, offset, length, operation, now)
    }

    /// Appends the index record of these fields to the index log. The index in
    /// memory and the data log are not touched. Appending never fails.
    pub fn write_index_log_at(
        &mut self,
        key: &str,
        offset: u64,
        length: usize,
        operation: Operation,
        now: i64,
    ) -> (r: Result<(), StoreError>)
        ensures
            final(self).config == old(self).config,
            r is Ok,
            final(self)@ == old(self)@.with_journal(
                Record::Index { key: key@, offset, length, operation, timestamp: now },
            ),
    {
        let index = DBIndex::new(key.to_owned(), offset, length, operation, now);
        crate::file::log_handler::write::<DBIndex>(&mut self.index_log, &index)?;
        Ok(())
    }

    /// Applies an index operation, stamped with the time of the call. See
    /// [`DBStore::update_index_at`].
    pub fn update_index(
        &mut self,
        key: &str,
        offset: u64,
        length: usize,
        operation: Operation,
    ) -> (r: Result<(), StoreError>)
        ensures
            final(self).config == old(self).config,
            r is Ok,
            final(self)@.indexes == (if operation == Operation::DELETE {
                old(self)@.indexes.remove(key@)
            } else {
                old(self)@.indexes.insert(key@, IndexBucket { offset, length })
            }),
            exists|now: i64|
                final(self)@ == #[trigger] old(self)@.update_index(
                    key@,
                    offset,
                    length,
                    operation,
                    now,
                ),
            old(self)@.journal_synced() ==> final(self)@.journal_synced(),
            old(self)@.indexes_valid() && (operation != Operation::DELETE ==> old(self)@.locates(
                key@,
                IndexBucket { offset, length },
            )) ==> final(self)@.indexes_valid(),
    {
        let now: i64 = now_ms();
        self.update_index_at(key, offset, length, operation, now)
    }

    /// Applies an index operation at the time `now`. The operation is journalled
    /// first and applied to the index in memory second: `ADD` and `UPDATE` put
    /// the place under the key, `DELETE` removes the key and journals no place.
    /// The operation never fails.
    pub fn update_index_at(
        &mut self,
        key: &str,
        offset: u64,
        length: usize,
        operation: Operation,
        now: i64,
    ) -> (r: Result<(), StoreError>)
        ensures
            final(self).config == old(self).config,
            r is Ok,
            final(self)@ == old(self)@.update_index(key@, offset, length, operation, now),
            final(self)@.index_log == old(self)@.index_log + encoding(
                index_record(key@, offset, length, operation, now),
            ),
            final(self)@.indexes == (if operation == Operation::DELETE {
                old(self)@.indexes.remove(key@)
            } else {
                old(self)@.indexes.insert(key@, IndexBucket { offset, length })
            }),
            old(self)@.journal_synced() ==> final(self)@.journal_synced(),
            old(self)@.indexes_valid() && (operation != Operation::DELETE ==> old(self)@.locates(
                key@,
                IndexBucket { offset, length },
            )) ==> final(self)@.indexes_valid(),
    {
        match operation {
            Operation::ADD | Operation::UPDATE => {
                self.write_index_log_at(key, offset, length, operation, now)?;
                self.indexes.insert(key.to_owned(), IndexBucket { offset, length });
            },
            Operation::DELETE => {
                self.write_index_log_at(key, 0, 0, operation, now)?;
                self.indexes.remove(key);
            },
        }
        proof {
            self.index_log.lemma_fits();
            if old(self)@.journal_synced() {
                lemma_update_index_synced(old(self)@, key@, offset, length, operation, now);
            }
            if old(self)@.indexes_valid() && (operation != Operation::DELETE ==> old(self)@.locates(
                key@,
                IndexBucket { offset, length },
            )) {
                lemma_update_index_valid(old(self)@, key@, offset, length, operation, now);
            }
        }
        Ok(())
    }

    /// Deletes the index of `key`, stamped with the time of the call. See
    /// [`DBStore::delete_index_at`].
    pub fn delete_index(&mut self, key: &str) -> (r: Result<(), StoreError>)
        ensures
            final(self).config == old(self).config,
            r is Ok,
            final(self)@.indexes == old(self)@.indexes.remove(key@),
            final(self)@.data_log == old(self)@.data_log,
            exists|now: i64| final(self)@ == #[trigger] old(self)@.delete_index(key@, now),
            !old(self)@.indexes.contains_key(key@) ==> final(self)@.indexes == old(self)@.indexes,
            old(self)@.indexes.contains_key(key@) ==> final(self)@.indexes.len() + 1 == old(self)@.indexes.len(),
            old(self)@.journal_synced() ==> final(self)@.journal_synced(),
            old(self)@.indexes_valid() ==> final(self)@.indexes_valid(),
    {
        let now: i64 = now_ms();
        self.delete_index_at(key, now)
    }

    /// Deletes the index of `key` at the time `now`: journals the deletion and
    /// then removes the key from the index. Deleting the index of a key that has
    /// none changes nothing in the index and is no error: the operation never
    /// fails.
    pub fn delete_index_at(&mut self, key: &str, now: i64) -> (r: Result<(), StoreError>)
        ensures
            final(self).config == old(self).config,
            r is Ok,
            final(self)@ == old(self)@.delete_index(key@, now),
            final(self)@.indexes == old(self)@.indexes.remove(key@),
            !old(self)@.indexes.contains_key(key@) ==> final(self)@.indexes == old(self)@.indexes,
            old(self)@.indexes.contains_key(key@) ==> final(self)@.indexes.len() + 1 == old(self)@.indexes.len(),
            old(self)@.journal_synced() ==> final(self)@.journal_synced(),
            old(self)@.indexes_valid() ==> final(self)@.indexes_valid(),
    {
        proof {
            self.indexes.lemma_finite();
        }
        let r = self.update_index_at(key, 0, 0, Operation::DELETE, now);
        proof {
            if !old(self)@.indexes.contains_key(key@) {
                assert(old(self)@.indexes.remove(key@) =~= old(self)@.indexes);
            }
        }
        r
    }
}

} // verus!
