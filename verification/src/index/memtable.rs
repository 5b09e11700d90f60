//! The memtable: the ordered map in memory that takes the writes.

use crate::clock::now_ms;
use crate::error::StoreError;
use crate::file::metadata::{segment_path, SSTableSegment};
use crate::file::serializer::{pairs_size, pairs_view};
use crate::index::converter::{
    convert_skipmap_to_vec, convert_vec_to_hashmap, skipmap_clear, skipmap_entries, skipmap_get,
    skipmap_insert, skipmap_lower_bound, skipmap_new, skipmap_upper_bound,
};
use crate::index::sstable::{
    is_listing, lemma_listing_of, lemma_map_of_sorted_pairs, lemma_same_listing, row_of,
    table_size, SSTable,
};
use skiplist::SkipMap;
use vstd::prelude::*;

verus! {

/// The number of bytes from which a memtable is flushed: ten mebibytes.
pub const SIZE_THRESHOLD_TEN_MB: u64 = 10485760;

/// An ordered map from keys to values. The value `TOMBSTONE` marks a key as
/// deleted.
#[derive(Debug)]
pub struct Memtable {
    pub data: SkipMap<u64, String>,
}

impl View for Memtable {
    type V = Map<u64, Seq<char>>;

    open spec fn view(&self) -> Map<u64, Seq<char>> {
        skipmap_entries(&self.data)
    }
}

impl Memtable {
    /// An empty memtable.
    pub fn new() -> (memtable: Self)
        ensures
            memtable@ == Map::<u64, Seq<char>>::empty(),
    {
        Memtable { data: skipmap_new() }
    }

    /// Puts `value` under `key` at the time of the call. See
    /// [`Memtable::put_at`].
    pub fn put(&mut self, key: u64, value: String) -> (r: Result<
        Option<(SSTableSegment, SSTable)>,
        StoreError,
    >)
        ensures
            match r {
                Ok(Some((segment, table))) => {
                    &&& table@ == old(self)@
                    &&& exists|now: i64| #[trigger] row_of(segment, table@, now, false)
                    &&& table_size(old(self)@) >= SIZE_THRESHOLD_TEN_MB
                    &&& final(self)@ == Map::<u64, Seq<char>>::empty().insert(key, value@)
                },
                Ok(None) => {
                    &&& table_size(old(self)@) < SIZE_THRESHOLD_TEN_MB
                    &&& final(self)@ == old(self)@.insert(key, value@)
                },
                Err(e) => e == StoreError::Io && table_size(old(self)@) > u64::MAX && final(self)@
                    == old(self)@,
            },
    {
        let now: i64 = now_ms();
        self.put_at(key, value, now)
    }

    /// Puts `value` under `key`. Where the memtable has reached ten mebibytes
    /// it is flushed first, with the time `now`, and what was flushed is
    /// returned for the caller to store.
    pub fn put_at(&mut self, key: u64, value: String, now: i64) -> (r: Result<
        Option<(SSTableSegment, SSTable)>,
        StoreError,
    >)
        ensures
            match r {
                Ok(Some((segment, table))) => {
                    &&& table@ == old(self)@
                    &&& row_of(segment, table@, now, false)
                    &&& table_size(old(self)@) >= SIZE_THRESHOLD_TEN_MB
                    &&& final(self)@ == Map::<u64, Seq<char>>::empty().insert(key, value@)
                },
                Ok(None) => {
                    &&& table_size(old(self)@) < SIZE_THRESHOLD_TEN_MB
                    &&& final(self)@ == old(self)@.insert(key, value@)
                },
                Err(e) => e == StoreError::Io && table_size(old(self)@) > u64::MAX && final(self)@
                    == old(self)@,
            },
    {
        let size: u64 = self.size()?;
        let mut flushed: Option<(SSTableSegment, SSTable)> = None;
        if size >= SIZE_THRESHOLD_TEN_MB {
            flushed = self.flush_at(now)?;
            proof {
                if flushed is None {
                    lemma_empty_table_size();
                }
            }
        }
        skipmap_insert(&mut self.data, key, value);
        Ok(flushed)
    }

    /// The value under `key`, the marker `TOMBSTONE` for a deleted key, or
    /// `None` where the memtable does not hold the key.
    pub fn get(&self, key: &u64) -> (value: Option<&String>)
        ensures
            match value {
                Some(v) => self@.contains_key(*key) && self@[*key] == v@,
                None => !self@.contains_key(*key),
            },
    {
        skipmap_get(&self.data, key)
    }

    /// Marks `key` as deleted.
    pub fn delete(&mut self, key: &u64)
        ensures
            final(self)@ == old(self)@.insert(*key, "TOMBSTONE"@),
    {
        skipmap_insert(&mut self.data, *key, "TOMBSTONE".to_owned());
    }

    /// The number of bytes that the entries take when they are written. Fails
    /// where the number does not fit into 64 bits.
    pub fn size(&self) -> (r: Result<u64, StoreError>)
        ensures
            match r {
                Ok(size) => size == table_size(self@),
                Err(e) => e == StoreError::Io && table_size(self@) > u64::MAX,
            },
    {
        let data = convert_skipmap_to_vec(&self.data);
        proof {
            lemma_listing_of(pairs_view(data@), self@);
        }
        pairs_size(&data)
    }

    /// Flushes the memtable at the time of the call. See
    /// [`Memtable::flush_at`].
    pub fn flush(&mut self) -> (r: Result<Option<(SSTableSegment, SSTable)>, StoreError>)
        ensures
            match r {
                Ok(Some((segment, table))) => {
                    &&& table@ == old(self)@
                    &&& exists|now: i64| #[trigger] row_of(segment, table@, now, false)
                    &&& final(self)@ == Map::<u64, Seq<char>>::empty()
                },
                Ok(None) => old(self)@ == Map::<u64, Seq<char>>::empty() && final(self)@ == old(self)@,
                Err(e) => e == StoreError::Io && table_size(old(self)@) > u64::MAX && final(self)@
                    == old(self)@,
            },
    {
        let now: i64 = now_ms();
        self.flush_at(now)
    }

    /// Flushes the memtable at the time `now`: returns its entries as a table
    /// with the row of the manifest for it, and clears the memtable. An empty
    /// memtable is left alone and nothing is returned for it.
    pub fn flush_at(&mut self, now: i64) -> (r: Result<
        Option<(SSTableSegment, SSTable)>,
        StoreError,
    >)
        ensures
            match r {
                Ok(Some((segment, table))) => {
                    &&& table@ == old(self)@
                    &&& row_of(segment, table@, now, false)
                    &&& final(self)@ == Map::<u64, Seq<char>>::empty()
                },
                Ok(None) => old(self)@ == Map::<u64, Seq<char>>::empty() && final(self)@ == old(self)@,
                Err(e) => e == StoreError::Io && table_size(old(self)@) > u64::MAX && final(self)@
                    == old(self)@,
            },
    {
        let data: Vec<(u64, String)> = convert_skipmap_to_vec(&self.data);
        let min_key: u64 = match skipmap_lower_bound(&self.data, 0) {
            Some(key) => key,
            None => {
                proof {
                    assert(self@ =~= Map::<u64, Seq<char>>::empty());
                }
                return Ok(None);
            },
        };
        let max_key: u64 = match skipmap_upper_bound(&self.data, u64::MAX) {
            Some(key) => key,
            None => {
                proof {
                    assert(self@ =~= Map::<u64, Seq<char>>::empty());
                }
                return Ok(None);
            },
        };
        let path: String = segment_path(min_key, max_key, now);
        let size: u64 = self.size()?;
        let sstable = SSTable::new(convert_vec_to_hashmap(&data));
        proof {
            assert forall|p: int, q: int| 0 <= p < q < data@.len() implies data@[p].0
                < data@[q].0 by {
                assert(pairs_view(data@)[p].0 < pairs_view(data@)[q].0);
            }
            lemma_map_of_sorted_pairs(data@);
            lemma_same_listing(pairs_view(data@), sstable@, self@);
        }
        skipmap_clear(&mut self.data);
        Ok(
            Some(
                (
                    SSTableSegment {
                        path,
                        min_key,
                        max_key,
                        size,
                        timestamp: now,
                        is_compacted: false,
                    },
                    sstable,
                ),
            ),
        )
    }
}

/// An empty table takes eight bytes, which is less than the threshold.
pub proof fn lemma_empty_table_size()
    ensures
        table_size(Map::<u64, Seq<char>>::empty()) < SIZE_THRESHOLD_TEN_MB,
{
    let none = Seq::<(u64, Seq<char>)>::empty();
    assert(is_listing(none, Map::<u64, Seq<char>>::empty()));
    lemma_listing_of(none, Map::<u64, Seq<char>>::empty());
    vstd::bytes::lemma_auto_spec_u64_to_from_le_bytes();
    assert(crate::file::serializer::entries_bytes(none).len() == 0);
}

} // verus!
