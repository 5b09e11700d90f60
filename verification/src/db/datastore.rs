//! The LSM datastore: a memtable in front of sorted segments, with a manifest
//! of the segments and a Bloom filter over the keys of the memtable.

use crate::clock::now_ms;
use crate::db::compaction::{
    compact, is_compaction_of, key_ranges, lemma_compaction_answers, table_views,
};
use crate::db::filter::{bloom_accepts, bloom_bits, bloom_contains, bloom_insert, bloom_num_bits};
use crate::db::model::{
    claims, covers, is_newest_first, lemma_compaction_preserves, lemma_flush_preserves,
    merged_in_order, newer, segments_get, timestamps_grow, visible_value, LsmModel,
};
use crate::error::StoreError;
use crate::file::metadata::Metadata;
use crate::file::serializer::{decode_pairs, encode_pairs, pairs_bytes, pairs_view, parse_pairs};
use crate::index::converter::{
    convert_skipmap_to_vec, lemma_pairs_view_step, skipmap_entries, skipmap_insert, skipmap_new,
    table_of,
};
use crate::index::memtable::{lemma_empty_table_size, Memtable, SIZE_THRESHOLD_TEN_MB};
use crate::index::order::{comes_before, is_sorted_order, occurs, sorted_order};
use crate::index::sstable::{
    check_tombstone, lemma_listing_of, listing_of, row_of, table_size, SSTable,
};
use bloom::BloomFilter;
use vstd::prelude::*;

verus! {

/// The path of the manifest where none is configured.
pub const METADATA_PATH: &'static str = "src/metadata/metadata.json";

/// The path of the recovery snapshot where none is configured.
pub const RECOVERY_PATH: &'static str = "src/database/recovery";

/// The number of keys for which the Bloom filter is made.
pub const BLOOM_CAPACITY: u32 = 1000000;

/// An LSM datastore. `tables` holds the content of the segment files, one for
/// each row of the manifest and in the same order, the newest last.
pub struct Datastore {
    pub metadata: Metadata,
    pub bloomfilter: BloomFilter,
    pub memtable: Memtable,
    pub size_threshold: u64,
    pub tables: Vec<SSTable>,
}

impl View for Datastore {
    type V = LsmModel;

    open spec fn view(&self) -> LsmModel {
        LsmModel {
            memtable: self.memtable@,
            tables: table_views(self.tables@),
            ranges: key_ranges(self.metadata.segments@),
        }
    }
}

impl Datastore {
    /// Whether the datastore is well formed: its filter has bits and accepts
    /// every key of the memtable, and each row of the manifest has a table
    /// whose keys its key range covers.
    pub open spec fn wf(&self) -> bool {
        &&& bloom_bits(&self.bloomfilter) > 0
        &&& forall|key: u64| #[trigger]
            self.memtable@.contains_key(key) ==> bloom_accepts(&self.bloomfilter).contains(key)
        &&& self@.ranges_cover()
    }

    /// The timestamps of the segments in the order of the manifest.
    pub open spec fn timestamps(&self) -> Seq<i64> {
        Seq::new(self.metadata.segments@.len(), |i: int| self.metadata.segments@[i].timestamp)
    }

    /// A datastore over a manifest, the tables of its segments and a filter,
    /// with an empty memtable and a threshold of ten mebibytes. `None` where
    /// the filter has no bits, where the manifest and the tables differ in
    /// number, or where a key of a table lies outside the key range of its row.
    pub fn new(metadata: Metadata, tables: Vec<SSTable>, bloomfilter: BloomFilter) -> (r: Option<
        Self,
    >)
        ensures
            match r {
                Some(store) => {
                    &&& store.wf()
                    &&& store.metadata == metadata
                    &&& store.tables == tables
                    &&& store.bloomfilter == bloomfilter
                    &&& store.size_threshold == SIZE_THRESHOLD_TEN_MB
                    &&& store.memtable@ == Map::<u64, Seq<char>>::empty()
                },
                None => {
                    ||| bloom_bits(&bloomfilter) == 0
                    ||| tables@.len() != metadata.segments@.len()
                    ||| exists|place: int, key: u64|
                        0 <= place < tables@.len() && #[trigger] tables@[place]@.contains_key(key)
                            && !covers(
                            (
                                metadata.segments@[place].min_key,
                                metadata.segments@[place].max_key,
                            ),
                            key,
                        )
                },
            },
    {
        if bloom_num_bits(&bloomfilter) == 0 {
            return None;
        }
        if tables.len() != metadata.segments.len() {
            return None;
        }
        let mut i: usize = 0;
        while i < tables.len()
            invariant
                i <= tables@.len(),
                tables@.len() == metadata.segments@.len(),
                forall|place: int, key: u64|
                    0 <= place < i && #[trigger] tables@[place]@.contains_key(key) ==> covers(
                        (metadata.segments@[place].min_key, metadata.segments@[place].max_key),
                        key,
                    ),
            decreases tables@.len() - i,
        {
            match tables[i].get_key_range() {
                Ok((min_key, max_key)) => {
                    if min_key < metadata.segments[i].min_key || max_key
                        > metadata.segments[i].max_key {
                        proof {
                            let bad = if min_key < metadata.segments@[i as int].min_key {
                                min_key
                            } else {
                                max_key
                            };
                            assert(tables@[i as int]@.contains_key(bad));
                        }
                        return None;
                    }
                },
                Err(_) => {},
            }
            i = i + 1;
        }
        let store = Datastore {
            metadata,
            bloomfilter,
            memtable: Memtable::new(),
            size_threshold: SIZE_THRESHOLD_TEN_MB,
            tables,
        };
        Some(store)
    }

    /// Restores the memtable from the bytes of a recovery snapshot, and makes
    /// the filter accept its keys. Where the bytes are empty or hold no
    /// snapshot, nothing is changed.
    pub fn restore(&mut self, recovery: &[u8]) -> (restored: bool)
        requires
            old(self).wf(),
        ensures
            final(self).wf(),
            final(self).metadata == old(self).metadata,
            final(self).tables == old(self).tables,
            final(self).size_threshold == old(self).size_threshold,
            restored <==> recovery@.len() > 0 && parse_pairs(recovery@) is Some,
            restored ==> final(self).memtable@ == table_of(parse_pairs(recovery@).unwrap()),
            !restored ==> final(self).memtable@ == old(self).memtable@,
    {
        if recovery.len() == 0 {
            return false;
        }
        let data: Vec<(u64, String)> = match decode_pairs(recovery) {
            Ok(data) => data,
            Err(_) => {
                return false;
            },
        };
        let mut map = skipmap_new();
        let mut i: usize = 0;
        while i < data.len()
            invariant
                i <= data@.len(),
                bloom_bits(&self.bloomfilter) > 0,
                self.metadata == old(self).metadata,
                self.tables == old(self).tables,
                self.size_threshold == old(self).size_threshold,
                skipmap_entries(&map) == table_of(pairs_view(data@.take(i as int))),
                forall|key: u64| #[trigger]
                    table_of(pairs_view(data@.take(i as int))).contains_key(key) ==> bloom_accepts(
                        &self.bloomfilter,
                    ).contains(key),
            decreases data@.len() - i,
        {
            proof {
                lemma_pairs_view_step(data@, i as int);
            }
            bloom_insert(&mut self.bloomfilter, data[i].0);
            skipmap_insert(&mut map, data[i].0, data[i].1.clone());
            i = i + 1;
        }
        proof {
            assert(data@.take(data@.len() as int) =~= data@);
        }
        self.memtable.data = map;
        true
    }

    /// The bytes of a recovery snapshot of the memtable: its entries by
    /// ascending key. Taking a snapshot never fails.
    pub fn snapshot(&self) -> (r: Result<Vec<u8>, StoreError>)
        ensures
            r matches Ok(bytes) && bytes@ == pairs_bytes(listing_of(self.memtable@)),
    {
        let data = convert_skipmap_to_vec(&self.memtable.data);
        proof {
            lemma_listing_of(pairs_view(data@), self.memtable@);
        }
        encode_pairs(&data)
    }

    /// Gets the value of `key`. The memtable is asked where the filter accepts
    /// the key; otherwise, and where the memtable does not hold the key, the
    /// segments are asked from the newest to the oldest, and the first whose
    /// key range covers the key and whose table holds it answers. A key that
    /// is marked as deleted is absent.
    pub fn get(&self, key: &u64) -> (r: Result<Option<String>, StoreError>)
        requires
            self.wf(),
        ensures
            match r {
                Ok(Some(value)) => self@.get(*key) == Some(value@),
                Ok(None) => self@.get(*key) is None,
                Err(_) => false,
            },
    {
        if bloom_contains(&self.bloomfilter, *key) {
            match self.memtable.get(key) {
                Some(value) => {
                    if check_tombstone(value.as_str()) {
                        return Ok(None);
                    }
                    return Ok(Some(value.clone()));
                },
                None => {},
            }
        }
        let mut i: usize = self.metadata.segments.len();
        while i > 0
            invariant
                i <= self.tables@.len(),
                self.wf(),
                !self.memtable@.contains_key(*key),
                self@.get(*key) == segments_get(self@.tables, self@.ranges, *key, i as nat),
            decreases i,
        {
            i = i - 1;
            let segment = &self.metadata.segments[i];
            proof {
                assert(self@.ranges[i as int] == (segment.min_key, segment.max_key));
                assert(self@.tables[i as int] == self.tables@[i as int]@);
            }
            if *key >= segment.min_key && *key <= segment.max_key {
                match self.tables[i].read(key) {
                    Some(value) => {
                        proof {
                            assert(claims(self@.tables, self@.ranges, *key, i as int));
                        }
                        if check_tombstone(value.as_str()) {
                            return Ok(None);
                        }
                        return Ok(Some(value.clone()));
                    },
                    None => {},
                }
            }
            proof {
                assert(!claims(self@.tables, self@.ranges, *key, i as int));
            }
        }
        Ok(None)
    }

    /// Whether a put flushes the memtable first: the memtable holds entries,
    /// and they take as many bytes as the threshold of the datastore or as ten
    /// mebibytes.
    pub open spec fn flush_due(&self) -> bool {
        &&& self.memtable@ != Map::<u64, Seq<char>>::empty()
        &&& table_size(self.memtable@) >= self.size_threshold || table_size(self.memtable@)
            >= SIZE_THRESHOLD_TEN_MB
    }

    /// Flushes the memtable at the time of the call. See
    /// [`Datastore::flush_at`].
    pub fn flush(&mut self) -> (r: Result<bool, StoreError>)
        requires
            old(self).wf(),
        ensures
            final(self).wf(),
            final(self).size_threshold == old(self).size_threshold,
            final(self).bloomfilter == old(self).bloomfilter,
            forall|key: u64| final(self)@.get(key) == old(self)@.get(key),
            match r {
                Ok(flushed) => {
                    &&& flushed == (old(self).memtable@ != Map::<u64, Seq<char>>::empty())
                    &&& flushed ==> final(self).memtable@ == Map::<u64, Seq<char>>::empty()
                        && exists|now: i64| #[trigger] final(self).flushed_from(old(self), now)
                    &&& !flushed ==> final(self)@ == old(self)@ && final(self).metadata
                        == old(self).metadata && final(self).tables == old(self).tables
                },
                Err(e) => e == StoreError::Io && table_size(old(self).memtable@) > u64::MAX
                    && final(self)@ == old(self)@ && final(self).metadata == old(self).metadata
                    && final(self).tables == old(self).tables,
            },
    {
        let now: i64 = now_ms();
        self.flush_at(now)
    }

    /// Whether the segments of this datastore are those of `before` and, as
    /// the newest, one more that was flushed from the memtable of `before` at
    /// the time `now`.
    pub open spec fn flushed_from(&self, before: &Datastore, now: i64) -> bool {
        let count = before.metadata.segments@.len() as int;
        &&& self.metadata.segments@.len() == count + 1
        &&& self.metadata.segments@.take(count) == before.metadata.segments@
        &&& self.tables@.len() == count + 1
        &&& self.tables@.take(count) == before.tables@
        &&& self.tables@[count]@ == before.memtable@
        &&& row_of(self.metadata.segments@[count], before.memtable@, now, false)
        &&& self.metadata.metadata_path == before.metadata.metadata_path
        &&& self.metadata.database_recovery_path == before.metadata.database_recovery_path
    }

    /// Flushes the memtable at the time `now`: its entries become the table of
    /// a new segment, whose row is added to the manifest as the newest, and the
    /// memtable is cleared. An empty memtable is left alone. Returns whether a
    /// segment was added. A flush changes nothing that a get sees.
    pub fn flush_at(&mut self, now: i64) -> (r: Result<bool, StoreError>)
        requires
            old(self).wf(),
        ensures
            final(self).wf(),
            final(self).size_threshold == old(self).size_threshold,
            final(self).bloomfilter == old(self).bloomfilter,
            forall|key: u64| final(self)@.get(key) == old(self)@.get(key),
            match r {
                Ok(flushed) => {
                    &&& flushed == (old(self).memtable@ != Map::<u64, Seq<char>>::empty())
                    &&& flushed ==> final(self).memtable@ == Map::<u64, Seq<char>>::empty()
                        && final(self).flushed_from(old(self), now)
                    &&& !flushed ==> final(self)@ == old(self)@ && final(self).metadata
                        == old(self).metadata && final(self).tables == old(self).tables
                },
                Err(e) => e == StoreError::Io && table_size(old(self).memtable@) > u64::MAX
                    && final(self)@ == old(self)@ && final(self).metadata == old(self).metadata
                    && final(self).tables == old(self).tables,
            },
    {
        match self.memtable.flush_at(now) {
            Ok(Some((segment, table))) => {
                let ghost range = (segment.min_key, segment.max_key);
                self.metadata.add_segment(segment);
                self.tables.push(table);
                proof {
                    let count = old(self).tables@.len() as int;
                    assert(self@.tables =~= old(self)@.tables.push(old(self).memtable@));
                    assert(self@.ranges =~= old(self)@.ranges.push(range));
                    assert(self@ == old(self)@.flushed(range));
                    assert forall|key: u64| self@.get(key) == old(self)@.get(key) by {
                        lemma_flush_preserves(old(self)@, range, key);
                    }
                    lemma_flush_preserves(old(self)@, range, 0);
                    assert(self.metadata.segments@.take(count) =~= old(self).metadata.segments@);
                    assert(self.tables@.take(count) =~= old(self).tables@);
                    assert(old(self).memtable@.contains_key(range.0));
                }
                Ok(true)
            },
            Ok(None) => Ok(false),
            Err(_) => Err(StoreError::Io),
        }
    }

    /// Flushes the memtable at the time of the call where a put would flush it
    /// first. See [`Datastore::flush_if_due_at`].
    pub fn flush_if_due(&mut self) -> (r: Result<bool, StoreError>)
        requires
            old(self).wf(),
        ensures
            final(self).wf(),
            final(self).size_threshold == old(self).size_threshold,
            final(self).bloomfilter == old(self).bloomfilter,
            forall|key: u64| final(self)@.get(key) == old(self)@.get(key),
            match r {
                Ok(flushed) => {
                    &&& flushed == old(self).flush_due()
                    &&& flushed ==> final(self).memtable@ == Map::<u64, Seq<char>>::empty()
                        && exists|now: i64| #[trigger] final(self).flushed_from(old(self), now)
                    &&& !flushed ==> final(self)@ == old(self)@ && final(self).metadata
                        == old(self).metadata && final(self).tables == old(self).tables
                },
                Err(e) => e == StoreError::Io && table_size(old(self).memtable@) > u64::MAX
                    && final(self)@ == old(self)@ && final(self).metadata == old(self).metadata
                    && final(self).tables == old(self).tables,
            },
    {
        let now: i64 = now_ms();
        self.flush_if_due_at(now)
    }

    /// Flushes the memtable at the time `now` where a put would flush it
    /// first: where it holds entries that take as many bytes as the threshold
    /// of the datastore or as ten mebibytes. Returns whether a segment was
    /// added. A put that follows flushes nothing.
    pub fn flush_if_due_at(&mut self, now: i64) -> (r: Result<bool, StoreError>)
        requires
            old(self).wf(),
        ensures
            final(self).wf(),
            final(self).size_threshold == old(self).size_threshold,
            final(self).bloomfilter == old(self).bloomfilter,
            forall|key: u64| final(self)@.get(key) == old(self)@.get(key),
            r is Ok ==> !final(self).flush_due(),
            match r {
                Ok(flushed) => {
                    &&& flushed == old(self).flush_due()
                    &&& flushed ==> final(self).memtable@ == Map::<u64, Seq<char>>::empty()
                        && final(self).flushed_from(old(self), now)
                    &&& !flushed ==> final(self)@ == old(self)@ && final(self).metadata
                        == old(self).metadata && final(self).tables == old(self).tables
                },
                Err(e) => e == StoreError::Io && table_size(old(self).memtable@) > u64::MAX
                    && final(self)@ == old(self)@ && final(self).metadata == old(self).metadata
                    && final(self).tables == old(self).tables,
            },
    {
        let size: u64 = match self.memtable.size() {
            Ok(size) => size,
            Err(_) => {
                return Err(StoreError::Io);
            },
        };
        if size >= self.size_threshold || size >= SIZE_THRESHOLD_TEN_MB {
            self.flush_at(now)
        } else {
            Ok(false)
        }
    }

    /// Puts `value` under `key` at the time of the call. See
    /// [`Datastore::put_at`].
    pub fn put(&mut self, key: u64, value: String) -> (r: Result<(), StoreError>)
        requires
            old(self).wf(),
        ensures
            final(self).wf(),
            final(self).size_threshold == old(self).size_threshold,
            final(self).metadata.metadata_path == old(self).metadata.metadata_path,
            final(self).metadata.database_recovery_path == old(self).metadata.database_recovery_path,
            forall|other: u64| #[trigger]
                bloom_accepts(&old(self).bloomfilter).contains(other) ==> bloom_accepts(
                    &final(self).bloomfilter,
                ).contains(other),
            r is Ok ==> bloom_accepts(&final(self).bloomfilter).contains(key),
            forall|other: u64| other != key ==> final(self)@.get(other) == old(self)@.get(other),
            match r {
                Ok(()) => {
                    &&& final(self)@.get(key) == visible_value(value@)
                    &&& final(self).memtable@ == (if old(self).flush_due() {
                        Map::<u64, Seq<char>>::empty()
                    } else {
                        old(self).memtable@
                    }).insert(key, value@)
                    &&& old(self).flush_due() ==> exists|now: i64|
                        #[trigger] final(self).flushed_from(old(self), now)
                    &&& !old(self).flush_due() ==> final(self).metadata == old(self).metadata
                        && final(self).tables == old(self).tables
                },
                Err(e) => e == StoreError::Io && table_size(old(self).memtable@) > u64::MAX
                    && final(self)@ == old(self)@ && final(self).metadata == old(self).metadata
                    && final(self).tables == old(self).tables,
            },
    {
        let now: i64 = now_ms();
        self.put_at(key, value, now)
    }

    /// Puts `value` under `key`. Where the memtable has reached the threshold
    /// it is flushed first, at the time `now`; then the filter is made to
    /// accept the key and the value is put into the memtable. Afterwards a get
    /// of the key sees the value, and a get of another key sees what it saw.
    ///
    /// Where the size of the memtable does not fit into 64 bits the put fails,
    /// and nothing is changed.
    pub fn put_at(&mut self, key: u64, value: String, now: i64) -> (r: Result<(), StoreError>)
        requires
            old(self).wf(),
        ensures
            final(self).wf(),
            final(self).size_threshold == old(self).size_threshold,
            final(self).metadata.metadata_path == old(self).metadata.metadata_path,
            final(self).metadata.database_recovery_path == old(self).metadata.database_recovery_path,
            forall|other: u64| #[trigger]
                bloom_accepts(&old(self).bloomfilter).contains(other) ==> bloom_accepts(
                    &final(self).bloomfilter,
                ).contains(other),
            r is Ok ==> bloom_accepts(&final(self).bloomfilter).contains(key),
            forall|other: u64| other != key ==> final(self)@.get(other) == old(self)@.get(other),
            match r {
                Ok(()) => {
                    &&& final(self)@.get(key) == visible_value(value@)
                    &&& final(self).memtable@ == (if old(self).flush_due() {
                        Map::<u64, Seq<char>>::empty()
                    } else {
                        old(self).memtable@
                    }).insert(key, value@)
                    &&& old(self).flush_due() ==> final(self).flushed_from(old(self), now)
                    &&& !old(self).flush_due() ==> final(self).metadata == old(self).metadata
                        && final(self).tables == old(self).tables
                },
                Err(e) => e == StoreError::Io && table_size(old(self).memtable@) > u64::MAX
                    && final(self)@ == old(self)@ && final(self).metadata == old(self).metadata
                    && final(self).tables == old(self).tables,
            },
    {
        let size: u64 = match self.memtable.size() {
            Ok(size) => size,
            Err(_) => {
                return Err(StoreError::Io);
            },
        };
        let ghost before = old(self).memtable@;
        if size >= self.size_threshold {
            match self.flush_at(now) {
                Ok(_) => {},
                Err(_) => {
                    return Err(StoreError::Io);
                },
            }
        }
        let ghost middle = *self;
        proof {
            lemma_empty_table_size();
        }
        bloom_insert(&mut self.bloomfilter, key);
        match self.memtable.put_at(key, value, now) {
            Ok(Some((segment, table))) => {
                let ghost range = (segment.min_key, segment.max_key);
                self.metadata.add_segment(segment);
                self.tables.push(table);
                proof {
                    let count = middle.tables@.len() as int;
                    assert(middle.memtable@ == before);
                    assert(self@.tables =~= middle@.tables.push(middle.memtable@));
                    assert(self@.ranges =~= middle@.ranges.push(range));
                    assert(middle.memtable@.contains_key(range.0));
                    let flushed = middle@.flushed(range);
                    assert forall|other: u64| other != key implies self@.get(other) == old(self)@.get(other) by {
                        lemma_flush_preserves(middle@, range, other);
                        assert(self@.get(other) == flushed.get(other));
                    }
                    lemma_flush_preserves(middle@, range, 0);
                    assert(self.metadata.segments@.take(count) =~= middle.metadata.segments@);
                    assert(self.tables@.take(count) =~= middle.tables@);
                }
                Ok(())
            },
            Ok(None) => {
                proof {
                    if old(self).flush_due() && size < self.size_threshold {
                        assert(table_size(before) >= SIZE_THRESHOLD_TEN_MB);
                    }
                    if size >= self.size_threshold && before != Map::<u64, Seq<char>>::empty() {
                        assert(middle.memtable@ == Map::<u64, Seq<char>>::empty());
                    }
                }
                Ok(())
            },
            Err(_) => Err(StoreError::Io),
        }
    }

    /// The places of the segments from the newest to the oldest. The newer of
    /// two segments is the one with the greater timestamp, and of two with one
    /// timestamp the one that comes later in the manifest.
    pub fn newest_first(&self) -> (order: Vec<usize>)
        ensures
            is_newest_first(order@, self.timestamps()),
    {
        let count: usize = self.metadata.segments.len();
        let mut keys: Vec<i128> = Vec::new();
        let mut i: usize = 0;
        while i < count
            invariant
                i <= count,
                count == self.metadata.segments@.len(),
                keys@.len() == i,
                forall|j: int|
                    0 <= j < i ==> keys@[j] == -self.metadata.segments@[count - 1 - j].timestamp,
            decreases count - i,
        {
            let timestamp: i128 = self.metadata.segments[count - 1 - i].timestamp as i128;
            keys.push(-timestamp);
            i = i + 1;
        }
        let backwards = sorted_order(&keys);
        let mut order: Vec<usize> = Vec::new();
        let mut p: usize = 0;
        while p < count
            invariant
                p <= count,
                count == backwards@.len(),
                order@.len() == p,
                is_sorted_order(backwards@, keys@),
                forall|q: int| 0 <= q < p ==> order@[q] == count - 1 - backwards@[q],
            decreases count - p,
        {
            order.push(count - 1 - backwards[p]);
            p = p + 1;
        }
        proof {
            let timestamps = self.timestamps();
            assert forall|i: int| 0 <= i < count implies #[trigger] occurs(order@, i) by {
                assert(occurs(backwards@, count - 1 - i));
                let q = choose|q: int|
                    0 <= q < backwards@.len() && #[trigger] backwards@[q] == count - 1 - i;
                assert(order@[q] == i);
            }
            assert forall|a: int, b: int| 0 <= a < b < order@.len() implies newer(
                timestamps,
                #[trigger] order@[a] as int,
                #[trigger] order@[b] as int,
            ) by {
                assert(comes_before(keys@, backwards@[a] as int, backwards@[b] as int));
            }
        }
        order
    }

    /// The table that merging the segments gives: starting from the oldest in
    /// `order`, each newer segment is merged into what the older ones gave.
    fn merge_all(&self, order: &Vec<usize>) -> (table: SSTable)
        requires
            order@.len() == self.tables@.len(),
            order@.len() > 0,
            forall|p: int| 0 <= p < order@.len() ==> #[trigger] order@[p] < self.tables@.len(),
        ensures
            table@ == merged_in_order(self@.tables, order@, 0),
    {
        let count: usize = order.len();
        let mut merged_table = SSTable::new(self.tables[order[count - 1]].data.clone());
        let mut i: usize = count - 1;
        proof {
            assert(self@.tables[order@[count - 1] as int] == self.tables@[order@[count - 1] as int]@);
        }
        while i > 0
            invariant
                i < count,
                count == order@.len(),
                order@.len() == self.tables@.len(),
                forall|p: int| 0 <= p < order@.len() ==> #[trigger] order@[p] < self.tables@.len(),
                merged_table@ == merged_in_order(self@.tables, order@, i as int),
            decreases i,
        {
            let newer: usize = order[i - 1];
            proof {
                assert(self@.tables[newer as int] == self.tables@[newer as int]@);
            }
            let _ = merged_table.merge(&self.tables[newer]);
            i = i - 1;
        }
        merged_table
    }

    /// Whether `after` is this datastore after a compaction at the time `now`:
    /// its segments are what compaction makes of the table that merging the
    /// segments of this datastore gives, from the newest to the oldest. A
    /// datastore without segments stays without.
    pub open spec fn compacts_to(&self, after: &Datastore, now: i64) -> bool {
        if self.tables@.len() == 0 {
            after.tables@.len() == 0 && after.metadata.segments@.len() == 0
        } else {
            exists|order: Seq<usize>|
                is_newest_first(order, self.timestamps()) && #[trigger] is_compaction_of(
                    after.tables@,
                    after.metadata.segments@,
                    merged_in_order(self@.tables, order, 0),
                    self.size_threshold,
                    now,
                )
        }
    }

    /// Whether the table that merging the segments gives takes more bytes than
    /// 64 bits can count.
    pub open spec fn merged_outgrows(&self) -> bool {
        exists|order: Seq<usize>|
            is_newest_first(order, self.timestamps()) && table_size(
                #[trigger] merged_in_order(self@.tables, order, 0),
            ) > u64::MAX
    }

    /// Merges and compacts the segments at the time of the call. See
    /// [`Datastore::merge_and_compact_at`].
    pub fn merge_and_compact(&mut self) -> (r: Result<(), StoreError>)
        requires
            old(self).wf(),
        ensures
            final(self).wf(),
            final(self).memtable@ == old(self).memtable@,
            final(self).bloomfilter == old(self).bloomfilter,
            final(self).size_threshold == old(self).size_threshold,
            final(self).metadata.metadata_path == old(self).metadata.metadata_path,
            final(self).metadata.database_recovery_path == old(self).metadata.database_recovery_path,
            timestamps_grow(old(self).timestamps()) ==> forall|key: u64|
                final(self)@.get(key) == old(self)@.get(key),
            match r {
                Ok(()) => exists|now: i64| #[trigger] old(self).compacts_to(final(self), now),
                Err(e) => {
                    &&& e == StoreError::Io
                    &&& old(self).merged_outgrows()
                    &&& final(self)@ == old(self)@
                    &&& final(self).metadata == old(self).metadata
                    &&& final(self).tables == old(self).tables
                },
            },
    {
        let now: i64 = now_ms();
        self.merge_and_compact_at(now)
    }

    /// Merges the segments into one table and replaces them by it: the
    /// segments are ordered from the newest to the oldest, and from the oldest
    /// on each newer segment is merged into what the older ones gave, so that
    /// the newer value of a key wins and a key that a newer segment marks as
    /// deleted leaves the table. Where the table outgrows the threshold it is
    /// split in two. The new segments carry the time `now`.
    ///
    /// Where no segment has a smaller timestamp than one before it in the
    /// manifest, a get sees after the compaction what it saw before. Where the
    /// size of the merged table does not fit into 64 bits the compaction fails
    /// and nothing is changed.
    pub fn merge_and_compact_at(&mut self, now: i64) -> (r: Result<(), StoreError>)
        requires
            old(self).wf(),
        ensures
            final(self).wf(),
            final(self).memtable@ == old(self).memtable@,
            final(self).bloomfilter == old(self).bloomfilter,
            final(self).size_threshold == old(self).size_threshold,
            final(self).metadata.metadata_path == old(self).metadata.metadata_path,
            final(self).metadata.database_recovery_path == old(self).metadata.database_recovery_path,
            timestamps_grow(old(self).timestamps()) ==> forall|key: u64|
                final(self)@.get(key) == old(self)@.get(key),
            match r {
                Ok(()) => old(self).compacts_to(final(self), now),
                Err(e) => {
                    &&& e == StoreError::Io
                    &&& old(self).merged_outgrows()
                    &&& final(self)@ == old(self)@
                    &&& final(self).metadata == old(self).metadata
                    &&& final(self).tables == old(self).tables
                },
            },
    {
        if self.tables.len() == 0 {
            proof {
                assert(self@.ranges.len() == 0);
            }
            return Ok(());
        }
        let order = self.newest_first();
        let whole = self.merge_all(&order);
        let ghost merged_table = whole@;
        let (new_tables, new_segments) = compact(whole, self.size_threshold, now)?;
        let ghost threshold = self.size_threshold;
        let ghost rows = new_segments@;
        let ghost parts = new_tables@;
        self.metadata.segments = new_segments;
        self.tables = new_tables;
        proof {
            lemma_compaction_answers(parts, rows, merged_table, threshold, now, 0);
            if timestamps_grow(old(self).timestamps()) {
                assert forall|key: u64| self@.get(key) == old(self)@.get(key) by {
                    lemma_compaction_answers(parts, rows, merged_table, threshold, now, key);
                    lemma_compaction_preserves(old(self)@, old(self).timestamps(), order@, key);
                }
            }
        }
        Ok(())
    }

    /// Marks `key` as deleted: puts the marker `TOMBSTONE` under it, as a put
    /// does with a value. Afterwards a get of the key finds nothing.
    pub fn delete(&mut self, key: u64) -> (r: Result<(), StoreError>)
        requires
            old(self).wf(),
        ensures
            final(self).wf(),
            final(self).size_threshold == old(self).size_threshold,
            final(self).metadata.metadata_path == old(self).metadata.metadata_path,
            final(self).metadata.database_recovery_path == old(self).metadata.database_recovery_path,
            forall|other: u64| #[trigger]
                bloom_accepts(&old(self).bloomfilter).contains(other) ==> bloom_accepts(
                    &final(self).bloomfilter,
                ).contains(other),
            r is Ok ==> bloom_accepts(&final(self).bloomfilter).contains(key),
            forall|other: u64| other != key ==> final(self)@.get(other) == old(self)@.get(other),
            match r {
                Ok(()) => {
                    &&& final(self)@.get(key) is None
                    &&& final(self).memtable@ == (if old(self).flush_due() {
                        Map::<u64, Seq<char>>::empty()
                    } else {
                        old(self).memtable@
                    }).insert(key, "TOMBSTONE"@)
                    &&& old(self).flush_due() ==> exists|now: i64|
                        #[trigger] final(self).flushed_from(old(self), now)
                    &&& !old(self).flush_due() ==> final(self).metadata == old(self).metadata
                        && final(self).tables == old(self).tables
                },
                Err(e) => e == StoreError::Io && table_size(old(self).memtable@) > u64::MAX
                    && final(self)@ == old(self)@ && final(self).metadata == old(self).metadata
                    && final(self).tables == old(self).tables,
            },
    {
        self.put(key, "TOMBSTONE".to_owned())
    }
}

} // verus!
