//! The log: an append-only sequence of records, held as the bytes of its file.
//!
//! A log is read from its first byte on, one record after the other. Reading
//! ends at the first place where no record begins; a log is clean when that
//! place is its end.

use crate::datastore::converters::convert_db_index_to_index_bucket;
use crate::datastore::index::DBIndex;
use crate::datastore::index_map::{IndexBucket, IndexMap};
use crate::datastore::indexable::Indexable;
use crate::datastore::operation::Operation;
use crate::error::StoreError;
use crate::file::serializer::{
    encoding, lemma_encoding_len, lemma_parse_encoding, lemma_parse_unique, parse, Record,
    RecordKind, Storable,
};
use crate::text::text_eq;
use vstd::prelude::*;
use vstd::slice::slice_subrange;

verus! {

/// The content of an append-only file.
#[derive(Debug)]
pub struct LogFile {
    pub bytes: Vec<u8>,
}

impl View for LogFile {
    type V = Seq<u8>;

    open spec fn view(&self) -> Seq<u8> {
        self.bytes@
    }
}

impl LogFile {
    /// An empty log.
    pub fn new() -> (log: Self)
        ensures
            log@ == Seq::<u8>::empty(),
    {
        LogFile { bytes: Vec::new() }
    }

    /// The log that a file with the content `bytes` holds.
    pub fn from_bytes(bytes: Vec<u8>) -> (log: Self)
        ensures
            log@ == bytes@,
    {
        LogFile { bytes }
    }

    /// The number of bytes in the log.
    pub fn len(&self) -> (len: usize)
        ensures
            len == self@.len(),
    {
        self.bytes.len()
    }

    /// A log fits into memory: it has no more bytes than an index can count.
    pub proof fn lemma_fits(&self)
        ensures
            self@.len() <= usize::MAX,
    {
        assert(self.bytes.len() == self.bytes@.len());
    }

    /// Appends `bytes` and returns where they start and how many they are.
    pub fn append(&mut self, bytes: Vec<u8>) -> (place: (u64, usize))
        ensures
            final(self)@ == old(self)@ + bytes@,
            place.0 == old(self)@.len(),
            place.1 == bytes@.len(),
    {
        let offset: u64 = self.bytes.len() as u64;
        let length: usize = bytes.len();
        let mut bytes = bytes;
        self.bytes.append(&mut bytes);
        (offset, length)
    }
}

/// A record in a log, with the place of its bytes.
pub struct Entry {
    pub record: Record,
    pub offset: nat,
    pub length: nat,
}

/// The records of kind `kind` that are read from `bytes`, starting at `cursor`.
pub open spec fn entries_from(kind: RecordKind, bytes: Seq<u8>, cursor: nat) -> Seq<Entry>
    decreases bytes.len() - cursor,
    via entries_from_decreases
{
    if cursor > bytes.len() {
        Seq::empty()
    } else {
        match parse(kind, bytes.skip(cursor as int)) {
            Some(record) => seq![Entry { record, offset: cursor, length: encoding(record).len() }]
                + entries_from(kind, bytes, cursor + encoding(record).len()),
            None => Seq::empty(),
        }
    }
}

/// Reading goes on behind a record, and a record has bytes.
#[via_fn]
proof fn entries_from_decreases(kind: RecordKind, bytes: Seq<u8>, cursor: nat) {
    if cursor <= bytes.len() {
        match parse(kind, bytes.skip(cursor as int)) {
            Some(record) => {
                lemma_encoding_len(record);
            },
            None => {},
        }
    }
}

/// The records of kind `kind` in a log with the content `bytes`.
pub open spec fn log_entries(kind: RecordKind, bytes: Seq<u8>) -> Seq<Entry> {
    entries_from(kind, bytes, 0)
}

/// Whether reading `bytes` from `cursor` on ends at the end of `bytes`.
pub open spec fn reaches_end(kind: RecordKind, bytes: Seq<u8>, cursor: nat) -> bool
    decreases bytes.len() - cursor,
    via reaches_end_decreases
{
    if cursor >= bytes.len() {
        cursor == bytes.len()
    } else {
        match parse(kind, bytes.skip(cursor as int)) {
            Some(record) => reaches_end(kind, bytes, cursor + encoding(record).len()),
            None => false,
        }
    }
}

/// Reading goes on behind a record, and a record has bytes.
#[via_fn]
proof fn reaches_end_decreases(kind: RecordKind, bytes: Seq<u8>, cursor: nat) {
    if cursor < bytes.len() {
        match parse(kind, bytes.skip(cursor as int)) {
            Some(record) => {
                lemma_encoding_len(record);
            },
            None => {},
        }
    }
}

/// Whether a log with the content `bytes` holds records of kind `kind` and
/// nothing else.
pub open spec fn log_clean(kind: RecordKind, bytes: Seq<u8>) -> bool {
    reaches_end(kind, bytes, 0)
}

/// The place in `entries` of the newest record for `key`: the one with the
/// greatest timestamp, and among those with that timestamp the last.
pub open spec fn newest_index(entries: Seq<Entry>, key: Seq<char>) -> Option<int>
    decreases entries.len(),
{
    if entries.len() == 0 {
        None
    } else {
        let earlier = newest_index(entries.drop_last(), key);
        let last = entries.last();
        if last.record.key() == key && (earlier is None || last.record.timestamp()
            >= entries[earlier.unwrap()].record.timestamp()) {
            Some(entries.len() - 1)
        } else {
            earlier
        }
    }
}

/// The newest record for `key` in `entries`, with its place in the log.
pub open spec fn newest(entries: Seq<Entry>, key: Seq<char>) -> Option<Entry> {
    match newest_index(entries, key) {
        Some(i) => Some(entries[i]),
        None => None,
    }
}

/// What reading the record of kind `kind` at `offset`, of `length` bytes, gives.
pub open spec fn read_at(kind: RecordKind, bytes: Seq<u8>, offset: nat, length: nat) -> Result<
    Record,
    StoreError,
> {
    if offset + length > bytes.len() {
        Err(StoreError::Corrupt)
    } else {
        match parse(kind, bytes.subrange(offset as int, (offset + length) as int)) {
            Some(record) => Ok(record),
            None => Err(StoreError::Decode),
        }
    }
}

/// Newest wins: the record that `newest_index` finds has the key, no record
/// with the key has a greater timestamp, and none with the same timestamp
/// comes after it. Where it finds none, no record has the key.
pub proof fn lemma_newest_wins(entries: Seq<Entry>, key: Seq<char>)
    ensures
        match newest_index(entries, key) {
            Some(i) => {
                &&& 0 <= i < entries.len()
                &&& entries[i].record.key() == key
                &&& forall|j: int|
                    0 <= j < entries.len() && #[trigger] entries[j].record.key() == key ==> {
                        ||| entries[j].record.timestamp() < entries[i].record.timestamp()
                        ||| entries[j].record.timestamp() == entries[i].record.timestamp() && j
                            <= i
                    }
            },
            None => forall|j: int|
                0 <= j < entries.len() ==> #[trigger] entries[j].record.key() != key,
        },
    decreases entries.len(),
{
    if entries.len() > 0 {
        let front = entries.drop_last();
        lemma_newest_wins(front, key);
        assert forall|j: int| 0 <= j < front.len() implies front[j] == entries[j] by {}
    }
}

/// Reading from a place where a record begins gives that record, and then what
/// is read from the end of the record on.
proof fn lemma_entries_step(kind: RecordKind, bytes: Seq<u8>, cursor: nat, record: Record)
    requires
        cursor <= bytes.len(),
        parse(kind, bytes.skip(cursor as int)) == Some(record),
    ensures
        entries_from(kind, bytes, cursor) == seq![
            Entry { record, offset: cursor, length: encoding(record).len() },
        ] + entries_from(kind, bytes, cursor + encoding(record).len()),
{
}

/// Appending a record to a clean log adds that record, at the old end, to the
/// records of the log, and leaves the log clean.
pub proof fn lemma_append_entries(kind: RecordKind, bytes: Seq<u8>, record: Record)
    requires
        record.kind() == kind,
        log_clean(kind, bytes),
        bytes.len() + encoding(record).len() <= u64::MAX,
    ensures
        log_entries(kind, bytes + encoding(record)) == log_entries(kind, bytes).push(
            Entry { record, offset: bytes.len(), length: encoding(record).len() },
        ),
        log_clean(kind, bytes + encoding(record)),
{
    lemma_append_entries_from(kind, bytes, record, 0);
}

/// Appending a record to a log that is clean from `cursor` on adds that record
/// to what is read from `cursor` on.
proof fn lemma_append_entries_from(kind: RecordKind, bytes: Seq<u8>, record: Record, cursor: nat)
    requires
        record.kind() == kind,
        cursor <= bytes.len(),
        reaches_end(kind, bytes, cursor),
        bytes.len() + encoding(record).len() <= u64::MAX,
    ensures
        entries_from(kind, bytes + encoding(record), cursor) == entries_from(
            kind,
            bytes,
            cursor,
        ).push(Entry { record, offset: bytes.len(), length: encoding(record).len() }),
        reaches_end(kind, bytes + encoding(record), cursor),
    decreases bytes.len() - cursor,
{
    let added = encoding(record);
    let grown = bytes + added;
    let entry = Entry { record, offset: bytes.len(), length: added.len() };
    lemma_encoding_len(record);
    if cursor == bytes.len() {
        assert(grown.skip(cursor as int) =~= added + Seq::<u8>::empty());
        lemma_parse_encoding(record, Seq::<u8>::empty());
        let end = cursor + added.len();
        assert(end == grown.len());
        lemma_nothing_at_end(kind, grown);
        lemma_nothing_at_end(kind, bytes);
        assert(entries_from(kind, grown, cursor) =~= Seq::<Entry>::empty().push(entry));
    } else {
        let found = parse(kind, bytes.skip(cursor as int)).unwrap();
        lemma_parse_found(kind, bytes.skip(cursor as int));
        lemma_encoding_len(found);
        let next = cursor + encoding(found).len();
        assert(next <= bytes.len());
        assert(encoding(found).is_prefix_of(grown.skip(cursor as int))) by {
            assert(encoding(found) =~= grown.skip(cursor as int).subrange(
                0,
                encoding(found).len() as int,
            ));
        }
        lemma_parse_unique(kind, grown.skip(cursor as int), found);
        lemma_append_entries_from(kind, bytes, record, next);
        assert(entries_from(kind, grown, cursor) =~= entries_from(kind, bytes, cursor).push(
            entry,
        ));
    }
}

/// Every record of a log lies within the log, and reading at its place gives
/// the record.
pub proof fn lemma_entries_located(kind: RecordKind, bytes: Seq<u8>, cursor: nat, i: int)
    requires
        cursor <= bytes.len(),
        bytes.len() <= u64::MAX,
        0 <= i < entries_from(kind, bytes, cursor).len(),
    ensures
        cursor <= entries_from(kind, bytes, cursor)[i].offset,
        entries_from(kind, bytes, cursor)[i].offset + entries_from(kind, bytes, cursor)[i].length
            <= bytes.len(),
        entries_from(kind, bytes, cursor)[i].length == encoding(
            entries_from(kind, bytes, cursor)[i].record,
        ).len(),
        entries_from(kind, bytes, cursor)[i].record.kind() == kind,
        read_at(
            kind,
            bytes,
            entries_from(kind, bytes, cursor)[i].offset,
            entries_from(kind, bytes, cursor)[i].length,
        ) == Ok::<Record, StoreError>(entries_from(kind, bytes, cursor)[i].record),
    decreases bytes.len() - cursor,
{
    let rest = bytes.skip(cursor as int);
    let record = parse(kind, rest).unwrap();
    lemma_parse_found(kind, rest);
    lemma_encoding_len(record);
    let length = encoding(record).len();
    if i == 0 {
        let part = bytes.subrange(cursor as int, (cursor + length) as int);
        assert(part =~= encoding(record));
        assert(part =~= encoding(record) + Seq::<u8>::empty());
        lemma_parse_encoding(record, Seq::<u8>::empty());
    } else {
        lemma_entries_located(kind, bytes, cursor + length, i - 1);
    }
}

/// The records of a log lie one behind the other: a later record starts where
/// an earlier one has ended, or behind that.
pub proof fn lemma_offsets_increase(kind: RecordKind, bytes: Seq<u8>, cursor: nat, i: int, j: int)
    requires
        cursor <= bytes.len(),
        bytes.len() <= u64::MAX,
        0 <= i < j < entries_from(kind, bytes, cursor).len(),
    ensures
        entries_from(kind, bytes, cursor)[i].offset + entries_from(kind, bytes, cursor)[i].length
            <= entries_from(kind, bytes, cursor)[j].offset,
    decreases bytes.len() - cursor,
{
    let rest = bytes.skip(cursor as int);
    let record = parse(kind, rest).unwrap();
    lemma_parse_found(kind, rest);
    lemma_encoding_len(record);
    let next = cursor + encoding(record).len();
    if i == 0 {
        lemma_entries_located(kind, bytes, next, j - 1);
    } else {
        lemma_offsets_increase(kind, bytes, next, i - 1, j - 1);
    }
}

/// What `parse` finds begins the bytes.
pub proof fn lemma_parse_found(kind: RecordKind, bytes: Seq<u8>)
    requires
        parse(kind, bytes) is Some,
    ensures
        parse(kind, bytes).unwrap().kind() == kind,
        encoding(parse(kind, bytes).unwrap()).is_prefix_of(bytes),
{
}

/// No record begins at the end of a log.
proof fn lemma_nothing_at_end(kind: RecordKind, bytes: Seq<u8>)
    ensures
        entries_from(kind, bytes, bytes.len()) == Seq::<Entry>::empty(),
        reaches_end(kind, bytes, bytes.len()),
{
    let rest = bytes.skip(bytes.len() as int);
    if parse(kind, rest) is Some {
        lemma_parse_found(kind, rest);
        lemma_encoding_len(parse(kind, rest).unwrap());
    }
}

/// An empty log is clean and holds no record.
pub proof fn lemma_empty_log(kind: RecordKind)
    ensures
        log_clean(kind, Seq::<u8>::empty()),
        log_entries(kind, Seq::<u8>::empty()) == Seq::<Entry>::empty(),
{
    lemma_nothing_at_end(kind, Seq::<u8>::empty());
}

/// Appending a record and reading at the place of the append gives the record
/// back: the bytes there are the record's bytes.
pub proof fn lemma_append_then_read(kind: RecordKind, bytes: Seq<u8>, record: Record)
    requires
        record.kind() == kind,
        bytes.len() + encoding(record).len() <= u64::MAX,
    ensures
        (bytes + encoding(record)).subrange(
            bytes.len() as int,
            (bytes.len() + encoding(record).len()) as int,
        ) == encoding(record),
        read_at(kind, bytes + encoding(record), bytes.len(), encoding(record).len()) == Ok::<
            Record,
            StoreError,
        >(record),
{
    let grown = bytes + encoding(record);
    let part = grown.subrange(bytes.len() as int, (bytes.len() + encoding(record).len()) as int);
    assert(part =~= encoding(record));
    assert(part =~= encoding(record) + Seq::<u8>::empty());
    lemma_parse_encoding(record, Seq::<u8>::empty());
}

/// Appends `data` to the log and returns where its bytes start and how many
/// they are. The bytes before them are as they were. Appending never fails.
pub fn write<T: Storable>(log: &mut LogFile, data: &T) -> (r: Result<(u64, usize), StoreError>)
    ensures
        final(log)@ == old(log)@ + encoding(data@),
        r matches Ok(place) && place.0 == old(log)@.len() && place.1 == encoding(data@).len(),
{
    match data.encode() {
        Ok(bytes) => Ok(log.append(bytes)),
        Err(_) => Err(StoreError::Io),
    }
}

/// Reads the record whose bytes are the `length` bytes at `offset`.
pub fn read<T: Storable>(log: &LogFile, offset: u64, length: usize) -> (r: Result<T, StoreError>)
    ensures
        match r {
            Ok(data) => read_at(T::kind(), log@, offset as nat, length as nat) == Ok::<
                Record,
                StoreError,
            >(data@),
            Err(e) => read_at(T::kind(), log@, offset as nat, length as nat) == Err::<
                Record,
                StoreError,
            >(e),
        },
{
    let bytes = log.bytes.as_slice();
    let total: usize = bytes.len();
    if offset > total as u64 {
        return Err(StoreError::Corrupt);
    }
    let start: usize = offset as usize;
    if length > total - start {
        return Err(StoreError::Corrupt);
    }
    match T::decode(slice_subrange(bytes, start, start + length)) {
        Ok(data) => Ok(data),
        Err(_) => Err(StoreError::Decode),
    }
}

/// Reads the record that begins at `cursor`, and the number of its bytes;
/// `None` where no record begins there.
fn read_next<T: Storable>(log: &LogFile, cursor: usize) -> (r: Option<(T, usize)>)
    requires
        cursor <= log@.len(),
    ensures
        match r {
            Some((data, length)) => {
                &&& length == encoding(data@).len()
                &&& cursor + length <= log@.len()
                &&& entries_from(T::kind(), log@, cursor as nat) == seq![
                    Entry { record: data@, offset: cursor as nat, length: length as nat },
                ] + entries_from(T::kind(), log@, (cursor + length) as nat)
            },
            None => entries_from(T::kind(), log@, cursor as nat) == Seq::<Entry>::empty(),
        },
{
    let bytes = log.bytes.as_slice();
    let total: usize = bytes.len();
    match T::decode(slice_subrange(bytes, cursor, total)) {
        Ok(data) => {
            proof {
                lemma_parse_found(T::kind(), log@.skip(cursor as int));
                lemma_entries_step(T::kind(), log@, cursor as nat, data@);
            }
            match data.encoded_size() {
                Ok(size) => Some((data, size as usize)),
                Err(_) => None,
            }
        },
        Err(_) => None,
    }
}

/// Whether `found` holds the records `entries`, each with the place of its
/// bytes.
pub open spec fn lists_records<T: Storable>(found: Seq<(T, u64, usize)>, entries: Seq<Entry>) -> bool {
    &&& found.len() == entries.len()
    &&& forall|i: int|
        0 <= i < found.len() ==> #[trigger] entries[i] == (Entry {
            record: found[i].0@,
            offset: found[i].1 as nat,
            length: found[i].2 as nat,
        })
}

/// Reads the log from its first byte on and returns its records in order, each
/// with the place where its bytes start and their number. Reading ends at the
/// first place where no record begins.
pub fn sequential_scan<T: Storable>(log: &LogFile) -> (r: Result<Vec<(T, u64, usize)>, StoreError>)
    ensures
        match r {
            Ok(found) => lists_records(found@, log_entries(T::kind(), log@)),
            Err(_) => false,
        },
{
    let total: usize = log.len();
    let mut found: Vec<(T, u64, usize)> = Vec::new();
    let mut cursor: usize = 0;
    let ghost mut done: Seq<Entry> = Seq::empty();
    loop
        invariant
            total == log@.len(),
            cursor <= total,
            log_entries(T::kind(), log@) == done + entries_from(T::kind(), log@, cursor as nat),
            lists_records(found@, done),
        ensures
            entries_from(T::kind(), log@, cursor as nat) == Seq::<Entry>::empty(),
        decreases total - cursor,
    {
        match read_next::<T>(log, cursor) {
            Some((data, length)) => {
                let ghost entry = Entry {
                    record: data@,
                    offset: cursor as nat,
                    length: length as nat,
                };
                proof {
                    lemma_encoding_len(data@);
                    lemma_push_entry(done, entry, entries_from(
                        T::kind(),
                        log@,
                        (cursor + length) as nat,
                    ));
                }
                let ghost before = found@;
                found.push((data, cursor as u64, length));
                proof {
                    assert forall|i: int| 0 <= i < found@.len() implies #[trigger] done.push(
                        entry,
                    )[i] == (Entry {
                        record: found@[i].0@,
                        offset: found@[i].1 as nat,
                        length: found@[i].2 as nat,
                    }) by {
                        if i < before.len() {
                            assert(found@[i] == before[i]);
                            assert(done.push(entry)[i] == done[i]);
                        }
                    }
                    done = done.push(entry);
                }
                cursor = cursor + length;
            },
            None => {
                break ;
            },
        }
    }
    assert(log_entries(T::kind(), log@) =~= done);
    Ok(found)
}

/// Scans the log for `key` and returns the newest record with that key, where
/// its bytes start and how many they are; `None` where no record has the key.
/// Scanning ends at the first place where no record begins.
pub fn scan<T: Storable>(log: &LogFile, key: &str) -> (r: Result<
    Option<(T, u64, usize)>,
    StoreError,
>)
    ensures
        match r {
            Ok(Some((data, offset, length))) => newest(log_entries(T::kind(), log@), key@) == Some(
                Entry { record: data@, offset: offset as nat, length: length as nat },
            ),
            Ok(None) => newest(log_entries(T::kind(), log@), key@) is None,
            Err(_) => false,
        },
{
    let total: usize = log.len();
    let mut newest_data: Option<(T, u64, usize)> = None;
    let mut cursor: usize = 0;
    let ghost mut done: Seq<Entry> = Seq::empty();
    loop
        invariant
            total == log@.len(),
            cursor <= total,
            log_entries(T::kind(), log@) == done + entries_from(T::kind(), log@, cursor as nat),
            match newest_data {
                Some((data, offset, length)) => newest(done, key@) == Some(
                    Entry { record: data@, offset: offset as nat, length: length as nat },
                ),
                None => newest(done, key@) is None,
            },
        ensures
            entries_from(T::kind(), log@, cursor as nat) == Seq::<Entry>::empty(),
        decreases total - cursor,
    {
        match read_next::<T>(log, cursor) {
            Some((data, length)) => {
                let ghost entry = Entry {
                    record: data@,
                    offset: cursor as nat,
                    length: length as nat,
                };
                proof {
                    lemma_encoding_len(data@);
                    lemma_newest_wins(done, key@);
                    lemma_push_entry(done, entry, entries_from(
                        T::kind(),
                        log@,
                        (cursor + length) as nat,
                    ));
                    match newest_index(done, key@) {
                        Some(i) => {
                            assert(done.push(entry)[i] == done[i]);
                        },
                        None => {},
                    }
                }
                if text_eq(key, data.key()) {
                    let is_newer_data: bool = match &newest_data {
                        Some((old_data, _, _)) => *data.timestamp() >= *old_data.timestamp(),
                        None => true,
                    };
                    if is_newer_data {
                        newest_data = Some((data.duplicate(), cursor as u64, length));
                    }
                }
                proof {
                    done = done.push(entry);
                }
                cursor = cursor + length;
            },
            None => {
                break ;
            },
        }
    }
    assert(log_entries(T::kind(), log@) =~= done);
    match newest_data {
        Some((data, offset, length)) => Ok(Some((data, offset, length))),
        None => Ok(None),
    }
}

/// Moving the first of the records still to read to those already read.
proof fn lemma_push_entry(done: Seq<Entry>, entry: Entry, rest: Seq<Entry>)
    ensures
        done + (seq![entry] + rest) == done.push(entry) + rest,
        done.push(entry).drop_last() == done,
        done.push(entry).last() == entry,
{
    assert(done + (seq![entry] + rest) =~= done.push(entry) + rest);
    assert(done.push(entry).drop_last() =~= done);
}

/// What an index record does to the index.
pub open spec fn apply_index(
    indexes: Map<Seq<char>, IndexBucket>,
    record: Record,
) -> Map<Seq<char>, IndexBucket> {
    match record {
        Record::Index { key, offset, length, operation, .. } => if operation
            == Operation::DELETE {
            indexes.remove(key)
        } else {
            indexes.insert(key, IndexBucket { offset, length })
        },
        Record::Data { .. } => indexes,
    }
}

/// The index that the records of an index log build, applied first to last.
pub open spec fn replay(entries: Seq<Entry>) -> Map<Seq<char>, IndexBucket>
    decreases entries.len(),
{
    if entries.len() == 0 {
        Map::empty()
    } else {
        apply_index(replay(entries.drop_last()), entries.last().record)
    }
}

/// Reads through an index log and rebuilds the index from it: `ADD` and
/// `UPDATE` put the record's place under its key, `DELETE` removes the key.
/// Reading ends at the first place where no record begins.
pub fn restore_indexes(log: &LogFile) -> (r: Result<IndexMap, StoreError>)
    ensures
        match r {
            Ok(map) => map@ == replay(log_entries(RecordKind::Index, log@)),
            Err(_) => false,
        },
{
    let total: usize = log.len();
    let mut map = IndexMap::new();
    let mut cursor: usize = 0;
    let ghost mut done: Seq<Entry> = Seq::empty();
    loop
        invariant
            total == log@.len(),
            cursor <= total,
            log_entries(RecordKind::Index, log@) == done + entries_from(
                RecordKind::Index,
                log@,
                cursor as nat,
            ),
            map@ == replay(done),
        ensures
            entries_from(RecordKind::Index, log@, cursor as nat) == Seq::<Entry>::empty(),
        decreases total - cursor,
    {
        match read_next::<DBIndex>(log, cursor) {
            Some((data, length)) => {
                let ghost entry = Entry {
                    record: data@,
                    offset: cursor as nat,
                    length: length as nat,
                };
                proof {
                    lemma_encoding_len(data@);
                    lemma_push_entry(done, entry, entries_from(
                        RecordKind::Index,
                        log@,
                        (cursor + length) as nat,
                    ));
                }
                match data.operation() {
                    Operation::ADD | Operation::UPDATE => {
                        let bucket = convert_db_index_to_index_bucket(&data);
                        map.insert(data.key, bucket);
                    },
                    Operation::DELETE => {
                        map.remove(data.key.as_str());
                    },
                }
                proof {
                    done = done.push(entry);
                }
                cursor = cursor + length;
            },
            None => {
                break ;
            },
        }
    }
    assert(log_entries(RecordKind::Index, log@) =~= done);
    Ok(map)
}

} // verus!
