//! The record codec: what a record's bytes are, and the calls that produce and
//! read them.
//!
//! A record is stored as its fields in order. A string is stored as the number
//! of its UTF-8 bytes, as eight little-endian bytes, followed by those bytes; an
//! integer of `n` bits as `n / 8` little-endian bytes; an operation as its code
//! in four bytes.

use crate::datastore::indexable::Indexable;
use crate::datastore::operation::{operation_code, Operation};
use crate::error::StoreError;
use vstd::bytes::{
    lemma_auto_spec_u32_to_from_le_bytes, lemma_auto_spec_u64_to_from_le_bytes,
    spec_u32_to_le_bytes, spec_u64_to_le_bytes,
};
use vstd::prelude::*;
use vstd::string::StringSliceAdditionalSpecFns;
use vstd::utf8::{encode_utf8, encode_utf8_decode_utf8};

verus! {

/// The two kinds of record: those of the data log and those of the index log.
pub enum RecordKind {
    Data,
    Index,
}

/// The mathematical value of a record.
pub enum Record {
    /// A key with its value, as the data log holds it.
    Data { key: Seq<char>, val: Seq<char>, operation: Operation, timestamp: i64 },
    /// A key with the place of its newest data record, as the index log holds it.
    Index { key: Seq<char>, offset: u64, length: usize, operation: Operation, timestamp: i64 },
}

impl Record {
    pub open spec fn kind(self) -> RecordKind {
        match self {
            Record::Data { .. } => RecordKind::Data,
            Record::Index { .. } => RecordKind::Index,
        }
    }

    pub open spec fn key(self) -> Seq<char> {
        match self {
            Record::Data { key, .. } => key,
            Record::Index { key, .. } => key,
        }
    }

    pub open spec fn operation(self) -> Operation {
        match self {
            Record::Data { operation, .. } => operation,
            Record::Index { operation, .. } => operation,
        }
    }

    pub open spec fn timestamp(self) -> i64 {
        match self {
            Record::Data { timestamp, .. } => timestamp,
            Record::Index { timestamp, .. } => timestamp,
        }
    }
}

/// The bytes of a string: its length in UTF-8, then its UTF-8 bytes.
pub open spec fn text_bytes(text: Seq<char>) -> Seq<u8> {
    spec_u64_to_le_bytes(encode_utf8(text).len() as u64) + encode_utf8(text)
}

/// The bytes of the fields of a data record.
pub open spec fn data_bytes(key: Seq<char>, val: Seq<char>, code: u32, timestamp: i64) -> Seq<u8> {
    text_bytes(key) + text_bytes(val) + spec_u32_to_le_bytes(code) + spec_u64_to_le_bytes(
        timestamp as u64,
    )
}

/// The bytes of the fields of an index record.
pub open spec fn index_bytes(
    key: Seq<char>,
    offset: u64,
    length: u64,
    code: u32,
    timestamp: i64,
) -> Seq<u8> {
    text_bytes(key) + spec_u64_to_le_bytes(offset) + spec_u64_to_le_bytes(length)
        + spec_u32_to_le_bytes(code) + spec_u64_to_le_bytes(timestamp as u64)
}

/// The bytes of a record.
pub open spec fn encoding(record: Record) -> Seq<u8> {
    match record {
        Record::Data { key, val, operation, timestamp } => data_bytes(
            key,
            val,
            operation_code(operation),
            timestamp,
        ),
        Record::Index { key, offset, length, operation, timestamp } => index_bytes(
            key,
            offset,
            length as u64,
            operation_code(operation),
            timestamp,
        ),
    }
}

/// Whether `bytes` begins with the bytes of `record`, a record of kind `kind`.
pub open spec fn begins_with(kind: RecordKind, bytes: Seq<u8>, record: Record) -> bool {
    record.kind() == kind && encoding(record).is_prefix_of(bytes)
}

/// The record of kind `kind` that `bytes` begins with, if it begins with one.
pub open spec fn parse(kind: RecordKind, bytes: Seq<u8>) -> Option<Record> {
    if exists|record: Record| begins_with(kind, bytes, record) {
        Some(choose|record: Record| begins_with(kind, bytes, record))
    } else {
        None
    }
}

/// Two sequences that begin the same bytes with parts of one length begin them
/// with the same part, and what follows each part begins the rest of the bytes.
pub proof fn lemma_prefix_split(
    head1: Seq<u8>,
    tail1: Seq<u8>,
    head2: Seq<u8>,
    tail2: Seq<u8>,
    bytes: Seq<u8>,
)
    requires
        (head1 + tail1).is_prefix_of(bytes),
        (head2 + tail2).is_prefix_of(bytes),
        head1.len() == head2.len(),
    ensures
        head1 == head2,
        tail1.is_prefix_of(bytes.skip(head1.len() as int)),
        tail2.is_prefix_of(bytes.skip(head1.len() as int)),
{
    let n = head1.len() as int;
    assert forall|i: int| 0 <= i < n implies head1[i] == head2[i] by {
        assert((head1 + tail1)[i] == bytes[i]);
        assert((head2 + tail2)[i] == bytes[i]);
    }
    assert(head1 =~= head2);
    let rest = bytes.skip(n);
    assert forall|i: int| 0 <= i < tail1.len() implies tail1[i] == rest[i] by {
        assert((head1 + tail1)[n + i] == bytes[n + i]);
    }
    assert(tail1 =~= rest.subrange(0, tail1.len() as int));
    assert forall|i: int| 0 <= i < tail2.len() implies tail2[i] == rest[i] by {
        assert((head2 + tail2)[n + i] == bytes[n + i]);
    }
    assert(tail2 =~= rest.subrange(0, tail2.len() as int));
}

/// Two 64-bit numbers whose bytes begin the same bytes are equal.
pub proof fn lemma_u64_split(x1: u64, tail1: Seq<u8>, x2: u64, tail2: Seq<u8>, bytes: Seq<u8>)
    requires
        (spec_u64_to_le_bytes(x1) + tail1).is_prefix_of(bytes),
        (spec_u64_to_le_bytes(x2) + tail2).is_prefix_of(bytes),
    ensures
        x1 == x2,
        tail1.is_prefix_of(bytes.skip(8)),
        tail2.is_prefix_of(bytes.skip(8)),
{
    lemma_auto_spec_u64_to_from_le_bytes();
    lemma_prefix_split(spec_u64_to_le_bytes(x1), tail1, spec_u64_to_le_bytes(x2), tail2, bytes);
}

/// Two 32-bit numbers whose bytes begin the same bytes are equal.
pub proof fn lemma_u32_split(x1: u32, tail1: Seq<u8>, x2: u32, tail2: Seq<u8>, bytes: Seq<u8>)
    requires
        (spec_u32_to_le_bytes(x1) + tail1).is_prefix_of(bytes),
        (spec_u32_to_le_bytes(x2) + tail2).is_prefix_of(bytes),
    ensures
        x1 == x2,
        tail1.is_prefix_of(bytes.skip(4)),
        tail2.is_prefix_of(bytes.skip(4)),
{
    lemma_auto_spec_u32_to_from_le_bytes();
    lemma_prefix_split(spec_u32_to_le_bytes(x1), tail1, spec_u32_to_le_bytes(x2), tail2, bytes);
}

/// Two strings whose bytes begin the same bytes are equal.
pub proof fn lemma_text_split(
    text1: Seq<char>,
    tail1: Seq<u8>,
    text2: Seq<char>,
    tail2: Seq<u8>,
    bytes: Seq<u8>,
)
    requires
        (text_bytes(text1) + tail1).is_prefix_of(bytes),
        (text_bytes(text2) + tail2).is_prefix_of(bytes),
        bytes.len() <= u64::MAX,
    ensures
        text1 == text2,
        tail1.is_prefix_of(bytes.skip(text_bytes(text1).len() as int)),
        tail2.is_prefix_of(bytes.skip(text_bytes(text1).len() as int)),
{
    lemma_auto_spec_u64_to_from_le_bytes();
    let utf1 = encode_utf8(text1);
    let utf2 = encode_utf8(text2);
    let len1 = utf1.len() as u64;
    let len2 = utf2.len() as u64;
    assert(text_bytes(text1) + tail1 =~= spec_u64_to_le_bytes(len1) + (utf1 + tail1));
    assert(text_bytes(text2) + tail2 =~= spec_u64_to_le_bytes(len2) + (utf2 + tail2));
    lemma_u64_split(len1, utf1 + tail1, len2, utf2 + tail2, bytes);
    assert(utf1.len() == utf2.len());
    let rest = bytes.skip(8);
    lemma_prefix_split(utf1, tail1, utf2, tail2, rest);
    encode_utf8_decode_utf8(text1);
    encode_utf8_decode_utf8(text2);
    assert(rest.skip(utf1.len() as int) =~= bytes.skip(text_bytes(text1).len() as int));
}

/// Two timestamps with the same 64 bits are equal.
pub proof fn lemma_timestamp_bits(t1: i64, t2: i64)
    requires
        t1 as u64 == t2 as u64,
    ensures
        t1 == t2,
{
    assert(t1 as u64 == t2 as u64 ==> t1 == t2) by (bit_vector);
}

/// How long the bytes of a data record are.
pub proof fn lemma_data_bytes_len(key: Seq<char>, val: Seq<char>, code: u32, timestamp: i64)
    ensures
        data_bytes(key, val, code, timestamp).len() == 28 + encode_utf8(key).len() + encode_utf8(
            val,
        ).len(),
{
    lemma_auto_spec_u64_to_from_le_bytes();
    lemma_auto_spec_u32_to_from_le_bytes();
}

/// How long the bytes of an index record are.
pub proof fn lemma_index_bytes_len(
    key: Seq<char>,
    offset: u64,
    length: u64,
    code: u32,
    timestamp: i64,
)
    ensures
        index_bytes(key, offset, length, code, timestamp).len() == 36 + encode_utf8(key).len(),
{
    lemma_auto_spec_u64_to_from_le_bytes();
    lemma_auto_spec_u32_to_from_le_bytes();
}

/// The fields of a data record are determined by the bytes that it begins.
pub proof fn lemma_data_bytes_unique(
    key1: Seq<char>,
    val1: Seq<char>,
    code1: u32,
    timestamp1: i64,
    key2: Seq<char>,
    val2: Seq<char>,
    code2: u32,
    timestamp2: i64,
    bytes: Seq<u8>,
)
    requires
        data_bytes(key1, val1, code1, timestamp1).is_prefix_of(bytes),
        data_bytes(key2, val2, code2, timestamp2).is_prefix_of(bytes),
        bytes.len() <= u64::MAX,
    ensures
        key1 == key2,
        val1 == val2,
        code1 == code2,
        timestamp1 == timestamp2,
{
    let stamp1 = spec_u64_to_le_bytes(timestamp1 as u64);
    let stamp2 = spec_u64_to_le_bytes(timestamp2 as u64);
    let op1 = spec_u32_to_le_bytes(code1);
    let op2 = spec_u32_to_le_bytes(code2);
    let tail1 = text_bytes(val1) + (op1 + stamp1);
    let tail2 = text_bytes(val2) + (op2 + stamp2);
    assert(data_bytes(key1, val1, code1, timestamp1) =~= text_bytes(key1) + tail1);
    assert(data_bytes(key2, val2, code2, timestamp2) =~= text_bytes(key2) + tail2);
    lemma_text_split(key1, tail1, key2, tail2, bytes);
    let rest1 = bytes.skip(text_bytes(key1).len() as int);
    lemma_text_split(val1, op1 + stamp1, val2, op2 + stamp2, rest1);
    let rest2 = rest1.skip(text_bytes(val1).len() as int);
    lemma_u32_split(code1, stamp1, code2, stamp2, rest2);
    let rest3 = rest2.skip(4);
    assert(stamp1 =~= stamp1 + Seq::<u8>::empty());
    assert(stamp2 =~= stamp2 + Seq::<u8>::empty());
    lemma_u64_split(
        timestamp1 as u64,
        Seq::<u8>::empty(),
        timestamp2 as u64,
        Seq::<u8>::empty(),
        rest3,
    );
    lemma_timestamp_bits(timestamp1, timestamp2);
}

/// The fields of an index record are determined by the bytes that it begins.
pub proof fn lemma_index_bytes_unique(
    key1: Seq<char>,
    offset1: u64,
    length1: u64,
    code1: u32,
    timestamp1: i64,
    key2: Seq<char>,
    offset2: u64,
    length2: u64,
    code2: u32,
    timestamp2: i64,
    bytes: Seq<u8>,
)
    requires
        index_bytes(key1, offset1, length1, code1, timestamp1).is_prefix_of(bytes),
        index_bytes(key2, offset2, length2, code2, timestamp2).is_prefix_of(bytes),
        bytes.len() <= u64::MAX,
    ensures
        key1 == key2,
        offset1 == offset2,
        length1 == length2,
        code1 == code2,
        timestamp1 == timestamp2,
{
    let stamp1 = spec_u64_to_le_bytes(timestamp1 as u64);
    let stamp2 = spec_u64_to_le_bytes(timestamp2 as u64);
    let op1 = spec_u32_to_le_bytes(code1);
    let op2 = spec_u32_to_le_bytes(code2);
    let len1 = spec_u64_to_le_bytes(length1);
    let len2 = spec_u64_to_le_bytes(length2);
    let off1 = spec_u64_to_le_bytes(offset1);
    let off2 = spec_u64_to_le_bytes(offset2);
    let tail1 = off1 + (len1 + (op1 + stamp1));
    let tail2 = off2 + (len2 + (op2 + stamp2));
    assert(index_bytes(key1, offset1, length1, code1, timestamp1) =~= text_bytes(key1) + tail1);
    assert(index_bytes(key2, offset2, length2, code2, timestamp2) =~= text_bytes(key2) + tail2);
    lemma_text_split(key1, tail1, key2, tail2, bytes);
    let rest1 = bytes.skip(text_bytes(key1).len() as int);
    lemma_u64_split(offset1, len1 + (op1 + stamp1), offset2, len2 + (op2 + stamp2), rest1);
    let rest2 = rest1.skip(8);
    lemma_u64_split(length1, op1 + stamp1, length2, op2 + stamp2, rest2);
    let rest3 = rest2.skip(8);
    lemma_u32_split(code1, stamp1, code2, stamp2, rest3);
    let rest4 = rest3.skip(4);
    assert(stamp1 =~= stamp1 + Seq::<u8>::empty());
    assert(stamp2 =~= stamp2 + Seq::<u8>::empty());
    lemma_u64_split(
        timestamp1 as u64,
        Seq::<u8>::empty(),
        timestamp2 as u64,
        Seq::<u8>::empty(),
        rest4,
    );
    lemma_timestamp_bits(timestamp1, timestamp2);
}

/// The code of an operation determines the operation.
pub proof fn lemma_operation_code_unique(o1: Operation, o2: Operation)
    requires
        operation_code(o1) == operation_code(o2),
    ensures
        o1 == o2,
{
}

/// A record is determined by its kind and the bytes that it begins.
pub proof fn lemma_encoding_unique(record1: Record, record2: Record, bytes: Seq<u8>)
    requires
        record1.kind() == record2.kind(),
        encoding(record1).is_prefix_of(bytes),
        encoding(record2).is_prefix_of(bytes),
        bytes.len() <= u64::MAX,
    ensures
        record1 == record2,
{
    match (record1, record2) {
        (
            Record::Data { key: key1, val: val1, operation: o1, timestamp: t1 },
            Record::Data { key: key2, val: val2, operation: o2, timestamp: t2 },
        ) => {
            lemma_data_bytes_unique(
                key1,
                val1,
                operation_code(o1),
                t1,
                key2,
                val2,
                operation_code(o2),
                t2,
                bytes,
            );
            lemma_operation_code_unique(o1, o2);
        },
        (
            Record::Index { key: key1, offset: off1, length: len1, operation: o1, timestamp: t1 },
            Record::Index { key: key2, offset: off2, length: len2, operation: o2, timestamp: t2 },
        ) => {
            lemma_index_bytes_unique(
                key1,
                off1,
                len1 as u64,
                operation_code(o1),
                t1,
                key2,
                off2,
                len2 as u64,
                operation_code(o2),
                t2,
                bytes,
            );
            lemma_operation_code_unique(o1, o2);
        },
        _ => {},
    }
}

/// A record's bytes are never empty.
pub proof fn lemma_encoding_len(record: Record)
    ensures
        encoding(record).len() >= 28,
{
    match record {
        Record::Data { key, val, operation, timestamp } => {
            lemma_data_bytes_len(key, val, operation_code(operation), timestamp);
        },
        Record::Index { key, offset, length, operation, timestamp } => {
            lemma_index_bytes_len(key, offset, length as u64, operation_code(operation), timestamp);
        },
    }
}

/// Decoding is the inverse of encoding: bytes that begin with the bytes of a
/// record parse to that record, whatever follows.
pub proof fn lemma_parse_encoding(record: Record, rest: Seq<u8>)
    requires
        encoding(record).len() + rest.len() <= u64::MAX,
    ensures
        parse(record.kind(), encoding(record) + rest) == Some(record),
{
    let bytes = encoding(record) + rest;
    assert(encoding(record) =~= bytes.subrange(0, encoding(record).len() as int));
    assert(begins_with(record.kind(), bytes, record));
    let found = choose|found: Record| begins_with(record.kind(), bytes, found);
    lemma_encoding_unique(record, found, bytes);
}

/// What `parse` finds is the one record of its kind that the bytes begin with.
pub proof fn lemma_parse_unique(kind: RecordKind, bytes: Seq<u8>, record: Record)
    requires
        begins_with(kind, bytes, record),
        bytes.len() <= u64::MAX,
    ensures
        parse(kind, bytes) == Some(record),
{
    let found = choose|found: Record| begins_with(kind, bytes, found);
    lemma_encoding_unique(record, found, bytes);
}

/// The error of the outside codec. Nothing is read from it: each failure of the
/// codec becomes a [`StoreError`].
#[verifier::external_type_specification]
#[verifier::external_body]
pub struct ExBincodeErrorKind(bincode::ErrorKind);

/// Calls `bincode::serialize` on the four fields of a data record.
///
/// Trusted: the call succeeds, for it runs without a size limit and writes
/// into a vector; its bytes are the fields in order, each in the fixed-width
/// little-endian form that [`data_bytes`] writes out.
#[verifier::external_body]
pub(crate) fn bincode_serialize_data(key: &str, val: &str, code: u32, timestamp: i64) -> (r: Result<
    Vec<u8>,
    Box<bincode::ErrorKind>,
>)
    ensures
        r is Ok,
        (r matches Ok(bytes) ==> bytes@ == data_bytes(key@, val@, code, timestamp)),
{
    bincode::serialize(&(key, val, code, timestamp))
}

/// Calls `bincode::deserialize` for the four fields of a data record. Bytes
/// that follow the record are ignored.
///
/// Trusted: the call succeeds exactly on bytes that begin with the bytes of
/// four such fields, and then it returns those fields.
#[verifier::external_body]
pub(crate) fn bincode_deserialize_data(bytes: &[u8]) -> (r: Result<
    (String, String, u32, i64),
    Box<bincode::ErrorKind>,
>)
    ensures
        (match r {
            Ok(fields) => data_bytes(fields.0@, fields.1@, fields.2, fields.3).is_prefix_of(
                bytes@,
            ),
            Err(_) => forall|key: Seq<char>, val: Seq<char>, code: u32, timestamp: i64|
                !(#[trigger] data_bytes(key, val, code, timestamp)).is_prefix_of(bytes@),
        }),
{
    bincode::deserialize(bytes)
}

/// Calls `bincode::serialize` on the five fields of an index record.
///
/// Trusted: the call succeeds, for it runs without a size limit and writes
/// into a vector; its bytes are the fields in order, each in the fixed-width
/// little-endian form that [`index_bytes`] writes out.
#[verifier::external_body]
pub(crate) fn bincode_serialize_index(
    key: &str,
    offset: u64,
    length: u64,
    code: u32,
    timestamp: i64,
) -> (r: Result<Vec<u8>, Box<bincode::ErrorKind>>)
    ensures
        r is Ok,
        (r matches Ok(bytes) ==> bytes@ == index_bytes(key@, offset, length, code, timestamp)),
{
    bincode::serialize(&(key, offset, length, code, timestamp))
}

/// Calls `bincode::deserialize` for the five fields of an index record. Bytes
/// that follow the record are ignored.
///
/// Trusted: the call succeeds exactly on bytes that begin with the bytes of
/// five such fields, and then it returns those fields.
#[verifier::external_body]
pub(crate) fn bincode_deserialize_index(bytes: &[u8]) -> (r: Result<
    (String, u64, u64, u32, i64),
    Box<bincode::ErrorKind>,
>)
    ensures
        (match r {
            Ok(fields) => index_bytes(
                fields.0@,
                fields.1,
                fields.2,
                fields.3,
                fields.4,
            ).is_prefix_of(bytes@),
            Err(_) => forall|
                key: Seq<char>,
                offset: u64,
                length: u64,
                code: u32,
                timestamp: i64,
            |
                !(#[trigger] index_bytes(key, offset, length, code, timestamp)).is_prefix_of(
                    bytes@,
                ),
        }),
{
    bincode::deserialize(bytes)
}

/// The bytes of one entry of a segment: its key, then its value.
pub open spec fn entry_bytes(key: u64, val: Seq<char>) -> Seq<u8> {
    spec_u64_to_le_bytes(key) + text_bytes(val)
}

/// The bytes of a list of entries, one after the other.
pub open spec fn entries_bytes(entries: Seq<(u64, Seq<char>)>) -> Seq<u8>
    decreases entries.len(),
{
    if entries.len() == 0 {
        Seq::empty()
    } else {
        entry_bytes(entries[0].0, entries[0].1) + entries_bytes(entries.drop_first())
    }
}

/// The bytes of a segment: the number of its entries, then the entries.
pub open spec fn pairs_bytes(entries: Seq<(u64, Seq<char>)>) -> Seq<u8> {
    spec_u64_to_le_bytes(entries.len() as u64) + entries_bytes(entries)
}

/// The mathematical value of a list of pairs: each value as its characters.
pub open spec fn pairs_view(pairs: Seq<(u64, String)>) -> Seq<(u64, Seq<char>)> {
    Seq::new(pairs.len(), |i: int| (pairs[i].0, pairs[i].1@))
}

/// How long the bytes of an entry are.
pub proof fn lemma_entry_bytes_len(key: u64, val: Seq<char>)
    ensures
        entry_bytes(key, val).len() == 16 + encode_utf8(val).len(),
{
    lemma_auto_spec_u64_to_from_le_bytes();
}

/// The bytes of a list of entries are at least sixteen for each entry.
pub proof fn lemma_entries_bytes_len(entries: Seq<(u64, Seq<char>)>)
    ensures
        entries_bytes(entries).len() >= 16 * entries.len(),
    decreases entries.len(),
{
    if entries.len() > 0 {
        lemma_entry_bytes_len(entries[0].0, entries[0].1);
        lemma_entries_bytes_len(entries.drop_first());
    }
}

/// Lists of entries of one length whose bytes begin the same bytes are equal.
pub proof fn lemma_entries_bytes_unique(
    entries1: Seq<(u64, Seq<char>)>,
    entries2: Seq<(u64, Seq<char>)>,
    bytes: Seq<u8>,
)
    requires
        entries1.len() == entries2.len(),
        entries_bytes(entries1).is_prefix_of(bytes),
        entries_bytes(entries2).is_prefix_of(bytes),
        bytes.len() <= u64::MAX,
    ensures
        entries1 == entries2,
    decreases entries1.len(),
{
    if entries1.len() == 0 {
        assert(entries1 =~= entries2);
    } else {
        let tail1 = entries_bytes(entries1.drop_first());
        let tail2 = entries_bytes(entries2.drop_first());
        let (key1, val1) = entries1[0];
        let (key2, val2) = entries2[0];
        assert(entries_bytes(entries1) =~= spec_u64_to_le_bytes(key1) + (text_bytes(val1) + tail1));
        assert(entries_bytes(entries2) =~= spec_u64_to_le_bytes(key2) + (text_bytes(val2) + tail2));
        lemma_auto_spec_u64_to_from_le_bytes();
        lemma_u64_split(key1, text_bytes(val1) + tail1, key2, text_bytes(val2) + tail2, bytes);
        let rest1 = bytes.skip(8);
        assert(rest1.len() <= bytes.len());
        lemma_text_split(val1, tail1, val2, tail2, rest1);
        let rest2 = rest1.skip(text_bytes(val1).len() as int);
        assert((text_bytes(val1) + tail1).len() <= rest1.len());
        assert(rest2.len() <= rest1.len());
        lemma_entries_bytes_unique(entries1.drop_first(), entries2.drop_first(), rest2);
        assert(entries1 =~= seq![entries1[0]] + entries1.drop_first());
        assert(entries2 =~= seq![entries2[0]] + entries2.drop_first());
    }
}

/// The entries of a segment are determined by the bytes that they begin.
pub proof fn lemma_pairs_bytes_unique(
    entries1: Seq<(u64, Seq<char>)>,
    entries2: Seq<(u64, Seq<char>)>,
    bytes: Seq<u8>,
)
    requires
        pairs_bytes(entries1).is_prefix_of(bytes),
        pairs_bytes(entries2).is_prefix_of(bytes),
        bytes.len() <= u64::MAX,
    ensures
        entries1 == entries2,
{
    lemma_auto_spec_u64_to_from_le_bytes();
    lemma_entries_bytes_len(entries1);
    lemma_entries_bytes_len(entries2);
    lemma_u64_split(
        entries1.len() as u64,
        entries_bytes(entries1),
        entries2.len() as u64,
        entries_bytes(entries2),
        bytes,
    );
    lemma_entries_bytes_unique(entries1, entries2, bytes.skip(8));
}

/// Calls `bincode::serialize` on a list of pairs of a key and a value.
///
/// Trusted: the call succeeds, for it runs without a size limit and writes
/// into a vector; its bytes are the number of pairs in eight little-endian
/// bytes, then each pair's key and value in order, in the form that
/// [`pairs_bytes`] writes out.
#[verifier::external_body]
pub(crate) fn bincode_serialize_pairs(pairs: &Vec<(u64, String)>) -> (r: Result<
    Vec<u8>,
    Box<bincode::ErrorKind>,
>)
    ensures
        r is Ok,
        (r matches Ok(bytes) ==> bytes@ == pairs_bytes(pairs_view(pairs@))),
{
    bincode::serialize(pairs)
}

/// Calls `bincode::deserialize` for a list of pairs of a key and a value.
/// Bytes that follow the list are ignored.
///
/// Trusted: the call succeeds exactly on bytes that begin with the bytes of
/// such a list, and then it returns that list.
#[verifier::external_body]
pub(crate) fn bincode_deserialize_pairs(bytes: &[u8]) -> (r: Result<
    Vec<(u64, String)>,
    Box<bincode::ErrorKind>,
>)
    ensures
        (match r {
            Ok(pairs) => pairs_bytes(pairs_view(pairs@)).is_prefix_of(bytes@),
            Err(_) => forall|entries: Seq<(u64, Seq<char>)>|
                !(#[trigger] pairs_bytes(entries)).is_prefix_of(bytes@),
        }),
{
    bincode::deserialize(bytes)
}

/// The entries that `bytes` begins with, if it begins with the bytes of a list
/// of entries.
pub open spec fn parse_pairs(bytes: Seq<u8>) -> Option<Seq<(u64, Seq<char>)>> {
    if exists|entries: Seq<(u64, Seq<char>)>| pairs_bytes(entries).is_prefix_of(bytes) {
        Some(choose|entries: Seq<(u64, Seq<char>)>| pairs_bytes(entries).is_prefix_of(bytes))
    } else {
        None
    }
}

/// Decoding a segment is the inverse of encoding it.
pub proof fn lemma_parse_pairs(entries: Seq<(u64, Seq<char>)>, rest: Seq<u8>)
    requires
        pairs_bytes(entries).len() + rest.len() <= u64::MAX,
    ensures
        parse_pairs(pairs_bytes(entries) + rest) == Some(entries),
{
    let bytes = pairs_bytes(entries) + rest;
    assert(pairs_bytes(entries) =~= bytes.subrange(0, pairs_bytes(entries).len() as int));
    let found = choose|found: Seq<(u64, Seq<char>)>| pairs_bytes(found).is_prefix_of(bytes);
    lemma_pairs_bytes_unique(entries, found, bytes);
}

/// The bytes of a list of pairs. Encoding never fails.
pub fn encode_pairs(pairs: &Vec<(u64, String)>) -> (r: Result<Vec<u8>, StoreError>)
    ensures
        r matches Ok(bytes) && bytes@ == pairs_bytes(pairs_view(pairs@)),
{
    match bincode_serialize_pairs(pairs) {
        Ok(bytes) => Ok(bytes),
        Err(_) => Err(StoreError::Io),
    }
}

/// The number of UTF-8 bytes of a string.
pub fn text_len(text: &str) -> (len: usize)
    ensures
        len == encode_utf8(text@).len(),
{
    text.as_bytes().len()
}

/// The number of bytes of a record with `fixed` bytes beside its strings and
/// strings of `key_len` and `val_len` bytes; `None` where the number does not
/// fit into 64 bits.
pub fn sum_sizes(fixed: u64, key_len: usize, val_len: usize) -> (total: Option<u64>)
    ensures
        match total {
            Some(size) => size == fixed + key_len + val_len,
            None => fixed + key_len + val_len > u64::MAX,
        },
{
    match fixed.checked_add(key_len as u64) {
        Some(with_key) => with_key.checked_add(val_len as u64),
        None => None,
    }
}

/// The bytes of two lists of entries, one after the other, are the bytes of
/// the one list that holds both.
pub proof fn lemma_entries_bytes_concat(
    first: Seq<(u64, Seq<char>)>,
    second: Seq<(u64, Seq<char>)>,
)
    ensures
        entries_bytes(first + second) == entries_bytes(first) + entries_bytes(second),
    decreases first.len(),
{
    if first.len() == 0 {
        assert(first + second =~= second);
        assert(entries_bytes(first) + entries_bytes(second) =~= entries_bytes(second));
    } else {
        let whole = first + second;
        assert(whole[0] == first[0]);
        assert(whole.drop_first() =~= first.drop_first() + second);
        lemma_entries_bytes_concat(first.drop_first(), second);
        assert(entries_bytes(whole) =~= entries_bytes(first) + entries_bytes(second));
    }
}

/// How long the bytes of the first `count + 1` entries are.
pub proof fn lemma_entries_bytes_take(entries: Seq<(u64, Seq<char>)>, count: int)
    requires
        0 <= count < entries.len(),
    ensures
        entries_bytes(entries.take(count + 1)).len() == entries_bytes(entries.take(count)).len()
            + 16 + encode_utf8(entries[count].1).len(),
        entries_bytes(entries.take(count + 1)).len() <= entries_bytes(entries).len(),
{
    let one = seq![entries[count]];
    assert(entries.take(count + 1) =~= entries.take(count) + one);
    lemma_entries_bytes_concat(entries.take(count), one);
    assert(one.drop_first() =~= Seq::<(u64, Seq<char>)>::empty());
    assert(entries_bytes(one.drop_first()) =~= Seq::<u8>::empty());
    assert(entries_bytes(one) =~= entry_bytes(entries[count].0, entries[count].1));
    lemma_entry_bytes_len(entries[count].0, entries[count].1);
    assert(entries =~= entries.take(count + 1) + entries.skip(count + 1));
    lemma_entries_bytes_concat(entries.take(count + 1), entries.skip(count + 1));
}

/// The number of bytes of one entry of a segment; `None` where the number does
/// not fit into 64 bits.
pub fn entry_size(key: u64, val: &str) -> (size: Option<u64>)
    ensures
        match size {
            Some(n) => n == entry_bytes(key, val@).len(),
            None => entry_bytes(key, val@).len() > u64::MAX,
        },
{
    proof {
        lemma_entry_bytes_len(key, val@);
    }
    sum_sizes(16, text_len(val), 0)
}

/// The number of bytes of a list of pairs, without producing them. Fails where
/// the number does not fit into 64 bits.
pub fn pairs_size(pairs: &Vec<(u64, String)>) -> (r: Result<u64, StoreError>)
    ensures
        match r {
            Ok(size) => size == pairs_bytes(pairs_view(pairs@)).len(),
            Err(e) => e == StoreError::Io && pairs_bytes(pairs_view(pairs@)).len() > u64::MAX,
        },
{
    let ghost entries = pairs_view(pairs@);
    let mut total: u64 = 8;
    let mut i: usize = 0;
    proof {
        lemma_auto_spec_u64_to_from_le_bytes();
        assert(entries.take(0) =~= Seq::<(u64, Seq<char>)>::empty());
    }
    while i < pairs.len()
        invariant
            i <= pairs@.len(),
            entries == pairs_view(pairs@),
            pairs_bytes(entries).len() == 8 + entries_bytes(entries).len(),
            total == 8 + entries_bytes(entries.take(i as int)).len(),
        decreases pairs@.len() - i,
    {
        proof {
            lemma_entries_bytes_take(entries, i as int);
            lemma_entry_bytes_len(entries[i as int].0, entries[i as int].1);
            assert(entries[i as int] == (pairs@[i as int].0, pairs@[i as int].1@));
        }
        let size: u64 = match entry_size(pairs[i].0, pairs[i].1.as_str()) {
            Some(size) => size,
            None => {
                return Err(StoreError::Io);
            },
        };
        total = match total.checked_add(size) {
            Some(sum) => sum,
            None => {
                return Err(StoreError::Io);
            },
        };
        i = i + 1;
    }
    proof {
        assert(entries.take(pairs@.len() as int) =~= entries);
    }
    Ok(total)
}

/// The list of pairs that `bytes` begins with: the inverse of
/// [`encode_pairs`].
pub fn decode_pairs(bytes: &[u8]) -> (r: Result<Vec<(u64, String)>, StoreError>)
    ensures
        match r {
            Ok(pairs) => parse_pairs(bytes@) == Some(pairs_view(pairs@)),
            Err(e) => e == StoreError::Decode && parse_pairs(bytes@) is None,
        },
{
    proof {
        assert(bytes.len() == bytes@.len());
    }
    match bincode_deserialize_pairs(bytes) {
        Ok(pairs) => {
            proof {
                let found = choose|found: Seq<(u64, Seq<char>)>|
                    pairs_bytes(found).is_prefix_of(bytes@);
                lemma_pairs_bytes_unique(pairs_view(pairs@), found, bytes@);
            }
            Ok(pairs)
        },
        Err(_) => Err(StoreError::Decode),
    }
}

/// A record that can be written to a log and read back.
pub trait Storable: Indexable + Sized {
    /// The kind of record that this type holds.
    spec fn kind() -> RecordKind;

    /// Every value of the type is a record of the type's kind.
    proof fn lemma_kind(&self)
        ensures
            self@.kind() == Self::kind(),
    ;

    /// The bytes of the record. Encoding never fails.
    fn encode(&self) -> (r: Result<Vec<u8>, StoreError>)
        ensures
            r matches Ok(bytes) && bytes@ == encoding(self@),
    ;

    /// The number of bytes of the record, without producing them. Fails where
    /// the number does not fit into 64 bits.
    fn encoded_size(&self) -> (r: Result<u64, StoreError>)
        ensures
            match r {
                Ok(size) => size == encoding(self@).len(),
                Err(e) => e == StoreError::Io && encoding(self@).len() > u64::MAX,
            },
    ;

    /// The record that `bytes` begins with. Bytes that follow it are ignored.
    fn decode(bytes: &[u8]) -> (r: Result<Self, StoreError>)
        ensures
            match r {
                Ok(record) => parse(Self::kind(), bytes@) == Some(record@),
                Err(e) => e == StoreError::Decode && parse(Self::kind(), bytes@) is None,
            },
    ;

    /// A second record with the same value.
    fn duplicate(&self) -> (copy: Self)
        ensures
            copy@ == self@,
    ;
}

/// The number of bytes that `data` takes when serialized. Fails where the
/// number does not fit into 64 bits.
pub fn serialized_size<T: Storable>(data: &T) -> (r: Result<u64, StoreError>)
    ensures
        match r {
            Ok(size) => size == encoding(data@).len(),
            Err(e) => e == StoreError::Io && encoding(data@).len() > u64::MAX,
        },
{
    data.encoded_size()
}

/// The bytes of `data`. Serializing never fails.
pub fn serialize<T: Storable>(data: &T) -> (r: Result<Vec<u8>, StoreError>)
    ensures
        r matches Ok(bytes) && bytes@ == encoding(data@),
{
    data.encode()
}

/// The record that `data` begins with: the inverse of [`serialize`].
pub fn deserialize_bytes<T: Storable>(data: &[u8]) -> (r: Result<T, StoreError>)
    ensures
        match r {
            Ok(record) => parse(T::kind(), data@) == Some(record@),
            Err(e) => e == StoreError::Decode && parse(T::kind(), data@) is None,
        },
{
    T::decode(data)
}

} // verus!
