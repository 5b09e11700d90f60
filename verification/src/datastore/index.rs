//! The records of the index log.

use crate::datastore::indexable::Indexable;
use crate::datastore::operation::{operation_code, Operation};
use crate::error::StoreError;
use crate::file::serializer::{
    begins_with, bincode_deserialize_index, bincode_serialize_index, index_bytes,
    lemma_index_bytes_len, lemma_index_bytes_unique, lemma_parse_unique, parse, sum_sizes,
    text_len, Record, RecordKind, Storable,
};
use vstd::prelude::*;

verus! {

/// A record of the index log: a key with the place of its newest data record.
#[derive(Debug, PartialEq)]
pub struct DBIndex {
    pub key: String,
    pub offset: u64,
    pub length: usize,
    pub operation: Operation,
    pub timestamp: i64,
}

impl View for DBIndex {
    type V = Record;

    open spec fn view(&self) -> Record {
        Record::Index {
            key: self.key@,
            offset: self.offset,
            length: self.length,
            operation: self.operation,
            timestamp: self.timestamp,
        }
    }
}

impl DBIndex {
    pub fn new(
        key: String,
        offset: u64,
        length: usize,
        operation: Operation,
        timestamp: i64,
    ) -> (index: Self)
        ensures
            index.key == key,
            index.offset == offset,
            index.length == length,
            index.operation == operation,
            index.timestamp == timestamp,
    {
        Self { key, offset, length, operation, timestamp }
    }
}

impl Indexable for DBIndex {
    fn key(&self) -> (key: &str) {
        self.key.as_str()
    }

    fn operation(&self) -> (operation: &Operation) {
        &self.operation
    }

    fn timestamp(&self) -> (timestamp: &i64) {
        &self.timestamp
    }
}

/// No index record begins `bytes`, because index fields with another code or
/// length do.
proof fn lemma_no_index_record(
    bytes: Seq<u8>,
    key: Seq<char>,
    offset: u64,
    length: u64,
    code: u32,
    timestamp: i64,
)
    requires
        index_bytes(key, offset, length, code, timestamp).is_prefix_of(bytes),
        bytes.len() <= u64::MAX,
        code > 2 || length > usize::MAX,
    ensures
        parse(RecordKind::Index, bytes) is None,
{
    assert forall|record: Record| !begins_with(RecordKind::Index, bytes, record) by {
        if begins_with(RecordKind::Index, bytes, record) {
            match record {
                Record::Index { key: k, offset: f, length: l, operation: o, timestamp: t } => {
                    lemma_index_bytes_unique(
                        k,
                        f,
                        l as u64,
                        operation_code(o),
                        t,
                        key,
                        offset,
                        length,
                        code,
                        timestamp,
                        bytes,
                    );
                },
                _ => {},
            }
        }
    }
}

impl Storable for DBIndex {
    open spec fn kind() -> RecordKind {
        RecordKind::Index
    }

    proof fn lemma_kind(&self) {
    }

    fn encode(&self) -> (r: Result<Vec<u8>, StoreError>) {
        match bincode_serialize_index(
            self.key.as_str(),
            self.offset,
            self.length as u64,
            self.operation.code(),
            self.timestamp,
        ) {
            Ok(bytes) => Ok(bytes),
            Err(_) => Err(StoreError::Io),
        }
    }

    fn encoded_size(&self) -> (r: Result<u64, StoreError>) {
        proof {
            lemma_index_bytes_len(
                self.key@,
                self.offset,
                self.length as u64,
                operation_code(self.operation),
                self.timestamp,
            );
        }
        match sum_sizes(36, text_len(self.key.as_str()), 0) {
            Some(size) => Ok(size),
            None => Err(StoreError::Io),
        }
    }

    fn decode(bytes: &[u8]) -> (r: Result<Self, StoreError>) {
        proof {
            assert(bytes.len() == bytes@.len());
        }
        match bincode_deserialize_index(bytes) {
            Ok((key, offset, length, code, timestamp)) => {
                if length > usize::MAX as u64 {
                    proof {
                        lemma_no_index_record(bytes@, key@, offset, length, code, timestamp);
                    }
                    return Err(StoreError::Decode);
                }
                match Operation::from_code(code) {
                    Some(operation) => {
                        let index = DBIndex {
                            key,
                            offset,
                            length: length as usize,
                            operation,
                            timestamp,
                        };
                        proof {
                            lemma_parse_unique(RecordKind::Index, bytes@, index@);
                        }
                        Ok(index)
                    },
                    None => {
                        proof {
                            lemma_no_index_record(bytes@, key@, offset, length, code, timestamp);
                        }
                        Err(StoreError::Decode)
                    },
                }
            },
            Err(_) => {
                proof {
                    assert forall|record: Record|
                        !begins_with(RecordKind::Index, bytes@, record) by {
                        if begins_with(RecordKind::Index, bytes@, record) {
                            match record {
                                Record::Index {
                                    key: k,
                                    offset: f,
                                    length: l,
                                    operation: o,
                                    timestamp: t,
                                } => {
                                    assert(index_bytes(
                                        k,
                                        f,
                                        l as u64,
                                        operation_code(o),
                                        t,
                                    ).is_prefix_of(bytes@));
                                },
                                _ => {},
                            }
                        }
                    }
                }
                Err(StoreError::Decode)
            },
        }
    }

    fn duplicate(&self) -> (copy: Self) {
        DBIndex {
            key: self.key.clone(),
            offset: self.offset,
            length: self.length,
            operation: self.operation,
            timestamp: self.timestamp,
        }
    }
}

} // verus!
