//! The records of the data log.

use crate::datastore::indexable::Indexable;
use crate::datastore::operation::{operation_code, Operation};
use crate::error::StoreError;
use crate::file::serializer::{
    begins_with, bincode_deserialize_data, bincode_serialize_data, data_bytes,
    lemma_data_bytes_len, lemma_data_bytes_unique, lemma_parse_unique, sum_sizes, text_len,
    Record, RecordKind, Storable,
};
use vstd::prelude::*;

verus! {

/// A record of the data log: a key with a value.
#[derive(Debug, PartialEq, Clone)]
pub struct DBData {
    pub key: String,
    pub val: String,
    pub operation: Operation,
    pub timestamp: i64,
}

impl View for DBData {
    type V = Record;

    open spec fn view(&self) -> Record {
        Record::Data {
            key: self.key@,
            val: self.val@,
            operation: self.operation,
            timestamp: self.timestamp,
        }
    }
}

impl DBData {
    pub fn new(key: String, val: String, operation: Operation, timestamp: i64) -> (data: Self)
        ensures
            data.key == key,
            data.val == val,
            data.operation == operation,
            data.timestamp == timestamp,
    {
        Self { key, val, operation, timestamp }
    }
}

impl Indexable for DBData {
    fn key(&self) -> (key: &str) {
        self.key.as_str()
    }

    fn operation(&self) -> (operation: &Operation) {
        &self.operation
    }

    fn timestamp(&self) -> (timestamp: &i64) {
        &self.timestamp
    }
}

impl Storable for DBData {
    open spec fn kind() -> RecordKind {
        RecordKind::Data
    }

    proof fn lemma_kind(&self) {
    }

    fn encode(&self) -> (r: Result<Vec<u8>, StoreError>) {
        match bincode_serialize_data(
            self.key.as_str(),
            self.val.as_str(),
            self.operation.code(),
            self.timestamp,
        ) {
            Ok(bytes) => Ok(bytes),
            Err(_) => Err(StoreError::Io),
        }
    }

    fn encoded_size(&self) -> (r: Result<u64, StoreError>) {
        proof {
            lemma_data_bytes_len(
                self.key@,
                self.val@,
                operation_code(self.operation),
                self.timestamp,
            );
        }
        match sum_sizes(28, text_len(self.key.as_str()), text_len(self.val.as_str())) {
            Some(size) => Ok(size),
            None => Err(StoreError::Io),
        }
    }

    fn decode(bytes: &[u8]) -> (r: Result<Self, StoreError>) {
        proof {
            assert(bytes.len() == bytes@.len());
        }
        match bincode_deserialize_data(bytes) {
            Ok((key, val, code, timestamp)) => {
                match Operation::from_code(code) {
                    Some(operation) => {
                        let data = DBData { key, val, operation, timestamp };
                        proof {
                            lemma_parse_unique(RecordKind::Data, bytes@, data@);
                        }
                        Ok(data)
                    },
                    None => {
                        proof {
                            assert forall|record: Record|
                                !begins_with(RecordKind::Data, bytes@, record) by {
                                if begins_with(RecordKind::Data, bytes@, record) {
                                    match record {
                                        Record::Data { key: k, val: v, operation: o, timestamp: t } => {
                                            lemma_data_bytes_unique(
                                                k,
                                                v,
                                                operation_code(o),
                                                t,
                                                key@,
                                                val@,
                                                code,
                                                timestamp,
                                                bytes@,
                                            );
                                        },
                                        _ => {},
                                    }
                                }
                            }
                        }
                        Err(StoreError::Decode)
                    },
                }
            },
            Err(_) => {
                proof {
                    assert forall|record: Record|
                        !begins_with(RecordKind::Data, bytes@, record) by {
                        if begins_with(RecordKind::Data, bytes@, record) {
                            match record {
                                Record::Data { key: k, val: v, operation: o, timestamp: t } => {
                                    assert(data_bytes(k, v, operation_code(o), t).is_prefix_of(
                                        bytes@,
                                    ));
                                },
                                _ => {},
                            }
                        }
                    }
                }
                Err(StoreError::Decode)
            },
        }
    }

    fn duplicate(&self) -> (copy: Self) {
        DBData {
            key: self.key.clone(),
            val: self.val.clone(),
            operation: self.operation,
            timestamp: self.timestamp,
        }
    }
}

} // verus!
