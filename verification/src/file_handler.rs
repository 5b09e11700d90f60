//! A key with its value as the content of a file of its own.

use crate::data::{data_line, describe};
use crate::error::StoreError;
use crate::file::serializer::{lemma_text_split, text_bytes};
use vstd::prelude::*;

verus! {

/// A key with its value.
pub struct Data {
    pub key: String,
    pub val: String,
}

impl Data {
    pub fn new(key: String, val: String) -> (data: Data)
        ensures
            data.key == key,
            data.val == val,
    {
        Data { key, val }
    }

    pub fn get_key(&self) -> (key: &str)
        ensures
            key@ == self.key@,
    {
        self.key.as_str()
    }

    pub fn set_key(&mut self, key: String)
        ensures
            final(self).key == key,
            final(self).val == old(self).val,
    {
        self.key = key;
    }

    pub fn get_val(&self) -> (val: &str)
        ensures
            val@ == self.val@,
    {
        self.val.as_str()
    }

    pub fn set_val(&mut self, val: String)
        ensures
            final(self).val == val,
            final(self).key == old(self).key,
    {
        self.val = val;
    }

    /// The line that describes the data.
    pub fn print_data(&self) -> (line: String)
        ensures
            line@ == data_line(self.key@, self.val@),
    {
        describe(self.key.as_str(), self.val.as_str())
    }
}

/// The bytes of a key and a value in a file of their own: the key, then the
/// value.
pub open spec fn pair_bytes(key: Seq<char>, val: Seq<char>) -> Seq<u8> {
    text_bytes(key) + text_bytes(val)
}

/// Calls `bincode::serialize` on a key and a value.
///
/// Trusted: the call succeeds, for it runs without a size limit and writes
/// into a vector; its bytes are the key and then the value, each in the form
/// that [`text_bytes`] writes out.
#[verifier::external_body]
fn bincode_serialize_pair(key: &str, val: &str) -> (r: Result<Vec<u8>, Box<bincode::ErrorKind>>)
    ensures
        r is Ok,
        (r matches Ok(bytes) ==> bytes@ == pair_bytes(key@, val@)),
{
    bincode::serialize(&(key, val))
}

/// Calls `bincode::deserialize` for a key and a value. Bytes that follow them
/// are ignored.
///
/// Trusted: the call succeeds exactly on bytes that begin with the bytes of a
/// key and a value, and then it returns the two.
#[verifier::external_body]
fn bincode_deserialize_pair(bytes: &[u8]) -> (r: Result<(String, String), Box<bincode::ErrorKind>>)
    ensures
        (match r {
            Ok(fields) => pair_bytes(fields.0@, fields.1@).is_prefix_of(bytes@),
            Err(_) => forall|key: Seq<char>, val: Seq<char>|
                !(#[trigger] pair_bytes(key, val)).is_prefix_of(bytes@),
        }),
{
    bincode::deserialize(bytes)
}

/// A key and a value are determined by the bytes that they begin.
pub proof fn lemma_pair_bytes_unique(
    key1: Seq<char>,
    val1: Seq<char>,
    key2: Seq<char>,
    val2: Seq<char>,
    bytes: Seq<u8>,
)
    requires
        pair_bytes(key1, val1).is_prefix_of(bytes),
        pair_bytes(key2, val2).is_prefix_of(bytes),
        bytes.len() <= u64::MAX,
    ensures
        key1 == key2,
        val1 == val2,
{
    lemma_text_split(key1, text_bytes(val1), key2, text_bytes(val2), bytes);
    let rest = bytes.skip(text_bytes(key1).len() as int);
    assert(text_bytes(val1) =~= text_bytes(val1) + Seq::<u8>::empty());
    assert(text_bytes(val2) =~= text_bytes(val2) + Seq::<u8>::empty());
    lemma_text_split(val1, Seq::<u8>::empty(), val2, Seq::<u8>::empty(), rest);
}

/// The data that the content of a file holds. Fails with `Decode` where the
/// content does not begin with the bytes of a key and a value.
pub fn read(contents: &[u8]) -> (r: Result<Data, StoreError>)
    ensures
        match r {
            Ok(data) => pair_bytes(data.key@, data.val@).is_prefix_of(contents@),
            Err(e) => e == StoreError::Decode && forall|key: Seq<char>, val: Seq<char>|
                !(#[trigger] pair_bytes(key, val)).is_prefix_of(contents@),
        },
{
    match bincode_deserialize_pair(contents) {
        Ok((key, val)) => Ok(Data { key, val }),
        Err(_) => Err(StoreError::Decode),
    }
}

/// The content of the file that holds `data`. Writing never fails.
pub fn write(data: &Data) -> (r: Result<Vec<u8>, StoreError>)
    ensures
        r matches Ok(bytes) && bytes@ == pair_bytes(data.key@, data.val@),
{
    match bincode_serialize_pair(data.key.as_str(), data.val.as_str()) {
        Ok(bytes) => Ok(bytes),
        Err(_) => Err(StoreError::Io),
    }
}

} // verus!
