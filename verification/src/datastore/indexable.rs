//! What the scanner reads of a record.

use crate::datastore::operation::Operation;
use crate::file::serializer::Record;
use vstd::prelude::*;

verus! {

/// What the scanner needs of a record: its key, its operation and its time.
pub trait Indexable: View<V = Record> {
    fn key(&self) -> (key: &str)
        ensures
            key@ == self@.key(),
    ;

    fn operation(&self) -> (operation: &Operation)
        ensures
            *operation == self@.operation(),
    ;

    fn timestamp(&self) -> (timestamp: &i64)
        ensures
            *timestamp == self@.timestamp(),
    ;
}

} // verus!
