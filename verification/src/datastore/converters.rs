//! Conversions between the records of the index log and the index in memory.

use crate::datastore::index::DBIndex;
use crate::datastore::index_map::IndexBucket;
use vstd::prelude::*;

verus! {

/// The bucket that an index record puts under its key.
pub fn convert_db_index_to_index_bucket(db_index: &DBIndex) -> (bucket: IndexBucket)
    ensures
        bucket == (IndexBucket { offset: db_index.offset, length: db_index.length }),
{
    IndexBucket { offset: db_index.offset, length: db_index.length }
}

} // verus!
