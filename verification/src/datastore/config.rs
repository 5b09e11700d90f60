//! The configuration of a store.

use vstd::prelude::*;

verus! {

/// Where the two logs of a store live.
#[derive(Debug)]
pub struct DBConfig {
    pub log_path_db: String,
    pub log_path_index: String,
}

impl DBConfig {
    pub fn new(log_path_db: String, log_path_index: String) -> (config: Self)
        ensures
            config.log_path_db == log_path_db,
            config.log_path_index == log_path_index,
    {
        Self { log_path_db, log_path_index }
    }
}

} // verus!
