//! A datastore that holds nothing yet: a configuration and an index of names.

use crate::file_handler::Data;
use std::collections::HashMap;
use vstd::prelude::*;
use vstd::string::StringExecFns;

verus! {

/// Where a database lives.
pub struct DBConfig {
    pub db_name: String,
    pub db_path: String,
    pub db_segments: Vec<String>,
    pub db_recovery: String,
}

/// The text that std gives a list of strings for debugging.
pub uninterp spec fn debug_list_text(list: Seq<Seq<char>>) -> Seq<char>;

/// The characters of each string of a list.
pub open spec fn texts(list: Seq<String>) -> Seq<Seq<char>> {
    Seq::new(list.len(), |i: int| list[i]@)
}

/// The line that describes a configuration: the name, the path and the
/// recovery path as they are, and the segments in the form for debugging.
pub open spec fn config_line(
    db_name: Seq<char>,
    db_path: Seq<char>,
    db_recovery: Seq<char>,
    db_segments: Seq<Seq<char>>,
) -> Seq<char> {
    "Database: "@ + db_name + ", Path: "@ + db_path + ", Recovery: "@ + db_recovery
        + ", Segments: "@ + debug_list_text(db_segments)
}

/// Formats a list of strings with std's `format!` in the form for debugging.
///
/// Trusted: the text depends on the strings of the list alone.
#[verifier::external_body]
fn debug_list(list: &Vec<String>) -> (text: String)
    ensures
        text@ == debug_list_text(texts(list@)),
{
    format!("{:?}", list)
}

impl DBConfig {
    pub fn new(
        db_name: String,
        db_path: String,
        db_segments: Vec<String>,
        db_recovery: String,
    ) -> (config: DBConfig)
        ensures
            config.db_name == db_name,
            config.db_path == db_path,
            config.db_segments == db_segments,
            config.db_recovery == db_recovery,
    {
        DBConfig { db_name, db_path, db_segments, db_recovery }
    }

    /// The line that describes the configuration.
    pub fn print_config(&self) -> (line: String)
        ensures
            line@ == config_line(
                self.db_name@,
                self.db_path@,
                self.db_recovery@,
                texts(self.db_segments@),
            ),
    {
        let mut line = String::from_str("Database: ");
        line.append(self.db_name.as_str());
        line.append(", Path: ");
        line.append(self.db_path.as_str());
        line.append(", Recovery: ");
        line.append(self.db_recovery.as_str());
        line.append(", Segments: ");
        line.append(debug_list(&self.db_segments).as_str());
        line
    }
}

/// A datastore that holds nothing yet: every key reads as the empty string.
pub struct SimpleDatastore {
    pub db_config: DBConfig,
    pub db_indexes: HashMap<String, String>,
}

impl SimpleDatastore {
    pub fn new(db_config: DBConfig) -> (store: SimpleDatastore)
        ensures
            store.db_config == db_config,
            store.db_indexes@ == Map::<String, String>::empty(),
    {
        SimpleDatastore { db_config, db_indexes: HashMap::new() }
    }

    /// Stores nothing.
    pub fn set(&mut self, data: &Data)
        ensures
            *final(self) == *old(self),
    {
    }

    /// Stores nothing.
    pub fn set_index(&mut self, index: &str, data: &Data)
        ensures
            *final(self) == *old(self),
    {
    }

    /// The empty string.
    pub fn get(key: &str) -> (val: String)
        ensures
            val@ == Seq::<char>::empty(),
    {
        String::new()
    }

    /// The empty string.
    pub fn get_index(index: &str) -> (val: String)
        ensures
            val@ == Seq::<char>::empty(),
    {
        String::new()
    }
}

} // verus!
