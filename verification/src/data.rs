//! A key with its value, and the line that describes the two.

use vstd::prelude::*;
use vstd::string::StringExecFns;

verus! {

/// A key with its value.
pub struct Data {
    pub key: String,
    pub val: String,
}

/// The line that describes a key and a value.
pub open spec fn data_line(key: Seq<char>, val: Seq<char>) -> Seq<char> {
    "Key: "@ + key + ", Val: "@ + val
}

/// The line that describes a key and a value.
pub fn describe(key: &str, val: &str) -> (line: String)
    ensures
        line@ == data_line(key@, val@),
{
    let mut line = String::from_str("Key: ");
    line.append(key);
    line.append(", Val: ");
    line.append(val);
    line
}

impl Data {
    pub fn new(key: String, val: String) -> (data: Data)
        ensures
            data.key == key,
            data.val == val,
    {
        Data { key, val }
    }

    pub fn get_key(&self) -> (key: &str)
        ensures
            key@ == self.key@,
    {
        self.key.as_str()
    }

    pub fn set_key(&mut self, key: String)
        ensures
            final(self).key == key,
            final(self).val == old(self).val,
    {
        self.key = key;
    }

    pub fn get_val(&self) -> (val: &str)
        ensures
            val@ == self.val@,
    {
        self.val.as_str()
    }

    pub fn set_val(&mut self, val: String)
        ensures
            final(self).val == val,
            final(self).key == old(self).key,
    {
        self.val = val;
    }

    /// The line that describes the data.
    pub fn print(&self) -> (line: String)
        ensures
            line@ == data_line(self.key@, self.val@),
    {
        describe(self.key.as_str(), self.val.as_str())
    }
}

} // verus!
