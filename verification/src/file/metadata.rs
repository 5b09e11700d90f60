//! The manifest: the list of the segments of a datastore.

use vstd::prelude::*;
use vstd::string::StringExecFns;

verus! {

/// A row of the manifest: where a segment lies and what it holds.
#[derive(Debug, PartialEq, Clone)]
pub struct SSTableSegment {
    pub path: String,
    pub min_key: u64,
    pub max_key: u64,
    pub size: u64,
    pub timestamp: i64,
    pub is_compacted: bool,
}

/// The manifest of a datastore: its segments in the order in which they were
/// added, the newest last.
#[derive(Debug)]
pub struct Metadata {
    pub metadata_path: String,
    pub database_recovery_path: String,
    pub segments: Vec<SSTableSegment>,
}

impl Metadata {
    /// A manifest without segments.
    pub fn new(metadata_path: String, database_recovery_path: String) -> (metadata: Self)
        ensures
            metadata.metadata_path == metadata_path,
            metadata.database_recovery_path == database_recovery_path,
            metadata.segments@ == Seq::<SSTableSegment>::empty(),
    {
        Metadata { metadata_path, database_recovery_path, segments: Vec::new() }
    }

    /// The manifest that was read from the file at `metadata_path`, or a new
    /// one where the file held none.
    pub fn load_or_create(
        loaded: Option<Metadata>,
        metadata_path: String,
        database_recovery_path: String,
    ) -> (metadata: Self)
        ensures
            match loaded {
                Some(found) => metadata == found,
                None => {
                    &&& metadata.metadata_path == metadata_path
                    &&& metadata.database_recovery_path == database_recovery_path
                    &&& metadata.segments@ == Seq::<SSTableSegment>::empty()
                },
            },
    {
        match loaded {
            Some(metadata) => metadata,
            None => Self::new(metadata_path, database_recovery_path),
        }
    }

    /// Adds a segment as the newest.
    pub fn add_segment(&mut self, segment: SSTableSegment)
        ensures
            final(self).segments@ == old(self).segments@.push(segment),
            final(self).metadata_path == old(self).metadata_path,
            final(self).database_recovery_path == old(self).database_recovery_path,
    {
        self.segments.push(segment);
    }
}

/// The character of a decimal digit.
pub open spec fn digit_char(digit: int) -> char {
    if digit == 0 {
        '0'
    } else if digit == 1 {
        '1'
    } else if digit == 2 {
        '2'
    } else if digit == 3 {
        '3'
    } else if digit == 4 {
        '4'
    } else if digit == 5 {
        '5'
    } else if digit == 6 {
        '6'
    } else if digit == 7 {
        '7'
    } else if digit == 8 {
        '8'
    } else {
        '9'
    }
}

/// The decimal text of a number, without leading zeros.
pub open spec fn decimal(number: nat) -> Seq<char>
    decreases number,
{
    if number < 10 {
        seq![digit_char(number as int)]
    } else {
        decimal(number / 10).push(digit_char((number % 10) as int))
    }
}

/// The decimal text of a number that may be negative: a minus sign goes before
/// the digits of a negative number.
pub open spec fn signed_decimal(number: int) -> Seq<char> {
    if number < 0 {
        "-"@ + decimal((-number) as nat)
    } else {
        decimal(number as nat)
    }
}

/// The name of the file of a segment with these keys, made at this time: the
/// word `sstable`, the least key, the greatest key and the time, joined by `_`.
pub open spec fn segment_path_text(min_key: u64, max_key: u64, timestamp: i64) -> Seq<char> {
    "sstable_"@ + decimal(min_key as nat) + "_"@ + decimal(max_key as nat) + "_"@
        + signed_decimal(timestamp as int)
}

/// The text of a decimal digit.
fn digit_text(digit: u64) -> (text: &'static str)
    requires
        digit < 10,
    ensures
        text@ == seq![digit_char(digit as int)],
{
    proof {
        reveal_strlit("0");
        reveal_strlit("1");
        reveal_strlit("2");
        reveal_strlit("3");
        reveal_strlit("4");
        reveal_strlit("5");
        reveal_strlit("6");
        reveal_strlit("7");
        reveal_strlit("8");
        reveal_strlit("9");
    }
    let text = if digit == 0 {
        "0"
    } else if digit == 1 {
        "1"
    } else if digit == 2 {
        "2"
    } else if digit == 3 {
        "3"
    } else if digit == 4 {
        "4"
    } else if digit == 5 {
        "5"
    } else if digit == 6 {
        "6"
    } else if digit == 7 {
        "7"
    } else if digit == 8 {
        "8"
    } else {
        "9"
    };
    assert(text@ =~= seq![digit_char(digit as int)]);
    text
}

/// The decimal text of a number.
pub fn decimal_text(number: u64) -> (text: String)
    ensures
        text@ == decimal(number as nat),
    decreases number,
{
    if number < 10 {
        String::from_str(digit_text(number))
    } else {
        let mut text = decimal_text(number / 10);
        text.append(digit_text(number % 10));
        assert(text@ =~= decimal(number as nat));
        text
    }
}

/// The decimal text of a number that may be negative.
pub fn signed_decimal_text(number: i64) -> (text: String)
    ensures
        text@ == signed_decimal(number as int),
{
    if number < 0 {
        let wide: i128 = number as i128;
        let magnitude: u64 = (-wide) as u64;
        let mut text = String::from_str("-");
        text.append(decimal_text(magnitude).as_str());
        text
    } else {
        decimal_text(number as u64)
    }
}

/// The name of the file of a segment with these keys, made at this time.
pub fn segment_path(min_key: u64, max_key: u64, timestamp: i64) -> (path: String)
    ensures
        path@ == segment_path_text(min_key, max_key, timestamp),
{
    let mut path = String::from_str("sstable_");
    path.append(decimal_text(min_key).as_str());
    path.append("_");
    path.append(decimal_text(max_key).as_str());
    path.append("_");
    path.append(signed_decimal_text(timestamp).as_str());
    path
}

} // verus!
