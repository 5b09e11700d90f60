//! Compaction of one table into the segments that replace the old ones.

use crate::db::model::{covers, lemma_parts_lookup, lookup, segments_get};
use crate::error::StoreError;
use crate::file::metadata::{segment_path, SSTableSegment};
use crate::file::serializer::{lemma_entries_bytes_concat, pairs_bytes};
use crate::index::sstable::{
    fitting, holds_key, is_listing, lemma_listing_of, listing_of, row_of, table_size, SSTable,
};
use vstd::prelude::*;

verus! {

/// The mathematical values of a list of tables.
pub open spec fn table_views(tables: Seq<SSTable>) -> Seq<Map<u64, Seq<char>>> {
    Seq::new(tables.len(), |i: int| tables[i]@)
}

/// The key ranges of a list of rows of the manifest.
pub open spec fn key_ranges(segments: Seq<SSTableSegment>) -> Seq<(u64, u64)> {
    Seq::new(segments.len(), |i: int| (segments[i].min_key, segments[i].max_key))
}

/// How many of the first entries of `whole`, by key, stay together when the
/// table is compacted: all where the table does not outgrow `threshold` bytes,
/// and otherwise those that fit into `threshold` bytes.
pub open spec fn compaction_cut(whole: Map<u64, Seq<char>>, threshold: u64) -> int {
    if table_size(whole) > threshold {
        fitting(listing_of(whole), threshold as int) as int
    } else {
        listing_of(whole).len() as int
    }
}

/// Whether `tables` with their rows `segments` are what compaction makes of
/// the table `whole` at the time `now`: where the table outgrows `threshold`
/// bytes, a segment with the entries that do not fit, and after it a segment
/// with the first entries by key, which fit; otherwise one segment with all
/// entries. No segment is made of no entries.
pub open spec fn is_compaction_of(
    tables: Seq<SSTable>,
    segments: Seq<SSTableSegment>,
    whole: Map<u64, Seq<char>>,
    threshold: u64,
    now: i64,
) -> bool {
    let listing = listing_of(whole);
    let cut = compaction_cut(whole, threshold);
    let high = if cut < listing.len() { 1int } else { 0int };
    let low = if cut > 0 { 1int } else { 0int };
    &&& 0 <= cut <= listing.len()
    &&& is_listing(listing, whole)
    &&& tables.len() == high + low
    &&& segments.len() == high + low
    &&& high == 1 ==> is_listing(listing.skip(cut), tables[0]@)
    &&& low == 1 ==> is_listing(listing.take(cut), tables[high]@)
    &&& forall|place: int|
        0 <= place < high + low ==> row_of(#[trigger] segments[place], tables[place]@, now, true)
}

/// The segments that compaction makes of a table answer as the table answers,
/// and their key ranges cover their tables.
pub proof fn lemma_compaction_answers(
    tables: Seq<SSTable>,
    segments: Seq<SSTableSegment>,
    whole: Map<u64, Seq<char>>,
    threshold: u64,
    now: i64,
    key: u64,
)
    requires
        is_compaction_of(tables, segments, whole, threshold, now),
    ensures
        segments_get(table_views(tables), key_ranges(segments), key, tables.len()) == lookup(
            whole,
            key,
        ),
        forall|place: int, k: u64|
            0 <= place < tables.len() && #[trigger] table_views(tables)[place].contains_key(k)
                ==> covers(key_ranges(segments)[place], k),
{
    let listing = listing_of(whole);
    let cut = compaction_cut(whole, threshold);
    let high = if cut < listing.len() { 1int } else { 0int };
    let parts = table_views(tables);
    let ranges = key_ranges(segments);
    assert forall|place: int, k: u64|
        0 <= place < parts.len() && #[trigger] parts[place].contains_key(k) implies covers(
        ranges[place],
        k,
    ) && whole.contains_key(k) && parts[place][k] == whole[k] by {
        assert(row_of(segments[place], tables[place]@, now, true));
        if place == 0 && high == 1 {
            assert(holds_key(listing.skip(cut), k));
            let q = choose|q: int|
                0 <= q < listing.skip(cut).len() && #[trigger] listing.skip(cut)[q].0 == k;
            assert(whole.contains_key(listing[cut + q].0));
            assert(parts[place][listing.skip(cut)[q].0] == listing.skip(cut)[q].1);
        } else {
            assert(holds_key(listing.take(cut), k));
            let q = choose|q: int|
                0 <= q < listing.take(cut).len() && #[trigger] listing.take(cut)[q].0 == k;
            assert(whole.contains_key(listing[q].0));
            assert(parts[place][listing.take(cut)[q].0] == listing.take(cut)[q].1);
        }
    }
    if whole.contains_key(key) {
        assert(holds_key(listing, key));
        let p = choose|p: int| 0 <= p < listing.len() && #[trigger] listing[p].0 == key;
        if p < cut {
            assert(listing.take(cut)[p].0 == key);
            assert(parts[high].contains_key(listing.take(cut)[p].0));
        } else {
            assert(listing.skip(cut)[p - cut].0 == key);
            assert(parts[0].contains_key(listing.skip(cut)[p - cut].0));
        }
    }
    lemma_parts_lookup(parts, ranges, whole, key);
}

/// The row of the manifest for a table that compaction made at the time
/// `now`; `None` for an empty table.
fn compacted_row(table: &SSTable, now: i64) -> (r: Result<Option<SSTableSegment>, StoreError>)
    ensures
        match r {
            Ok(Some(segment)) => row_of(segment, table@, now, true),
            Ok(None) => table@ == Map::<u64, Seq<char>>::empty(),
            Err(e) => e == StoreError::Io && table_size(table@) > u64::MAX,
        },
{
    let (min_key, max_key) = match table.get_key_range() {
        Ok(range) => range,
        Err(_) => {
            proof {
                assert(table@ =~= Map::<u64, Seq<char>>::empty());
            }
            return Ok(None);
        },
    };
    let size: u64 = table.size()?;
    Ok(
        Some(
            SSTableSegment {
                path: segment_path(min_key, max_key, now),
                min_key,
                max_key,
                size,
                timestamp: now,
                is_compacted: true,
            },
        ),
    )
}

/// A part of a listing takes no more bytes than the listing.
pub proof fn lemma_part_size(listing: Seq<(u64, Seq<char>)>, cut: int)
    requires
        0 <= cut <= listing.len(),
    ensures
        pairs_bytes(listing.take(cut)).len() <= pairs_bytes(listing).len(),
        pairs_bytes(listing.skip(cut)).len() <= pairs_bytes(listing).len(),
{
    vstd::bytes::lemma_auto_spec_u64_to_from_le_bytes();
    assert(listing =~= listing.take(cut) + listing.skip(cut));
    lemma_entries_bytes_concat(listing.take(cut), listing.skip(cut));
}

/// Compacts a table at the time `now` into the segments that replace the old
/// ones: where the table outgrows `threshold` bytes it is split, and the
/// entries that do not fit come first, as a segment of their own. A table
/// without entries gives no segment. Fails where the size of the table does
/// not fit into 64 bits.
pub fn compact(whole: SSTable, threshold: u64, now: i64) -> (r: Result<
    (Vec<SSTable>, Vec<SSTableSegment>),
    StoreError,
>)
    ensures
        match r {
            Ok((tables, segments)) => is_compaction_of(tables@, segments@, whole@, threshold, now),
            Err(e) => e == StoreError::Io && table_size(whole@) > u64::MAX,
        },
{
    let mut low = whole;
    let ghost listing = listing_of(low@);
    let ghost cut = compaction_cut(low@, threshold);
    let size: u64 = low.size()?;
    proof {
        if size > threshold {
            crate::index::sstable::lemma_fitting_bound(listing, threshold as int);
        }
        lemma_part_size(listing, cut);
    }
    let mut tables: Vec<SSTable> = Vec::new();
    let mut segments: Vec<SSTableSegment> = Vec::new();
    if size > threshold {
        let high = low.split(threshold)?;
        proof {
            lemma_listing_of(listing.skip(cut), high@);
            lemma_listing_of(listing.take(cut), low@);
        }
        match compacted_row(&high, now)? {
            Some(segment) => {
                proof {
                    if cut >= listing.len() {
                        assert(high@.contains_key(segment.min_key));
                        assert(holds_key(listing.skip(cut), segment.min_key));
                    }
                }
                segments.push(segment);
                tables.push(high);
            },
            None => {
                proof {
                    if cut < listing.len() {
                        assert(high@.contains_key(listing.skip(cut)[0].0));
                    }
                }
            },
        }
    } else {
        proof {
            assert(listing.take(cut) =~= listing);
        }
    }
    match compacted_row(&low, now)? {
        Some(segment) => {
            proof {
                if cut <= 0 {
                    assert(low@.contains_key(segment.min_key));
                    assert(holds_key(listing.take(cut), segment.min_key));
                }
            }
            segments.push(segment);
            tables.push(low);
        },
        None => {
            proof {
                if cut > 0 {
                    assert(low@.contains_key(listing.take(cut)[0].0));
                }
            }
        },
    }
    Ok((tables, segments))
}

} // verus!
