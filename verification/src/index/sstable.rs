//! A segment: an immutable sorted table of keys and values.

use crate::error::StoreError;
use crate::clock::now_ms;
use crate::file::metadata::{segment_path, segment_path_text, SSTableSegment};
use crate::file::serializer::{
    decode_pairs, encode_pairs, entry_bytes, entry_size, pairs_bytes, pairs_size,
    pairs_view, parse_pairs,
};
use crate::index::converter::{
    convert_hashmap_to_vec, convert_vec_to_hashmap, lemma_map_of_pairs_table, lists_entries,
    map_of_pairs, table_of,
};
use crate::index::order::{comes_before, is_sorted_order, occurs, sorted_order};
use crate::text::text_eq;
use std::collections::HashMap;
use vstd::prelude::*;
use vstd::std_specs::hash::*;

verus! {

broadcast use vstd::std_specs::hash::group_hash_axioms;

/// Whether a value is the marker of a deleted key.
pub open spec fn is_tombstone(val: Seq<char>) -> bool {
    val == "TOMBSTONE"@
}

/// Whether a value is the marker of a deleted key.
pub fn check_tombstone(val: &str) -> (marker: bool)
    ensures
        marker == is_tombstone(val@),
{
    text_eq(val, "TOMBSTONE")
}

/// The mathematical value of a table: each value as its characters.
pub open spec fn table_view(data: Map<u64, String>) -> Map<u64, Seq<char>> {
    data.map_values(|val: String| val@)
}

/// Whether `entries` lists the entries of `table`, each once, by ascending key.
pub open spec fn is_listing(entries: Seq<(u64, Seq<char>)>, table: Map<u64, Seq<char>>) -> bool {
    &&& forall|p: int, q: int| 0 <= p < q < entries.len() ==> entries[p].0 < entries[q].0
    &&& forall|p: int|
        0 <= p < entries.len() ==> table.contains_key(#[trigger] entries[p].0)
            && table[entries[p].0] == entries[p].1
    &&& forall|key: u64| #[trigger] table.contains_key(key) ==> holds_key(entries, key)
}

/// Whether `key` occurs in `entries`.
pub open spec fn holds_key(entries: Seq<(u64, Seq<char>)>, key: u64) -> bool {
    exists|p: int| 0 <= p < entries.len() && #[trigger] entries[p].0 == key
}

/// A table has one listing only.
pub proof fn lemma_listing_unique(
    entries1: Seq<(u64, Seq<char>)>,
    entries2: Seq<(u64, Seq<char>)>,
    table: Map<u64, Seq<char>>,
)
    requires
        is_listing(entries1, table),
        is_listing(entries2, table),
    ensures
        entries1 == entries2,
    decreases entries1.len(),
{
    if entries1.len() == 0 {
        if entries2.len() > 0 {
            assert(table.contains_key(entries2[0].0));
            assert(holds_key(entries1, entries2[0].0));
        }
        assert(entries1 =~= entries2);
    } else {
        assert(table.contains_key(entries1[0].0));
        assert(holds_key(entries2, entries1[0].0));
        let at2 = choose|p: int| 0 <= p < entries2.len() && #[trigger] entries2[p].0 == entries1[0].0;
        assert(table.contains_key(entries2[0].0));
        assert(holds_key(entries1, entries2[0].0));
        let at1 = choose|p: int| 0 <= p < entries1.len() && #[trigger] entries1[p].0 == entries2[0].0;
        assert(entries1[0].0 == entries2[0].0) by {
            if at2 > 0 {
                assert(entries2[0].0 < entries2[at2].0);
            }
            if at1 > 0 {
                assert(entries1[0].0 < entries1[at1].0);
            }
        }
        let first = entries1[0].0;
        let rest = table.remove(first);
        let tail1 = entries1.drop_first();
        let tail2 = entries2.drop_first();
        lemma_listing_tail(entries1, table);
        lemma_listing_tail(entries2, table);
        lemma_listing_unique(tail1, tail2, rest);
        assert(entries1 =~= seq![entries1[0]] + tail1);
        assert(entries2 =~= seq![entries2[0]] + tail2);
    }
}

/// Without its first entry a listing lists the table without that entry's key.
pub proof fn lemma_listing_tail(entries: Seq<(u64, Seq<char>)>, table: Map<u64, Seq<char>>)
    requires
        is_listing(entries, table),
        entries.len() > 0,
    ensures
        is_listing(entries.drop_first(), table.remove(entries[0].0)),
{
    let tail = entries.drop_first();
    let rest = table.remove(entries[0].0);
    assert forall|p: int, q: int| 0 <= p < q < tail.len() implies tail[p].0 < tail[q].0 by {
        assert(entries[p + 1].0 < entries[q + 1].0);
    }
    assert forall|p: int| 0 <= p < tail.len() implies rest.contains_key(#[trigger] tail[p].0)
        && rest[tail[p].0] == tail[p].1 by {
        assert(entries[0].0 < entries[p + 1].0);
        assert(table.contains_key(entries[p + 1].0));
    }
    assert forall|key: u64| #[trigger] rest.contains_key(key) implies holds_key(tail, key) by {
        assert(table.contains_key(key));
        assert(holds_key(entries, key));
        let p = choose|p: int| 0 <= p < entries.len() && #[trigger] entries[p].0 == key;
        assert(tail[p - 1].0 == key);
    }
}

/// Two tables with one listing are equal.
pub proof fn lemma_same_listing(
    entries: Seq<(u64, Seq<char>)>,
    table1: Map<u64, Seq<char>>,
    table2: Map<u64, Seq<char>>,
)
    requires
        is_listing(entries, table1),
        is_listing(entries, table2),
    ensures
        table1 == table2,
{
    assert forall|key: u64| #[trigger] table1.dom().contains(key) == table2.dom().contains(key) by {
        if table1.contains_key(key) {
            assert(holds_key(entries, key));
            let p = choose|p: int| 0 <= p < entries.len() && #[trigger] entries[p].0 == key;
            assert(table2.contains_key(entries[p].0));
        }
        if table2.contains_key(key) {
            assert(holds_key(entries, key));
            let p = choose|p: int| 0 <= p < entries.len() && #[trigger] entries[p].0 == key;
            assert(table1.contains_key(entries[p].0));
        }
    }
    assert(table1.dom() =~= table2.dom());
    assert forall|key: u64| table1.dom().contains(key) implies #[trigger] table1[key]
        == table2[key] by {
        assert(table1.contains_key(key));
        assert(holds_key(entries, key));
        let p = choose|p: int| 0 <= p < entries.len() && #[trigger] entries[p].0 == key;
        assert(table1[entries[p].0] == entries[p].1);
        assert(table2[entries[p].0] == entries[p].1);
    }
    assert(table1 =~= table2);
}

/// The listing of a table: its entries by ascending key.
pub open spec fn listing_of(table: Map<u64, Seq<char>>) -> Seq<(u64, Seq<char>)> {
    choose|entries: Seq<(u64, Seq<char>)>| is_listing(entries, table)
}

/// A listing of a table is the listing of the table.
pub proof fn lemma_listing_of(entries: Seq<(u64, Seq<char>)>, table: Map<u64, Seq<char>>)
    requires
        is_listing(entries, table),
    ensures
        listing_of(table) == entries,
{
    lemma_listing_unique(entries, listing_of(table), table);
}

/// The number of bytes that a table takes in its file.
pub open spec fn table_size(table: Map<u64, Seq<char>>) -> nat {
    pairs_bytes(listing_of(table)).len()
}

/// A sorted table of keys and values.
#[derive(Debug)]
pub struct SSTable {
    pub data: HashMap<u64, String>,
}

impl View for SSTable {
    type V = Map<u64, Seq<char>>;

    open spec fn view(&self) -> Map<u64, Seq<char>> {
        table_view(self.data@)
    }
}

impl SSTable {
    pub fn new(data: HashMap<u64, String>) -> (table: Self)
        ensures
            table.data == data,
    {
        SSTable { data }
    }

    /// The value under `key`, if the table holds the key.
    pub fn read(&self, key: &u64) -> (val: Option<&String>)
        ensures
            match val {
                Some(v) => self@.contains_key(*key) && self@[*key] == v@,
                None => !self@.contains_key(*key),
            },
    {
        self.data.get(key)
    }

    /// Whether the table holds `key`.
    pub fn contains(&self, key: &u64) -> (found: bool)
        ensures
            found == self@.contains_key(*key),
    {
        self.data.contains_key(key)
    }

    /// The entries of the table by ascending key.
    pub fn entries(&self) -> (entries: Vec<(u64, String)>)
        ensures
            is_listing(pairs_view(entries@), self@),
            pairs_view(entries@) == listing_of(self@),
    {
        let pairs = convert_hashmap_to_vec(&self.data);
        let mut keys: Vec<i128> = Vec::new();
        let mut i: usize = 0;
        while i < pairs.len()
            invariant
                i <= pairs@.len(),
                keys@.len() == i,
                forall|j: int| 0 <= j < i ==> keys@[j] == pairs@[j].0,
            decreases pairs@.len() - i,
        {
            keys.push(pairs[i].0 as i128);
            i = i + 1;
        }
        let order = sorted_order(&keys);
        let mut entries: Vec<(u64, String)> = Vec::new();
        let mut p: usize = 0;
        while p < order.len()
            invariant
                p <= order@.len(),
                entries@.len() == p,
                is_sorted_order(order@, keys@),
                keys@.len() == pairs@.len(),
                forall|q: int| 0 <= q < p ==> entries@[q] == pairs@[order@[q] as int],
            decreases order@.len() - p,
        {
            let place: usize = order[p];
            entries.push((pairs[place].0, pairs[place].1.clone()));
            p = p + 1;
        }
        proof {
            let listing = pairs_view(entries@);
            assert forall|a: int, b: int| 0 <= a < b < listing.len() implies listing[a].0
                < listing[b].0 by {
                assert(comes_before(keys@, order@[a] as int, order@[b] as int));
                let x = order@[a] as int;
                let y = order@[b] as int;
                if x < y {
                    assert(pairs@[x].0 != pairs@[y].0);
                } else if y < x {
                    assert(pairs@[y].0 != pairs@[x].0);
                }
            }
            assert forall|a: int| 0 <= a < listing.len() implies self@.contains_key(
                #[trigger] listing[a].0,
            ) && self@[listing[a].0] == listing[a].1 by {
                let x = order@[a] as int;
                assert(self.data@.contains_key(pairs@[x].0));
            }
            assert forall|key: u64| #[trigger] self@.contains_key(key) implies holds_key(
                listing,
                key,
            ) by {
                assert(self.data@.contains_key(key));
                let x = choose|x: int| 0 <= x < pairs@.len() && #[trigger] pairs@[x].0 == key;
                assert(occurs(order@, x));
                let a = choose|a: int| 0 <= a < order@.len() && #[trigger] order@[a] == x;
                assert(listing[a].0 == key);
            }
            lemma_listing_of(listing, self@);
        }
        entries
    }

    /// The least and the greatest key of the table. Fails with `NotFound` on an
    /// empty table.
    pub fn get_key_range(&self) -> (r: Result<(u64, u64), StoreError>)
        ensures
            match r {
                Ok((min_key, max_key)) => {
                    &&& self@.contains_key(min_key)
                    &&& self@.contains_key(max_key)
                    &&& forall|key: u64| #[trigger]
                        self@.contains_key(key) ==> min_key <= key <= max_key
                },
                Err(e) => e == StoreError::NotFound && forall|key: u64| !self@.contains_key(key),
            },
    {
        let pairs = convert_hashmap_to_vec(&self.data);
        if pairs.len() == 0 {
            proof {
                assert forall|key: u64| !self@.contains_key(key) by {
                    if self@.contains_key(key) {
                        assert(self.data@.contains_key(key));
                    }
                }
            }
            return Err(StoreError::NotFound);
        }
        let mut min_key: u64 = pairs[0].0;
        let mut max_key: u64 = pairs[0].0;
        let mut i: usize = 1;
        while i < pairs.len()
            invariant
                1 <= i <= pairs@.len(),
                lists_entries(pairs@, self.data@),
                exists|j: int| 0 <= j < i && #[trigger] pairs@[j].0 == min_key,
                exists|j: int| 0 <= j < i && #[trigger] pairs@[j].0 == max_key,
                forall|j: int| 0 <= j < i ==> min_key <= #[trigger] pairs@[j].0 <= max_key,
            decreases pairs@.len() - i,
        {
            let key: u64 = pairs[i].0;
            if key < min_key {
                min_key = key;
            }
            if key > max_key {
                max_key = key;
            }
            i = i + 1;
        }
        proof {
            let a = choose|j: int| 0 <= j < pairs@.len() && #[trigger] pairs@[j].0 == min_key;
            let b = choose|j: int| 0 <= j < pairs@.len() && #[trigger] pairs@[j].0 == max_key;
            assert(self.data@.contains_key(pairs@[a].0));
            assert(self.data@.contains_key(pairs@[b].0));
            assert forall|key: u64| #[trigger] self@.contains_key(key) implies min_key <= key
                <= max_key by {
                assert(self.data@.contains_key(key));
                let j = choose|j: int| 0 <= j < pairs@.len() && #[trigger] pairs@[j].0 == key;
                assert(min_key <= pairs@[j].0 <= max_key);
            }
        }
        Ok((min_key, max_key))
    }

    /// The number of bytes that the table takes in its file. Fails where the
    /// number does not fit into 64 bits.
    pub fn size(&self) -> (r: Result<u64, StoreError>)
        ensures
            is_listing(listing_of(self@), self@),
            match r {
                Ok(size) => size == table_size(self@),
                Err(e) => e == StoreError::Io && table_size(self@) > u64::MAX,
            },
    {
        let entries = self.entries();
        pairs_size(&entries)
    }
}

/// The entries of `table` with a key from `start` to `end`.
pub open spec fn in_range(table: Map<u64, Seq<char>>, start: u64, end: u64) -> Map<
    u64,
    Seq<char>,
> {
    table.restrict(Set::new(|key: u64| start <= key <= end))
}

/// The table that merging `newer` into `older` gives: the newer value wins, and
/// a key that `newer` marks as deleted leaves the table.
pub open spec fn merged(older: Map<u64, Seq<char>>, newer: Map<u64, Seq<char>>) -> Map<
    u64,
    Seq<char>,
> {
    Map::new(
        |key: u64|
            if newer.contains_key(key) {
                !is_tombstone(newer[key])
            } else {
                older.contains_key(key)
            },
        |key: u64|
            if newer.contains_key(key) {
                newer[key]
            } else {
                older[key]
            },
    )
}

/// Whether `key` is among the first `count` of `pairs`.
pub open spec fn seen(pairs: Seq<(u64, String)>, count: int, key: u64) -> bool {
    exists|j: int| 0 <= j < count && #[trigger] pairs[j].0 == key
}

/// The table while `newer` is merged into `older`, after the first `count` of
/// the entries `pairs` of `newer`.
pub open spec fn merging(
    older: Map<u64, Seq<char>>,
    newer: Map<u64, Seq<char>>,
    pairs: Seq<(u64, String)>,
    count: int,
) -> Map<u64, Seq<char>> {
    Map::new(
        |key: u64|
            if seen(pairs, count, key) {
                !is_tombstone(newer[key])
            } else {
                older.contains_key(key)
            },
        |key: u64|
            if seen(pairs, count, key) {
                newer[key]
            } else {
                older[key]
            },
    )
}

/// Merging one more entry of the newer table.
proof fn lemma_merge_step(
    older: Map<u64, Seq<char>>,
    newer: Map<u64, Seq<char>>,
    pairs: Seq<(u64, String)>,
    i: int,
    before: Map<u64, String>,
    after: Map<u64, String>,
)
    requires
        0 <= i < pairs.len(),
        forall|a: int, b: int| 0 <= a < b < pairs.len() ==> pairs[a].0 != pairs[b].0,
        newer.contains_key(pairs[i].0),
        newer[pairs[i].0] == pairs[i].1@,
        table_view(before) == merging(older, newer, pairs, i),
        after == if is_tombstone(pairs[i].1@) {
            before.remove(pairs[i].0)
        } else {
            before.insert(pairs[i].0, pairs[i].1)
        },
    ensures
        table_view(after) == merging(older, newer, pairs, i + 1),
{
    let key = pairs[i].0;
    let current = merging(older, newer, pairs, i);
    let target = merging(older, newer, pairs, i + 1);
    let result = table_view(after);
    assert(!seen(pairs, i, key)) by {
        if seen(pairs, i, key) {
            let j = choose|j: int| 0 <= j < i && #[trigger] pairs[j].0 == key;
            assert(pairs[j].0 != pairs[i].0);
        }
    }
    assert(seen(pairs, i + 1, key)) by {
        assert(pairs[i].0 == key);
    }
    assert forall|k: u64| k != key implies seen(pairs, i + 1, k) == seen(pairs, i, k) by {
        if seen(pairs, i + 1, k) {
            let j = choose|j: int| 0 <= j < i + 1 && #[trigger] pairs[j].0 == k;
            assert(0 <= j < i && pairs[j].0 == k);
        }
        if seen(pairs, i, k) {
            let j = choose|j: int| 0 <= j < i && #[trigger] pairs[j].0 == k;
            assert(0 <= j < i + 1 && pairs[j].0 == k);
        }
    }
    assert forall|k: u64| #[trigger] result.dom().contains(k) == target.dom().contains(k) by {
        if k != key {
            assert(seen(pairs, i + 1, k) == seen(pairs, i, k));
            assert(table_view(before).dom().contains(k) == current.dom().contains(k));
            assert(after.dom().contains(k) == before.dom().contains(k));
            assert(result.dom().contains(k) == after.dom().contains(k));
            assert(table_view(before).dom().contains(k) == before.dom().contains(k));
            assert(target.dom().contains(k) == current.dom().contains(k));
        } else {
            assert(result.dom().contains(k) == after.dom().contains(k));
            assert(target.dom().contains(k) == !is_tombstone(newer[k]));
            assert(after.dom().contains(k) == !is_tombstone(pairs[i].1@));
        }
    }
    assert(result.dom() =~= target.dom());
    assert forall|k: u64| result.dom().contains(k) implies #[trigger] result[k] == target[k] by {
        if k != key {
            assert(seen(pairs, i + 1, k) == seen(pairs, i, k));
            assert(table_view(before).dom().contains(k));
            assert(table_view(before)[k] == current[k]);
        }
    }
    assert(result =~= target);
}

/// How many of the first entries fit into `budget` bytes together.
pub open spec fn fitting(entries: Seq<(u64, Seq<char>)>, budget: int) -> nat
    decreases entries.len(),
{
    if entries.len() == 0 {
        0
    } else {
        let size = entry_bytes(entries[0].0, entries[0].1).len();
        if size > budget {
            0
        } else {
            1 + fitting(entries.drop_first(), budget - size)
        }
    }
}

/// No more entries fit than there are.
pub proof fn lemma_fitting_bound(entries: Seq<(u64, Seq<char>)>, budget: int)
    ensures
        fitting(entries, budget) <= entries.len(),
    decreases entries.len(),
{
    if entries.len() > 0 {
        let size = entry_bytes(entries[0].0, entries[0].1).len();
        if size <= budget {
            lemma_fitting_bound(entries.drop_first(), budget - size);
        }
    }
}

/// A list of pairs by ascending key lists the table that it builds.
pub proof fn lemma_map_of_sorted_pairs(pairs: Seq<(u64, String)>)
    requires
        forall|p: int, q: int| 0 <= p < q < pairs.len() ==> pairs[p].0 < pairs[q].0,
    ensures
        is_listing(pairs_view(pairs), table_view(map_of_pairs(pairs))),
    decreases pairs.len(),
{
    let table = table_view(map_of_pairs(pairs));
    let listing = pairs_view(pairs);
    if pairs.len() > 0 {
        let front = pairs.drop_last();
        lemma_map_of_sorted_pairs(front);
        let before = table_view(map_of_pairs(front));
        let last = pairs.last();
        assert(table =~= before.insert(last.0, last.1@));
        assert forall|p: int| 0 <= p < listing.len() implies table.contains_key(
            #[trigger] listing[p].0,
        ) && table[listing[p].0] == listing[p].1 by {
            if p < front.len() {
                assert(pairs_view(front)[p] == listing[p]);
                assert(before.contains_key(pairs_view(front)[p].0));
                assert(pairs[p].0 < pairs[pairs.len() - 1].0);
            }
        }
        assert forall|key: u64| #[trigger] table.contains_key(key) implies holds_key(
            listing,
            key,
        ) by {
            if key == last.0 {
                assert(listing[pairs.len() - 1].0 == key);
            } else {
                assert(before.contains_key(key));
                assert(holds_key(pairs_view(front), key));
                let p = choose|p: int|
                    0 <= p < front.len() && #[trigger] pairs_view(front)[p].0 == key;
                assert(listing[p].0 == key);
            }
        }
    } else {
        assert(table =~= Map::<u64, Seq<char>>::empty());
    }
}

/// Cutting the listing of a table in two gives two tables with disjoint key
/// ranges that hold the table's entries between them.
pub proof fn lemma_split_parts(
    listing: Seq<(u64, Seq<char>)>,
    table: Map<u64, Seq<char>>,
    cut: int,
    low: Map<u64, Seq<char>>,
    high: Map<u64, Seq<char>>,
)
    requires
        is_listing(listing, table),
        0 <= cut <= listing.len(),
        is_listing(listing.take(cut), low),
        is_listing(listing.skip(cut), high),
    ensures
        forall|a: u64, b: u64| low.contains_key(a) && high.contains_key(b) ==> a < b,
        forall|key: u64| #[trigger]
            table.contains_key(key) <==> low.contains_key(key) || high.contains_key(key),
        forall|key: u64| #[trigger] low.contains_key(key) ==> low[key] == table[key],
        forall|key: u64| #[trigger] high.contains_key(key) ==> high[key] == table[key],
{
    let front = listing.take(cut);
    let back = listing.skip(cut);
    assert forall|a: u64, b: u64| low.contains_key(a) && high.contains_key(b) implies a < b by {
        assert(holds_key(front, a));
        assert(holds_key(back, b));
        let p = choose|p: int| 0 <= p < front.len() && #[trigger] front[p].0 == a;
        let q = choose|q: int| 0 <= q < back.len() && #[trigger] back[q].0 == b;
        assert(listing[p].0 < listing[cut + q].0);
    }
    assert forall|key: u64| #[trigger]
        table.contains_key(key) <==> low.contains_key(key) || high.contains_key(key) by {
        if table.contains_key(key) {
            assert(holds_key(listing, key));
            let p = choose|p: int| 0 <= p < listing.len() && #[trigger] listing[p].0 == key;
            if p < cut {
                assert(low.contains_key(front[p].0));
            } else {
                assert(high.contains_key(back[p - cut].0));
            }
        }
        if low.contains_key(key) {
            assert(holds_key(front, key));
            let p = choose|p: int| 0 <= p < front.len() && #[trigger] front[p].0 == key;
            assert(table.contains_key(listing[p].0));
        }
        if high.contains_key(key) {
            assert(holds_key(back, key));
            let q = choose|q: int| 0 <= q < back.len() && #[trigger] back[q].0 == key;
            assert(table.contains_key(listing[cut + q].0));
        }
    }
    assert forall|key: u64| #[trigger] low.contains_key(key) implies low[key] == table[key] by {
        assert(holds_key(front, key));
        let p = choose|p: int| 0 <= p < front.len() && #[trigger] front[p].0 == key;
        assert(low[front[p].0] == front[p].1);
        assert(table[listing[p].0] == listing[p].1);
    }
    assert forall|key: u64| #[trigger] high.contains_key(key) implies high[key] == table[key] by {
        assert(holds_key(back, key));
        let q = choose|q: int| 0 <= q < back.len() && #[trigger] back[q].0 == key;
        assert(high[back[q].0] == back[q].1);
        assert(table[listing[cut + q].0] == listing[cut + q].1);
    }
}

impl SSTable {
    /// The entries with a key from `start` to `end`, both included, by
    /// ascending key: each such entry once, and no other. The bounds need not
    /// be keys of the table; where no key lies between them the list is empty.
    pub fn scan(&self, start: &u64, end: &u64) -> (r: Result<
        Option<Vec<(u64, String)>>,
        StoreError,
    >)
        ensures
            r matches Ok(Some(found)) && is_listing(
                pairs_view(found@),
                in_range(self@, *start, *end),
            ),
    {
        let entries = self.entries();
        let mut result: Vec<(u64, String)> = Vec::new();
        let mut i: usize = 0;
        let ghost all = pairs_view(entries@);
        let ghost range = in_range(self@, *start, *end);
        while i < entries.len()
            invariant
                i <= entries@.len(),
                all == pairs_view(entries@),
                is_listing(all, self@),
                range == in_range(self@, *start, *end),
                forall|p: int, q: int|
                    0 <= p < q < result@.len() ==> pairs_view(result@)[p].0 < pairs_view(
                        result@,
                    )[q].0,
                forall|p: int, j: int|
                    0 <= p < result@.len() && i <= j < all.len() ==> pairs_view(result@)[p].0
                        < all[j].0,
                forall|p: int|
                    0 <= p < result@.len() ==> range.contains_key(
                        #[trigger] pairs_view(result@)[p].0,
                    ) && range[pairs_view(result@)[p].0] == pairs_view(result@)[p].1,
                forall|j: int|
                    0 <= j < i && range.contains_key(#[trigger] all[j].0) ==> holds_key(
                        pairs_view(result@),
                        all[j].0,
                    ),
            decreases entries@.len() - i,
        {
            let key: u64 = entries[i].0;
            let ghost before = pairs_view(result@);
            proof {
                assert(all[i as int].0 == key);
                assert(self@.contains_key(all[i as int].0));
            }
            if key >= *start && key <= *end {
                result.push((key, entries[i].1.clone()));
                proof {
                    let after = pairs_view(result@);
                    assert(after[before.len() as int] == all[i as int]);
                    assert forall|p: int| 0 <= p < before.len() implies after[p] == before[p] by {}
                    assert forall|j: int|
                        0 <= j < i + 1 && range.contains_key(#[trigger] all[j].0) implies holds_key(
                        after,
                        all[j].0,
                    ) by {
                        if j < i {
                            assert(holds_key(before, all[j].0));
                            let p = choose|p: int|
                                0 <= p < before.len() && #[trigger] before[p].0 == all[j].0;
                            assert(after[p].0 == all[j].0);
                        } else {
                            assert(after[before.len() as int].0 == all[j].0);
                        }
                    }
                    assert forall|p: int, j: int|
                        0 <= p < after.len() && i + 1 <= j < all.len() implies after[p].0
                        < all[j].0 by {
                        if p < before.len() {
                            assert(before[p].0 < all[j].0);
                        } else {
                            assert(all[i as int].0 < all[j].0);
                        }
                    }
                    assert forall|p: int, q: int| 0 <= p < q < after.len() implies after[p].0
                        < after[q].0 by {
                        if q < before.len() {
                            assert(before[p].0 < before[q].0);
                        } else {
                            assert(before[p].0 < all[i as int].0);
                        }
                    }
                }
            }
            i = i + 1;
        }
        proof {
            let found = pairs_view(result@);
            assert forall|key: u64| #[trigger] range.contains_key(key) implies holds_key(
                found,
                key,
            ) by {
                assert(self@.contains_key(key));
                assert(holds_key(all, key));
                let j = choose|j: int| 0 <= j < all.len() && #[trigger] all[j].0 == key;
                assert(range.contains_key(all[j].0));
            }
        }
        Ok(Some(result))
    }

    /// Merges the newer table `other_sstable` into this one: each of its
    /// entries replaces the entry of the same key here, and each of its keys
    /// that is marked as deleted leaves this table.
    pub fn merge(&mut self, other_sstable: &SSTable) -> (r: Result<(), StoreError>)
        ensures
            r is Ok,
            final(self)@ == merged(old(self)@, other_sstable@),
    {
        let pairs = convert_hashmap_to_vec(&other_sstable.data);
        let ghost older = self@;
        let ghost newer = other_sstable@;
        let mut i: usize = 0;
        proof {
            assert(self@ =~= merging(older, newer, pairs@, 0));
        }
        while i < pairs.len()
            invariant
                i <= pairs@.len(),
                lists_entries(pairs@, other_sstable.data@),
                newer == other_sstable@,
                self@ == merging(older, newer, pairs@, i as int),
            decreases pairs@.len() - i,
        {
            let key: u64 = pairs[i].0;
            let ghost before = self.data@;
            proof {
                assert(other_sstable.data@.contains_key(pairs@[i as int].0));
            }
            if check_tombstone(pairs[i].1.as_str()) {
                self.data.remove(&key);
            } else {
                self.data.insert(key, pairs[i].1.clone());
            }
            proof {
                lemma_merge_step(older, newer, pairs@, i as int, before, self.data@);
            }
            i = i + 1;
        }
        proof {
            assert forall|key: u64| seen(pairs@, pairs@.len() as int, key) == newer.contains_key(
                key,
            ) by {
                if seen(pairs@, pairs@.len() as int, key) {
                    let j = choose|j: int| 0 <= j < pairs@.len() && #[trigger] pairs@[j].0 == key;
                    assert(other_sstable.data@.contains_key(pairs@[j].0));
                }
                if newer.contains_key(key) {
                    assert(other_sstable.data@.contains_key(key));
                }
            }
            assert(self@ =~= merged(older, newer));
        }
        Ok(())
    }

    /// Splits the table where it outgrows `threshold` bytes: the first entries
    /// by key that fit into `threshold` bytes together stay, the others leave
    /// the table and are returned as a table of their own.
    pub fn split(&mut self, threshold: u64) -> (r: Result<SSTable, StoreError>)
        ensures
            match r {
                Ok(overflow) => {
                    let listing = listing_of(old(self)@);
                    let cut = fitting(listing, threshold as int) as int;
                    &&& cut <= listing.len()
                    &&& is_listing(listing.take(cut), final(self)@)
                    &&& is_listing(listing.skip(cut), overflow@)
                    &&& forall|a: u64, b: u64|
                        final(self)@.contains_key(a) && overflow@.contains_key(b) ==> a < b
                    &&& forall|key: u64| #[trigger]
                        old(self)@.contains_key(key) <==> final(self)@.contains_key(key)
                            || overflow@.contains_key(key)
                    &&& forall|key: u64| #[trigger]
                        final(self)@.contains_key(key) ==> final(self)@[key] == old(self)@[key]
                    &&& forall|key: u64| #[trigger]
                        overflow@.contains_key(key) ==> overflow@[key] == old(self)@[key]
                },
                Err(_) => false,
            },
    {
        let mut entries = self.entries();
        let ghost listing = pairs_view(entries@);
        let mut used: u64 = 0;
        let mut cut: usize = 0;
        proof {
            assert(listing.skip(0) =~= listing);
        }
        while cut < entries.len()
            invariant
                cut <= entries@.len(),
                used <= threshold,
                listing == pairs_view(entries@),
                fitting(listing, threshold as int) == cut + fitting(
                    listing.skip(cut as int),
                    threshold - used,
                ),
            ensures
                cut <= entries@.len(),
                fitting(listing, threshold as int) == cut,
            decreases entries@.len() - cut,
        {
            proof {
                assert(listing.skip(cut as int)[0] == listing[cut as int]);
                assert(listing.skip(cut as int).drop_first() =~= listing.skip(cut + 1));
            }
            let size: u64 = match entry_size(entries[cut].0, entries[cut].1.as_str()) {
                Some(size) => size,
                None => {
                    break ;
                },
            };
            if size > threshold - used {
                break ;
            }
            used = used + size;
            cut = cut + 1;
        }
        let rest = entries.split_off(cut);
        proof {
            assert(pairs_view(entries@) =~= listing.take(cut as int));
            assert(pairs_view(rest@) =~= listing.skip(cut as int));
            assert forall|p: int, q: int| 0 <= p < q < entries@.len() implies entries@[p].0
                < entries@[q].0 by {
                assert(listing[p].0 < listing[q].0);
            }
            assert forall|p: int, q: int| 0 <= p < q < rest@.len() implies rest@[p].0
                < rest@[q].0 by {
                assert(listing[cut + p].0 < listing[cut + q].0);
            }
            lemma_map_of_sorted_pairs(entries@);
            lemma_map_of_sorted_pairs(rest@);
        }
        let overflow = SSTable::new(convert_vec_to_hashmap(&rest));
        self.data = convert_vec_to_hashmap(&entries);
        proof {
            lemma_split_parts(listing, old(self)@, cut as int, self@, overflow@);
        }
        Ok(overflow)
    }

    /// What is written for the table at the time of the call. See
    /// [`SSTable::flush_at`].
    pub fn flush(&self) -> (r: Result<(SSTableSegment, Vec<u8>), StoreError>)
        ensures
            match r {
                Ok((segment, bytes)) => {
                    &&& bytes@ == pairs_bytes(listing_of(self@))
                    &&& exists|now: i64| #[trigger] row_of(segment, self@, now, false)
                },
                Err(e) => if self@ == Map::<u64, Seq<char>>::empty() {
                    e == StoreError::NotFound
                } else {
                    e == StoreError::Io && table_size(self@) > u64::MAX
                },
            },
    {
        let now: i64 = now_ms();
        self.flush_at(now)
    }

    /// What is written for the table at the time `now`: the row of the
    /// manifest, whose path is made of the key range and the time, and the
    /// bytes of the file at that path, which are the entries by ascending key.
    /// Fails with `NotFound` on an empty table and with `Io` where the size of
    /// the table does not fit into 64 bits, and succeeds on every other table.
    pub fn flush_at(&self, now: i64) -> (r: Result<(SSTableSegment, Vec<u8>), StoreError>)
        ensures
            match r {
                Ok((segment, bytes)) => {
                    &&& bytes@ == pairs_bytes(listing_of(self@))
                    &&& row_of(segment, self@, now, false)
                },
                Err(e) => if self@ == Map::<u64, Seq<char>>::empty() {
                    e == StoreError::NotFound
                } else {
                    e == StoreError::Io && table_size(self@) > u64::MAX
                },
            },
    {
        let (min_key, max_key) = match self.get_key_range() {
            Ok(range) => range,
            Err(_) => {
                proof {
                    assert(self@ =~= Map::<u64, Seq<char>>::empty());
                }
                return Err(StoreError::NotFound);
            },
        };
        let data = self.entries();
        let size: u64 = match pairs_size(&data) {
            Ok(size) => size,
            Err(_) => {
                return Err(StoreError::Io);
            },
        };
        let bytes = match encode_pairs(&data) {
            Ok(bytes) => bytes,
            Err(_) => {
                return Err(StoreError::Io);
            },
        };
        let path = segment_path(min_key, max_key, now);
        Ok(
            (
                SSTableSegment {
                    path,
                    min_key,
                    max_key,
                    size,
                    timestamp: now,
                    is_compacted: false,
                },
                bytes,
            ),
        )
    }

    /// The table that the bytes of a segment file hold; `None` for an empty
    /// file. Of two entries with one key the later stays.
    pub fn from_bytes(bytes: &[u8]) -> (r: Result<Option<SSTable>, StoreError>)
        ensures
            match r {
                Ok(Some(table)) => {
                    &&& bytes@.len() > 0
                    &&& parse_pairs(bytes@) is Some
                    &&& table@ == table_of(parse_pairs(bytes@).unwrap())
                },
                Ok(None) => bytes@.len() == 0,
                Err(e) => e == StoreError::Decode && bytes@.len() > 0 && parse_pairs(bytes@)
                    is None,
            },
    {
        if bytes.len() == 0 {
            return Ok(None);
        }
        let pairs = decode_pairs(bytes)?;
        proof {
            lemma_map_of_pairs_table(pairs@);
        }
        Ok(Some(SSTable::new(convert_vec_to_hashmap(&pairs))))
    }
}

/// Whether `segment` is the row that is written for `table` at the time `now`:
/// it describes the table, carries the time, is marked as compacted or not as
/// `compacted` says, and its path is made of its key range and the time.
pub open spec fn row_of(
    segment: SSTableSegment,
    table: Map<u64, Seq<char>>,
    now: i64,
    compacted: bool,
) -> bool {
    &&& describes(segment, table)
    &&& segment.timestamp == now
    &&& segment.is_compacted == compacted
    &&& segment.path@ == segment_path_text(segment.min_key, segment.max_key, now)
}

/// Whether `segment` is the row of the manifest for `table`: its key range is
/// the table's and its size the number of bytes of the table's file.
pub open spec fn describes(segment: SSTableSegment, table: Map<u64, Seq<char>>) -> bool {
    &&& table.contains_key(segment.min_key)
    &&& table.contains_key(segment.max_key)
    &&& forall|key: u64| #[trigger]
        table.contains_key(key) ==> segment.min_key <= key <= segment.max_key
    &&& segment.size == table_size(table)
}

} // verus!
