//! The LSM datastore as a mathematical value: what a get sees, and what
//! flushing and compaction do to it.

use crate::index::order::occurs;
use crate::index::sstable::{is_tombstone, merged};
use vstd::prelude::*;

verus! {

/// The state of a datastore: the memtable, and the segments in the order of the
/// manifest, the newest last, each with its key range as the manifest has it.
pub struct LsmModel {
    pub memtable: Map<u64, Seq<char>>,
    pub tables: Seq<Map<u64, Seq<char>>>,
    pub ranges: Seq<(u64, u64)>,
}

/// What a reader sees of a stored value: nothing where it marks a deleted key.
pub open spec fn visible_value(val: Seq<char>) -> Option<Seq<char>> {
    if is_tombstone(val) {
        None
    } else {
        Some(val)
    }
}

/// What a reader sees under `key` in one table.
pub open spec fn lookup(table: Map<u64, Seq<char>>, key: u64) -> Option<Seq<char>> {
    if table.contains_key(key) {
        visible_value(table[key])
    } else {
        None
    }
}

/// Whether `key` lies in the key range.
pub open spec fn covers(range: (u64, u64), key: u64) -> bool {
    range.0 <= key <= range.1
}

/// Whether the segment at `place` claims `key`: its range covers the key and
/// its table holds it.
pub open spec fn claims(
    tables: Seq<Map<u64, Seq<char>>>,
    ranges: Seq<(u64, u64)>,
    key: u64,
    place: int,
) -> bool {
    covers(ranges[place], key) && tables[place].contains_key(key)
}

/// The newest of the first `count` segments that claims `key`.
pub open spec fn newest_claim(
    tables: Seq<Map<u64, Seq<char>>>,
    ranges: Seq<(u64, u64)>,
    key: u64,
    count: nat,
) -> Option<int>
    decreases count,
{
    if count == 0 {
        None
    } else if claims(tables, ranges, key, count - 1) {
        Some(count - 1)
    } else {
        newest_claim(tables, ranges, key, (count - 1) as nat)
    }
}

/// What a reader sees under `key` in the first `count` segments: the value in
/// the newest segment that claims the key.
pub open spec fn segments_get(
    tables: Seq<Map<u64, Seq<char>>>,
    ranges: Seq<(u64, u64)>,
    key: u64,
    count: nat,
) -> Option<Seq<char>> {
    match newest_claim(tables, ranges, key, count) {
        Some(place) => visible_value(tables[place][key]),
        None => None,
    }
}

impl LsmModel {
    /// What a get of `key` returns: the value in the memtable where the
    /// memtable holds the key, and otherwise the value in the newest segment
    /// that claims the key.
    pub open spec fn get(self, key: u64) -> Option<Seq<char>> {
        if self.memtable.contains_key(key) {
            visible_value(self.memtable[key])
        } else {
            segments_get(self.tables, self.ranges, key, self.tables.len())
        }
    }

    /// Whether each segment's key range covers the keys of its table.
    pub open spec fn ranges_cover(self) -> bool {
        &&& self.tables.len() == self.ranges.len()
        &&& forall|place: int, key: u64|
            0 <= place < self.tables.len() && #[trigger] self.tables[place].contains_key(key)
                ==> covers(self.ranges[place], key)
    }

    /// The datastore after its memtable was flushed into a segment with the
    /// key range `range`.
    pub open spec fn flushed(self, range: (u64, u64)) -> LsmModel {
        LsmModel {
            memtable: Map::empty(),
            tables: self.tables.push(self.memtable),
            ranges: self.ranges.push(range),
        }
    }
}

/// The newest claim is a claim, and no newer segment claims the key. Where
/// there is none, no segment claims the key.
pub proof fn lemma_newest_claim(
    tables: Seq<Map<u64, Seq<char>>>,
    ranges: Seq<(u64, u64)>,
    key: u64,
    count: nat,
)
    ensures
        match newest_claim(tables, ranges, key, count) {
            Some(place) => {
                &&& 0 <= place < count
                &&& claims(tables, ranges, key, place)
                &&& forall|later: int|
                    place < later < count ==> !#[trigger] claims(tables, ranges, key, later)
            },
            None => forall|place: int|
                0 <= place < count ==> !#[trigger] claims(tables, ranges, key, place),
        },
    decreases count,
{
    if count > 0 {
        lemma_newest_claim(tables, ranges, key, (count - 1) as nat);
    }
}

/// A key in the memtable is answered from the memtable: no segment is looked
/// at, so the answer is the same whatever the segments hold.
pub proof fn lemma_memtable_shadows(s: LsmModel, other: LsmModel, key: u64)
    requires
        s.memtable.contains_key(key),
        other.memtable == s.memtable,
    ensures
        s.get(key) == visible_value(s.memtable[key]),
        other.get(key) == s.get(key),
{
}

/// A key that only segments hold is answered from the newest segment whose
/// range covers it and that holds it.
pub proof fn lemma_segments_answer(s: LsmModel, key: u64)
    requires
        !s.memtable.contains_key(key),
    ensures
        match s.get(key) {
            Some(val) => exists|place: int|
                {
                    &&& 0 <= place < s.tables.len()
                    &&& #[trigger] claims(s.tables, s.ranges, key, place)
                    &&& s.tables[place][key] == val
                    &&& forall|later: int|
                        place < later < s.tables.len() ==> !#[trigger] claims(
                            s.tables,
                            s.ranges,
                            key,
                            later,
                        )
                },
            None => true,
        },
{
    lemma_newest_claim(s.tables, s.ranges, key, s.tables.len());
}

/// Segments that agree on the first `count` places answer alike there.
pub proof fn lemma_newest_claim_prefix(
    tables1: Seq<Map<u64, Seq<char>>>,
    ranges1: Seq<(u64, u64)>,
    tables2: Seq<Map<u64, Seq<char>>>,
    ranges2: Seq<(u64, u64)>,
    key: u64,
    count: nat,
)
    requires
        count <= tables1.len(),
        count <= tables2.len(),
        count <= ranges1.len(),
        count <= ranges2.len(),
        forall|place: int| 0 <= place < count ==> tables1[place] == tables2[place],
        forall|place: int| 0 <= place < count ==> ranges1[place] == ranges2[place],
    ensures
        newest_claim(tables1, ranges1, key, count) == newest_claim(tables2, ranges2, key, count),
    decreases count,
{
    if count > 0 {
        lemma_newest_claim_prefix(tables1, ranges1, tables2, ranges2, key, (count - 1) as nat);
    }
}

/// Flushing the memtable changes nothing that a get sees, and the key ranges
/// still cover their tables.
pub proof fn lemma_flush_preserves(s: LsmModel, range: (u64, u64), key: u64)
    requires
        s.ranges_cover(),
        forall|k: u64| #[trigger] s.memtable.contains_key(k) ==> covers(range, k),
    ensures
        s.flushed(range).get(key) == s.get(key),
        s.flushed(range).ranges_cover(),
{
    let after = s.flushed(range);
    let count = s.tables.len();
    assert(after.tables[count as int] == s.memtable);
    assert(after.ranges[count as int] == range);
    lemma_newest_claim_prefix(after.tables, after.ranges, s.tables, s.ranges, key, count);
    lemma_newest_claim(s.tables, s.ranges, key, count);
    assert(claims(after.tables, after.ranges, key, count as int) == s.memtable.contains_key(key));
    assert(after.tables.len() == count + 1);
    if !s.memtable.contains_key(key) {
        assert(newest_claim(after.tables, after.ranges, key, count + 1) == newest_claim(
            after.tables,
            after.ranges,
            key,
            count,
        ));
        match newest_claim(s.tables, s.ranges, key, count) {
            Some(place) => {
                assert(after.tables[place] == s.tables[place]);
            },
            None => {},
        }
    } else {
        assert(newest_claim(after.tables, after.ranges, key, count + 1) == Some(count as int));
    }
    assert forall|place: int, k: u64|
        0 <= place < after.tables.len() && #[trigger] after.tables[place].contains_key(
            k,
        ) implies covers(after.ranges[place], k) by {
        if place < count {
            assert(after.tables[place] == s.tables[place]);
            assert(s.tables[place].contains_key(k));
        }
    }
}

/// The table that merging the first `count` tables gives, the oldest first:
/// each newer table is merged into what the older ones gave.
pub open spec fn merged_prefix(tables: Seq<Map<u64, Seq<char>>>, count: nat) -> Map<
    u64,
    Seq<char>,
>
    decreases count,
{
    if count <= 1 {
        tables[0]
    } else {
        merged(merged_prefix(tables, (count - 1) as nat), tables[count - 1])
    }
}

/// Merging the tables of the segments, the oldest first, gives a table in
/// which a reader sees what it saw in the segments.
pub proof fn lemma_merged_prefix_lookup(
    tables: Seq<Map<u64, Seq<char>>>,
    ranges: Seq<(u64, u64)>,
    key: u64,
    count: nat,
)
    requires
        1 <= count <= tables.len(),
        tables.len() == ranges.len(),
        forall|place: int, k: u64|
            0 <= place < tables.len() && #[trigger] tables[place].contains_key(k) ==> covers(
                ranges[place],
                k,
            ),
    ensures
        lookup(merged_prefix(tables, count), key) == segments_get(tables, ranges, key, count),
    decreases count,
{
    if count > 1 {
        lemma_merged_prefix_lookup(tables, ranges, key, (count - 1) as nat);
        let older = merged_prefix(tables, (count - 1) as nat);
        let newer = tables[count - 1];
        let both = merged(older, newer);
        assert(merged_prefix(tables, count) == both);
        if newer.contains_key(key) {
            assert(claims(tables, ranges, key, count - 1));
            assert(newest_claim(tables, ranges, key, count) == Some(count - 1));
            assert(both.contains_key(key) == !is_tombstone(newer[key]));
            if both.contains_key(key) {
                assert(both[key] == newer[key]);
            }
        } else {
            assert(!claims(tables, ranges, key, count - 1));
            assert(newest_claim(tables, ranges, key, count) == newest_claim(
                tables,
                ranges,
                key,
                (count - 1) as nat,
            ));
            assert(both.contains_key(key) == older.contains_key(key));
            if both.contains_key(key) {
                assert(both[key] == older[key]);
            }
        }
    } else {
        assert(newest_claim(tables, ranges, key, 0) is None);
        if tables[0].contains_key(key) {
            assert(claims(tables, ranges, key, 0));
        }
    }
}

/// Tables that hold the entries of one table between them answer as that
/// table answers.
pub proof fn lemma_parts_lookup(
    parts: Seq<Map<u64, Seq<char>>>,
    ranges: Seq<(u64, u64)>,
    whole: Map<u64, Seq<char>>,
    key: u64,
)
    requires
        parts.len() == ranges.len(),
        forall|place: int, k: u64|
            0 <= place < parts.len() && #[trigger] parts[place].contains_key(k) ==> covers(
                ranges[place],
                k,
            ) && whole.contains_key(k) && parts[place][k] == whole[k],
        whole.contains_key(key) ==> exists|place: int|
            0 <= place < parts.len() && #[trigger] parts[place].contains_key(key),
    ensures
        segments_get(parts, ranges, key, parts.len()) == lookup(whole, key),
{
    lemma_newest_claim(parts, ranges, key, parts.len());
    match newest_claim(parts, ranges, key, parts.len()) {
        Some(place) => {
            assert(parts[place].contains_key(key));
        },
        None => {
            if whole.contains_key(key) {
                let place = choose|place: int|
                    0 <= place < parts.len() && #[trigger] parts[place].contains_key(key);
                assert(claims(parts, ranges, key, place));
            }
        },
    }
}

/// Compaction keeps what a get sees: where the timestamps grow along the
/// manifest, the table that merging the segments gives, the newest first in
/// the order of their timestamps, answers as the segments answered.
pub proof fn lemma_compaction_preserves(
    s: LsmModel,
    timestamps: Seq<i64>,
    order: Seq<usize>,
    key: u64,
)
    requires
        s.ranges_cover(),
        s.tables.len() > 0,
        timestamps.len() == s.tables.len(),
        is_newest_first(order, timestamps),
        timestamps_grow(timestamps),
    ensures
        lookup(merged_in_order(s.tables, order, 0), key) == segments_get(
            s.tables,
            s.ranges,
            key,
            s.tables.len(),
        ),
{
    lemma_order_reverses(order, timestamps);
    lemma_merged_in_reverse(s.tables, order, 0);
    lemma_merged_prefix_lookup(s.tables, s.ranges, key, s.tables.len());
}

/// The table that merging the tables gives in the order `order`, which lists
/// the newest first: the tables from the place `from` of the order on, each
/// newer one merged into what the older ones gave.
pub open spec fn merged_in_order(
    tables: Seq<Map<u64, Seq<char>>>,
    order: Seq<usize>,
    from: int,
) -> Map<u64, Seq<char>>
    decreases order.len() - from,
{
    if from >= order.len() - 1 {
        tables[order[order.len() - 1] as int]
    } else {
        merged(merged_in_order(tables, order, from + 1), tables[order[from] as int])
    }
}

/// Whether the segment at the place `a` is newer than the one at the place
/// `b`: its timestamp is greater, or the timestamps are equal and it comes
/// later in the manifest.
pub open spec fn newer(timestamps: Seq<i64>, a: int, b: int) -> bool {
    timestamps[a] > timestamps[b] || (timestamps[a] == timestamps[b] && a > b)
}

/// Whether `order` lists the places of the segments, each once, the newer
/// before the older.
pub open spec fn is_newest_first(order: Seq<usize>, timestamps: Seq<i64>) -> bool {
    &&& order.len() == timestamps.len()
    &&& forall|p: int| 0 <= p < order.len() ==> #[trigger] order[p] < timestamps.len()
    &&& forall|i: int| 0 <= i < timestamps.len() ==> #[trigger] occurs(order, i)
    &&& forall|p: int, q: int|
        0 <= p < q < order.len() ==> newer(
            timestamps,
            #[trigger] order[p] as int,
            #[trigger] order[q] as int,
        )
}

/// Whether no segment has a smaller timestamp than one before it in the
/// manifest.
pub open spec fn timestamps_grow(timestamps: Seq<i64>) -> bool {
    forall|a: int, b: int| 0 <= a < b < timestamps.len() ==> timestamps[a] <= timestamps[b]
}

/// Where the timestamps grow along the manifest, ordering the segments the
/// newest first reverses the manifest.
pub proof fn lemma_order_reverses(order: Seq<usize>, timestamps: Seq<i64>)
    requires
        is_newest_first(order, timestamps),
        timestamps_grow(timestamps),
    ensures
        forall|p: int| 0 <= p < order.len() ==> #[trigger] order[p] == order.len() - 1 - p,
{
    let n = order.len() as int;
    assert forall|p: int, q: int| 0 <= p < q < n implies order[p] > order[q] by {
        assert(newer(timestamps, order[p] as int, order[q] as int));
        let a = order[p] as int;
        let b = order[q] as int;
        if a < b {
            assert(timestamps[a] <= timestamps[b]);
        }
    }
    assert forall|p: int| 0 <= p < n implies #[trigger] order[p] == n - 1 - p by {
        lemma_decreasing_order(order, p);
        lemma_decreasing_from_top(order, p);
    }
}

/// In a strictly decreasing list of places the place at `p` is at least the
/// number of places that follow it.
proof fn lemma_decreasing_order(order: Seq<usize>, p: int)
    requires
        0 <= p < order.len(),
        forall|a: int, b: int| 0 <= a < b < order.len() ==> order[a] > order[b],
    ensures
        order[p] >= order.len() - 1 - p,
    decreases order.len() - p,
{
    if p < order.len() - 1 {
        lemma_decreasing_order(order, p + 1);
        assert(order[p] > order[p + 1]);
    }
}

/// In a strictly decreasing list of places below their number, the place at
/// `p` is at most the greatest place less `p`.
proof fn lemma_decreasing_from_top(order: Seq<usize>, p: int)
    requires
        0 <= p < order.len(),
        forall|a: int| 0 <= a < order.len() ==> #[trigger] order[a] < order.len(),
        forall|a: int, b: int| 0 <= a < b < order.len() ==> order[a] > order[b],
    ensures
        order[p] <= order.len() - 1 - p,
    decreases p,
{
    if p > 0 {
        lemma_decreasing_from_top(order, p - 1);
        assert(order[p - 1] > order[p]);
    }
}

/// Where the order reverses the manifest, merging in that order is merging the
/// tables of the manifest, the oldest first.
pub proof fn lemma_merged_in_reverse(
    tables: Seq<Map<u64, Seq<char>>>,
    order: Seq<usize>,
    from: int,
)
    requires
        order.len() == tables.len(),
        0 <= from < order.len(),
        forall|p: int| 0 <= p < order.len() ==> #[trigger] order[p] == order.len() - 1 - p,
    ensures
        merged_in_order(tables, order, from) == merged_prefix(
            tables,
            (order.len() - from) as nat,
        ),
    decreases order.len() - from,
{
    if from < order.len() - 1 {
        lemma_merged_in_reverse(tables, order, from + 1);
        assert(order[from] == order.len() - 1 - from);
    } else {
        assert(order[order.len() - 1] == 0);
    }
}

} // verus!
