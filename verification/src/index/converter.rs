//! Conversions between maps and lists of pairs.

use crate::file::serializer::pairs_view;
use crate::index::sstable::is_listing;
use skiplist::SkipMap;
use std::collections::HashMap;
use vstd::prelude::*;
use vstd::std_specs::hash::*;

verus! {

broadcast use vstd::std_specs::hash::group_hash_axioms;

/// The ordered map of the outside crate `skiplist`. Nothing is read from it
/// but through the functions below.
#[verifier::external_type_specification]
#[verifier::external_body]
#[verifier::reject_recursive_types(K)]
#[verifier::reject_recursive_types(V)]
pub struct ExSkipMap<K, V>(skiplist::SkipMap<K, V>);

/// What an ordered map holds: its keys, each with the characters of its value.
pub uninterp spec fn skipmap_entries(map: &SkipMap<u64, String>) -> Map<u64, Seq<char>>;

/// Calls `SkipMap::new`.
///
/// Trusted: the new map holds nothing.
#[verifier::external_body]
pub(crate) fn skipmap_new() -> (map: SkipMap<u64, String>)
    ensures
        (skipmap_entries(&map) == Map::<u64, Seq<char>>::empty()),
{
    SkipMap::new()
}

/// Calls `SkipMap::insert`.
///
/// Trusted: afterwards the map holds `value` under `key`, in place of the
/// value that the key had, and every other entry as before.
#[verifier::external_body]
pub(crate) fn skipmap_insert(map: &mut SkipMap<u64, String>, key: u64, value: String)
    ensures
        skipmap_entries(final(map)) == skipmap_entries(old(map)).insert(key, value@),
{
    map.insert(key, value);
}

/// Calls `SkipMap::get`.
///
/// Trusted: the call returns the value under `key`, and `None` where the map
/// does not hold the key.
#[verifier::external_body]
pub(crate) fn skipmap_get<'a>(map: &'a SkipMap<u64, String>, key: &u64) -> (value: Option<
    &'a String,
>)
    ensures
        (match value {
            Some(v) => skipmap_entries(map).contains_key(*key) && skipmap_entries(map)[*key]
                == v@,
            None => !skipmap_entries(map).contains_key(*key),
        }),
{
    map.get(key)
}

/// Calls `SkipMap::clear`.
///
/// Trusted: afterwards the map holds nothing.
#[verifier::external_body]
pub(crate) fn skipmap_clear(map: &mut SkipMap<u64, String>)
    ensures
        (skipmap_entries(final(map)) == Map::<u64, Seq<char>>::empty()),
{
    map.clear();
}

/// Calls `SkipMap::lower_bound` with an included bound.
///
/// Trusted: the call returns the least key of the map that is not below `min`,
/// and `None` where every key is below it.
#[verifier::external_body]
pub(crate) fn skipmap_lower_bound(map: &SkipMap<u64, String>, min: u64) -> (key: Option<u64>)
    ensures
        (match key {
            Some(found) => {
                &&& skipmap_entries(map).contains_key(found)
                &&& min <= found
                &&& forall|other: u64| #[trigger]
                    skipmap_entries(map).contains_key(other) && min <= other ==> found <= other
            },
            None => forall|other: u64| #[trigger]
                skipmap_entries(map).contains_key(other) ==> other < min,
        }),
{
    map.lower_bound(std::ops::Bound::Included(&min)).map(|entry| *entry.0)
}

/// Calls `SkipMap::upper_bound` with an included bound.
///
/// Trusted: the call returns the greatest key of the map that is not above
/// `max`, and `None` where every key is above it.
#[verifier::external_body]
pub(crate) fn skipmap_upper_bound(map: &SkipMap<u64, String>, max: u64) -> (key: Option<u64>)
    ensures
        (match key {
            Some(found) => {
                &&& skipmap_entries(map).contains_key(found)
                &&& found <= max
                &&& forall|other: u64| #[trigger]
                    skipmap_entries(map).contains_key(other) && other <= max ==> other <= found
            },
            None => forall|other: u64| #[trigger]
                skipmap_entries(map).contains_key(other) ==> max < other,
        }),
{
    map.upper_bound(std::ops::Bound::Included(&max)).map(|entry| *entry.0)
}

/// The entries of the ordered map by ascending key: `SkipMap::iter`, with each
/// entry copied out.
///
/// Trusted: the iterator hands out every entry of the map once, in the order
/// of the keys.
#[verifier::external_body]
pub fn convert_skipmap_to_vec(map: &SkipMap<u64, String>) -> (v: Vec<(u64, String)>)
    ensures
        is_listing(pairs_view(v@), skipmap_entries(map)),
{
    map.iter().map(|entry| (*entry.0, entry.1.clone())).collect()
}

/// The ordered map that the pairs build: of two pairs with one key the later
/// stays.
pub fn convert_vec_to_skipmap(v: &Vec<(u64, String)>) -> (map: SkipMap<u64, String>)
    ensures
        skipmap_entries(&map) == table_of(pairs_view(v@)),
{
    let mut map = skipmap_new();
    let mut i: usize = 0;
    while i < v.len()
        invariant
            i <= v@.len(),
            skipmap_entries(&map) == table_of(pairs_view(v@.take(i as int))),
        decreases v@.len() - i,
    {
        proof {
            lemma_pairs_view_step(v@, i as int);
        }
        skipmap_insert(&mut map, v[i].0, v[i].1.clone());
        i = i + 1;
    }
    proof {
        assert(v@.take(v@.len() as int) =~= v@);
    }
    map
}

/// The table that a list of entries builds: each entry is put in turn, so that
/// of two entries with one key the later stays.
pub open spec fn table_of(entries: Seq<(u64, Seq<char>)>) -> Map<u64, Seq<char>>
    decreases entries.len(),
{
    if entries.len() == 0 {
        Map::empty()
    } else {
        table_of(entries.drop_last()).insert(entries.last().0, entries.last().1)
    }
}

/// The first `count + 1` pairs are the first `count` pairs and one more.
pub proof fn lemma_pairs_view_step(pairs: Seq<(u64, String)>, count: int)
    requires
        0 <= count < pairs.len(),
    ensures
        pairs_view(pairs.take(count + 1)).drop_last() == pairs_view(pairs.take(count)),
        pairs_view(pairs.take(count + 1)).last() == (pairs[count].0, pairs[count].1@),
        pairs.take(count + 1).drop_last() == pairs.take(count),
        pairs.take(count + 1).last() == pairs[count],
{
    assert(pairs_view(pairs.take(count + 1)).drop_last() =~= pairs_view(pairs.take(count)));
    assert(pairs.take(count + 1).drop_last() =~= pairs.take(count));
}

/// The map that a list of pairs builds holds, as a table, what the list builds
/// as a list of entries.
pub proof fn lemma_map_of_pairs_table(pairs: Seq<(u64, String)>)
    ensures
        map_of_pairs(pairs).map_values(|val: String| val@) == table_of(pairs_view(pairs)),
    decreases pairs.len(),
{
    let left = map_of_pairs(pairs).map_values(|val: String| val@);
    let right = table_of(pairs_view(pairs));
    if pairs.len() > 0 {
        lemma_map_of_pairs_table(pairs.drop_last());
        assert(pairs_view(pairs).drop_last() =~= pairs_view(pairs.drop_last()));
        let before = map_of_pairs(pairs.drop_last()).map_values(|val: String| val@);
        assert(left =~= before.insert(pairs.last().0, pairs.last().1@));
    } else {
        assert(left =~= right);
    }
}


/// The map that a list of pairs builds: each pair is put into the map in turn,
/// so that of two pairs with one key the later stays.
pub open spec fn map_of_pairs(pairs: Seq<(u64, String)>) -> Map<u64, String>
    decreases pairs.len(),
{
    if pairs.len() == 0 {
        Map::empty()
    } else {
        map_of_pairs(pairs.drop_last()).insert(pairs.last().0, pairs.last().1)
    }
}

/// Whether `pairs` holds the entries of `map`, each once, in any order.
pub open spec fn lists_entries(pairs: Seq<(u64, String)>, map: Map<u64, String>) -> bool {
    &&& forall|i: int|
        0 <= i < pairs.len() ==> map.contains_key(#[trigger] pairs[i].0) && map[pairs[i].0]
            == pairs[i].1
    &&& forall|i: int, j: int| 0 <= i < j < pairs.len() ==> pairs[i].0 != pairs[j].0
    &&& forall|key: u64| #[trigger]
        map.contains_key(key) ==> exists|i: int| 0 <= i < pairs.len() && #[trigger] pairs[i].0 == key
}

/// The entries of the map, each once, in the order in which the map hands them
/// out.
pub fn convert_hashmap_to_vec(map: &HashMap<u64, String>) -> (v: Vec<(u64, String)>)
    ensures
        lists_entries(v@, map@),
{
    let mut v: Vec<(u64, String)> = Vec::new();
    for pair in it: map.iter()
        invariant
            v@.len() == it.index(),
            it.seq().no_duplicates(),
            forall|i: int|
                0 <= i < it.seq().len() ==> map@.contains_key(*it.seq()[i].0) && map@[*it.seq()[i].0]
                    == *it.seq()[i].1,
            forall|key: u64| #[trigger]
                map@.contains_key(key) ==> exists|i: int|
                    0 <= i < it.seq().len() && *(#[trigger] it.seq()[i]).0 == key,
            forall|i: int|
                0 <= i < v@.len() ==> v@[i].0 == *it.seq()[i].0 && v@[i].1 == *it.seq()[i].1,
            forall|key: u64| #[trigger]
                map@.contains_key(key) ==> (exists|i: int|
                    0 <= i < v@.len() && #[trigger] v@[i].0 == key) || (exists|i: int|
                    it.index() <= i < it.seq().len() && *(#[trigger] it.seq()[i]).0 == key),
    {
        let (k, val) = pair;
        let ghost before = v@;
        v.push((*k, val.clone()));
        proof {
            assert forall|key: u64| #[trigger] map@.contains_key(key) implies (exists|i: int|
                0 <= i < v@.len() && #[trigger] v@[i].0 == key) || (exists|i: int|
                it.index() + 1 <= i < it.seq().len() && *(#[trigger] it.seq()[i]).0 == key) by {
                if exists|i: int| 0 <= i < before.len() && #[trigger] before[i].0 == key {
                    let i = choose|i: int| 0 <= i < before.len() && #[trigger] before[i].0 == key;
                    assert(v@[i].0 == key);
                } else {
                    let i = choose|i: int|
                        it.index() <= i < it.seq().len() && *(#[trigger] it.seq()[i]).0 == key;
                    if i == it.index() {
                        assert(v@[it.index() as int].0 == key);
                    }
                }
            }
        }
    }
    v
}

/// The map that the pairs build: of two pairs with one key the later stays.
pub fn convert_vec_to_hashmap(v: &Vec<(u64, String)>) -> (map: HashMap<u64, String>)
    ensures
        map@ == map_of_pairs(v@),
{
    let mut map: HashMap<u64, String> = HashMap::new();
    let mut i: usize = 0;
    while i < v.len()
        invariant
            i <= v@.len(),
            map@ == map_of_pairs(v@.take(i as int)),
        decreases v@.len() - i,
    {
        proof {
            assert(v@.take(i + 1).drop_last() =~= v@.take(i as int));
        }
        map.insert(v[i].0, v[i].1.clone());
        i = i + 1;
    }
    proof {
        assert(v@.take(v@.len() as int) =~= v@);
    }
    map
}

} // verus!
