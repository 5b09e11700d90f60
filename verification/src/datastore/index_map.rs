//! The in-memory index: a map from a key to the place of its newest record.

use crate::text::text_eq;
use vstd::prelude::*;

verus! {

/// Where a key's newest record lies in the data log.
#[derive(Debug, Clone, Copy, PartialEq, Eq, Structural)]
pub struct IndexBucket {
    pub offset: u64,
    pub length: usize,
}

/// The map that a list of pairs stands for: later pairs overwrite earlier ones.
pub open spec fn pairs_map(pairs: Seq<(String, IndexBucket)>) -> Map<Seq<char>, IndexBucket>
    decreases pairs.len(),
{
    if pairs.len() == 0 {
        Map::empty()
    } else {
        pairs_map(pairs.drop_last()).insert(pairs.last().0@, pairs.last().1)
    }
}

/// Whether no key occurs twice in `pairs`.
pub open spec fn distinct_keys(pairs: Seq<(String, IndexBucket)>) -> bool {
    forall|i: int, j: int| 0 <= i < j < pairs.len() ==> pairs[i].0@ != pairs[j].0@
}

/// The map of a list of pairs holds the keys of the list, and, where no key
/// occurs twice, each with the bucket beside it.
pub proof fn lemma_pairs_map(pairs: Seq<(String, IndexBucket)>)
    ensures
        pairs_map(pairs).dom().finite(),
        forall|key: Seq<char>| #[trigger]
            pairs_map(pairs).contains_key(key) <==> exists|i: int|
                0 <= i < pairs.len() && #[trigger] pairs[i].0@ == key,
        distinct_keys(pairs) ==> pairs_map(pairs).dom().len() == pairs.len(),
        distinct_keys(pairs) ==> forall|i: int|
            0 <= i < pairs.len() ==> #[trigger] pairs_map(pairs)[pairs[i].0@] == pairs[i].1,
    decreases pairs.len(),
{
    if pairs.len() > 0 {
        let front = pairs.drop_last();
        let last = pairs.last();
        lemma_pairs_map(front);
        assert forall|key: Seq<char>| #[trigger]
            pairs_map(pairs).contains_key(key) <==> exists|i: int|
                0 <= i < pairs.len() && #[trigger] pairs[i].0@ == key by {
            if pairs_map(pairs).contains_key(key) {
                if key == last.0@ {
                    assert(pairs[pairs.len() - 1].0@ == key);
                } else {
                    assert(pairs_map(front).contains_key(key));
                    let i = choose|i: int| 0 <= i < front.len() && #[trigger] front[i].0@ == key;
                    assert(pairs[i].0@ == key);
                }
            }
            if exists|i: int| 0 <= i < pairs.len() && #[trigger] pairs[i].0@ == key {
                let i = choose|i: int| 0 <= i < pairs.len() && #[trigger] pairs[i].0@ == key;
                if i < front.len() {
                    assert(front[i].0@ == key);
                }
            }
        }
        if distinct_keys(pairs) {
            assert(distinct_keys(front)) by {
                assert forall|i: int, j: int| 0 <= i < j < front.len() implies front[i].0@
                    != front[j].0@ by {
                    assert(pairs[i].0@ != pairs[j].0@);
                }
            }
            assert(!pairs_map(front).contains_key(last.0@)) by {
                if pairs_map(front).contains_key(last.0@) {
                    let i = choose|i: int|
                        0 <= i < front.len() && #[trigger] front[i].0@ == last.0@;
                    assert(pairs[i].0@ != pairs[pairs.len() - 1].0@);
                }
            }
            assert forall|i: int| 0 <= i < pairs.len() implies #[trigger] pairs_map(
                pairs,
            )[pairs[i].0@] == pairs[i].1 by {
                if i < front.len() {
                    assert(front[i] == pairs[i]);
                    assert(pairs[i].0@ != pairs[pairs.len() - 1].0@);
                    assert(pairs_map(front)[front[i].0@] == front[i].1);
                }
            }
        }
    }
}

/// A map from keys to index buckets in which no key occurs twice.
#[derive(Debug)]
pub struct IndexMap {
    entries: Vec<(String, IndexBucket)>,
}

impl View for IndexMap {
    type V = Map<Seq<char>, IndexBucket>;

    closed spec fn view(&self) -> Map<Seq<char>, IndexBucket> {
        pairs_map(self.entries@)
    }
}

impl IndexMap {
    #[verifier::type_invariant]
    spec fn well_formed(self) -> bool {
        distinct_keys(self.entries@)
    }

    /// An empty map.
    pub fn new() -> (map: Self)
        ensures
            map@ == Map::<Seq<char>, IndexBucket>::empty(),
    {
        IndexMap { entries: Vec::new() }
    }

    /// The map holds finitely many keys.
    pub proof fn lemma_finite(&self)
        ensures
            self@.dom().finite(),
    {
        lemma_pairs_map(self.entries@);
    }

    /// The number of keys in the map.
    pub fn len(&self) -> (len: usize)
        ensures
            self@.dom().finite(),
            len == self@.dom().len(),
    {
        proof {
            use_type_invariant(self);
            lemma_pairs_map(self.entries@);
        }
        self.entries.len()
    }

    /// Whether the map holds no key.
    pub fn is_empty(&self) -> (empty: bool)
        ensures
            empty == (self@ == Map::<Seq<char>, IndexBucket>::empty()),
    {
        proof {
            use_type_invariant(self);
            lemma_pairs_map(self.entries@);
            if self.entries@.len() == 0 {
            } else {
                assert(self@.contains_key(self.entries@[0].0@));
            }
        }
        self.entries.len() == 0
    }

    /// The place of `key` in the list, if the map holds it.
    fn find(&self, key: &str) -> (found: Option<usize>)
        ensures
            match found {
                Some(i) => i < self.entries@.len() && self.entries@[i as int].0@ == key@,
                None => forall|j: int| 0 <= j < self.entries@.len() ==> self.entries@[j].0@ != key@,
            },
    {
        let mut i: usize = 0;
        while i < self.entries.len()
            invariant
                i <= self.entries@.len(),
                forall|j: int| 0 <= j < i ==> self.entries@[j].0@ != key@,
            decreases self.entries@.len() - i,
        {
            if text_eq(self.entries[i].0.as_str(), key) {
                return Some(i);
            }
            i = i + 1;
        }
        None
    }

    /// Whether the map holds `key`.
    pub fn contains_key(&self, key: &str) -> (found: bool)
        ensures
            found == self@.contains_key(key@),
    {
        proof {
            use_type_invariant(self);
            lemma_pairs_map(self.entries@);
        }
        self.find(key).is_some()
    }

    /// The bucket of `key`, if the map holds it.
    pub fn get(&self, key: &str) -> (bucket: Option<&IndexBucket>)
        ensures
            match bucket {
                Some(b) => self@.contains_key(key@) && *b == self@[key@],
                None => !self@.contains_key(key@),
            },
    {
        proof {
            use_type_invariant(self);
            lemma_pairs_map(self.entries@);
        }
        match self.find(key) {
            Some(i) => Some(&self.entries[i].1),
            None => None,
        }
    }

    /// Removes `key` and returns the bucket that it had.
    pub fn remove(&mut self, key: &str) -> (bucket: Option<IndexBucket>)
        ensures
            final(self)@ == old(self)@.remove(key@),
            match bucket {
                Some(b) => old(self)@.contains_key(key@) && b == old(self)@[key@],
                None => !old(self)@.contains_key(key@),
            },
    {
        proof {
            use_type_invariant(&*self);
            lemma_pairs_map(self.entries@);
        }
        match self.find(key) {
            Some(i) => {
                let ghost before = self.entries@;
                let mut entries: Vec<(String, IndexBucket)> = Vec::new();
                core::mem::swap(&mut self.entries, &mut entries);
                let removed = entries.remove(i);
                proof {
                    let after = entries@;
                    assert(distinct_keys(after)) by {
                        assert forall|a: int, b: int| 0 <= a < b < after.len() implies after[a].0@
                            != after[b].0@ by {
                            let x = if a < i { a } else { a + 1 };
                            let y = if b < i { b } else { b + 1 };
                            assert(before[x].0@ != before[y].0@);
                        }
                    }
                    lemma_pairs_map(after);
                    assert forall|k: Seq<char>| #[trigger]
                        pairs_map(after).contains_key(k) <==> pairs_map(before).remove(
                            key@,
                        ).contains_key(k) by {
                        if pairs_map(after).contains_key(k) {
                            let a = choose|a: int| 0 <= a < after.len() && #[trigger] after[a].0@ == k;
                            let x = if a < i { a } else { a + 1 };
                            assert(before[x].0@ == k);
                            if x < i {
                                assert(before[x].0@ != before[i as int].0@);
                            } else {
                                assert(before[i as int].0@ != before[x].0@);
                            }
                        }
                        if pairs_map(before).remove(key@).contains_key(k) {
                            let x = choose|x: int|
                                0 <= x < before.len() && #[trigger] before[x].0@ == k;
                            let a = if x < i { x } else { x - 1 };
                            assert(after[a].0@ == k);
                        }
                    }
                    assert forall|k: Seq<char>| #[trigger]
                        pairs_map(after).contains_key(k) implies pairs_map(after)[k]
                        == pairs_map(before).remove(key@)[k] by {
                        let a = choose|a: int| 0 <= a < after.len() && #[trigger] after[a].0@ == k;
                        let x = if a < i { a } else { a + 1 };
                        assert(pairs_map(after)[after[a].0@] == after[a].1);
                        assert(pairs_map(before)[before[x].0@] == before[x].1);
                    }
                    assert(pairs_map(after) =~= pairs_map(before).remove(key@));
                    assert(pairs_map(before)[before[i as int].0@] == before[i as int].1);
                }
                core::mem::swap(&mut self.entries, &mut entries);
                Some(removed.1)
            },
            None => {
                proof {
                    assert(self@ =~= self@.remove(key@));
                }
                None
            },
        }
    }

    /// Puts `bucket` under `key` and returns the bucket that the key had.
    pub fn insert(&mut self, key: String, bucket: IndexBucket) -> (previous: Option<IndexBucket>)
        ensures
            final(self)@ == old(self)@.insert(key@, bucket),
            match previous {
                Some(b) => old(self)@.contains_key(key@) && b == old(self)@[key@],
                None => !old(self)@.contains_key(key@),
            },
    {
        let ghost before = self@;
        let previous = self.remove(key.as_str());
        proof {
            use_type_invariant(&*self);
            lemma_pairs_map(self.entries@);
            assert(!self@.contains_key(key@));
        }
        let ghost middle = self.entries@;
        let ghost text = key@;
        let mut entries: Vec<(String, IndexBucket)> = Vec::new();
        core::mem::swap(&mut self.entries, &mut entries);
        entries.push((key, bucket));
        proof {
            assert(entries@.drop_last() =~= middle);
            assert(before.remove(text).insert(text, bucket) =~= before.insert(text, bucket));
            assert forall|i: int, j: int| 0 <= i < j < entries@.len() implies entries@[i].0@
                != entries@[j].0@ by {
                if j == entries@.len() - 1 {
                    assert(middle[i].0@ != text);
                } else {
                    assert(middle[i].0@ != middle[j].0@);
                }
            }
        }
        core::mem::swap(&mut self.entries, &mut entries);
        previous
    }
}

} // verus!
