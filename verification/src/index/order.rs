//! Stable ordering of places by a key.

use vstd::prelude::*;

verus! {

/// Whether the place `a` comes before the place `b`: by ascending key, and for
/// equal keys by ascending place.
pub open spec fn comes_before(keys: Seq<i128>, a: int, b: int) -> bool {
    keys[a] < keys[b] || (keys[a] == keys[b] && a < b)
}

/// Whether the place `i` occurs in `order`.
pub open spec fn occurs(order: Seq<usize>, i: int) -> bool {
    exists|p: int| 0 <= p < order.len() && #[trigger] order[p] == i
}

/// Whether `order` lists the first `count` places of `keys`, each once, the
/// one that comes before another first.
pub open spec fn orders_first(order: Seq<usize>, keys: Seq<i128>, count: int) -> bool {
    &&& order.len() == count
    &&& forall|p: int| 0 <= p < order.len() ==> #[trigger] order[p] < count
    &&& forall|i: int| 0 <= i < count ==> #[trigger] occurs(order, i)
    &&& forall|p: int, q: int|
        0 <= p < q < order.len() ==> comes_before(
            keys,
            #[trigger] order[p] as int,
            #[trigger] order[q] as int,
        )
}

/// Whether `order` lists the places of `keys`, each once, by ascending key,
/// places with equal keys in ascending order.
pub open spec fn is_sorted_order(order: Seq<usize>, keys: Seq<i128>) -> bool {
    orders_first(order, keys, keys.len() as int)
}

/// The places of `keys` by ascending key. The order is stable: places with
/// equal keys keep their order.
pub fn sorted_order(keys: &Vec<i128>) -> (order: Vec<usize>)
    ensures
        is_sorted_order(order@, keys@),
{
    let mut order: Vec<usize> = Vec::new();
    let mut i: usize = 0;
    while i < keys.len()
        invariant
            i <= keys.len(),
            orders_first(order@, keys@, i as int),
        decreases keys.len() - i,
    {
        let mut p: usize = order.len();
        while p > 0 && keys[order[p - 1]] > keys[i]
            invariant
                p <= order.len(),
                i < keys.len(),
                orders_first(order@, keys@, i as int),
                forall|q: int|
                    p <= q < order.len() ==> keys@[i as int] < keys@[#[trigger] order@[q] as int],
            decreases p,
        {
            p = p - 1;
        }
        let ghost before = order@;
        order.insert(p, i);
        proof {
            let after = order@;
            assert forall|q: int| 0 <= q < after.len() implies #[trigger] after[q] < i + 1 by {
                if q < p {
                    assert(after[q] == before[q]);
                } else if q > p {
                    assert(after[q] == before[q - 1]);
                }
            }
            assert forall|j: int| 0 <= j < i + 1 implies #[trigger] occurs(after, j) by {
                if j == i {
                    assert(after[p as int] == j);
                } else {
                    assert(occurs(before, j));
                    let q = choose|q: int| 0 <= q < before.len() && #[trigger] before[q] == j;
                    if q < p {
                        assert(after[q] == j);
                    } else {
                        assert(after[q + 1] == j);
                    }
                }
            }
            assert forall|a: int, b: int| 0 <= a < b < after.len() implies comes_before(
                keys@,
                #[trigger] after[a] as int,
                #[trigger] after[b] as int,
            ) by {
                let x = if a < p { a } else { a - 1 };
                let y = if b < p { b } else { b - 1 };
                if a == p {
                    assert(after[b] == before[y]);
                    assert(keys@[i as int] < keys@[before[y] as int]);
                } else if b == p {
                    assert(after[a] == before[x]);
                    assert(before[x] < i);
                    if p > 0 {
                        if x < p - 1 {
                            assert(comes_before(keys@, before[x] as int, before[p - 1] as int));
                        }
                    }
                } else {
                    assert(after[a] == before[x]);
                    assert(after[b] == before[y]);
                    assert(comes_before(keys@, before[x] as int, before[y] as int));
                }
            }
        }
        i = i + 1;
    }
    order
}

} // verus!
