//! Sorting by a key, keeping the order of equal keys.

use vstd::prelude::*;

verus! {

/// Item `x` comes before item `y`: its key is less, or the keys are equal and
/// `x` is listed first.
pub open spec fn precedes(keys: Seq<i128>, x: int, y: int) -> bool {
    keys[x] < keys[y] || (keys[x] == keys[y] && x < y)
}

/// `order` lists every item once, each after those that precede it.
pub open spec fn sorts(keys: Seq<i128>, order: Seq<usize>) -> bool {
    &&& order.len() == keys.len()
    &&& forall|p: int| 0 <= p < order.len() ==> #[trigger] order[p] < keys.len()
    &&& forall|i: usize| i < keys.len() ==> #[trigger] order.contains(i)
    &&& forall|p: int, q: int|
        0 <= p < q < order.len() ==> precedes(
            keys,
            #[trigger] order[p] as int,
            #[trigger] order[q] as int,
        )
}

/// The items in the order of their keys.
pub fn stable_order(keys: &Vec<i128>) -> (order: Vec<usize>)
    ensures
        sorts(keys@, order@),
{
    let n: usize = keys.len();
    let mut order: Vec<usize> = Vec::new();
    for i in 0..n
        invariant
            n == keys@.len(),
            order@.len() == i,
            forall|p: int| 0 <= p < order@.len() ==> #[trigger] order@[p] < i,
            forall|x: usize| x < i ==> #[trigger] order@.contains(x),
            forall|p: int, q: int|
                0 <= p < q < order@.len() ==> precedes(
                    keys@,
                    #[trigger] order@[p] as int,
                    #[trigger] order@[q] as int,
                ),
    {
        let mut at: usize = i;
        while at > 0 && keys[order[at - 1]] > keys[i]
            invariant
                i < n,
                n == keys@.len(),
                order@.len() == i,
                at <= i,
                forall|p: int| 0 <= p < order@.len() ==> #[trigger] order@[p] < i,
                forall|q: int|
                    at <= q < order@.len() ==> keys@[(#[trigger] order@[q]) as int] > keys@[i as int],
            decreases at,
        {
            at = at - 1;
        }
        let ghost before = order@;
        order.insert(at, i);
        proof {
            assert(order@ == before.insert(at as int, i));
            assert forall|x: usize| x < i + 1 implies #[trigger] order@.contains(x) by {
                if x == i {
                    assert(order@[at as int] == x);
                } else {
                    assert(before.contains(x));
                    let k = choose|k: int| 0 <= k < before.len() && before[k] == x;
                    if k < at {
                        assert(order@[k] == x);
                    } else {
                        assert(order@[k + 1] == x);
                    }
                }
            }
            assert forall|p: int, q: int| 0 <= p < q < order@.len() implies precedes(
                keys@,
                #[trigger] order@[p] as int,
                #[trigger] order@[q] as int,
            ) by {
                let p0 = if p < at { p } else { p - 1 };
                let q0 = if q < at { q } else { q - 1 };
                if p != at && q != at {
                    assert(precedes(keys@, before[p0] as int, before[q0] as int));
                } else if q == at {
                    assert(at > 0);
                    assert(keys@[before[at - 1] as int] <= keys@[i as int]);
                    if p < at - 1 {
                        assert(precedes(keys@, before[p] as int, before[at - 1] as int));
                    }
                    assert(before[p] < i);
                } else {
                    assert(keys@[before[q0] as int] > keys@[i as int]);
                }
            }
        }
    }
    order
}

/// The keys determine the order.
pub proof fn law_order_is_determined(keys: Seq<i128>, order: Seq<usize>, other: Seq<usize>)
    requires
        sorts(keys, order),
        sorts(keys, other),
    ensures
        order == other,
{
    assert forall|p: int| 0 <= p < order.len() implies order[p] == other[p] by {
        lemma_same_prefix(keys, order, other, p);
    }
    assert(order =~= other);
}

proof fn lemma_same_prefix(keys: Seq<i128>, order: Seq<usize>, other: Seq<usize>, p: int)
    requires
        sorts(keys, order),
        sorts(keys, other),
        0 <= p < order.len(),
    ensures
        order[p] == other[p],
    decreases p,
{
    assert forall|q: int| 0 <= q < p implies order[q] == other[q] by {
        lemma_same_prefix(keys, order, other, q);
    }
    if order[p] != other[p] {
        assert(order.contains(other[p]) && other.contains(order[p]));
        let a = choose|a: int| 0 <= a < order.len() && order[a] == other[p];
        let b = choose|b: int| 0 <= b < other.len() && other[b] == order[p];
        if a < p {
            assert(other[a] == other[p]);
            assert(precedes(keys, other[a] as int, other[p] as int));
        }
        if b < p {
            assert(order[b] == order[p]);
            assert(precedes(keys, order[b] as int, order[p] as int));
        }
        assert(precedes(keys, order[p] as int, order[a] as int));
        assert(precedes(keys, other[p] as int, other[b] as int));
    }
}

/// In the order every item is listed once, the keys never decrease, and items
/// with one key stay as they were listed.
pub proof fn law_keys_ascend(keys: Seq<i128>, order: Seq<usize>, p: int, q: int, item: usize)
    requires
        sorts(keys, order),
        0 <= p < q < order.len(),
    ensures
        order.len() == keys.len(),
        order[p] < keys.len() && order[q] < keys.len() && order[p] != order[q],
        keys[order[p] as int] <= keys[order[q] as int],
        keys[order[p] as int] == keys[order[q] as int] ==> order[p] < order[q],
        item < keys.len() ==> order.contains(item),
{
    assert(precedes(keys, order[p] as int, order[q] as int));
}

} // verus!
