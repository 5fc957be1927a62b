//! Sorting by the natural order, stably.
use vstd::prelude::*;

use crate::natural_sort::{is_after, lemma_before_then_not_after, lemma_not_after_self, natural_after};

verus! {

/// `order` lists each index of `keys` once, so that the keys come in
/// natural order, equal keys in the order of their indices.
pub open spec fn is_natural_sort_order(keys: Seq<String>, order: Seq<usize>) -> bool {
    &&& order.len() == keys.len()
    &&& forall|k: int| 0 <= k < order.len() ==> #[trigger] order[k] < keys.len()
    &&& order.no_duplicates()
    &&& forall|a: int, b: int|
        0 <= a < b < order.len() ==> !natural_after(keys[#[trigger] order[a] as int]@, keys[#[trigger] order[b] as int]@)
    &&& forall|a: int, b: int|
        0 <= a < b < order.len() && keys[#[trigger] order[a] as int]@ == keys[#[trigger] order[b] as int]@ ==> order[a]
            < order[b]
}

/// The order that sorts `keys` naturally, keeping equal keys in their
/// original order: the order a stable sort by the natural comparison
/// leaves them in.
pub fn natural_sort_order(keys: &[String]) -> (order: Vec<usize>)
    ensures
        is_natural_sort_order(keys@, order@),
        forall|i: usize| i < keys.len() ==> #[trigger] order@.contains(i),
{
    let n = keys.len();
    let mut order: Vec<usize> = Vec::new();
    let mut i: usize = 0;
    while i < n
        invariant
            n == keys.len(),
            i <= n,
            order.len() == i,
            forall|k: int| 0 <= k < order.len() ==> #[trigger] order@[k] < i,
            order@.no_duplicates(),
            forall|a: int, b: int|
                0 <= a < b < order.len() ==> !natural_after(
                    keys@[#[trigger] order@[a] as int]@,
                    keys@[#[trigger] order@[b] as int]@,
                ),
            forall|a: int, b: int|
                0 <= a < b < order.len() && keys@[#[trigger] order@[a] as int]@ == keys@[#[trigger] order@[b] as int]@
                    ==> order@[a] < order@[b],
        decreases n - i,
    {
        let key = &keys[i];
        let mut p: usize = 0;
        while p < order.len() && !is_after(keys[order[p]].as_str(), key.as_str())
            invariant
                p <= order.len(),
                forall|k: int| 0 <= k < order.len() ==> #[trigger] order@[k] < i,
                i < n,
                n == keys.len(),
                key@ == keys@[i as int]@,
                forall|k: int| 0 <= k < p ==> !natural_after(keys@[#[trigger] order@[k] as int]@, key@),
            decreases order.len() - p,
        {
            p = p + 1;
        }
        let ghost before = order@;
        order.insert(p, i);
        proof {
            let x = keys@[i as int]@;
            assert forall|k: int| 0 <= k < order.len() implies #[trigger] order@[k] < i + 1 by {
                if k > p {
                    assert(order@[k] == before[k - 1]);
                } else if k < p {
                    assert(order@[k] == before[k]);
                }
            }
            assert forall|a: int, b: int| 0 <= a < order.len() && 0 <= b < order.len() && a != b implies order@[a]
                != order@[b] by {
                if a != p && b != p {
                    let a0 = if a < p {
                        a
                    } else {
                        a - 1
                    };
                    let b0 = if b < p {
                        b
                    } else {
                        b - 1
                    };
                    assert(order@[a] == before[a0] && order@[b] == before[b0]);
                } else if a == p {
                    let b0 = if b < p {
                        b
                    } else {
                        b - 1
                    };
                    assert(order@[b] == before[b0]);
                } else {
                    let a0 = if a < p {
                        a
                    } else {
                        a - 1
                    };
                    assert(order@[a] == before[a0]);
                }
            }
            assert forall|a: int, b: int| 0 <= a < b < order.len() implies !natural_after(
                keys@[#[trigger] order@[a] as int]@,
                keys@[#[trigger] order@[b] as int]@,
            ) && (keys@[order@[a] as int]@ == keys@[order@[b] as int]@ ==> order@[a] < order@[b]) by {
                if b < p {
                    assert(order@[a] == before[a] && order@[b] == before[b]);
                } else if a > p {
                    assert(order@[a] == before[a - 1] && order@[b] == before[b - 1]);
                } else if a < p && b > p {
                    assert(order@[a] == before[a] && order@[b] == before[b - 1]);
                } else if a == p {
                    assert(order@[b] == before[b - 1]);
                    let y = keys@[before[p as int] as int]@;
                    assert(natural_after(y, x));
                    if b - 1 > p {
                        assert(!natural_after(y, keys@[before[b - 1] as int]@));
                    } else {
                        lemma_not_after_self(y);
                    }
                    lemma_before_then_not_after(x, y, keys@[before[b - 1] as int]@);
                } else {
                    assert(order@[a] == before[a]);
                    assert(!natural_after(keys@[before[a] as int]@, x));
                }
            }
        }
        i = i + 1;
    }
    proof {
        lemma_order_covers(order@, n as int);
    }
    order
}

/// A list of `n` distinct indices below `n` holds every index below `n`.
pub proof fn lemma_order_covers(order: Seq<usize>, n: int)
    requires
        order.len() == n,
        order.no_duplicates(),
        forall|k: int| 0 <= k < order.len() ==> #[trigger] order[k] < n,
    ensures
        forall|i: usize| i < n ==> #[trigger] order.contains(i),
{
    let ints = order.map_values(|x: usize| x as int);
    assert(ints.no_duplicates()) by {
        assert forall|a: int, b: int| 0 <= a < ints.len() && 0 <= b < ints.len() && a != b implies ints[a]
            != ints[b] by {
            assert(order[a] != order[b]);
        }
    }
    ints.unique_seq_to_set();
    vstd::set_lib::lemma_int_range(0, n);
    let range = vstd::set_lib::set_int_range(0, n);
    assert(ints.to_set().subset_of(range)) by {
        assert forall|x: int| ints.to_set().contains(x) implies range.contains(x) by {
            assert(ints.contains(x));
            let k = choose|k: int| 0 <= k < ints.len() && ints[k] == x;
            assert(order[k] < n);
        }
    }
    vstd::seq_lib::seq_to_set_is_finite(ints);
    vstd::set_lib::lemma_subset_equality(ints.to_set(), range);
    assert forall|i: usize| i < n implies #[trigger] order.contains(i) by {
        assert(range.contains(i as int));
        assert(ints.to_set().contains(i as int));
        assert(ints.contains(i as int));
        let k = choose|k: int| 0 <= k < ints.len() && ints[k] == i as int;
        assert(order[k] == i);
    }
}

} // verus!
