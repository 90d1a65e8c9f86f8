//! `sorted()` over values that order without a user-defined `__lt__`:
//! a stable insertion sort, reported as the positions of the items in
//! their new order.
use vstd::prelude::*;
use crate::compare::{Comparand, comparable, precedes, same_rank, order_checked, lemma_precedes_order};

verus! {

/// Every two items order with each other: all integers, or all strings.
pub open spec fn all_comparable(items: Seq<Comparand>) -> bool {
    forall|a: int, b: int| 0 <= a < items.len() && 0 <= b < items.len()
        ==> comparable(#[trigger] items[a], #[trigger] items[b])
}

/// Where the item at position `x` lands when it is inserted into `order`
/// from the back: it moves in front of each trailing item that it strictly
/// precedes, and stops at the first that it does not.
pub open spec fn landing(items: Seq<Comparand>, order: Seq<usize>, x: int) -> int
    decreases order.len(),
{
    if order.len() == 0 {
        0
    } else if precedes(items[x], items[order.last() as int]) {
        landing(items, order.drop_last(), x)
    } else {
        order.len() as int
    }
}

/// The positions of the first `n` items in the order that `sorted()` gives
/// them: each item in turn is inserted at its landing place.
pub open spec fn sorted_order(items: Seq<Comparand>, n: int) -> Seq<usize>
    decreases n,
{
    if n <= 0 {
        Seq::empty()
    } else {
        let before = sorted_order(items, n - 1);
        before.insert(landing(items, before, n - 1), (n - 1) as usize)
    }
}

/// Read through `order`, the items never step down, and equal items keep
/// the order of their positions.
pub open spec fn sorted_stable(items: Seq<Comparand>, order: Seq<usize>) -> bool {
    forall|a: int, b: int| #![trigger order[a], order[b]] 0 <= a < b < order.len() ==> {
        &&& !precedes(items[order[b] as int], items[order[a] as int])
        &&& (same_rank(items[order[a] as int], items[order[b] as int]) ==> order[a] < order[b])
    }
}

/// `a` strictly precedes `b`; values that do not order never do.
fn strictly_before(a: &Comparand, b: &Comparand) -> (r: bool)
    ensures
        r == precedes(*a, *b),
{
    match order_checked(a, b) {
        Ok(v) => v == -1,
        Err(_) => false,
    }
}

/// Inserting an item after those it does not precede and before those it
/// strictly precedes keeps an order sorted and stable, when the item comes
/// after every position already placed.
proof fn lemma_insert_keeps_sorted(items: Seq<Comparand>, order: Seq<usize>, k: int, x: usize)
    requires
        all_comparable(items),
        0 <= x < items.len(),
        0 <= k <= order.len(),
        forall|j: int| 0 <= j < order.len() ==> #[trigger] order[j] < x,
        sorted_stable(items, order),
        k > 0 ==> !precedes(items[x as int], items[order[k - 1] as int]),
        forall|a: int| k <= a < order.len() ==> precedes(items[x as int], items[#[trigger] order[a] as int]),
    ensures
        sorted_stable(items, order.insert(k, x)),
{
    let s = order.insert(k, x);
    order.insert_ensures(k, x);
    assert forall|a: int, b: int| #![trigger s[a], s[b]] 0 <= a < b < s.len() implies {
        &&& !precedes(items[s[b] as int], items[s[a] as int])
        &&& (same_rank(items[s[a] as int], items[s[b] as int]) ==> s[a] < s[b])
    } by {
        let xi = items[x as int];
        if b < k {
            assert(s[a] == order[a] && s[b] == order[b]);
        } else if b == k {
            assert(s[a] == order[a]);
            assert(s[b] == x);
            let ia = items[order[a] as int];
            let im = items[order[k - 1] as int];
            assert(comparable(ia, im));
            assert(comparable(xi, ia));
            assert(comparable(im, xi));
            lemma_precedes_order(ia, im, xi);
            lemma_precedes_order(xi, ia, im);
            lemma_precedes_order(im, xi, ia);
            if a < k - 1 {
                assert(!precedes(im, ia));
            }
        } else if a < k {
            assert(s[a] == order[a]);
            assert(s[b] == order[b - 1]);
        } else if a == k {
            assert(s[a] == x);
            assert(s[b] == order[b - 1]);
            let ib = items[order[b - 1] as int];
            assert(precedes(xi, ib));
            assert(comparable(xi, ib));
            lemma_precedes_order(xi, ib, ib);
        } else {
            assert(s[a] == order[a - 1]);
            assert(s[b] == order[b - 1]);
        }
    }
}

/// `sorted()` over values that order exactly, by position: the positions
/// of `items` in the order a stable insertion sort leaves them. Each item
/// in turn moves in front of the items before it that it strictly
/// precedes; values that do not order with each other never move past each
/// other. Where all items order with each other (all integers or all
/// strings), the result reads them in non-decreasing order, equal items in
/// their original order.
pub fn sorted_positions(items: &[Comparand]) -> (r: Vec<usize>)
    ensures
        r@ == sorted_order(items@, items@.len() as int),
        r@.len() == items@.len(),
        forall|j: int| 0 <= j < r@.len() ==> #[trigger] r@[j] < items@.len(),
        forall|a: int, b: int| 0 <= a < b < r@.len() ==> #[trigger] r@[a] != #[trigger] r@[b],
        all_comparable(items@) ==> sorted_stable(items@, r@),
{
    let n = items.len();
    let mut order: Vec<usize> = Vec::new();
    let mut i: usize = 0;
    while i < n
        invariant
            i <= n == items@.len(),
            order@ == sorted_order(items@, i as int),
            order@.len() == i,
            forall|j: int| 0 <= j < i ==> #[trigger] order@[j] < i,
            forall|a: int, b: int| 0 <= a < b < i ==> #[trigger] order@[a] != #[trigger] order@[b],
            all_comparable(items@) ==> sorted_stable(items@, order@),
        decreases n - i,
    {
        let mut k: usize = i;
        proof {
            assert(order@.subrange(0, i as int) =~= order@);
        }
        while k > 0 && strictly_before(&items[i], &items[order[k - 1]])
            invariant
                k <= order@.len() == i < n == items@.len(),
                forall|j: int| 0 <= j < i ==> #[trigger] order@[j] < i,
                landing(items@, order@, i as int) == landing(items@, order@.subrange(0, k as int), i as int),
                forall|a: int| k <= a < i ==> precedes(items@[i as int], items@[#[trigger] order@[a] as int]),
            decreases k,
        {
            proof {
                let sub = order@.subrange(0, k as int);
                assert(sub.last() == order@[k - 1]);
                assert(sub.drop_last() =~= order@.subrange(0, k - 1));
            }
            k -= 1;
        }
        proof {
            let sub = order@.subrange(0, k as int);
            if k > 0 {
                assert(sub.last() == order@[k - 1]);
            }
            assert(landing(items@, order@, i as int) == k);
            order@.insert_ensures(k as int, i);
            if all_comparable(items@) {
                lemma_insert_keeps_sorted(items@, order@, k as int, i);
            }
        }
        let ghost before = order@;
        order.insert(k, i);
        proof {
            assert(order@ == sorted_order(items@, i + 1));
            assert forall|j: int| 0 <= j < i + 1 implies #[trigger] order@[j] < i + 1 by {
                if j > k {
                    assert(order@[j] == before[j - 1]);
                }
            }
            assert forall|a: int, b: int| 0 <= a < b < i + 1 implies #[trigger] order@[a] != #[trigger] order@[b] by {
                if a < k && b < k {
                } else if a < k && b == k {
                } else if a < k {
                    assert(order@[b] == before[b - 1]);
                } else if a == k {
                    assert(order@[b] == before[b - 1]);
                } else {
                    assert(order@[a] == before[a - 1]);
                    assert(order@[b] == before[b - 1]);
                }
            }
        }
        i += 1;
    }
    order
}

} // verus!
