//! The integer side of the `sum` builtin.
use vstd::prelude::*;
use crate::integer::Integer;

verus! {

/// The sum of the values of `items`.
pub open spec fn sum_values(items: Seq<Integer>) -> int
    decreases items.len(),
{
    if items.len() == 0 {
        0
    } else {
        sum_values(items.drop_last()) + items.last().value()
    }
}

/// Every item is held in a machine word.
pub open spec fn all_small(items: Seq<Integer>) -> bool {
    forall|i: int| 0 <= i < items.len() ==> (#[trigger] items[i]) is Int
}

/// Whether adding `items` one by one to `start` leaves the `i64` range
/// while every operand so far is a machine word: the evaluator adds two
/// machine words with plain `+`, which overflows there.
pub open spec fn sum_overflows(start: Integer, items: Seq<Integer>) -> bool
    decreases items.len(),
{
    if items.len() == 0 {
        false
    } else {
        sum_overflows(start, items.drop_last()) || (start is Int && all_small(items)
            && !(i64::MIN <= start.value() + sum_values(items) <= i64::MAX))
    }
}

/// `sum(items, start)` over integers: `start` plus every item, in order,
/// held in a machine word while every operand is one, otherwise at
/// arbitrary precision. Machine-word overflow, which the evaluator does
/// not guard against, is left out by `requires`.
pub fn sum_integers(start: Integer, items: &[Integer]) -> (r: Integer)
    requires
        !sum_overflows(start, items@),
    ensures
        r.value() == start.value() + sum_values(items@),
        r is Int <==> (start is Int && all_small(items@)),
{
    let mut total = start;
    let mut k: usize = 0;
    proof {
        assert(items@.take(0) =~= Seq::<Integer>::empty());
    }
    while k < items.len()
        invariant
            k <= items@.len(),
            !sum_overflows(start, items@),
            total.value() == start.value() + sum_values(items@.take(k as int)),
            total is Int <==> (start is Int && all_small(items@.take(k as int))),
        decreases items@.len() - k,
    {
        let ghost before = items@.take(k as int);
        let ghost after = items@.take(k + 1);
        proof {
            assert(after.drop_last() =~= before);
            assert(after.last() == items@[k as int]);
            lemma_no_overflow_prefix(start, items@, k + 1);
            if all_small(after) {
                assert forall|i: int| 0 <= i < before.len() implies (#[trigger] before[i]) is Int by {
                    assert(before[i] == after[i]);
                }
            }
            if all_small(before) && items@[k as int] is Int {
                assert forall|i: int| 0 <= i < after.len() implies (#[trigger] after[i]) is Int by {
                    if i < before.len() {
                        assert(after[i] == before[i]);
                    }
                }
            }
        }
        total = crate::integer::add(&total, &items[k]);
        k += 1;
    }
    proof {
        assert(items@.take(items@.len() as int) =~= items@);
    }
    total
}

/// No overflow in the whole sum means none in any leading part.
proof fn lemma_no_overflow_prefix(start: Integer, items: Seq<Integer>, k: int)
    requires
        0 <= k <= items.len(),
        !sum_overflows(start, items),
    ensures
        !sum_overflows(start, items.take(k)),
    decreases items.len() - k,
{
    if k < items.len() {
        lemma_no_overflow_prefix(start, items, k + 1);
        assert(items.take(k + 1).drop_last() =~= items.take(k));
    } else {
        assert(items.take(k) =~= items);
    }
}

} // verus!
