//! Integer ranges: their elements, membership and length.
use vstd::prelude::*;

verus! {

/// How many elements `range(start, stop, step)` holds.
pub open spec fn range_count(start: int, stop: int, step: int) -> nat {
    if step > 0 && stop > start {
        ((stop - start + step - 1) / step) as nat
    } else if step < 0 && start > stop {
        ((start - stop - step - 1) / (-step)) as nat
    } else {
        0
    }
}

/// The elements of `range(start, stop, step)`, in order.
pub open spec fn range_elements(start: int, stop: int, step: int) -> Seq<int> {
    Seq::new(range_count(start, stop, step), |i: int| start + i * step)
}

/// `k` is the smallest count of steps that reaches or passes `stop`.
pub proof fn lemma_range_count_exact(start: int, stop: int, step: int, k: int)
    requires
        step != 0,
        k >= 0,
        step > 0 ==> start + k * step >= stop && (k == 0 || start + (k - 1) * step < stop),
        step < 0 ==> start + k * step <= stop && (k == 0 || start + (k - 1) * step > stop),
    ensures
        range_count(start, stop, step) == k,
{
    if step > 0 {
        if stop > start {
            let d = stop - start + step - 1;
            assert(k * step <= d < (k + 1) * step) by (nonlinear_arith)
                requires
                    start + k * step >= stop, k == 0 || start + (k - 1) * step < stop,
                    d == stop - start + step - 1, step > 0, stop > start, k >= 0;
            vstd::arithmetic::div_mod::lemma_fundamental_div_mod_converse(d, step, k, d - k * step);
        } else {
            assert(k == 0) by (nonlinear_arith)
                requires k == 0 || start + (k - 1) * step < stop, stop <= start, step > 0, k >= 0;
        }
    } else {
        let s = -step;
        if start > stop {
            let d = start - stop + s - 1;
            assert(k * s <= d < (k + 1) * s) by (nonlinear_arith)
                requires
                    start + k * step <= stop, k == 0 || start + (k - 1) * step > stop,
                    d == start - stop + s - 1, s == -step, s > 0, start > stop, k >= 0;
            assert((k + 1) * s == k * s + s) by (nonlinear_arith);
            vstd::arithmetic::div_mod::lemma_fundamental_div_mod_converse(d, s, k, d - k * s);
        } else {
            assert(k == 0) by (nonlinear_arith)
                requires k == 0 || start + (k - 1) * step > stop, stop >= start, step < 0, k >= 0;
        }
    }
}

/// The elements of `range(start, stop, step)` as a vector; a zero step
/// gives none.
pub fn materialize_range(start: i64, stop: i64, step: i64) -> (values: Vec<i64>)
    ensures
        values@.len() == range_count(start as int, stop as int, step as int),
        forall|i: int| 0 <= i < values@.len() ==> values@[i] as int == start + i * step,
{
    let mut values: Vec<i64> = Vec::new();
    if step == 0 {
        return values;
    }
    let mut current: i64 = start;
    assert(values@.len() == 0);
    assert(start + values@.len() * step == start) by (nonlinear_arith)
        requires values@.len() == 0;
    loop
        invariant_except_break
            current as int == start + values@.len() * step,
        invariant
            step != 0,
            forall|i: int| 0 <= i < values@.len() ==> values@[i] as int == start + i * step,
            values@.len() > 0 ==> (if step > 0 {
                start + (values@.len() - 1) * step < stop
            } else {
                start + (values@.len() - 1) * step > stop
            }),
        ensures
            forall|i: int| 0 <= i < values@.len() ==> values@[i] as int == start + i * step,
            step > 0 ==> start + values@.len() * step >= stop && (values@.len() == 0 || start + (values@.len() - 1) * step < stop),
            step < 0 ==> start + values@.len() * step <= stop && (values@.len() == 0 || start + (values@.len() - 1) * step > stop),
        decreases (if step > 0 { stop - current + step } else { current - stop - step }),
    {
        let go_on = if step > 0 { current < stop } else { current > stop };
        if !go_on {
            break;
        }
        let ghost before = values@.len();
        values.push(current);
        proof {
            assert(start + (values@.len() - 1) * step == current);
            assert(start + values@.len() * step == current + step) by (nonlinear_arith)
                requires start + before * step == current, values@.len() == before + 1;
        }
        match current.checked_add(step) {
            Some(next) => {
                current = next;
            },
            None => {
                break;
            },
        }
    }
    proof {
        lemma_range_count_exact(start as int, stop as int, step as int, values@.len() as int);
    }
    values
}


/// Membership in `range(start, stop, step)`: `value` lies between the
/// bounds and a whole number of steps from `start`. When `value - start`
/// does not fit an `i64` the answer is `false`, as in the distance check
/// of the evaluator. A distance of `i64::MIN` with a step of -1 overflows
/// the remainder, so `requires` leaves it out.
pub fn range_contains(start: i64, stop: i64, step: i64, value: i64) -> (r: bool)
    requires
        !(value - start == i64::MIN && step == -1),
    ensures
        r == (i64::MIN <= value - start <= i64::MAX
            && range_elements(start as int, stop as int, step as int).contains(value as int)),
{
    if step == 0 {
        assert(range_elements(start as int, stop as int, step as int).len() == 0);
        return false;
    }
    if step > 0 {
        if value < start || value >= stop {
            proof {
                lemma_elements_within_bounds(start as int, stop as int, step as int, value as int);
            }
            return false;
        }
    } else if value > start || value <= stop {
        proof {
            lemma_elements_within_bounds(start as int, stop as int, step as int, value as int);
        }
        return false;
    }
    match value.checked_sub(start) {
        Some(distance) => {
            let rem = distance % step;
            let r = rem == 0;
            proof {
                if distance >= 0 {
                    assert(rem as int == (distance as int) % (step as int));
                } else {
                    assert(rem as int == -((-(distance as int)) % (step as int)));
                }
                lemma_member_by_distance(start as int, stop as int, step as int, value as int);
                if step < 0 && distance < 0 {
                    lemma_mod_negated_divisor(-(distance as int), -(step as int));
                }
                if step > 0 {
                    assert(r == range_elements(start as int, stop as int, step as int).contains(value as int));
                } else if distance == 0 {
                    lemma_mod_negated_divisor(0, -(step as int));
                    vstd::arithmetic::div_mod::lemma_fundamental_div_mod_converse(0, -(step as int), 0, 0);
                    assert(r == range_elements(start as int, stop as int, step as int).contains(value as int));
                } else {
                    assert(r == range_elements(start as int, stop as int, step as int).contains(value as int));
                }
            }
            r
        },
        None => false,
    }
}

/// Every element lies between `start` (inclusive) and `stop` (exclusive)
/// in the direction of the step.
proof fn lemma_elements_within_bounds(start: int, stop: int, step: int, value: int)
    requires
        step != 0,
        step > 0 ==> value < start || value >= stop,
        step < 0 ==> value > start || value <= stop,
    ensures
        !range_elements(start, stop, step).contains(value),
{
    if range_elements(start, stop, step).contains(value) {
        let k = choose|k: int| 0 <= k < range_count(start, stop, step) && range_elements(start, stop, step)[k] == value;
        assert(range_elements(start, stop, step)[k] == start + k * step);
        lemma_count_bound(start, stop, step, k);
        if step > 0 {
            assert(start <= start + k * step) by (nonlinear_arith) requires k >= 0, step > 0;
        } else {
            assert(start >= start + k * step) by (nonlinear_arith) requires k >= 0, step < 0;
        }
    }
}

/// An index below the count lands strictly before `stop`.
pub proof fn lemma_count_bound(start: int, stop: int, step: int, k: int)
    requires
        step != 0,
        0 <= k < range_count(start, stop, step),
    ensures
        step > 0 ==> start + k * step < stop,
        step < 0 ==> start + k * step > stop,
{
    if step > 0 {
        let d = stop - start + step - 1;
        vstd::arithmetic::div_mod::lemma_fundamental_div_mod(d, step);
        let q = d / step;
        assert(start + k * step < stop) by (nonlinear_arith)
            requires d == step * q + d % step, 0 <= d % step < step, 0 <= k < q, d == stop - start + step - 1, step > 0;
    } else {
        let s = -step;
        let d = start - stop + s - 1;
        vstd::arithmetic::div_mod::lemma_fundamental_div_mod(d, s);
        let q = d / s;
        assert(start + k * step > stop) by (nonlinear_arith)
            requires d == s * q + d % s, 0 <= d % s < s, 0 <= k < q, d == start - stop + s - 1, s == -step, s > 0;
    }
}

/// The count of steps reaches or passes `stop`.
proof fn lemma_count_reaches(start: int, stop: int, step: int)
    requires
        step != 0,
    ensures
        step > 0 ==> start + range_count(start, stop, step) * step >= stop,
        step < 0 ==> start + range_count(start, stop, step) * step <= stop,
{
    let c = range_count(start, stop, step);
    if step > 0 {
        if stop > start {
            let d = stop - start + step - 1;
            vstd::arithmetic::div_mod::lemma_fundamental_div_mod(d, step);
            assert(start + c * step >= stop) by (nonlinear_arith)
                requires d == step * (d / step) + d % step, 0 <= d % step < step, c == d / step,
                    d == stop - start + step - 1;
        } else {
            assert(start + c * step == start) by (nonlinear_arith) requires c == 0;
        }
    } else {
        let s = -step;
        if start > stop {
            let d = start - stop + s - 1;
            vstd::arithmetic::div_mod::lemma_fundamental_div_mod(d, s);
            assert(start + c * step <= stop) by (nonlinear_arith)
                requires d == s * (d / s) + d % s, 0 <= d % s < s, c == d / s,
                    d == start - stop + s - 1, s == -step;
        } else {
            assert(start + c * step == start) by (nonlinear_arith) requires c == 0;
        }
    }
}

/// Within the bounds, membership is exactly divisibility of the distance
/// from `start` by the size of the step.
proof fn lemma_member_by_distance(start: int, stop: int, step: int, value: int)
    requires
        step > 0 ==> start <= value < stop,
        step < 0 ==> stop < value <= start,
        step != 0,
    ensures
        step > 0 ==> range_elements(start, stop, step).contains(value) == ((value - start) % step == 0),
        step < 0 ==> range_elements(start, stop, step).contains(value) == ((start - value) % (-step) == 0),
{
    let els = range_elements(start, stop, step);
    let c = range_count(start, stop, step);
    lemma_count_reaches(start, stop, step);
    if step > 0 {
        let d = value - start;
        vstd::arithmetic::div_mod::lemma_fundamental_div_mod(d, step);
        let q = d / step;
        let r = d % step;
        assert(q >= 0) by (nonlinear_arith) requires d >= 0, step > 0, d == step * q + r, 0 <= r < step;
        if r == 0 {
            assert(value == start + q * step) by (nonlinear_arith)
                requires d == step * q + r, r == 0, d == value - start;
            if q >= c {
                assert(start + q * step >= start + c * step) by (nonlinear_arith) requires q >= c, step > 0;
            }
            assert(els[q] == value);
        }
        if els.contains(value) {
            let k = choose|k: int| 0 <= k < els.len() && els[k] == value;
            assert(els[k] == start + k * step);
            assert(d == k * step);
            vstd::arithmetic::div_mod::lemma_fundamental_div_mod_converse(d, step, k, 0);
        }
    } else {
        let t = -step;
        let d = start - value;
        vstd::arithmetic::div_mod::lemma_fundamental_div_mod(d, t);
        let q = d / t;
        let r = d % t;
        assert(q >= 0) by (nonlinear_arith) requires d >= 0, t > 0, d == t * q + r, 0 <= r < t;
        if r == 0 {
            assert(value == start + q * step) by (nonlinear_arith)
                requires d == t * q + r, r == 0, d == start - value, t == -step;
            if q >= c {
                assert(start + q * step <= start + c * step) by (nonlinear_arith) requires q >= c, step < 0;
            }
            assert(els[q] == value);
        }
        if els.contains(value) {
            let k = choose|k: int| 0 <= k < els.len() && els[k] == value;
            assert(els[k] == start + k * step);
            assert(d == k * t) by (nonlinear_arith)
                requires value == start + k * step, d == start - value, t == -step;
            vstd::arithmetic::div_mod::lemma_fundamental_div_mod_converse(d, t, k, 0);
        }
    }
}

/// For a non-negative dividend, the remainder by `-s` is the remainder by `s`.
proof fn lemma_mod_negated_divisor(x: int, s: int)
    requires
        x >= 0,
        s > 0,
    ensures
        x % (-s) == x % s,
{
    vstd::arithmetic::div_mod::lemma_fundamental_div_mod(x, -s);
    let q = x / (-s);
    let r = x % (-s);
    assert(0 <= r < s);
    assert(x == (-q) * s + r) by (nonlinear_arith) requires x == (-s) * q + r;
    vstd::arithmetic::div_mod::lemma_fundamental_div_mod_converse(x, s, -q, r);
}

/// `len(range(start, stop, step))`. The count is computed in machine
/// words, as the evaluator does: `requires` leaves out the bounds whose
/// intermediate sums overflow, and a zero step with `start > stop`, which
/// divides by zero.
pub fn range_len(start: i64, stop: i64, step: i64) -> (r: i64)
    requires
        step > 0 && stop > start ==> stop - start + step <= i64::MAX,
        step <= 0 && start > stop ==> step != 0 && step != i64::MIN && start - stop - step <= i64::MAX,
    ensures
        r as int == range_count(start as int, stop as int, step as int),
{
    if step > 0 {
        if stop > start {
            (stop - start + step - 1) / step
        } else {
            0
        }
    } else {
        if start > stop {
            (start - stop + (-step) - 1) / (-step)
        } else {
            0
        }
    }
}

/// Truthiness of a range: whether it holds any element.
pub fn range_is_truthy(start: i64, stop: i64, step: i64) -> (r: bool)
    ensures
        r == (range_count(start as int, stop as int, step as int) > 0),
{
    if step > 0 {
        proof {
            if start < stop {
                let d = stop - start + step - 1;
                vstd::arithmetic::div_mod::lemma_div_is_ordered(step as int, d, step as int);
                vstd::arithmetic::div_mod::lemma_div_basics(step as int);
            }
        }
        start < stop
    } else if step < 0 {
        proof {
            if start > stop {
                let t = -(step as int);
                let d = start - stop + t - 1;
                vstd::arithmetic::div_mod::lemma_div_is_ordered(t, d, t);
                vstd::arithmetic::div_mod::lemma_div_basics(t);
            }
        }
        start > stop
    } else {
        false
    }
}

} // verus!
