//! Slicing of sequences (`items[start:stop:step]`) as the evaluator does it
//! for lists, ranges, strings and bytes.
use vstd::prelude::*;
use crate::error::{RuntimeError, runtime_error};
use crate::range::{range_count, range_elements, materialize_range};

verus! {

/// Where an explicit slice bound lands in a sequence of length `len`: a
/// negative bound counts from the end (not below 0), a non-negative one is
/// capped at `len`.
pub open spec fn clamp_bound(bound: int, len: int) -> int {
    if bound < 0 {
        if len + bound > 0 { len + bound } else { 0 }
    } else {
        if bound < len { bound } else { len }
    }
}

/// The first position the slice visits.
pub open spec fn slice_first(len: int, start: Option<i64>, step: int) -> int {
    match start {
        Some(s) => clamp_bound(s as int, len),
        None => if step > 0 { 0 } else { len - 1 },
    }
}

/// The bound the slice stops at.
pub open spec fn slice_end(len: int, stop: Option<i64>, step: int) -> int {
    match stop {
        Some(s) => clamp_bound(s as int, len),
        None => if step > 0 { len } else { -1 },
    }
}

/// The bound, combined with the sequence's own edge, that the visited
/// positions stay strictly before (in the direction of the step).
pub open spec fn slice_limit(len: int, stop: Option<i64>, step: int) -> int {
    let end = slice_end(len, stop, step);
    if step > 0 {
        if end < len { end } else { len }
    } else {
        if end > -1 { end } else { -1 }
    }
}

/// The positions a slice visits, in order: an arithmetic progression from
/// the first position, by the step, up to the limit.
pub open spec fn slice_positions_spec(len: int, start: Option<i64>, stop: Option<i64>, step: int) -> Seq<int> {
    range_elements(slice_first(len, start, step), slice_limit(len, stop, step), step)
}

/// Whether advancing past the last visited position overflows an `i64`,
/// which the evaluator reports as an error.
pub open spec fn slice_overflows(len: int, start: Option<i64>, stop: Option<i64>, step: int) -> bool {
    let first = slice_first(len, start, step);
    let n = range_count(first, slice_limit(len, stop, step), step);
    n > 0 && first + n * step > i64::MAX
}

/// Whether the evaluator would index one past the end: a negative step
/// starting from an explicit bound at or beyond the length, with something
/// left to visit.
pub open spec fn slice_reads_past_end(len: int, start: Option<i64>, stop: Option<i64>, step: int) -> bool {
    step < 0 && slice_first(len, start, step) == len && slice_limit(len, stop, step) < len
}

/// Clamps an explicit bound as the evaluator does.
fn clamp(bound: i64, len: i64) -> (r: i64)
    requires
        len >= 0,
    ensures
        r as int == clamp_bound(bound as int, len as int),
{
    if bound < 0 {
        let shifted = len + bound;
        if shifted > 0 { shifted } else { 0 }
    } else {
        if bound < len { bound } else { len }
    }
}

/// The positions `items[start:stop:step]` visits in a sequence of `len`
/// items. A zero step is an error; so is a step that overflows past the
/// last position. A negative step from an explicit start at or beyond the
/// end would read past the end in the evaluator, which panics: `requires`
/// leaves that out.
pub fn slice_positions(len: usize, start: Option<i64>, stop: Option<i64>, step: i64) -> (r: Result<Vec<usize>, RuntimeError>)
    requires
        len <= i64::MAX,
        !slice_reads_past_end(len as int, start, stop, step as int),
    ensures
        step == 0 ==> r is Err && r->Err_0.message@ == "slice step cannot be zero"@,
        step != 0 && slice_overflows(len as int, start, stop, step as int) ==> r is Err
            && r->Err_0.message@ == "slice step overflow"@,
        step != 0 && !slice_overflows(len as int, start, stop, step as int) ==> (r matches Ok(v)
            && v@.len() == slice_positions_spec(len as int, start, stop, step as int).len()
            && forall|i: int| 0 <= i < v@.len() ==> v@[i] as int == slice_positions_spec(len as int, start, stop, step as int)[i]
                && v@[i] < len),
{
    if step == 0 {
        return Err(runtime_error("slice step cannot be zero"));
    }
    let n = len as i64;
    let first = match start {
        Some(s) => clamp(s, n),
        None => if step > 0 { 0 } else { n - 1 },
    };
    let end = match stop {
        Some(s) => clamp(s, n),
        None => if step > 0 { n } else { -1 },
    };
    let ghost limit = slice_limit(len as int, stop, step as int);
    let mut positions: Vec<usize> = Vec::new();
    let mut cur = first;
    assert(first + positions@.len() * step == first) by (nonlinear_arith)
        requires positions@.len() == 0;
    loop
        invariant_except_break
            cur as int == first + positions@.len() * step,
        invariant
            step != 0,
            n as int == len as int,
            first as int == slice_first(len as int, start, step as int),
            end as int == slice_end(len as int, stop, step as int),
            limit == slice_limit(len as int, stop, step as int),
            !slice_reads_past_end(len as int, start, stop, step as int),
            forall|i: int| 0 <= i < positions@.len() ==> positions@[i] as int == first + i * step,
            forall|i: int| 0 <= i < positions@.len() ==> positions@[i] < len,
            positions@.len() > 0 ==> (if step > 0 {
                first + (positions@.len() - 1) * step < limit
            } else {
                first + (positions@.len() - 1) * step > limit
            }),
        ensures
            forall|i: int| 0 <= i < positions@.len() ==> positions@[i] as int == first + i * step,
            step > 0 ==> first + positions@.len() * step >= limit
                && (positions@.len() == 0 || first + (positions@.len() - 1) * step < limit),
            step < 0 ==> first + positions@.len() * step <= limit
                && (positions@.len() == 0 || first + (positions@.len() - 1) * step > limit),
            first + positions@.len() * step <= i64::MAX,
            forall|i: int| 0 <= i < positions@.len() ==> positions@[i] < len,
        decreases (if step > 0 { limit - cur + step } else { cur - limit - step }),
    {
        let go_on = if step > 0 { cur < end && cur < n } else { cur > end && cur >= 0 };
        if !go_on {
            break;
        }
        assert(0 <= cur < n) by {
            assert(-1 <= first <= n);
            if step > 0 {
                assert(first >= 0);
                assert(cur >= first) by (nonlinear_arith)
                    requires cur == first + positions@.len() * step, step > 0;
            } else {
                assert(cur <= first) by (nonlinear_arith)
                    requires cur == first + positions@.len() * step, step < 0;
                if cur == n {
                    assert(positions@.len() == 0) by (nonlinear_arith)
                        requires cur == first + positions@.len() * step, step < 0, first <= n, cur == n;
                    assert(limit < n);
                }
            }
        };
        let ghost before = positions@.len();
        positions.push(cur as usize);
        proof {
            assert(first + before * step == cur);
            assert(first + positions@.len() * step == cur + step) by (nonlinear_arith)
                requires first + before * step == cur, positions@.len() == before + 1;
        }
        match cur.checked_add(step) {
            Some(next) => {
                cur = next;
            },
            None => {
                proof {
                    crate::range::lemma_range_count_exact(first as int, limit, step as int, positions@.len() as int);
                }
                return Err(runtime_error("slice step overflow"));
            },
        }
    }
    proof {
        crate::range::lemma_range_count_exact(first as int, limit, step as int, positions@.len() as int);
    }
    Ok(positions)
}

/// `items[start:stop:step]` for a sequence of plain items (the bytes of a
/// `Bytes` value, the characters of a `str`): the items at the positions
/// that `slice_positions` visits, with the same errors.
pub fn slice_copied<T: Copy>(items: &Vec<T>, start: Option<i64>, stop: Option<i64>, step: i64) -> (r: Result<Vec<T>, RuntimeError>)
    requires
        items@.len() <= i64::MAX,
        !slice_reads_past_end(items@.len() as int, start, stop, step as int),
    ensures
        step == 0 ==> r is Err && r->Err_0.message@ == "slice step cannot be zero"@,
        step != 0 && slice_overflows(items@.len() as int, start, stop, step as int) ==> r is Err
            && r->Err_0.message@ == "slice step overflow"@,
        step != 0 && !slice_overflows(items@.len() as int, start, stop, step as int) ==> (r matches Ok(v)
            && v@.len() == slice_positions_spec(items@.len() as int, start, stop, step as int).len()
            && forall|i: int| 0 <= i < v@.len() ==> v@[i] == items@[slice_positions_spec(items@.len() as int, start, stop, step as int)[i]]),
{
    let positions = slice_positions(items.len(), start, stop, step)?;
    let mut out: Vec<T> = Vec::new();
    let mut k: usize = 0;
    while k < positions.len()
        invariant
            k <= positions@.len(),
            out@.len() == k,
            forall|i: int| 0 <= i < positions@.len() ==> positions@[i] < items@.len(),
            forall|i: int| 0 <= i < k ==> out@[i] == items@[positions@[i] as int],
        decreases positions@.len() - k,
    {
        out.push(items[positions[k]]);
        k += 1;
    }
    Ok(out)
}

/// Slicing a range value: the selected elements of its materialization.
pub fn slice_range(
    range_start: i64,
    range_stop: i64,
    range_step: i64,
    start: Option<i64>,
    stop: Option<i64>,
    step: i64,
) -> (r: Result<Vec<i64>, RuntimeError>)
    requires
        range_count(range_start as int, range_stop as int, range_step as int) <= i64::MAX,
        !slice_reads_past_end(range_count(range_start as int, range_stop as int, range_step as int) as int, start, stop, step as int),
    ensures
        ({
            let len = range_count(range_start as int, range_stop as int, range_step as int) as int;
            let positions = slice_positions_spec(len, start, stop, step as int);
            &&& step == 0 ==> r is Err && r->Err_0.message@ == "slice step cannot be zero"@
            &&& step != 0 && slice_overflows(len, start, stop, step as int) ==> r is Err
                && r->Err_0.message@ == "slice step overflow"@
            &&& step != 0 && !slice_overflows(len, start, stop, step as int) ==> (r matches Ok(v)
                && v@.len() == positions.len()
                && forall|i: int| 0 <= i < v@.len() ==> v@[i] as int == range_start + positions[i] * range_step)
        }),
{
    let items = materialize_range(range_start, range_stop, range_step);
    let r = slice_copied(&items, start, stop, step);
    proof {
        let len = items@.len() as int;
        assert forall|i: int| 0 <= i < slice_positions_spec(len, start, stop, step as int).len()
            implies 0 <= #[trigger] slice_positions_spec(len, start, stop, step as int)[i] < len by {
            if step != 0 {
                law_slice_positions_in_bounds(len, start, stop, step as int, i);
            }
        }
    }
    r
}

/// Every position a slice visits is a valid index of the sequence, unless
/// it starts reading past the end (which the evaluator does not survive).
pub proof fn law_slice_positions_in_bounds(len: int, start: Option<i64>, stop: Option<i64>, step: int, i: int)
    requires
        len >= 0,
        step != 0,
        !slice_reads_past_end(len, start, stop, step),
        0 <= i < slice_positions_spec(len, start, stop, step).len(),
    ensures
        0 <= slice_positions_spec(len, start, stop, step)[i] < len,
{
    let first = slice_first(len, start, step);
    let limit = slice_limit(len, stop, step);
    crate::range::lemma_count_bound(first, limit, step, i);
    assert(slice_positions_spec(len, start, stop, step)[i] == first + i * step);
    if step > 0 {
        assert(first + i * step >= first) by (nonlinear_arith) requires i >= 0, step > 0;
    } else {
        assert(first + i * step <= first) by (nonlinear_arith) requires i >= 0, step < 0;
        if first + i * step == len {
            assert(i == 0) by (nonlinear_arith) requires first + i * step == len, first <= len, i >= 0, step < 0;
        }
    }
}


/// Slicing a range gives what slicing the list of its elements gives: the
/// `i`-th value `slice_range` computes, `range_start + positions[i] *
/// range_step`, is the element of the range at that position.
pub proof fn law_range_slice_is_list_slice(
    range_start: int,
    range_stop: int,
    range_step: int,
    start: Option<i64>,
    stop: Option<i64>,
    step: int,
    i: int,
)
    requires
        step != 0,
        !slice_reads_past_end(range_count(range_start, range_stop, range_step) as int, start, stop, step),
        0 <= i < slice_positions_spec(range_count(range_start, range_stop, range_step) as int, start, stop, step).len(),
    ensures
        ({
            let len = range_count(range_start, range_stop, range_step) as int;
            let p = slice_positions_spec(len, start, stop, step)[i];
            &&& 0 <= p < range_elements(range_start, range_stop, range_step).len()
            &&& range_start + p * range_step == range_elements(range_start, range_stop, range_step)[p]
        }),
{
    let len = range_count(range_start, range_stop, range_step) as int;
    law_slice_positions_in_bounds(len, start, stop, step, i);
}
/// An argument of the `slice()` builtin.
pub enum SliceArg {
    Int(i64),
    NoneValue,
    /// Any other value.
    Other,
}

/// The bounds of a `slice` object: start, stop and step, each an integer
/// or absent.
pub struct SliceBounds {
    pub start: Option<i64>,
    pub stop: Option<i64>,
    pub step: Option<i64>,
}

/// The bound an argument gives: an integer, or none.
pub open spec fn slice_bound(a: SliceArg) -> Option<i64> {
    match a {
        SliceArg::Int(v) => Some(v),
        _ => None,
    }
}

/// `slice(start[, stop[, step]])`: one to three arguments, each an integer
/// or `none`; those not given are `none`. The first argument of another
/// kind is an error naming its role.
pub fn slice_object(args: &[SliceArg]) -> (r: Result<SliceBounds, RuntimeError>)
    ensures
        !(1 <= args@.len() <= 3) ==> r is Err && r->Err_0.message@ == "slice() takes one to three arguments"@,
        1 <= args@.len() <= 3 ==> {
            let bad = |k: int| k < args@.len() && args@[k] is Other;
            if bad(0) {
                r is Err && r->Err_0.message@ == "slice start must be an integer or none"@
            } else if bad(1) {
                r is Err && r->Err_0.message@ == "slice stop must be an integer or none"@
            } else if bad(2) {
                r is Err && r->Err_0.message@ == "slice step must be an integer or none"@
            } else {
                r matches Ok(b) && b.start == slice_bound(args@[0])
                    && b.stop == (if args@.len() > 1 { slice_bound(args@[1]) } else { None })
                    && b.step == (if args@.len() > 2 { slice_bound(args@[2]) } else { None })
            }
        },
{
    if args.len() < 1 || args.len() > 3 {
        return Err(runtime_error("slice() takes one to three arguments"));
    }
    let mut bounds: Vec<Option<i64>> = Vec::new();
    let mut k: usize = 0;
    while k < 3
        invariant
            1 <= args@.len() <= 3,
            k <= 3,
            bounds@.len() == k,
            forall|j: int| 0 <= j < k ==> !(j < args@.len() && args@[j] is Other),
            forall|j: int| 0 <= j < k ==> #[trigger] bounds@[j] == (if j < args@.len() { slice_bound(args@[j]) } else { None }),
        decreases 3 - k,
    {
        let bound = if k < args.len() {
            match &args[k] {
                SliceArg::Int(v) => Some(*v),
                SliceArg::NoneValue => None,
                SliceArg::Other => {
                    let message = if k == 0 {
                        "slice start must be an integer or none"
                    } else if k == 1 {
                        "slice stop must be an integer or none"
                    } else {
                        "slice step must be an integer or none"
                    };
                    return Err(runtime_error(message));
                },
            }
        } else {
            None
        };
        bounds.push(bound);
        k += 1;
    }
    Ok(SliceBounds { start: bounds[0], stop: bounds[1], step: bounds[2] })
}

} // verus!
