//! The list methods that rearrange a list by position: `pop`, `pop` of a
//! range, and `insert`.
use vstd::prelude::*;
use vstd::string::*;
use crate::error::{RuntimeError, runtime_error};
use crate::repr::{append_signed, signed_text};

verus! {

/// Where a bound lands in a list of `len` items: a negative bound counts
/// from the end (not below 0), a non-negative one is capped at `len`.
pub open spec fn list_bound(bound: int, len: int) -> int {
    if bound < 0 {
        if len + bound > 0 { len + bound } else { 0 }
    } else {
        if bound < len { bound } else { len }
    }
}

/// The position `pop(index)` removes, before checking it: a negative index
/// counts from the end.
pub open spec fn pop_position(index: int, len: int) -> int {
    if index < 0 { len + index } else { index }
}

/// The error for popping at an index the list does not have.
pub open spec fn pop_range_message(index: i64) -> Seq<char> {
    "pop index "@ + signed_text(index as int) + " out of range"@
}

/// Clamps a bound as `list_bound` does.
fn clamp_bound(bound: i64, len: i64) -> (r: i64)
    requires
        len >= 0,
    ensures
        r as int == list_bound(bound as int, len as int),
        0 <= r <= len,
{
    if bound < 0 {
        let shifted = len + bound;
        if shifted > 0 { shifted } else { 0 }
    } else {
        if bound < len { bound } else { len }
    }
}

/// `list.pop()` and `list.pop(index)`: removes and returns the last item,
/// or the item at `index` (negative counting from the end). A frozen list,
/// an empty list, and an index the list does not have are errors, in that
/// order.
pub fn pop_at<T>(items: &mut Vec<T>, frozen: bool, index: Option<i64>) -> (r: Result<T, RuntimeError>)
    requires
        old(items)@.len() <= i64::MAX,
    ensures
        frozen ==> r is Err && r->Err_0.message@ == "cannot mutate frozen list"@ && final(items)@ == old(items)@,
        !frozen && old(items)@.len() == 0 ==> r is Err && r->Err_0.message@ == "pop from empty list"@
            && final(items)@ == old(items)@,
        !frozen && old(items)@.len() > 0 ==> match index {
            None => r == Ok::<T, RuntimeError>(old(items)@.last()) && final(items)@ == old(items)@.drop_last(),
            Some(i) => {
                let p = pop_position(i as int, old(items)@.len() as int);
                if 0 <= p < old(items)@.len() {
                    r == Ok::<T, RuntimeError>(old(items)@[p]) && final(items)@ == old(items)@.remove(p)
                } else {
                    r is Err && r->Err_0.message@ == pop_range_message(i) && final(items)@ == old(items)@
                }
            },
        },
{
    if frozen {
        return Err(runtime_error("cannot mutate frozen list"));
    }
    if items.len() == 0 {
        return Err(runtime_error("pop from empty list"));
    }
    match index {
        None => {
            match items.pop() {
                Some(v) => Ok(v),
                None => Err(runtime_error("pop from empty list")),
            }
        },
        Some(idx) => {
            let n: usize = items.len();
            let len = n as i64;
            let p: i64 = if idx < 0 { len + idx } else { idx };
            if p < 0 || p >= len {
                let mut message = String::from_str("pop index ");
                append_signed(&mut message, idx);
                message.append(" out of range");
                return Err(RuntimeError { message });
            }
            Ok(items.remove(p as usize))
        },
    }
}

/// `list.pop(start, stop)`: removes the items from `start` up to `stop`
/// (each bound clamped as a slice bound is) and returns them in order;
/// nothing when `start` lands after `stop`. A frozen list is an error.
pub fn pop_range<T>(items: &mut Vec<T>, frozen: bool, start: i64, stop: i64) -> (r: Result<Vec<T>, RuntimeError>)
    requires
        old(items)@.len() <= i64::MAX,
    ensures
        frozen ==> r is Err && r->Err_0.message@ == "cannot mutate frozen list"@ && final(items)@ == old(items)@,
        !frozen ==> ({
            let len = old(items)@.len() as int;
            let s = list_bound(start as int, len);
            let e = list_bound(stop as int, len);
            if s > e {
                r matches Ok(v) && v@.len() == 0 && final(items)@ == old(items)@
            } else {
                r matches Ok(v) && v@ == old(items)@.subrange(s, e)
                    && final(items)@ == old(items)@.subrange(0, s) + old(items)@.subrange(e, len)
            }
        }),
{
    if frozen {
        return Err(runtime_error("cannot mutate frozen list"));
    }
    let n: usize = items.len();
    let len = n as i64;
    let s = clamp_bound(start, len);
    let e = clamp_bound(stop, len);
    if s > e {
        return Ok(Vec::new());
    }
    let su = s as usize;
    let eu = e as usize;
    let ghost original = items@;
    let mut removed: Vec<T> = Vec::new();
    let mut k: usize = su;
    while k < eu
        invariant
            0 <= su <= k <= eu <= n,
            su as int == s as int,
            eu as int == e as int,
            n as int == original.len(),
            removed@ == original.subrange(su as int, k as int),
            items@ == original.subrange(0, su as int) + original.subrange(k as int, n as int),
        decreases eu - k,
    {
        let ghost before = items@;
        proof {
            assert(before[su as int] == original[k as int]);
        }
        let item = items.remove(su);
        proof {
            assert(items@ =~= original.subrange(0, su as int) + original.subrange(k + 1, n as int));
        }
        removed.push(item);
        proof {
            assert(removed@ =~= original.subrange(su as int, k + 1));
        }
        k += 1;
    }
    Ok(removed)
}

/// `list.insert(index, item)`: inserts `item` before position `index`
/// (clamped as a slice bound is). A frozen list is an error.
pub fn insert_at<T>(items: &mut Vec<T>, frozen: bool, index: i64, item: T) -> (r: Result<(), RuntimeError>)
    requires
        old(items)@.len() <= i64::MAX,
    ensures
        frozen ==> r is Err && r->Err_0.message@ == "cannot mutate frozen list"@ && final(items)@ == old(items)@,
        !frozen ==> r is Ok && final(items)@ == old(items)@.insert(list_bound(index as int, old(items)@.len() as int), item),
{
    if frozen {
        return Err(runtime_error("cannot mutate frozen list"));
    }
    let n: usize = items.len();
    let p = clamp_bound(index, n as i64);
    items.insert(p as usize, item);
    Ok(())
}

} // verus!
