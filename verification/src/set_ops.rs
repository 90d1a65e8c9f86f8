//! Membership (`in`) and the set operators `-`, `&`, `^` and `|` on
//! runtime values. Each operator says which items make up its result, by
//! their positions in the operands, in the order the result holds them;
//! the items themselves are moved by the caller.
use vstd::prelude::*;
use crate::equality::{EqValue, value_eq, values_equal, item_in};

verus! {

/// Whether `x` equals some item of `items`: `x in items`.
pub fn contains_value(items: &Vec<EqValue>, x: &EqValue) -> (r: bool)
    ensures
        r == item_in(*x, items@),
{
    let mut j: usize = 0;
    while j < items.len()
        invariant
            j <= items@.len(),
            forall|t: int| #![trigger items@[t]] 0 <= t < j ==> !values_equal(*x, items@[t]),
        decreases items.len() - j,
    {
        if value_eq(x, &items[j]) {
            return true;
        }
        j += 1;
    }
    false
}

/// The positions below `n`, in order, that `keep` holds of.
pub open spec fn kept_positions(n: int, keep: spec_fn(int) -> bool) -> Seq<usize>
    decreases n,
{
    if n <= 0 {
        Seq::empty()
    } else if keep(n - 1) {
        kept_positions(n - 1, keep).push((n - 1) as usize)
    } else {
        kept_positions(n - 1, keep)
    }
}

/// `a - b`: the items of `a` equal to no item of `b`, in order.
pub open spec fn difference_spec(a: Seq<EqValue>, b: Seq<EqValue>) -> Seq<usize> {
    kept_positions(a.len() as int, |i: int| !item_in(a[i], b))
}

/// `a & b`: the items of `a` equal to some item of `b`, in order.
pub open spec fn intersection_spec(a: Seq<EqValue>, b: Seq<EqValue>) -> Seq<usize> {
    kept_positions(a.len() as int, |i: int| item_in(a[i], b))
}

/// The positions of `a` whose item is found in `a` and in `b` differently:
/// the part of `a ^ b` taken from one side.
pub open spec fn one_side_spec(a: Seq<EqValue>, b: Seq<EqValue>) -> Seq<usize> {
    kept_positions(a.len() as int, |i: int| item_in(a[i], a) != item_in(a[i], b))
}

/// The positions of `a`, in order, whose item is found in `b` as `wanted`
/// says, or, with `against_self`, is found in `a` and in `b` differently.
fn positions_where(a: &Vec<EqValue>, b: &Vec<EqValue>, wanted: bool, against_self: bool) -> (r: Vec<usize>)
    ensures
        against_self ==> r@ == kept_positions(a@.len() as int, |i: int| item_in(a@[i], a@) != item_in(a@[i], b@)),
        !against_self ==> r@ == kept_positions(a@.len() as int, |i: int| item_in(a@[i], b@) == wanted),
{
    let ghost keep = if against_self {
        |i: int| item_in(a@[i], a@) != item_in(a@[i], b@)
    } else {
        |i: int| item_in(a@[i], b@) == wanted
    };
    let mut r: Vec<usize> = Vec::new();
    let mut i: usize = 0;
    while i < a.len()
        invariant
            i <= a@.len(),
            keep == (if against_self {
                |i: int| item_in(a@[i], a@) != item_in(a@[i], b@)
            } else {
                |i: int| item_in(a@[i], b@) == wanted
            }),
            r@ == kept_positions(i as int, keep),
        decreases a.len() - i,
    {
        let in_b = contains_value(b, &a[i]);
        let holds = if against_self {
            let in_a = contains_value(a, &a[i]);
            in_a != in_b
        } else {
            in_b == wanted
        };
        proof {
            assert(holds == keep(i as int));
        }
        if holds {
            r.push(i);
        }
        i += 1;
    }
    r
}

/// `a - b`.
pub fn set_difference(a: &Vec<EqValue>, b: &Vec<EqValue>) -> (r: Vec<usize>)
    ensures
        r@ == difference_spec(a@, b@),
{
    let r = positions_where(a, b, false, false);
    proof {
        assert((|i: int| item_in(a@[i], b@) == false) =~= (|i: int| !item_in(a@[i], b@)));
    }
    r
}

/// `a & b`.
pub fn set_intersection(a: &Vec<EqValue>, b: &Vec<EqValue>) -> (r: Vec<usize>)
    ensures
        r@ == intersection_spec(a@, b@),
{
    let r = positions_where(a, b, true, false);
    proof {
        assert((|i: int| item_in(a@[i], b@) == true) =~= (|i: int| item_in(a@[i], b@)));
    }
    r
}

/// `a ^ b`: the positions taken from `a`, then those taken from `b`.
pub fn set_symmetric_difference(a: &Vec<EqValue>, b: &Vec<EqValue>) -> (r: (Vec<usize>, Vec<usize>))
    ensures
        r.0@ == one_side_spec(a@, b@),
        r.1@ == one_side_spec(b@, a@),
{
    (positions_where(a, b, false, true), positions_where(b, a, false, true))
}

/// The items of `b` at `positions`.
pub open spec fn picked(b: Seq<EqValue>, positions: Seq<usize>) -> Seq<EqValue> {
    positions.map_values(|j: usize| b[j as int])
}

/// `a | b`: the positions of the items of `b`, among the first `n`, that
/// the union adds after the items of `a`: each item equal to nothing in
/// `a` and to no item added before it.
pub open spec fn union_added(a: Seq<EqValue>, b: Seq<EqValue>, n: int) -> Seq<usize>
    decreases n,
{
    if n <= 0 {
        Seq::empty()
    } else {
        let before = union_added(a, b, n - 1);
        if item_in(b[n - 1], a) || item_in(b[n - 1], picked(b, before)) {
            before
        } else {
            before.push((n - 1) as usize)
        }
    }
}

/// The positions added by `union_added` lie before `n`, in order.
proof fn lemma_union_added_below(a: Seq<EqValue>, b: Seq<EqValue>, n: int)
    requires
        0 <= n <= b.len(),
    ensures
        forall|k: int| 0 <= k < union_added(a, b, n).len() ==> #[trigger] union_added(a, b, n)[k] < n,
    decreases n,
{
    if n > 0 {
        lemma_union_added_below(a, b, n - 1);
        let before = union_added(a, b, n - 1);
        let now = union_added(a, b, n);
        assert forall|k: int| 0 <= k < now.len() implies #[trigger] now[k] < n by {
            if k < before.len() {
                assert(now[k] == before[k]);
            }
        }
    }
}

/// `a | b`: every item of `a`, then the positions of the items of `b`
/// that `union_added` says the union adds.
pub fn set_union(a: &Vec<EqValue>, b: &Vec<EqValue>) -> (r: Vec<usize>)
    ensures
        r@ == union_added(a@, b@, b@.len() as int),
{
    let mut added: Vec<usize> = Vec::new();
    let mut j: usize = 0;
    while j < b.len()
        invariant
            j <= b@.len(),
            added@ == union_added(a@, b@, j as int),
        decreases b.len() - j,
    {
        proof {
            lemma_union_added_below(a@, b@, j as int);
        }
        let mut seen = contains_value(a, &b[j]);
        let mut k: usize = 0;
        while !seen && k < added.len()
            invariant
                j < b@.len(),
                k <= added@.len(),
                added@ == union_added(a@, b@, j as int),
                forall|t: int| 0 <= t < added@.len() ==> #[trigger] added@[t] < j,
                seen == (item_in(b@[j as int], a@) || exists|t: int| #![trigger added@[t]] 0 <= t < k
                    && values_equal(b@[j as int], b@[added@[t] as int])),
            decreases added.len() - k,
        {
            if value_eq(&b[j], &b[added[k]]) {
                seen = true;
            }
            k += 1;
        }
        proof {
            let pk = picked(b@, added@);
            if seen && !item_in(b@[j as int], a@) {
                let t = choose|t: int| #![trigger added@[t]] 0 <= t < k && values_equal(b@[j as int], b@[added@[t] as int]);
                assert(pk[t] == b@[added@[t] as int]);
            }
            if item_in(b@[j as int], pk) {
                let t = choose|t: int| #![trigger pk[t]] 0 <= t < pk.len() && values_equal(b@[j as int], pk[t]);
                assert(pk[t] == b@[added@[t] as int]);
                if !seen {
                    assert(k == added@.len());
                }
            }
            assert(seen == (item_in(b@[j as int], a@) || item_in(b@[j as int], pk)));
        }
        if !seen {
            added.push(j);
        }
        j += 1;
    }
    added
}

} // verus!
