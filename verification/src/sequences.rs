//! The builtins that regroup items of sequences: `zip`, which is strict
//! about lengths, `enumerate` with a start, and `dict` built from pairs.
use vstd::prelude::*;
use crate::error::{RuntimeError, runtime_error};

verus! {

/// Some input sequence has another length than the first.
pub open spec fn lengths_differ<T>(sequences: Seq<Vec<T>>) -> bool {
    exists|s: int| 0 <= s < sequences.len() && #[trigger] sequences[s]@.len() != sequences[0]@.len()
}

/// `zip(a, b, ...)`: the rows of the inputs taken side by side, row `i`
/// holding item `i` of each input in turn. Inputs of different lengths are
/// an error; no inputs give no rows.
pub fn zip_rows<T: Clone>(sequences: &[Vec<T>]) -> (r: Result<Vec<Vec<T>>, RuntimeError>)
    ensures
        lengths_differ(sequences@) ==> r is Err && r->Err_0.message@ == "zip() arguments have different lengths"@,
        !lengths_differ(sequences@) ==> (r matches Ok(rows) && {
            &&& rows@.len() == (if sequences@.len() == 0 { 0 } else { sequences@[0]@.len() })
            &&& forall|i: int| 0 <= i < rows@.len() ==> (#[trigger] rows@[i])@.len() == sequences@.len()
            &&& forall|i: int, s: int| 0 <= i < rows@.len() && 0 <= s < sequences@.len()
                ==> cloned::<T>(sequences@[s]@[i], #[trigger] rows@[i]@[s])
        }),
{
    let count = sequences.len();
    let length: usize = if count == 0 { 0 } else { sequences[0].len() };
    let mut s: usize = 0;
    while s < count
        invariant
            s <= count == sequences@.len(),
            count > 0 ==> length == sequences@[0]@.len(),
            forall|t: int| 0 <= t < s ==> (#[trigger] sequences@[t])@.len() == length,
        decreases count - s,
    {
        if sequences[s].len() != length {
            return Err(runtime_error("zip() arguments have different lengths"));
        }
        s += 1;
    }
    let mut rows: Vec<Vec<T>> = Vec::new();
    let mut i: usize = 0;
    while i < length
        invariant
            i <= length,
            count == sequences@.len(),
            forall|t: int| 0 <= t < count ==> (#[trigger] sequences@[t])@.len() == length,
            rows@.len() == i,
            forall|j: int| 0 <= j < i ==> (#[trigger] rows@[j])@.len() == count,
            forall|j: int, t: int| 0 <= j < i && 0 <= t < count
                ==> cloned::<T>(sequences@[t]@[j], #[trigger] rows@[j]@[t]),
        decreases length - i,
    {
        let mut row: Vec<T> = Vec::new();
        let mut t: usize = 0;
        while t < count
            invariant
                t <= count == sequences@.len(),
                i < length,
                forall|u: int| 0 <= u < count ==> (#[trigger] sequences@[u])@.len() == length,
                row@.len() == t,
                forall|u: int| 0 <= u < t ==> cloned::<T>(sequences@[u]@[i as int], #[trigger] row@[u]),
            decreases count - t,
        {
            let item = sequences[t][i].clone();
            row.push(item);
            t += 1;
        }
        rows.push(row);
        i += 1;
    }
    Ok(rows)
}

/// `enumerate(values, start)`: each item paired with its number, counting
/// up from `start`.
pub fn enumerate_pairs<T: Clone>(values: &[T], start: i64) -> (r: Vec<(i64, T)>)
    requires
        start + values@.len() <= i64::MAX,
    ensures
        r@.len() == values@.len(),
        forall|i: int| 0 <= i < r@.len() ==> (#[trigger] r@[i]).0 == start + i && cloned::<T>(values@[i], r@[i].1),
{
    let mut pairs: Vec<(i64, T)> = Vec::new();
    let mut index: i64 = start;
    let mut i: usize = 0;
    while i < values.len()
        invariant
            i <= values@.len(),
            start + values@.len() <= i64::MAX,
            index == start + i,
            pairs@.len() == i,
            forall|j: int| 0 <= j < i ==> (#[trigger] pairs@[j]).0 == start + j && cloned::<T>(values@[j], pairs@[j].1),
        decreases values@.len() - i,
    {
        pairs.push((index, values[i].clone()));
        index += 1;
        i += 1;
    }
    pairs
}

/// An item of the sequence `dict()` is built from: a pair, with its key
/// as text (a string key as it is, any other key as `repr()` writes it),
/// or anything that is not a two-item list.
pub enum DictItem {
    Pair(String),
    NotPair,
}

/// The pair at position `i` is not overridden by a later pair with the
/// same key.
pub open spec fn survives(items: Seq<DictItem>, i: int) -> bool {
    forall|j: int| #![trigger items[j]] i < j < items.len() ==> !(items[j] matches DictItem::Pair(k) && k@ == items[i]->Pair_0@)
}

/// `dict(pairs)`: every item must be a two-item list, else the call fails;
/// later pairs override earlier ones with the same key. The result is the
/// positions of the pairs that end up in the dict, in order.
pub fn dict_from_pairs(items: &[DictItem]) -> (r: Result<Vec<usize>, RuntimeError>)
    ensures
        (exists|i: int| 0 <= i < items@.len() && #[trigger] items@[i] is NotPair)
            ==> r is Err && r->Err_0.message@ == "dict() sequence elements must each have length 2"@,
        !(exists|i: int| 0 <= i < items@.len() && #[trigger] items@[i] is NotPair) ==> (r matches Ok(kept) && {
            &&& forall|a: int, b: int| 0 <= a < b < kept@.len() ==> #[trigger] kept@[a] < #[trigger] kept@[b]
            &&& forall|a: int| 0 <= a < kept@.len() ==> #[trigger] kept@[a] < items@.len()
            &&& forall|i: int| 0 <= i < items@.len() ==> (#[trigger] survives(items@, i) <==> kept@.contains(i as usize))
        }),
{
    let mut i: usize = 0;
    while i < items.len()
        invariant
            i <= items@.len(),
            forall|t: int| 0 <= t < i ==> !(#[trigger] items@[t] is NotPair),
        decreases items@.len() - i,
    {
        if let DictItem::NotPair = &items[i] {
            return Err(runtime_error("dict() sequence elements must each have length 2"));
        }
        i += 1;
    }
    let mut kept: Vec<usize> = Vec::new();
    let mut i: usize = 0;
    while i < items.len()
        invariant
            i <= items@.len(),
            forall|t: int| 0 <= t < items@.len() ==> !(#[trigger] items@[t] is NotPair),
            forall|a: int, b: int| 0 <= a < b < kept@.len() ==> #[trigger] kept@[a] < #[trigger] kept@[b],
            forall|a: int| 0 <= a < kept@.len() ==> #[trigger] kept@[a] < i,
            forall|t: int| 0 <= t < i ==> (#[trigger] survives(items@, t) <==> kept@.contains(t as usize)),
        decreases items@.len() - i,
    {
        let key = match &items[i] {
            DictItem::Pair(k) => k,
            DictItem::NotPair => { i += 1; continue; },
        };
        let mut overridden = false;
        let mut j: usize = i + 1;
        while j < items.len()
            invariant
                i < j <= items@.len(),
                items@[i as int] matches DictItem::Pair(k) && k@ == key@,
                overridden == exists|m: int| i < m < j && (#[trigger] items@[m] matches DictItem::Pair(k) && k@ == key@),
            decreases items@.len() - j,
        {
            if let DictItem::Pair(other) = &items[j] {
                if *other == *key {
                    overridden = true;
                }
            }
            j += 1;
        }
        let ghost before = kept@;
        if !overridden {
            kept.push(i);
        }
        proof {
            assert forall|t: int| 0 <= t < i + 1 implies (#[trigger] survives(items@, t) <==> kept@.contains(t as usize)) by {
                if t < i {
                    if kept@.contains(t as usize) {
                        let a = choose|a: int| 0 <= a < kept@.len() && kept@[a] == t as usize;
                        if !overridden {
                            assert(a < before.len());
                            assert(before[a] == t as usize);
                        }
                    }
                    if before.contains(t as usize) {
                        let a = choose|a: int| 0 <= a < before.len() && before[a] == t as usize;
                        assert(kept@[a] == t as usize);
                    }
                } else {
                    if overridden {
                        let m = choose|m: int| i < m < items@.len() && (#[trigger] items@[m] matches DictItem::Pair(k) && k@ == key@);
                        assert(!survives(items@, t));
                        if kept@.contains(t as usize) {
                            let a = choose|a: int| 0 <= a < kept@.len() && kept@[a] == t as usize;
                            assert(before[a] < i);
                        }
                    } else {
                        assert(kept@[before.len() as int] == i);
                    }
                }
            }
        }
        i += 1;
    }
    Ok(kept)
}

} // verus!
