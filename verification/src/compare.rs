//! Ordering of values that compare exactly: integers by value, strings by
//! their bytes; and `min` and `max` over them.
use vstd::prelude::*;
use vstd::string::*;
use std::cmp::Ordering;
use crate::error::{RuntimeError, runtime_error};
use crate::integer::{Integer, less_than, equals};
use crate::hash::{bytes_lt, lemma_bytes_lt_irreflexive, lemma_bytes_lt_total, lemma_bytes_lt_transitive};

verus! {

/// A value as ordering sees it: an integer, a string, or a value of any
/// other type, known by its type name.
pub enum Comparand {
    Integer(Integer),
    Text(String),
    Other(String),
}

/// The type name of a comparand, as errors write it.
pub open spec fn comparand_type(c: Comparand) -> Seq<char> {
    match c {
        Comparand::Integer(_) => "int"@,
        Comparand::Text(_) => "str"@,
        Comparand::Other(n) => n@,
    }
}

/// Two comparands of a kind that orders: both integers or both strings.
pub open spec fn comparable(a: Comparand, b: Comparand) -> bool {
    (a is Integer && b is Integer) || (a is Text && b is Text)
}

/// `a` comes before `b`: the smaller integer, or the string whose bytes
/// come first.
pub open spec fn precedes(a: Comparand, b: Comparand) -> bool {
    match (a, b) {
        (Comparand::Integer(x), Comparand::Integer(y)) => x.value() < y.value(),
        (Comparand::Text(x), Comparand::Text(y)) => bytes_lt(vstd::utf8::encode_utf8(x@), vstd::utf8::encode_utf8(y@)),
        _ => false,
    }
}

/// `a` and `b` are equal in the order.
pub open spec fn same_rank(a: Comparand, b: Comparand) -> bool {
    match (a, b) {
        (Comparand::Integer(x), Comparand::Integer(y)) => x.value() == y.value(),
        (Comparand::Text(x), Comparand::Text(y)) => x@ == y@,
        _ => false,
    }
}

/// The error for comparing values of kinds that do not order.
pub open spec fn unsupported_message(a: Comparand, b: Comparand) -> Seq<char> {
    "unsupported comparison between "@ + comparand_type(a) + " and "@ + comparand_type(b)
}

/// Byte strings in lexicographic order: -1 when `a` comes first, 0 when
/// they are equal, 1 when `b` comes first.
fn bytes_order(a: &[u8], b: &[u8]) -> (r: i8)
    ensures
        r == -1 <==> bytes_lt(a@, b@),
        r == 0 <==> a@ == b@,
        r == 1 <==> bytes_lt(b@, a@),
{
    let mut i: usize = 0;
    while i < a.len() && i < b.len()
        invariant
            i <= a@.len(),
            i <= b@.len(),
            a@.subrange(0, i as int) == b@.subrange(0, i as int),
        decreases a@.len() - i,
    {
        if a[i] != b[i] {
            proof {
                lemma_bytes_lt_after_common(a@, b@, i as int);
                lemma_bytes_lt_after_common(b@, a@, i as int);
                assert(a@[i as int] != b@[i as int]);
            }
            if a[i] < b[i] {
                return -1;
            } else {
                return 1;
            }
        }
        proof {
            assert(a@.subrange(0, i + 1) =~= a@.subrange(0, i as int).push(a@[i as int]));
            assert(b@.subrange(0, i + 1) =~= b@.subrange(0, i as int).push(b@[i as int]));
        }
        i += 1;
    }
    proof {
        lemma_bytes_lt_after_common(a@, b@, i as int);
        lemma_bytes_lt_after_common(b@, a@, i as int);
        if a@.len() == b@.len() {
            assert(a@ =~= a@.subrange(0, i as int));
            assert(b@ =~= b@.subrange(0, i as int));
        }
    }
    if a.len() < b.len() {
        -1
    } else if a.len() == b.len() {
        0
    } else {
        1
    }
}

/// After a common prefix of length `i`, the order is decided by what
/// follows: the first differing byte, or the shorter string first.
proof fn lemma_bytes_lt_after_common(a: Seq<u8>, b: Seq<u8>, i: int)
    requires
        0 <= i <= a.len(),
        i <= b.len(),
        a.subrange(0, i) == b.subrange(0, i),
    ensures
        i < a.len() && i < b.len() ==> (bytes_lt(a, b) <==> a[i] < b[i] || (a[i] == b[i] && bytes_lt(a.subrange(i + 1, a.len() as int), b.subrange(i + 1, b.len() as int)))),
        (i == a.len() || i == b.len()) ==> (bytes_lt(a, b) <==> a.len() < b.len()),
    decreases i,
{
    if i > 0 {
        assert(a[0] == a.subrange(0, i)[0]);
        assert(b[0] == b.subrange(0, i)[0]);
        assert(a.drop_first().subrange(0, i - 1) =~= a.subrange(0, i).drop_first());
        assert(b.drop_first().subrange(0, i - 1) =~= b.subrange(0, i).drop_first());
        lemma_bytes_lt_after_common(a.drop_first(), b.drop_first(), i - 1);
        if i < a.len() && i < b.len() {
            assert(a.drop_first().subrange(i, a.len() - 1) =~= a.subrange(i + 1, a.len() as int));
            assert(b.drop_first().subrange(i, b.len() - 1) =~= b.subrange(i + 1, b.len() as int));
        }
    } else {
        if a.len() > 0 && b.len() > 0 {
            assert(a.drop_first() =~= a.subrange(1, a.len() as int));
            assert(b.drop_first() =~= b.subrange(1, b.len() as int));
        }
    }
}

/// The order of two strings, by their UTF-8 bytes: -1 when `x` comes
/// first, 0 when they are equal, 1 when `y` comes first.
pub fn text_order(x: &String, y: &String) -> (r: i8)
    ensures
        r == -1 <==> precedes(Comparand::Text(*x), Comparand::Text(*y)),
        r == 0 <==> x@ == y@,
        r == 1 <==> precedes(Comparand::Text(*y), Comparand::Text(*x)),
{
    let order = bytes_order(x.as_str().as_bytes(), y.as_str().as_bytes());
    proof {
        vstd::utf8::encode_utf8_decode_utf8(x@);
        vstd::utf8::encode_utf8_decode_utf8(y@);
    }
    order
}

/// Compares two values that order exactly: integers by value and strings
/// byte by byte; values of any other kinds, or of two different kinds,
/// are an error naming both types.
pub fn compare_values(a: &Comparand, b: &Comparand) -> (r: Result<Ordering, RuntimeError>)
    ensures
        comparable(*a, *b) ==> r == Ok::<Ordering, RuntimeError>(
            if precedes(*a, *b) { Ordering::Less } else if same_rank(*a, *b) { Ordering::Equal } else { Ordering::Greater }),
        !comparable(*a, *b) ==> r is Err && r->Err_0.message@ == unsupported_message(*a, *b),
{
    match (a, b) {
        (Comparand::Integer(x), Comparand::Integer(y)) => {
            if less_than(x, y) {
                Ok(Ordering::Less)
            } else if equals(x, y) {
                Ok(Ordering::Equal)
            } else {
                Ok(Ordering::Greater)
            }
        },
        (Comparand::Text(x), Comparand::Text(y)) => {
            let order = bytes_order(x.as_str().as_bytes(), y.as_str().as_bytes());
            proof {
                vstd::utf8::encode_utf8_decode_utf8(x@);
                vstd::utf8::encode_utf8_decode_utf8(y@);
            }
            if order == -1 {
                Ok(Ordering::Less)
            } else if order == 0 {
                Ok(Ordering::Equal)
            } else {
                Ok(Ordering::Greater)
            }
        },
        _ => {
            let mut message = String::from_str("unsupported comparison between ");
            message.append(comparand_type_name(a).as_str());
            message.append(" and ");
            message.append(comparand_type_name(b).as_str());
            Err(RuntimeError { message })
        },
    }
}

/// `compare_values` as -1 (`a` first), 0 (equal) or 1 (`b` first).
pub(crate) fn order_checked(a: &Comparand, b: &Comparand) -> (r: Result<i8, RuntimeError>)
    ensures
        comparable(*a, *b) ==> r == Ok::<i8, RuntimeError>(
            if precedes(*a, *b) { -1i8 } else if same_rank(*a, *b) { 0i8 } else { 1i8 }),
        !comparable(*a, *b) ==> r is Err && r->Err_0.message@ == unsupported_message(*a, *b),
{
    match compare_values(a, b) {
        Ok(Ordering::Less) => Ok(-1),
        Ok(Ordering::Equal) => Ok(0),
        Ok(Ordering::Greater) => Ok(1),
        Err(e) => Err(e),
    }
}

/// The type name of a comparand.
fn comparand_type_name(c: &Comparand) -> (r: String)
    ensures
        r@ == comparand_type(*c),
{
    match c {
        Comparand::Integer(_) => String::from_str("int"),
        Comparand::Text(_) => String::from_str("str"),
        Comparand::Other(n) => n.clone(),
    }
}


/// Comparands of one kind are totally ordered by `precedes`, with
/// `same_rank` as its equality.
pub(crate) proof fn lemma_precedes_order(a: Comparand, b: Comparand, c: Comparand)
    requires
        comparable(a, b),
        comparable(b, c),
    ensures
        precedes(a, b) || same_rank(a, b) || precedes(b, a),
        !(precedes(a, b) && precedes(b, a)),
        same_rank(a, b) ==> !precedes(a, b) && !precedes(b, a),
        precedes(a, b) && precedes(b, c) ==> precedes(a, c),
        precedes(a, b) && same_rank(b, c) ==> precedes(a, c),
        same_rank(a, b) && precedes(b, c) ==> precedes(a, c),
        same_rank(a, b) && same_rank(b, c) ==> same_rank(a, c),
        comparable(a, c),
{
    if a is Text {
        let x = vstd::utf8::encode_utf8(a->Text_0@);
        let y = vstd::utf8::encode_utf8(b->Text_0@);
        let z = vstd::utf8::encode_utf8(c->Text_0@);
        vstd::utf8::encode_utf8_decode_utf8(a->Text_0@);
        vstd::utf8::encode_utf8_decode_utf8(b->Text_0@);
        lemma_bytes_lt_total(x, y);
        lemma_bytes_lt_irreflexive(x);
        if bytes_lt(x, y) && bytes_lt(y, z) {
            lemma_bytes_lt_transitive(x, y, z);
        }
    }
}

/// The first position, from the second on, whose item does not order with
/// the first item.
pub open spec fn first_incomparable(items: Seq<Comparand>, n: int) -> Option<int>
    decreases n,
{
    if n <= 1 {
        None
    } else {
        match first_incomparable(items, n - 1) {
            Some(k) => Some(k),
            None => if !comparable(items[n - 1], items[0]) { Some(n - 1) } else { None },
        }
    }
}

/// `i` is the position of the first least item.
pub open spec fn is_first_least(items: Seq<Comparand>, i: int) -> bool {
    &&& 0 <= i < items.len()
    &&& forall|j: int| 0 <= j < items.len() ==> !precedes(#[trigger] items[j], items[i])
    &&& forall|j: int| 0 <= j < i ==> precedes(items[i], #[trigger] items[j])
}

/// `i` is the position of the first greatest item.
pub open spec fn is_first_greatest(items: Seq<Comparand>, i: int) -> bool {
    &&& 0 <= i < items.len()
    &&& forall|j: int| 0 <= j < items.len() ==> !precedes(items[i], #[trigger] items[j])
    &&& forall|j: int| 0 <= j < i ==> precedes(#[trigger] items[j], items[i])
}

/// Once an incomparable item is found, it stays the first.
proof fn lemma_incomparable_stays(items: Seq<Comparand>, n: int, m: int)
    requires
        1 <= n <= m,
        first_incomparable(items, n) is Some,
    ensures
        first_incomparable(items, m) == first_incomparable(items, n),
    decreases m - n,
{
    if n < m {
        lemma_incomparable_stays(items, n, m - 1);
    }
}

/// With no incomparable item so far, every item orders with the first.
proof fn lemma_all_comparable(items: Seq<Comparand>, n: int, j: int)
    requires
        first_incomparable(items, n) is None,
        1 <= j < n,
    ensures
        comparable(items[j], items[0]),
    decreases n,
{
    if j < n - 1 {
        lemma_all_comparable(items, n - 1, j);
    }
}

/// Ordering kinds: comparability is symmetric and transitive, and a
/// comparand that orders with anything orders with itself.
proof fn lemma_comparable_kind(a: Comparand, b: Comparand, c: Comparand)
    ensures
        comparable(a, b) ==> comparable(b, a) && comparable(a, a) && comparable(b, b),
        comparable(a, b) && comparable(b, c) ==> comparable(a, c),
        comparable(a, b) ==> comparand_type(a) == comparand_type(b),
{
}

/// Nothing comes before itself.
pub(crate) proof fn lemma_precedes_irreflexive(a: Comparand)
    ensures
        !precedes(a, a),
{
    if a is Text {
        lemma_bytes_lt_irreflexive(vstd::utf8::encode_utf8(a->Text_0@));
    }
}

/// `min(items)` over values that order exactly, by position: the first
/// least item. An empty sequence is an error; so is an item that does not
/// order with the first (the first such, by position).
pub fn min_comparand(items: &[Comparand]) -> (r: Result<usize, RuntimeError>)
    ensures
        items@.len() == 0 ==> r is Err && r->Err_0.message@ == "min() arg is an empty sequence"@,
        items@.len() > 0 ==> match first_incomparable(items@, items@.len() as int) {
            Some(k) => r is Err && r->Err_0.message@ == unsupported_message(items@[k], items@[0]),
            None => r matches Ok(i) && is_first_least(items@, i as int),
        },
{
    if items.len() == 0 {
        return Err(runtime_error("min() arg is an empty sequence"));
    }
    let mut best: usize = 0;
    let mut k: usize = 1;
    proof {
        lemma_precedes_irreflexive(items@[0]);
    }
    while k < items.len()
        invariant
            1 <= k <= items@.len(),
            best < k,
            first_incomparable(items@, k as int) is None,
            best == 0 || comparable(items@[best as int], items@[0]),
            forall|j: int| 0 <= j < k ==> !precedes(#[trigger] items@[j], items@[best as int]),
            forall|j: int| 0 <= j < best ==> precedes(items@[best as int], #[trigger] items@[j]),
            forall|j: int| 1 <= j < k ==> comparable(#[trigger] items@[j], items@[0]),
        decreases items@.len() - k,
    {
        let ghost b = items@[best as int];
        let ghost item = items@[k as int];
        let ghost first = items@[0];
        match order_checked(&items[k], &items[best]) {
            Ok(order) => {
                proof {
                    lemma_comparable_kind(item, b, first);
                    lemma_comparable_kind(b, first, b);
                    lemma_comparable_kind(first, b, item);
                    assert(comparable(b, first));
                    assert(comparable(item, first));
                    assert forall|j: int| 0 <= j < k implies comparable(#[trigger] items@[j], b) by {
                        if j >= 1 {
                            lemma_comparable_kind(items@[j], first, b);
                        }
                    }
                }
                if order == -1 {
                    proof {
                        assert forall|j: int| 0 <= j < k + 1 implies !precedes(#[trigger] items@[j], item) by {
                            if j < k {
                                lemma_comparable_kind(items@[j], b, item);
                                lemma_comparable_kind(b, item, items@[j]);
                                lemma_precedes_order(items@[j], item, b);
                            } else {
                                lemma_precedes_irreflexive(item);
                            }
                        }
                        assert forall|j: int| 0 <= j < k implies precedes(item, #[trigger] items@[j]) by {
                            lemma_comparable_kind(items@[j], b, item);
                            lemma_precedes_order(item, b, items@[j]);
                            lemma_precedes_order(items@[j], b, item);
                        }
                    }
                    best = k;
                } else {
                    proof {
                        lemma_precedes_order(item, b, item);
                    }
                }
                proof {
                    assert(first_incomparable(items@, k + 1) is None);
                }
            },
            Err(e) => {
                proof {
                    lemma_comparable_kind(item, first, b);
                    lemma_comparable_kind(b, first, item);
                    assert(!comparable(item, first));
                    assert(first_incomparable(items@, k + 1) == Some(k as int));
                    lemma_incomparable_stays(items@, k + 1, items@.len() as int);
                    if best != 0 {
                        lemma_comparable_kind(b, first, first);
                    }
                }
                return Err(e);
            },
        }
        k += 1;
    }
    Ok(best)
}

/// `max(items)` over values that order exactly, by position: the first
/// greatest item. An empty sequence is an error; so is an item that does
/// not order with the first (the first such, by position).
pub fn max_comparand(items: &[Comparand]) -> (r: Result<usize, RuntimeError>)
    ensures
        items@.len() == 0 ==> r is Err && r->Err_0.message@ == "max() arg is an empty sequence"@,
        items@.len() > 0 ==> match first_incomparable(items@, items@.len() as int) {
            Some(k) => r is Err && r->Err_0.message@ == unsupported_message(items@[k], items@[0]),
            None => r matches Ok(i) && is_first_greatest(items@, i as int),
        },
{
    if items.len() == 0 {
        return Err(runtime_error("max() arg is an empty sequence"));
    }
    let mut best: usize = 0;
    let mut k: usize = 1;
    proof {
        lemma_precedes_irreflexive(items@[0]);
    }
    while k < items.len()
        invariant
            1 <= k <= items@.len(),
            best < k,
            first_incomparable(items@, k as int) is None,
            best == 0 || comparable(items@[best as int], items@[0]),
            forall|j: int| 0 <= j < k ==> !precedes(items@[best as int], #[trigger] items@[j]),
            forall|j: int| 0 <= j < best ==> precedes(#[trigger] items@[j], items@[best as int]),
            forall|j: int| 1 <= j < k ==> comparable(#[trigger] items@[j], items@[0]),
        decreases items@.len() - k,
    {
        let ghost b = items@[best as int];
        let ghost item = items@[k as int];
        let ghost first = items@[0];
        match order_checked(&items[k], &items[best]) {
            Ok(order) => {
                proof {
                    lemma_comparable_kind(item, b, first);
                    lemma_comparable_kind(b, first, b);
                    lemma_comparable_kind(first, b, item);
                    assert(comparable(b, first));
                    assert(comparable(item, first));
                    assert forall|j: int| 0 <= j < k implies comparable(#[trigger] items@[j], b) by {
                        if j >= 1 {
                            lemma_comparable_kind(items@[j], first, b);
                        }
                    }
                }
                if order == 1 {
                    proof {
                        lemma_precedes_order(item, b, item);
                        assert(precedes(b, item));
                        assert forall|j: int| 0 <= j < k + 1 implies !precedes(item, #[trigger] items@[j]) by {
                            if j < k {
                                lemma_comparable_kind(items@[j], b, item);
                                lemma_precedes_order(b, items@[j], item);
                                lemma_precedes_order(item, items@[j], b);
                                lemma_precedes_order(items@[j], b, item);
                            } else {
                                lemma_precedes_irreflexive(item);
                            }
                        }
                        assert forall|j: int| 0 <= j < k implies precedes(#[trigger] items@[j], item) by {
                            lemma_comparable_kind(items@[j], b, item);
                            lemma_precedes_order(items@[j], b, item);
                            lemma_precedes_order(b, items@[j], item);
                        }
                    }
                    best = k;
                } else {
                    proof {
                        lemma_precedes_order(item, b, item);
                    }
                }
                proof {
                    assert(first_incomparable(items@, k + 1) is None);
                }
            },
            Err(e) => {
                proof {
                    lemma_comparable_kind(item, first, b);
                    lemma_comparable_kind(b, first, item);
                    assert(!comparable(item, first));
                    assert(first_incomparable(items@, k + 1) == Some(k as int));
                    lemma_incomparable_stays(items@, k + 1, items@.len() as int);
                    if best != 0 {
                        lemma_comparable_kind(b, first, first);
                    }
                }
                return Err(e);
            },
        }
        k += 1;
    }
    Ok(best)
}

} // verus!
