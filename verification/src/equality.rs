//! Equality of runtime values (`==`), for the values whose equality does
//! not involve floating point: integers in either representation, booleans,
//! strings, bytes, `none`, the skip value, sentinels, ranges, lists, memory
//! views, sets, dicts, records, dotted paths, modules, trait references and
//! objects.
use vstd::prelude::*;
use vstd::set_lib::*;
use vstd::relations::injective_on;
use crate::integer::{Integer, equals};

verus! {

/// A runtime value as equality sees it. Dicts and objects hold their
/// entries as pairs of a key and a value.
pub enum EqValue {
    Int(Integer),
    Bool(bool),
    Str(String),
    Bytes(Vec<u8>),
    NoneValue,
    Range(i64, i64, i64),
    List(Vec<EqValue>),
    SetOf(Vec<EqValue>),
    Dict(Vec<(String, EqValue)>),
    Object(String, Vec<(String, EqValue)>),
    /// The skip value.
    Skip,
    /// A named sentinel, such as the end of an iteration.
    Sentinel(String),
    /// The items a memory view shows, in order.
    MemoryView(Vec<EqValue>),
    /// A record's fields, as pairs of a name and a value.
    Record(Vec<(String, EqValue)>),
    /// A dotted path, by its parts.
    DottedPath(Vec<String>),
    /// A module, by its path.
    Module(String),
    /// A reference to a trait, by its name.
    TraitRef(String),
    /// A value equal to nothing, itself included (a function, for one).
    Opaque,
}

/// How a value is compared with another.
pub enum EqMode {
    /// The two values are equal.
    Same,
    /// The first value equals some item of the second, a set.
    ItemOf,
    /// The second value, a dict or an object, has an entry under this key
    /// whose value equals the first.
    EntryOf(Seq<char>),
}

/// How deep a mode looks: an item or entry is one step below the set or
/// dict it lies in.
pub open spec fn mode_rank(m: EqMode) -> nat {
    match m {
        EqMode::Same => 0,
        _ => 1,
    }
}

/// Equality of runtime values, and the two lookups that sets and dicts
/// compare by.
pub open spec fn equal_under(a: EqValue, b: EqValue, mode: EqMode) -> bool
    decreases a, mode_rank(mode),
{
    match mode {
        EqMode::ItemOf => match b {
            EqValue::SetOf(ys) => exists|j: int| #![trigger ys@[j]] 0 <= j < ys@.len() && equal_under(a, ys@[j], EqMode::Same),
            _ => false,
        },
        EqMode::EntryOf(k) => match b {
            EqValue::Dict(ys) => exists|j: int| #![trigger ys@[j]] 0 <= j < ys@.len() && ys@[j].0@ == k
                && equal_under(a, ys@[j].1, EqMode::Same),
            EqValue::Object(_, ys) => exists|j: int| #![trigger ys@[j]] 0 <= j < ys@.len() && ys@[j].0@ == k
                && equal_under(a, ys@[j].1, EqMode::Same),
            EqValue::Record(ys) => exists|j: int| #![trigger ys@[j]] 0 <= j < ys@.len() && ys@[j].0@ == k
                && equal_under(a, ys@[j].1, EqMode::Same),
            _ => false,
        },
        EqMode::Same => match (a, b) {
            (EqValue::Int(x), EqValue::Int(y)) => x.value() == y.value(),
            (EqValue::Bool(x), EqValue::Bool(y)) => x == y,
            (EqValue::Str(x), EqValue::Str(y)) => x@ == y@,
            (EqValue::Bytes(x), EqValue::Bytes(y)) => x@ == y@,
            (EqValue::NoneValue, EqValue::NoneValue) => true,
            (EqValue::Range(s1, e1, t1), EqValue::Range(s2, e2, t2)) => s1 == s2 && e1 == e2 && t1 == t2,
            (EqValue::List(xs), EqValue::List(ys)) => xs@.len() == ys@.len()
                && forall|i: int| #![trigger xs@[i]] 0 <= i < xs@.len() ==> equal_under(xs@[i], ys@[i], EqMode::Same),
            (EqValue::SetOf(xs), EqValue::SetOf(ys)) => xs@.len() == ys@.len()
                && forall|i: int| #![trigger xs@[i]] 0 <= i < xs@.len() ==> equal_under(xs@[i], b, EqMode::ItemOf),
            (EqValue::Dict(xs), EqValue::Dict(ys)) => xs@.len() == ys@.len()
                && forall|i: int| #![trigger xs@[i]] 0 <= i < xs@.len()
                    ==> equal_under(xs@[i].1, b, EqMode::EntryOf(xs@[i].0@)),
            (EqValue::Object(n1, xs), EqValue::Object(n2, ys)) => n1@ == n2@ && xs@.len() == ys@.len()
                && forall|i: int| #![trigger xs@[i]] 0 <= i < xs@.len()
                    ==> equal_under(xs@[i].1, b, EqMode::EntryOf(xs@[i].0@)),
            (EqValue::Skip, EqValue::Skip) => true,
            (EqValue::Sentinel(x), EqValue::Sentinel(y)) => x@ == y@,
            (EqValue::MemoryView(xs), EqValue::MemoryView(ys)) => xs@.len() == ys@.len()
                && forall|i: int| #![trigger xs@[i]] 0 <= i < xs@.len() ==> equal_under(xs@[i], ys@[i], EqMode::Same),
            (EqValue::Record(xs), EqValue::Record(ys)) => xs@.len() == ys@.len()
                && forall|i: int| #![trigger xs@[i]] 0 <= i < xs@.len()
                    ==> equal_under(xs@[i].1, b, EqMode::EntryOf(xs@[i].0@)),
            (EqValue::DottedPath(x), EqValue::DottedPath(y)) => parts(x@) == parts(y@),
            (EqValue::Module(x), EqValue::Module(y)) => x@ == y@,
            (EqValue::TraitRef(x), EqValue::TraitRef(y)) => x@ == y@,
            _ => false,
        },
    }
}

/// `a == b`: integers by value whatever their representation; strings,
/// bytes, sentinels, ranges, dotted paths, modules and trait references by
/// content; the skip value equals itself; lists and memory views item by
/// item; sets of the same size whose items each equal some item of the
/// other; dicts and records of the same size whose entries each have an
/// entry under the same key in the other with an equal value; objects of
/// the same class whose fields compare as dicts do. Values of different
/// kinds are never equal, and an opaque value equals nothing.
pub open spec fn values_equal(a: EqValue, b: EqValue) -> bool {
    equal_under(a, b, EqMode::Same)
}

/// The text of each part of a dotted path.
pub open spec fn parts(v: Seq<String>) -> Seq<Seq<char>> {
    v.map_values(|s: String| s@)
}

/// An item of a set that equals `x` makes `x` an item of the set.
proof fn lemma_item_found(x: EqValue, b: EqValue, j: int)
    requires
        b is SetOf,
        0 <= j < b->SetOf_0@.len(),
        equal_under(x, b->SetOf_0@[j], EqMode::Same),
    ensures
        equal_under(x, b, EqMode::ItemOf),
{
}

/// An entry under `key` whose value equals `x` is what `EntryOf` looks for.
proof fn lemma_entry_found(x: EqValue, b: EqValue, key: Seq<char>, j: int)
    requires
        b is Dict || b is Object || b is Record,
        b is Dict ==> 0 <= j < b->Dict_0@.len() && b->Dict_0@[j].0@ == key && equal_under(x, b->Dict_0@[j].1, EqMode::Same),
        b is Object ==> 0 <= j < b->Object_1@.len() && b->Object_1@[j].0@ == key && equal_under(x, b->Object_1@[j].1, EqMode::Same),
        b is Record ==> 0 <= j < b->Record_0@.len() && b->Record_0@[j].0@ == key && equal_under(x, b->Record_0@[j].1, EqMode::Same),
    ensures
        equal_under(x, b, EqMode::EntryOf(key)),
{
}

/// Whether `x` equals some item of the set `b`.
fn item_of(x: &EqValue, b: &EqValue) -> (r: bool)
    requires
        b is SetOf,
    ensures
        r == equal_under(*x, *b, EqMode::ItemOf),
    decreases x, 2nat,
{
    match b {
        EqValue::SetOf(ys) => {
            let mut j: usize = 0;
            while j < ys.len()
                invariant
                    *b == EqValue::SetOf(*ys),
                    j <= ys@.len(),
                    forall|t: int| #![trigger ys@[t]] 0 <= t < j ==> !equal_under(*x, ys@[t], EqMode::Same),
                decreases ys@.len() - j,
            {
                if value_eq(x, &ys[j]) {
                    proof {
                        lemma_item_found(*x, *b, j as int);
                    }
                    return true;
                }
                j += 1;
            }
            false
        },
        _ => false,
    }
}

/// Whether the dict, record or object `b` has an entry under `key` whose
/// value equals `x`.
fn entry_of(key: &String, x: &EqValue, b: &EqValue) -> (r: bool)
    requires
        b is Dict || b is Object || b is Record,
    ensures
        r == equal_under(*x, *b, EqMode::EntryOf(key@)),
    decreases x, 2nat,
{
    let ys = match b {
        EqValue::Dict(ys) => ys,
        EqValue::Object(_, ys) => ys,
        EqValue::Record(ys) => ys,
        _ => { return false; },
    };
    let mut j: usize = 0;
    while j < ys.len()
        invariant
            (*b == EqValue::Dict(*ys)) || (b is Object && b->Object_1 == *ys) || (*b == EqValue::Record(*ys)),
            j <= ys@.len(),
            forall|t: int| #![trigger ys@[t]] 0 <= t < j ==> !(ys@[t].0@ == key@ && equal_under(*x, ys@[t].1, EqMode::Same)),
        decreases ys@.len() - j,
    {
        if ys[j].0 == *key && value_eq(x, &ys[j].1) {
            proof {
                lemma_entry_found(*x, *b, key@, j as int);
            }
            return true;
        }
        j += 1;
    }
    false
}

/// `a == b` on runtime values.
pub fn value_eq(a: &EqValue, b: &EqValue) -> (r: bool)
    ensures
        r == values_equal(*a, *b),
    decreases a, 1nat,
{
    match (a, b) {
        (EqValue::Int(x), EqValue::Int(y)) => equals(x, y),
        (EqValue::Bool(x), EqValue::Bool(y)) => *x == *y,
        (EqValue::Str(x), EqValue::Str(y)) => *x == *y,
        (EqValue::Bytes(x), EqValue::Bytes(y)) => bytes_equal(x, y),
        (EqValue::NoneValue, EqValue::NoneValue) => true,
        (EqValue::Range(s1, e1, t1), EqValue::Range(s2, e2, t2)) => *s1 == *s2 && *e1 == *e2 && *t1 == *t2,
        (EqValue::List(xs), EqValue::List(ys)) => {
            if xs.len() != ys.len() {
                return false;
            }
            let mut i: usize = 0;
            while i < xs.len()
                invariant
                    i <= xs@.len() == ys@.len(),
                    *a == EqValue::List(*xs),
                    *b == EqValue::List(*ys),
                    forall|t: int| #![trigger xs@[t]] 0 <= t < i ==> equal_under(xs@[t], ys@[t], EqMode::Same),
                decreases xs@.len() - i,
            {
                proof {
                    assert(decreases_to!(*a => (*a)->List_0));
                    assert(decreases_to!(*xs => xs@));
                    assert(decreases_to!(xs@ => xs@[i as int]));
                }
                if !value_eq(&xs[i], &ys[i]) {
                    return false;
                }
                i += 1;
            }
            true
        },
        (EqValue::SetOf(xs), EqValue::SetOf(ys)) => {
            if xs.len() != ys.len() {
                return false;
            }
            let mut i: usize = 0;
            while i < xs.len()
                invariant
                    i <= xs@.len() == ys@.len(),
                    *a == EqValue::SetOf(*xs),
                    *b == EqValue::SetOf(*ys),
                    forall|t: int| #![trigger xs@[t]] 0 <= t < i ==> equal_under(xs@[t], *b, EqMode::ItemOf),
                decreases xs@.len() - i,
            {
                proof {
                    assert(decreases_to!(*a => (*a)->SetOf_0));
                    assert(decreases_to!(*xs => xs@));
                    assert(decreases_to!(xs@ => xs@[i as int]));
                }
                if !item_of(&xs[i], b) {
                    return false;
                }
                i += 1;
            }
            true
        },
        (EqValue::Dict(xs), EqValue::Dict(ys)) => {
            if xs.len() != ys.len() {
                return false;
            }
            let mut i: usize = 0;
            while i < xs.len()
                invariant
                    i <= xs@.len() == ys@.len(),
                    *a == EqValue::Dict(*xs),
                    *b == EqValue::Dict(*ys),
                    forall|t: int| #![trigger xs@[t]] 0 <= t < i ==> equal_under(xs@[t].1, *b, EqMode::EntryOf(xs@[t].0@)),
                decreases xs@.len() - i,
            {
                proof {
                    assert(decreases_to!(*a => (*a)->Dict_0));
                    assert(decreases_to!(*xs => xs@));
                    assert(decreases_to!(xs@ => xs@[i as int]));
                    assert(decreases_to!(xs@[i as int] => xs@[i as int].1));
                }
                if !entry_of(&xs[i].0, &xs[i].1, b) {
                    return false;
                }
                i += 1;
            }
            true
        },
        (EqValue::Object(n1, xs), EqValue::Object(n2, ys)) => {
            if *n1 != *n2 || xs.len() != ys.len() {
                return false;
            }
            let mut i: usize = 0;
            while i < xs.len()
                invariant
                    i <= xs@.len() == ys@.len(),
                    *a == EqValue::Object(*n1, *xs),
                    *b == EqValue::Object(*n2, *ys),
                    n1@ == n2@,
                    forall|t: int| #![trigger xs@[t]] 0 <= t < i ==> equal_under(xs@[t].1, *b, EqMode::EntryOf(xs@[t].0@)),
                decreases xs@.len() - i,
            {
                proof {
                    assert(decreases_to!(*a => (*a)->Object_1));
                    assert(decreases_to!(*xs => xs@));
                    assert(decreases_to!(xs@ => xs@[i as int]));
                    assert(decreases_to!(xs@[i as int] => xs@[i as int].1));
                }
                if !entry_of(&xs[i].0, &xs[i].1, b) {
                    return false;
                }
                i += 1;
            }
            true
        },
        (EqValue::Skip, EqValue::Skip) => true,
        (EqValue::Sentinel(x), EqValue::Sentinel(y)) => *x == *y,
        (EqValue::MemoryView(xs), EqValue::MemoryView(ys)) => {
            if xs.len() != ys.len() {
                return false;
            }
            let mut i: usize = 0;
            while i < xs.len()
                invariant
                    i <= xs@.len() == ys@.len(),
                    *a == EqValue::MemoryView(*xs),
                    *b == EqValue::MemoryView(*ys),
                    forall|t: int| #![trigger xs@[t]] 0 <= t < i ==> equal_under(xs@[t], ys@[t], EqMode::Same),
                decreases xs@.len() - i,
            {
                proof {
                    assert(decreases_to!(*a => (*a)->MemoryView_0));
                    assert(decreases_to!(*xs => xs@));
                    assert(decreases_to!(xs@ => xs@[i as int]));
                }
                if !value_eq(&xs[i], &ys[i]) {
                    return false;
                }
                i += 1;
            }
            true
        },
        (EqValue::Record(xs), EqValue::Record(ys)) => {
            if xs.len() != ys.len() {
                return false;
            }
            let mut i: usize = 0;
            while i < xs.len()
                invariant
                    i <= xs@.len() == ys@.len(),
                    *a == EqValue::Record(*xs),
                    *b == EqValue::Record(*ys),
                    forall|t: int| #![trigger xs@[t]] 0 <= t < i ==> equal_under(xs@[t].1, *b, EqMode::EntryOf(xs@[t].0@)),
                decreases xs@.len() - i,
            {
                proof {
                    assert(decreases_to!(*a => (*a)->Record_0));
                    assert(decreases_to!(*xs => xs@));
                    assert(decreases_to!(xs@ => xs@[i as int]));
                    assert(decreases_to!(xs@[i as int] => xs@[i as int].1));
                }
                if !entry_of(&xs[i].0, &xs[i].1, b) {
                    return false;
                }
                i += 1;
            }
            true
        },
        (EqValue::DottedPath(x), EqValue::DottedPath(y)) => parts_equal(x, y),
        (EqValue::Module(x), EqValue::Module(y)) => *x == *y,
        (EqValue::TraitRef(x), EqValue::TraitRef(y)) => *x == *y,
        _ => false,
    }
}

/// Dotted paths with the same parts.
fn parts_equal(x: &Vec<String>, y: &Vec<String>) -> (r: bool)
    ensures
        r == (parts(x@) == parts(y@)),
{
    if x.len() != y.len() {
        proof {
            assert(parts(x@).len() != parts(y@).len());
        }
        return false;
    }
    let mut i: usize = 0;
    while i < x.len()
        invariant
            i <= x@.len() == y@.len(),
            forall|t: int| 0 <= t < i ==> parts(x@)[t] == parts(y@)[t],
        decreases x@.len() - i,
    {
        if x[i] != y[i] {
            proof {
                assert(parts(x@)[i as int] != parts(y@)[i as int]);
            }
            return false;
        }
        i += 1;
    }
    proof {
        assert(parts(x@) =~= parts(y@));
    }
    true
}

/// No opaque value occurs anywhere in `a`.
pub open spec fn transparent(a: EqValue) -> bool
    decreases a,
{
    match a {
        EqValue::Opaque => false,
        EqValue::List(xs) => forall|i: int| #![trigger xs@[i]] 0 <= i < xs@.len() ==> transparent(xs@[i]),
        EqValue::SetOf(xs) => forall|i: int| #![trigger xs@[i]] 0 <= i < xs@.len() ==> transparent(xs@[i]),
        EqValue::Dict(xs) => forall|i: int| #![trigger xs@[i]] 0 <= i < xs@.len() ==> transparent(xs@[i].1),
        EqValue::Object(_, xs) => forall|i: int| #![trigger xs@[i]] 0 <= i < xs@.len() ==> transparent(xs@[i].1),
        EqValue::MemoryView(xs) => forall|i: int| #![trigger xs@[i]] 0 <= i < xs@.len() ==> transparent(xs@[i]),
        EqValue::Record(xs) => forall|i: int| #![trigger xs@[i]] 0 <= i < xs@.len() ==> transparent(xs@[i].1),
        _ => true,
    }
}

/// Every value in which no opaque value occurs equals itself.
pub proof fn law_equality_reflexive(a: EqValue)
    requires
        transparent(a),
    ensures
        values_equal(a, a),
    decreases a,
{
    match a {
        EqValue::List(xs) => {
            assert forall|i: int| #![trigger xs@[i]] 0 <= i < xs@.len() implies equal_under(xs@[i], xs@[i], EqMode::Same) by {
                law_equality_reflexive(xs@[i]);
            }
        },
        EqValue::SetOf(xs) => {
            assert forall|i: int| #![trigger xs@[i]] 0 <= i < xs@.len() implies equal_under(xs@[i], a, EqMode::ItemOf) by {
                law_equality_reflexive(xs@[i]);
                lemma_item_found(xs@[i], a, i);
            }
        },
        EqValue::Dict(xs) => {
            assert forall|i: int| #![trigger xs@[i]] 0 <= i < xs@.len() implies equal_under(xs@[i].1, a, EqMode::EntryOf(xs@[i].0@)) by {
                law_equality_reflexive(xs@[i].1);
                lemma_entry_found(xs@[i].1, a, xs@[i].0@, i);
            }
        },
        EqValue::Object(_, xs) => {
            assert forall|i: int| #![trigger xs@[i]] 0 <= i < xs@.len() implies equal_under(xs@[i].1, a, EqMode::EntryOf(xs@[i].0@)) by {
                law_equality_reflexive(xs@[i].1);
                lemma_entry_found(xs@[i].1, a, xs@[i].0@, i);
            }
        },
        EqValue::MemoryView(xs) => {
            assert forall|i: int| #![trigger xs@[i]] 0 <= i < xs@.len() implies equal_under(xs@[i], xs@[i], EqMode::Same) by {
                law_equality_reflexive(xs@[i]);
            }
        },
        EqValue::Record(xs) => {
            assert forall|i: int| #![trigger xs@[i]] 0 <= i < xs@.len() implies equal_under(xs@[i].1, a, EqMode::EntryOf(xs@[i].0@)) by {
                law_equality_reflexive(xs@[i].1);
                lemma_entry_found(xs@[i].1, a, xs@[i].0@, i);
            }
        },
        _ => {},
    }
}

/// Values equal to a common value are equal: `==` is transitive.
pub proof fn law_equality_transitive(a: EqValue, b: EqValue, c: EqValue)
    requires
        values_equal(a, b),
        values_equal(b, c),
    ensures
        values_equal(a, c),
    decreases a,
{
    match (a, b, c) {
        (EqValue::List(xs), EqValue::List(ys), EqValue::List(zs)) => {
            assert forall|i: int| #![trigger xs@[i]] 0 <= i < xs@.len() implies equal_under(xs@[i], zs@[i], EqMode::Same) by {
                assert(equal_under(ys@[i], zs@[i], EqMode::Same));
                law_equality_transitive(xs@[i], ys@[i], zs@[i]);
            }
        },
        (EqValue::SetOf(xs), EqValue::SetOf(ys), EqValue::SetOf(zs)) => {
            assert forall|i: int| #![trigger xs@[i]] 0 <= i < xs@.len() implies equal_under(xs@[i], c, EqMode::ItemOf) by {
                assert(equal_under(xs@[i], b, EqMode::ItemOf));
                let j = choose|j: int| #![trigger ys@[j]] 0 <= j < ys@.len() && equal_under(xs@[i], ys@[j], EqMode::Same);
                assert(equal_under(ys@[j], c, EqMode::ItemOf));
                let k = choose|k: int| #![trigger zs@[k]] 0 <= k < zs@.len() && equal_under(ys@[j], zs@[k], EqMode::Same);
                law_equality_transitive(xs@[i], ys@[j], zs@[k]);
                lemma_item_found(xs@[i], c, k);
            }
        },
        (EqValue::Dict(xs), EqValue::Dict(ys), EqValue::Dict(zs)) => {
            assert forall|i: int| #![trigger xs@[i]] 0 <= i < xs@.len() implies equal_under(xs@[i].1, c, EqMode::EntryOf(xs@[i].0@)) by {
                assert(equal_under(xs@[i].1, b, EqMode::EntryOf(xs@[i].0@)));
                let j = choose|j: int| #![trigger ys@[j]] 0 <= j < ys@.len() && ys@[j].0@ == xs@[i].0@
                    && equal_under(xs@[i].1, ys@[j].1, EqMode::Same);
                assert(equal_under(ys@[j].1, c, EqMode::EntryOf(ys@[j].0@)));
                let k = choose|k: int| #![trigger zs@[k]] 0 <= k < zs@.len() && zs@[k].0@ == ys@[j].0@
                    && equal_under(ys@[j].1, zs@[k].1, EqMode::Same);
                law_equality_transitive(xs@[i].1, ys@[j].1, zs@[k].1);
                lemma_entry_found(xs@[i].1, c, xs@[i].0@, k);
            }
        },
        (EqValue::Object(_, xs), EqValue::Object(_, ys), EqValue::Object(_, zs)) => {
            assert forall|i: int| #![trigger xs@[i]] 0 <= i < xs@.len() implies equal_under(xs@[i].1, c, EqMode::EntryOf(xs@[i].0@)) by {
                assert(equal_under(xs@[i].1, b, EqMode::EntryOf(xs@[i].0@)));
                let j = choose|j: int| #![trigger ys@[j]] 0 <= j < ys@.len() && ys@[j].0@ == xs@[i].0@
                    && equal_under(xs@[i].1, ys@[j].1, EqMode::Same);
                assert(equal_under(ys@[j].1, c, EqMode::EntryOf(ys@[j].0@)));
                let k = choose|k: int| #![trigger zs@[k]] 0 <= k < zs@.len() && zs@[k].0@ == ys@[j].0@
                    && equal_under(ys@[j].1, zs@[k].1, EqMode::Same);
                law_equality_transitive(xs@[i].1, ys@[j].1, zs@[k].1);
                lemma_entry_found(xs@[i].1, c, xs@[i].0@, k);
            }
        },
        (EqValue::MemoryView(xs), EqValue::MemoryView(ys), EqValue::MemoryView(zs)) => {
            assert forall|i: int| #![trigger xs@[i]] 0 <= i < xs@.len() implies equal_under(xs@[i], zs@[i], EqMode::Same) by {
                assert(equal_under(ys@[i], zs@[i], EqMode::Same));
                law_equality_transitive(xs@[i], ys@[i], zs@[i]);
            }
        },
        (EqValue::Record(xs), EqValue::Record(ys), EqValue::Record(zs)) => {
            assert forall|i: int| #![trigger xs@[i]] 0 <= i < xs@.len() implies equal_under(xs@[i].1, c, EqMode::EntryOf(xs@[i].0@)) by {
                assert(equal_under(xs@[i].1, b, EqMode::EntryOf(xs@[i].0@)));
                let j = choose|j: int| #![trigger ys@[j]] 0 <= j < ys@.len() && ys@[j].0@ == xs@[i].0@
                    && equal_under(xs@[i].1, ys@[j].1, EqMode::Same);
                assert(equal_under(ys@[j].1, c, EqMode::EntryOf(ys@[j].0@)));
                let k = choose|k: int| #![trigger zs@[k]] 0 <= k < zs@.len() && zs@[k].0@ == ys@[j].0@
                    && equal_under(ys@[j].1, zs@[k].1, EqMode::Same);
                law_equality_transitive(xs@[i].1, ys@[j].1, zs@[k].1);
                lemma_entry_found(xs@[i].1, c, xs@[i].0@, k);
            }
        },
        _ => {},
    }
}

/// A value as the runtime builds it: no two items of a set are equal, and
/// no key occurs twice in a dict or among an object's fields, all the way
/// down.
pub open spec fn well_formed(a: EqValue) -> bool
    decreases a,
{
    match a {
        EqValue::List(xs) => forall|i: int| #![trigger xs@[i]] 0 <= i < xs@.len() ==> well_formed(xs@[i]),
        EqValue::SetOf(xs) => (forall|i: int| #![trigger xs@[i]] 0 <= i < xs@.len() ==> well_formed(xs@[i]))
            && forall|i: int, k: int| #![trigger xs@[i], xs@[k]] 0 <= i < xs@.len() && 0 <= k < xs@.len() && i != k
                ==> !values_equal(xs@[i], xs@[k]),
        EqValue::Dict(xs) => (forall|i: int| #![trigger xs@[i]] 0 <= i < xs@.len() ==> well_formed(xs@[i].1))
            && forall|i: int, k: int| #![trigger xs@[i], xs@[k]] 0 <= i < xs@.len() && 0 <= k < xs@.len() && i != k
                ==> xs@[i].0@ != xs@[k].0@,
        EqValue::Object(_, xs) => (forall|i: int| #![trigger xs@[i]] 0 <= i < xs@.len() ==> well_formed(xs@[i].1))
            && forall|i: int, k: int| #![trigger xs@[i], xs@[k]] 0 <= i < xs@.len() && 0 <= k < xs@.len() && i != k
                ==> xs@[i].0@ != xs@[k].0@,
        EqValue::MemoryView(xs) => forall|i: int| #![trigger xs@[i]] 0 <= i < xs@.len() ==> well_formed(xs@[i]),
        EqValue::Record(xs) => (forall|i: int| #![trigger xs@[i]] 0 <= i < xs@.len() ==> well_formed(xs@[i].1))
            && forall|i: int, k: int| #![trigger xs@[i], xs@[k]] 0 <= i < xs@.len() && 0 <= k < xs@.len() && i != k
                ==> xs@[i].0@ != xs@[k].0@,
        _ => true,
    }
}

/// Some position of `0..n` is sent to `j`.
pub open spec fn reached(n: int, f: spec_fn(int) -> int, j: int) -> bool {
    exists|i: int| 0 <= i < n && #[trigger] f(i) == j
}

/// A map from `0..n` into `0..n` that never sends two positions to the
/// same place reaches every place.
proof fn lemma_injection_onto(n: int, f: spec_fn(int) -> int)
    requires
        n >= 0,
        forall|i: int| 0 <= i < n ==> 0 <= #[trigger] f(i) < n,
        forall|i: int, k: int| 0 <= i < n && 0 <= k < n && #[trigger] f(i) == #[trigger] f(k) ==> i == k,
    ensures
        forall|j: int| 0 <= j < n ==> #[trigger] reached(n, f, j),
{
    let dom = set_int_range(0, n);
    let img = dom.map(f);
    lemma_int_range(0, n);
    assert(injective_on(f, dom));
    lemma_map_size(dom, img, f);
    assert(img.subset_of(dom)) by {
        assert forall|y: int| img.contains(y) implies dom.contains(y) by {
            let x = choose|x: int| dom.contains(x) && f(x) == y;
        }
    }
    lemma_subset_equality(img, dom);
    assert forall|j: int| 0 <= j < n implies #[trigger] reached(n, f, j) by {
        assert(dom.contains(j));
        assert(img.contains(j));
    }
}

/// Between values as the runtime builds them, `==` is symmetric.
pub proof fn law_equality_symmetric(a: EqValue, b: EqValue)
    requires
        well_formed(a),
        well_formed(b),
        values_equal(a, b),
    ensures
        values_equal(b, a),
    decreases a,
{
    match (a, b) {
        (EqValue::List(xs), EqValue::List(ys)) => {
            assert forall|i: int| #![trigger ys@[i]] 0 <= i < ys@.len() implies equal_under(ys@[i], xs@[i], EqMode::Same) by {
                assert(equal_under(xs@[i], ys@[i], EqMode::Same));
                law_equality_symmetric(xs@[i], ys@[i]);
            }
        },
        (EqValue::SetOf(xs), EqValue::SetOf(ys)) => {
            let n = xs@.len() as int;
            let f = |i: int| choose|j: int| #![trigger ys@[j]] 0 <= j < ys@.len() && equal_under(xs@[i], ys@[j], EqMode::Same);
            assert forall|i: int| 0 <= i < n implies 0 <= #[trigger] f(i) < n && equal_under(xs@[i], ys@[f(i)], EqMode::Same) by {
                assert(equal_under(xs@[i], b, EqMode::ItemOf));
            }
            assert forall|i: int, k: int| 0 <= i < n && 0 <= k < n && #[trigger] f(i) == #[trigger] f(k) implies i == k by {
                let j = f(i);
                assert(equal_under(xs@[i], ys@[j], EqMode::Same));
                assert(equal_under(xs@[k], ys@[j], EqMode::Same));
                law_equality_symmetric(xs@[k], ys@[j]);
                law_equality_transitive(xs@[i], ys@[j], xs@[k]);
                if i != k {
                    assert(!values_equal(xs@[i], xs@[k]));
                }
            }
            lemma_injection_onto(n, f);
            assert forall|j: int| #![trigger ys@[j]] 0 <= j < ys@.len() implies equal_under(ys@[j], a, EqMode::ItemOf) by {
                assert(reached(n, f, j));
                let i = choose|i: int| 0 <= i < n && #[trigger] f(i) == j;
                assert(equal_under(xs@[i], ys@[j], EqMode::Same));
                law_equality_symmetric(xs@[i], ys@[j]);
                lemma_item_found(ys@[j], a, i);
            }
        },
        (EqValue::Dict(xs), EqValue::Dict(ys)) => {
            let n = xs@.len() as int;
            let f = |i: int| choose|j: int| #![trigger ys@[j]] 0 <= j < ys@.len() && ys@[j].0@ == xs@[i].0@
                && equal_under(xs@[i].1, ys@[j].1, EqMode::Same);
            assert forall|i: int| 0 <= i < n implies 0 <= #[trigger] f(i) < n && ys@[f(i)].0@ == xs@[i].0@
                && equal_under(xs@[i].1, ys@[f(i)].1, EqMode::Same) by {
                assert(equal_under(xs@[i].1, b, EqMode::EntryOf(xs@[i].0@)));
            }
            assert forall|i: int, k: int| 0 <= i < n && 0 <= k < n && #[trigger] f(i) == #[trigger] f(k) implies i == k by {
                if i != k {
                    assert(xs@[i].0@ != xs@[k].0@);
                }
            }
            lemma_injection_onto(n, f);
            assert forall|j: int| #![trigger ys@[j]] 0 <= j < ys@.len() implies equal_under(ys@[j].1, a, EqMode::EntryOf(ys@[j].0@)) by {
                assert(reached(n, f, j));
                let i = choose|i: int| 0 <= i < n && #[trigger] f(i) == j;
                law_equality_symmetric(xs@[i].1, ys@[j].1);
                lemma_entry_found(ys@[j].1, a, ys@[j].0@, i);
            }
        },
        (EqValue::Object(_, xs), EqValue::Object(_, ys)) => {
            let n = xs@.len() as int;
            let f = |i: int| choose|j: int| #![trigger ys@[j]] 0 <= j < ys@.len() && ys@[j].0@ == xs@[i].0@
                && equal_under(xs@[i].1, ys@[j].1, EqMode::Same);
            assert forall|i: int| 0 <= i < n implies 0 <= #[trigger] f(i) < n && ys@[f(i)].0@ == xs@[i].0@
                && equal_under(xs@[i].1, ys@[f(i)].1, EqMode::Same) by {
                assert(equal_under(xs@[i].1, b, EqMode::EntryOf(xs@[i].0@)));
            }
            assert forall|i: int, k: int| 0 <= i < n && 0 <= k < n && #[trigger] f(i) == #[trigger] f(k) implies i == k by {
                if i != k {
                    assert(xs@[i].0@ != xs@[k].0@);
                }
            }
            lemma_injection_onto(n, f);
            assert forall|j: int| #![trigger ys@[j]] 0 <= j < ys@.len() implies equal_under(ys@[j].1, a, EqMode::EntryOf(ys@[j].0@)) by {
                assert(reached(n, f, j));
                let i = choose|i: int| 0 <= i < n && #[trigger] f(i) == j;
                law_equality_symmetric(xs@[i].1, ys@[j].1);
                lemma_entry_found(ys@[j].1, a, ys@[j].0@, i);
            }
        },
        (EqValue::MemoryView(xs), EqValue::MemoryView(ys)) => {
            assert forall|i: int| #![trigger ys@[i]] 0 <= i < ys@.len() implies equal_under(ys@[i], xs@[i], EqMode::Same) by {
                assert(equal_under(xs@[i], ys@[i], EqMode::Same));
                law_equality_symmetric(xs@[i], ys@[i]);
            }
        },
        (EqValue::Record(xs), EqValue::Record(ys)) => {
            let n = xs@.len() as int;
            let f = |i: int| choose|j: int| #![trigger ys@[j]] 0 <= j < ys@.len() && ys@[j].0@ == xs@[i].0@
                && equal_under(xs@[i].1, ys@[j].1, EqMode::Same);
            assert forall|i: int| 0 <= i < n implies 0 <= #[trigger] f(i) < n && ys@[f(i)].0@ == xs@[i].0@
                && equal_under(xs@[i].1, ys@[f(i)].1, EqMode::Same) by {
                assert(equal_under(xs@[i].1, b, EqMode::EntryOf(xs@[i].0@)));
            }
            assert forall|i: int, k: int| 0 <= i < n && 0 <= k < n && #[trigger] f(i) == #[trigger] f(k) implies i == k by {
                if i != k {
                    assert(xs@[i].0@ != xs@[k].0@);
                }
            }
            lemma_injection_onto(n, f);
            assert forall|j: int| #![trigger ys@[j]] 0 <= j < ys@.len() implies equal_under(ys@[j].1, a, EqMode::EntryOf(ys@[j].0@)) by {
                assert(reached(n, f, j));
                let i = choose|i: int| 0 <= i < n && #[trigger] f(i) == j;
                law_equality_symmetric(xs@[i].1, ys@[j].1);
                lemma_entry_found(ys@[j].1, a, ys@[j].0@, i);
            }
        },
        _ => {},
    }
}

/// Byte strings with the same bytes.
fn bytes_equal(x: &Vec<u8>, y: &Vec<u8>) -> (r: bool)
    ensures
        r == (x@ == y@),
{
    if x.len() != y.len() {
        return false;
    }
    let mut i: usize = 0;
    while i < x.len()
        invariant
            i <= x@.len() == y@.len(),
            forall|t: int| 0 <= t < i ==> x@[t] == y@[t],
        decreases x@.len() - i,
    {
        if x[i] != y[i] {
            return false;
        }
        i += 1;
    }
    proof {
        assert(x@ =~= y@);
    }
    true
}

/// `x` equals some item of `ys`.
pub open spec fn item_in(x: EqValue, ys: Seq<EqValue>) -> bool {
    exists|j: int| #![trigger ys[j]] 0 <= j < ys.len() && values_equal(x, ys[j])
}

/// `xs` and `ys` have the same size and every item of each equals some
/// item of the other.
pub open spec fn same_items(xs: Seq<EqValue>, ys: Seq<EqValue>) -> bool {
    &&& xs.len() == ys.len()
    &&& forall|i: int| 0 <= i < xs.len() ==> item_in(#[trigger] xs[i], ys)
    &&& forall|j: int| 0 <= j < ys.len() ==> item_in(#[trigger] ys[j], xs)
}

/// Being an item of a set is equalling one of its items.
proof fn lemma_item_of_set(x: EqValue, ys: Vec<EqValue>)
    ensures
        equal_under(x, EqValue::SetOf(ys), EqMode::ItemOf) == item_in(x, ys@),
{
    let b = EqValue::SetOf(ys);
    if equal_under(x, b, EqMode::ItemOf) {
        let j = choose|j: int| #![trigger ys@[j]] 0 <= j < ys@.len() && equal_under(x, ys@[j], EqMode::Same);
        assert(values_equal(x, ys@[j]));
    }
    if item_in(x, ys@) {
        let j = choose|j: int| #![trigger ys@[j]] 0 <= j < ys@.len() && values_equal(x, ys@[j]);
        lemma_item_found(x, b, j);
    }
}

/// Two sets as the runtime builds them are equal exactly when they have
/// the same size and every item of each equals some item of the other:
/// the order of their items does not matter.
pub proof fn law_sets_equal_iff_same_items(xs: Vec<EqValue>, ys: Vec<EqValue>)
    requires
        well_formed(EqValue::SetOf(xs)),
        well_formed(EqValue::SetOf(ys)),
    ensures
        values_equal(EqValue::SetOf(xs), EqValue::SetOf(ys)) <==> same_items(xs@, ys@),
{
    let a = EqValue::SetOf(xs);
    let b = EqValue::SetOf(ys);
    assert(values_equal(a, b) == (xs@.len() == ys@.len()
        && forall|i: int| #![trigger xs@[i]] 0 <= i < xs@.len() ==> equal_under(xs@[i], b, EqMode::ItemOf)));
    assert(values_equal(b, a) == (ys@.len() == xs@.len()
        && forall|j: int| #![trigger ys@[j]] 0 <= j < ys@.len() ==> equal_under(ys@[j], a, EqMode::ItemOf)));
    assert forall|i: int| 0 <= i < xs@.len() implies equal_under(xs@[i], b, EqMode::ItemOf) == item_in(#[trigger] xs@[i], ys@) by {
        lemma_item_of_set(xs@[i], ys);
    }
    assert forall|j: int| 0 <= j < ys@.len() implies equal_under(ys@[j], a, EqMode::ItemOf) == item_in(#[trigger] ys@[j], xs@) by {
        lemma_item_of_set(ys@[j], xs);
    }
    if values_equal(a, b) {
        law_equality_symmetric(a, b);
    }
    if same_items(xs@, ys@) {
        assert(values_equal(a, b));
    }
}

} // verus!
