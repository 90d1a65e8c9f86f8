//! Matching values against patterns: which values a type name in a pattern
//! accepts, and how the items of a sequence line up with the elements of a
//! tuple pattern that may hold one starred element.
use vstd::prelude::*;
use vstd::string::*;
use crate::error::{RuntimeError, runtime_error};
use crate::classes::{ClassDef, ClassMember, MemberKind, reaches, is_subclass, class_of, own_fields, find_class};
use crate::matching::{PatternShape, binds_name, pattern_identifier_binds};
use crate::repr::{decimal_text, append_decimal};

verus! {

/// The kind of a runtime value, as type patterns see it; an object by its
/// class name.
pub enum ValueKind {
    Int,
    BigInt,
    Float,
    Complex,
    Bool,
    Str,
    Bytes,
    MemoryView,
    List,
    SetValue,
    Dict,
    Range,
    DottedPath,
    NoneValue,
    Object(String),
    /// Any other value (records, functions, classes, sentinels, ...).
    Other,
}

/// `name` names the built-in type of a value of kind `kind`.
pub open spec fn builtin_type_name(kind: ValueKind, name: Seq<char>) -> bool {
    match kind {
        ValueKind::Int | ValueKind::BigInt => name == "int"@,
        ValueKind::Float => name == "float"@,
        ValueKind::Complex => name == "complex"@,
        ValueKind::Bool => name == "bool"@,
        ValueKind::Str => name == "str"@,
        ValueKind::Bytes => name == "bytes"@ || name == "Bytes"@,
        ValueKind::MemoryView => name == "MemoryView"@,
        ValueKind::List => name == "list"@,
        ValueKind::SetValue => name == "set"@,
        ValueKind::Dict => name == "dict"@,
        ValueKind::Range => name == "range"@,
        ValueKind::DottedPath => name == "DottedPath"@,
        ValueKind::NoneValue => name == "none"@ || name == "None"@,
        _ => false,
    }
}

/// A pattern for class `expected` accepts an object of class `actual`: the
/// same class or a subclass.
pub open spec fn class_accepts(classes: Seq<ClassDef>, actual: Seq<char>, expected: Seq<char>) -> bool {
    actual == expected || exists|n: nat| n >= 1 && #[trigger] reaches(classes, actual, expected, n)
}

/// A type pattern naming `name` accepts a value of kind `kind`: a built-in
/// value of that type, or an object of that class or of a subclass.
pub open spec fn type_pattern_accepts(classes: Seq<ClassDef>, kind: ValueKind, name: Seq<char>) -> bool {
    match kind {
        ValueKind::Object(c) => class_accepts(classes, c@, name),
        _ => builtin_type_name(kind, name),
    }
}

/// Whether `a` and `b` hold the same text.
fn same_text(a: &str, b: &str) -> (r: bool)
    ensures
        r == (a@ == b@),
{
    String::from_str(a) == String::from_str(b)
}

/// Whether a type pattern naming `name` accepts a value of kind `kind`.
pub fn type_pattern_matches(classes: &[ClassDef], kind: &ValueKind, name: &str) -> (r: bool)
    ensures
        r == type_pattern_accepts(classes@, *kind, name@),
{
    proof {
        reveal_strlit("int");
        reveal_strlit("float");
        reveal_strlit("complex");
        reveal_strlit("bool");
        reveal_strlit("str");
        reveal_strlit("bytes");
        reveal_strlit("Bytes");
        reveal_strlit("MemoryView");
        reveal_strlit("list");
        reveal_strlit("set");
        reveal_strlit("dict");
        reveal_strlit("range");
        reveal_strlit("DottedPath");
        reveal_strlit("none");
        reveal_strlit("None");
    }
    match kind {
        ValueKind::Int | ValueKind::BigInt => same_text(name, "int"),
        ValueKind::Float => same_text(name, "float"),
        ValueKind::Complex => same_text(name, "complex"),
        ValueKind::Bool => same_text(name, "bool"),
        ValueKind::Str => same_text(name, "str"),
        ValueKind::Bytes => same_text(name, "bytes") || same_text(name, "Bytes"),
        ValueKind::MemoryView => same_text(name, "MemoryView"),
        ValueKind::List => same_text(name, "list"),
        ValueKind::SetValue => same_text(name, "set"),
        ValueKind::Dict => same_text(name, "dict"),
        ValueKind::Range => same_text(name, "range"),
        ValueKind::DottedPath => same_text(name, "DottedPath"),
        ValueKind::NoneValue => same_text(name, "none") || same_text(name, "None"),
        ValueKind::Object(c) => same_text(c.as_str(), name) || is_subclass(classes, c.as_str(), name),
        ValueKind::Other => false,
    }
}

/// Whether an identifier pattern `name` matches a value of kind `kind`: it
/// names the value's type or class, or it is a name that binds.
pub fn ident_pattern_matches(classes: &[ClassDef], kind: &ValueKind, name: &str) -> (r: bool)
    ensures
        r == (type_pattern_accepts(classes@, *kind, name@) || binds_name(name@)),
{
    type_pattern_matches(classes, kind, name) || pattern_identifier_binds(name)
}

/// Where the value for one element of a tuple pattern comes from.
#[derive(PartialEq, Eq, Structural, Clone, Copy, Debug)]
pub enum UnpackSlot {
    /// The item at this position.
    Item(usize),
    /// The items from the first position up to, not including, the second,
    /// as a list: the starred element's share.
    Rest(usize, usize),
}

/// The position of the first starred element.
pub open spec fn star_position(elements: Seq<PatternShape>) -> Option<int>
    decreases elements.len(),
{
    if elements.len() == 0 {
        None
    } else {
        match star_position(elements.drop_last()) {
            Some(s) => Some(s),
            None => if elements.last() is Star { Some(elements.len() - 1) } else { None },
        }
    }
}

/// How many items the elements other than the starred one take.
pub open spec fn fixed_items(elements: Seq<PatternShape>) -> int {
    if star_position(elements) is Some { elements.len() - 1 } else { elements.len() as int }
}

/// `items` items can be spread over `elements`: exactly one each without
/// a starred element, at least one for each other element with one.
pub open spec fn unpack_fits(elements: Seq<PatternShape>, items: int) -> bool {
    match star_position(elements) {
        None => items == elements.len(),
        Some(_) => items >= elements.len() - 1,
    }
}

/// The slot of element `k`: the elements before the star take the first
/// items, those after it the last items, and the star what lies between.
pub open spec fn slot_of(elements: Seq<PatternShape>, items: int, k: int) -> UnpackSlot {
    match star_position(elements) {
        None => UnpackSlot::Item(k as usize),
        Some(s) => {
            let rest_end = items - (elements.len() - s - 1);
            if k < s {
                UnpackSlot::Item(k as usize)
            } else if k == s {
                UnpackSlot::Rest(s as usize, rest_end as usize)
            } else {
                UnpackSlot::Item((rest_end + (k - s - 1)) as usize)
            }
        },
    }
}

/// The first starred element, found by a scan.
fn find_star(elements: &[PatternShape]) -> (r: Option<usize>)
    ensures
        match r {
            Some(s) => star_position(elements@) == Some(s as int) && s < elements@.len(),
            None => star_position(elements@) is None,
        },
{
    let mut k: usize = 0;
    proof {
        assert(elements@.take(0) =~= Seq::<PatternShape>::empty());
    }
    while k < elements.len()
        invariant
            k <= elements@.len(),
            star_position(elements@.take(k as int)) is None,
        decreases elements@.len() - k,
    {
        proof {
            assert(elements@.take(k + 1).drop_last() =~= elements@.take(k as int));
        }
        if let PatternShape::Star(_) = &elements[k] {
            proof {
                assert(elements@.take(k + 1).last() == elements@[k as int]);
                assert(star_position(elements@.take(k + 1)) == Some(k as int));
                lemma_star_stays(elements@, k + 1, elements@.len() as int);
                assert(elements@.take(elements@.len() as int) =~= elements@);
            }
            return Some(k);
        }
        k += 1;
    }
    proof {
        assert(elements@.take(elements@.len() as int) =~= elements@);
    }
    None
}

/// A star found among the first `n` elements is the first among more.
proof fn lemma_star_stays(elements: Seq<PatternShape>, n: int, m: int)
    requires
        0 <= n <= m <= elements.len(),
        star_position(elements.take(n)) is Some,
    ensures
        star_position(elements.take(m)) == star_position(elements.take(n)),
    decreases m - n,
{
    if n < m {
        lemma_star_stays(elements, n, m - 1);
        assert(elements.take(m).drop_last() =~= elements.take(m - 1));
    }
}

/// How the `items` items of a sequence line up with the elements of a
/// tuple pattern: one slot per element, or `None` when the counts do not
/// fit (exactly one item per element without a starred element; at least
/// one per other element with one).
pub fn unpack_slots(elements: &[PatternShape], items: usize) -> (r: Option<Vec<UnpackSlot>>)
    ensures
        !unpack_fits(elements@, items as int) ==> r is None,
        unpack_fits(elements@, items as int) ==> (r matches Some(slots) && slots@.len() == elements@.len()
            && forall|k: int| 0 <= k < elements@.len() ==> #[trigger] slots@[k] == slot_of(elements@, items as int, k)),
{
    let star = find_star(elements);
    let n = elements.len();
    match star {
        None => {
            if items != n {
                return None;
            }
        },
        Some(_) => {
            if items < n - 1 {
                return None;
            }
        },
    }
    let mut slots: Vec<UnpackSlot> = Vec::new();
    let mut k: usize = 0;
    while k < n
        invariant
            n == elements@.len(),
            k <= n,
            unpack_fits(elements@, items as int),
            match star {
                Some(s) => star_position(elements@) == Some(s as int) && s < n,
                None => star_position(elements@) is None,
            },
            slots@.len() == k,
            forall|j: int| 0 <= j < k ==> #[trigger] slots@[j] == slot_of(elements@, items as int, j),
        decreases n - k,
    {
        let slot = match star {
            None => UnpackSlot::Item(k),
            Some(s) => {
                let rest_end = items - (n - s - 1);
                if k < s {
                    UnpackSlot::Item(k)
                } else if k == s {
                    UnpackSlot::Rest(s, rest_end)
                } else {
                    UnpackSlot::Item(rest_end + (k - s - 1))
                }
            },
        };
        slots.push(slot);
        k += 1;
    }
    Some(slots)
}

/// Slot `slot` takes item `i`.
pub open spec fn slot_takes(slot: UnpackSlot, i: int) -> bool {
    match slot {
        UnpackSlot::Item(j) => j == i,
        UnpackSlot::Rest(a, b) => a <= i < b,
    }
}

/// Some element of the pattern takes item `i`.
pub open spec fn taken_by_some(elements: Seq<PatternShape>, items: int, i: int) -> bool {
    exists|k: int| 0 <= k < elements.len() && slot_takes(#[trigger] slot_of(elements, items, k), i)
}

/// When `items` items fit a tuple pattern, every item goes to exactly one
/// element, and no element takes an item beyond the last.
pub proof fn law_unpack_takes_each_item_once(elements: Seq<PatternShape>, items: usize)
    requires
        unpack_fits(elements, items as int),
    ensures
        forall|i: int| 0 <= i < items ==> #[trigger] taken_by_some(elements, items as int, i),
        forall|i: int, k1: int, k2: int|
            0 <= i < items && 0 <= k1 < elements.len() && 0 <= k2 < elements.len()
            && #[trigger] slot_takes(slot_of(elements, items as int, k1), i) && #[trigger] slot_takes(slot_of(elements, items as int, k2), i)
            ==> k1 == k2,
        forall|k: int, i: int| 0 <= k < elements.len() && #[trigger] slot_takes(slot_of(elements, items as int, k), i) ==> 0 <= i < items,
{
    let n = elements.len() as int;
    let m = items as int;
    match star_position(elements) {
        None => {
            assert forall|i: int| 0 <= i < m implies #[trigger] taken_by_some(elements, m, i) by {
                assert(slot_takes(slot_of(elements, m, i), i));
            }
        },
        Some(s) => {
            lemma_star_in_range(elements);
            let rest_end = m - (n - s - 1);
            assert forall|i: int| 0 <= i < m implies #[trigger] taken_by_some(elements, m, i) by {
                if i < s {
                    assert(slot_takes(slot_of(elements, m, i), i));
                } else if i < rest_end {
                    assert(slot_takes(slot_of(elements, m, s), i));
                } else {
                    let k = i - rest_end + s + 1;
                    assert(slot_takes(slot_of(elements, m, k), i));
                }
            }
        },
    }
}

/// The first starred element lies among the elements.
proof fn lemma_star_in_range(elements: Seq<PatternShape>)
    ensures
        star_position(elements) matches Some(s) ==> 0 <= s < elements.len(),
    decreases elements.len(),
{
    if elements.len() > 0 {
        lemma_star_in_range(elements.drop_last());
    }
}

/// The error for a sequence whose length does not fit a tuple pattern: in
/// an assignment it names the counts, in a `match` it does not.
pub open spec fn unpack_error_message(elements: Seq<PatternShape>, items: int, in_match: bool) -> Seq<char> {
    if in_match {
        "match tuple destructuring length mismatch"@
    } else {
        "unpacking mismatch: expected "@ + decimal_text(fixed_items(elements) as nat) + " items, got "@
            + decimal_text(items as nat)
    }
}

/// The error for `items` items that do not fit the tuple pattern
/// `elements`.
pub fn unpack_error(elements: &[PatternShape], items: usize, in_match: bool) -> (r: RuntimeError)
    ensures
        r.message@ == unpack_error_message(elements@, items as int, in_match),
{
    if in_match {
        return runtime_error("match tuple destructuring length mismatch");
    }
    let fixed = match find_star(elements) {
        Some(_) => elements.len() - 1,
        None => elements.len(),
    };
    let mut message = String::from_str("unpacking mismatch: expected ");
    proof {
        reveal_strlit("unpacking mismatch: expected ");
        reveal_strlit(" items, got ");
    }
    append_decimal(&mut message, fixed as u64);
    message.append(" items, got ");
    append_decimal(&mut message, items as u64);
    RuntimeError { message }
}

/// The error for destructuring an object of class `actual` with a pattern
/// for `expected`.
pub open spec fn class_mismatch_message(expected: Seq<char>, actual: Seq<char>) -> Seq<char> {
    "expected "@ + expected + ", got "@ + actual
}

/// A class pattern for `expected` destructures an object of class
/// `actual` when it is that class or a subclass; otherwise the error names
/// both.
pub fn check_class_pattern(classes: &[ClassDef], expected: &str, actual: &str) -> (r: Result<(), RuntimeError>)
    ensures
        class_accepts(classes@, actual@, expected@) ==> r is Ok,
        !class_accepts(classes@, actual@, expected@)
            ==> r is Err && r->Err_0.message@ == class_mismatch_message(expected@, actual@),
{
    if same_text(actual, expected) || is_subclass(classes, actual, expected) {
        Ok(())
    } else {
        let mut message = String::from_str("expected ");
        message.append(expected);
        message.append(", got ");
        message.append(actual);
        Err(RuntimeError { message })
    }
}

/// The key that field `index` of a class pattern for `class_name` reads:
/// its own name when the pattern names it, else the class's own declared
/// field at that position (inherited fields do not count); `None` when
/// there is none.
pub open spec fn destructure_key_of(classes: Seq<ClassDef>, class_name: Seq<char>, field_name: Option<Seq<char>>, index: int) -> Option<Seq<char>> {
    match field_name {
        Some(n) => Some(n),
        None => match class_of(classes, class_name) {
            Some(cl) => if 0 <= index < own_fields(cl.body@).len() { Some(own_fields(cl.body@)[index]) } else { None },
            None => None,
        },
    }
}

/// The key that field `index` of a class pattern for `class_name` reads.
pub fn destructure_key(classes: &[ClassDef], class_name: &str, field_name: &Option<String>, index: usize) -> (r: Option<String>)
    ensures
        match destructure_key_of(classes@, class_name@, match field_name { Some(n) => Some(n@), None => None }, index as int) {
            Some(k) => r matches Some(s) && s@ == k,
            None => r is None,
        },
{
    if let Some(n) = field_name {
        return Some(n.clone());
    }
    let name = String::from_str(class_name);
    match find_class(classes, &name) {
        None => None,
        Some(c) => {
            let body = &classes[c].body;
            let mut seen: usize = 0;
            let mut j: usize = 0;
            proof {
                assert(body@.take(0) =~= Seq::<ClassMember>::empty());
            }
            while j < body.len()
                invariant
                    field_name is None,
                    c < classes@.len(),
                    class_of(classes@, class_name@) == Some(classes@[c as int]),
                    *body == classes@[c as int].body,
                    j <= body@.len(),
                    seen == own_fields(body@.take(j as int)).len(),
                    seen <= index,
                    forall|m: int| 0 <= m < seen ==> own_fields(body@.take(j as int))[m] == own_fields(body@)[m],
                decreases body@.len() - j,
            {
                proof {
                    assert(body@.take(j + 1).drop_last() =~= body@.take(j as int));
                    lemma_own_fields_prefix(body@, j + 1);
                }
                if body[j].kind == MemberKind::Field {
                    if seen == index {
                        proof {
                            assert(body@.take(j + 1).last() == body@[j as int]);
                            assert(own_fields(body@.take(j + 1)) == own_fields(body@.take(j as int)).push(body@[j as int].name@));
                            assert(own_fields(body@)[index as int] == body@[j as int].name@);
                        }
                        let key = body[j].name.clone();
                        assert(key@ == body@[j as int].name@);
                        return Some(key);
                    }
                    seen += 1;
                }
                j += 1;
            }
            proof {
                assert(body@.take(body@.len() as int) =~= body@);
            }
            None
        },
    }
}

/// The fields declared among the first `j` members lead those declared
/// among all of them.
proof fn lemma_own_fields_prefix(body: Seq<ClassMember>, j: int)
    requires
        0 <= j <= body.len(),
    ensures
        own_fields(body.take(j)).len() <= own_fields(body).len(),
        forall|m: int| 0 <= m < own_fields(body.take(j)).len() ==> own_fields(body.take(j))[m] == own_fields(body)[m],
    decreases body.len() - j,
{
    if j < body.len() {
        lemma_own_fields_prefix(body, j + 1);
        assert(body.take(j + 1).drop_last() =~= body.take(j));
    } else {
        assert(body.take(j) =~= body);
    }
}

} // verus!
