//! Whether a value of the evaluator matches a `match` pattern: wildcards,
//! names (a built-in type's name, or a name that binds), literals, type
//! patterns with their unions, and sequence patterns with at most one
//! starred part.
use vstd::prelude::*;
use vstd::string::*;
use crate::eval::{EvalState, RtValue, RtView, state_wf};
use crate::integer::{Integer, equals};
use crate::literal::{literal_value, parse_bigint_literal};
use crate::matching::{pattern_identifier_binds, reserved_pattern_name, is_uppercase_char};

verus! {

/// A literal in a pattern.
pub enum Lit {
    /// An integer that fits a machine word.
    Int(i64),
    /// An integer written too large for a machine word, by its text.
    BigText(String),
    Bool(bool),
    Str(String),
    NoneLit,
}

/// A type in a pattern.
pub enum TypePat {
    Named(String),
    Union(Vec<TypePat>),
    /// A view, existential or reification of a type: it matches what the
    /// type matches.
    Inner(Box<TypePat>),
    Wildcard,
    Never,
    Literal(Lit),
    /// A function, record or match type, which no value matches here.
    Unmatched,
}

/// A pattern.
pub enum Pattern {
    Wildcard,
    Ident(String),
    Literal(Lit),
    Type(TypePat),
    Tuple(Vec<Pattern>),
    Star(Box<Pattern>),
}

/// `v` is a value of the built-in type called `name`.
pub open spec fn of_named_type(name: Seq<char>, v: RtView) -> bool {
    match v {
        RtView::Int(_, _) => name == "int"@,
        RtView::Bool(_) => name == "bool"@,
        RtView::Str(_) => name == "str"@,
        RtView::List(_) => name == "list"@,
        RtView::NoneValue => name == "none"@ || name == "None"@,
        RtView::Range(_, _, _) => name == "range"@,
    }
}

/// `v` is the value literal `l` spells: a machine-word literal matches a
/// machine-word integer, a large one an arbitrary-precision integer.
pub open spec fn lit_matches(l: Lit, v: RtView) -> bool {
    match (l, v) {
        (Lit::Int(a), RtView::Int(n, true)) => a as int == n,
        (Lit::BigText(t), RtView::Int(n, false)) => literal_value(t@) == Some(n),
        (Lit::Bool(a), RtView::Bool(b)) => a == b,
        (Lit::Str(a), RtView::Str(b)) => a@ == b,
        (Lit::NoneLit, RtView::NoneValue) => true,
        _ => false,
    }
}

/// `v` matches the type pattern `t`.
pub open spec fn type_matches(t: TypePat, v: RtView) -> bool
    decreases t,
{
    match t {
        TypePat::Named(n) => of_named_type(n@, v),
        TypePat::Union(ts) => exists|i: int| #![trigger ts@[i]] 0 <= i < ts@.len() && type_matches(ts@[i], v),
        TypePat::Inner(inner) => type_matches(*inner, v),
        TypePat::Wildcard => true,
        TypePat::Never => false,
        TypePat::Literal(l) => lit_matches(l, v),
        TypePat::Unmatched => false,
    }
}

/// A name in a pattern matches a value of the type it names, and anything
/// when it binds.
pub open spec fn ident_matches(n: Seq<char>, v: RtView) -> bool {
    of_named_type(n, v) || (!reserved_pattern_name(n) && !(n.len() > 0 && is_uppercase_char(n[0])))
}

/// The position of the first starred part of a sequence pattern.
pub open spec fn star_index(ps: Seq<Pattern>) -> Option<int>
    decreases ps.len(),
{
    if ps.len() == 0 {
        None
    } else {
        match star_index(ps.drop_last()) {
            Some(i) => Some(i),
            None => if ps.last() is Star { Some(ps.len() - 1) } else { None },
        }
    }
}

/// The first starred part is a part of the pattern.
pub proof fn lemma_star_index_in(ps: Seq<Pattern>)
    ensures
        star_index(ps) matches Some(s) ==> 0 <= s < ps.len() && ps[s] is Star
            && forall|j: int| 0 <= j < s ==> !(#[trigger] ps[j] is Star),
        star_index(ps) is None ==> forall|j: int| 0 <= j < ps.len() ==> !(#[trigger] ps[j] is Star),
    decreases ps.len(),
{
    if ps.len() > 0 {
        lemma_star_index_in(ps.drop_last());
        assert forall|j: int| 0 <= j < ps.len() - 1 implies ps.drop_last()[j] == ps[j] by {}
    }
}

/// `v` matches pattern `p`, the items of lists read from `heap`. A
/// sequence pattern matches a list: without a starred part, item by item;
/// with one, the parts before and after it match the first and last items
/// and the starred part matches the list of the items between.
pub open spec fn pattern_matches(heap: Seq<RtView>, p: Pattern, v: RtView) -> bool
    decreases p,
{
    match p {
        Pattern::Wildcard => true,
        Pattern::Ident(n) => ident_matches(n@, v),
        Pattern::Literal(l) => lit_matches(l, v),
        Pattern::Type(t) => type_matches(t, v),
        Pattern::Star(inner) => pattern_matches(heap, *inner, v),
        Pattern::Tuple(ps) => match v {
            RtView::List(items) => match star_index(ps@) {
                None => items.len() == ps@.len()
                    && forall|i: int| #![trigger ps@[i]] 0 <= i < ps@.len()
                        ==> pattern_matches(heap, ps@[i], heap[items[i] as int]),
                Some(s) => {
                    proof {
                        lemma_star_index_in(ps@);
                    }
                    let tail = ps@.len() - s - 1;
                    let rest_end = items.len() - tail;
                    &&& items.len() >= ps@.len() - 1
                    &&& forall|i: int| #![trigger ps@[i]] 0 <= i < s ==> pattern_matches(heap, ps@[i], heap[items[i] as int])
                    &&& pattern_matches(heap, ps@[s], RtView::List(items.subrange(s, rest_end)))
                    &&& forall|i: int| #![trigger ps@[i]] s < i < ps@.len()
                        ==> pattern_matches(heap, ps@[i], heap[items[rest_end + (i - s - 1)] as int])
                },
            },
            _ => false,
        },
    }
}

/// The items of `v`, when it is a list, are values of the arena.
pub open spec fn items_in_heap(v: RtView, len: nat) -> bool {
    match v {
        RtView::List(items) => forall|k: int| 0 <= k < items.len() ==> #[trigger] items[k] < len,
        _ => true,
    }
}

/// Every value of a well-formed arena has its items in the arena.
proof fn lemma_entry_in_heap(st: crate::eval::StateView, c: int)
    requires
        state_wf(st),
        0 <= c < st.heap.len(),
    ensures
        items_in_heap(st.heap[c], st.heap.len()),
{
    let v = st.heap[c];
    if let RtView::List(items) = v {
        assert forall|k: int| 0 <= k < items.len() implies #[trigger] items[k] < st.heap.len() by {
            assert(st.heap[c] matches RtView::List(xs) && xs[k] < st.heap.len());
        }
    }
}

/// An item of a list whose items are in the arena is in the arena.
proof fn lemma_item_in_heap(items: Seq<usize>, len: nat, i: int)
    requires
        items_in_heap(RtView::List(items), len),
        0 <= i < items.len(),
    ensures
        items[i] < len,
{
    let v = RtView::List(items);
    assert(v matches RtView::List(xs) && xs == items);
    assert(items_in_heap(v, len));
    assert(forall|k: int| 0 <= k < items.len() ==> #[trigger] items[k] < len);
}

/// Whether `v` is a value of the built-in type called `name`.
fn of_named_type_exec(name: &String, v: &RtValue) -> (r: bool)
    ensures
        r == of_named_type(name@, v@),
{
    match v {
        RtValue::Int(_) => *name == String::from_str("int"),
        RtValue::Bool(_) => *name == String::from_str("bool"),
        RtValue::Str(_) => *name == String::from_str("str"),
        RtValue::List(_) => *name == String::from_str("list"),
        RtValue::NoneValue => *name == String::from_str("none") || *name == String::from_str("None"),
        RtValue::Range(_, _, _) => *name == String::from_str("range"),
    }
}

/// Whether `v` is the value literal `l` spells.
fn lit_holds(l: &Lit, v: &RtValue) -> (r: bool)
    ensures
        r == lit_matches(*l, v@),
{
    match (l, v) {
        (Lit::Int(a), RtValue::Int(Integer::Int(n))) => *a == *n,
        (Lit::BigText(t), RtValue::Int(x)) => match x {
            Integer::Big(_) => match parse_bigint_literal(t.as_str()) {
                Some(b) => equals(&Integer::Big(b), x),
                None => false,
            },
            Integer::Int(_) => false,
        },
        (Lit::Bool(a), RtValue::Bool(b)) => *a == *b,
        (Lit::Str(a), RtValue::Str(b)) => *a == *b,
        (Lit::NoneLit, RtValue::NoneValue) => true,
        _ => false,
    }
}

/// Whether `v` matches the type pattern `t`.
fn type_holds(t: &TypePat, v: &RtValue) -> (r: bool)
    ensures
        r == type_matches(*t, v@),
    decreases t,
{
    match t {
        TypePat::Named(n) => of_named_type_exec(n, v),
        TypePat::Union(ts) => {
            let mut i: usize = 0;
            while i < ts.len()
                invariant
                    *t == TypePat::Union(*ts),
                    i <= ts@.len(),
                    forall|j: int| #![trigger ts@[j]] 0 <= j < i ==> !type_matches(ts@[j], v@),
                decreases ts.len() - i,
            {
                proof {
                    assert(decreases_to!(*t => (*t)->Union_0));
                    assert((*t)->Union_0 == *ts);
                    assert(decreases_to!(*ts => ts@));
                    assert(decreases_to!(ts@ => ts@[i as int]));
                }
                if type_holds(&ts[i], v) {
                    return true;
                }
                i += 1;
            }
            false
        },
        TypePat::Inner(inner) => type_holds(inner, v),
        TypePat::Wildcard => true,
        TypePat::Never => false,
        TypePat::Literal(l) => lit_holds(l, v),
        TypePat::Unmatched => false,
    }
}

/// The position of the first starred part of a sequence pattern.
pub(crate) fn find_star(ps: &Vec<Pattern>) -> (r: Option<usize>)
    ensures
        match r {
            Some(s) => star_index(ps@) == Some(s as int),
            None => star_index(ps@) is None,
        },
{
    let mut i: usize = 0;
    proof {
        assert(ps@.take(0) =~= Seq::<Pattern>::empty());
    }
    while i < ps.len()
        invariant
            i <= ps@.len(),
            star_index(ps@.take(i as int)) is None,
        decreases ps.len() - i,
    {
        proof {
            assert(ps@.take(i + 1).drop_last() =~= ps@.take(i as int));
        }
        if let Pattern::Star(_) = &ps[i] {
            proof {
                lemma_star_prefix(ps@, i + 1, ps@.len() as int);
                assert(ps@.take(ps@.len() as int) =~= ps@);
            }
            return Some(i);
        }
        i += 1;
    }
    proof {
        assert(ps@.take(ps@.len() as int) =~= ps@);
    }
    None
}

/// A starred part found among the first `n` parts is the first of all.
proof fn lemma_star_prefix(ps: Seq<Pattern>, n: int, m: int)
    requires
        0 <= n <= m <= ps.len(),
        star_index(ps.take(n)) is Some,
    ensures
        star_index(ps.take(m)) == star_index(ps.take(n)),
    decreases m - n,
{
    if n < m {
        lemma_star_prefix(ps, n, m - 1);
        assert(ps.take(m).drop_last() =~= ps.take(m - 1));
    }
}

/// Whether `v` matches pattern `p`, exactly as `pattern_matches` says.
pub fn matches_pattern(state: &EvalState, p: &Pattern, v: &RtValue) -> (r: bool)
    requires
        state_wf(state@),
        items_in_heap(v@, state@.heap.len()),
    ensures
        r == pattern_matches(state@.heap, *p, v@),
    decreases p,
{
    match p {
        Pattern::Wildcard => true,
        Pattern::Ident(n) => of_named_type_exec(n, v) || pattern_identifier_binds(n.as_str()),
        Pattern::Literal(l) => lit_holds(l, v),
        Pattern::Type(t) => type_holds(t, v),
        Pattern::Star(inner) => matches_pattern(state, inner, v),
        Pattern::Tuple(ps) => {
            let items = match v {
                RtValue::List(items) => items,
                _ => {
                    return false;
                },
            };
            let ghost heap = state@.heap;
            proof {
                lemma_star_index_in(ps@);
            }
            match find_star(ps) {
                None => {
                    if items.len() != ps.len() {
                        return false;
                    }
                    let mut i: usize = 0;
                    while i < ps.len()
                        invariant
                            *p == Pattern::Tuple(*ps),
                            v@ == RtView::List(items@),
                            heap == state@.heap,
                            state_wf(state@),
                            items_in_heap(v@, heap.len()),
                            items@.len() == ps@.len(),
                            star_index(ps@) is None,
                            i <= ps@.len(),
                            forall|j: int| #![trigger ps@[j]] 0 <= j < i ==> pattern_matches(heap, ps@[j], heap[items@[j] as int]),
                        decreases ps.len() - i,
                    {
                        proof {
                            assert(decreases_to!(*p => (*p)->Tuple_0));
                            assert((*p)->Tuple_0 == *ps);
                            assert(decreases_to!(*ps => ps@));
                            assert(decreases_to!(ps@ => ps@[i as int]));
                            lemma_item_in_heap(items@, heap.len(), i as int);
                            lemma_entry_in_heap(state@, items@[i as int] as int);
                            assert(state@.heap[items@[i as int] as int] == state.heap@[items@[i as int] as int]@);
                        }
                        if !matches_pattern(state, &ps[i], &state.heap[items[i]]) {
                            return false;
                        }
                        i += 1;
                    }
                    true
                },
                Some(star) => {
                    if items.len() < ps.len() - 1 {
                        return false;
                    }
                    let tail = ps.len() - star - 1;
                    let rest_end = items.len() - tail;
                    let mut i: usize = 0;
                    while i < star
                        invariant
                            *p == Pattern::Tuple(*ps),
                            v@ == RtView::List(items@),
                            heap == state@.heap,
                            state_wf(state@),
                            items_in_heap(v@, heap.len()),
                            star < ps@.len(),
                            star_index(ps@) == Some(star as int),
                            items@.len() >= ps@.len() - 1,
                            i <= star,
                            forall|j: int| #![trigger ps@[j]] 0 <= j < i ==> pattern_matches(heap, ps@[j], heap[items@[j] as int]),
                        decreases star - i,
                    {
                        proof {
                            assert(decreases_to!(*p => (*p)->Tuple_0));
                            assert((*p)->Tuple_0 == *ps);
                            assert(decreases_to!(*ps => ps@));
                            assert(decreases_to!(ps@ => ps@[i as int]));
                            lemma_item_in_heap(items@, heap.len(), i as int);
                            lemma_entry_in_heap(state@, items@[i as int] as int);
                            assert(state@.heap[items@[i as int] as int] == state.heap@[items@[i as int] as int]@);
                        }
                        if !matches_pattern(state, &ps[i], &state.heap[items[i]]) {
                            return false;
                        }
                        i += 1;
                    }
                    let mut middle: Vec<usize> = Vec::new();
                    let mut k: usize = star;
                    while k < rest_end
                        invariant
                            star <= k <= rest_end <= items@.len(),
                            middle@ == items@.subrange(star as int, k as int),
                        decreases rest_end - k,
                    {
                        proof {
                            assert(items@.subrange(star as int, k + 1) =~= items@.subrange(star as int, k as int).push(items@[k as int]));
                        }
                        middle.push(items[k]);
                        k += 1;
                    }
                    let middle_value = RtValue::List(middle);
                    proof {
                        assert(decreases_to!(*p => (*p)->Tuple_0));
                        assert((*p)->Tuple_0 == *ps);
                        assert(decreases_to!(*ps => ps@));
                        assert(decreases_to!(ps@ => ps@[star as int]));
                        assert forall|k: int| 0 <= k < middle@.len() implies #[trigger] middle@[k] < heap.len() by {
                            assert(middle@[k] == items@[star + k]);
                            lemma_item_in_heap(items@, heap.len(), star + k);
                        }
                    }
                    if !matches_pattern(state, &ps[star], &middle_value) {
                        return false;
                    }
                    let n_items = items.len();
                    let mut i: usize = star + 1;
                    while i < ps.len()
                        invariant
                            n_items == items@.len(),
                            *p == Pattern::Tuple(*ps),
                            v@ == RtView::List(items@),
                            heap == state@.heap,
                            state_wf(state@),
                            items_in_heap(v@, heap.len()),
                            star < ps@.len(),
                            star_index(ps@) == Some(star as int),
                            forall|j: int| #![trigger ps@[j]] 0 <= j < star ==> pattern_matches(heap, ps@[j], heap[items@[j] as int]),
                            pattern_matches(heap, ps@[star as int], RtView::List(items@.subrange(star as int, rest_end as int))),
                            tail == ps@.len() - star - 1,
                            rest_end == items@.len() - tail,
                            items@.len() >= ps@.len() - 1,
                            star + 1 <= i <= ps@.len(),
                            forall|j: int| #![trigger ps@[j]] star < j < i
                                ==> pattern_matches(heap, ps@[j], heap[items@[rest_end + (j - star - 1)] as int]),
                        decreases ps.len() - i,
                    {
                        proof {
                            assert(i - star - 1 < tail);
                            assert(rest_end + (i - star - 1) < items@.len());
                        }
                        let offset = i - star - 1;
                        let at = rest_end + offset;
                        proof {
                            assert(decreases_to!(*p => (*p)->Tuple_0));
                            assert((*p)->Tuple_0 == *ps);
                            assert(decreases_to!(*ps => ps@));
                            assert(decreases_to!(ps@ => ps@[i as int]));
                            lemma_item_in_heap(items@, heap.len(), at as int);
                            lemma_entry_in_heap(state@, items@[at as int] as int);
                            assert(state@.heap[items@[at as int] as int] == state.heap@[items@[at as int] as int]@);
                        }
                        if !matches_pattern(state, &ps[i], &state.heap[items[at]]) {
                            return false;
                        }
                        i += 1;
                    }
                    true
                },
            }
        },
    }
}

/// Each built-in type name, as a name pattern or as a type pattern,
/// matches exactly the values of that type: `bool` every boolean and
/// nothing else, `int` every integer, `str` every string, `list` every
/// list, `range` every range, and `none` (or `None`) only `none`.
pub proof fn law_type_names_match_their_values(heap: Seq<RtView>, n: String, v: RtView)
    ensures
        n@ == "bool"@ ==> (pattern_matches(heap, Pattern::Ident(n), v) <==> v is Bool),
        n@ == "int"@ ==> (pattern_matches(heap, Pattern::Ident(n), v) <==> v is Int),
        n@ == "str"@ ==> (pattern_matches(heap, Pattern::Ident(n), v) <==> v is Str),
        n@ == "list"@ ==> (pattern_matches(heap, Pattern::Ident(n), v) <==> v is List),
        n@ == "range"@ ==> (pattern_matches(heap, Pattern::Ident(n), v) <==> v is Range),
        n@ == "none"@ ==> (pattern_matches(heap, Pattern::Ident(n), v) <==> v is NoneValue),
        n@ == "None"@ ==> (pattern_matches(heap, Pattern::Ident(n), v) <==> v is NoneValue),
        pattern_matches(heap, Pattern::Ident(n), v) == type_matches(TypePat::Named(n), v) || !reserved_pattern_name(n@),
{
    reveal_strlit("bool");
    reveal_strlit("int");
    reveal_strlit("str");
    reveal_strlit("list");
    reveal_strlit("range");
    reveal_strlit("none");
    reveal_strlit("None");
    reveal_strlit("_");
    reveal_strlit("float");
    reveal_strlit("complex");
    reveal_strlit("bytes");
    reveal_strlit("Bytes");
    reveal_strlit("MemoryView");
    reveal_strlit("set");
    reveal_strlit("dict");
    reveal_strlit("DottedPath");
    assert("bool"@[0] != "list"@[0] && "bool"@[0] != "none"@[0] && "bool"@[0] != "None"@[0]);
    assert("bool"@ != "list"@ && "bool"@ != "none"@ && "bool"@ != "None"@);
    assert("int"@[0] != "str"@[0]);
    assert("int"@ != "str"@);
    assert("list"@ != "none"@ && "list"@ != "None"@);
    assert("none"@[0] != "None"@[0]);
    if v is Int {
        assert(of_named_type(n@, v) <==> n@ == "int"@);
    }
    if v is Bool {
        assert(of_named_type(n@, v) <==> n@ == "bool"@);
    }
}

} // verus!
