//! Which identifiers in a pattern bind a name, and which `except`
//! clauses catch an error.
use vstd::prelude::*;
use vstd::string::*;
use crate::error::RuntimeError;

verus! {

/// Whether `c` has the Unicode `Uppercase` property, as Rust's
/// `char::is_uppercase` decides it.
pub uninterp spec fn is_uppercase_char(c: char) -> bool;

/// Calls `char::is_uppercase`; the contract claims only that the answer
/// is the one `is_uppercase_char` names, a function of `c` alone.
#[verifier::external_body]
fn char_is_uppercase(c: char) -> (r: bool)
    ensures
        r == is_uppercase_char(c),
{
    c.is_uppercase()
}

/// Names that never bind in a pattern: the wildcard and the names of the
/// built-in types and of `none`.
pub open spec fn reserved_pattern_name(n: Seq<char>) -> bool {
    ||| n == "_"@
    ||| n == "int"@
    ||| n == "float"@
    ||| n == "bool"@
    ||| n == "str"@
    ||| n == "complex"@
    ||| n == "bytes"@
    ||| n == "Bytes"@
    ||| n == "MemoryView"@
    ||| n == "list"@
    ||| n == "set"@
    ||| n == "dict"@
    ||| n == "range"@
    ||| n == "DottedPath"@
    ||| n == "none"@
    ||| n == "None"@
}

/// Whether the identifier `name` in a pattern binds a variable: it is not
/// a reserved name and does not start with an uppercase letter (such a
/// name stands for a type or a constant).
pub fn pattern_identifier_binds(name: &str) -> (r: bool)
    ensures
        r == (!reserved_pattern_name(name@) && !(name@.len() > 0 && is_uppercase_char(name@[0]))),
{
    let n = String::from_str(name);
    let reserved = n == String::from_str("_") || n == String::from_str("int")
        || n == String::from_str("float") || n == String::from_str("bool")
        || n == String::from_str("str") || n == String::from_str("complex")
        || n == String::from_str("bytes") || n == String::from_str("Bytes")
        || n == String::from_str("MemoryView") || n == String::from_str("list")
        || n == String::from_str("set") || n == String::from_str("dict")
        || n == String::from_str("range") || n == String::from_str("DottedPath")
        || n == String::from_str("none") || n == String::from_str("None");
    if reserved {
        return false;
    }
    if name.unicode_len() == 0 {
        return true;
    }
    !char_is_uppercase(name.get_char(0))
}

/// The type named in an `except` clause: a named type, a union of types,
/// or any other type expression.
pub enum ExceptionType {
    Named(String),
    Union(Vec<ExceptionType>),
    Other,
}

/// The start of the message of an error raised by a failed invariant of
/// the named type.
pub open spec fn raised_prefix(name: Seq<char>) -> Seq<char> {
    "raised invariant ("@ + name + "):"@
}

/// Whether an error with `message` is caught by a clause for `t`: `Any`,
/// `Exception` and `BaseException` catch every error, another name catches
/// the invariant errors raised for it, and a union catches what any of its
/// members catches.
pub open spec fn handler_matches(message: Seq<char>, t: ExceptionType) -> bool
    decreases t,
{
    match t {
        ExceptionType::Named(n) => n@ == "Any"@ || n@ == "Exception"@ || n@ == "BaseException"@
            || raised_prefix(n@).is_prefix_of(message),
        ExceptionType::Union(types) => any_handler_matches(message, types@),
        ExceptionType::Other => false,
    }
}

/// Whether one of `types` catches an error with `message`.
pub open spec fn any_handler_matches(message: Seq<char>, types: Seq<ExceptionType>) -> bool
    decreases types,
{
    if types.len() == 0 {
        false
    } else {
        any_handler_matches(message, types.drop_last()) || handler_matches(message, types.last())
    }
}

/// Whether `prefix` starts `s`.
pub fn starts_with(s: &str, prefix: &str) -> (r: bool)
    ensures
        r == prefix@.is_prefix_of(s@),
{
    let n = s.unicode_len();
    let m = prefix.unicode_len();
    if m > n {
        return false;
    }
    let mut i: usize = 0;
    while i < m
        invariant
            m == prefix@.len(),
            n == s@.len(),
            m <= n,
            i <= m,
            forall|j: int| 0 <= j < i ==> prefix@[j] == s@[j],
        decreases m - i,
    {
        if prefix.get_char(i) != s.get_char(i) {
            return false;
        }
        i += 1;
    }
    true
}

/// Whether `error` is caught by an `except` clause for `exception_type`.
pub fn error_matches_handler(error: &RuntimeError, exception_type: &ExceptionType) -> (r: bool)
    ensures
        r == handler_matches(error.message@, *exception_type),
    decreases exception_type,
{
    match exception_type {
        ExceptionType::Named(name) => {
            if *name == String::from_str("Any") || *name == String::from_str("Exception")
                || *name == String::from_str("BaseException") {
                return true;
            }
            let mut prefix = String::from_str("raised invariant (");
            prefix.append(name.as_str());
            prefix.append("):");
            starts_with(error.message.as_str(), prefix.as_str())
        },
        ExceptionType::Union(types) => {
            let mut k: usize = 0;
            while k < types.len()
                invariant
                    k <= types@.len(),
                    *exception_type == ExceptionType::Union(*types),
                    !any_handler_matches(error.message@, types@.take(k as int)),
                decreases types@.len() - k,
            {
                proof {
                    assert(types@.take(k + 1).drop_last() =~= types@.take(k as int));
                    assert(types@.take(k + 1).last() == types@[k as int]);
                    assert(decreases_to!(*exception_type => exception_type->Union_0));
                    assert(exception_type->Union_0 == *types);
                    assert(decreases_to!(*types => types@));
                    assert(decreases_to!(types@ => types@[k as int]));
                }
                if error_matches_handler(error, &types[k]) {
                    proof {
                        lemma_any_handler_prefix(error.message@, types@, k + 1);
                    }
                    return true;
                }
                k += 1;
            }
            proof {
                assert(types@.take(types@.len() as int) =~= types@);
            }
            false
        },
        ExceptionType::Other => false,
    }
}

/// A member among leading types that catches the error is one among them
/// all.
proof fn lemma_any_handler_prefix(message: Seq<char>, types: Seq<ExceptionType>, k: int)
    requires
        0 <= k <= types.len(),
        any_handler_matches(message, types.take(k)),
    ensures
        any_handler_matches(message, types),
    decreases types.len() - k,
{
    if k < types.len() {
        assert(types.take(k + 1).drop_last() =~= types.take(k));
        lemma_any_handler_prefix(message, types, k + 1);
    } else {
        assert(types.take(k) =~= types);
    }
}


/// The shape of a pattern, as far as which names it binds.
pub enum PatternShape {
    /// A bare identifier.
    Ident(String),
    /// A tuple of patterns.
    Tuple(Vec<PatternShape>),
    /// Class or record destructuring: the patterns of its fields, in order.
    Fields(Vec<PatternShape>),
    /// A starred pattern, taking the rest.
    Star(Box<PatternShape>),
    /// A literal, the wildcard, or a type pattern: it binds nothing.
    Other,
}

/// Whether identifier `n` binds a variable in a pattern.
pub open spec fn binds_name(n: Seq<char>) -> bool {
    !reserved_pattern_name(n) && !(n.len() > 0 && is_uppercase_char(n[0]))
}

/// The names a pattern binds, in order (a name bound twice is listed twice).
pub open spec fn bound_names(p: PatternShape) -> Seq<Seq<char>>
    decreases p,
{
    match p {
        PatternShape::Ident(n) => if binds_name(n@) { seq![n@] } else { Seq::empty() },
        PatternShape::Tuple(items) => bound_names_all(items@),
        PatternShape::Fields(items) => bound_names_all(items@),
        PatternShape::Star(inner) => bound_names(*inner),
        PatternShape::Other => Seq::empty(),
    }
}

/// The names `items` bind, one pattern after the other.
pub open spec fn bound_names_all(items: Seq<PatternShape>) -> Seq<Seq<char>>
    decreases items,
{
    if items.len() == 0 {
        Seq::empty()
    } else {
        bound_names_all(items.drop_last()) + bound_names(items.last())
    }
}

/// Appends the names `p` binds, in order, to `out`.
fn append_bound_names(p: &PatternShape, out: &mut Vec<String>)
    ensures
        final(out)@.map_values(|s: String| s@) == old(out)@.map_values(|s: String| s@) + bound_names(*p),
    decreases p,
{
    match p {
        PatternShape::Ident(n) => {
            if pattern_identifier_binds(n.as_str()) {
                let ghost before = out@;
                out.push(n.clone());
                proof {
                    assert(out@.map_values(|s: String| s@) =~= before.map_values(|s: String| s@) + seq![n@]);
                }
            } else {
                proof {
                    assert(out@.map_values(|s: String| s@) =~= out@.map_values(|s: String| s@) + Seq::<Seq<char>>::empty());
                }
            }
        },
        PatternShape::Tuple(items) | PatternShape::Fields(items) => {
            let ghost start = out@.map_values(|s: String| s@);
            let mut k: usize = 0;
            proof {
                assert(items@.take(0) =~= Seq::<PatternShape>::empty());
                assert(out@.map_values(|s: String| s@) =~= start + bound_names_all(items@.take(0)));
            }
            while k < items.len()
                invariant
                    k <= items@.len(),
                    bound_names(*p) == bound_names_all(items@),
                    decreases_to!(*p => items@),
                    out@.map_values(|s: String| s@) == start + bound_names_all(items@.take(k as int)),
                decreases items@.len() - k,
            {
                proof {
                    assert(items@.take(k + 1).drop_last() =~= items@.take(k as int));
                    assert(items@.take(k + 1).last() == items@[k as int]);
                    assert(decreases_to!(items@ => items@[k as int]));
                }
                append_bound_names(&items[k], out);
                proof {
                    assert(out@.map_values(|s: String| s@) =~= start + bound_names_all(items@.take(k + 1)));
                }
                k += 1;
            }
            proof {
                assert(items@.take(items@.len() as int) =~= items@);
            }
        },
        PatternShape::Star(inner) => {
            append_bound_names(inner, out);
        },
        PatternShape::Other => {
            proof {
                assert(out@.map_values(|s: String| s@) =~= out@.map_values(|s: String| s@) + Seq::<Seq<char>>::empty());
            }
        },
    }
}

/// The names a pattern binds, in order: its identifiers that bind a
/// variable, through tuples, destructuring and stars.
pub fn pattern_bound_names(p: &PatternShape) -> (r: Vec<String>)
    ensures
        r@.map_values(|s: String| s@) == bound_names(*p),
{
    let mut out: Vec<String> = Vec::new();
    append_bound_names(p, &mut out);
    proof {
        assert(bound_names(*p) =~= Seq::<Seq<char>>::empty() + bound_names(*p));
        assert(Seq::<String>::empty().map_values(|s: String| s@) =~= Seq::<Seq<char>>::empty());
    }
    out
}
} // verus!
