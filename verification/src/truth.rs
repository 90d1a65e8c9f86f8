//! Truthiness: which values count as true in a condition, and when an
//! object's `__bool__` or `__len__` decides.
use vstd::prelude::*;
use crate::integer::{Integer, is_truthy};
use crate::range::{range_count, range_is_truthy};

verus! {

/// A value as a condition sees it; containers by their length, objects by
/// the hooks they define.
pub enum TruthValue {
    Bool(bool),
    Int(Integer),
    Str(String),
    NoneValue,
    /// A list, dict, set or memory view of this many items.
    Sized(usize),
    Range(i64, i64, i64),
    /// The `skip` marker.
    Skip,
    /// An object, and whether it defines `__bool__` and `__len__`.
    Object { has_bool: bool, has_len: bool },
    /// Any other value (functions, classes, modules, bytes, ...).
    Other,
}

/// What decides a condition.
#[derive(PartialEq, Eq, Structural, Clone, Copy, Debug)]
pub enum Truth {
    /// The value is this.
    Known(bool),
    /// The object's `__bool__` decides: its result is tested in turn.
    CallBool,
    /// The object's `__len__` decides: its result is tested in turn.
    CallLen,
}

/// What decides whether `v` is true.
pub open spec fn truth_of(v: TruthValue) -> Truth {
    match v {
        TruthValue::Bool(b) => Truth::Known(b),
        TruthValue::Int(n) => Truth::Known(n.value() != 0),
        TruthValue::Str(s) => Truth::Known(s@.len() > 0),
        TruthValue::NoneValue => Truth::Known(false),
        TruthValue::Sized(n) => Truth::Known(n > 0),
        TruthValue::Range(start, stop, step) => Truth::Known(range_count(start as int, stop as int, step as int) > 0),
        TruthValue::Skip => Truth::Known(false),
        TruthValue::Object { has_bool, has_len } =>
            if has_bool { Truth::CallBool } else if has_len { Truth::CallLen } else { Truth::Known(true) },
        TruthValue::Other => Truth::Known(true),
    }
}

/// What decides whether `v` is true: `false`, `none`, `skip`, zero, empty
/// strings, empty containers and empty ranges are false; an object asks
/// its `__bool__`, else its `__len__`, else is true; anything else is
/// true.
pub fn truthiness(v: &TruthValue) -> (r: Truth)
    ensures
        r == truth_of(*v),
{
    match v {
        TruthValue::Bool(b) => Truth::Known(*b),
        TruthValue::Int(n) => Truth::Known(is_truthy(n)),
        TruthValue::Str(s) => Truth::Known(s.as_str().unicode_len() > 0),
        TruthValue::NoneValue => Truth::Known(false),
        TruthValue::Sized(n) => Truth::Known(*n > 0),
        TruthValue::Range(start, stop, step) => Truth::Known(range_is_truthy(*start, *stop, *step)),
        TruthValue::Skip => Truth::Known(false),
        TruthValue::Object { has_bool, has_len } => {
            if *has_bool {
                Truth::CallBool
            } else if *has_len {
                Truth::CallLen
            } else {
                Truth::Known(true)
            }
        },
        TruthValue::Other => Truth::Known(true),
    }
}

/// What decides a condition once an object's `__bool__` or `__len__` has
/// answered: a hook that failed makes the object false; otherwise its
/// result is tested like any value.
pub fn hook_truth(result: Option<&TruthValue>) -> (r: Truth)
    ensures
        r == match result {
            Some(v) => truth_of(*v),
            None => Truth::Known(false),
        },
{
    match result {
        Some(v) => truthiness(v),
        None => Truth::Known(false),
    }
}

} // verus!
