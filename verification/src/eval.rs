//! The evaluator's core: expressions and statements over integers,
//! booleans, strings, `none`, lists and ranges, run against a state that
//! holds every value in an arena. A list holds the positions of its items
//! in the arena, so lists and their items are shared rather than copied,
//! as the runtime shares them. Scopes are frames of one list of bindings.
use vstd::prelude::*;
use vstd::string::*;
use crate::error::{RuntimeError, runtime_error};
use crate::integer::{Integer, INT_NAN, floor_div, floor_mod, zero_divisor_sentinel, floor_divide, modulo, bit_and, bit_or, bit_xor, shift_left, shift_right, negate, invert, equals, less_than, less_equal, greater_than, greater_equal, is_truthy};
use crate::dispatch::{no_dispatch_message, no_dispatch_error, arg_names};
use crate::repr::{signed_text, decimal_text, append_signed, append_decimal, int_text, integer_repr};
use crate::list_ops::pop_position;
use crate::bytes::{repeat_seq, repeat_count, repeat_str};
use crate::hash::{bytes_lt, lemma_bytes_lt_total, lemma_bytes_lt_irreflexive};
use crate::compare::text_order;
use crate::matching::{starts_with, ExceptionType, handler_matches, error_matches_handler, binds_name, pattern_identifier_binds};
use crate::patterns::{Pattern, pattern_matches, star_index, lemma_star_index_in, find_star, matches_pattern, items_in_heap};
use crate::env::without_name;
use crate::slice::{slice_positions, slice_positions_spec, slice_overflows, slice_reads_past_end, clamp_bound, slice_first, slice_limit, slice_end};
use crate::range::{range_count, range_elements, range_is_truthy, materialize_range, range_contains};

verus! {

/// A value held in the arena.
pub enum RtValue {
    Int(Integer),
    Bool(bool),
    Str(String),
    NoneValue,
    /// A list: the arena positions of its items, in order.
    List(Vec<usize>),
    /// `range(start, stop, step)`.
    Range(i64, i64, i64),
}

/// A value of the arena as the semantics sees it: an integer by its value
/// and whether it is held in a machine word.
pub enum RtView {
    Int(int, bool),
    Bool(bool),
    Str(Seq<char>),
    NoneValue,
    List(Seq<usize>),
    Range(int, int, int),
}

impl View for RtValue {
    type V = RtView;

    open spec fn view(&self) -> RtView {
        match self {
            RtValue::Int(n) => RtView::Int(n.value(), n is Int),
            RtValue::Bool(b) => RtView::Bool(*b),
            RtValue::Str(s) => RtView::Str(s@),
            RtValue::NoneValue => RtView::NoneValue,
            RtValue::List(items) => RtView::List(items@),
            RtValue::Range(a, b, c) => RtView::Range(*a as int, *b as int, *c as int),
        }
    }
}

/// The evaluator's state: the arena of values; the variables, each bound
/// to an arena position, innermost scope last (a scope that ends drops the
/// bindings made in it); the names marked `final`; and whether a loop body
/// is running.
pub struct EvalState {
    pub heap: Vec<RtValue>,
    pub vars: Vec<(String, usize)>,
    pub finals: Vec<String>,
    /// Where the bindings of the innermost scope start in `vars`.
    pub base: usize,
    /// Where the `final` marks of the innermost scope start in `finals`.
    pub final_base: usize,
    /// The lines `print` has written, in order.
    pub output: Vec<String>,
    pub in_loop: bool,
}

/// The state as the semantics sees it.
#[verifier::ext_equal]
pub struct StateView {
    pub heap: Seq<RtView>,
    pub vars: Seq<(Seq<char>, usize)>,
    pub finals: Seq<Seq<char>>,
    pub base: nat,
    pub final_base: nat,
    pub output: Seq<Seq<char>>,
}

impl View for EvalState {
    type V = StateView;

    open spec fn view(&self) -> StateView {
        StateView {
            heap: self.heap@.map_values(|v: RtValue| v@),
            vars: self.vars@.map_values(|b: (String, usize)| (b.0@, b.1)),
            finals: self.finals@.map_values(|f: String| f@),
            base: self.base as nat,
            final_base: self.final_base as nat,
            output: self.output@.map_values(|o: String| o@),
        }
    }
}

/// The binary operators of the core.
#[derive(PartialEq, Eq, Structural, Clone, Copy)]
pub enum BinOp {
    Add,
    Sub,
    Mul,
    Eq,
    NotEq,
    Lt,
    Le,
    Gt,
    Ge,
    And,
    Or,
    In,
    NotIn,
    FloorDiv,
    Mod,
    BitAnd,
    BitOr,
    BitXor,
    Shl,
    Shr,
}

/// An expression.
pub enum Expr {
    Int(i64),
    Bool(bool),
    Str(String),
    NoneLit,
    Name(String),
    Binary(BinOp, Box<Expr>, Box<Expr>),
    Not(Box<Expr>),
    /// Unary `-`.
    Neg(Box<Expr>),
    /// Unary `+`.
    Pos(Box<Expr>),
    /// Unary `~`.
    Invert(Box<Expr>),
    ListLit(Vec<Expr>),
    Index(Box<Expr>, Box<Expr>),
    /// `len(x)`.
    Len(Box<Expr>),
    /// `list(x)`.
    ListOf(Box<Expr>),
    /// `range(...)` with its arguments.
    Range(Vec<Expr>),
    /// `[element for name in iterable if condition]`.
    ListComp(String, Box<Expr>, Box<Expr>, Option<Box<Expr>>),
    /// `target[start:stop:step]`, each bound optional.
    Slice(Box<Expr>, Option<Box<Expr>>, Option<Box<Expr>>, Option<Box<Expr>>),
    /// `then if condition else otherwise`, written here condition first.
    IfExpr(Box<Expr>, Box<Expr>, Box<Expr>),
    /// `print(...)` with its arguments.
    Print(Vec<Expr>),
}

/// A statement.
pub enum Stmt {
    /// `var name = value` (or `final name = value` when the flag is set);
    /// without a value the name is bound to `none`.
    VarDecl(String, Option<Expr>, bool),
    Assign(String, Expr),
    /// `name op= value`.
    AugAssign(String, BinOp, Expr),
    /// `del a, b`.
    Delete(Vec<String>),
    /// `for name in iterable: body`.
    For(String, Expr, Vec<Stmt>),
    /// `try: body`, its `except` clauses in order, and its `finally` body.
    Try(Vec<Stmt>, Vec<Handler>, Option<Vec<Stmt>>),
    /// `assert condition, message`.
    Assert(Expr, Option<Expr>),
    /// `raise value`.
    Raise(Expr),
    /// `match subject as alias:` and its arms in order.
    Match(Expr, Option<String>, Vec<MatchArm>),
    /// `target[index] = value`.
    SetItem(Expr, Expr, Expr),
    ExprStmt(Expr),
    If(Expr, Vec<Stmt>, Vec<Stmt>),
    While(Expr, Vec<Stmt>),
    Return(Expr),
    Break,
    Continue,
    Pass,
}

/// An `except` clause: the errors it catches, the name that receives the
/// error's message, and its body.
pub struct Handler {
    pub exception_type: ExceptionType,
    pub name: Option<String>,
    pub body: Vec<Stmt>,
}

/// An arm of a `match`: its pattern, its guard, and its body.
pub struct MatchArm {
    pub pattern: Pattern,
    pub guard: Option<Expr>,
    pub body: Vec<Stmt>,
}

/// How a statement ends.
#[derive(PartialEq, Eq, Structural, Clone, Copy, Debug)]
pub enum Flow {
    Normal,
    Return(usize),
    Break,
    Continue,
}

/// Every variable and every list item refers to a value in the arena, and
/// the innermost scope starts within the bindings and marks.
pub open spec fn state_wf(st: StateView) -> bool {
    &&& st.base <= st.vars.len()
    &&& st.final_base <= st.finals.len()
    &&& forall|i: int| 0 <= i < st.vars.len() ==> (#[trigger] st.vars[i]).1 < st.heap.len()
    &&& forall|c: int| 0 <= c < st.heap.len() ==> match #[trigger] st.heap[c] {
        RtView::List(items) => forall|k: int| 0 <= k < items.len() ==> #[trigger] items[k] < st.heap.len(),
        _ => true,
    }
}

/// The position of the innermost binding of `name`.
pub open spec fn var_index(vars: Seq<(Seq<char>, usize)>, name: Seq<char>) -> Option<int>
    decreases vars.len(),
{
    if vars.len() == 0 {
        None
    } else if vars.last().0 == name {
        Some(vars.len() - 1)
    } else {
        var_index(vars.drop_last(), name)
    }
}

/// The state after binding `name` to the value at `r`: an existing binding
/// is replaced, a new one added.
pub open spec fn assign_spec(st: StateView, name: Seq<char>, r: usize) -> StateView {
    match var_index(st.vars, name) {
        Some(i) => StateView { heap: st.heap, vars: st.vars.update(i, (name, r)), finals: st.finals, base: st.base, final_base: st.final_base, output: st.output },
        None => StateView { heap: st.heap, vars: st.vars.push((name, r)), finals: st.finals, base: st.base, final_base: st.final_base, output: st.output },
    }
}

/// The position of the binding of `name` in the innermost scope.
pub open spec fn local_index(st: StateView, name: Seq<char>) -> Option<int> {
    match var_index(st.vars, name) {
        Some(i) => if i >= st.base { Some(i) } else { None },
        None => None,
    }
}

/// The state after declaring `name` bound to the value at `r` in the
/// innermost scope: a binding there is replaced, else a new one added
/// (which hides any outer binding of the name).
pub open spec fn declare_spec(st: StateView, name: Seq<char>, r: usize) -> StateView {
    match local_index(st, name) {
        Some(i) => StateView { heap: st.heap, vars: st.vars.update(i, (name, r)), finals: st.finals, base: st.base, final_base: st.final_base, output: st.output },
        None => StateView { heap: st.heap, vars: st.vars.push((name, r)), finals: st.finals, base: st.base, final_base: st.final_base, output: st.output },
    }
}

/// The state after marking `name` final in the innermost scope.
pub open spec fn mark_final_spec(st: StateView, name: Seq<char>) -> StateView {
    StateView { heap: st.heap, vars: st.vars, finals: st.finals.push(name), base: st.base, final_base: st.final_base, output: st.output }
}

/// Whether `name` is marked final in some scope.
pub open spec fn is_final_name(st: StateView, name: Seq<char>) -> bool {
    st.finals.contains(name)
}

/// The error for assigning to a final name.
pub open spec fn final_message(name: Seq<char>) -> Seq<char> {
    "cannot reassign final variable '"@ + name + "'"@
}

/// The error for deleting a name the innermost scope does not bind.
pub open spec fn delete_message(name: Seq<char>) -> Seq<char> {
    "cannot delete undefined variable '"@ + name + "'"@
}

/// `del name`: the final marks of `name` made in the innermost scope go,
/// and so does its binding there; without such a binding it is an error.
pub open spec fn delete_spec(st: StateView, name: Seq<char>) -> (StateView, Result<Flow, Seq<char>>) {
    let finals = st.finals.take(st.final_base as int) + without_name(st.finals.skip(st.final_base as int), name);
    match local_index(st, name) {
        Some(i) => (StateView { heap: st.heap, vars: st.vars.remove(i), finals, base: st.base, final_base: st.final_base, output: st.output }, Ok(Flow::Normal)),
        None => (StateView { heap: st.heap, vars: st.vars, finals, base: st.base, final_base: st.final_base, output: st.output }, Err(delete_message(name))),
    }
}

/// Deleting the first `n` of `names` in order, stopping at the first error.
pub open spec fn delete_all_spec(st: StateView, names: Seq<String>, n: int) -> (StateView, Result<Flow, Seq<char>>)
    decreases n,
{
    if n <= 0 || n > names.len() {
        (st, Ok(Flow::Normal))
    } else {
        let (s1, r) = delete_all_spec(st, names, n - 1);
        match r {
            Ok(_) => delete_spec(s1, names[n - 1]@),
            Err(m) => (s1, Err(m)),
        }
    }
}

/// `name op= value` with the value of `value` at `b` and the current value
/// of `name` at `a`: `and` and `or` pick an operand, the others compute.
pub open spec fn update_op_spec(st: StateView, op: BinOp, a: usize, b: usize) -> (StateView, Result<usize, Seq<char>>) {
    if op is And || op is Or {
        (st, Ok(if (op is And) == truthy(st.heap[a as int]) { b } else { a }))
    } else {
        binary_spec(st, op, a, b)
    }
}

/// Once a deletion fails, deleting more names gives the same.
proof fn lemma_delete_all_stops(st: StateView, names: Seq<String>, n: int, m: int)
    requires
        0 < n <= m <= names.len(),
        delete_all_spec(st, names, n).1 is Err,
    ensures
        delete_all_spec(st, names, m) == delete_all_spec(st, names, n),
    decreases m - n,
{
    if n < m {
        lemma_delete_all_stops(st, names, n, m - 1);
    }
}

/// The state after adding `v` to the arena, and its position.
pub open spec fn alloc_spec(st: StateView, v: RtView) -> (StateView, Result<usize, Seq<char>>) {
    (StateView { heap: st.heap.push(v), vars: st.vars, finals: st.finals, base: st.base, final_base: st.final_base, output: st.output }, Ok(st.heap.len() as usize))
}

/// Truthiness of a value.
pub open spec fn truthy(v: RtView) -> bool {
    match v {
        RtView::Int(n, _) => n != 0,
        RtView::Bool(b) => b,
        RtView::Str(s) => s.len() > 0,
        RtView::NoneValue => false,
        RtView::List(items) => items.len() > 0,
        RtView::Range(a, b, c) => range_count(a, b, c) > 0,
    }
}

/// The type name of a value, as errors write it.
pub open spec fn type_text(v: RtView) -> Seq<char> {
    match v {
        RtView::Int(_, _) => "int"@,
        RtView::Bool(_) => "bool"@,
        RtView::Str(_) => "str"@,
        RtView::NoneValue => "none"@,
        RtView::List(_) => "list"@,
        RtView::Range(_, _, _) => "range"@,
    }
}

/// The text of an operator, as dispatch and errors name it.
pub open spec fn op_text(op: BinOp) -> Seq<char> {
    match op {
        BinOp::Add => "+"@,
        BinOp::Sub => "-"@,
        BinOp::Mul => "*"@,
        BinOp::Eq => "=="@,
        BinOp::NotEq => "!="@,
        BinOp::Lt => "<"@,
        BinOp::Le => "<="@,
        BinOp::Gt => ">"@,
        BinOp::Ge => ">="@,
        BinOp::And => "and"@,
        BinOp::Or => "or"@,
        BinOp::In => "in"@,
        BinOp::NotIn => "not in"@,
        BinOp::FloorDiv => "//"@,
        BinOp::Mod => "%"@,
        BinOp::BitAnd => "&"@,
        BinOp::BitOr => "|"@,
        BinOp::BitXor => "^"@,
        BinOp::Shl => "<<"@,
        BinOp::Shr => ">>"@,
    }
}

/// An integer result, held in a machine word when both operands are and
/// it fits.
pub open spec fn int_result(n: int, small: bool) -> RtView {
    RtView::Int(n, small && i64::MIN <= n <= i64::MAX)
}

/// `a == b` between arena values, looking `depth` levels into lists.
pub open spec fn heap_equal(heap: Seq<RtView>, a: usize, b: usize, depth: nat) -> bool
    decreases depth,
{
    if depth == 0 {
        false
    } else {
        match (heap[a as int], heap[b as int]) {
            (RtView::Int(x, _), RtView::Int(y, _)) => x == y,
            (RtView::Bool(x), RtView::Bool(y)) => x == y,
            (RtView::Str(x), RtView::Str(y)) => x == y,
            (RtView::NoneValue, RtView::NoneValue) => true,
            (RtView::Range(a, b, c), RtView::Range(x, y, z)) => a == x && b == y && c == z,
            (RtView::List(xs), RtView::List(ys)) => xs.len() == ys.len()
                && forall|k: int| #![trigger xs[k]] 0 <= k < xs.len() ==> heap_equal(heap, xs[k], ys[k], (depth - 1) as nat),
            _ => false,
        }
    }
}

/// `a == b` between arena values. Lists compare item by item, as deep as
/// the arena has values; a list that contains itself is never equal to
/// anything.
pub open spec fn values_eq(heap: Seq<RtView>, a: usize, b: usize) -> bool {
    heap_equal(heap, a, b, heap.len())
}

/// The value an ordering operator gives for integers `x` and `y`.
pub open spec fn int_order(op: BinOp, x: int, y: int) -> bool {
    match op {
        BinOp::Lt => x < y,
        BinOp::Le => x <= y,
        BinOp::Gt => x > y,
        _ => x >= y,
    }
}

/// `//`, `%`, the bitwise operators and the shifts on two values: on
/// machine words, a zero divisor gives a sentinel, `//` and `%` are
/// Euclidean and `i64::MIN` by `-1` overflows; with an arbitrary-precision
/// operand `//` and `%` floor and a zero divisor gives `int.nan`; the
/// bitwise operators and shifts take machine words only (and `&`, `|`, `^`
/// also two booleans); a shift by 64 or more gives 0.
pub open spec fn integer_op_spec(op: BinOp, va: RtView, vb: RtView) -> Result<RtView, Seq<char>> {
    let unsupported = Err("unsupported operands for "@ + op_text(op));
    match (va, vb) {
        (RtView::Int(x, sx), RtView::Int(y, sy)) => match op {
            BinOp::FloorDiv => if sx && sy {
                if y == 0 {
                    Ok(RtView::Int(zero_divisor_sentinel(x) as int, true))
                } else if x == i64::MIN && y == -1 {
                    Err("integer overflow in //"@)
                } else {
                    Ok(RtView::Int(x / y, true))
                }
            } else if y == 0 {
                Ok(RtView::Int(INT_NAN as int, true))
            } else {
                Ok(RtView::Int(floor_div(x, y), false))
            },
            BinOp::Mod => if sx && sy {
                if y == 0 {
                    Ok(RtView::Int(INT_NAN as int, true))
                } else if x == i64::MIN && y == -1 {
                    Err("integer overflow in %"@)
                } else {
                    Ok(RtView::Int(x % y, true))
                }
            } else if y == 0 {
                Ok(RtView::Int(INT_NAN as int, true))
            } else {
                Ok(RtView::Int(floor_mod(x, y), false))
            },
            _ => if !(sx && sy) {
                unsupported
            } else {
                let a = x as i64;
                let b = y as i64;
                match op {
                    BinOp::BitAnd => Ok(RtView::Int((a & b) as int, true)),
                    BinOp::BitOr => Ok(RtView::Int((a | b) as int, true)),
                    BinOp::BitXor => Ok(RtView::Int((a ^ b) as int, true)),
                    _ => if b < 0 {
                        Err("negative shift count"@)
                    } else if b >= 64 {
                        Ok(RtView::Int(0, true))
                    } else if op is Shl {
                        Ok(RtView::Int((a << b) as int, true))
                    } else {
                        Ok(RtView::Int((a >> b) as int, true))
                    },
                }
            },
        },
        (RtView::Bool(p), RtView::Bool(q)) => match op {
            BinOp::BitAnd => Ok(RtView::Bool(p && q)),
            BinOp::BitOr => Ok(RtView::Bool(p || q)),
            BinOp::BitXor => Ok(RtView::Bool(p != q)),
            _ => unsupported,
        },
        _ => unsupported,
    }
}

/// Unary `-`, `+` or `~` (by `op`: 0, 1 or 2) of a value: `-` swaps the
/// infinity sentinels and keeps `int.nan`; `~n` is `-n - 1`; other values
/// are an error.
pub open spec fn unary_spec(op: int, v: RtView) -> Result<RtView, Seq<char>> {
    match v {
        RtView::Int(x, small) => if op == 0 {
            Ok(RtView::Int(if small && x == INT_NAN as int { x } else { -x }, small))
        } else if op == 1 {
            Ok(v)
        } else {
            Ok(RtView::Int(-x - 1, small))
        },
        _ => Err(if op == 0 {
            "unsupported operand for unary -"@
        } else if op == 1 {
            "unsupported operand for unary +"@
        } else {
            "unsupported operand for ~"@
        }),
    }
}

/// String `x` comes before `y`: its UTF-8 bytes come first.
pub open spec fn text_before(x: Seq<char>, y: Seq<char>) -> bool {
    bytes_lt(vstd::utf8::encode_utf8(x), vstd::utf8::encode_utf8(y))
}

/// Whether an ordering operator holds of values that compare as `less`
/// (the first before the second) or `equal`.
pub open spec fn order_holds(op: BinOp, less: bool, equal: bool) -> bool {
    match op {
        BinOp::Lt => less,
        BinOp::Le => less || equal,
        BinOp::Gt => !less && !equal,
        _ => !less,
    }
}

/// What an arithmetic or ordering operator makes of two values: the new
/// value, or the error.
pub open spec fn operate_spec(op: BinOp, va: RtView, vb: RtView) -> Result<RtView, Seq<char>> {
    let dispatch_error = no_dispatch_message(op_text(op), seq![type_text(va), type_text(vb)]);
    match op {
        BinOp::Add => match (va, vb) {
            (RtView::Int(x, sx), RtView::Int(y, sy)) => Ok(int_result(x + y, sx && sy)),
            (RtView::Str(x), RtView::Str(y)) => Ok(RtView::Str(x + y)),
            (RtView::List(x), RtView::List(y)) => Ok(RtView::List(x + y)),
            _ => Err(dispatch_error),
        },
        BinOp::Sub => match (va, vb) {
            (RtView::Int(x, sx), RtView::Int(y, sy)) => Ok(int_result(x - y, sx && sy)),
            _ => Err(dispatch_error),
        },
        BinOp::Mul => match (va, vb) {
            (RtView::Int(x, sx), RtView::Int(y, sy)) => Ok(int_result(x * y, sx && sy)),
            (RtView::Str(x), RtView::Int(n, true)) => Ok(RtView::Str(repeat_seq(x, repeat_count(n)))),
            (RtView::Str(_), RtView::Int(_, false)) => Err("unsupported operands for *"@),
            (RtView::List(x), RtView::Int(n, true)) => Ok(RtView::List(repeat_seq(x, repeat_count(n)))),
            (RtView::Int(n, true), RtView::List(x)) => Ok(RtView::List(repeat_seq(x, repeat_count(n)))),
            _ => Err(dispatch_error),
        },
        BinOp::FloorDiv | BinOp::Mod | BinOp::BitAnd | BinOp::BitOr | BinOp::BitXor | BinOp::Shl | BinOp::Shr =>
            integer_op_spec(op, va, vb),
        _ => match (va, vb) {
            (RtView::Int(x, _), RtView::Int(y, _)) => Ok(RtView::Bool(int_order(op, x, y))),
            (RtView::Str(x), RtView::Str(y)) => Ok(RtView::Bool(order_holds(op, text_before(x, y), x == y))),
            _ => Err("unsupported operands for "@ + op_text(op)),
        },
    }
}

/// `sub` occurs in `s`.
pub open spec fn text_contains(s: Seq<char>, sub: Seq<char>) -> bool {
    exists|i: int| 0 <= i <= s.len() && sub.is_prefix_of(#[trigger] s.skip(i))
}

/// `a in b` (or, with `negated`, `a not in b`): a list holds an item equal
/// to `a`; a string holds the string `a` as a part; other containers are
/// an error.
pub open spec fn membership_spec(st: StateView, a: usize, b: usize, negated: bool) -> (StateView, Result<usize, Seq<char>>) {
    match st.heap[b as int] {
        RtView::List(items) => alloc_spec(st, RtView::Bool(
            negated != exists|k: int| 0 <= k < items.len() && values_eq(st.heap, a, #[trigger] items[k]))),
        RtView::Str(t) => alloc_spec(st, RtView::Bool(
            negated != (st.heap[a as int] matches RtView::Str(x) && text_contains(t, x)))),
        RtView::Range(start, stop, step) => alloc_spec(st, RtView::Bool(
            negated != (st.heap[a as int] matches RtView::Int(x, true)
                && i64::MIN <= x - start <= i64::MAX && range_elements(start, stop, step).contains(x)))),
        v => (st, Err("'"@ + op_text(if negated { BinOp::NotIn } else { BinOp::In }) + "' operator not supported for "@ + type_text(v))),
    }
}

/// The result of a binary operator other than `and` and `or` (which
/// `eval_expr_spec` decides before it evaluates their right operand) on
/// the values at `a` and `b`: the position of the result and the state
/// after it.
pub open spec fn binary_spec(st: StateView, op: BinOp, a: usize, b: usize) -> (StateView, Result<usize, Seq<char>>) {
    let va = st.heap[a as int];
    let vb = st.heap[b as int];
    match op {
        BinOp::Eq => alloc_spec(st, RtView::Bool(values_eq(st.heap, a, b))),
        BinOp::NotEq => alloc_spec(st, RtView::Bool(!values_eq(st.heap, a, b))),
        BinOp::In => membership_spec(st, a, b, false),
        BinOp::NotIn => membership_spec(st, a, b, true),
        _ => match operate_spec(op, va, vb) {
            Ok(v) => alloc_spec(st, v),
            Err(m) => (st, Err(m)),
        },
    }
}

/// The error for an index a sequence does not have.
pub open spec fn index_error(i: int) -> Seq<char> {
    "index "@ + signed_text(i) + " out of range"@
}

/// Indexing the value at `a` with the value at `b`: a list gives its item
/// (the same value, shared), a string a one-character string; a negative
/// index counts from the end.
pub open spec fn index_spec(st: StateView, a: usize, b: usize) -> (StateView, Result<usize, Seq<char>>) {
    match (st.heap[a as int], st.heap[b as int]) {
        (RtView::List(items), RtView::Int(i, true)) => {
            let p = pop_position(i, items.len() as int);
            if 0 <= p < items.len() { (st, Ok(items[p])) } else { (st, Err(index_error(i))) }
        },
        (RtView::Str(s), RtView::Int(i, true)) => {
            let p = pop_position(i, s.len() as int);
            if 0 <= p < s.len() { alloc_spec(st, RtView::Str(seq![s[p]])) } else { (st, Err(index_error(i))) }
        },
        (RtView::Range(start, stop, step), RtView::Int(i, true)) => {
            let values = range_elements(start, stop, step);
            let p = pop_position(i, values.len() as int);
            if 0 <= p < values.len() { alloc_spec(st, RtView::Int(values[p], true)) } else { (st, Err(index_error(i))) }
        },
        (v, _) => (st, Err("indexing not supported on "@ + type_text(v))),
    }
}

/// `len` of the value at `a`: the number of characters of a string or
/// items of a list.
pub open spec fn len_spec(st: StateView, a: usize) -> (StateView, Result<usize, Seq<char>>) {
    match st.heap[a as int] {
        RtView::Str(s) => alloc_spec(st, int_result(s.len() as int, true)),
        RtView::List(items) => alloc_spec(st, int_result(items.len() as int, true)),
        RtView::Range(start, stop, step) => alloc_spec(st, int_result(range_count(start, stop, step) as int, true)),
        v => (st, Err("object of type '"@ + type_text(v) + "' has no len()"@)),
    }
}

/// The arena after adding one-character strings for the characters of
/// `s`, in order.
pub open spec fn with_chars(heap: Seq<RtView>, s: Seq<char>) -> Seq<RtView> {
    heap + Seq::new(s.len(), |i: int| RtView::Str(seq![s[i]]))
}

/// `list` of the value at `a`: a new list of the same items for a list (the
/// items shared), a new list of one-character strings for a string.
pub open spec fn list_of_spec(st: StateView, a: usize) -> (StateView, Result<usize, Seq<char>>) {
    match st.heap[a as int] {
        RtView::List(items) => alloc_spec(st, RtView::List(items)),
        RtView::Str(s) => {
            let grown = StateView { heap: with_chars(st.heap, s), vars: st.vars, finals: st.finals, base: st.base, final_base: st.final_base, output: st.output };
            alloc_spec(grown, RtView::List(Seq::new(s.len(), |i: int| (st.heap.len() + i) as usize)))
        },
        RtView::Range(_, _, _) => match iterable_items(st, a) {
            Ok((grown, refs)) => alloc_spec(grown, RtView::List(refs)),
            Err(m) => (st, Err(m)),
        },
        v => (st, Err("cannot convert "@ + type_text(v) + " to list"@)),
    }
}

/// How `print` and a failed `assert` show a value: a string's own text,
/// any other value as `debug_text` shows it.
pub open spec fn shown_text(heap: Seq<RtView>, v: RtView) -> Seq<char> {
    match v {
        RtView::Str(t) => t,
        w => debug_text(heap, w, heap.len()),
    }
}

/// The first `n` values at `refs`, shown and separated by spaces.
pub open spec fn print_line(heap: Seq<RtView>, refs: Seq<usize>, n: int) -> Seq<char>
    decreases n,
{
    if n <= 0 || n > refs.len() {
        Seq::empty()
    } else if n == 1 {
        shown_text(heap, heap[refs[0] as int])
    } else {
        print_line(heap, refs, n - 1) + " "@ + shown_text(heap, heap[refs[n - 1] as int])
    }
}

/// `print(...)` with the argument values at `refs`: one more line of
/// output, and the value `none`.
pub open spec fn print_spec(st: StateView, refs: Seq<usize>) -> (StateView, Result<usize, Seq<char>>) {
    let line = print_line(st.heap, refs, refs.len() as int);
    alloc_spec(StateView { heap: st.heap, vars: st.vars, finals: st.finals, base: st.base, final_base: st.final_base, output: st.output.push(line) }, RtView::NoneValue)
}

/// `range(...)` with the argument values at `refs`: one argument is the
/// stop, two the start and stop, three add the step, which must not be
/// zero; all must be machine-word integers.
pub open spec fn range_call_spec(st: StateView, refs: Seq<usize>) -> (StateView, Result<usize, Seq<char>>) {
    if refs.len() == 1 {
        match st.heap[refs[0] as int] {
            RtView::Int(stop, true) => alloc_spec(st, RtView::Range(0, stop, 1)),
            _ => (st, Err("range() stop must be an int"@)),
        }
    } else if refs.len() == 2 {
        match (st.heap[refs[0] as int], st.heap[refs[1] as int]) {
            (RtView::Int(start, true), RtView::Int(stop, true)) => alloc_spec(st, RtView::Range(start, stop, 1)),
            _ => (st, Err("range() arguments must be ints"@)),
        }
    } else if refs.len() == 3 {
        match (st.heap[refs[0] as int], st.heap[refs[1] as int], st.heap[refs[2] as int]) {
            (RtView::Int(start, true), RtView::Int(stop, true), RtView::Int(step, true)) => if step == 0 {
                (st, Err("range() step cannot be zero"@))
            } else {
                alloc_spec(st, RtView::Range(start, stop, step))
            },
            _ => (st, Err("range() arguments must be ints"@)),
        }
    } else {
        (st, Err("range() takes 1 to 3 arguments, got "@ + signed_text(refs.len() as int)))
    }
}

/// What evaluating `e` in `st` gives: the state after it and the arena
/// position of its value, or the error. Operands are evaluated left to
/// right; every literal, and every computed value, is a new arena value.
pub open spec fn eval_expr_spec(st: StateView, e: Expr) -> (StateView, Result<usize, Seq<char>>)
    decreases e, 1int, 0int,
{
    match e {
        Expr::Int(n) => alloc_spec(st, RtView::Int(n as int, true)),
        Expr::Bool(b) => alloc_spec(st, RtView::Bool(b)),
        Expr::Str(s) => alloc_spec(st, RtView::Str(s@)),
        Expr::NoneLit => alloc_spec(st, RtView::NoneValue),
        Expr::Name(n) => match var_index(st.vars, n@) {
            Some(i) => (st, Ok(st.vars[i].1)),
            None => (st, Err("undefined variable '"@ + n@ + "'"@)),
        },
        Expr::Binary(op, l, r) => {
            let (s1, rl) = eval_expr_spec(st, *l);
            match rl {
                Err(m) => (s1, Err(m)),
                Ok(a) => if op is And || op is Or {
                    if (op is And) == truthy(s1.heap[a as int]) {
                        eval_expr_spec(s1, *r)
                    } else {
                        (s1, Ok(a))
                    }
                } else {
                    let (s2, rr) = eval_expr_spec(s1, *r);
                    match rr {
                        Err(m) => (s2, Err(m)),
                        Ok(b) => binary_spec(s2, op, a, b),
                    }
                },
            }
        },
        Expr::Not(x) => {
            let (s1, rx) = eval_expr_spec(st, *x);
            match rx {
                Err(m) => (s1, Err(m)),
                Ok(a) => alloc_spec(s1, RtView::Bool(!truthy(s1.heap[a as int]))),
            }
        },
        Expr::IfExpr(c, t, f) => {
            let (s1, rc) = eval_expr_spec(st, *c);
            match rc {
                Err(m) => (s1, Err(m)),
                Ok(a) => if truthy(s1.heap[a as int]) { eval_expr_spec(s1, *t) } else { eval_expr_spec(s1, *f) },
            }
        },
        Expr::ListLit(items) => {
            let (s1, rs) = eval_items_spec(st, items@, items@.len() as int);
            match rs {
                Err(m) => (s1, Err(m)),
                Ok(refs) => alloc_spec(s1, RtView::List(refs)),
            }
        },
        Expr::Range(args) => {
            let (s1, rs) = eval_items_spec(st, args@, args@.len() as int);
            match rs {
                Err(m) => (s1, Err(m)),
                Ok(refs) => range_call_spec(s1, refs),
            }
        },
        Expr::Print(args) => {
            let (s1, rs) = eval_items_spec(st, args@, args@.len() as int);
            match rs {
                Err(m) => (s1, Err(m)),
                Ok(refs) => print_spec(s1, refs),
            }
        },
        Expr::Slice(target, lo, hi, step) => {
            let (s1, rt) = eval_expr_spec(st, *target);
            match rt {
                Err(m) => (s1, Err(m)),
                Ok(t) => {
                    let (s2, rlo) = match lo {
                        None => (s1, Ok(None)),
                        Some(x) => {
                            let (sx, rx) = eval_expr_spec(s1, *x);
                            (sx, match rx {
                                Err(m) => Err(m),
                                Ok(v) => match sx.heap[v as int] {
                                    RtView::Int(n, true) => Ok(Some(n as i64)),
                                    _ => Err("slice start must be an integer"@),
                                },
                            })
                        },
                    };
                    match rlo {
                        Err(m) => (s2, Err(m)),
                        Ok(start) => {
                            let (s3, rhi) = match hi {
                                None => (s2, Ok(None)),
                                Some(x) => {
                                    let (sx, rx) = eval_expr_spec(s2, *x);
                                    (sx, match rx {
                                        Err(m) => Err(m),
                                        Ok(v) => match sx.heap[v as int] {
                                            RtView::Int(n, true) => Ok(Some(n as i64)),
                                            _ => Err("slice stop must be an integer"@),
                                        },
                                    })
                                },
                            };
                            match rhi {
                                Err(m) => (s3, Err(m)),
                                Ok(stop) => {
                                    let (s4, rstep) = match step {
                                        None => (s3, Ok(1i64)),
                                        Some(x) => {
                                            let (sx, rx) = eval_expr_spec(s3, *x);
                                            (sx, match rx {
                                                Err(m) => Err(m),
                                                Ok(v) => match sx.heap[v as int] {
                                                    RtView::Int(n, true) => if n == 0 {
                                                        Err("slice step cannot be zero"@)
                                                    } else {
                                                        Ok(n as i64)
                                                    },
                                                    _ => Err("slice step must be an integer"@),
                                                },
                                            })
                                        },
                                    };
                                    match rstep {
                                        Err(m) => (s4, Err(m)),
                                        Ok(k) => slice_spec(s4, t, start, stop, k),
                                    }
                                },
                            }
                        },
                    }
                },
            }
        },
        Expr::ListComp(_, iterable, _, _) => {
            let (s1, r) = eval_expr_spec(st, *iterable);
            match r {
                Err(m) => (s1, Err(m)),
                Ok(v) => match iterable_items(s1, v) {
                    Err(m) => (s1, Err(m)),
                    Ok((s2, items)) => {
                        let (s3, rs) = comp_spec(s2, e, items, items.len() as int);
                        match rs {
                            Err(m) => (s3, Err(m)),
                            Ok(refs) => alloc_spec(s3, RtView::List(refs)),
                        }
                    },
                }
            }
        },
        Expr::Len(x) => {
            let (s1, rx) = eval_expr_spec(st, *x);
            match rx {
                Err(m) => (s1, Err(m)),
                Ok(a) => len_spec(s1, a),
            }
        },
        Expr::Neg(x) => {
            let (s1, rx) = eval_expr_spec(st, *x);
            match rx {
                Err(m) => (s1, Err(m)),
                Ok(a) => unary_step(s1, a, 0),
            }
        },
        Expr::Pos(x) => {
            let (s1, rx) = eval_expr_spec(st, *x);
            match rx {
                Err(m) => (s1, Err(m)),
                Ok(a) => unary_step(s1, a, 1),
            }
        },
        Expr::Invert(x) => {
            let (s1, rx) = eval_expr_spec(st, *x);
            match rx {
                Err(m) => (s1, Err(m)),
                Ok(a) => unary_step(s1, a, 2),
            }
        },
        Expr::ListOf(x) => {
            let (s1, rx) = eval_expr_spec(st, *x);
            match rx {
                Err(m) => (s1, Err(m)),
                Ok(a) => list_of_spec(s1, a),
            }
        },
        Expr::Index(l, i) => {
            let (s1, rl) = eval_expr_spec(st, *l);
            match rl {
                Err(m) => (s1, Err(m)),
                Ok(a) => {
                    let (s2, ri) = eval_expr_spec(s1, *i);
                    match ri {
                        Err(m) => (s2, Err(m)),
                        Ok(b) => index_spec(s2, a, b),
                    }
                },
            }
        },
    }
}

/// The error for a slice that, going backwards from an explicit start at or
/// past the end, would begin outside the sequence.
pub open spec fn slice_start_message() -> Seq<char> {
    "slice start out of range"@
}

/// The positions a slice of a sequence of `len` items visits, or its error.
pub open spec fn slice_plan(len: int, start: Option<i64>, stop: Option<i64>, step: i64) -> Result<Seq<int>, Seq<char>> {
    if len > i64::MAX || slice_reads_past_end(len, start, stop, step as int) {
        Err(slice_start_message())
    } else if slice_overflows(len, start, stop, step as int) {
        Err("slice step overflow"@)
    } else {
        Ok(slice_positions_spec(len, start, stop, step as int))
    }
}

/// `target[start:stop:step]` on the value at `t`, the step not zero: a new
/// list of the items visited (shared) for a list, of new integers for a
/// range, a new string of the characters visited for a string.
pub open spec fn slice_spec(st: StateView, t: usize, start: Option<i64>, stop: Option<i64>, step: i64) -> (StateView, Result<usize, Seq<char>>) {
    match st.heap[t as int] {
        RtView::List(items) => match slice_plan(items.len() as int, start, stop, step) {
            Err(m) => (st, Err(m)),
            Ok(ps) => alloc_spec(st, RtView::List(Seq::new(ps.len(), |i: int| items[ps[i]]))),
        },
        RtView::Range(a, b, c) => match iterable_items(st, t) {
            Ok((grown, items)) => match slice_plan(items.len() as int, start, stop, step) {
                Err(m) => (grown, Err(m)),
                Ok(ps) => alloc_spec(grown, RtView::List(Seq::new(ps.len(), |i: int| items[ps[i]]))),
            },
            Err(m) => (st, Err(m)),
        },
        RtView::Str(text) => match slice_plan(text.len() as int, start, stop, step) {
            Err(m) => (st, Err(m)),
            Ok(ps) => alloc_spec(st, RtView::Str(Seq::new(ps.len(), |i: int| text[ps[i]]))),
        },
        w => (st, Err("slice not supported on "@ + type_text(w))),
    }
}

/// The items a comprehension walks for the value at `v`: a list's items
/// (as they are when the walk starts), or the elements of a range, each a
/// new value; other values cannot be walked.
pub open spec fn iterable_items(st: StateView, v: usize) -> Result<(StateView, Seq<usize>), Seq<char>> {
    match st.heap[v as int] {
        RtView::List(items) => Ok((st, items)),
        RtView::Range(a, b, c) => {
            let values = range_elements(a, b, c);
            let grown = StateView {
                heap: st.heap + Seq::new(values.len(), |i: int| RtView::Int(values[i], true)),
                vars: st.vars,
                finals: st.finals,
                base: st.base,
                final_base: st.final_base,
                output: st.output,
            };
            Ok((grown, Seq::new(values.len(), |i: int| (st.heap.len() + i) as usize)))
        },
        w => Err(type_text(w) + " is not iterable"@),
    }
}

/// The comprehension `e` over the first `n` of `items`: each item is bound
/// to the comprehension's name in a fresh scope, where the condition, if
/// any, decides whether the element is evaluated and kept; the scope is
/// left afterwards, even on an error. Gives the positions of the elements
/// kept, in order.
pub open spec fn comp_spec(st: StateView, e: Expr, items: Seq<usize>, n: int) -> (StateView, Result<Seq<usize>, Seq<char>>)
    decreases e, 0int, n,
{
    if n <= 0 || n > items.len() {
        (st, Ok(Seq::empty()))
    } else {
        let (s1, r) = comp_spec(st, e, items, n - 1);
        match r {
            Err(m) => (s1, Err(m)),
            Ok(acc) => match e {
                Expr::ListComp(name, _, element, condition) => {
                    let inner = declare_spec(enter_scope(s1), name@, items[n - 1]);
                    let (s2, keep) = match condition {
                        None => (inner, Ok(true)),
                        Some(c) => {
                            let (sc, rc) = eval_expr_spec(inner, *c);
                            match rc {
                                Ok(cv) => (sc, Ok(truthy(sc.heap[cv as int]))),
                                Err(m) => (sc, Err(m)),
                            }
                        },
                    };
                    match keep {
                        Err(m) => (leave_scope(s2, s1), Err(m)),
                        Ok(false) => (leave_scope(s2, s1), Ok(acc)),
                        Ok(true) => {
                            let (s3, rv) = eval_expr_spec(s2, *element);
                            match rv {
                                Err(m) => (leave_scope(s3, s1), Err(m)),
                                Ok(x) => (leave_scope(s3, s1), Ok(acc.push(x))),
                            }
                        },
                    }
                },
                _ => (s1, Ok(acc)),
            },
        }
    }
}

/// A unary operator (see `unary_spec`) applied to the value at `a`: `+`
/// gives the operand's own value, the others a new one.
pub open spec fn unary_step(st: StateView, a: usize, op: int) -> (StateView, Result<usize, Seq<char>>) {
    match unary_spec(op, st.heap[a as int]) {
        Err(m) => (st, Err(m)),
        Ok(v) => if op == 1 { (st, Ok(a)) } else { alloc_spec(st, v) },
    }
}

/// Evaluating the first `n` of `items` in order: the state after them and
/// the positions of their values, or the first error.
pub open spec fn eval_items_spec(st: StateView, items: Seq<Expr>, n: int) -> (StateView, Result<Seq<usize>, Seq<char>>)
    decreases items, n, 0int,
{
    if n <= 0 || n > items.len() {
        (st, Ok(Seq::empty()))
    } else {
        let (s1, rs) = eval_items_spec(st, items, n - 1);
        match rs {
            Err(m) => (s1, Err(m)),
            Ok(refs) => {
                let (s2, r) = eval_expr_spec(s1, items[n - 1]);
                match r {
                    Err(m) => (s2, Err(m)),
                    Ok(v) => (s2, Ok(refs.push(v))),
                }
            },
        }
    }
}

/// What `var_index` finds is a binding of the name.
proof fn lemma_var_index_is(vars: Seq<(Seq<char>, usize)>, name: Seq<char>)
    ensures
        var_index(vars, name) matches Some(i) ==> 0 <= i < vars.len() && vars[i].0 == name,
    decreases vars.len(),
{
    if vars.len() > 0 {
        lemma_var_index_is(vars.drop_last(), name);
    }
}

/// The innermost binding of `name`, by position.
fn find_var(state: &EvalState, name: &String) -> (r: Option<usize>)
    ensures
        match r {
            Some(i) => var_index(state@.vars, name@) == Some(i as int) && i < state.vars@.len(),
            None => var_index(state@.vars, name@) is None,
        },
{
    let ghost vars = state@.vars;
    let mut i: usize = state.vars.len();
    proof {
        assert(vars.take(i as int) =~= vars);
    }
    while i > 0
        invariant
            vars == state@.vars,
            i <= state.vars@.len(),
            var_index(vars, name@) == var_index(vars.take(i as int), name@),
        decreases i,
    {
        proof {
            assert(vars.take(i as int).drop_last() =~= vars.take(i - 1));
            assert(vars[i - 1] == (state.vars@[i - 1].0@, state.vars@[i - 1].1));
        }
        if state.vars[i - 1].0 == *name {
            return Some(i - 1);
        }
        i -= 1;
    }
    None
}

/// Adds `v` to the arena.
fn allocate(state: &mut EvalState, v: RtValue) -> (r: usize)
    requires
        state_wf(old(state)@),
        match v@ {
            RtView::List(items) => forall|k: int| 0 <= k < items.len() ==> #[trigger] items[k] < old(state)@.heap.len(),
            _ => true,
        },
    ensures
        final(state).in_loop == old(state).in_loop,
        (final(state)@, Ok::<usize, Seq<char>>(r)) == alloc_spec(old(state)@, v@),
        state_wf(final(state)@),
        r < final(state)@.heap.len(),
{
    let r = state.heap.len();
    let ghost vv = v@;
    state.heap.push(v);
    proof {
        assert(state@.heap =~= old(state)@.heap.push(vv));
        assert(state@.vars =~= old(state)@.vars);
        assert forall|c: int| 0 <= c < state@.heap.len() implies match #[trigger] state@.heap[c] {
            RtView::List(items) => forall|k: int| 0 <= k < items.len() ==> #[trigger] items[k] < state@.heap.len(),
            _ => true,
        } by {
            if c < old(state)@.heap.len() {
                assert(state@.heap[c] == old(state)@.heap[c]);
            }
        }
    }
    r
}

/// Binds `name` to the value at `r`.
fn assign(state: &mut EvalState, name: &String, r: usize)
    requires
        state_wf(old(state)@),
        r < old(state)@.heap.len(),
    ensures
        final(state).in_loop == old(state).in_loop,
        final(state)@ == assign_spec(old(state)@, name@, r),
        state_wf(final(state)@),
{
    proof {
        lemma_var_index_is(state@.vars, name@);
    }
    match find_var(state, name) {
        Some(i) => {
            state.vars.set(i, (name.clone(), r));
            proof {
                assert(state@.vars =~= old(state)@.vars.update(i as int, (name@, r)));
                assert(state@.heap =~= old(state)@.heap);
            }
        },
        None => {
            state.vars.push((name.clone(), r));
            proof {
                assert(state@.vars =~= old(state)@.vars.push((name@, r)));
                assert(state@.heap =~= old(state)@.heap);
            }
        },
    }
}

/// Binds `name` to the value at `r` in the innermost scope.
fn declare(state: &mut EvalState, name: &String, r: usize)
    requires
        state_wf(old(state)@),
        r < old(state)@.heap.len(),
    ensures
        final(state).in_loop == old(state).in_loop,
        final(state)@ == declare_spec(old(state)@, name@, r),
        state_wf(final(state)@),
{
    proof {
        lemma_var_index_is(state@.vars, name@);
    }
    match find_var(state, name) {
        Some(i) if i >= state.base => {
            state.vars.set(i, (name.clone(), r));
            proof {
                assert(state@.vars =~= old(state)@.vars.update(i as int, (name@, r)));
                assert(state@.heap =~= old(state)@.heap);
                assert(state@.finals =~= old(state)@.finals);
            }
        },
        _ => {
            state.vars.push((name.clone(), r));
            proof {
                assert(state@.vars =~= old(state)@.vars.push((name@, r)));
                assert(state@.heap =~= old(state)@.heap);
                assert(state@.finals =~= old(state)@.finals);
            }
        },
    }
}

/// Marks `name` final in the innermost scope.
fn mark_final(state: &mut EvalState, name: &String)
    requires
        state_wf(old(state)@),
    ensures
        final(state).in_loop == old(state).in_loop,
        final(state)@ == mark_final_spec(old(state)@, name@),
        state_wf(final(state)@),
{
    state.finals.push(name.clone());
    proof {
        assert(state@.finals =~= old(state)@.finals.push(name@));
        assert(state@.heap =~= old(state)@.heap);
        assert(state@.vars =~= old(state)@.vars);
    }
}

/// Whether `name` is marked final in some scope.
fn is_final(state: &EvalState, name: &String) -> (r: bool)
    ensures
        r == is_final_name(state@, name@),
{
    let mut i: usize = 0;
    while i < state.finals.len()
        invariant
            i <= state.finals@.len(),
            forall|j: int| 0 <= j < i ==> state@.finals[j] != name@,
        decreases state.finals.len() - i,
    {
        if state.finals[i] == *name {
            proof {
                assert(state@.finals[i as int] == name@);
            }
            return true;
        }
        i += 1;
    }
    false
}

/// `del name`, as `delete_spec` says.
fn delete_name(state: &mut EvalState, name: &String) -> (r: Result<Flow, RuntimeError>)
    requires
        state_wf(old(state)@),
    ensures
        final(state).in_loop == old(state).in_loop,
        state_wf(final(state)@),
        old(state)@.heap == final(state)@.heap,
        (final(state)@, result_view(r)) == delete_spec(old(state)@, name@),
{
    let ghost st = state@;
    let ghost all = st.finals;
    let fb = state.final_base;
    let mut kept: Vec<String> = Vec::new();
    let mut i: usize = 0;
    while i < state.finals.len()
        invariant
            st == old(state)@,
            state@ == st,
            state.in_loop == old(state).in_loop,
            state.base == old(state).base,
            all == st.finals,
            fb == st.final_base,
            fb <= all.len(),
            i <= all.len(),
            kept@.map_values(|f: String| f@) == (if i <= fb { all.take(i as int) } else {
                all.take(fb as int) + without_name(all.subrange(fb as int, i as int), name@)
            }),
        decreases state.finals.len() - i,
    {
        let ghost before = kept@.map_values(|f: String| f@);
        proof {
            assert(all[i as int] == state.finals@[i as int]@);
            assert(all.take(i + 1) =~= all.take(i as int).push(all[i as int]));
            if i >= fb {
                assert(all.subrange(fb as int, i + 1).drop_last() =~= all.subrange(fb as int, i as int));
            }
        }
        if i < fb || state.finals[i] != *name {
            kept.push(state.finals[i].clone());
            proof {
                assert(kept@.map_values(|f: String| f@) =~= before.push(all[i as int]));
            }
        }
        proof {
            if i == fb {
                assert(all.subrange(fb as int, i + 1).drop_last() =~= Seq::<Seq<char>>::empty());
                assert(without_name(Seq::<Seq<char>>::empty(), name@) =~= Seq::<Seq<char>>::empty());
                assert(all.take(fb as int) + Seq::<Seq<char>>::empty() =~= all.take(fb as int));
            }
            if i >= fb {
                let sub = all.subrange(fb as int, i + 1);
                assert(sub.last() == all[i as int]);
                assert(all.take(fb as int) + without_name(sub, name@) =~= (all.take(fb as int) + without_name(sub.drop_last(), name@)) + (if all[i as int] == name@ { Seq::empty() } else { seq![all[i as int]] }));
            }
            assert(kept@.map_values(|f: String| f@) =~= (if i + 1 <= fb { all.take(i + 1) } else {
                all.take(fb as int) + without_name(all.subrange(fb as int, i + 1), name@)
            }));
        }
        i += 1;
    }
    proof {
        assert(all.subrange(fb as int, all.len() as int) =~= all.skip(fb as int));
        if all.len() <= fb {
            assert(all.skip(fb as int) =~= Seq::<Seq<char>>::empty());
            assert(without_name(Seq::<Seq<char>>::empty(), name@) =~= Seq::<Seq<char>>::empty());
            assert(all.take(i as int) =~= all.take(fb as int) + Seq::<Seq<char>>::empty());
        }
        lemma_var_index_is(st.vars, name@);
        assert(state.in_loop == old(state).in_loop);
    }
    state.finals = kept;
    proof {
        assert(state.in_loop == old(state).in_loop);
        assert(state@.vars =~= st.vars);
        assert(state@.heap =~= st.heap);
    }
    let found = find_var(state, name);
    let local: Option<usize> = match found {
        Some(i) => if i >= state.base { Some(i) } else { None },
        None => None,
    };
    match local {
        Some(i) => {
            state.vars.remove(i);
            proof {
                assert(state@.vars =~= st.vars.remove(i as int));
                assert(state@.heap =~= st.heap);
            }
            Ok(Flow::Normal)
        },
        _ => {
            let mut message = String::from_str("cannot delete undefined variable '");
            message.append(name.as_str());
            message.append("'");
            Err(RuntimeError { message })
        },
    }
}

/// The arena position that names a value.
pub type ValueRef = usize;

/// A run's result as the semantics writes it: an error by its message.
pub open spec fn result_view<T>(r: Result<T, RuntimeError>) -> Result<T, Seq<char>> {
    match r {
        Ok(v) => Ok(v),
        Err(e) => Err(e.message@),
    }
}

/// Whether a value counts as true.
fn value_truthy(v: &RtValue) -> (r: bool)
    ensures
        r == truthy(v@),
{
    match v {
        RtValue::Int(n) => is_truthy(n),
        RtValue::Bool(b) => *b,
        RtValue::Str(s) => s.as_str().unicode_len() > 0,
        RtValue::NoneValue => false,
        RtValue::List(items) => items.len() > 0,
        RtValue::Range(a, b, c) => range_is_truthy(*a, *b, *c),
    }
}

/// The type name of a value.
pub fn value_type(v: &RtValue) -> (r: String)
    ensures
        r@ == type_text(v@),
{
    match v {
        RtValue::Int(_) => String::from_str("int"),
        RtValue::Bool(_) => String::from_str("bool"),
        RtValue::Str(_) => String::from_str("str"),
        RtValue::NoneValue => String::from_str("none"),
        RtValue::List(_) => String::from_str("list"),
        RtValue::Range(_, _, _) => String::from_str("range"),
    }
}

/// The text of an operator.
fn op_name(op: BinOp) -> (r: &'static str)
    ensures
        r@ == op_text(op),
{
    match op {
        BinOp::Add => "+",
        BinOp::Sub => "-",
        BinOp::Mul => "*",
        BinOp::Eq => "==",
        BinOp::NotEq => "!=",
        BinOp::Lt => "<",
        BinOp::Le => "<=",
        BinOp::Gt => ">",
        BinOp::Ge => ">=",
        BinOp::And => "and",
        BinOp::Or => "or",
        BinOp::In => "in",
        BinOp::NotIn => "not in",
        BinOp::FloorDiv => "//",
        BinOp::Mod => "%",
        BinOp::BitAnd => "&",
        BinOp::BitOr => "|",
        BinOp::BitXor => "^",
        BinOp::Shl => "<<",
        BinOp::Shr => ">>",
    }
}

/// The items of `x` followed by those of `y`.
fn concat_refs(x: &Vec<usize>, y: &Vec<usize>) -> (r: Vec<usize>)
    ensures
        r@ == x@ + y@,
{
    let mut r: Vec<usize> = Vec::new();
    let mut i: usize = 0;
    while i < x.len()
        invariant
            i <= x.len(),
            r@ == x@.take(i as int),
        decreases x.len() - i,
    {
        proof {
            assert(x@.take(i + 1) =~= x@.take(i as int).push(x@[i as int]));
        }
        r.push(x[i]);
        i += 1;
    }
    let mut j: usize = 0;
    while j < y.len()
        invariant
            j <= y.len(),
            r@ == x@ + y@.take(j as int),
        decreases y.len() - j,
    {
        proof {
            assert(x@ + y@.take(j + 1) =~= (x@ + y@.take(j as int)).push(y@[j as int]));
        }
        r.push(y[j]);
        j += 1;
    }
    proof {
        assert(y@.take(y.len() as int) =~= y@);
    }
    r
}

/// `a == b` between arena values, `depth` levels into lists.
fn heap_eq(state: &EvalState, a: usize, b: usize, depth: usize) -> (r: bool)
    requires
        state_wf(state@),
        a < state@.heap.len(),
        b < state@.heap.len(),
    ensures
        r == heap_equal(state@.heap, a, b, depth as nat),
    decreases depth,
{
    if depth == 0 {
        return false;
    }
    proof {
        assert(state@.heap[a as int] == state.heap@[a as int]@);
        assert(state@.heap[b as int] == state.heap@[b as int]@);
    }
    match (&state.heap[a], &state.heap[b]) {
        (RtValue::Int(x), RtValue::Int(y)) => equals(x, y),
        (RtValue::Bool(x), RtValue::Bool(y)) => *x == *y,
        (RtValue::Str(x), RtValue::Str(y)) => *x == *y,
        (RtValue::NoneValue, RtValue::NoneValue) => true,
        (RtValue::Range(a, b, c), RtValue::Range(x, y, z)) => *a == *x && *b == *y && *c == *z,
        (RtValue::List(xs), RtValue::List(ys)) => {
            if xs.len() != ys.len() {
                return false;
            }
            let mut k: usize = 0;
            while k < xs.len()
                invariant
                    state_wf(state@),
                    depth > 0,
                    a < state@.heap.len(),
                    b < state@.heap.len(),
                    xs@.len() == ys@.len(),
                    k <= xs@.len(),
                    state@.heap[a as int] == RtView::List(xs@),
                    state@.heap[b as int] == RtView::List(ys@),
                    forall|j: int| 0 <= j < k ==> heap_equal(state@.heap, xs@[j], ys@[j], (depth - 1) as nat),
                decreases xs.len() - k,
            {
                proof {
                    let ha = state@.heap[a as int];
                    let hb = state@.heap[b as int];
                    assert(ha matches RtView::List(items) && items[k as int] < state@.heap.len());
                    assert(hb matches RtView::List(items) && items[k as int] < state@.heap.len());
                }
                if !heap_eq(state, xs[k], ys[k], depth - 1) {
                    return false;
                }
                k += 1;
            }
            true
        },
        _ => false,
    }
}

/// The items of `x`, `count` times over (none for a negative count).
fn repeat_refs(x: &Vec<usize>, count: i64) -> (r: Vec<usize>)
    ensures
        r@ == repeat_seq(x@, repeat_count(count as int)),
{
    let times: u64 = if count < 0 { 0 } else { count as u64 };
    let mut r: Vec<usize> = Vec::new();
    let mut done: u64 = 0;
    while done < times
        invariant
            done <= times,
            times == repeat_count(count as int),
            r@ == repeat_seq(x@, done as nat),
        decreases times - done,
    {
        let more = concat_refs(&r, x);
        r = more;
        done += 1;
    }
    r
}

/// Every item of a repetition is an item of what was repeated.
proof fn lemma_repeat_below(x: Seq<usize>, n: nat, bound: nat)
    requires
        forall|k: int| 0 <= k < x.len() ==> #[trigger] x[k] < bound,
    ensures
        forall|k: int| 0 <= k < repeat_seq(x, n).len() ==> #[trigger] repeat_seq(x, n)[k] < bound,
    decreases n,
{
    if n > 0 {
        lemma_repeat_below(x, (n - 1) as nat, bound);
        let before = repeat_seq(x, (n - 1) as nat);
        assert forall|k: int| 0 <= k < repeat_seq(x, n).len() implies #[trigger] repeat_seq(x, n)[k] < bound by {
            if k < before.len() {
                assert(repeat_seq(x, n)[k] == before[k]);
            } else {
                assert(repeat_seq(x, n)[k] == x[k - before.len()]);
            }
        }
    }
}

/// The error naming an operator and the types of its operands when no
/// method answers it.
fn dispatch_failure(op: BinOp, va: &RtValue, vb: &RtValue) -> (e: RuntimeError)
    ensures
        e.message@ == no_dispatch_message(op_text(op), seq![type_text(va@), type_text(vb@)]),
{
    let mut names: Vec<String> = Vec::new();
    names.push(value_type(va));
    names.push(value_type(vb));
    proof {
        assert(arg_names(names@) =~= seq![type_text(va@), type_text(vb@)]);
    }
    no_dispatch_error(op_name(op), names.as_slice())
}

/// The error for operands an operator does not take.
fn unsupported_operands(op: BinOp) -> (e: RuntimeError)
    ensures
        e.message@ == "unsupported operands for "@ + op_text(op),
{
    let mut message = String::from_str("unsupported operands for ");
    message.append(op_name(op));
    RuntimeError { message }
}

/// `//`, `%`, the bitwise operators and the shifts, as `integer_op_spec`
/// says.
fn integer_op(op: BinOp, va: &RtValue, vb: &RtValue) -> (r: Result<RtValue, RuntimeError>)
    requires
        op is FloorDiv || op is Mod || op is BitAnd || op is BitOr || op is BitXor || op is Shl || op is Shr,
    ensures
        match (r, integer_op_spec(op, va@, vb@)) {
            (Ok(v), Ok(w)) => v@ == w,
            (Err(e), Err(m)) => e.message@ == m,
            _ => false,
        },
{
    match (va, vb) {
        (RtValue::Int(x), RtValue::Int(y)) => {
            let both_small = match (x, y) {
                (Integer::Int(_), Integer::Int(_)) => true,
                _ => false,
            };
            let res = match op {
                BinOp::FloorDiv => floor_divide(x, y),
                BinOp::Mod => modulo(x, y),
                _ => {
                    if !both_small {
                        return Err(unsupported_operands(op));
                    }
                    match op {
                        BinOp::BitAnd => bit_and(x, y),
                        BinOp::BitOr => bit_or(x, y),
                        BinOp::BitXor => bit_xor(x, y),
                        BinOp::Shl => shift_left(x, y),
                        _ => shift_right(x, y),
                    }
                },
            };
            match res {
                Ok(v) => Ok(RtValue::Int(v)),
                Err(e) => Err(e),
            }
        },
        (RtValue::Bool(p), RtValue::Bool(q)) => match op {
            BinOp::BitAnd => Ok(RtValue::Bool(*p && *q)),
            BinOp::BitOr => Ok(RtValue::Bool(*p || *q)),
            BinOp::BitXor => Ok(RtValue::Bool(*p != *q)),
            _ => Err(unsupported_operands(op)),
        },
        _ => Err(unsupported_operands(op)),
    }
}

/// Unary `-` (`op` 0), `+` (1) or `~` (2) of the value at `a`.
fn unary_value(state: &mut EvalState, a: usize, op: u8) -> (r: Result<ValueRef, RuntimeError>)
    requires
        state_wf(old(state)@),
        a < old(state)@.heap.len(),
        op <= 2,
    ensures
        final(state).in_loop == old(state).in_loop,
        state_wf(final(state)@),
        old(state)@.heap.len() <= final(state)@.heap.len(),
        (final(state)@, result_view(r)) == unary_step(old(state)@, a, op as int),
        r matches Ok(i) ==> i < final(state)@.heap.len(),
{
    proof {
        assert(state@.heap[a as int] == state.heap@[a as int]@);
    }
    let made: Result<Option<Integer>, RuntimeError> = match &state.heap[a] {
        RtValue::Int(x) => if op == 0 {
            Ok(Some(negate(x)))
        } else if op == 1 {
            Ok(None)
        } else {
            Ok(Some(invert(x)))
        },
        _ => Err(runtime_error(if op == 0 {
            "unsupported operand for unary -"
        } else if op == 1 {
            "unsupported operand for unary +"
        } else {
            "unsupported operand for ~"
        })),
    };
    match made {
        Ok(Some(n)) => Ok(allocate(state, RtValue::Int(n))),
        Ok(None) => Ok(a),
        Err(e) => Err(e),
    }
}

/// What an arithmetic or ordering operator makes of two values.
fn operate(op: BinOp, va: &RtValue, vb: &RtValue) -> (r: Result<RtValue, RuntimeError>)
    requires
        !(op is And || op is Or || op is Eq || op is NotEq || op is In || op is NotIn),
    ensures
        match (r, operate_spec(op, va@, vb@)) {
            (Ok(v), Ok(w)) => v@ == w,
            (Err(e), Err(m)) => e.message@ == m,
            _ => false,
        },
{
    match op {
        BinOp::Add => match (va, vb) {
            (RtValue::Int(x), RtValue::Int(y)) => Ok(RtValue::Int(crate::integer::add(x, y))),
            (RtValue::Str(x), RtValue::Str(y)) => {
                let mut joined = x.clone();
                joined.append(y.as_str());
                Ok(RtValue::Str(joined))
            },
            (RtValue::List(x), RtValue::List(y)) => Ok(RtValue::List(concat_refs(x, y))),
            _ => Err(dispatch_failure(op, va, vb)),
        },
        BinOp::Sub => match (va, vb) {
            (RtValue::Int(x), RtValue::Int(y)) => Ok(RtValue::Int(crate::integer::sub(x, y))),
            _ => Err(dispatch_failure(op, va, vb)),
        },
        BinOp::Mul => match (va, vb) {
            (RtValue::Int(x), RtValue::Int(y)) => Ok(RtValue::Int(crate::integer::mul(x, y))),
            (RtValue::Str(x), RtValue::Int(Integer::Int(n))) => Ok(RtValue::Str(repeat_str(x.as_str(), *n))),
            (RtValue::Str(_), RtValue::Int(Integer::Big(_))) => Err(runtime_error("unsupported operands for *")),
            (RtValue::List(x), RtValue::Int(Integer::Int(n))) => Ok(RtValue::List(repeat_refs(x, *n))),
            (RtValue::Int(Integer::Int(n)), RtValue::List(x)) => Ok(RtValue::List(repeat_refs(x, *n))),
            _ => Err(dispatch_failure(op, va, vb)),
        },
        BinOp::FloorDiv | BinOp::Mod | BinOp::BitAnd | BinOp::BitOr | BinOp::BitXor | BinOp::Shl | BinOp::Shr =>
            integer_op(op, va, vb),
        _ => match (va, vb) {
            (RtValue::Int(x), RtValue::Int(y)) => {
                let holds = match op {
                    BinOp::Lt => less_than(x, y),
                    BinOp::Le => less_equal(x, y),
                    BinOp::Gt => greater_than(x, y),
                    _ => greater_equal(x, y),
                };
                Ok(RtValue::Bool(holds))
            },
            (RtValue::Str(x), RtValue::Str(y)) => {
                let order = text_order(x, y);
                Ok(RtValue::Bool(match op {
                    BinOp::Lt => order == -1,
                    BinOp::Le => order == -1 || order == 0,
                    BinOp::Gt => order != -1 && order != 0,
                    _ => order != -1,
                }))
            },
            _ => {
                let mut message = String::from_str("unsupported operands for ");
                message.append(op_name(op));
                Err(RuntimeError { message })
            },
        },
    }
}

/// Whether `sub` occurs in `s`.
fn contains_text(s: &String, sub: &String) -> (r: bool)
    ensures
        r == text_contains(s@, sub@),
{
    let text = s.as_str();
    let n = text.unicode_len();
    let mut i: usize = 0;
    loop
        invariant
            n == s@.len(),
            text@ == s@,
            i <= n,
            forall|j: int| 0 <= j < i ==> !sub@.is_prefix_of(#[trigger] s@.skip(j)),
        decreases n - i,
    {
        let rest = text.substring_char(i, n);
        proof {
            assert(rest@ =~= s@.skip(i as int));
        }
        if starts_with(rest, sub.as_str()) {
            return true;
        }
        if i == n {
            return false;
        }
        i += 1;
    }
}

/// `a in b`, or with `negated`, `a not in b`.
fn membership(state: &mut EvalState, a: usize, b: usize, negated: bool) -> (r: Result<ValueRef, RuntimeError>)
    requires
        state_wf(old(state)@),
        a < old(state)@.heap.len(),
        b < old(state)@.heap.len(),
    ensures
        final(state).in_loop == old(state).in_loop,
        state_wf(final(state)@),
        old(state)@.heap.len() <= final(state)@.heap.len(),
        (final(state)@, result_view(r)) == membership_spec(old(state)@, a, b, negated),
        r matches Ok(i) ==> i < final(state)@.heap.len(),
{
    proof {
        assert(state@.heap[a as int] == state.heap@[a as int]@);
        assert(state@.heap[b as int] == state.heap@[b as int]@);
    }
    let ghost st = state@;
    let found: Option<bool> = match &state.heap[b] {
        RtValue::List(items) => {
            let depth = state.heap.len();
            let mut k: usize = 0;
            let mut hit = false;
            while k < items.len()
                invariant
                    state@ == st,
                    state_wf(st),
                    a < st.heap.len(),
                    b < st.heap.len(),
                    depth == st.heap.len(),
                    st.heap[b as int] == RtView::List(items@),
                    k <= items@.len(),
                    hit == exists|t: int| 0 <= t < k && values_eq(st.heap, a, #[trigger] items@[t]),
                decreases items.len() - k,
            {
                proof {
                    let hb = st.heap[b as int];
                    assert(hb matches RtView::List(xs) && xs[k as int] < st.heap.len());
                }
                if heap_eq(state, a, items[k], depth) {
                    hit = true;
                }
                k += 1;
            }
            Some(hit)
        },
        RtValue::Str(t) => match &state.heap[a] {
            RtValue::Str(x) => Some(contains_text(t, x)),
            _ => Some(false),
        },
        RtValue::Range(start, stop, step) => match small_int(&state.heap[a]) {
            Some(x) => Some(in_range(*start, *stop, *step, x)),
            None => Some(false),
        },
        _ => None,
    };
    proof {
        match st.heap[b as int] {
            RtView::List(items) => {
                assert(found == Some(exists|k: int| 0 <= k < items.len() && values_eq(st.heap, a, #[trigger] items[k])));
            },
            RtView::Str(t) => {
                assert(found == Some(st.heap[a as int] matches RtView::Str(x) && text_contains(t, x)));
            },
            _ => {},
        }
    }
    match found {
        Some(hit) => Ok(allocate(state, RtValue::Bool(negated != hit))),
        None => {
            let mut message = String::from_str("'");
            message.append(if negated { "not in" } else { "in" });
            message.append("' operator not supported for ");
            let name = value_type(&state.heap[b]);
            message.append(name.as_str());
            Err(RuntimeError { message })
        },
    }
}

/// Applies a binary operator other than `and` and `or` to the values at
/// `a` and `b`.
fn binary(state: &mut EvalState, op: BinOp, a: usize, b: usize) -> (r: Result<ValueRef, RuntimeError>)
    requires
        !(op is And || op is Or),
        state_wf(old(state)@),
        a < old(state)@.heap.len(),
        b < old(state)@.heap.len(),
    ensures
        final(state).in_loop == old(state).in_loop,
        state_wf(final(state)@),
        old(state)@.heap.len() <= final(state)@.heap.len(),
        (final(state)@, result_view(r)) == binary_spec(old(state)@, op, a, b),
        r matches Ok(i) ==> i < final(state)@.heap.len(),
{
    proof {
        assert(state@.heap[a as int] == state.heap@[a as int]@);
        assert(state@.heap[b as int] == state.heap@[b as int]@);
    }
    match op {
        BinOp::Eq => {
            let depth = state.heap.len();
            let same = heap_eq(state, a, b, depth);
            Ok(allocate(state, RtValue::Bool(same)))
        },
        BinOp::NotEq => {
            let depth = state.heap.len();
            let same = heap_eq(state, a, b, depth);
            Ok(allocate(state, RtValue::Bool(!same)))
        },
        BinOp::In => membership(state, a, b, false),
        BinOp::NotIn => membership(state, a, b, true),
        _ => {
            let ghost st = state@;
            match operate(op, &state.heap[a], &state.heap[b]) {
                Ok(v) => {
                    proof {
                        if let RtView::List(items) = v@ {
                            let ha = st.heap[a as int];
                            let hb = st.heap[b as int];
                            if let RtView::List(x) = ha {
                                if let RtView::Int(n, _) = hb {
                                    lemma_repeat_below(x, repeat_count(n), st.heap.len());
                                }
                            }
                            if let RtView::List(x) = hb {
                                lemma_repeat_below(x, repeat_count(ha->Int_0), st.heap.len());
                            }
                            assert forall|k: int| 0 <= k < items.len() implies #[trigger] items[k] < st.heap.len() by {
                                if let (RtView::List(x), RtView::List(y)) = (ha, hb) {
                                    if k < x.len() {
                                        assert(items[k] == x[k]);
                                    } else {
                                        assert(items[k] == y[k - x.len()]);
                                    }
                                }
                            }
                        }
                    }
                    Ok(allocate(state, v))
                },
                Err(e) => Err(e),
            }
        },
    }
}

/// The error for an index a sequence does not have.
fn index_failure(i: i64) -> (e: RuntimeError)
    ensures
        e.message@ == index_error(i as int),
{
    let mut message = String::from_str("index ");
    append_signed(&mut message, i);
    message.append(" out of range");
    RuntimeError { message }
}

/// The position an index names in a sequence of `len` items, when it has
/// one.
fn index_position(i: i64, len: usize) -> (r: Option<usize>)
    ensures
        match r {
            Some(p) => 0 <= pop_position(i as int, len as int) < len && p == pop_position(i as int, len as int),
            None => !(0 <= pop_position(i as int, len as int) < len),
        },
{
    let p: i128 = if i < 0 { len as i128 + i as i128 } else { i as i128 };
    if 0 <= p && p < len as i128 {
        Some(p as usize)
    } else {
        None
    }
}

/// The item of a list at index `i`.
fn index_list(items: &Vec<usize>, i: i64) -> (r: Result<usize, RuntimeError>)
    ensures
        match r {
            Ok(v) => {
                let p = pop_position(i as int, items@.len() as int);
                0 <= p < items@.len() && v == items@[p]
            },
            Err(e) => !(0 <= pop_position(i as int, items@.len() as int) < items@.len())
                && e.message@ == index_error(i as int),
        },
{
    match index_position(i, items.len()) {
        Some(p) => Ok(items[p]),
        None => Err(index_failure(i)),
    }
}

/// The one-character string at index `i` of `s`.
fn index_string(s: &String, i: i64) -> (r: Result<String, RuntimeError>)
    ensures
        match r {
            Ok(piece) => {
                let p = pop_position(i as int, s@.len() as int);
                0 <= p < s@.len() && piece@ == seq![s@[p]]
            },
            Err(e) => !(0 <= pop_position(i as int, s@.len() as int) < s@.len())
                && e.message@ == index_error(i as int),
        },
{
    let text = s.as_str();
    match index_position(i, text.unicode_len()) {
        Some(p) => {
            let piece = text.substring_char(p, p + 1);
            proof {
                assert(piece@ =~= seq![s@[p as int]]);
            }
            Ok(String::from_str(piece))
        },
        None => Err(index_failure(i)),
    }
}

/// The error for indexing a value that has no items.
fn not_indexable(v: &RtValue) -> (e: RuntimeError)
    ensures
        e.message@ == "indexing not supported on "@ + type_text(v@),
{
    let mut message = String::from_str("indexing not supported on ");
    let name = value_type(v);
    message.append(name.as_str());
    RuntimeError { message }
}

/// The machine-word integer a value holds, if it is one.
fn small_int(v: &RtValue) -> (r: Option<i64>)
    ensures
        match r {
            Some(i) => v@ == RtView::Int(i as int, true),
            None => !(v@ matches RtView::Int(_, small) && small),
        },
{
    match v {
        RtValue::Int(Integer::Int(i)) => Some(*i),
        _ => None,
    }
}

/// Shows the value at `r` as `shown_text` says.
fn shown(state: &EvalState, r: usize) -> (t: String)
    requires
        state_wf(state@),
        r < state@.heap.len(),
    ensures
        t@ == shown_text(state@.heap, state@.heap[r as int]),
{
    proof {
        assert(state@.heap[r as int] == state.heap@[r as int]@);
    }
    match &state.heap[r] {
        RtValue::Str(t) => t.clone(),
        _ => debug_repr(state, r, state.heap.len()),
    }
}

/// `print(...)` with the argument values at `refs`, as `print_spec` says.
fn print_call(state: &mut EvalState, refs: &Vec<usize>) -> (r: Result<ValueRef, RuntimeError>)
    requires
        state_wf(old(state)@),
        forall|j: int| 0 <= j < refs@.len() ==> #[trigger] refs@[j] < old(state)@.heap.len(),
    ensures
        final(state).in_loop == old(state).in_loop,
        state_wf(final(state)@),
        old(state)@.heap.len() <= final(state)@.heap.len(),
        (final(state)@, result_view(r)) == print_spec(old(state)@, refs@),
        r matches Ok(i) ==> i < final(state)@.heap.len(),
{
    let ghost heap = state@.heap;
    let mut line = String::new();
    let mut k: usize = 0;
    proof {
        assert(line@ =~= print_line(heap, refs@, 0));
    }
    while k < refs.len()
        invariant
            heap == state@.heap,
            state_wf(state@),
            k <= refs@.len(),
            forall|j: int| 0 <= j < refs@.len() ==> #[trigger] refs@[j] < heap.len(),
            line@ == print_line(heap, refs@, k as int),
        decreases refs.len() - k,
    {
        let piece = shown(state, refs[k]);
        if k > 0 {
            line.append(" ");
        }
        line.append(piece.as_str());
        proof {
            if k == 0 {
                assert(line@ =~= print_line(heap, refs@, 1));
            } else {
                assert(line@ =~= print_line(heap, refs@, k + 1));
            }
        }
        k += 1;
    }
    let ghost before = state@;
    state.output.push(line);
    proof {
        assert(state@.output =~= before.output.push(print_line(heap, refs@, refs@.len() as int)));
        assert(state@.heap =~= before.heap);
        assert(state@.vars =~= before.vars);
        assert(state@.finals =~= before.finals);
    }
    Ok(allocate(state, RtValue::NoneValue))
}

/// `range(...)` with the argument values at `refs`, as `range_call_spec`
/// says.
fn range_call(state: &mut EvalState, refs: &Vec<usize>) -> (r: Result<ValueRef, RuntimeError>)
    requires
        state_wf(old(state)@),
        forall|j: int| 0 <= j < refs@.len() ==> #[trigger] refs@[j] < old(state)@.heap.len(),
    ensures
        final(state).in_loop == old(state).in_loop,
        state_wf(final(state)@),
        old(state)@.heap.len() <= final(state)@.heap.len(),
        (final(state)@, result_view(r)) == range_call_spec(old(state)@, refs@),
        r matches Ok(i) ==> i < final(state)@.heap.len(),
{
    let n = refs.len();
    if n == 0 || n > 3 {
        let mut message = String::from_str("range() takes 1 to 3 arguments, got ");
        append_decimal(&mut message, n as u64);
        proof {
            assert(signed_text(n as int) == decimal_text(n as nat));
        }
        return Err(RuntimeError { message });
    }
    proof {
        assert(state@.heap[refs@[0] as int] == state.heap@[refs@[0] as int]@);
        if n >= 2 {
            assert(state@.heap[refs@[1] as int] == state.heap@[refs@[1] as int]@);
        }
        if n == 3 {
            assert(state@.heap[refs@[2] as int] == state.heap@[refs@[2] as int]@);
        }
    }
    let first = small_int(&state.heap[refs[0]]);
    if n == 1 {
        return match first {
            Some(stop) => Ok(allocate(state, RtValue::Range(0, stop, 1))),
            None => Err(runtime_error("range() stop must be an int")),
        };
    }
    let second = small_int(&state.heap[refs[1]]);
    let third = if n == 3 { small_int(&state.heap[refs[2]]) } else { Some(1) };
    match (first, second, third) {
        (Some(start), Some(stop), Some(step)) => {
            if step == 0 {
                Err(runtime_error("range() step cannot be zero"))
            } else {
                Ok(allocate(state, RtValue::Range(start, stop, step)))
            }
        },
        _ => Err(runtime_error("range() arguments must be ints")),
    }
}

/// The `i`th element of `range(start, stop, step)`, a negative index
/// counting from the end.
fn range_item(start: i64, stop: i64, step: i64, i: i64) -> (r: Result<i64, RuntimeError>)
    ensures
        ({
            let values = range_elements(start as int, stop as int, step as int);
            let p = pop_position(i as int, values.len() as int);
            match r {
                Ok(v) => 0 <= p < values.len() && v as int == values[p],
                Err(e) => !(0 <= p < values.len()) && e.message@ == index_error(i as int),
            }
        }),
{
    let values = materialize_range(start, stop, step);
    proof {
        assert(values@.map_values(|x: i64| x as int) =~= range_elements(start as int, stop as int, step as int));
    }
    match index_position(i, values.len()) {
        Some(p) => {
            proof {
                assert(values@[p as int] as int == range_elements(start as int, stop as int, step as int)[p as int]);
            }
            Ok(values[p])
        },
        None => {
            let mut message = String::from_str("index ");
            append_signed(&mut message, i);
            message.append(" out of range");
            Err(RuntimeError { message })
        },
    }
}

/// Shows the value at `r` as `debug_text` says.
fn debug_repr(state: &EvalState, r: usize, depth: usize) -> (t: String)
    requires
        state_wf(state@),
        r < state@.heap.len(),
    ensures
        t@ == debug_text(state@.heap, state@.heap[r as int], depth as nat),
    decreases depth,
{
    proof {
        assert(state@.heap[r as int] == state.heap@[r as int]@);
    }
    match &state.heap[r] {
        RtValue::Int(n) => integer_repr(n),
        RtValue::Bool(b) => if *b { String::from_str("true") } else { String::from_str("false") },
        RtValue::Str(t) => {
            let mut out = String::from_str("\"");
            out.append(t.as_str());
            out.append("\"");
            out
        },
        RtValue::NoneValue => String::from_str("none"),
        RtValue::Range(a, b, c) => {
            let mut out = String::from_str("range(");
            append_signed(&mut out, *a);
            out.append(", ");
            append_signed(&mut out, *b);
            if *c != 1 {
                out.append(", ");
                append_signed(&mut out, *c);
            }
            out.append(")");
            out
        },
        RtValue::List(items) => {
            if depth == 0 {
                return String::from_str("[...]");
            }
            let mut out = String::from_str("[");
            let mut k: usize = 0;
            let ghost heap = state@.heap;
            proof {
                assert(debug_items(heap, items@, 0, (depth - 1) as nat) =~= Seq::<char>::empty());
                assert(out@ =~= "["@ + debug_items(heap, items@, 0, (depth - 1) as nat));
            }
            while k < items.len()
                invariant
                    heap == state@.heap,
                    state_wf(state@),
                    depth > 0,
                    r < heap.len(),
                    heap[r as int] == RtView::List(items@),
                    k <= items@.len(),
                    out@ == "["@ + debug_items(heap, items@, k as int, (depth - 1) as nat),
                decreases items.len() - k,
            {
                proof {
                    let hr = heap[r as int];
                    assert(hr matches RtView::List(xs) && xs[k as int] < heap.len());
                }
                let piece = debug_repr(state, items[k], depth - 1);
                if k > 0 {
                    out.append(", ");
                }
                out.append(piece.as_str());
                proof {
                    if k == 0 {
                        assert(debug_items(heap, items@, 1, (depth - 1) as nat) == debug_text(heap, heap[items@[0] as int], (depth - 1) as nat));
                        assert(out@ =~= "["@ + debug_items(heap, items@, 1, (depth - 1) as nat));
                    } else {
                        assert(out@ =~= "["@ + debug_items(heap, items@, k + 1, (depth - 1) as nat));
                    }
                }
                k += 1;
            }
            out.append("]");
            out
        },
    }
}

/// Clamps an explicit slice bound.
fn clamp_index(bound: i64, len: i64) -> (r: i64)
    requires
        len >= 0,
    ensures
        r as int == clamp_bound(bound as int, len as int),
{
    if bound < 0 {
        if len + bound > 0 { len + bound } else { 0 }
    } else {
        if bound < len { bound } else { len }
    }
}

/// The positions a slice of `len` items visits, as `slice_plan` says.
fn plan_slice(len: usize, start: Option<i64>, stop: Option<i64>, step: i64) -> (r: Result<Vec<usize>, RuntimeError>)
    requires
        step != 0,
    ensures
        match slice_plan(len as int, start, stop, step) {
            Ok(ps) => r matches Ok(v) && v@.len() == ps.len()
                && forall|i: int| 0 <= i < v@.len() ==> #[trigger] v@[i] as int == ps[i] && v@[i] < len,
            Err(m) => r matches Err(e) && e.message@ == m,
        },
{
    if len as u64 > i64::MAX as u64 {
        return Err(runtime_error("slice start out of range"));
    }
    let n = len as i64;
    let first: i64 = match start {
        Some(x) => clamp_index(x, n),
        None => if step > 0 { 0 } else { n - 1 },
    };
    let end: i64 = match stop {
        Some(x) => clamp_index(x, n),
        None => if step > 0 { n } else { -1 },
    };
    let limit: i64 = if step > 0 {
        if end < n { end } else { n }
    } else {
        if end > -1 { end } else { -1 }
    };
    proof {
        assert(first as int == slice_first(len as int, start, step as int));
        assert(end as int == slice_end(len as int, stop, step as int));
        assert(limit as int == slice_limit(len as int, stop, step as int));
    }
    if step < 0 && first == n && limit < n {
        return Err(runtime_error("slice start out of range"));
    }
    slice_positions(len, start, stop, step)
}

/// `target[start:stop:step]` on the value at `t`, as `slice_spec` says.
fn slice_value(state: &mut EvalState, t: usize, start: Option<i64>, stop: Option<i64>, step: i64) -> (r: Result<ValueRef, RuntimeError>)
    requires
        state_wf(old(state)@),
        t < old(state)@.heap.len(),
        step != 0,
    ensures
        final(state).in_loop == old(state).in_loop,
        state_wf(final(state)@),
        old(state)@.heap.len() <= final(state)@.heap.len(),
        (final(state)@, result_view(r)) == slice_spec(old(state)@, t, start, stop, step),
        r matches Ok(i) ==> i < final(state)@.heap.len(),
{
    proof {
        assert(state@.heap[t as int] == state.heap@[t as int]@);
    }
    let ghost st = state@;
    let kind: u8 = match &state.heap[t] {
        RtValue::List(_) => 0,
        RtValue::Range(_, _, _) => 1,
        RtValue::Str(_) => 2,
        _ => 3,
    };
    if kind == 3 {
        let mut message = String::from_str("slice not supported on ");
        let name = value_type(&state.heap[t]);
        message.append(name.as_str());
        return Err(RuntimeError { message });
    }
    if kind == 2 {
        let text: String = match &state.heap[t] {
            RtValue::Str(x) => x.clone(),
            _ => String::new(),
        };
        let chars = text.as_str();
        let n = chars.unicode_len();
        let ps = match plan_slice(n, start, stop, step) {
            Ok(ps) => ps,
            Err(e) => {
                return Err(e);
            },
        };
        let ghost plan = slice_plan(n as int, start, stop, step)->Ok_0;
        let mut out = String::new();
        let mut i: usize = 0;
        while i < ps.len()
            invariant
                i <= ps@.len(),
                n == text@.len(),
                chars@ == text@,
                ps@.len() == plan.len(),
                forall|j: int| 0 <= j < ps@.len() ==> #[trigger] ps@[j] as int == plan[j] && ps@[j] < n,
                out@ == Seq::new(i as nat, |j: int| text@[plan[j]]),
            decreases ps.len() - i,
        {
            let p = ps[i];
            let piece = chars.substring_char(p, p + 1);
            out.append(piece);
            proof {
                assert(out@ =~= Seq::new((i + 1) as nat, |j: int| text@[plan[j]]));
            }
            i += 1;
        }
        return Ok(allocate(state, RtValue::Str(out)));
    }
    let items: Vec<usize> = if kind == 0 {
        match &state.heap[t] {
            RtValue::List(xs) => {
                let copy = concat_refs(xs, &Vec::new());
                proof {
                    assert(copy@ =~= xs@);
                }
                copy
            },
            _ => Vec::new(),
        }
    } else {
        match walk_items(state, t) {
            Ok(refs) => refs,
            Err(e) => {
                return Err(e);
            },
        }
    };
    let ghost grown = state@;
    proof {
        if kind == 0 {
            let ht = st.heap[t as int];
            assert forall|j: int| 0 <= j < items@.len() implies #[trigger] items@[j] < state@.heap.len() by {
                assert(ht matches RtView::List(xs) && xs[j] < st.heap.len());
            }
        }
    }
    let ps = match plan_slice(items.len(), start, stop, step) {
        Ok(ps) => ps,
        Err(e) => {
            return Err(e);
        },
    };
    let ghost plan = slice_plan(items@.len() as int, start, stop, step)->Ok_0;
    let mut picked: Vec<usize> = Vec::new();
    let mut i: usize = 0;
    while i < ps.len()
        invariant
            i <= ps@.len(),
            ps@.len() == plan.len(),
            forall|j: int| 0 <= j < ps@.len() ==> #[trigger] ps@[j] as int == plan[j] && ps@[j] < items@.len(),
            forall|j: int| 0 <= j < items@.len() ==> #[trigger] items@[j] < state@.heap.len(),
            picked@ == Seq::new(i as nat, |j: int| items@[plan[j]]),
        decreases ps.len() - i,
    {
        picked.push(items[ps[i]]);
        proof {
            assert(picked@ =~= Seq::new((i + 1) as nat, |j: int| items@[plan[j]]));
        }
        i += 1;
    }
    proof {
        assert forall|j: int| 0 <= j < picked@.len() implies #[trigger] picked@[j] < state@.heap.len() by {
            assert(ps@[j] as int == plan[j]);
            assert(ps@[j] < items@.len());
            assert(picked@[j] == items@[ps@[j] as int]);
        }
    }
    Ok(allocate(state, RtValue::List(picked)))
}

/// The items a comprehension walks for the value at `v`, as
/// `iterable_items` says.
fn walk_items(state: &mut EvalState, v: usize) -> (r: Result<Vec<usize>, RuntimeError>)
    requires
        state_wf(old(state)@),
        v < old(state)@.heap.len(),
    ensures
        final(state).in_loop == old(state).in_loop,
        state_wf(final(state)@),
        only_adds(old(state)@, final(state)@),
        match iterable_items(old(state)@, v) {
            Ok((s2, items)) => r matches Ok(xs) && xs@ == items && final(state)@ == s2
                && forall|j: int| 0 <= j < xs@.len() ==> #[trigger] xs@[j] < s2.heap.len(),
            Err(m) => r matches Err(x) && x.message@ == m && final(state)@ == old(state)@,
        },
{
    proof {
        assert(state@.heap[v as int] == state.heap@[v as int]@);
    }
    let ghost st = state@;
    let bounds: Option<(i64, i64, i64)> = match &state.heap[v] {
        RtValue::Range(a, b, c) => Some((*a, *b, *c)),
        _ => None,
    };
    match bounds {
        Some((a, b, c)) => {
            let values = materialize_range(a, b, c);
            let ghost elems = range_elements(a as int, b as int, c as int);
            let start = state.heap.len();
            let mut refs: Vec<usize> = Vec::new();
            let mut i: usize = 0;
            while i < values.len()
                invariant
                    st == old(state)@,
                    state.in_loop == old(state).in_loop,
                    start == st.heap.len(),
                    values@.len() == elems.len(),
                    forall|j: int| 0 <= j < values@.len() ==> values@[j] as int == elems[j],
                    i <= values@.len(),
                    state_wf(state@),
                    state@.vars == st.vars,
                    state@.finals == st.finals,
                    state@.output == st.output,
                    state@.base == st.base,
                    state@.final_base == st.final_base,
                    state@.heap == st.heap + Seq::new(i as nat, |j: int| RtView::Int(elems[j], true)),
                    refs@ == Seq::new(i as nat, |j: int| (st.heap.len() + j) as usize),
                decreases values.len() - i,
            {
                let ghost before = state@.heap;
                let r = allocate(state, RtValue::Int(Integer::Int(values[i])));
                refs.push(r);
                proof {
                    assert(state@.heap =~= st.heap + Seq::new((i + 1) as nat, |j: int| RtView::Int(elems[j], true)));
                    assert(refs@ =~= Seq::new((i + 1) as nat, |j: int| (st.heap.len() + j) as usize));
                }
                i += 1;
            }
            proof {
                assert(forall|j: int| 0 <= j < st.heap.len() ==> #[trigger] state@.heap[j] == st.heap[j]);
            }
            Ok(refs)
        },
        None => {
            let list: Option<Vec<usize>> = match &state.heap[v] {
                RtValue::List(items) => {
                    let copy = concat_refs(items, &Vec::new());
                    proof {
                        assert(copy@ =~= items@);
                    }
                    Some(copy)
                },
                _ => None,
            };
            match list {
                Some(items) => Ok(items),
                None => {
                    let mut message = value_type(&state.heap[v]);
                    message.append(" is not iterable");
                    Err(RuntimeError { message })
                },
            }
        },
    }
}

/// Once a comprehension's walk fails, walking more items gives the same.
proof fn lemma_comp_error_stays(st: StateView, e: Expr, items: Seq<usize>, n: int, m: int)
    requires
        0 < n <= m <= items.len(),
        comp_spec(st, e, items, n).1 is Err,
    ensures
        comp_spec(st, e, items, m) == comp_spec(st, e, items, n),
    decreases m - n,
{
    if n < m {
        lemma_comp_error_stays(st, e, items, n, m - 1);
    }
}

/// Indexes the value at `a` with the value at `b`.
fn index_value(state: &mut EvalState, a: usize, b: usize) -> (r: Result<ValueRef, RuntimeError>)
    requires
        state_wf(old(state)@),
        a < old(state)@.heap.len(),
        b < old(state)@.heap.len(),
    ensures
        final(state).in_loop == old(state).in_loop,
        state_wf(final(state)@),
        old(state)@.heap.len() <= final(state)@.heap.len(),
        (final(state)@, result_view(r)) == index_spec(old(state)@, a, b),
        r matches Ok(i) ==> i < final(state)@.heap.len(),
{
    proof {
        assert(state@.heap[a as int] == state.heap@[a as int]@);
        assert(state@.heap[b as int] == state.heap@[b as int]@);
    }
    let ghost st = state@;
    let idx = small_int(&state.heap[b]);
    let is_list = match &state.heap[a] {
        RtValue::List(_) => true,
        _ => false,
    };
    let is_str = match &state.heap[a] {
        RtValue::Str(_) => true,
        _ => false,
    };
    let bounds: Option<(i64, i64, i64)> = match &state.heap[a] {
        RtValue::Range(x, y, z) => Some((*x, *y, *z)),
        _ => None,
    };
    if bounds.is_some() && idx.is_some() {
        let (x, y, z) = bounds.unwrap();
        match range_item(x, y, z, idx.unwrap()) {
            Ok(v) => Ok(allocate(state, RtValue::Int(Integer::Int(v)))),
            Err(e) => Err(e),
        }
    } else if is_list && idx.is_some() {
        let i = idx.unwrap();
        match &state.heap[a] {
            RtValue::List(items) => {
                let got = index_list(items, i);
                proof {
                    if let Ok(v) = got {
                        let ha = st.heap[a as int];
                        assert(ha matches RtView::List(xs) && v == xs[pop_position(i as int, xs.len() as int)]);
                    }
                }
                got
            },
            _ => Err(not_indexable(&state.heap[a])),
        }
    } else if is_str && idx.is_some() {
        let i = idx.unwrap();
        let piece = match &state.heap[a] {
            RtValue::Str(text) => index_string(text, i),
            _ => Err(not_indexable(&state.heap[a])),
        };
        match piece {
            Ok(p) => Ok(allocate(state, RtValue::Str(p))),
            Err(e) => Err(e),
        }
    } else {
        Err(not_indexable(&state.heap[a]))
    }
}

/// An integer holding the count `n`, in a machine word when it fits.
fn count_integer(n: usize) -> (r: Integer)
    ensures
        r.value() == n as int,
        r is Int <==> n <= i64::MAX,
{
    let q = n / 4;
    let rem = n - 4 * q;
    proof {
        assert(q <= i64::MAX);
        assert(rem < 4);
    }
    let scaled = crate::integer::mul(&Integer::Int(q as i64), &Integer::Int(4));
    crate::integer::add(&scaled, &Integer::Int(rem as i64))
}

/// An integer holding the count `n`, in a machine word when it fits.
fn count_integer_u64(n: u64) -> (r: Integer)
    ensures
        r.value() == n as int,
        r is Int <==> n <= i64::MAX,
{
    let q = n / 4;
    let rem = n - 4 * q;
    let scaled = crate::integer::mul(&Integer::Int(q as i64), &Integer::Int(4));
    crate::integer::add(&scaled, &Integer::Int(rem as i64))
}

/// How many elements `range(start, stop, step)` holds.
fn range_size(start: i64, stop: i64, step: i64) -> (r: u64)
    ensures
        r as int == range_count(start as int, stop as int, step as int),
{
    if step > 0 && stop > start {
        let d: i128 = stop as i128 - start as i128 + step as i128 - 1;
        let q: i128 = d / (step as i128);
        proof {
            let w: int = stop - start;
            let dd: int = d as int;
            let ss: int = step as int;
            assert(dd / ss <= w) by {
                vstd::arithmetic::div_mod::lemma_fundamental_div_mod(dd, ss);
                assert((dd / ss) * ss <= dd);
                assert((dd / ss) <= w) by (nonlinear_arith)
                    requires (dd / ss) * ss <= dd, dd == w + ss - 1, ss >= 1, w >= 1, dd / ss >= 0;
            }
        }
        q as u64
    } else if step < 0 && start > stop {
        let t: i128 = -(step as i128);
        let d: i128 = start as i128 - stop as i128 + t - 1;
        let q: i128 = d / t;
        proof {
            let w: int = start - stop;
            let dd: int = d as int;
            let ss: int = t as int;
            assert(dd / ss <= w) by {
                vstd::arithmetic::div_mod::lemma_fundamental_div_mod(dd, ss);
                assert((dd / ss) * ss <= dd);
                assert((dd / ss) <= w) by (nonlinear_arith)
                    requires (dd / ss) * ss <= dd, dd == w + ss - 1, ss >= 1, w >= 1, dd / ss >= 0;
            }
        }
        q as u64
    } else {
        0
    }
}

/// Membership of `x` in `range(start, stop, step)`, as `membership_spec`
/// says.
fn in_range(start: i64, stop: i64, step: i64, x: i64) -> (r: bool)
    ensures
        r == (i64::MIN <= x - start <= i64::MAX && range_elements(start as int, stop as int, step as int).contains(x as int)),
{
    let distance: i128 = x as i128 - start as i128;
    if step == -1 && distance == i64::MIN as i128 {
        let ghost elems = range_elements(start as int, stop as int, step as int);
        proof {
            let i = start - x;
            if x > stop {
                assert(elems.len() == start - stop);
                assert(0 <= i < elems.len());
                assert(elems[i] == x);
            } else {
                assert forall|j: int| 0 <= j < elems.len() implies elems[j] != x by {
                    assert(elems[j] == start - j);
                }
            }
        }
        x > stop
    } else {
        range_contains(start, stop, step, x)
    }
}

/// `len` of the value at `a`.
fn len_value(state: &mut EvalState, a: usize) -> (r: Result<ValueRef, RuntimeError>)
    requires
        state_wf(old(state)@),
        a < old(state)@.heap.len(),
    ensures
        final(state).in_loop == old(state).in_loop,
        state_wf(final(state)@),
        old(state)@.heap.len() <= final(state)@.heap.len(),
        (final(state)@, result_view(r)) == len_spec(old(state)@, a),
        r matches Ok(i) ==> i < final(state)@.heap.len(),
{
    proof {
        assert(state@.heap[a as int] == state.heap@[a as int]@);
    }
    let bounds: Option<(i64, i64, i64)> = match &state.heap[a] {
        RtValue::Range(x, y, z) => Some((*x, *y, *z)),
        _ => None,
    };
    if let Some((x, y, z)) = bounds {
        let n = range_size(x, y, z);
        return Ok(allocate(state, RtValue::Int(count_integer_u64(n))));
    }
    let count: Option<usize> = match &state.heap[a] {
        RtValue::Str(text) => Some(text.as_str().unicode_len()),
        RtValue::List(items) => Some(items.len()),
        _ => None,
    };
    match count {
        Some(n) => Ok(allocate(state, RtValue::Int(count_integer(n)))),
        None => {
            let mut message = String::from_str("object of type '");
            let name = value_type(&state.heap[a]);
            message.append(name.as_str());
            message.append("' has no len()");
            Err(RuntimeError { message })
        },
    }
}

/// `list` of the value at `a`.
fn list_of_value(state: &mut EvalState, a: usize) -> (r: Result<ValueRef, RuntimeError>)
    requires
        state_wf(old(state)@),
        a < old(state)@.heap.len(),
    ensures
        final(state).in_loop == old(state).in_loop,
        state_wf(final(state)@),
        old(state)@.heap.len() <= final(state)@.heap.len(),
        (final(state)@, result_view(r)) == list_of_spec(old(state)@, a),
        r matches Ok(i) ==> i < final(state)@.heap.len(),
{
    proof {
        assert(state@.heap[a as int] == state.heap@[a as int]@);
    }
    let ghost st0 = state@;
    let is_range = match &state.heap[a] {
        RtValue::Range(_, _, _) => true,
        _ => false,
    };
    if is_range {
        return match walk_items(state, a) {
            Ok(refs) => Ok(allocate(state, RtValue::List(refs))),
            Err(m) => Err(m),
        };
    }
    let copied: Option<Vec<usize>> = match &state.heap[a] {
        RtValue::List(items) => Some(concat_refs(items, &Vec::new())),
        _ => None,
    };
    if let Some(refs) = copied {
        proof {
            let ha = st0.heap[a as int];
            assert(ha matches RtView::List(xs) && refs@ =~= xs);
            assert forall|k: int| 0 <= k < refs@.len() implies #[trigger] refs@[k] < st0.heap.len() by {
                assert(ha matches RtView::List(xs) && xs[k] < st0.heap.len());
            }
        }
        return Ok(allocate(state, RtValue::List(refs)));
    }
    let text: Option<String> = match &state.heap[a] {
        RtValue::Str(t) => Some(t.clone()),
        _ => None,
    };
    match text {
        None => {
            let mut message = String::from_str("cannot convert ");
            let name = value_type(&state.heap[a]);
            message.append(name.as_str());
            message.append(" to list");
            Err(RuntimeError { message })
        },
        Some(t) => {
            let n = t.as_str().unicode_len();
            let mut refs: Vec<usize> = Vec::new();
            let mut i: usize = 0;
            proof {
                assert(with_chars(st0.heap, t@.take(0)) =~= st0.heap);
                assert(refs@ =~= Seq::new(0, |j: int| (st0.heap.len() + j) as usize));
            }
            while i < n
                invariant
                    n == t@.len(),
                    i <= n,
                    st0 == old(state)@,
                    state.in_loop == old(state).in_loop,
                    state_wf(state@),
                    state@.vars == st0.vars,
                    state@.finals == st0.finals,
                    state@.output == st0.output,
                    state@.base == st0.base,
                    state@.final_base == st0.final_base,
                    state@.heap == with_chars(st0.heap, t@.take(i as int)),
                    refs@ == Seq::new(i as nat, |j: int| (st0.heap.len() + j) as usize),
                    forall|k: int| 0 <= k < refs@.len() ==> #[trigger] refs@[k] < state@.heap.len(),
                decreases n - i,
            {
                let piece = t.as_str().substring_char(i, i + 1);
                proof {
                    assert(piece@ =~= seq![t@[i as int]]);
                }
                let ghost before = state@;
                let r = allocate(state, RtValue::Str(String::from_str(piece)));
                refs.push(r);
                proof {
                    assert(with_chars(st0.heap, t@.take(i + 1)) =~= before.heap.push(RtView::Str(seq![t@[i as int]])));
                    assert(refs@ =~= Seq::new((i + 1) as nat, |j: int| (st0.heap.len() + j) as usize));
                }
                i += 1;
            }
            proof {
                assert(t@.take(n as int) =~= t@);
                let ha = st0.heap[a as int];
                assert(ha matches RtView::Str(x) && x == t@);
            }
            Ok(allocate(state, RtValue::List(refs)))
        },
    }
}

/// Once evaluating the items stops at an error, evaluating more of them
/// gives that same error.
proof fn lemma_items_error_stays(st: StateView, items: Seq<Expr>, n: int, m: int)
    requires
        0 < n <= m <= items.len(),
        eval_items_spec(st, items, n).1 is Err,
    ensures
        eval_items_spec(st, items, m) == eval_items_spec(st, items, n),
    decreases m - n,
{
    if n < m {
        lemma_items_error_stays(st, items, n, m - 1);
    }
}

/// The error for a name with no binding.
fn undefined_variable(name: &String) -> (e: RuntimeError)
    ensures
        e.message@ == "undefined variable '"@ + name@ + "'"@,
{
    let mut message = String::from_str("undefined variable '");
    message.append(name.as_str());
    message.append("'");
    RuntimeError { message }
}

/// Evaluates the slice expression `e`, as `eval_expr_spec` says.
fn eval_slice(state: &mut EvalState, e: &Expr) -> (r: Result<ValueRef, RuntimeError>)
    requires
        state_wf(old(state)@),
        e is Slice,
    ensures
        final(state).in_loop == old(state).in_loop,
        state_wf(final(state)@),
        old(state)@.heap.len() <= final(state)@.heap.len(),
        (final(state)@, result_view(r)) == eval_expr_spec(old(state)@, *e),
        r matches Ok(i) ==> i < final(state)@.heap.len(),
    decreases e, 0int,
{
    let (target, lo, hi, step) = match e {
        Expr::Slice(target, lo, hi, step) => (target, lo, hi, step),
        _ => {
            proof {
                assert(false);
            }
            return Err(runtime_error("slice not supported"));
        },
    };
    let t = match eval_expr(state, target) {
        Ok(t) => t,
        Err(m) => {
            return Err(m);
        },
    };
    let start: Option<i64> = match lo {
        None => None,
        Some(x) => {
            let v = match eval_expr(state, x) {
                Ok(v) => v,
                Err(m) => {
                    return Err(m);
                },
            };
            proof {
                assert(state@.heap[v as int] == state.heap@[v as int]@);
            }
            match small_int(&state.heap[v]) {
                Some(n) => Some(n),
                None => {
                    return Err(runtime_error("slice start must be an integer"));
                },
            }
        },
    };
    let stop: Option<i64> = match hi {
        None => None,
        Some(x) => {
            let v = match eval_expr(state, x) {
                Ok(v) => v,
                Err(m) => {
                    return Err(m);
                },
            };
            proof {
                assert(state@.heap[v as int] == state.heap@[v as int]@);
            }
            match small_int(&state.heap[v]) {
                Some(n) => Some(n),
                None => {
                    return Err(runtime_error("slice stop must be an integer"));
                },
            }
        },
    };
    let k: i64 = match step {
        None => 1,
        Some(x) => {
            let v = match eval_expr(state, x) {
                Ok(v) => v,
                Err(m) => {
                    return Err(m);
                },
            };
            proof {
                assert(state@.heap[v as int] == state.heap@[v as int]@);
            }
            match small_int(&state.heap[v]) {
                Some(n) => {
                    if n == 0 {
                        return Err(runtime_error("slice step cannot be zero"));
                    }
                    n
                },
                None => {
                    return Err(runtime_error("slice step must be an integer"));
                },
            }
        },
    };
    slice_value(state, t, start, stop, k)
}

/// Evaluates `e`: the arena position of its value, every new value added
/// to the arena, exactly as `eval_expr_spec` says.
pub fn eval_expr(state: &mut EvalState, e: &Expr) -> (r: Result<ValueRef, RuntimeError>)
    requires
        state_wf(old(state)@),
    ensures
        final(state).in_loop == old(state).in_loop,
        state_wf(final(state)@),
        old(state)@.heap.len() <= final(state)@.heap.len(),
        (final(state)@, result_view(r)) == eval_expr_spec(old(state)@, *e),
        r matches Ok(i) ==> i < final(state)@.heap.len(),
        only_adds(old(state)@, final(state)@),
    decreases e, 1int,
{
    proof {
        law_eval_only_adds(state@, *e);
    }
    match e {
        Expr::Int(n) => Ok(allocate(state, RtValue::Int(Integer::Int(*n)))),
        Expr::Bool(b) => Ok(allocate(state, RtValue::Bool(*b))),
        Expr::Str(text) => Ok(allocate(state, RtValue::Str(text.clone()))),
        Expr::NoneLit => Ok(allocate(state, RtValue::NoneValue)),
        Expr::Name(name) => match find_var(state, name) {
            Some(i) => {
                proof {
                    assert(state@.vars[i as int] == (state.vars@[i as int].0@, state.vars@[i as int].1));
                }
                Ok(state.vars[i].1)
            },
            None => Err(undefined_variable(name)),
        },
        Expr::Binary(op, lhs, rhs) => {
            let a = match eval_expr(state, lhs) {
                Ok(a) => a,
                Err(m) => {
                    return Err(m);
                },
            };
            let logical = match op {
                BinOp::And => Some(true),
                BinOp::Or => Some(false),
                _ => None,
            };
            if let Some(is_and) = logical {
                proof {
                    assert(state@.heap[a as int] == state.heap@[a as int]@);
                }
                if is_and == value_truthy(&state.heap[a]) {
                    return eval_expr(state, rhs);
                } else {
                    return Ok(a);
                }
            }
            let b = match eval_expr(state, rhs) {
                Ok(b) => b,
                Err(m) => {
                    return Err(m);
                },
            };
            binary(state, *op, a, b)
        },
        Expr::IfExpr(c, t, f) => {
            let a = match eval_expr(state, c) {
                Ok(a) => a,
                Err(m) => {
                    return Err(m);
                },
            };
            proof {
                assert(state@.heap[a as int] == state.heap@[a as int]@);
            }
            if value_truthy(&state.heap[a]) {
                eval_expr(state, t)
            } else {
                eval_expr(state, f)
            }
        },
        Expr::Not(operand) => {
            let a = match eval_expr(state, operand) {
                Ok(a) => a,
                Err(m) => {
                    return Err(m);
                },
            };
            proof {
                assert(state@.heap[a as int] == state.heap@[a as int]@);
            }
            let t = value_truthy(&state.heap[a]);
            Ok(allocate(state, RtValue::Bool(!t)))
        },
        Expr::ListLit(items) => {
            let ghost st0 = state@;
            let mut refs: Vec<usize> = Vec::new();
            let mut k: usize = 0;
            proof {
                assert(refs@ =~= Seq::<usize>::empty());
            }
            while k < items.len()
                invariant
                    *e == Expr::ListLit(*items),
                    st0 == old(state)@,
                    state.in_loop == old(state).in_loop,
                    state_wf(state@),
                    st0.heap.len() <= state@.heap.len(),
                    k <= items@.len(),
                    eval_items_spec(st0, items@, k as int) == (state@, Ok::<Seq<usize>, Seq<char>>(refs@)),
                    forall|j: int| 0 <= j < refs@.len() ==> #[trigger] refs@[j] < state@.heap.len(),
                decreases items.len() - k,
            {
                proof {
                    assert(decreases_to!(*e => (*e)->ListLit_0));
                    assert((*e)->ListLit_0 == *items);
                    assert(decreases_to!(*items => items@));
                    assert(decreases_to!(items@ => items@[k as int]));
                }
                match eval_expr(state, &items[k]) {
                    Ok(v) => {
                        refs.push(v);
                        k += 1;
                    },
                    Err(m) => {
                        proof {
                            lemma_items_error_stays(st0, items@, k + 1, items@.len() as int);
                            law_eval_only_adds(st0, *e);
                        }
                        return Err(m);
                    },
                }
            }
            Ok(allocate(state, RtValue::List(refs)))
        },
        Expr::Range(args) => {
            let ghost st0 = state@;
            let mut refs: Vec<usize> = Vec::new();
            let mut k: usize = 0;
            proof {
                assert(refs@ =~= Seq::<usize>::empty());
            }
            while k < args.len()
                invariant
                    *e == Expr::Range(*args),
                    st0 == old(state)@,
                    state.in_loop == old(state).in_loop,
                    state_wf(state@),
                    st0.heap.len() <= state@.heap.len(),
                    k <= args@.len(),
                    eval_items_spec(st0, args@, k as int) == (state@, Ok::<Seq<usize>, Seq<char>>(refs@)),
                    forall|j: int| 0 <= j < refs@.len() ==> #[trigger] refs@[j] < state@.heap.len(),
                decreases args.len() - k,
            {
                proof {
                    assert(decreases_to!(*e => (*e)->Range_0));
                    assert((*e)->Range_0 == *args);
                    assert(decreases_to!(*args => args@));
                    assert(decreases_to!(args@ => args@[k as int]));
                }
                match eval_expr(state, &args[k]) {
                    Ok(v) => {
                        refs.push(v);
                        k += 1;
                    },
                    Err(m) => {
                        proof {
                            lemma_items_error_stays(st0, args@, k + 1, args@.len() as int);
                            law_eval_only_adds(st0, *e);
                        }
                        return Err(m);
                    },
                }
            }
            range_call(state, &refs)
        },
        Expr::Print(args) => {
            let ghost st0 = state@;
            let mut refs: Vec<usize> = Vec::new();
            let mut k: usize = 0;
            proof {
                assert(refs@ =~= Seq::<usize>::empty());
            }
            while k < args.len()
                invariant
                    *e == Expr::Print(*args),
                    st0 == old(state)@,
                    state.in_loop == old(state).in_loop,
                    state_wf(state@),
                    st0.heap.len() <= state@.heap.len(),
                    k <= args@.len(),
                    eval_items_spec(st0, args@, k as int) == (state@, Ok::<Seq<usize>, Seq<char>>(refs@)),
                    forall|j: int| 0 <= j < refs@.len() ==> #[trigger] refs@[j] < state@.heap.len(),
                decreases args.len() - k,
            {
                proof {
                    assert(decreases_to!(*e => (*e)->Print_0));
                    assert((*e)->Print_0 == *args);
                    assert(decreases_to!(*args => args@));
                    assert(decreases_to!(args@ => args@[k as int]));
                }
                match eval_expr(state, &args[k]) {
                    Ok(v) => {
                        refs.push(v);
                        k += 1;
                    },
                    Err(m) => {
                        proof {
                            lemma_items_error_stays(st0, args@, k + 1, args@.len() as int);
                            law_eval_only_adds(st0, *e);
                        }
                        return Err(m);
                    },
                }
            }
            print_call(state, &refs)
        },
        Expr::Slice(_, _, _, _) => eval_slice(state, e),
        Expr::ListComp(name, iterable, element, condition) => {
            let ghost st0 = state@;
            let v = match eval_expr(state, iterable) {
                Ok(v) => v,
                Err(m) => {
                    return Err(m);
                },
            };
            let items = match walk_items(state, v) {
                Ok(items) => items,
                Err(m) => {
                    return Err(m);
                },
            };
            let ghost s2 = state@;
            let ghost goal = eval_expr_spec(st0, *e);
            proof {
                assert(goal == ({
                    let (s3, rs) = comp_spec(s2, *e, items@, items@.len() as int);
                    match rs {
                        Err(m) => (s3, Err(m)),
                        Ok(refs) => alloc_spec(s3, RtView::List(refs)),
                    }
                }));
            }
            let mut refs: Vec<usize> = Vec::new();
            let mut k: usize = 0;
            proof {
                assert(refs@ =~= Seq::<usize>::empty());
            }
            while k < items.len()
                invariant
                    *e == Expr::ListComp(*name, *iterable, *element, *condition),
                    st0 == old(state)@,
                    goal == eval_expr_spec(st0, *e),
                    goal == ({
                        let (s3, rs) = comp_spec(s2, *e, items@, items@.len() as int);
                        match rs {
                            Err(m) => (s3, Err(m)),
                            Ok(refs) => alloc_spec(s3, RtView::List(refs)),
                        }
                    }),
                    state.in_loop == old(state).in_loop,
                    state_wf(state@),
                    st0.heap.len() <= s2.heap.len(),
                    s2.heap.len() <= state@.heap.len(),
                    k <= items@.len(),
                    forall|j: int| 0 <= j < items@.len() ==> #[trigger] items@[j] < s2.heap.len(),
                    comp_spec(s2, *e, items@, k as int) == (state@, Ok::<Seq<usize>, Seq<char>>(refs@)),
                    forall|j: int| 0 <= j < refs@.len() ==> #[trigger] refs@[j] < state@.heap.len(),
                decreases items.len() - k,
            {
                let ghost s1 = state@;
                let vars_len = state.vars.len();
                let finals_len = state.finals.len();
                let base = state.base;
                let final_base = state.final_base;
                enter(state);
                declare(state, name, items[k]);
                let ghost inner = state@;
                proof {
                    assert(inner == declare_spec(enter_scope(s1), name@, items@[k as int]));
                    assert(comp_spec(s2, *e, items@, k + 1) == ({
                        let (s2x, keep) = match *condition {
                            None => (inner, Ok::<bool, Seq<char>>(true)),
                            Some(c) => {
                                let (sc, rc) = eval_expr_spec(inner, *c);
                                match rc {
                                    Ok(cv) => (sc, Ok(truthy(sc.heap[cv as int]))),
                                    Err(m) => (sc, Err(m)),
                                }
                            },
                        };
                        match keep {
                            Err(m) => (leave_scope(s2x, s1), Err(m)),
                            Ok(false) => (leave_scope(s2x, s1), Ok(refs@)),
                            Ok(true) => {
                                let (s3, rv) = eval_expr_spec(s2x, **element);
                                match rv {
                                    Err(m) => (leave_scope(s3, s1), Err(m)),
                                    Ok(x) => (leave_scope(s3, s1), Ok(refs@.push(x))),
                                }
                            },
                        }
                    }));
                }
                let keep = match condition {
                    None => true,
                    Some(c) => match eval_expr(state, c) {
                        Ok(cv) => {
                            proof {
                                assert(state@.heap[cv as int] == state.heap@[cv as int]@);
                            }
                            value_truthy(&state.heap[cv])
                        },
                        Err(m) => {
                            let ghost sx = state@;
                            leave(state, vars_len, finals_len, base, final_base);
                            proof {
                                assert(state@ == leave_scope(sx, s1));
                                lemma_comp_error_stays(s2, *e, items@, k + 1, items@.len() as int);
                                law_eval_only_adds(st0, *e);
                            }
                            return Err(m);
                        },
                    },
                };
                if keep {
                    match eval_expr(state, element) {
                        Ok(x) => {
                            let ghost sx = state@;
                            leave(state, vars_len, finals_len, base, final_base);
                            proof {
                                assert(state@ == leave_scope(sx, s1));
                            }
                            refs.push(x);
                        },
                        Err(m) => {
                            let ghost sx = state@;
                            leave(state, vars_len, finals_len, base, final_base);
                            proof {
                                assert(state@ == leave_scope(sx, s1));
                                lemma_comp_error_stays(s2, *e, items@, k + 1, items@.len() as int);
                                law_eval_only_adds(st0, *e);
                            }
                            return Err(m);
                        },
                    }
                } else {
                    let ghost sx = state@;
                    leave(state, vars_len, finals_len, base, final_base);
                    proof {
                        assert(state@ == leave_scope(sx, s1));
                    }
                }
                k += 1;
            }
            Ok(allocate(state, RtValue::List(refs)))
        },
        Expr::Neg(operand) | Expr::Pos(operand) | Expr::Invert(operand) => {
            let op: u8 = match e {
                Expr::Neg(_) => 0,
                Expr::Pos(_) => 1,
                _ => 2,
            };
            let a = match eval_expr(state, operand) {
                Ok(a) => a,
                Err(m) => {
                    return Err(m);
                },
            };
            unary_value(state, a, op)
        },
        Expr::Len(operand) => {
            let a = match eval_expr(state, operand) {
                Ok(a) => a,
                Err(m) => {
                    return Err(m);
                },
            };
            len_value(state, a)
        },
        Expr::ListOf(operand) => {
            let a = match eval_expr(state, operand) {
                Ok(a) => a,
                Err(m) => {
                    return Err(m);
                },
            };
            list_of_value(state, a)
        },
        Expr::Index(target, index) => {
            let a = match eval_expr(state, target) {
                Ok(a) => a,
                Err(m) => {
                    return Err(m);
                },
            };
            let b = match eval_expr(state, index) {
                Ok(b) => b,
                Err(m) => {
                    return Err(m);
                },
            };
            index_value(state, a, b)
        },
    }
}

/// The error for an item assignment at an index the list does not have.
pub open spec fn set_index_error(i: int, len: nat) -> Seq<char> {
    "list index out of range: index "@ + signed_text(i) + ", len "@ + signed_text(len as int)
}

/// `target[index] = value` with the values at `t`, `i` and `v`: the list
/// at `t` holds `v` at that position from then on, seen through every name
/// bound to that list.
pub open spec fn set_item_spec(st: StateView, t: usize, i: usize, v: usize) -> (StateView, Result<Flow, Seq<char>>) {
    match st.heap[t as int] {
        RtView::List(items) => match st.heap[i as int] {
            RtView::Int(n, true) => {
                let p = pop_position(n, items.len() as int);
                if 0 <= p < items.len() {
                    (StateView { heap: st.heap.update(t as int, RtView::List(items.update(p, v))), vars: st.vars, finals: st.finals, base: st.base, final_base: st.final_base, output: st.output }, Ok(Flow::Normal))
                } else {
                    (st, Err(set_index_error(n, items.len())))
                }
            },
            w => (st, Err("list indices must be integers, got "@ + type_text(w))),
        },
        w => (st, Err("cannot index assign into "@ + type_text(w))),
    }
}

/// The state inside a new scope opened in `st`.
pub open spec fn enter_scope(st: StateView) -> StateView {
    StateView { heap: st.heap, vars: st.vars, finals: st.finals, base: st.vars.len(), final_base: st.finals.len(), output: st.output }
}

/// The state after leaving, from `inner`, the scope opened in `outer`: the
/// bindings and final marks made in it go, the arena stays.
pub open spec fn leave_scope(inner: StateView, outer: StateView) -> StateView {
    StateView {
        heap: inner.heap,
        vars: inner.vars.take(outer.vars.len() as int),
        finals: inner.finals.take(outer.finals.len() as int),
        base: outer.base,
        final_base: outer.final_base,
        output: inner.output,
    }
}

/// The error for iterating a value that cannot be iterated.
pub open spec fn not_iterable_message() -> Seq<char> {
    "value is not iterable"@
}

/// The error for a range whose next element does not fit a machine word.
pub open spec fn range_overflow_message() -> Seq<char> {
    "range step overflow"@
}

/// A `for` loop over the items `items` of a list, from the `k`th on, with
/// loops allowed `fuel` turns: each turn binds `name` to the item in a
/// fresh scope, runs `body` as a loop body and leaves the scope.
pub open spec fn for_items_fuel(st: StateView, name: Seq<char>, body: Seq<Stmt>, items: Seq<usize>, k: int, fuel: nat) -> Option<(StateView, Result<Flow, Seq<char>>)>
    decreases fuel, body, 0int,
{
    if k < 0 || k >= items.len() {
        Some((st, Ok(Flow::Normal)))
    } else if fuel == 0 {
        None
    } else {
        let inner = declare_spec(enter_scope(st), name, items[k]);
        match exec_block_fuel(inner, true, body, body.len() as int, (fuel - 1) as nat) {
            None => None,
            Some((s2, r)) => {
                let s3 = leave_scope(s2, st);
                match r {
                    Err(m) => Some((s3, Err(m))),
                    Ok(Flow::Break) => Some((s3, Ok(Flow::Normal))),
                    Ok(Flow::Return(x)) => Some((s3, Ok(Flow::Return(x)))),
                    Ok(_) => for_items_fuel(s3, name, body, items, k + 1, (fuel - 1) as nat),
                }
            },
        }
    }
}

/// A `for` loop over `range(cur, stop, step)`, with loops allowed `fuel`
/// turns: each element is a new machine-word integer bound to `name` in a
/// fresh scope; the next element is computed only after a turn ends
/// normally, and one that does not fit a machine word is an error.
pub open spec fn for_range_fuel(st: StateView, name: Seq<char>, body: Seq<Stmt>, cur: int, stop: int, step: int, fuel: nat) -> Option<(StateView, Result<Flow, Seq<char>>)>
    decreases fuel, body, 0int,
{
    if !((step > 0 && cur < stop) || (step < 0 && cur > stop)) {
        Some((st, Ok(Flow::Normal)))
    } else if fuel == 0 {
        None
    } else {
        let s1 = alloc_spec(st, RtView::Int(cur, true)).0;
        let inner = declare_spec(enter_scope(s1), name, st.heap.len() as usize);
        match exec_block_fuel(inner, true, body, body.len() as int, (fuel - 1) as nat) {
            None => None,
            Some((s2, r)) => {
                let s3 = leave_scope(s2, s1);
                match r {
                    Err(m) => Some((s3, Err(m))),
                    Ok(Flow::Break) => Some((s3, Ok(Flow::Normal))),
                    Ok(Flow::Return(x)) => Some((s3, Ok(Flow::Return(x)))),
                    Ok(_) => if cur + step < i64::MIN || cur + step > i64::MAX {
                        Some((s3, Err(range_overflow_message())))
                    } else {
                        for_range_fuel(s3, name, body, cur + step, stop, step, (fuel - 1) as nat)
                    },
                }
            },
        }
    }
}

/// The position, among the first `n` of `handlers`, of the first that
/// catches an error with `message`.
pub open spec fn first_handler(message: Seq<char>, handlers: Seq<Handler>, n: int) -> Option<int>
    decreases n,
{
    if n <= 0 || n > handlers.len() {
        None
    } else {
        match first_handler(message, handlers, n - 1) {
            Some(i) => Some(i),
            None => if handler_matches(message, handlers[n - 1].exception_type) { Some(n - 1) } else { None },
        }
    }
}

/// The state in which an `except` clause runs: its name, if any, bound in
/// the current scope to a new string holding the error's message.
pub open spec fn handler_state(st: StateView, name: Option<String>, message: Seq<char>) -> StateView {
    match name {
        None => st,
        Some(n) => declare_spec(alloc_spec(st, RtView::Str(message)).0, n@, st.heap.len() as usize),
    }
}

/// How a `try` ends, given how its body and `except` clause ended (`r`)
/// and how its `finally` body ended (`cleanup`): an error or a `return`
/// there wins, otherwise the first outcome stands.
pub open spec fn after_finally(r: Result<Flow, Seq<char>>, cleanup: Result<Flow, Seq<char>>) -> Result<Flow, Seq<char>> {
    if cleanup is Err || cleanup matches Ok(Flow::Return(_)) { cleanup } else { r }
}

/// How a value is shown in messages: integers in decimal (the sentinels
/// by name), strings in double quotes, lists as their items shown between
/// brackets, looking `depth` levels into lists (deeper lists show as
/// `[...]`).
pub open spec fn debug_text(heap: Seq<RtView>, v: RtView, depth: nat) -> Seq<char>
    decreases depth, 0int,
{
    match v {
        RtView::Int(n, small) => if small && i64::MIN <= n <= i64::MAX { int_text(n as i64) } else { signed_text(n) },
        RtView::Bool(b) => if b { "true"@ } else { "false"@ },
        RtView::Str(t) => "\""@ + t + "\""@,
        RtView::NoneValue => "none"@,
        RtView::Range(a, b, c) => if c == 1 {
            "range("@ + signed_text(a) + ", "@ + signed_text(b) + ")"@
        } else {
            "range("@ + signed_text(a) + ", "@ + signed_text(b) + ", "@ + signed_text(c) + ")"@
        },
        RtView::List(items) => if depth == 0 {
            "[...]"@
        } else {
            "["@ + debug_items(heap, items, items.len() as int, (depth - 1) as nat) + "]"@
        },
    }
}

/// The first `n` of `items` shown as `debug_text` says, separated by `, `.
pub open spec fn debug_items(heap: Seq<RtView>, items: Seq<usize>, n: int, depth: nat) -> Seq<char>
    decreases depth, n + 1,
{
    if n <= 0 || n > items.len() {
        Seq::empty()
    } else if n == 1 {
        debug_text(heap, heap[items[0] as int], depth)
    } else {
        debug_items(heap, items, n - 1, depth) + ", "@ + debug_text(heap, heap[items[n - 1] as int], depth)
    }
}

/// The message of a failed `assert` whose message evaluated to `v`: a
/// string's own text, any other value shown.
pub open spec fn assert_message(heap: Seq<RtView>, v: RtView) -> Seq<char> {
    shown_text(heap, v)
}

/// The error `raise` gives for the value `v`: its type and the value
/// shown.
pub open spec fn raise_message(heap: Seq<RtView>, v: RtView) -> Seq<char> {
    "raised invariant ("@ + type_text(v) + "): "@ + debug_text(heap, v, heap.len())
}

/// The state after binding the names of pattern `p` to the parts of the
/// value at `r` that they match, in the current scope and in order: a name
/// to the value itself, a sequence pattern's parts to the list's items,
/// and a starred part to a new list of the items it covers.
pub open spec fn bind_spec(st: StateView, p: Pattern, r: usize) -> StateView
    decreases p, 0int,
{
    match p {
        Pattern::Ident(n) => if binds_name(n@) { declare_spec(st, n@, r) } else { st },
        Pattern::Star(inner) => bind_spec(st, *inner, r),
        Pattern::Tuple(ps) => match st.heap[r as int] {
            RtView::List(items) => match star_index(ps@) {
                None => bind_pairs(st, ps@, items, 0, 0, ps@.len() as int),
                Some(k) => if items.len() < ps@.len() - 1 {
                    st
                } else {
                    let tail = ps@.len() - k - 1;
                    let rest_end = items.len() - tail;
                    let s1 = bind_pairs(st, ps@, items, 0, 0, k);
                    let s2 = alloc_spec(s1, RtView::List(items.subrange(k, rest_end))).0;
                    let s3 = bind_pairs(s2, ps@, seq![s1.heap.len() as usize], k, 0, 1);
                    bind_pairs(s3, ps@, items, k + 1, rest_end, tail)
                },
            },
            _ => st,
        },
        _ => st,
    }
}

/// Binding parts `p0 ..` of `ps` to items `i0 ..` of `items`, `n` pairs in
/// order (pairs past either end are skipped).
pub open spec fn bind_pairs(st: StateView, ps: Seq<Pattern>, items: Seq<usize>, p0: int, i0: int, n: int) -> StateView
    decreases ps, n,
{
    if n <= 0 {
        st
    } else {
        let prev = bind_pairs(st, ps, items, p0, i0, n - 1);
        if 0 <= p0 + n - 1 < ps.len() && 0 <= i0 + n - 1 < items.len() {
            bind_spec(prev, ps[p0 + n - 1], items[i0 + n - 1])
        } else {
            prev
        }
    }
}

/// The error for a value that no arm of a `match` takes.
pub open spec fn no_arm_message(heap: Seq<RtView>, v: usize) -> Seq<char> {
    "non-exhaustive match: unhandled value "@ + debug_text(heap, heap[v as int], heap.len())
}

/// The bindings and final marks of `saved` put back, the arena of `st`
/// kept: an arm whose guard fails leaves no binding behind.
pub open spec fn restore_bindings(st: StateView, saved: StateView) -> StateView {
    StateView { heap: st.heap, vars: saved.vars, finals: saved.finals, base: saved.base, final_base: saved.final_base, output: st.output }
}

/// The arms of a `match` from the `k`th on, for the subject at `v`: the
/// first arm whose pattern matches binds the alias and the pattern's names;
/// if its guard holds (or it has none) its body runs, otherwise the
/// bindings are undone and the next arms are tried.
pub open spec fn match_arms_fuel(st: StateView, in_loop: bool, v: usize, alias: Option<String>, arms: Seq<MatchArm>, k: int, fuel: nat) -> Option<(StateView, Result<Flow, Seq<char>>)>
    decreases fuel, arms, arms.len() - k,
{
    if k < 0 || k >= arms.len() {
        Some((st, Err(no_arm_message(st.heap, v))))
    } else if !pattern_matches(st.heap, arms[k].pattern, st.heap[v as int]) {
        match_arms_fuel(st, in_loop, v, alias, arms, k + 1, fuel)
    } else {
        proof {
            assert(decreases_to!(arms => arms[k]));
            assert(decreases_to!(arms[k] => arms[k].body));
            assert(decreases_to!(arms[k].body => arms[k].body@));
        }
        let s1 = match alias {
            Some(a) => declare_spec(st, a@, v),
            None => st,
        };
        let s2 = bind_spec(s1, arms[k].pattern, v);
        match arms[k].guard {
            None => exec_block_fuel(s2, in_loop, arms[k].body@, arms[k].body@.len() as int, fuel),
            Some(g) => {
                let (s3, rg) = eval_expr_spec(s2, g);
                match rg {
                    Err(m) => Some((s3, Err(m))),
                    Ok(gv) => if truthy(s3.heap[gv as int]) {
                        exec_block_fuel(s3, in_loop, arms[k].body@, arms[k].body@.len() as int, fuel)
                    } else {
                        match_arms_fuel(restore_bindings(s3, st), in_loop, v, alias, arms, k + 1, fuel)
                    },
                }
            },
        }
    }
}

/// What running `s` gives when its loops may turn `fuel` times: the state
/// after it and how it ended, or `None` when its loops need more turns.
/// `in_loop` says whether a loop body is running, which `break` and
/// `continue` need.
pub open spec fn exec_stmt_fuel(st: StateView, in_loop: bool, s: Stmt, fuel: nat) -> Option<(StateView, Result<Flow, Seq<char>>)>
    decreases fuel, s, 0int,
{
    match s {
        Stmt::VarDecl(name, value, is_final) => {
            let (s1, r) = match value {
                Some(e) => eval_expr_spec(st, e),
                None => alloc_spec(st, RtView::NoneValue),
            };
            match r {
                Ok(v) => {
                    let s2 = declare_spec(s1, name@, v);
                    Some((if is_final { mark_final_spec(s2, name@) } else { s2 }, Ok(Flow::Normal)))
                },
                Err(m) => Some((s1, Err(m))),
            }
        },
        Stmt::Assign(name, e) => {
            let (s1, r) = eval_expr_spec(st, e);
            match r {
                Ok(v) => if is_final_name(s1, name@) {
                    Some((s1, Err(final_message(name@))))
                } else {
                    Some((assign_spec(s1, name@, v), Ok(Flow::Normal)))
                },
                Err(m) => Some((s1, Err(m))),
            }
        },
        Stmt::AugAssign(name, op, e) => {
            let (s1, r) = eval_expr_spec(st, e);
            match r {
                Err(m) => Some((s1, Err(m))),
                Ok(b) => if is_final_name(s1, name@) {
                    Some((s1, Err(final_message(name@))))
                } else {
                    match var_index(s1.vars, name@) {
                        None => Some((s1, Err("undefined variable '"@ + name@ + "'"@))),
                        Some(i) => {
                            let (s2, rn) = update_op_spec(s1, op, s1.vars[i].1, b);
                            match rn {
                                Ok(n) => Some((assign_spec(s2, name@, n), Ok(Flow::Normal))),
                                Err(m) => Some((s2, Err(m))),
                            }
                        },
                    }
                },
            }
        },
        Stmt::Delete(names) => Some(delete_all_spec(st, names@, names@.len() as int)),
        Stmt::Match(subject, alias, arms) => {
            let (s1, r) = eval_expr_spec(st, subject);
            match r {
                Err(m) => Some((s1, Err(m))),
                Ok(v) => match_arms_fuel(s1, in_loop, v, alias, arms@, 0, fuel),
            }
        },
        Stmt::Assert(condition, message) => {
            let (s1, r) = eval_expr_spec(st, condition);
            match r {
                Err(m) => Some((s1, Err(m))),
                Ok(v) => if truthy(s1.heap[v as int]) {
                    Some((s1, Ok(Flow::Normal)))
                } else {
                    match message {
                        None => Some((s1, Err("assertion failed"@))),
                        Some(me) => {
                            let (s2, rm) = eval_expr_spec(s1, me);
                            match rm {
                                Err(m) => Some((s2, Err(m))),
                                Ok(mv) => Some((s2, Err(assert_message(s2.heap, s2.heap[mv as int])))),
                            }
                        },
                    }
                },
            }
        },
        Stmt::Raise(value) => {
            let (s1, r) = eval_expr_spec(st, value);
            match r {
                Err(m) => Some((s1, Err(m))),
                Ok(v) => Some((s1, Err(raise_message(s1.heap, s1.heap[v as int])))),
            }
        },
        Stmt::Try(body, handlers, finally_body) => {
            match exec_block_fuel(st, in_loop, body@, body@.len() as int, fuel) {
                None => None,
                Some((s1, r)) => {
                    let main = match r {
                        Ok(f) => Some((s1, Ok(f))),
                        Err(m) => match first_handler(m, handlers@, handlers@.len() as int) {
                            None => Some((s1, Err(m))),
                            Some(h) => {
                                proof {
                                    lemma_first_handler_in_range(m, handlers@, handlers@.len() as int);
                                    assert(decreases_to!(handlers@ => handlers@[h]));
                                    assert(decreases_to!(handlers@[h] => handlers@[h].body));
                                    assert(decreases_to!(handlers@[h].body => handlers@[h].body@));
                                }
                                exec_block_fuel(handler_state(s1, handlers@[h].name, m), in_loop,
                                    handlers@[h].body@, handlers@[h].body@.len() as int, fuel)
                            },
                        },
                    };
                    match main {
                        None => None,
                        Some((s3, r3)) => match finally_body {
                            None => Some((s3, r3)),
                            Some(fb) => match exec_block_fuel(s3, in_loop, fb@, fb@.len() as int, fuel) {
                                None => None,
                                Some((s4, r4)) => Some((s4, after_finally(r3, r4))),
                            },
                        },
                    }
                },
            }
        },
        Stmt::For(name, iterable, body) => {
            let (s1, r) = eval_expr_spec(st, iterable);
            match r {
                Err(m) => Some((s1, Err(m))),
                Ok(v) => match s1.heap[v as int] {
                    RtView::List(items) => for_items_fuel(s1, name@, body@, items, 0, fuel),
                    RtView::Range(a, b, c) => for_range_fuel(s1, name@, body@, a, b, c, fuel),
                    _ => Some((s1, Err(not_iterable_message()))),
                },
            }
        },
        Stmt::SetItem(target, index, value) => {
            let (s1, rv) = eval_expr_spec(st, value);
            match rv {
                Err(m) => Some((s1, Err(m))),
                Ok(v) => {
                    let (s2, rt) = eval_expr_spec(s1, target);
                    match rt {
                        Err(m) => Some((s2, Err(m))),
                        Ok(t) => {
                            let (s3, ri) = eval_expr_spec(s2, index);
                            match ri {
                                Err(m) => Some((s3, Err(m))),
                                Ok(i) => Some(set_item_spec(s3, t, i, v)),
                            }
                        },
                    }
                },
            }
        },
        Stmt::ExprStmt(e) => {
            let (s1, r) = eval_expr_spec(st, e);
            match r {
                Ok(_) => Some((s1, Ok(Flow::Normal))),
                Err(m) => Some((s1, Err(m))),
            }
        },
        Stmt::If(c, then_body, else_body) => {
            let (s1, r) = eval_expr_spec(st, c);
            match r {
                Err(m) => Some((s1, Err(m))),
                Ok(v) => if truthy(s1.heap[v as int]) {
                    exec_block_fuel(s1, in_loop, then_body@, then_body@.len() as int, fuel)
                } else {
                    exec_block_fuel(s1, in_loop, else_body@, else_body@.len() as int, fuel)
                },
            }
        },
        Stmt::While(c, body) => {
            if fuel == 0 {
                None
            } else {
                let (s1, r) = eval_expr_spec(st, c);
                match r {
                    Err(m) => Some((s1, Err(m))),
                    Ok(v) => if !truthy(s1.heap[v as int]) {
                        Some((s1, Ok(Flow::Normal)))
                    } else {
                        match exec_block_fuel(s1, true, body@, body@.len() as int, (fuel - 1) as nat) {
                            None => None,
                            Some((s2, Err(m))) => Some((s2, Err(m))),
                            Some((s2, Ok(Flow::Break))) => Some((s2, Ok(Flow::Normal))),
                            Some((s2, Ok(Flow::Return(x)))) => Some((s2, Ok(Flow::Return(x)))),
                            Some((s2, Ok(_))) => exec_stmt_fuel(s2, in_loop, s, (fuel - 1) as nat),
                        }
                    },
                }
            }
        },
        Stmt::Return(e) => {
            let (s1, r) = eval_expr_spec(st, e);
            match r {
                Ok(v) => Some((s1, Ok(Flow::Return(v)))),
                Err(m) => Some((s1, Err(m))),
            }
        },
        Stmt::Break => if in_loop {
            Some((st, Ok(Flow::Break)))
        } else {
            Some((st, Err("break is only valid inside a loop"@)))
        },
        Stmt::Continue => if in_loop {
            Some((st, Ok(Flow::Continue)))
        } else {
            Some((st, Err("continue is only valid inside a loop"@)))
        },
        Stmt::Pass => Some((st, Ok(Flow::Normal))),
    }
}

/// Running the first `n` of `stmts` in order, stopping at the first that
/// does not end normally.
pub open spec fn exec_block_fuel(st: StateView, in_loop: bool, stmts: Seq<Stmt>, n: int, fuel: nat) -> Option<(StateView, Result<Flow, Seq<char>>)>
    decreases fuel, stmts, n,
{
    if n <= 0 || n > stmts.len() {
        Some((st, Ok(Flow::Normal)))
    } else {
        match exec_block_fuel(st, in_loop, stmts, n - 1, fuel) {
            Some((s1, Ok(Flow::Normal))) => exec_stmt_fuel(s1, in_loop, stmts[n - 1], fuel),
            other => other,
        }
    }
}

/// Whether running `s` ends within `u64::MAX` loop turns.
pub open spec fn stmt_terminates(st: StateView, in_loop: bool, s: Stmt) -> bool {
    exec_stmt_fuel(st, in_loop, s, u64::MAX as nat) is Some
}

/// What running `s` gives, when it ends.
pub open spec fn exec_stmt_spec(st: StateView, in_loop: bool, s: Stmt) -> (StateView, Result<Flow, Seq<char>>) {
    exec_stmt_fuel(st, in_loop, s, choose|fuel: nat| #[trigger] exec_stmt_fuel(st, in_loop, s, fuel) is Some)->Some_0
}

/// What `first_handler` finds is one of the handlers looked at.
pub proof fn lemma_first_handler_in_range(message: Seq<char>, handlers: Seq<Handler>, n: int)
    ensures
        first_handler(message, handlers, n) matches Some(i) ==> 0 <= i < n && i < handlers.len(),
    decreases n,
{
    if 0 < n <= handlers.len() {
        lemma_first_handler_in_range(message, handlers, n - 1);
    }
}

/// Once a handler catches, looking at more handlers finds the same one.
proof fn lemma_first_handler_stays(message: Seq<char>, handlers: Seq<Handler>, n: int, m: int)
    requires
        0 < n <= m <= handlers.len(),
        first_handler(message, handlers, n) is Some,
    ensures
        first_handler(message, handlers, m) == first_handler(message, handlers, n),
    decreases m - n,
{
    if n < m {
        lemma_first_handler_stays(message, handlers, n, m - 1);
    }
}

/// Once a block stops at a statement that does not end normally, running
/// more of it gives the same.
proof fn lemma_block_stops(st: StateView, in_loop: bool, stmts: Seq<Stmt>, n: int, m: int, fuel: nat)
    requires
        0 < n <= m <= stmts.len(),
        !(exec_block_fuel(st, in_loop, stmts, n, fuel) matches Some((_, Ok(Flow::Normal)))),
    ensures
        exec_block_fuel(st, in_loop, stmts, m, fuel) == exec_block_fuel(st, in_loop, stmts, n, fuel),
    decreases m - n,
{
    if n < m {
        lemma_block_stops(st, in_loop, stmts, n, m - 1, fuel);
    }
}

/// `target[index] = value` with the values at `t`, `i` and `v`.
fn set_item(state: &mut EvalState, t: usize, i: usize, v: usize) -> (r: Result<Flow, RuntimeError>)
    requires
        state_wf(old(state)@),
        t < old(state)@.heap.len(),
        i < old(state)@.heap.len(),
        v < old(state)@.heap.len(),
    ensures
        final(state).in_loop == old(state).in_loop,
        state_wf(final(state)@),
        old(state)@.heap.len() == final(state)@.heap.len(),
        (final(state)@, result_view(r)) == set_item_spec(old(state)@, t, i, v),
{
    proof {
        assert(state@.heap[t as int] == state.heap@[t as int]@);
        assert(state@.heap[i as int] == state.heap@[i as int]@);
    }
    let ghost st = state@;
    let index = small_int(&state.heap[i]);
    let updated: Option<Result<Vec<usize>, RuntimeError>> = match &state.heap[t] {
        RtValue::List(items) => match index {
            Some(n) => match index_position(n, items.len()) {
                Some(p) => {
                    let mut copy = concat_refs(items, &Vec::new());
                    proof {
                        assert(copy@ =~= items@);
                    }
                    copy.set(p, v);
                    Some(Ok(copy))
                },
                None => {
                    let mut message = String::from_str("list index out of range: index ");
                    append_signed(&mut message, n);
                    message.append(", len ");
                    let len = items.len();
                    append_decimal(&mut message, len as u64);
                    proof {
                        assert(signed_text(len as int) == decimal_text(len as nat));
                    }
                    Some(Err(RuntimeError { message }))
                },
            },
            None => {
                let mut message = String::from_str("list indices must be integers, got ");
                let name = value_type(&state.heap[i]);
                message.append(name.as_str());
                Some(Err(RuntimeError { message }))
            },
        },
        _ => None,
    };
    match updated {
        Some(Ok(items)) => {
            let ghost new_items = items@;
            state.heap.set(t, RtValue::List(items));
            proof {
                assert(state@.heap =~= st.heap.update(t as int, RtView::List(new_items)));
                assert(state@.vars =~= st.vars);
                assert forall|c: int| 0 <= c < state@.heap.len() implies match #[trigger] state@.heap[c] {
                    RtView::List(xs) => forall|k: int| 0 <= k < xs.len() ==> #[trigger] xs[k] < state@.heap.len(),
                    _ => true,
                } by {
                    if c == t as int {
                        let old_list = st.heap[t as int];
                        assert forall|k: int| 0 <= k < new_items.len() implies #[trigger] new_items[k] < state@.heap.len() by {
                            assert(old_list matches RtView::List(xs) && (new_items[k] == v || new_items[k] == xs[k]));
                            if new_items[k] != v {
                                assert(old_list matches RtView::List(xs) && xs[k] < st.heap.len());
                            }
                        }
                    } else {
                        assert(state@.heap[c] == st.heap[c]);
                    }
                }
            }
            Ok(Flow::Normal)
        },
        Some(Err(e)) => Err(e),
        None => {
            let mut message = String::from_str("cannot index assign into ");
            let name = value_type(&state.heap[t]);
            message.append(name.as_str());
            Err(RuntimeError { message })
        },
    }
}

/// Opens a new scope.
fn enter(state: &mut EvalState)
    requires
        state_wf(old(state)@),
    ensures
        final(state).in_loop == old(state).in_loop,
        final(state)@ == enter_scope(old(state)@),
        state_wf(final(state)@),
{
    state.base = state.vars.len();
    state.final_base = state.finals.len();
    proof {
        assert(state@.vars =~= old(state)@.vars);
        assert(state@.finals =~= old(state)@.finals);
        assert(state@.heap =~= old(state)@.heap);
    }
}

/// Leaves the scope opened when the bindings and marks numbered
/// `vars_len` and `finals_len`, and the scope bounds were `base` and
/// `final_base`.
fn leave(state: &mut EvalState, vars_len: usize, finals_len: usize, base: usize, final_base: usize)
    requires
        state_wf(old(state)@),
        vars_len <= old(state)@.vars.len(),
        finals_len <= old(state)@.finals.len(),
        base <= vars_len,
        final_base <= finals_len,
    ensures
        final(state).in_loop == old(state).in_loop,
        final(state)@ == (StateView {
            heap: old(state)@.heap,
            vars: old(state)@.vars.take(vars_len as int),
            finals: old(state)@.finals.take(finals_len as int),
            base: base as nat,
            final_base: final_base as nat,
            output: old(state)@.output,
        }),
        state_wf(final(state)@),
{
    while state.vars.len() > vars_len
        invariant
            vars_len <= state@.vars.len(),
            state@.vars.take(vars_len as int) == old(state)@.vars.take(vars_len as int),
            state@.heap == old(state)@.heap,
            state@.finals == old(state)@.finals,
            state@.base == old(state)@.base,
            state@.final_base == old(state)@.final_base,
            state@.output == old(state)@.output,
            state.in_loop == old(state).in_loop,
            forall|i: int| 0 <= i < state@.vars.len() ==> (#[trigger] state@.vars[i]).1 < state@.heap.len(),
        decreases state.vars.len(),
    {
        let ghost before = state@.vars;
        state.vars.pop();
        proof {
            assert(state@.vars =~= before.drop_last());
            assert(state@.vars.take(vars_len as int) =~= before.take(vars_len as int));
        }
    }
    while state.finals.len() > finals_len
        invariant
            finals_len <= state@.finals.len(),
            state@.finals.take(finals_len as int) == old(state)@.finals.take(finals_len as int),
            state@.vars.len() == vars_len,
            state@.vars == old(state)@.vars.take(vars_len as int),
            state@.heap == old(state)@.heap,
            state@.output == old(state)@.output,
            state.in_loop == old(state).in_loop,
        decreases state.finals.len(),
    {
        let ghost before = state@.finals;
        state.finals.pop();
        proof {
            assert(state@.finals =~= before.drop_last());
            assert(state@.finals.take(finals_len as int) =~= before.take(finals_len as int));
        }
    }
    state.base = base;
    state.final_base = final_base;
    proof {
        assert(state@.vars =~= old(state)@.vars.take(vars_len as int));
        assert(state@.finals =~= old(state)@.finals.take(finals_len as int));
        assert(state@.heap =~= old(state)@.heap);
        assert forall|i: int| 0 <= i < state@.vars.len() implies (#[trigger] state@.vars[i]).1 < state@.heap.len() by {
            assert(state@.vars[i] == old(state)@.vars[i]);
        }
    }
}

/// Binds the names of pattern `p` to the parts of the value at `r`, as
/// `bind_spec` says.
fn bind_pattern(state: &mut EvalState, p: &Pattern, r: usize)
    requires
        state_wf(old(state)@),
        r < old(state)@.heap.len(),
    ensures
        state_wf(final(state)@),
        final(state).in_loop == old(state).in_loop,
        final(state)@.base == old(state)@.base,
        final(state)@.final_base == old(state)@.final_base,
        final(state)@.finals == old(state)@.finals,
        old(state)@.heap.len() <= final(state)@.heap.len(),
        final(state)@ == bind_spec(old(state)@, *p, r),
    decreases p, 0int,
{
    proof {
        assert(state@.heap[r as int] == state.heap@[r as int]@);
    }
    match p {
        Pattern::Ident(n) => {
            if pattern_identifier_binds(n.as_str()) {
                declare(state, n, r);
            }
        },
        Pattern::Star(inner) => {
            bind_pattern(state, inner, r);
        },
        Pattern::Tuple(ps) => {
            let listed: Option<Vec<usize>> = match &state.heap[r] {
                RtValue::List(items) => {
                    let copy = concat_refs(items, &Vec::new());
                    proof {
                        assert(copy@ =~= items@);
                    }
                    Some(copy)
                },
                _ => None,
            };
            let items = match listed {
                Some(items) => items,
                None => {
                    return;
                },
            };
            proof {
                assert(decreases_to!(*p => (*p)->Tuple_0));
                assert((*p)->Tuple_0 == *ps);
                assert(decreases_to!(*ps => ps@));
                let hr = state@.heap[r as int];
                assert forall|j: int| 0 <= j < items@.len() implies #[trigger] items@[j] < state@.heap.len() by {
                    assert(hr matches RtView::List(xs) && xs[j] < state@.heap.len());
                }
            }
            match find_star(ps) {
                None => {
                    bind_run(state, ps, &items, 0, 0, ps.len());
                },
                Some(k) => {
                    proof {
                        lemma_star_index_in(ps@);
                    }
                    let n = ps.len();
                    if items.len() < n - 1 {
                        return;
                    }
                    let tail = n - k - 1;
                    let rest_end = items.len() - tail;
                    bind_run(state, ps, &items, 0, 0, k);
                    let ghost s1 = state@;
                    let mut middle: Vec<usize> = Vec::new();
                    let mut j: usize = k;
                    while j < rest_end
                        invariant
                            k <= j <= rest_end,
                            rest_end <= items@.len(),
                            middle@ == items@.subrange(k as int, j as int),
                        decreases rest_end - j,
                    {
                        middle.push(items[j]);
                        j += 1;
                    }
                    proof {
                        assert(middle@ =~= items@.subrange(k as int, rest_end as int));
                    }
                    let list_ref = allocate(state, RtValue::List(middle));
                    let ghost s2 = state@;
                    let one = vec![list_ref];
                    proof {
                        assert(s2 == alloc_spec(s1, RtView::List(items@.subrange(k as int, rest_end as int))).0);
                        assert(one@ =~= seq![s1.heap.len() as usize]);
                    }
                    bind_run(state, ps, &one, k, 0, 1);
                    let ghost s3 = state@;
                    bind_run(state, ps, &items, k + 1, rest_end, tail);
                    proof {
                        let hr = old(state)@.heap[r as int];
                        assert(hr == RtView::List(items@));
                        assert(star_index(ps@) == Some(k as int));
                        assert(s3 == bind_pairs(s2, ps@, seq![s1.heap.len() as usize], k as int, 0, 1));
                        assert(state@ == bind_pairs(s3, ps@, items@, k + 1, rest_end as int, tail as int));
                    }
                },
            }
        },
        _ => {},
    }
}

/// Binds parts `p0 ..` of `ps` to items `i0 ..` of `items`, `n` pairs in
/// order, as `bind_pairs` says.
fn bind_run(state: &mut EvalState, ps: &Vec<Pattern>, items: &Vec<usize>, p0: usize, i0: usize, n: usize)
    requires
        state_wf(old(state)@),
        forall|j: int| 0 <= j < items@.len() ==> #[trigger] items@[j] < old(state)@.heap.len(),
    ensures
        state_wf(final(state)@),
        final(state).in_loop == old(state).in_loop,
        final(state)@.base == old(state)@.base,
        final(state)@.final_base == old(state)@.final_base,
        final(state)@.finals == old(state)@.finals,
        old(state)@.heap.len() <= final(state)@.heap.len(),
        final(state)@ == bind_pairs(old(state)@, ps@, items@, p0 as int, i0 as int, n as int),
    decreases ps@, 1int,
{
    let mut k: usize = 0;
    while k < n
        invariant
            k <= n,
            state_wf(state@),
            state.in_loop == old(state).in_loop,
            state@.base == old(state)@.base,
            state@.final_base == old(state)@.final_base,
            state@.finals == old(state)@.finals,
            old(state)@.heap.len() <= state@.heap.len(),
            forall|j: int| 0 <= j < items@.len() ==> #[trigger] items@[j] < old(state)@.heap.len(),
            state@ == bind_pairs(old(state)@, ps@, items@, p0 as int, i0 as int, k as int),
        decreases n - k,
    {
        if p0 < ps.len() && k < ps.len() - p0 && i0 < items.len() && k < items.len() - i0 {
            proof {
                assert(decreases_to!(ps@ => ps@[p0 + k]));
            }
            bind_pattern(state, &ps[p0 + k], items[i0 + k]);
        }
        k += 1;
    }
}

/// Runs a `for` loop over the list items `items`, as `for_items_fuel`
/// says, with loops allowed `fuel` turns: `None` when they need more.
fn run_for_items(state: &mut EvalState, name: &String, body: &Vec<Stmt>, items: &Vec<usize>, fuel: u64) -> (r: Option<Result<Flow, RuntimeError>>)
    requires
        state_wf(old(state)@),
        forall|j: int| 0 <= j < items@.len() ==> #[trigger] items@[j] < old(state)@.heap.len(),
    ensures
        state_wf(final(state)@),
        old(state)@.heap.len() <= final(state)@.heap.len(),
        final(state).in_loop == old(state).in_loop,
        final(state)@.base == old(state)@.base,
        final(state)@.final_base == old(state)@.final_base,
        match r {
            Some(res) => for_items_fuel(old(state)@, name@, body@, items@, 0, fuel as nat) == Some((final(state)@, result_view(res)))
                && (res matches Ok(Flow::Return(v)) ==> v < final(state)@.heap.len()),
            None => for_items_fuel(old(state)@, name@, body@, items@, 0, fuel as nat) is None,
        },
    decreases fuel, body@, 0int,
{
    let saved = state.in_loop;
    let ghost target = for_items_fuel(old(state)@, name@, body@, items@, 0, fuel as nat);
    let mut k: usize = 0;
    let mut f: u64 = fuel;
    loop
        invariant
            saved == old(state).in_loop,
            state.in_loop == saved,
            state_wf(state@),
            old(state)@.heap.len() <= state@.heap.len(),
            state@.base == old(state)@.base,
            state@.final_base == old(state)@.final_base,
            f <= fuel,
            k <= items@.len(),
            forall|j: int| 0 <= j < items@.len() ==> #[trigger] items@[j] < old(state)@.heap.len(),
            target == for_items_fuel(old(state)@, name@, body@, items@, 0, fuel as nat),
            for_items_fuel(state@, name@, body@, items@, k as int, f as nat) == target,
        decreases f,
    {
        if k >= items.len() {
            return Some(Ok(Flow::Normal));
        }
        if f == 0 {
            return None;
        }
        let vars_len = state.vars.len();
        let finals_len = state.finals.len();
        let base = state.base;
        let final_base = state.final_base;
        enter(state);
        declare(state, name, items[k]);
        state.in_loop = true;
        let res = exec_block(state, body, f - 1);
        state.in_loop = saved;
        leave(state, vars_len, finals_len, base, final_base);
        match res {
            None => {
                return None;
            },
            Some(Err(m)) => {
                return Some(Err(m));
            },
            Some(Ok(Flow::Break)) => {
                return Some(Ok(Flow::Normal));
            },
            Some(Ok(Flow::Return(x))) => {
                return Some(Ok(Flow::Return(x)));
            },
            Some(Ok(_)) => {
                k += 1;
                f -= 1;
            },
        }
    }
}

/// Runs a `for` loop over `range(start, stop, step)`, as `for_range_fuel`
/// says, with loops allowed `fuel` turns: `None` when they need more.
fn run_for_range(state: &mut EvalState, name: &String, body: &Vec<Stmt>, start: i64, stop: i64, step: i64, fuel: u64) -> (r: Option<Result<Flow, RuntimeError>>)
    requires
        state_wf(old(state)@),
    ensures
        state_wf(final(state)@),
        old(state)@.heap.len() <= final(state)@.heap.len(),
        final(state).in_loop == old(state).in_loop,
        final(state)@.base == old(state)@.base,
        final(state)@.final_base == old(state)@.final_base,
        match r {
            Some(res) => for_range_fuel(old(state)@, name@, body@, start as int, stop as int, step as int, fuel as nat) == Some((final(state)@, result_view(res)))
                && (res matches Ok(Flow::Return(v)) ==> v < final(state)@.heap.len()),
            None => for_range_fuel(old(state)@, name@, body@, start as int, stop as int, step as int, fuel as nat) is None,
        },
    decreases fuel, body@, 0int,
{
    let saved = state.in_loop;
    let ghost target = for_range_fuel(old(state)@, name@, body@, start as int, stop as int, step as int, fuel as nat);
    let mut cur: i64 = start;
    let mut f: u64 = fuel;
    loop
        invariant
            saved == old(state).in_loop,
            state.in_loop == saved,
            state_wf(state@),
            old(state)@.heap.len() <= state@.heap.len(),
            state@.base == old(state)@.base,
            state@.final_base == old(state)@.final_base,
            f <= fuel,
            target == for_range_fuel(old(state)@, name@, body@, start as int, stop as int, step as int, fuel as nat),
            for_range_fuel(state@, name@, body@, cur as int, stop as int, step as int, f as nat) == target,
        decreases f,
    {
        if !((step > 0 && cur < stop) || (step < 0 && cur > stop)) {
            return Some(Ok(Flow::Normal));
        }
        if f == 0 {
            return None;
        }
        let item = allocate(state, RtValue::Int(Integer::Int(cur)));
        let vars_len = state.vars.len();
        let finals_len = state.finals.len();
        let base = state.base;
        let final_base = state.final_base;
        enter(state);
        declare(state, name, item);
        state.in_loop = true;
        let res = exec_block(state, body, f - 1);
        state.in_loop = saved;
        leave(state, vars_len, finals_len, base, final_base);
        match res {
            None => {
                return None;
            },
            Some(Err(m)) => {
                return Some(Err(m));
            },
            Some(Ok(Flow::Break)) => {
                return Some(Ok(Flow::Normal));
            },
            Some(Ok(Flow::Return(x))) => {
                return Some(Ok(Flow::Return(x)));
            },
            Some(Ok(_)) => {
                match cur.checked_add(step) {
                    Some(next) => {
                        cur = next;
                        f -= 1;
                    },
                    None => {
                        return Some(Err(runtime_error("range step overflow")));
                    },
                }
            },
        }
    }
}

/// Runs `stmts` in order, as `exec_block_fuel` says, with loops allowed
/// `fuel` turns: `None` when they need more.
fn exec_block(state: &mut EvalState, stmts: &Vec<Stmt>, fuel: u64) -> (r: Option<Result<Flow, RuntimeError>>)
    requires
        state_wf(old(state)@),
    ensures
        state_wf(final(state)@),
        old(state)@.heap.len() <= final(state)@.heap.len(),
        final(state).in_loop == old(state).in_loop,
        final(state)@.base == old(state)@.base,
        final(state)@.final_base == old(state)@.final_base,
        match r {
            Some(res) => exec_block_fuel(old(state)@, old(state).in_loop, stmts@, stmts@.len() as int, fuel as nat)
                == Some((final(state)@, result_view(res)))
                && (res matches Ok(Flow::Return(v)) ==> v < final(state)@.heap.len()),
            None => exec_block_fuel(old(state)@, old(state).in_loop, stmts@, stmts@.len() as int, fuel as nat) is None,
        },
    decreases fuel, stmts@, 1int,
{
    let ghost st0 = state@;
    let ghost il = state.in_loop;
    let mut k: usize = 0;
    while k < stmts.len()
        invariant
            st0 == old(state)@,
            il == old(state).in_loop,
            state.in_loop == il,
            state_wf(state@),
            st0.heap.len() <= state@.heap.len(),
            state@.base == st0.base,
            state@.final_base == st0.final_base,
            k <= stmts@.len(),
            exec_block_fuel(st0, il, stmts@, k as int, fuel as nat) == Some((state@, Ok::<Flow, Seq<char>>(Flow::Normal))),
        decreases stmts.len() - k,
    {
        proof {
            assert(decreases_to!(stmts@ => stmts@[k as int]));
        }
        let res = exec_stmt(state, &stmts[k], fuel);
        match res {
            Some(Ok(Flow::Normal)) => {
                k += 1;
            },
            _ => {
                proof {
                    lemma_block_stops(st0, il, stmts@, k + 1, stmts@.len() as int, fuel as nat);
                }
                return res;
            },
        }
    }
    Some(Ok(Flow::Normal))
}

/// A copy of the bindings.
fn copy_bindings(vars: &Vec<(String, usize)>) -> (r: Vec<(String, usize)>)
    ensures
        r@.len() == vars@.len(),
        forall|j: int| 0 <= j < vars@.len() ==> (#[trigger] r@[j]).0@ == vars@[j].0@ && r@[j].1 == vars@[j].1,
{
    let mut out: Vec<(String, usize)> = Vec::new();
    let mut i: usize = 0;
    while i < vars.len()
        invariant
            i <= vars@.len(),
            out@.len() == i,
            forall|j: int| 0 <= j < i ==> (#[trigger] out@[j]).0@ == vars@[j].0@ && out@[j].1 == vars@[j].1,
        decreases vars.len() - i,
    {
        let name = vars[i].0.clone();
        let r = vars[i].1;
        out.push((name, r));
        i += 1;
    }
    out
}

/// A copy of the final marks.
fn copy_names(names: &Vec<String>) -> (r: Vec<String>)
    ensures
        r@.len() == names@.len(),
        forall|j: int| 0 <= j < names@.len() ==> (#[trigger] r@[j])@ == names@[j]@,
{
    let mut out: Vec<String> = Vec::new();
    let mut i: usize = 0;
    while i < names.len()
        invariant
            i <= names@.len(),
            out@.len() == i,
            forall|j: int| 0 <= j < i ==> (#[trigger] out@[j])@ == names@[j]@,
        decreases names.len() - i,
    {
        let name = names[i].clone();
        out.push(name);
        i += 1;
    }
    out
}

/// Runs the `match` statement `s`, as `exec_stmt_fuel` says.
fn run_match(state: &mut EvalState, s: &Stmt, fuel: u64) -> (r: Option<Result<Flow, RuntimeError>>)
    requires
        state_wf(old(state)@),
        s is Match,
    ensures
        state_wf(final(state)@),
        old(state)@.heap.len() <= final(state)@.heap.len(),
        final(state).in_loop == old(state).in_loop,
        final(state)@.base == old(state)@.base,
        final(state)@.final_base == old(state)@.final_base,
        match r {
            Some(res) => exec_stmt_fuel(old(state)@, old(state).in_loop, *s, fuel as nat) == Some((final(state)@, result_view(res)))
                && (res matches Ok(Flow::Return(v)) ==> v < final(state)@.heap.len()),
            None => exec_stmt_fuel(old(state)@, old(state).in_loop, *s, fuel as nat) is None,
        },
    decreases fuel, *s, 0int,
{
    let (subject, alias, arms) = match s {
        Stmt::Match(subject, alias, arms) => (subject, alias, arms),
        _ => {
            proof {
                assert(false);
            }
            return None;
        },
    };
    let il = state.in_loop;
    let v = match eval_expr(state, subject) {
        Ok(v) => v,
        Err(m) => {
            return Some(Err(m));
        },
    };
    let ghost target = match_arms_fuel(state@, il, v, *alias, arms@, 0, fuel as nat);
    proof {
        assert(target == exec_stmt_fuel(old(state)@, il, *s, fuel as nat));
        assert(decreases_to!(*s => (*s)->Match_2));
        assert((*s)->Match_2 == *arms);
        assert(decreases_to!(*arms => arms@));
    }
    let mut k: usize = 0;
    loop
        invariant
            il == old(state).in_loop,
            state.in_loop == il,
            state_wf(state@),
            old(state)@.heap.len() <= state@.heap.len(),
            state@.base == old(state)@.base,
            state@.final_base == old(state)@.final_base,
            v < state@.heap.len(),
            k <= arms@.len(),
            decreases_to!(*s => arms@),
            target == exec_stmt_fuel(old(state)@, il, *s, fuel as nat),
            match_arms_fuel(state@, il, v, *alias, arms@, k as int, fuel as nat) == target,
        decreases arms@.len() - k,
    {
        if k >= arms.len() {
            let mut message = String::from_str("non-exhaustive match: unhandled value ");
            let shown = debug_repr(state, v, state.heap.len());
            message.append(shown.as_str());
            return Some(Err(RuntimeError { message }));
        }
        proof {
            assert(state@.heap[v as int] == state.heap@[v as int]@);
            let hv = state@.heap[v as int];
            if let RtView::List(items) = hv {
                assert forall|j: int| 0 <= j < items.len() implies #[trigger] items[j] < state@.heap.len() by {
                    assert(state@.heap[v as int] matches RtView::List(xs) && xs[j] < state@.heap.len());
                }
            }
            assert(items_in_heap(hv, state@.heap.len()));
        }
        if !matches_pattern(state, &arms[k].pattern, &state.heap[v]) {
            k += 1;
        } else {
            proof {
                assert(decreases_to!(arms@ => arms@[k as int]));
                assert(decreases_to!(arms@[k as int] => arms@[k as int].body));
                assert(decreases_to!(arms@[k as int].body => arms@[k as int].body@));
            }
            let ghost saved = state@;
            let saved_vars = copy_bindings(&state.vars);
            let saved_finals = copy_names(&state.finals);
            let saved_base = state.base;
            let saved_final_base = state.final_base;
            match alias {
                Some(a) => declare(state, a, v),
                None => {},
            }
            bind_pattern(state, &arms[k].pattern, v);
            match &arms[k].guard {
                None => {
                    return exec_block(state, &arms[k].body, fuel);
                },
                Some(g) => {
                    let gv = match eval_expr(state, g) {
                        Ok(gv) => gv,
                        Err(m) => {
                            return Some(Err(m));
                        },
                    };
                    proof {
                        assert(state@.heap[gv as int] == state.heap@[gv as int]@);
                    }
                    if value_truthy(&state.heap[gv]) {
                        return exec_block(state, &arms[k].body, fuel);
                    }
                    let ghost s3 = state@;
                    state.vars = saved_vars;
                    state.finals = saved_finals;
                    state.base = saved_base;
                    state.final_base = saved_final_base;
                    proof {
                        assert(state@.vars =~= saved.vars);
                        assert(state@.finals =~= saved.finals);
                        assert(state@ == restore_bindings(s3, saved));
                        assert forall|i: int| 0 <= i < state@.vars.len() implies (#[trigger] state@.vars[i]).1 < state@.heap.len() by {
                            assert(saved.vars[i].1 < saved.heap.len());
                        }
                    }
                    k += 1;
                },
            }
        }
    }
}

/// Runs the `assert` or `raise` statement `s`, as `exec_stmt_fuel` says.
fn run_check(state: &mut EvalState, s: &Stmt, fuel: u64) -> (r: Option<Result<Flow, RuntimeError>>)
    requires
        state_wf(old(state)@),
        s is Assert || s is Raise,
    ensures
        state_wf(final(state)@),
        old(state)@.heap.len() <= final(state)@.heap.len(),
        final(state).in_loop == old(state).in_loop,
        final(state)@.base == old(state)@.base,
        final(state)@.final_base == old(state)@.final_base,
        match r {
            Some(res) => exec_stmt_fuel(old(state)@, old(state).in_loop, *s, fuel as nat) == Some((final(state)@, result_view(res)))
                && (res matches Ok(Flow::Return(v)) ==> v < final(state)@.heap.len()),
            None => exec_stmt_fuel(old(state)@, old(state).in_loop, *s, fuel as nat) is None,
        },
{
    match s {
        Stmt::Assert(condition, message) => {
            let v = match eval_expr(state, condition) {
                Ok(v) => v,
                Err(m) => {
                    return Some(Err(m));
                },
            };
            proof {
                assert(state@.heap[v as int] == state.heap@[v as int]@);
            }
            if value_truthy(&state.heap[v]) {
                return Some(Ok(Flow::Normal));
            }
            match message {
                None => Some(Err(runtime_error("assertion failed"))),
                Some(me) => {
                    let mv = match eval_expr(state, me) {
                        Ok(mv) => mv,
                        Err(m) => {
                            return Some(Err(m));
                        },
                    };
                    proof {
                        assert(state@.heap[mv as int] == state.heap@[mv as int]@);
                    }
                    let text = match &state.heap[mv] {
                        RtValue::Str(t) => t.clone(),
                        _ => debug_repr(state, mv, state.heap.len()),
                    };
                    Some(Err(RuntimeError { message: text }))
                },
            }
        },
        Stmt::Raise(value) => {
            let v = match eval_expr(state, value) {
                Ok(v) => v,
                Err(m) => {
                    return Some(Err(m));
                },
            };
            proof {
                assert(state@.heap[v as int] == state.heap@[v as int]@);
            }
            let mut message = String::from_str("raised invariant (");
            let name = value_type(&state.heap[v]);
            message.append(name.as_str());
            message.append("): ");
            let shown = debug_repr(state, v, state.heap.len());
            message.append(shown.as_str());
            Some(Err(RuntimeError { message }))
        },
        _ => None,
    }
}

/// Runs the `for` statement `s`, as `exec_stmt_fuel` says.
fn run_for(state: &mut EvalState, s: &Stmt, fuel: u64) -> (r: Option<Result<Flow, RuntimeError>>)
    requires
        state_wf(old(state)@),
        s is For,
    ensures
        state_wf(final(state)@),
        old(state)@.heap.len() <= final(state)@.heap.len(),
        final(state).in_loop == old(state).in_loop,
        final(state)@.base == old(state)@.base,
        final(state)@.final_base == old(state)@.final_base,
        match r {
            Some(res) => exec_stmt_fuel(old(state)@, old(state).in_loop, *s, fuel as nat) == Some((final(state)@, result_view(res)))
                && (res matches Ok(Flow::Return(v)) ==> v < final(state)@.heap.len()),
            None => exec_stmt_fuel(old(state)@, old(state).in_loop, *s, fuel as nat) is None,
        },
    decreases fuel, *s, 0int,
{
    match s {
        Stmt::For(name, iterable, body) => {
            let v = match eval_expr(state, iterable) {
                Ok(v) => v,
                Err(m) => {
                    return Some(Err(m));
                },
            };
            proof {
                assert(state@.heap[v as int] == state.heap@[v as int]@);
                assert(decreases_to!(*s => (*s)->For_2));
                assert((*s)->For_2 == *body);
                assert(decreases_to!(*body => body@));
            }
            let source: Option<Result<Vec<usize>, (i64, i64, i64)>> = match &state.heap[v] {
                RtValue::List(items) => {
                    let copy = concat_refs(items, &Vec::new());
                    proof {
                        assert(copy@ =~= items@);
                    }
                    Some(Ok(copy))
                },
                RtValue::Range(a, b, c) => Some(Err((*a, *b, *c))),
                _ => None,
            };
            match source {
                None => Some(Err(runtime_error("value is not iterable"))),
                Some(Ok(items)) => run_for_items(state, name, body, &items, fuel),
                Some(Err((a, b, c))) => run_for_range(state, name, body, a, b, c, fuel),
            }
        },
        _ => None,
    }
}

/// Runs the `del` statement `s`, as `exec_stmt_fuel` says.
fn run_delete(state: &mut EvalState, s: &Stmt, fuel: u64) -> (r: Option<Result<Flow, RuntimeError>>)
    requires
        state_wf(old(state)@),
        s is Delete,
    ensures
        state_wf(final(state)@),
        old(state)@.heap.len() <= final(state)@.heap.len(),
        final(state).in_loop == old(state).in_loop,
        final(state)@.base == old(state)@.base,
        final(state)@.final_base == old(state)@.final_base,
        match r {
            Some(res) => exec_stmt_fuel(old(state)@, old(state).in_loop, *s, fuel as nat) == Some((final(state)@, result_view(res)))
                && (res matches Ok(Flow::Return(v)) ==> v < final(state)@.heap.len()),
            None => exec_stmt_fuel(old(state)@, old(state).in_loop, *s, fuel as nat) is None,
        },
{
    match s {
        Stmt::Delete(names) => {
            let ghost st0 = state@;
            let mut k: usize = 0;
            while k < names.len()
                invariant
                    st0 == old(state)@,
                    state.in_loop == old(state).in_loop,
                    state_wf(state@),
                    st0.heap == state@.heap,
                    state@.base == st0.base,
                    state@.final_base == st0.final_base,
                    k <= names@.len(),
                    delete_all_spec(st0, names@, k as int) == (state@, Ok::<Flow, Seq<char>>(Flow::Normal)),
                    *s == Stmt::Delete(*names),
                decreases names.len() - k,
            {
                let ghost before = state@;
                let r = delete_name(state, &names[k]);
                proof {
                    assert(delete_all_spec(st0, names@, k + 1) == delete_spec(before, names@[k as int]@));
                }
                if r.is_err() {
                    proof {
                        lemma_delete_all_stops(st0, names@, k + 1, names@.len() as int);
                    }
                    return Some(r);
                }
                k += 1;
            }
            Some(Ok(Flow::Normal))
        },
        _ => None,
    }
}

/// Runs the `try` statement `s`, as `exec_stmt_fuel` says.
fn run_try(state: &mut EvalState, s: &Stmt, fuel: u64) -> (r: Option<Result<Flow, RuntimeError>>)
    requires
        state_wf(old(state)@),
        s is Try,
    ensures
        state_wf(final(state)@),
        old(state)@.heap.len() <= final(state)@.heap.len(),
        final(state).in_loop == old(state).in_loop,
        final(state)@.base == old(state)@.base,
        final(state)@.final_base == old(state)@.final_base,
        match r {
            Some(res) => exec_stmt_fuel(old(state)@, old(state).in_loop, *s, fuel as nat) == Some((final(state)@, result_view(res)))
                && (res matches Ok(Flow::Return(v)) ==> v < final(state)@.heap.len()),
            None => exec_stmt_fuel(old(state)@, old(state).in_loop, *s, fuel as nat) is None,
        },
    decreases fuel, *s, 0int,
{
    let (body, handlers, finally_body) = match s {
        Stmt::Try(body, handlers, finally_body) => (body, handlers, finally_body),
        _ => {
            proof {
                assert(false);
            }
            return None;
        },
    };
    proof {
        assert(decreases_to!(*s => (*s)->Try_0));
        assert((*s)->Try_0 == *body);
        assert(decreases_to!(*body => body@));
    }
    let ghost st0 = state@;
    let first = match exec_block(state, body, fuel) {
        None => {
            return None;
        },
        Some(r) => r,
    };
    let ghost s1 = state@;
    let main: Result<Flow, RuntimeError> = match first {
        Ok(f) => Ok(f),
        Err(err) => {
            let mut h: usize = 0;
            let mut found = false;
            while h < handlers.len() && !found
                invariant
                    h <= handlers@.len(),
                    !found ==> first_handler(err.message@, handlers@, h as int) is None,
                    found ==> h < handlers@.len() && first_handler(err.message@, handlers@, h + 1) == Some(h as int),
                decreases handlers@.len() - h + (if found { 0int } else { 1int }),
            {
                if error_matches_handler(&err, &handlers[h].exception_type) {
                    found = true;
                } else {
                    h += 1;
                }
            }
            if found {
                proof {
                    lemma_first_handler_stays(err.message@, handlers@, h + 1, handlers@.len() as int);
                    assert(decreases_to!(*s => (*s)->Try_1));
                    assert((*s)->Try_1 == *handlers);
                    assert(decreases_to!(*handlers => handlers@));
                    assert(decreases_to!(handlers@ => handlers@[h as int]));
                    assert(decreases_to!(handlers@[h as int] => handlers@[h as int].body));
                    assert(decreases_to!(handlers@[h as int].body => handlers@[h as int].body@));
                }
                match &handlers[h].name {
                    Some(n) => {
                        let text = err.message.clone();
                        let r = allocate(state, RtValue::Str(text));
                        declare(state, n, r);
                    },
                    None => {},
                }
                match exec_block(state, &handlers[h].body, fuel) {
                    None => {
                        return None;
                    },
                    Some(r) => r,
                }
            } else {
                Err(err)
            }
        },
    };
    match finally_body {
        None => Some(main),
        Some(fb) => {
            proof {
                assert(decreases_to!(*s => (*s)->Try_2));
                assert((*s)->Try_2 == *finally_body);
                assert(decreases_to!(*finally_body => (*finally_body)->Some_0));
                assert(decreases_to!(*fb => fb@));
            }
            match exec_block(state, fb, fuel) {
                None => None,
                Some(cleanup) => {
                    if cleanup.is_err() || matches!(cleanup, Ok(Flow::Return(_))) {
                        Some(cleanup)
                    } else {
                        Some(main)
                    }
                },
            }
        },
    }
}

/// Runs `s`, as `exec_stmt_fuel` says, with loops allowed `fuel` turns:
/// `None` when they need more.
fn exec_stmt(state: &mut EvalState, s: &Stmt, fuel: u64) -> (r: Option<Result<Flow, RuntimeError>>)
    requires
        state_wf(old(state)@),
    ensures
        state_wf(final(state)@),
        old(state)@.heap.len() <= final(state)@.heap.len(),
        final(state).in_loop == old(state).in_loop,
        final(state)@.base == old(state)@.base,
        final(state)@.final_base == old(state)@.final_base,
        match r {
            Some(res) => exec_stmt_fuel(old(state)@, old(state).in_loop, *s, fuel as nat) == Some((final(state)@, result_view(res)))
                && (res matches Ok(Flow::Return(v)) ==> v < final(state)@.heap.len()),
            None => exec_stmt_fuel(old(state)@, old(state).in_loop, *s, fuel as nat) is None,
        },
    decreases fuel, *s, 1int,
{
    match s {
        Stmt::VarDecl(name, value, fin) => {
            let v = match value {
                Some(e) => match eval_expr(state, e) {
                    Ok(v) => v,
                    Err(m) => {
                        return Some(Err(m));
                    },
                },
                None => allocate(state, RtValue::NoneValue),
            };
            declare(state, name, v);
            if *fin {
                mark_final(state, name);
            }
            Some(Ok(Flow::Normal))
        },
        Stmt::Assign(name, e) => {
            let v = match eval_expr(state, e) {
                Ok(v) => v,
                Err(m) => {
                    return Some(Err(m));
                },
            };
            if is_final(state, name) {
                let mut message = String::from_str("cannot reassign final variable '");
                message.append(name.as_str());
                message.append("'");
                return Some(Err(RuntimeError { message }));
            }
            assign(state, name, v);
            Some(Ok(Flow::Normal))
        },
        Stmt::AugAssign(name, op, e) => {
            let b = match eval_expr(state, e) {
                Ok(v) => v,
                Err(m) => {
                    return Some(Err(m));
                },
            };
            if is_final(state, name) {
                let mut message = String::from_str("cannot reassign final variable '");
                message.append(name.as_str());
                message.append("'");
                return Some(Err(RuntimeError { message }));
            }
            proof {
                lemma_var_index_is(state@.vars, name@);
            }
            let a = match find_var(state, name) {
                Some(i) => state.vars[i].1,
                None => {
                    let mut message = String::from_str("undefined variable '");
                    message.append(name.as_str());
                    message.append("'");
                    return Some(Err(RuntimeError { message }));
                },
            };
            proof {
                assert(state@.vars[var_index(state@.vars, name@)->0].1 == a);
            }
            let n = if *op == BinOp::And || *op == BinOp::Or {
                proof {
                    assert(state@.heap[a as int] == state.heap@[a as int]@);
                }
                if (*op == BinOp::And) == value_truthy(&state.heap[a]) { b } else { a }
            } else {
                match binary(state, *op, a, b) {
                    Ok(n) => n,
                    Err(m) => {
                        return Some(Err(m));
                    },
                }
            };
            assign(state, name, n);
            Some(Ok(Flow::Normal))
        },
        Stmt::Delete(_) => run_delete(state, s, fuel),
        Stmt::Try(_, _, _) => run_try(state, s, fuel),
        Stmt::Match(_, _, _) => run_match(state, s, fuel),
        Stmt::Assert(_, _) | Stmt::Raise(_) => run_check(state, s, fuel),
        Stmt::For(_, _, _) => run_for(state, s, fuel),
        Stmt::SetItem(target, index, value) => {
            let v = match eval_expr(state, value) {
                Ok(v) => v,
                Err(m) => {
                    return Some(Err(m));
                },
            };
            let t = match eval_expr(state, target) {
                Ok(t) => t,
                Err(m) => {
                    return Some(Err(m));
                },
            };
            let i = match eval_expr(state, index) {
                Ok(i) => i,
                Err(m) => {
                    return Some(Err(m));
                },
            };
            Some(set_item(state, t, i, v))
        },
        Stmt::ExprStmt(e) => match eval_expr(state, e) {
            Ok(_) => Some(Ok(Flow::Normal)),
            Err(m) => Some(Err(m)),
        },
        Stmt::If(c, then_body, else_body) => {
            let v = match eval_expr(state, c) {
                Ok(v) => v,
                Err(m) => {
                    return Some(Err(m));
                },
            };
            proof {
                assert(state@.heap[v as int] == state.heap@[v as int]@);
            }
            if value_truthy(&state.heap[v]) {
                proof {
                    assert(decreases_to!(*s => (*s)->If_1));
                    assert((*s)->If_1 == *then_body);
                    assert(decreases_to!(*then_body => then_body@));
                }
                exec_block(state, then_body, fuel)
            } else {
                proof {
                    assert(decreases_to!(*s => (*s)->If_2));
                    assert((*s)->If_2 == *else_body);
                    assert(decreases_to!(*else_body => else_body@));
                }
                exec_block(state, else_body, fuel)
            }
        },
        Stmt::While(c, body) => {
            let saved = state.in_loop;
            let ghost target = exec_stmt_fuel(old(state)@, saved, *s, fuel as nat);
            let mut f: u64 = fuel;
            loop
                invariant
                    saved == old(state).in_loop,
                    state.in_loop == saved,
                    state_wf(state@),
                    old(state)@.heap.len() <= state@.heap.len(),
                    state@.base == old(state)@.base,
                    state@.final_base == old(state)@.final_base,
                    f <= fuel,
                    target == exec_stmt_fuel(old(state)@, saved, *s, fuel as nat),
                    exec_stmt_fuel(state@, saved, *s, f as nat) == target,
                    *s == Stmt::While(*c, *body),
                decreases f,
            {
                if f == 0 {
                    return None;
                }
                let v = match eval_expr(state, c) {
                    Ok(v) => v,
                    Err(m) => {
                        return Some(Err(m));
                    },
                };
                proof {
                    assert(state@.heap[v as int] == state.heap@[v as int]@);
                }
                if !value_truthy(&state.heap[v]) {
                    return Some(Ok(Flow::Normal));
                }
                state.in_loop = true;
                let res = exec_block(state, body, f - 1);
                state.in_loop = saved;
                match res {
                    None => {
                        return None;
                    },
                    Some(Err(m)) => {
                        return Some(Err(m));
                    },
                    Some(Ok(Flow::Break)) => {
                        return Some(Ok(Flow::Normal));
                    },
                    Some(Ok(Flow::Return(x))) => {
                        return Some(Ok(Flow::Return(x)));
                    },
                    Some(Ok(_)) => {
                        f = f - 1;
                    },
                }
            }
        },
        Stmt::Return(e) => match eval_expr(state, e) {
            Ok(v) => Some(Ok(Flow::Return(v))),
            Err(m) => Some(Err(m)),
        },
        Stmt::Break => {
            if state.in_loop {
                Some(Ok(Flow::Break))
            } else {
                Some(Err(runtime_error("break is only valid inside a loop")))
            }
        },
        Stmt::Continue => {
            if state.in_loop {
                Some(Ok(Flow::Continue))
            } else {
                Some(Err(runtime_error("continue is only valid inside a loop")))
            }
        },
        Stmt::Pass => Some(Ok(Flow::Normal)),
    }
}

impl EvalState {
    /// A state with no values and no variables, outside any loop.
    pub fn new() -> (st: Self)
        ensures
            st@.heap.len() == 0,
            st@.vars.len() == 0,
            !st.in_loop,
            state_wf(st@),
    {
        EvalState { heap: Vec::new(), vars: Vec::new(), finals: Vec::new(), base: 0, final_base: 0, output: Vec::new(), in_loop: false }
    }
}

/// Runs `s` to its end: the state after it and how it ended, exactly as
/// `exec_stmt_spec` says. A statement whose loops do not end within
/// `u64::MAX` turns is not accepted; `eval_statement_bounded` takes any.
pub fn eval_statement(state: &mut EvalState, s: &Stmt) -> (r: Result<Flow, RuntimeError>)
    requires
        state_wf(old(state)@),
        stmt_terminates(old(state)@, old(state).in_loop, *s),
    ensures
        state_wf(final(state)@),
        final(state).in_loop == old(state).in_loop,
        (final(state)@, result_view(r)) == exec_stmt_spec(old(state)@, old(state).in_loop, *s),
        r matches Ok(Flow::Return(v)) ==> v < final(state)@.heap.len(),
{
    proof {
        law_exec_stmt_spec_is_any_sufficient_run(state@, state.in_loop, *s, u64::MAX as nat);
    }
    match exec_stmt(state, s, u64::MAX) {
        Some(r) => r,
        None => {
            proof {
                assert(false);
            }
            Ok(Flow::Normal)
        },
    }
}

/// Runs `s` with its loops allowed `fuel` turns in all: `None` when they
/// need more, else the state after it and how it ended, as
/// `exec_stmt_fuel` says.
pub fn eval_statement_bounded(state: &mut EvalState, s: &Stmt, fuel: u64) -> (r: Option<Result<Flow, RuntimeError>>)
    requires
        state_wf(old(state)@),
    ensures
        state_wf(final(state)@),
        final(state).in_loop == old(state).in_loop,
        match r {
            Some(res) => exec_stmt_fuel(old(state)@, old(state).in_loop, *s, fuel as nat) == Some((final(state)@, result_view(res))),
            None => exec_stmt_fuel(old(state)@, old(state).in_loop, *s, fuel as nat) is None,
        },
{
    exec_stmt(state, s, fuel)
}

/// Allowing a statement's loops more turns than they need changes nothing:
/// once `fuel` suffices, any larger `more` gives the same state and outcome.
pub proof fn law_stmt_fuel_monotone(st: StateView, in_loop: bool, s: Stmt, fuel: nat, more: nat)
    requires
        fuel <= more,
        exec_stmt_fuel(st, in_loop, s, fuel) is Some,
    ensures
        exec_stmt_fuel(st, in_loop, s, more) == exec_stmt_fuel(st, in_loop, s, fuel),
    decreases fuel, s, 0int,
{
    match s {
        Stmt::If(c, then_body, else_body) => {
            let (s1, r) = eval_expr_spec(st, c);
            if let Ok(v) = r {
                if truthy(s1.heap[v as int]) {
                    law_block_fuel_monotone(s1, in_loop, then_body@, then_body@.len() as int, fuel, more);
                } else {
                    law_block_fuel_monotone(s1, in_loop, else_body@, else_body@.len() as int, fuel, more);
                }
            }
        },
        Stmt::While(c, body) => {
            let (s1, r) = eval_expr_spec(st, c);
            if let Ok(v) = r {
                if truthy(s1.heap[v as int]) {
                    let n = body@.len() as int;
                    law_block_fuel_monotone(s1, true, body@, n, (fuel - 1) as nat, (more - 1) as nat);
                    if let Some((s2, Ok(flow))) = exec_block_fuel(s1, true, body@, n, (fuel - 1) as nat) {
                        if flow is Normal || flow is Continue {
                            law_stmt_fuel_monotone(s2, in_loop, s, (fuel - 1) as nat, (more - 1) as nat);
                        }
                    }
                }
            }
        },
        Stmt::Match(subject, alias, arms) => {
            let (s1, r) = eval_expr_spec(st, subject);
            if let Ok(v) = r {
                lemma_match_arms_fuel_monotone(s1, in_loop, v, alias, arms@, 0, fuel, more);
            }
        },
        Stmt::Try(body, handlers, finally_body) => {
            law_block_fuel_monotone(st, in_loop, body@, body@.len() as int, fuel, more);
            if let Some((s1, r)) = exec_block_fuel(st, in_loop, body@, body@.len() as int, fuel) {
                let main = match r {
                    Ok(f) => Some((s1, Ok(f))),
                    Err(m) => match first_handler(m, handlers@, handlers@.len() as int) {
                        None => Some((s1, Err(m))),
                        Some(h) => {
                            lemma_first_handler_in_range(m, handlers@, handlers@.len() as int);
                            assert(decreases_to!(handlers@ => handlers@[h]));
                            assert(decreases_to!(handlers@[h] => handlers@[h].body));
                            assert(decreases_to!(handlers@[h].body => handlers@[h].body@));
                            let hs = handler_state(s1, handlers@[h].name, m);
                            law_block_fuel_monotone(hs, in_loop, handlers@[h].body@, handlers@[h].body@.len() as int, fuel, more);
                            exec_block_fuel(hs, in_loop, handlers@[h].body@, handlers@[h].body@.len() as int, fuel)
                        },
                    },
                };
                if let Some((s3, r3)) = main {
                    if let Some(fb) = finally_body {
                        law_block_fuel_monotone(s3, in_loop, fb@, fb@.len() as int, fuel, more);
                    }
                }
            }
        },
        Stmt::For(name, iterable, body) => {
            let (s1, r) = eval_expr_spec(st, iterable);
            if let Ok(v) = r {
                match s1.heap[v as int] {
                    RtView::List(items) => lemma_for_items_fuel_monotone(s1, name@, body@, items, 0, fuel, more),
                    RtView::Range(a, b, c) => lemma_for_range_fuel_monotone(s1, name@, body@, a, b, c, fuel, more),
                    _ => {},
                }
            }
        },
        _ => {},
    }
}

/// Allowing the arms of a `match` more loop turns than they need changes
/// nothing.
proof fn lemma_match_arms_fuel_monotone(st: StateView, in_loop: bool, v: usize, alias: Option<String>, arms: Seq<MatchArm>, k: int, fuel: nat, more: nat)
    requires
        fuel <= more,
        match_arms_fuel(st, in_loop, v, alias, arms, k, fuel) is Some,
    ensures
        match_arms_fuel(st, in_loop, v, alias, arms, k, more) == match_arms_fuel(st, in_loop, v, alias, arms, k, fuel),
    decreases fuel, arms, arms.len() - k,
{
    if 0 <= k < arms.len() {
        if !pattern_matches(st.heap, arms[k].pattern, st.heap[v as int]) {
            lemma_match_arms_fuel_monotone(st, in_loop, v, alias, arms, k + 1, fuel, more);
        } else {
            assert(decreases_to!(arms => arms[k]));
            assert(decreases_to!(arms[k] => arms[k].body));
            assert(decreases_to!(arms[k].body => arms[k].body@));
            let s1 = match alias {
                Some(a) => declare_spec(st, a@, v),
                None => st,
            };
            let s2 = bind_spec(s1, arms[k].pattern, v);
            match arms[k].guard {
                None => {
                    law_block_fuel_monotone(s2, in_loop, arms[k].body@, arms[k].body@.len() as int, fuel, more);
                },
                Some(g) => {
                    let (s3, rg) = eval_expr_spec(s2, g);
                    if let Ok(gv) = rg {
                        if truthy(s3.heap[gv as int]) {
                            law_block_fuel_monotone(s3, in_loop, arms[k].body@, arms[k].body@.len() as int, fuel, more);
                        } else {
                            lemma_match_arms_fuel_monotone(restore_bindings(s3, st), in_loop, v, alias, arms, k + 1, fuel, more);
                        }
                    }
                },
            }
        }
    }
}

/// Allowing a `for` loop over list items more turns than it needs changes
/// nothing.
proof fn lemma_for_items_fuel_monotone(st: StateView, name: Seq<char>, body: Seq<Stmt>, items: Seq<usize>, k: int, fuel: nat, more: nat)
    requires
        fuel <= more,
        for_items_fuel(st, name, body, items, k, fuel) is Some,
    ensures
        for_items_fuel(st, name, body, items, k, more) == for_items_fuel(st, name, body, items, k, fuel),
    decreases fuel, body, 0int,
{
    if 0 <= k < items.len() && fuel > 0 {
        let inner = declare_spec(enter_scope(st), name, items[k]);
        law_block_fuel_monotone(inner, true, body, body.len() as int, (fuel - 1) as nat, (more - 1) as nat);
        if let Some((s2, Ok(flow))) = exec_block_fuel(inner, true, body, body.len() as int, (fuel - 1) as nat) {
            if !(flow is Break) && !(flow is Return) {
                lemma_for_items_fuel_monotone(leave_scope(s2, st), name, body, items, k + 1, (fuel - 1) as nat, (more - 1) as nat);
            }
        }
    }
}

/// Allowing a `for` loop over a range more turns than it needs changes
/// nothing.
proof fn lemma_for_range_fuel_monotone(st: StateView, name: Seq<char>, body: Seq<Stmt>, cur: int, stop: int, step: int, fuel: nat, more: nat)
    requires
        fuel <= more,
        for_range_fuel(st, name, body, cur, stop, step, fuel) is Some,
    ensures
        for_range_fuel(st, name, body, cur, stop, step, more) == for_range_fuel(st, name, body, cur, stop, step, fuel),
    decreases fuel, body, 0int,
{
    if ((step > 0 && cur < stop) || (step < 0 && cur > stop)) && fuel > 0 {
        let s1 = alloc_spec(st, RtView::Int(cur, true)).0;
        let inner = declare_spec(enter_scope(s1), name, st.heap.len() as usize);
        law_block_fuel_monotone(inner, true, body, body.len() as int, (fuel - 1) as nat, (more - 1) as nat);
        if let Some((s2, Ok(flow))) = exec_block_fuel(inner, true, body, body.len() as int, (fuel - 1) as nat) {
            if !(flow is Break) && !(flow is Return) && i64::MIN <= cur + step <= i64::MAX {
                lemma_for_range_fuel_monotone(leave_scope(s2, s1), name, body, cur + step, stop, step, (fuel - 1) as nat, (more - 1) as nat);
            }
        }
    }
}

/// Allowing a block's loops more turns than they need changes nothing.
pub proof fn law_block_fuel_monotone(st: StateView, in_loop: bool, stmts: Seq<Stmt>, n: int, fuel: nat, more: nat)
    requires
        fuel <= more,
        exec_block_fuel(st, in_loop, stmts, n, fuel) is Some,
    ensures
        exec_block_fuel(st, in_loop, stmts, n, more) == exec_block_fuel(st, in_loop, stmts, n, fuel),
    decreases fuel, stmts, n,
{
    if 0 < n <= stmts.len() {
        law_block_fuel_monotone(st, in_loop, stmts, n - 1, fuel, more);
        if let Some((s1, Ok(Flow::Normal))) = exec_block_fuel(st, in_loop, stmts, n - 1, fuel) {
            law_stmt_fuel_monotone(s1, in_loop, stmts[n - 1], fuel, more);
        }
    }
}

/// Whatever number of loop turns suffices for `s`, it gives what
/// `exec_stmt_spec` says running `s` gives.
pub proof fn law_exec_stmt_spec_is_any_sufficient_run(st: StateView, in_loop: bool, s: Stmt, fuel: nat)
    requires
        exec_stmt_fuel(st, in_loop, s, fuel) is Some,
    ensures
        exec_stmt_fuel(st, in_loop, s, fuel) == Some(exec_stmt_spec(st, in_loop, s)),
{
    let chosen = choose|f: nat| #[trigger] exec_stmt_fuel(st, in_loop, s, f) is Some;
    assert(exec_stmt_fuel(st, in_loop, s, chosen) is Some);
    if chosen <= fuel {
        law_stmt_fuel_monotone(st, in_loop, s, chosen, fuel);
    } else {
        law_stmt_fuel_monotone(st, in_loop, s, fuel, chosen);
    }
}

/// Rebinding a name at its innermost binding keeps that binding innermost.
proof fn lemma_var_index_update(vars: Seq<(Seq<char>, usize)>, name: Seq<char>, i: int, r: usize)
    requires
        var_index(vars, name) == Some(i),
    ensures
        var_index(vars.update(i, (name, r)), name) == Some(i),
    decreases vars.len(),
{
    lemma_var_index_is(vars, name);
    let updated = vars.update(i, (name, r));
    if i < vars.len() - 1 {
        assert(updated.drop_last() =~= vars.drop_last().update(i, (name, r)));
        lemma_var_index_update(vars.drop_last(), name, i, r);
    }
}

/// A name read right after it is assigned gives the value just bound to
/// it, and reading changes nothing.
pub proof fn law_read_after_assign(st: StateView, name: String, r: usize)
    ensures
        eval_expr_spec(assign_spec(st, name@, r), Expr::Name(name))
            == (assign_spec(st, name@, r), Ok::<usize, Seq<char>>(r)),
{
    let after = assign_spec(st, name@, r);
    match var_index(st.vars, name@) {
        Some(i) => {
            lemma_var_index_update(st.vars, name@, i, r);
            lemma_var_index_is(st.vars, name@);
        },
        None => {
            let pushed = st.vars.push((name@, r));
            assert(pushed.drop_last() =~= st.vars);
        },
    }
}

/// `==` between arena values gives the same answer both ways round.
pub proof fn law_heap_equal_symmetric(heap: Seq<RtView>, a: usize, b: usize, depth: nat)
    ensures
        heap_equal(heap, a, b, depth) == heap_equal(heap, b, a, depth),
    decreases depth,
{
    if depth > 0 {
        if let (RtView::List(xs), RtView::List(ys)) = (heap[a as int], heap[b as int]) {
            assert forall|k: int| 0 <= k < xs.len() && xs.len() == ys.len() implies
                heap_equal(heap, xs[k], ys[k], (depth - 1) as nat) == heap_equal(heap, ys[k], xs[k], (depth - 1) as nat) by {
                law_heap_equal_symmetric(heap, xs[k], ys[k], (depth - 1) as nat);
            }
        }
    }
}

/// `after` keeps every binding of `before` and every value already in its
/// arena, and may only have added values.
pub open spec fn only_adds(before: StateView, after: StateView) -> bool {
    &&& after.vars == before.vars
    &&& after.finals == before.finals
    &&& after.base == before.base
    &&& after.final_base == before.final_base
    &&& before.output.is_prefix_of(after.output)
    &&& before.heap.len() <= after.heap.len()
    &&& forall|i: int| 0 <= i < before.heap.len() ==> #[trigger] after.heap[i] == before.heap[i]
}

proof fn lemma_only_adds_trans(a: StateView, b: StateView, c: StateView)
    requires
        only_adds(a, b),
        only_adds(b, c),
    ensures
        only_adds(a, c),
{
    assert forall|i: int| 0 <= i < a.heap.len() implies #[trigger] c.heap[i] == a.heap[i] by {
        assert(c.heap[i] == b.heap[i]);
    }
    assert forall|i: int| 0 <= i < a.output.len() implies #[trigger] c.output[i] == a.output[i] by {
        assert(c.output[i] == b.output[i]);
    }
}

proof fn lemma_alloc_only_adds(st: StateView, v: RtView)
    ensures
        only_adds(st, alloc_spec(st, v).0),
{
}

proof fn lemma_binary_only_adds(st: StateView, op: BinOp, a: usize, b: usize)
    ensures
        only_adds(st, binary_spec(st, op, a, b).0),
{
}

proof fn lemma_index_only_adds(st: StateView, a: usize, b: usize)
    ensures
        only_adds(st, index_spec(st, a, b).0),
{
}

proof fn lemma_conversions_only_add(st: StateView, a: usize)
    ensures
        only_adds(st, len_spec(st, a).0),
        only_adds(st, list_of_spec(st, a).0),
{
    if let RtView::Str(s) = st.heap[a as int] {
        let grown = StateView { heap: with_chars(st.heap, s), vars: st.vars, finals: st.finals, base: st.base, final_base: st.final_base, output: st.output };
        assert(only_adds(st, grown));
        lemma_only_adds_trans(st, grown, list_of_spec(st, a).0);
    }
}

/// Evaluating an expression binds no variable and changes no value
/// already in the arena: it only adds values.
pub proof fn law_eval_only_adds(st: StateView, e: Expr)
    ensures
        only_adds(st, eval_expr_spec(st, e).0),
    decreases e, 1int, 0int,
{
    match e {
        Expr::Binary(op, l, r) => {
            law_eval_only_adds(st, *l);
            let (s1, rl) = eval_expr_spec(st, *l);
            if let Ok(a) = rl {
                law_eval_only_adds(s1, *r);
                lemma_only_adds_trans(st, s1, eval_expr_spec(s1, *r).0);
                let (s2, rr) = eval_expr_spec(s1, *r);
                lemma_only_adds_trans(st, s1, s2);
                if let Ok(b) = rr {
                    lemma_binary_only_adds(s2, op, a, b);
                    lemma_only_adds_trans(st, s2, binary_spec(s2, op, a, b).0);
                }
            }
        },
        Expr::Index(l, i) => {
            law_eval_only_adds(st, *l);
            let (s1, rl) = eval_expr_spec(st, *l);
            if let Ok(a) = rl {
                law_eval_only_adds(s1, *i);
                let (s2, ri) = eval_expr_spec(s1, *i);
                lemma_only_adds_trans(st, s1, s2);
                if let Ok(b) = ri {
                    lemma_index_only_adds(s2, a, b);
                    lemma_only_adds_trans(st, s2, index_spec(s2, a, b).0);
                }
            }
        },
        Expr::Not(x) => {
            law_eval_only_adds(st, *x);
        },
        Expr::IfExpr(c, t, f) => {
            law_eval_only_adds(st, *c);
            let (s1, rc) = eval_expr_spec(st, *c);
            if let Ok(a) = rc {
                law_eval_only_adds(s1, *t);
                law_eval_only_adds(s1, *f);
                lemma_only_adds_trans(st, s1, eval_expr_spec(s1, *t).0);
                lemma_only_adds_trans(st, s1, eval_expr_spec(s1, *f).0);
            }
        },
        Expr::Neg(x) | Expr::Pos(x) | Expr::Invert(x) => {
            law_eval_only_adds(st, *x);
            let (s1, rx) = eval_expr_spec(st, *x);
            if let Ok(a) = rx {
                let k: int = match e {
                    Expr::Neg(_) => 0,
                    Expr::Pos(_) => 1,
                    _ => 2,
                };
                lemma_only_adds_trans(st, s1, unary_step(s1, a, k).0);
            }
        },
        Expr::Len(x) => {
            law_eval_only_adds(st, *x);
            let (s1, rx) = eval_expr_spec(st, *x);
            if let Ok(a) = rx {
                lemma_conversions_only_add(s1, a);
                lemma_only_adds_trans(st, s1, len_spec(s1, a).0);
            }
        },
        Expr::ListOf(x) => {
            law_eval_only_adds(st, *x);
            let (s1, rx) = eval_expr_spec(st, *x);
            if let Ok(a) = rx {
                lemma_conversions_only_add(s1, a);
                lemma_only_adds_trans(st, s1, list_of_spec(s1, a).0);
            }
        },
        Expr::ListLit(items) => {
            lemma_items_only_add(st, items@, items@.len() as int);
        },
        Expr::Slice(_, _, _, _) => {
            lemma_slice_only_adds(st, e);
        },
        Expr::ListComp(_, iterable, _, _) => {
            law_eval_only_adds(st, *iterable);
            let (s1, r) = eval_expr_spec(st, *iterable);
            if let Ok(v) = r {
                if let Ok((s2, items)) = iterable_items(s1, v) {
                    assert(only_adds(s1, s2));
                    lemma_only_adds_trans(st, s1, s2);
                    lemma_comp_only_adds(s2, e, items, items.len() as int);
                    let s3 = comp_spec(s2, e, items, items.len() as int).0;
                    lemma_only_adds_trans(st, s2, s3);
                    if let Ok(refs) = comp_spec(s2, e, items, items.len() as int).1 {
                        lemma_only_adds_trans(st, s3, alloc_spec(s3, RtView::List(refs)).0);
                    }
                }
            }
        },
        Expr::Range(args) => {
            lemma_items_only_add(st, args@, args@.len() as int);
            let (s1, rs) = eval_items_spec(st, args@, args@.len() as int);
            if let Ok(refs) = rs {
                lemma_only_adds_trans(st, s1, range_call_spec(s1, refs).0);
            }
        },
        Expr::Print(args) => {
            lemma_items_only_add(st, args@, args@.len() as int);
            let (s1, rs) = eval_items_spec(st, args@, args@.len() as int);
            if let Ok(refs) = rs {
                let s2 = print_spec(s1, refs).0;
                assert(s1.output.is_prefix_of(s2.output));
                lemma_only_adds_trans(st, s1, s2);
            }
        },
        _ => {},
    }
}

/// Evaluating a slice only adds values.
proof fn lemma_slice_only_adds(st: StateView, e: Expr)
    requires
        e is Slice,
    ensures
        only_adds(st, eval_expr_spec(st, e).0),
    decreases e, 0int, 0int,
{
    if let Expr::Slice(target, lo, hi, step) = e {
        law_eval_only_adds(st, *target);
        let (s1, rt) = eval_expr_spec(st, *target);
        if let Ok(t) = rt {
            let s2 = match lo {
                None => s1,
                Some(x) => {
                    law_eval_only_adds(s1, *x);
                    eval_expr_spec(s1, *x).0
                },
            };
            lemma_only_adds_trans(st, s1, s2);
            let s3 = match hi {
                None => s2,
                Some(x) => {
                    law_eval_only_adds(s2, *x);
                    eval_expr_spec(s2, *x).0
                },
            };
            lemma_only_adds_trans(st, s2, s3);
            let s4 = match step {
                None => s3,
                Some(x) => {
                    law_eval_only_adds(s3, *x);
                    eval_expr_spec(s3, *x).0
                },
            };
            lemma_only_adds_trans(st, s3, s4);
            if let RtView::Range(a, b, c) = s4.heap[t as int] {
                if let Ok((grown, items)) = iterable_items(s4, t) {
                    assert(only_adds(s4, grown));
                    lemma_only_adds_trans(st, s4, grown);
                }
            }
        }
    }
}

/// A comprehension's walk only adds values: the scope of each item is left
/// before the next.
proof fn lemma_comp_only_adds(st: StateView, e: Expr, items: Seq<usize>, n: int)
    ensures
        only_adds(st, comp_spec(st, e, items, n).0),
    decreases e, 0int, n,
{
    if 0 < n <= items.len() {
        lemma_comp_only_adds(st, e, items, n - 1);
        let (s1, r) = comp_spec(st, e, items, n - 1);
        if let Ok(acc) = r {
            if let Expr::ListComp(name, _, element, condition) = e {
                lemma_var_index_is(s1.vars, name@);
                let inner = declare_spec(enter_scope(s1), name@, items[n - 1]);
                assert(inner.vars == s1.vars.push((name@, items[n - 1])));
                let s2 = match condition {
                    None => inner,
                    Some(c) => {
                        law_eval_only_adds(inner, *c);
                        eval_expr_spec(inner, *c).0
                    },
                };
                assert(only_adds(inner, s2));
                law_eval_only_adds(s2, *element);
                let s3 = eval_expr_spec(s2, *element).0;
                assert(leave_scope(s2, s1).vars =~= s1.vars);
                assert(leave_scope(s3, s1).vars =~= s1.vars);
                assert(leave_scope(s2, s1).finals =~= s1.finals);
                assert(leave_scope(s3, s1).finals =~= s1.finals);
                assert(only_adds(s1, leave_scope(s2, s1)));
                assert(only_adds(s1, leave_scope(s3, s1)));
                lemma_only_adds_trans(st, s1, comp_spec(st, e, items, n).0);
            }
        }
    }
}

/// Evaluating list items only adds values.
proof fn lemma_items_only_add(st: StateView, items: Seq<Expr>, n: int)
    ensures
        only_adds(st, eval_items_spec(st, items, n).0),
    decreases items, n, 0int,
{
    if 0 < n <= items.len() {
        lemma_items_only_add(st, items, n - 1);
        let (s1, rs) = eval_items_spec(st, items, n - 1);
        if rs is Ok {
            law_eval_only_adds(s1, items[n - 1]);
            lemma_only_adds_trans(st, s1, eval_expr_spec(s1, items[n - 1]).0);
        }
    }
}

/// Whether running the statements of a module ends within `u64::MAX`
/// loop turns.
pub open spec fn module_terminates(st: StateView, stmts: Seq<Stmt>) -> bool {
    exec_block_fuel(st, false, stmts, stmts.len() as int, u64::MAX as nat) is Some
}

/// The error for a `return` outside any function.
pub open spec fn top_level_return_message() -> Seq<char> {
    "return is only valid inside a function"@
}

/// How a module ends, from how its statements ended: a `return` there is
/// an error.
pub open spec fn module_outcome(r: Result<Flow, Seq<char>>) -> Result<(), Seq<char>> {
    match r {
        Ok(Flow::Return(_)) => Err(top_level_return_message()),
        Ok(_) => Ok(()),
        Err(m) => Err(m),
    }
}

/// What running the statements of a module gives, when it ends: they run
/// in order outside any loop; the first error stops them, and so does a
/// `return`, which is an error there.
pub open spec fn module_spec(st: StateView, stmts: Seq<Stmt>) -> (StateView, Result<(), Seq<char>>) {
    let fuel = choose|fuel: nat| #[trigger] exec_block_fuel(st, false, stmts, stmts.len() as int, fuel) is Some;
    match exec_block_fuel(st, false, stmts, stmts.len() as int, fuel) {
        Some((s1, r)) => (s1, module_outcome(r)),
        None => (st, Ok(())),
    }
}

/// Whatever number of loop turns suffices for a module's statements, it
/// gives what `module_spec` says.
pub proof fn law_module_spec_is_any_sufficient_run(st: StateView, stmts: Seq<Stmt>, fuel: nat)
    requires
        exec_block_fuel(st, false, stmts, stmts.len() as int, fuel) matches Some((s1, r)),
    ensures
        exec_block_fuel(st, false, stmts, stmts.len() as int, fuel) matches Some((s1, r))
            && module_spec(st, stmts) == (s1, module_outcome(r)),
{
    let n = stmts.len() as int;
    let chosen = choose|f: nat| #[trigger] exec_block_fuel(st, false, stmts, n, f) is Some;
    assert(exec_block_fuel(st, false, stmts, n, fuel) is Some);
    assert(exec_block_fuel(st, false, stmts, n, chosen) is Some);
    if chosen <= fuel {
        law_block_fuel_monotone(st, false, stmts, n, chosen, fuel);
    } else {
        law_block_fuel_monotone(st, false, stmts, n, fuel, chosen);
    }
}

/// Runs the statements of a module, exactly as `module_spec` says. A
/// module whose loops do not end within `u64::MAX` turns is not accepted;
/// `eval_module_bounded` takes any.
pub fn eval_module(state: &mut EvalState, stmts: &Vec<Stmt>) -> (r: Result<(), RuntimeError>)
    requires
        state_wf(old(state)@),
        !old(state).in_loop,
        module_terminates(old(state)@, stmts@),
    ensures
        state_wf(final(state)@),
        !final(state).in_loop,
        (final(state)@, result_view(r)) == module_spec(old(state)@, stmts@),
{
    proof {
        law_module_spec_is_any_sufficient_run(state@, stmts@, u64::MAX as nat);
    }
    match eval_module_bounded(state, stmts, u64::MAX) {
        Some(r) => r,
        None => {
            proof {
                assert(false);
            }
            Ok(())
        },
    }
}

/// Runs the statements of a module with their loops allowed `fuel` turns
/// in all: `None` when they need more, else the state after them and how
/// the module ended.
pub fn eval_module_bounded(state: &mut EvalState, stmts: &Vec<Stmt>, fuel: u64) -> (r: Option<Result<(), RuntimeError>>)
    requires
        state_wf(old(state)@),
        !old(state).in_loop,
    ensures
        state_wf(final(state)@),
        !final(state).in_loop,
        match r {
            Some(res) => exec_block_fuel(old(state)@, false, stmts@, stmts@.len() as int, fuel as nat) matches Some((s1, o))
                && s1 == final(state)@ && result_view(res) == module_outcome(o),
            None => exec_block_fuel(old(state)@, false, stmts@, stmts@.len() as int, fuel as nat) is None,
        },
{
    match exec_block(state, stmts, fuel) {
        None => None,
        Some(Ok(Flow::Return(_))) => Some(Err(runtime_error("return is only valid inside a function"))),
        Some(Ok(_)) => Some(Ok(())),
        Some(Err(e)) => Some(Err(e)),
    }
}

/// Lists are shared: after `target[n] = value` writes into a list, reading
/// position `n` through any name bound to that list gives the value
/// written.
pub proof fn law_item_write_seen_through_aliases(st: StateView, t: usize, i: usize, v: usize, n: i64, name: String)
    requires
        state_wf(st),
        t < st.heap.len(),
        i < st.heap.len(),
        v < st.heap.len(),
        st.heap.len() < usize::MAX,
        st.heap[i as int] == RtView::Int(n as int, true),
        set_item_spec(st, t, i, v).1 is Ok,
        var_index(st.vars, name@) matches Some(k) && st.vars[k].1 == t,
    ensures
        eval_expr_spec(set_item_spec(st, t, i, v).0, Expr::Index(Box::new(Expr::Name(name)), Box::new(Expr::Int(n)))).1
            == Ok::<usize, Seq<char>>(v),
{
    let after = set_item_spec(st, t, i, v).0;
    lemma_var_index_is(st.vars, name@);
    assert(after.vars == st.vars);
    let (s1, r1) = eval_expr_spec(after, Expr::Name(name));
    assert(r1 == Ok::<usize, Seq<char>>(t));
    let (s2, r2) = eval_expr_spec(s1, Expr::Int(n));
    assert(s2.heap[t as int] == after.heap[t as int]);
    let w = s1.heap.len() as usize;
    assert(r2 == Ok::<usize, Seq<char>>(w));
    assert(s2.heap[w as int] == RtView::Int(n as int, true));
    if let RtView::List(items) = st.heap[t as int] {
        let p = pop_position(n as int, items.len() as int);
        assert(0 <= p < items.len());
        assert(after.heap[t as int] == RtView::List(items.update(p, v)));
        assert(index_spec(s2, t, w).1 == Ok::<usize, Seq<char>>(items.update(p, v)[p]));
    }
    assert(eval_expr_spec(after, Expr::Index(Box::new(Expr::Name(name)), Box::new(Expr::Int(n))))
        == index_spec(s2, t, w));
}

/// A comprehension's name lives only in the scopes of its items: after a
/// comprehension is evaluated, every name is bound as it was before, an
/// outer binding of the same name included.
pub proof fn law_comprehension_keeps_bindings(st: StateView, name: String, iterable: Expr, element: Expr, condition: Option<Box<Expr>>)
    ensures
        eval_expr_spec(st, Expr::ListComp(name, Box::new(iterable), Box::new(element), condition)).0.vars == st.vars,
        eval_expr_spec(st, Expr::ListComp(name, Box::new(iterable), Box::new(element), condition)).0.finals == st.finals,
{
    law_eval_only_adds(st, Expr::ListComp(name, Box::new(iterable), Box::new(element), condition));
}

/// Assigning to a name marked final is refused once the value is
/// computed, and the name keeps the value it had.
pub proof fn law_final_names_keep_their_value(st: StateView, in_loop: bool, name: String, e: Expr, fuel: nat)
    requires
        is_final_name(st, name@),
    ensures
        exec_stmt_fuel(st, in_loop, Stmt::Assign(name, e), fuel) is Some,
        ({
            let (after, r) = exec_stmt_fuel(st, in_loop, Stmt::Assign(name, e), fuel)->Some_0;
            &&& after.vars == st.vars
            &&& r is Err
            &&& (eval_expr_spec(st, e).1 is Ok ==> r == Err::<Flow, Seq<char>>(final_message(name@)))
        }),
{
    law_eval_only_adds(st, e);
}

/// A `match` arm whose pattern matches but whose guard fails leaves no
/// binding behind: the next arms are tried with every name bound, and
/// every final mark set, as before the arm.
pub proof fn law_failed_guard_leaves_no_binding(st: StateView, in_loop: bool, v: usize, alias: Option<String>, arms: Seq<MatchArm>, k: int, fuel: nat)
    requires
        0 <= k < arms.len(),
        pattern_matches(st.heap, arms[k].pattern, st.heap[v as int]),
        arms[k].guard matches Some(g) && ({
            let s1 = match alias {
                Some(a) => declare_spec(st, a@, v),
                None => st,
            };
            let (s3, rg) = eval_expr_spec(bind_spec(s1, arms[k].pattern, v), g);
            rg matches Ok(gv) && !truthy(s3.heap[gv as int])
        }),
    ensures
        exists|after: StateView| #![trigger match_arms_fuel(after, in_loop, v, alias, arms, k + 1, fuel)]
            after.vars == st.vars && after.finals == st.finals
            && match_arms_fuel(st, in_loop, v, alias, arms, k, fuel) == match_arms_fuel(after, in_loop, v, alias, arms, k + 1, fuel),
{
    let s1 = match alias {
        Some(a) => declare_spec(st, a@, v),
        None => st,
    };
    let g = arms[k].guard->Some_0;
    let s3 = eval_expr_spec(bind_spec(s1, arms[k].pattern, v), g).0;
    let after = restore_bindings(s3, st);
    assert(match_arms_fuel(st, in_loop, v, alias, arms, k, fuel) == match_arms_fuel(after, in_loop, v, alias, arms, k + 1, fuel));
}

/// Strings are ordered by their UTF-8 bytes: `x < y` holds exactly when the
/// bytes of `x` come first, `x > y` exactly when `y < x` does (the bytes of
/// `y` come first), `x <= y` exactly when `y < x` fails and `x >= y`
/// exactly when `x < y` fails; exactly one of `x < y`, `x == y`, `x > y`
/// holds.
pub proof fn law_string_order_is_byte_order(x: Seq<char>, y: Seq<char>)
    ensures
        operate_spec(BinOp::Lt, RtView::Str(x), RtView::Str(y)) == Ok::<RtView, Seq<char>>(RtView::Bool(text_before(x, y))),
        operate_spec(BinOp::Gt, RtView::Str(x), RtView::Str(y)) == Ok::<RtView, Seq<char>>(RtView::Bool(text_before(y, x))),
        operate_spec(BinOp::Le, RtView::Str(x), RtView::Str(y)) == Ok::<RtView, Seq<char>>(RtView::Bool(!text_before(y, x))),
        operate_spec(BinOp::Ge, RtView::Str(x), RtView::Str(y)) == Ok::<RtView, Seq<char>>(RtView::Bool(!text_before(x, y))),
        operate_spec(BinOp::Gt, RtView::Str(x), RtView::Str(y)) == operate_spec(BinOp::Lt, RtView::Str(y), RtView::Str(x)),
        operate_spec(BinOp::Ge, RtView::Str(x), RtView::Str(y)) == operate_spec(BinOp::Le, RtView::Str(y), RtView::Str(x)),
        (text_before(x, y) as int) + ((x == y) as int) + (text_before(y, x) as int) == 1,
{
    let ex = vstd::utf8::encode_utf8(x);
    let ey = vstd::utf8::encode_utf8(y);
    lemma_bytes_lt_total(ex, ey);
    lemma_bytes_lt_irreflexive(ex);
    if x != y {
        vstd::utf8::encode_utf8_decode_utf8(x);
        vstd::utf8::encode_utf8_decode_utf8(y);
        assert(ex != ey);
    }
}

/// Integers compare by value, whatever their representation: `x > y` is
/// `y < x`, `x >= y` is `y <= x`, `x <= y` is the negation of `x > y`, and
/// `x < y` holds exactly when `x` is the smaller value.
pub proof fn law_integer_order_is_value_order(x: int, sx: bool, y: int, sy: bool)
    ensures
        operate_spec(BinOp::Lt, RtView::Int(x, sx), RtView::Int(y, sy)) == Ok::<RtView, Seq<char>>(RtView::Bool(x < y)),
        operate_spec(BinOp::Gt, RtView::Int(x, sx), RtView::Int(y, sy)) == operate_spec(BinOp::Lt, RtView::Int(y, sy), RtView::Int(x, sx)),
        operate_spec(BinOp::Ge, RtView::Int(x, sx), RtView::Int(y, sy)) == operate_spec(BinOp::Le, RtView::Int(y, sy), RtView::Int(x, sx)),
        operate_spec(BinOp::Le, RtView::Int(x, sx), RtView::Int(y, sy)) == Ok::<RtView, Seq<char>>(RtView::Bool(!(y < x))),
{
}

} // verus!
