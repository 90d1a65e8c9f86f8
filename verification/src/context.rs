//! Context managers written as generator functions: which statements run
//! before the `yield`, which run on a normal exit and which on an error.
//! A body whose `yield` sits inside a `try` is first flattened: the
//! statements before the `try`, then its body, then its `finally`; the
//! handlers (and the `finally` again) become the teardown for an error.
use vstd::prelude::*;

verus! {

/// A statement of a context manager's body, as far as the plan needs it.
pub enum StmtShape {
    /// A `yield` statement.
    Yield,
    /// A `try` statement: for each statement of its body whether it is a
    /// `yield`, the number of statements of each handler, and, if it has a
    /// `finally`, for each of its statements whether it is a `yield`.
    Try { body: Vec<bool>, handler_lens: Vec<usize>, finally: Option<Vec<bool>> },
    /// Any other statement.
    Other,
}

/// A statement of the flattened body, by where it stands in the original.
#[derive(PartialEq, Eq, Structural, Clone, Copy, Debug)]
pub enum StmtRef {
    /// The top-level statement at this position.
    Top(usize),
    /// The statement at this position of the chosen `try` body.
    TryBody(usize),
    /// Statement `.1` of handler `.0` of the chosen `try`.
    Handler(usize, usize),
    /// The statement at this position of the chosen `try`'s `finally`.
    Finally(usize),
}

/// How a context manager's body runs.
pub struct ContextPlan {
    /// The statements in order, after flattening.
    pub body: Vec<StmtRef>,
    /// The position in `body` of the first `yield`, if there is one.
    pub yield_at: Option<usize>,
    /// The teardown on an error, where the flattened `try` had handlers.
    pub error_teardown: Option<Vec<StmtRef>>,
}

/// Some top-level statement is a `yield`.
pub open spec fn has_top_yield(body: Seq<StmtShape>) -> bool {
    exists|i: int| 0 <= i < body.len() && #[trigger] body[i] is Yield
}

/// A `try` statement whose body holds a `yield` at its top level.
pub open spec fn yielding_try(s: StmtShape) -> bool {
    match s {
        StmtShape::Try { body, .. } => exists|j: int| 0 <= j < body@.len() && #[trigger] body@[j],
        _ => false,
    }
}

/// The first of the first `n` statements that is a yielding `try`.
pub open spec fn first_yielding_try(body: Seq<StmtShape>, n: int) -> Option<int>
    decreases n,
{
    if n <= 0 {
        None
    } else {
        match first_yielding_try(body, n - 1) {
            Some(t) => Some(t),
            None => if yielding_try(body[n - 1]) { Some(n - 1) } else { None },
        }
    }
}

/// The `try` statement the body is flattened at: none when a `yield`
/// stands at the top level.
pub open spec fn flatten_point(body: Seq<StmtShape>) -> Option<int> {
    if has_top_yield(body) { None } else { first_yielding_try(body, body.len() as int) }
}

/// References `make(0), ..., make(n - 1)`.
pub open spec fn refs(n: int, make: spec_fn(int) -> StmtRef) -> Seq<StmtRef> {
    Seq::new(n as nat, make)
}

/// The length of an optional `finally`.
pub open spec fn finally_len(f: Option<Vec<bool>>) -> int {
    match f {
        Some(v) => v@.len() as int,
        None => 0,
    }
}

/// The flattened body.
pub open spec fn flattened(body: Seq<StmtShape>) -> Seq<StmtRef> {
    match flatten_point(body) {
        None => refs(body.len() as int, |i: int| StmtRef::Top(i as usize)),
        Some(t) => match body[t] {
            StmtShape::Try { body: tb, finally: f, .. } =>
                refs(t, |i: int| StmtRef::Top(i as usize))
                + refs(tb@.len() as int, |j: int| StmtRef::TryBody(j as usize))
                + refs(finally_len(f), |j: int| StmtRef::Finally(j as usize)),
            _ => Seq::empty(),
        },
    }
}

/// The handlers' statements, handler by handler, from handler `h` on.
pub open spec fn handler_refs(lens: Seq<usize>, h: int) -> Seq<StmtRef>
    decreases lens.len() - h,
{
    if h >= lens.len() || h < 0 {
        Seq::empty()
    } else {
        refs(lens[h] as int, |j: int| StmtRef::Handler(h as usize, j as usize)) + handler_refs(lens, h + 1)
    }
}

/// The teardown on an error: the handlers' statements then the `finally`,
/// where the flattened `try` has handlers.
pub open spec fn error_teardown_of(body: Seq<StmtShape>) -> Option<Seq<StmtRef>> {
    match flatten_point(body) {
        None => None,
        Some(t) => match body[t] {
            StmtShape::Try { handler_lens, finally: f, .. } => if handler_lens@.len() == 0 {
                None
            } else {
                Some(handler_refs(handler_lens@, 0) + refs(finally_len(f), |j: int| StmtRef::Finally(j as usize)))
            },
            _ => None,
        },
    }
}

/// The statement `r` refers to is a `yield`.
pub open spec fn refers_to_yield(body: Seq<StmtShape>, t: int, r: StmtRef) -> bool {
    match r {
        StmtRef::Top(i) => body[i as int] is Yield,
        StmtRef::TryBody(j) => match body[t] {
            StmtShape::Try { body: tb, .. } => tb@[j as int],
            _ => false,
        },
        StmtRef::Finally(j) => match body[t] {
            StmtShape::Try { finally: Some(f), .. } => f@[j as int],
            _ => false,
        },
        StmtRef::Handler(_, _) => false,
    }
}

/// The `try` statement flattened at, or the first statement when none is
/// (its references then never point into a `try`).
pub open spec fn flatten_try(body: Seq<StmtShape>) -> int {
    match flatten_point(body) {
        Some(t) => t,
        None => 0,
    }
}

/// Whether any of `flags` is set.
fn any_set(flags: &Vec<bool>) -> (r: bool)
    ensures
        r == exists|j: int| 0 <= j < flags@.len() && #[trigger] flags@[j],
{
    let mut j: usize = 0;
    while j < flags.len()
        invariant
            j <= flags@.len(),
            forall|m: int| 0 <= m < j ==> !#[trigger] flags@[m],
        decreases flags@.len() - j,
    {
        if flags[j] {
            return true;
        }
        j += 1;
    }
    false
}

/// Whether a statement is a `try` whose body yields at its top level.
fn is_yielding_try(s: &StmtShape) -> (r: bool)
    ensures
        r == yielding_try(*s),
{
    match s {
        StmtShape::Try { body, .. } => any_set(body),
        _ => false,
    }
}

/// The `try` statement to flatten at.
fn find_flatten_point(body: &[StmtShape]) -> (r: Option<usize>)
    ensures
        match r {
            Some(t) => flatten_point(body@) == Some(t as int) && t < body@.len(),
            None => flatten_point(body@) is None,
        },
{
    let mut i: usize = 0;
    while i < body.len()
        invariant
            i <= body@.len(),
            forall|m: int| 0 <= m < i ==> !(#[trigger] body@[m] is Yield),
        decreases body@.len() - i,
    {
        if let StmtShape::Yield = &body[i] {
            return None;
        }
        i += 1;
    }
    let mut t: usize = 0;
    while t < body.len()
        invariant
            t <= body@.len(),
            !has_top_yield(body@),
            first_yielding_try(body@, t as int) is None,
        decreases body@.len() - t,
    {
        if is_yielding_try(&body[t]) {
            proof {
                lemma_first_try_stays(body@, t + 1, body@.len() as int);
            }
            return Some(t);
        }
        t += 1;
    }
    None
}

/// A yielding `try` found among the first `n` statements is the first
/// among more.
proof fn lemma_first_try_stays(body: Seq<StmtShape>, n: int, m: int)
    requires
        0 <= n <= m,
        first_yielding_try(body, n) is Some,
    ensures
        first_yielding_try(body, m) == first_yielding_try(body, n),
    decreases m - n,
{
    if n < m {
        lemma_first_try_stays(body, n, m - 1);
    }
}

/// A yielding `try` that `first_yielding_try` finds lies among the
/// statements and yields.
proof fn lemma_first_try_is(body: Seq<StmtShape>, n: int)
    requires
        0 <= n <= body.len(),
    ensures
        first_yielding_try(body, n) matches Some(t) ==> 0 <= t < n && yielding_try(body[t]),
    decreases n,
{
    if n > 0 {
        lemma_first_try_is(body, n - 1);
    }
}

/// Appends `Top(0), ..., Top(n - 1)` to `out`.
fn push_tops(out: &mut Vec<StmtRef>, n: usize)
    ensures
        final(out)@ == old(out)@ + refs(n as int, |i: int| StmtRef::Top(i as usize)),
{
    let ghost start = out@;
    let mut i: usize = 0;
    while i < n
        invariant
            i <= n,
            out@ == start + refs(i as int, |k: int| StmtRef::Top(k as usize)),
        decreases n - i,
    {
        out.push(StmtRef::Top(i));
        proof {
            assert(out@ =~= start + refs(i + 1, |k: int| StmtRef::Top(k as usize)));
        }
        i += 1;
    }
}

/// Appends `TryBody(0), ..., TryBody(n - 1)` to `out`.
fn push_try_body(out: &mut Vec<StmtRef>, n: usize)
    ensures
        final(out)@ == old(out)@ + refs(n as int, |j: int| StmtRef::TryBody(j as usize)),
{
    let ghost start = out@;
    let mut i: usize = 0;
    while i < n
        invariant
            i <= n,
            out@ == start + refs(i as int, |k: int| StmtRef::TryBody(k as usize)),
        decreases n - i,
    {
        out.push(StmtRef::TryBody(i));
        proof {
            assert(out@ =~= start + refs(i + 1, |k: int| StmtRef::TryBody(k as usize)));
        }
        i += 1;
    }
}

/// Appends the statements of an optional `finally` to `out`.
fn push_finally(out: &mut Vec<StmtRef>, f: &Option<Vec<bool>>)
    ensures
        final(out)@ == old(out)@ + refs(finally_len(*f), |j: int| StmtRef::Finally(j as usize)),
{
    let n: usize = match f {
        Some(v) => v.len(),
        None => 0,
    };
    let ghost start = out@;
    let mut i: usize = 0;
    while i < n
        invariant
            i <= n,
            n == finally_len(*f),
            out@ == start + refs(i as int, |k: int| StmtRef::Finally(k as usize)),
        decreases n - i,
    {
        out.push(StmtRef::Finally(i));
        proof {
            assert(out@ =~= start + refs(i + 1, |k: int| StmtRef::Finally(k as usize)));
        }
        i += 1;
    }
    proof {
        assert(out@ =~= start + refs(finally_len(*f), |k: int| StmtRef::Finally(k as usize)));
    }
}

/// Appends the statements of all handlers to `out`.
fn push_handlers(out: &mut Vec<StmtRef>, lens: &Vec<usize>)
    ensures
        final(out)@ == old(out)@ + handler_refs(lens@, 0),
{
    let ghost start = out@;
    let mut h: usize = 0;
    proof {
        assert(out@ =~= start + Seq::<StmtRef>::empty());
    }
    while h < lens.len()
        invariant
            h <= lens@.len(),
            out@ + handler_refs(lens@, h as int) == start + handler_refs(lens@, 0),
        decreases lens@.len() - h,
    {
        let ghost before = out@;
        let n = lens[h];
        let mut j: usize = 0;
        while j < n
            invariant
                j <= n,
                n == lens@[h as int],
                h < lens@.len(),
                out@ == before + refs(j as int, |k: int| StmtRef::Handler(h as usize, k as usize)),
            decreases n - j,
        {
            out.push(StmtRef::Handler(h, j));
            proof {
                assert(out@ =~= before + refs(j + 1, |k: int| StmtRef::Handler(h as usize, k as usize)));
            }
            j += 1;
        }
        proof {
            assert(handler_refs(lens@, h as int) == refs(n as int, |k: int| StmtRef::Handler(h as usize, k as usize)) + handler_refs(lens@, h + 1));
            assert(before + handler_refs(lens@, h as int) =~= out@ + handler_refs(lens@, h + 1));
        }
        h += 1;
    }
    proof {
        assert(handler_refs(lens@, h as int) =~= Seq::<StmtRef>::empty());
        assert(out@ + Seq::<StmtRef>::empty() =~= out@);
    }
}

/// `r` refers to a statement that is there, with `t` the `try` flattened at.
pub open spec fn ref_valid(body: Seq<StmtShape>, t: int, r: StmtRef) -> bool {
    &&& 0 <= t < body.len()
    &&& match r {
        StmtRef::Top(i) => i < body.len(),
        StmtRef::TryBody(j) => body[t] matches StmtShape::Try { body: tb, .. } && j < tb@.len(),
        StmtRef::Finally(j) => body[t] matches StmtShape::Try { finally: Some(f), .. } && j < f@.len(),
        StmtRef::Handler(_, _) => true,
    }
}

/// Whether the statement `r` refers to is a `yield`.
fn ref_is_yield(body: &[StmtShape], t: usize, r: &StmtRef) -> (b: bool)
    requires
        ref_valid(body@, t as int, *r),
    ensures
        b == refers_to_yield(body@, t as int, *r),
{
    match r {
        StmtRef::Top(i) => {
            match &body[*i] {
                StmtShape::Yield => true,
                _ => false,
            }
        },
        StmtRef::TryBody(j) => {
            match &body[t] {
                StmtShape::Try { body: tb, .. } => tb[*j],
                _ => false,
            }
        },
        StmtRef::Finally(j) => {
            match &body[t] {
                StmtShape::Try { finally: Some(f), .. } => f[*j],
                _ => false,
            }
        },
        StmtRef::Handler(_, _) => false,
    }
}

/// How a context manager's body runs: the statements in order after
/// flattening (a body without a top-level `yield` is flattened at its
/// first `try` whose body yields: the statements before the `try`, its
/// body, then its `finally`; statements after the `try` are dropped), the
/// position of the first `yield` among them, and, where the flattened
/// `try` has handlers, the teardown on an error (the handlers' statements
/// in order, then the `finally`). Without a `yield` the body runs to its
/// end and the call fails.
pub fn context_plan(body: &[StmtShape]) -> (r: ContextPlan)
    ensures
        r.body@ == flattened(body@),
        match error_teardown_of(body@) {
            Some(v) => r.error_teardown matches Some(e) && e@ == v,
            None => r.error_teardown is None,
        },
        match r.yield_at {
            Some(k) => k < r.body@.len() && refers_to_yield(body@, flatten_try(body@), r.body@[k as int])
                && forall|m: int| 0 <= m < k ==> !refers_to_yield(body@, flatten_try(body@), #[trigger] r.body@[m]),
            None => forall|m: int| 0 <= m < r.body@.len() ==> !refers_to_yield(body@, flatten_try(body@), #[trigger] r.body@[m]),
        },
{
    let point = find_flatten_point(body);
    let mut flat: Vec<StmtRef> = Vec::new();
    let mut teardown: Option<Vec<StmtRef>> = None;
    let t: usize = match point {
        Some(t) => t,
        None => 0,
    };
    match point {
        None => {
            push_tops(&mut flat, body.len());
            proof {
                assert(flat@ =~= flattened(body@));
            }
        },
        Some(t) => {
            proof {
                lemma_first_try_is(body@, body@.len() as int);
            }
            match &body[t] {
                StmtShape::Try { body: tb, handler_lens, finally } => {
                    push_tops(&mut flat, t);
                    push_try_body(&mut flat, tb.len());
                    push_finally(&mut flat, finally);
                    proof {
                        assert(flat@ =~= flattened(body@));
                    }
                    if handler_lens.len() > 0 {
                        let mut e: Vec<StmtRef> = Vec::new();
                        push_handlers(&mut e, handler_lens);
                        push_finally(&mut e, finally);
                        proof {
                            assert(e@ =~= handler_refs(handler_lens@, 0) + refs(finally_len(*finally), |j: int| StmtRef::Finally(j as usize)));
                        }
                        teardown = Some(e);
                    }
                },
                _ => {},
            }
        },
    }
    proof {
        lemma_first_try_is(body@, body@.len() as int);
        assert forall|m: int| 0 <= m < flat@.len() implies ref_valid(body@, t as int, #[trigger] flat@[m]) by {
            if point is Some {
                if let StmtShape::Try { body: tb, finally: f, .. } = body@[t as int] {
                    if m >= t + tb@.len() {
                        assert(flat@[m] == StmtRef::Finally((m - t - tb@.len()) as usize));
                    } else if m >= t {
                        assert(flat@[m] == StmtRef::TryBody((m - t) as usize));
                    } else {
                        assert(flat@[m] == StmtRef::Top(m as usize));
                    }
                }
            } else {
                assert(flat@[m] == StmtRef::Top(m as usize));
            }
        }
    }
    let mut yield_at: Option<usize> = None;
    let mut k: usize = 0;
    while k < flat.len()
        invariant_except_break
            yield_at is None,
        invariant
            k <= flat@.len(),
            flat@ == flattened(body@),
            t as int == flatten_try(body@),
            forall|m: int| 0 <= m < flat@.len() ==> ref_valid(body@, t as int, #[trigger] flat@[m]),
            forall|m: int| 0 <= m < k ==> !refers_to_yield(body@, t as int, #[trigger] flat@[m]),
        ensures
            match yield_at {
                Some(kk) => kk < flat@.len() && refers_to_yield(body@, t as int, flat@[kk as int])
                    && forall|m: int| 0 <= m < kk ==> !refers_to_yield(body@, t as int, #[trigger] flat@[m]),
                None => forall|m: int| 0 <= m < flat@.len() ==> !refers_to_yield(body@, t as int, #[trigger] flat@[m]),
            },
        decreases flat@.len() - k,
    {
        if ref_is_yield(body, t, &flat[k]) {
            yield_at = Some(k);
            break;
        }
        k += 1;
    }
    ContextPlan { body: flat, yield_at, error_teardown: teardown }
}

} // verus!
