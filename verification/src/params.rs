//! Binding the arguments of a call to the parameters of a function: by
//! name first, then by position, then by default, with variadic and
//! gathering parameters taking what is left.
use vstd::prelude::*;
use vstd::string::*;
use crate::error::RuntimeError;

verus! {

/// How a parameter takes its argument.
#[derive(PartialEq, Eq, Structural, Clone, Copy)]
pub enum ParamKind {
    /// An ordinary parameter: by name, else by position, else its default.
    Regular,
    /// `*args`: every positional argument still unbound.
    VariadicPositional,
    /// `**kwargs`: every keyword argument still unbound.
    VariadicKeyword,
    /// A gathering parameter: every argument still unbound, positional and
    /// keyword, bundled into one value.
    Gather,
}

/// A parameter as binding sees it.
pub struct ParamSpec {
    pub name: String,
    pub kind: ParamKind,
    pub has_default: bool,
}

/// Where a parameter's value comes from; indices are positions in the
/// call's argument list.
pub enum Binding {
    /// The keyword argument at this index.
    Keyword(usize),
    /// The positional argument at this index.
    Positional(usize),
    /// The parameter's default value, evaluated at this point.
    Default,
    /// Nothing: the call is missing this required argument.
    Missing,
    /// The positional arguments at these indices, as a list.
    RestPositional(Vec<usize>),
    /// The keyword arguments at these indices, as a dictionary.
    RestKeywords(Vec<usize>),
    /// The positional and the keyword arguments at these indices, gathered.
    Gather(Vec<usize>, Vec<usize>),
}

/// A `Binding`, with its indices as integers.
pub enum BindingView {
    Keyword(int),
    Positional(int),
    Default,
    Missing,
    RestPositional(Seq<int>),
    RestKeywords(Seq<int>),
    Gather(Seq<int>, Seq<int>),
}

/// Indices as integers.
pub open spec fn index_view(v: Seq<usize>) -> Seq<int> {
    v.map_values(|i: usize| i as int)
}

impl View for Binding {
    type V = BindingView;

    open spec fn view(&self) -> BindingView {
        match *self {
            Binding::Keyword(i) => BindingView::Keyword(i as int),
            Binding::Positional(i) => BindingView::Positional(i as int),
            Binding::Default => BindingView::Default,
            Binding::Missing => BindingView::Missing,
            Binding::RestPositional(v) => BindingView::RestPositional(index_view(v@)),
            Binding::RestKeywords(v) => BindingView::RestKeywords(index_view(v@)),
            Binding::Gather(p, k) => BindingView::Gather(index_view(p@), index_view(k@)),
        }
    }
}

/// How the arguments of a call bind: one binding per parameter, in order,
/// ending early at a missing one; and whether arguments were left over.
pub struct ArgumentPlan {
    pub bindings: Vec<Binding>,
    pub too_many: bool,
}

/// The indices of the positional (unnamed) arguments, in order.
pub open spec fn positionals(args: Seq<Option<String>>) -> Seq<int>
    decreases args.len(),
{
    if args.len() == 0 {
        Seq::empty()
    } else if args.last() is None {
        positionals(args.drop_last()).push(args.len() - 1)
    } else {
        positionals(args.drop_last())
    }
}

/// The index of the first argument passed by the name `name`.
pub open spec fn keyword_at(args: Seq<Option<String>>, name: Seq<char>) -> Option<int>
    decreases args.len(),
{
    if args.len() == 0 {
        None
    } else {
        match keyword_at(args.drop_last(), name) {
            Some(i) => Some(i),
            None => match args.last() {
                Some(s) => if s@ == name { Some(args.len() - 1) } else { None },
                None => None,
            },
        }
    }
}

/// The indices, below `n` and in order, of keyword arguments not in
/// `used`.
pub open spec fn unused_named(args: Seq<Option<String>>, used: Set<int>, n: int) -> Seq<int>
    decreases n,
{
    if n <= 0 {
        Seq::empty()
    } else if args[n - 1] is Some && !used.contains(n - 1) {
        unused_named(args, used, n - 1).push(n - 1)
    } else {
        unused_named(args, used, n - 1)
    }
}

/// The indices of every keyword argument.
pub open spec fn all_named(args: Seq<Option<String>>) -> Set<int> {
    Set::new(|i: int| 0 <= i < args.len() && args[i] is Some)
}

/// Binding one parameter, given how many positional arguments are already
/// bound and which keyword arguments are: its binding, then the new count
/// and set.
pub open spec fn bind_one(p: ParamSpec, args: Seq<Option<String>>, pos: int, used: Set<int>) -> (BindingView, int, Set<int>) {
    let ps = positionals(args);
    match p.kind {
        ParamKind::Gather => (
            BindingView::Gather(ps.subrange(pos, ps.len() as int), unused_named(args, used, args.len() as int)),
            ps.len() as int,
            all_named(args),
        ),
        ParamKind::VariadicPositional => (BindingView::RestPositional(ps.subrange(pos, ps.len() as int)), ps.len() as int, used),
        ParamKind::VariadicKeyword => (BindingView::RestKeywords(unused_named(args, used, args.len() as int)), pos, all_named(args)),
        ParamKind::Regular => match keyword_at(args, p.name@) {
            Some(i) if !used.contains(i) => (BindingView::Keyword(i), pos, used.insert(i)),
            _ => if pos < ps.len() {
                (BindingView::Positional(ps[pos]), pos + 1, used)
            } else if p.has_default {
                (BindingView::Default, pos, used)
            } else {
                (BindingView::Missing, pos, used)
            },
        },
    }
}

/// Binding the first `k` parameters in order, stopping after a missing
/// one: the bindings so far, how many positional arguments they bound,
/// and which keyword arguments.
pub open spec fn plan_prefix(params: Seq<ParamSpec>, args: Seq<Option<String>>, k: int) -> (Seq<BindingView>, int, Set<int>)
    decreases k,
{
    if k <= 0 {
        (Seq::empty(), 0, Set::empty())
    } else {
        let (bs, pos, used) = plan_prefix(params, args, k - 1);
        if bs.len() > 0 && bs.last() is Missing {
            (bs, pos, used)
        } else {
            let (b, pos2, used2) = bind_one(params[k - 1], args, pos, used);
            (bs.push(b), pos2, used2)
        }
    }
}

/// Argument `j` repeats the name of an earlier keyword argument.
pub open spec fn duplicate_at(args: Seq<Option<String>>, j: int) -> bool {
    &&& args[j] is Some
    &&& exists|i: int| 0 <= i < j && args[i] is Some && (#[trigger] args[i])->Some_0@ == args[j]->Some_0@
}

/// The first argument, below `n`, that repeats an earlier keyword name.
pub open spec fn first_duplicate(args: Seq<Option<String>>, n: int) -> Option<int>
    decreases n,
{
    if n <= 0 {
        None
    } else {
        match first_duplicate(args, n - 1) {
            Some(j) => Some(j),
            None => if duplicate_at(args, n - 1) { Some(n - 1) } else { None },
        }
    }
}

/// The error for a keyword argument passed twice.
pub open spec fn duplicate_message(name: Seq<char>) -> Seq<char> {
    "multiple values for argument '"@ + name + "'"@
}

/// Whether the bindings end at a missing argument.
pub open spec fn ends_missing(bs: Seq<BindingView>) -> bool {
    bs.len() > 0 && bs.last() is Missing
}


/// The arguments marked in `used`, as a set of indices.
pub open spec fn used_set(used: Seq<bool>) -> Set<int> {
    Set::new(|i: int| 0 <= i < used.len() && used[i])
}

/// An optional index as an integer.
pub open spec fn opt_index(r: Option<usize>) -> Option<int> {
    match r {
        Some(i) => Some(i as int),
        None => None,
    }
}

/// The first argument that repeats an earlier keyword name.
fn find_duplicate(args: &[Option<String>]) -> (r: Option<usize>)
    ensures
        opt_index(r) == first_duplicate(args@, args@.len() as int),
        r matches Some(j) ==> j < args@.len(),
{
    let mut j: usize = 0;
    while j < args.len()
        invariant
            j <= args@.len(),
            first_duplicate(args@, j as int) is None,
        decreases args@.len() - j,
    {
        match &args[j] {
            Some(name) => {
                let mut i: usize = 0;
                while i < j
                    invariant
                        i <= j < args@.len(),
                        first_duplicate(args@, j as int) is None,
                        args@[j as int] == Some(*name),
                        forall|k: int| 0 <= k < i && args@[k] is Some ==> (#[trigger] args@[k])->Some_0@ != name@,
                    decreases j - i,
                {
                    match &args[i] {
                        Some(other) => {
                            if *other == *name {
                                proof {
                                    assert(duplicate_at(args@, j as int));
                                    lemma_first_duplicate_stays(args@, j as int + 1, args@.len() as int);
                                }
                                return Some(j);
                            }
                        },
                        None => {},
                    }
                    i += 1;
                }
                proof {
                    if duplicate_at(args@, j as int) {
                        let k = choose|k: int| 0 <= k < j && args@[k] is Some && (#[trigger] args@[k])->Some_0@ == args@[j as int]->Some_0@;
                    }
                }
            },
            None => {},
        }
        j += 1;
    }
    None
}

/// Once a duplicate is found among the first arguments, it stays the first.
proof fn lemma_first_duplicate_stays(args: Seq<Option<String>>, n: int, m: int)
    requires
        n <= m,
        first_duplicate(args, n - 1) is None,
        0 < n,
        duplicate_at(args, n - 1),
    ensures
        first_duplicate(args, m) == Some(n - 1),
    decreases m - n,
{
    if n < m {
        lemma_first_duplicate_stays(args, n, m - 1);
    }
}

/// The first duplicate is a duplicate, below the bound.
proof fn lemma_first_duplicate_is(args: Seq<Option<String>>, n: int)
    ensures
        first_duplicate(args, n) matches Some(j) ==> 0 <= j < n && duplicate_at(args, j),
    decreases n,
{
    if n > 0 {
        lemma_first_duplicate_is(args, n - 1);
    }
}

/// The argument found for a name is passed by that name.
proof fn lemma_keyword_at(args: Seq<Option<String>>, name: Seq<char>)
    ensures
        keyword_at(args, name) matches Some(i) ==> 0 <= i < args.len() && args[i] is Some && args[i]->Some_0@ == name,
    decreases args.len(),
{
    if args.len() > 0 {
        lemma_keyword_at(args.drop_last(), name);
    }
}

/// The indices of the positional arguments, in order.
fn positional_indices(args: &[Option<String>]) -> (v: Vec<usize>)
    ensures
        index_view(v@) == positionals(args@),
        forall|k: int| 0 <= k < v@.len() ==> (#[trigger] v@[k]) < args@.len(),
{
    let mut v: Vec<usize> = Vec::new();
    let mut i: usize = 0;
    while i < args.len()
        invariant
            i <= args@.len(),
            index_view(v@) == positionals(args@.take(i as int)),
            forall|k: int| 0 <= k < v@.len() ==> (#[trigger] v@[k]) < i,
        decreases args@.len() - i,
    {
        proof {
            assert(args@.take(i + 1).drop_last() =~= args@.take(i as int));
        }
        if args[i].is_none() {
            v.push(i);
            proof {
                assert(index_view(v@) =~= index_view(v@.drop_last()).push(i as int));
            }
        }
        i += 1;
    }
    proof {
        assert(args@.take(args@.len() as int) =~= args@);
    }
    v
}

/// The first argument passed by the name `name`.
fn find_keyword(args: &[Option<String>], name: &String) -> (r: Option<usize>)
    ensures
        opt_index(r) == keyword_at(args@, name@),
        r matches Some(i) ==> i < args@.len(),
{
    let mut i: usize = 0;
    proof {
        assert(args@.take(0) =~= Seq::<Option<String>>::empty());
    }
    while i < args.len()
        invariant
            i <= args@.len(),
            keyword_at(args@.take(i as int), name@) is None,
        decreases args@.len() - i,
    {
        proof {
            assert(args@.take(i + 1).drop_last() =~= args@.take(i as int));
        }
        match &args[i] {
            Some(s) => {
                if *s == *name {
                    proof {
                        lemma_keyword_prefix(args@, i as int + 1, name@);
                    }
                    return Some(i);
                }
            },
            None => {},
        }
        i += 1;
    }
    proof {
        assert(args@.take(args@.len() as int) =~= args@);
    }
    None
}

/// A name found among the first arguments is found at the same place
/// among them all.
proof fn lemma_keyword_prefix(args: Seq<Option<String>>, k: int, name: Seq<char>)
    requires
        0 < k <= args.len(),
        keyword_at(args.take(k), name) == Some(k - 1),
    ensures
        keyword_at(args, name) == Some(k - 1),
    decreases args.len() - k,
{
    if k < args.len() {
        assert(args.take(k + 1).drop_last() =~= args.take(k));
        lemma_keyword_prefix_keep(args, k + 1, name, k - 1);
    } else {
        assert(args.take(k) =~= args);
    }
}

/// A name found among the first arguments stays found there as more are
/// read.
proof fn lemma_keyword_prefix_keep(args: Seq<Option<String>>, k: int, name: Seq<char>, i: int)
    requires
        0 < k <= args.len(),
        keyword_at(args.take(k - 1), name) == Some(i),
    ensures
        keyword_at(args, name) == Some(i),
    decreases args.len() - k,
{
    assert(args.take(k).drop_last() =~= args.take(k - 1));
    if k < args.len() {
        lemma_keyword_prefix_keep(args, k + 1, name, i);
    } else {
        assert(args.take(k) =~= args);
    }
}

/// The keyword arguments not yet bound, in order.
fn unused_keywords(args: &[Option<String>], used: &Vec<bool>) -> (v: Vec<usize>)
    requires
        used@.len() == args@.len(),
    ensures
        index_view(v@) == unused_named(args@, used_set(used@), args@.len() as int),
        forall|k: int| 0 <= k < v@.len() ==> (#[trigger] v@[k]) < args@.len(),
{
    let mut v: Vec<usize> = Vec::new();
    let mut i: usize = 0;
    while i < args.len()
        invariant
            i <= args@.len(),
            used@.len() == args@.len(),
            index_view(v@) == unused_named(args@, used_set(used@), i as int),
            forall|k: int| 0 <= k < v@.len() ==> (#[trigger] v@[k]) < i,
        decreases args@.len() - i,
    {
        if args[i].is_some() && !used[i] {
            v.push(i);
            proof {
                assert(index_view(v@) =~= index_view(v@.drop_last()).push(i as int));
            }
        }
        i += 1;
    }
    v
}

/// The entries of `ps` from position `from` on.
fn tail_indices(ps: &Vec<usize>, from: usize) -> (v: Vec<usize>)
    requires
        from <= ps@.len(),
    ensures
        index_view(v@) == index_view(ps@).subrange(from as int, ps@.len() as int),
        v@ == ps@.subrange(from as int, ps@.len() as int),
{
    let mut v: Vec<usize> = Vec::new();
    let mut i: usize = from;
    while i < ps.len()
        invariant
            from <= i <= ps@.len(),
            v@ == ps@.subrange(from as int, i as int),
        decreases ps@.len() - i,
    {
        v.push(ps[i]);
        i += 1;
        proof {
            assert(ps@.subrange(from as int, i as int) =~= ps@.subrange(from as int, i - 1).push(ps@[i - 1]));
        }
    }
    proof {
        assert(index_view(v@) =~= index_view(ps@).subrange(from as int, ps@.len() as int));
    }
    v
}

/// Marks every keyword argument as bound.
fn mark_all_named(args: &[Option<String>], used: &mut Vec<bool>)
    requires
        old(used)@.len() == args@.len(),
        used_set(old(used)@).subset_of(all_named(args@)),
    ensures
        final(used)@.len() == args@.len(),
        used_set(final(used)@) == all_named(args@),
{
    let mut i: usize = 0;
    proof {
        assert forall|k: int| 0 <= k < args@.len() && (#[trigger] used@[k]) implies args@[k] is Some by {
            assert(used_set(used@).contains(k));
        }
    }
    while i < args.len()
        invariant
            i <= args@.len(),
            used@.len() == args@.len(),
            forall|k: int| 0 <= k < i ==> (#[trigger] used@[k]) == (args@[k] is Some),
            forall|k: int| i <= k < args@.len() ==> (#[trigger] used@[k]) ==> args@[k] is Some,
        decreases args@.len() - i,
    {
        if args[i].is_some() {
            used.set(i, true);
        }
        i += 1;
    }
    proof {
        assert(used_set(used@) =~= all_named(args@));
    }
}

/// Once the plan ends at a missing argument, binding more parameters
/// changes nothing.
proof fn lemma_plan_stays(params: Seq<ParamSpec>, args: Seq<Option<String>>, k: int, m: int)
    requires
        0 <= k <= m,
        ends_missing(plan_prefix(params, args, k).0),
    ensures
        plan_prefix(params, args, m) == plan_prefix(params, args, k),
    decreases m - k,
{
    if k < m {
        lemma_plan_stays(params, args, k, m - 1);
    }
}

/// Plans how the arguments of a call (each `Some(name)` when passed by
/// name) bind to `params`: a keyword name passed twice is an error;
/// otherwise each parameter in turn takes the keyword argument of its
/// name, else the next positional argument, else its default, and is
/// missing when it has none, which ends the plan; variadic and gathering
/// parameters take every argument of their kind not yet bound. Arguments
/// left over once every parameter is bound make the call one with too
/// many arguments.
pub fn plan_arguments(params: &[ParamSpec], args: &[Option<String>]) -> (r: Result<ArgumentPlan, RuntimeError>)
    ensures
        match first_duplicate(args@, args@.len() as int) {
            Some(j) => r is Err && r->Err_0.message@ == duplicate_message(args@[j]->Some_0@),
            None => r matches Ok(plan) && plan.bindings@.len() <= params@.len() && ({
                let (bs, pos, used) = plan_prefix(params@, args@, params@.len() as int);
                &&& plan.bindings@.map_values(|b: Binding| b@) == bs
                &&& plan.too_many == (!ends_missing(bs) && (pos < positionals(args@).len()
                    || unused_named(args@, used, args@.len() as int).len() > 0))
            }),
        },
{
    let dup = find_duplicate(args);
    proof {
        lemma_first_duplicate_is(args@, args@.len() as int);
    }
    match dup {
        Some(j) => {
            let name = match &args[j] {
                Some(n) => n,
                None => {
                    proof {
                        assert(false);
                    }
                    return Err(RuntimeError { message: String::new() });
                },
            };
            let mut message = String::from_str("multiple values for argument '");
            message.append(name.as_str());
            message.append("'");
            return Err(RuntimeError { message });
        },
        None => {},
    }
    let ps = positional_indices(args);
    let mut used: Vec<bool> = Vec::new();
    let mut i: usize = 0;
    while i < args.len()
        invariant
            i <= args@.len(),
            used@.len() == i,
            forall|k: int| 0 <= k < i ==> !(#[trigger] used@[k]),
        decreases args@.len() - i,
    {
        used.push(false);
        i += 1;
    }
    proof {
        assert(used_set(used@) =~= Set::<int>::empty());
    }
    let mut pos: usize = 0;
    let mut bindings: Vec<Binding> = Vec::new();
    let mut k: usize = 0;
    let mut stopped = false;
    while k < params.len() && !stopped
        invariant
            k <= params@.len(),
            bindings@.len() == k,
            used@.len() == args@.len(),
            index_view(ps@) == positionals(args@),
            forall|q: int| 0 <= q < ps@.len() ==> (#[trigger] ps@[q]) < args@.len(),
            pos <= ps@.len(),
            used_set(used@).subset_of(all_named(args@)),
            stopped == ends_missing(bindings@.map_values(|b: Binding| b@)),
            plan_prefix(params@, args@, k as int) == (bindings@.map_values(|b: Binding| b@), pos as int, used_set(used@)),
        decreases params@.len() - k,
    {
        let ghost before = bindings@;
        let p = &params[k];
        let b = match p.kind {
            ParamKind::Gather => {
                let rest = tail_indices(&ps, pos);
                let kws = unused_keywords(args, &used);
                mark_all_named(args, &mut used);
                pos = ps.len();
                Binding::Gather(rest, kws)
            },
            ParamKind::VariadicPositional => {
                let rest = tail_indices(&ps, pos);
                pos = ps.len();
                Binding::RestPositional(rest)
            },
            ParamKind::VariadicKeyword => {
                let kws = unused_keywords(args, &used);
                mark_all_named(args, &mut used);
                Binding::RestKeywords(kws)
            },
            ParamKind::Regular => {
                proof {
                    lemma_keyword_at(args@, p.name@);
                }
                let found = match find_keyword(args, &p.name) {
                    Some(ki) => if !used[ki] { Some(ki) } else { None },
                    None => None,
                };
                match found {
                    Some(ki) => {
                        let ghost before_used = used@;
                        used.set(ki, true);
                        proof {
                            assert(used_set(used@) =~= used_set(before_used).insert(ki as int));
                        }
                        Binding::Keyword(ki)
                    },
                    None => {
                        if pos < ps.len() {
                            let bi = ps[pos];
                            pos = pos + 1;
                            Binding::Positional(bi)
                        } else if p.has_default {
                            Binding::Default
                        } else {
                            Binding::Missing
                        }
                    },
                }
            },
        };
        let is_missing = match b {
            Binding::Missing => true,
            _ => false,
        };
        bindings.push(b);
        stopped = is_missing;
        k += 1;
    }
    let leftover = unused_keywords(args, &used);
    let left = pos < ps.len() || leftover.len() > 0;
    proof {
        if stopped {
            lemma_plan_stays(params@, args@, k as int, params@.len() as int);
        }
        assert(index_view(leftover@).len() == leftover@.len());
        assert(index_view(ps@).len() == ps@.len());
    }
    Ok(ArgumentPlan { bindings, too_many: !stopped && left })
}

/// The error for a required parameter the call gives no value.
pub open spec fn missing_message(name: Seq<char>) -> Seq<char> {
    "missing required argument '"@ + name + "'"@
}

/// The error a plan leads to once every binding before its end has been
/// made: the missing argument it ends at, else too many arguments; `None`
/// when the call binds.
pub fn plan_error(params: &[ParamSpec], plan: &ArgumentPlan) -> (r: Option<RuntimeError>)
    requires
        plan.bindings@.len() <= params@.len(),
    ensures
        ({
            let n = plan.bindings@.len();
            if n > 0 && plan.bindings@[n - 1] is Missing {
                r matches Some(e) && e.message@ == missing_message(params@[n - 1].name@)
            } else if plan.too_many {
                r matches Some(e) && e.message@ == "too many arguments for function"@
            } else {
                r is None
            }
        }),
{
    let n = plan.bindings.len();
    if n > 0 {
        match &plan.bindings[n - 1] {
            Binding::Missing => {
                let mut message = String::from_str("missing required argument '");
                message.append(params[n - 1].name.as_str());
                message.append("'");
                return Some(RuntimeError { message });
            },
            _ => {},
        }
    }
    if plan.too_many {
        Some(RuntimeError { message: String::from_str("too many arguments for function") })
    } else {
        None
    }
}
} // verus!
