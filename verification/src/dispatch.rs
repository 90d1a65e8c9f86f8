//! Multiple dispatch: methods registered under a name with the types of
//! their parameters, and the selection of the one most specific match.
use vstd::prelude::*;
use vstd::string::*;
use crate::classes::{ClassDef, hierarchy_distance, runtime_type_distance, dfs_distance, distance_view};
use crate::error::RuntimeError;

verus! {

/// One method registered for dispatch: the types of its parameters and the
/// function that implements it.
pub struct DispatchEntry<F> {
    pub param_types: Vec<String>,
    pub func: F,
}

/// The methods registered under one name, in registration order.
pub struct MethodGroup<F> {
    pub name: String,
    pub entries: Vec<DispatchEntry<F>>,
}

/// Every registered method, grouped by name.
pub struct DispatchTable<F> {
    pub methods: Vec<MethodGroup<F>>,
}

/// The parameter types of an entry, as sequences of characters.
pub open spec fn param_names<F>(e: DispatchEntry<F>) -> Seq<Seq<char>> {
    e.param_types@.map_values(|s: String| s@)
}

/// The names of the groups, in order.
pub open spec fn group_names<F>(groups: Seq<MethodGroup<F>>) -> Seq<Seq<char>> {
    groups.map_values(|g: MethodGroup<F>| g.name@)
}

/// The types of a call's arguments, as sequences of characters.
pub open spec fn arg_names(args: Seq<String>) -> Seq<Seq<char>> {
    args.map_values(|s: String| s@)
}

/// How far a value of type `actual` is from a parameter of type `expected`
/// for the table's own matching: `object` and `LucidVal` accept anything
/// at distance 1, the same type matches at distance 0, anything else does
/// not match.
pub open spec fn exact_distance(actual: Seq<char>, expected: Seq<char>) -> Option<usize> {
    if expected == "object"@ || expected == "LucidVal"@ {
        Some(1)
    } else if actual == expected {
        Some(0)
    } else {
        None
    }
}

/// Adds `d` to `acc`, stopping at `usize::MAX`.
pub open spec fn saturating_sum(acc: usize, d: usize) -> usize {
    if acc + d > usize::MAX { usize::MAX } else { (acc + d) as usize }
}

/// The sum of the distances of the first `n` parameters, or `None` when one
/// of them does not match.
pub open spec fn specificity_prefix(params: Seq<Seq<char>>, args: Seq<Seq<char>>, n: int) -> Option<usize>
    decreases n,
{
    if n <= 0 {
        Some(0)
    } else {
        match (specificity_prefix(params, args, n - 1), exact_distance(args[n - 1], params[n - 1])) {
            (Some(acc), Some(d)) => Some(saturating_sum(acc, d)),
            _ => None,
        }
    }
}

/// How specific an entry is for the given argument types (lower is more
/// specific), or `None` when it does not apply: a different number of
/// parameters, or a parameter that does not match.
pub open spec fn specificity(params: Seq<Seq<char>>, args: Seq<Seq<char>>) -> Option<usize> {
    if params.len() != args.len() {
        None
    } else {
        specificity_prefix(params, args, params.len() as int)
    }
}

/// `i` is the unique entry of least specificity among those that apply.
pub open spec fn is_unique_best(specs: Seq<Option<usize>>, i: int) -> bool {
    &&& 0 <= i < specs.len()
    &&& specs[i] is Some
    &&& forall|j: int| 0 <= j < specs.len() && j != i && (#[trigger] specs[j]) is Some ==> specs[i]->Some_0 < specs[j]->Some_0
}

/// Selects the entry with the least specificity, by position: `None` when
/// no entry applies or when the least specificity is shared (registration
/// order never breaks a tie).
fn select_unique_best(specs: &Vec<Option<usize>>) -> (r: Option<usize>)
    ensures
        match r {
            Some(i) => is_unique_best(specs@, i as int),
            None => forall|i: int| !is_unique_best(specs@, i),
        },
{
    let mut best: Option<(usize, usize)> = None;
    let mut tied = false;
    let mut k: usize = 0;
    while k < specs.len()
        invariant
            k <= specs@.len(),
            match best {
                None => !tied && forall|j: int| 0 <= j < k ==> (#[trigger] specs@[j]) is None,
                Some((s, i)) => {
                    &&& i < k
                    &&& specs@[i as int] == Some(s)
                    &&& forall|j: int| 0 <= j < k && (#[trigger] specs@[j]) is Some ==> s <= specs@[j]->Some_0
                    &&& forall|j: int| 0 <= j < i && (#[trigger] specs@[j]) is Some ==> s < specs@[j]->Some_0
                    &&& tied == exists|j: int| i < j < k && (#[trigger] specs@[j]) == Some(s)
                },
            },
        decreases specs@.len() - k,
    {
        match specs[k] {
            Some(s) => {
                match best {
                    None => {
                        best = Some((s, k));
                    },
                    Some((b, i)) => {
                        if s < b {
                            best = Some((s, k));
                            tied = false;
                        } else if s == b {
                            tied = true;
                            assert(specs@[k as int] == Some(b));
                        }
                    },
                }
            },
            None => {},
        }
        k += 1;
    }
    if tied {
        proof {
            let (s, i) = best->Some_0;
            let j = choose|j: int| i < j < specs@.len() && (#[trigger] specs@[j]) == Some(s);
            assert forall|x: int| !is_unique_best(specs@, x) by {
                if is_unique_best(specs@, x) {
                    if x != i as int {
                        assert(specs@[x]->Some_0 < s);
                    } else {
                        assert(specs@[i as int]->Some_0 < specs@[j]->Some_0);
                    }
                }
            }
        }
        return None;
    }
    match best {
        Some((_, i)) => Some(i),
        None => {
            proof {
                assert forall|x: int| !is_unique_best(specs@, x) by {
                    if is_unique_best(specs@, x) {
                        assert(specs@[x] is None);
                    }
                }
            }
            None
        },
    }
}

/// The position of the first group named `name`, if any.
pub open spec fn group_index<F>(groups: Seq<MethodGroup<F>>, name: Seq<char>) -> Option<int>
    decreases groups.len(),
{
    if groups.len() == 0 {
        None
    } else {
        match group_index(groups.drop_last(), name) {
            Some(i) => Some(i),
            None => if groups.last().name@ == name { Some(groups.len() - 1) } else { None },
        }
    }
}

/// `group_index` finds the first group with the name, or says none has it.
proof fn lemma_group_index<F>(groups: Seq<MethodGroup<F>>, name: Seq<char>)
    ensures
        match group_index(groups, name) {
            Some(i) => 0 <= i < groups.len() && groups[i].name@ == name
                && forall|j: int| 0 <= j < i ==> (#[trigger] groups[j]).name@ != name,
            None => forall|j: int| 0 <= j < groups.len() ==> (#[trigger] groups[j]).name@ != name,
        },
    decreases groups.len(),
{
    if groups.len() > 0 {
        let rest = groups.drop_last();
        lemma_group_index(rest, name);
        assert forall|j: int| 0 <= j < rest.len() implies (#[trigger] rest[j]) == groups[j] by {}
        assert(groups.last() == groups[groups.len() - 1]);
        match group_index(rest, name) {
            Some(i) => {
                assert forall|j: int| 0 <= j < i implies (#[trigger] groups[j]).name@ != name by {
                    assert(rest[j] == groups[j]);
                }
            },
            None => {
                assert forall|j: int| 0 <= j < groups.len() - 1 implies (#[trigger] groups[j]).name@ != name by {
                    assert(rest[j] == groups[j]);
                }
            },
        }
    }
}

/// The entries registered under `name`, in registration order.
pub open spec fn entries_of<F>(groups: Seq<MethodGroup<F>>, name: Seq<char>) -> Seq<DispatchEntry<F>> {
    match group_index(groups, name) {
        Some(i) => groups[i].entries@,
        None => Seq::empty(),
    }
}

/// How specific each entry is for the given argument types.
pub open spec fn specificities<F>(entries: Seq<DispatchEntry<F>>, args: Seq<Seq<char>>) -> Seq<Option<usize>> {
    entries.map_values(|e: DispatchEntry<F>| specificity(param_names(e), args))
}

/// A group with the name, preceded by none with it, is the one found.
proof fn lemma_first_group<F>(groups: Seq<MethodGroup<F>>, name: Seq<char>, i: int)
    requires
        0 <= i < groups.len(),
        groups[i].name@ == name,
        forall|j: int| 0 <= j < i ==> (#[trigger] groups[j]).name@ != name,
    ensures
        group_index(groups, name) == Some(i),
{
    lemma_group_index(groups, name);
    match group_index(groups, name) {
        Some(k) => {
            if k < i {
                assert(groups[k].name@ != name);
            } else if k > i {
                assert(groups[i].name@ != name);
            }
        },
        None => {
            assert(groups[i].name@ != name);
        },
    }
}

/// Finds the first group named `name`.
fn find_group<F>(groups: &Vec<MethodGroup<F>>, name: &String) -> (r: Option<usize>)
    ensures
        match r {
            Some(i) => group_index(groups@, name@) == Some(i as int),
            None => group_index(groups@, name@) is None,
        },
{
    let mut i: usize = 0;
    while i < groups.len()
        invariant
            i <= groups@.len(),
            forall|j: int| 0 <= j < i ==> (#[trigger] groups@[j]).name@ != name@,
        decreases groups@.len() - i,
    {
        if groups[i].name == *name {
            proof {
                lemma_first_group(groups@, name@, i as int);
            }
            return Some(i);
        }
        i += 1;
    }
    proof {
        lemma_group_index(groups@, name@);
        if group_index(groups@, name@) is Some {
            let k = group_index(groups@, name@)->Some_0;
            assert(groups@[k].name@ != name@);
        }
    }
    None
}

/// How far a value of type `actual` is from a parameter of type
/// `expected`, by `exact_distance`.
fn exact_distance_of(actual: &String, expected: &String) -> (r: Option<usize>)
    ensures
        r == exact_distance(actual@, expected@),
{
    let object = String::from_str("object");
    let lucid_val = String::from_str("LucidVal");
    if *expected == object || *expected == lucid_val {
        Some(1)
    } else if *actual == *expected {
        Some(0)
    } else {
        None
    }
}

/// The specificity of one entry for the argument types.
fn specificity_of<F>(entry: &DispatchEntry<F>, args: &[String]) -> (r: Option<usize>)
    ensures
        r == specificity(param_names(*entry), arg_names(args@)),
{
    if entry.param_types.len() != args.len() {
        return None;
    }
    let ghost params = param_names(*entry);
    let ghost argv = arg_names(args@);
    let mut total: usize = 0;
    let mut k: usize = 0;
    while k < args.len()
        invariant
            k <= args@.len(),
            entry.param_types@.len() == args@.len(),
            params == param_names(*entry),
            argv == arg_names(args@),
            specificity_prefix(params, argv, k as int) == Some(total),
        decreases args@.len() - k,
    {
        match exact_distance_of(&args[k], &entry.param_types[k]) {
            Some(d) => {
                total = total.saturating_add(d);
            },
            None => {
                proof {
                    lemma_prefix_none_stays(params, argv, k as int + 1, params.len() as int);
                }
                return None;
            },
        }
        k += 1;
    }
    Some(total)
}

/// Once a prefix fails to match, every longer prefix fails.
proof fn lemma_prefix_none_stays(params: Seq<Seq<char>>, args: Seq<Seq<char>>, n: int, m: int)
    requires
        specificity_prefix(params, args, n) is None,
        n <= m,
    ensures
        specificity_prefix(params, args, m) is None,
    decreases m - n,
{
    if n < m {
        lemma_prefix_none_stays(params, args, n, m - 1);
    }
}

/// Groups named alike position by position are found at the same place.
proof fn lemma_same_names_same_index<F>(a: Seq<MethodGroup<F>>, b: Seq<MethodGroup<F>>, name: Seq<char>)
    requires
        a.len() == b.len(),
        forall|i: int| 0 <= i < a.len() ==> (#[trigger] a[i]).name@ == b[i].name@,
    ensures
        group_index(a, name) == group_index(b, name),
    decreases a.len(),
{
    if a.len() > 0 {
        lemma_same_names_same_index(a.drop_last(), b.drop_last(), name);
        assert(a.last().name@ == b.last().name@);
    }
}

/// Appending a group named otherwise leaves where a name is found, and
/// what is found there, as before.
proof fn lemma_index_after_push<F>(a: Seq<MethodGroup<F>>, b: Seq<MethodGroup<F>>, name: Seq<char>)
    requires
        b.len() == a.len() + 1,
        forall|i: int| 0 <= i < a.len() ==> (#[trigger] b[i]) == a[i],
        b[a.len() as int].name@ != name,
    ensures
        group_index(a, name) == group_index(b, name),
        entries_of(a, name) == entries_of(b, name),
{
    assert(b.drop_last() =~= a);
    lemma_group_index(a, name);
}

impl<F> DispatchTable<F> {
    /// Well-formedness: no two groups share a name.
    pub open spec fn wf(self) -> bool {
        group_names(self.methods@).no_duplicates()
    }

    /// An empty table.
    pub fn new() -> (t: Self)
        ensures
            t.methods@.len() == 0,
            t.wf(),
    {
        DispatchTable { methods: Vec::new() }
    }

    /// Registers `func` under `name` for the given parameter types, after
    /// the methods already registered under that name.
    pub fn register(&mut self, name: String, param_types: Vec<String>, func: F)
        ensures
            entries_of(final(self).methods@, name@) == entries_of(old(self).methods@, name@).push(
                DispatchEntry { param_types, func },
            ),
            forall|other: Seq<char>| other != name@ ==> entries_of(final(self).methods@, other)
                == #[trigger] entries_of(old(self).methods@, other),
            old(self).wf() ==> final(self).wf(),
    {
        let ghost registered = DispatchEntry { param_types, func };
        let entry = DispatchEntry { param_types, func };
        proof {
            lemma_group_index(self.methods@, name@);
        }
        match find_group(&self.methods, &name) {
            Some(i) => {
                let mut group = self.methods.remove(i);
                group.entries.push(entry);
                self.methods.insert(i, group);
                proof {
                    let old_g = old(self).methods@;
                    let new_g = self.methods@;
                    assert(new_g =~= old_g.update(i as int, new_g[i as int]));
                    lemma_same_names_same_index(old_g, new_g, name@);
                    assert forall|other: Seq<char>| other != name@ implies entries_of(new_g, other)
                        == #[trigger] entries_of(old_g, other) by {
                        lemma_same_names_same_index(old_g, new_g, other);
                        lemma_group_index(old_g, other);
                        if group_index(old_g, other) is Some {
                            let k = group_index(old_g, other)->Some_0;
                            assert(k != i as int);
                            assert(new_g[k] == old_g[k]);
                        }
                    }
                    assert(group_names(new_g) =~= group_names(old_g));
                }
            },
            None => {
                let ghost before = self.methods@;
                let ghost key = name@;
                self.methods.push(MethodGroup { name, entries: vec![entry] });
                proof {
                    let new_g = self.methods@;
                    assert forall|j: int| 0 <= j < before.len() implies (#[trigger] new_g[j]).name@ != key by {
                        assert(new_g[j] == before[j]);
                    }
                    lemma_first_group(new_g, key, before.len() as int);
                    assert(new_g[before.len() as int].entries@ =~= seq![registered]);
                    assert forall|other: Seq<char>| other != key implies entries_of(new_g, other)
                        == #[trigger] entries_of(before, other) by {
                        lemma_index_after_push(before, new_g, other);
                    }
                    assert(group_names(new_g) =~= group_names(before).push(key));
                    assert(!group_names(before).contains(key)) by {
                        if group_names(before).contains(key) {
                            let j = choose|j: int| 0 <= j < group_names(before).len() && group_names(before)[j] == key;
                            assert(before[j].name@ == key);
                        }
                    }
                }
            },
        }
    }

    /// The method registered under `name` that most specifically matches
    /// arguments of the given types: the unique entry of least
    /// specificity, or `None` when no entry matches or the best match is
    /// shared.
    pub fn find_match(&self, name: &str, arg_types: &[String]) -> (r: Option<&F>)
        ensures
            ({
                let specs = specificities(entries_of(self.methods@, name@), arg_names(arg_types@));
                match r {
                    Some(f) => exists|i: int| is_unique_best(specs, i)
                        && *f == entries_of(self.methods@, name@)[i].func,
                    None => forall|i: int| !is_unique_best(specs, i),
                }
            }),
    {
        let key = String::from_str(name);
        proof {
            lemma_group_index(self.methods@, name@);
        }
        match find_group(&self.methods, &key) {
            Some(g) => {
                let entries = &self.methods[g].entries;
                let mut specs: Vec<Option<usize>> = Vec::new();
                let mut k: usize = 0;
                while k < entries.len()
                    invariant
                        k <= entries@.len(),
                        specs@ =~= specificities(entries@, arg_names(arg_types@)).subrange(0, k as int),
                    decreases entries@.len() - k,
                {
                    specs.push(specificity_of(&entries[k], arg_types));
                    k += 1;
                }
                proof {
                    assert(specs@ =~= specificities(entries@, arg_names(arg_types@)));
                }
                proof {
                    assert(entries@ == entries_of(self.methods@, name@));
                }
                match select_unique_best(&specs) {
                    Some(i) => {
                        proof {
                            assert(is_unique_best(specificities(entries_of(self.methods@, name@), arg_names(arg_types@)), i as int));
                        }
                        Some(&entries[i].func)
                    },
                    None => None,
                }
            },
            None => {
                proof {
                    assert forall|i: int| !is_unique_best(specificities(entries_of(self.methods@, name@), arg_names(arg_types@)), i) by {}
                }
                None
            },
        }
    }
}


/// Sums distances, stopping at `usize::MAX`; `None` when one of them is
/// `None`.
pub open spec fn sum_distances(ds: Seq<Option<usize>>) -> Option<usize>
    decreases ds.len(),
{
    if ds.len() == 0 {
        Some(0)
    } else {
        match (sum_distances(ds.drop_last()), ds.last()) {
            (Some(acc), Some(d)) => Some(saturating_sum(acc, d)),
            _ => None,
        }
    }
}

/// `s` is how specific an entry with parameter types `params` is for
/// argument types `args` over the class hierarchy: `None` for a different
/// number of arguments, otherwise the sum of one hierarchy distance per
/// parameter, each the one the depth-first walk finds.
pub open spec fn hierarchy_specificity(classes: Seq<ClassDef>, params: Seq<Seq<char>>, args: Seq<Seq<char>>, s: Option<usize>) -> bool {
    if params.len() != args.len() {
        s is None
    } else {
        exists|ds: Seq<Option<usize>>| #![trigger sum_distances(ds)]
            ds.len() == params.len()
            && (forall|k: int| 0 <= k < ds.len() ==> hierarchy_distance(classes, args[k], params[k], #[trigger] ds[k])
                && distance_view(ds[k]) == dfs_distance(classes, args[k], params[k]))
            && s == sum_distances(ds)
    }
}

/// The specificity of one entry for the argument types over the class
/// hierarchy.
fn hierarchy_specificity_of<F>(entry: &DispatchEntry<F>, args: &[String], classes: &[ClassDef]) -> (r: Option<usize>)
    ensures
        hierarchy_specificity(classes@, param_names(*entry), arg_names(args@), r),
{
    if entry.param_types.len() != args.len() {
        return None;
    }
    let ghost params = param_names(*entry);
    let ghost argv = arg_names(args@);
    let mut ds: Vec<Option<usize>> = Vec::new();
    let mut total: Option<usize> = Some(0);
    let mut k: usize = 0;
    while k < args.len()
        invariant
            k <= args@.len(),
            entry.param_types@.len() == args@.len(),
            params == param_names(*entry),
            argv == arg_names(args@),
            ds@.len() == k,
            forall|j: int| 0 <= j < k ==> hierarchy_distance(classes@, argv[j], params[j], #[trigger] ds@[j])
                && distance_view(ds@[j]) == dfs_distance(classes@, argv[j], params[j]),
            total == sum_distances(ds@),
        decreases args@.len() - k,
    {
        let d = runtime_type_distance(classes, args[k].as_str(), entry.param_types[k].as_str());
        let ghost before = ds@;
        ds.push(d);
        proof {
            assert(ds@.drop_last() =~= before);
        }
        total = match (total, d) {
            (Some(acc), Some(x)) => Some(acc.saturating_add(x)),
            _ => None,
        };
        k += 1;
    }
    total
}

impl<F> DispatchTable<F> {
    /// The method registered under `name` that most specifically matches
    /// arguments of the given types when a parameter may also be an
    /// ancestor class of its argument's type: the unique entry of least
    /// specificity, or `None` when no entry matches or the best match is
    /// shared.
    pub fn find_match_in_hierarchy(&self, name: &str, arg_types: &[String], classes: &[ClassDef]) -> (r: Option<&F>)
        ensures
            ({
                let entries = entries_of(self.methods@, name@);
                exists|specs: Seq<Option<usize>>| #![trigger specs.len()]
                    specs.len() == entries.len()
                    && (forall|i: int| 0 <= i < specs.len() ==> hierarchy_specificity(classes@, param_names(entries[i]), arg_names(arg_types@), #[trigger] specs[i]))
                    && match r {
                        Some(f) => exists|i: int| is_unique_best(specs, i) && *f == entries[i].func,
                        None => forall|i: int| !is_unique_best(specs, i),
                    }
            }),
    {
        let key = String::from_str(name);
        proof {
            lemma_group_index(self.methods@, name@);
        }
        match find_group(&self.methods, &key) {
            Some(g) => {
                let entries = &self.methods[g].entries;
                let mut specs: Vec<Option<usize>> = Vec::new();
                let mut k: usize = 0;
                while k < entries.len()
                    invariant
                        k <= entries@.len(),
                        specs@.len() == k,
                        forall|i: int| 0 <= i < k ==> hierarchy_specificity(classes@, param_names(entries@[i]), arg_names(arg_types@), #[trigger] specs@[i]),
                    decreases entries@.len() - k,
                {
                    specs.push(hierarchy_specificity_of(&entries[k], arg_types, classes));
                    k += 1;
                }
                proof {
                    assert(entries@ == entries_of(self.methods@, name@));
                }
                let r = match select_unique_best(&specs) {
                    Some(i) => Some(&entries[i].func),
                    None => None,
                };
                proof {
                    assert(specs@.len() == entries_of(self.methods@, name@).len());
                }
                r
            },
            None => {
                proof {
                    let specs = Seq::<Option<usize>>::empty();
                    assert(specs.len() == entries_of(self.methods@, name@).len());
                    assert forall|i: int| !is_unique_best(specs, i) by {}
                }
                None
            },
        }
    }
}

/// Parameters equal to the arguments, none of them a fallback type, match
/// at distance 0 over any leading part.
proof fn lemma_exact_prefix_zero(params: Seq<Seq<char>>, args: Seq<Seq<char>>, n: int)
    requires
        0 <= n <= args.len(),
        params.len() == args.len(),
        forall|k: int| 0 <= k < n ==> params[k] == args[k] && args[k] != "object"@ && args[k] != "LucidVal"@,
    ensures
        specificity_prefix(params, args, n) == Some(0usize),
    decreases n,
{
    if n > 0 {
        lemma_exact_prefix_zero(params, args, n - 1);
    }
}

/// A leading part that matches at distance 0 consists of exact matches
/// on types that are not fallbacks.
proof fn lemma_zero_prefix_exact(params: Seq<Seq<char>>, args: Seq<Seq<char>>, n: int)
    requires
        0 <= n,
        specificity_prefix(params, args, n) == Some(0usize),
    ensures
        forall|k: int| 0 <= k < n ==> params[k] == args[k] && params[k] != "object"@ && params[k] != "LucidVal"@,
    decreases n,
{
    if n > 0 {
        let acc = specificity_prefix(params, args, n - 1);
        let d = exact_distance(args[n - 1], params[n - 1]);
        assert(acc is Some && d is Some);
        assert(acc->Some_0 == 0 && d->Some_0 == 0);
        lemma_zero_prefix_exact(params, args, n - 1);
    }
}

/// An entry whose parameter types are exactly the argument types, none of
/// them the `object` or `LucidVal` fallback, is preferred to every entry
/// that reaches an argument only through a fallback: when no other entry
/// has the same parameter types, it is the unique best match.
pub proof fn law_exact_entry_wins<F>(entries: Seq<DispatchEntry<F>>, args: Seq<Seq<char>>, i: int)
    requires
        0 <= i < entries.len(),
        param_names(entries[i]) == args,
        forall|k: int| 0 <= k < args.len() ==> args[k] != "object"@ && args[k] != "LucidVal"@,
        forall|j: int| 0 <= j < entries.len() && j != i ==> param_names(#[trigger] entries[j]) != args,
    ensures
        is_unique_best(specificities(entries, args), i),
{
    let specs = specificities(entries, args);
    lemma_exact_prefix_zero(param_names(entries[i]), args, args.len() as int);
    assert(specs[i] == Some(0usize));
    assert forall|j: int| 0 <= j < specs.len() && j != i && (#[trigger] specs[j]) is Some implies specs[i]->Some_0 < specs[j]->Some_0 by {
        let pj = param_names(entries[j]);
        if specs[j] == Some(0usize) {
            lemma_zero_prefix_exact(pj, args, pj.len() as int);
            assert(pj =~= args);
        }
    }
}

/// Entries registered with the same parameter types are equally specific
/// for any arguments, so neither is ever chosen: registration order never
/// breaks the tie.
pub proof fn law_equal_signatures_never_win<F>(entries: Seq<DispatchEntry<F>>, args: Seq<Seq<char>>, i: int, j: int)
    requires
        0 <= i < entries.len(),
        0 <= j < entries.len(),
        i != j,
        param_names(entries[i]) == param_names(entries[j]),
    ensures
        !is_unique_best(specificities(entries, args), i),
        !is_unique_best(specificities(entries, args), j),
{
    let specs = specificities(entries, args);
    assert(specs[i] == specs[j]);
}

/// The first `n` parameters' distances compared: while the prefixes apply,
/// each sum stays within `n`, and pointwise smaller distances give a
/// smaller sum, strictly smaller when one distance is.
proof fn lemma_prefix_compare(p: Seq<Seq<char>>, q: Seq<Seq<char>>, args: Seq<Seq<char>>, n: int)
    requires
        0 <= n <= args.len() <= usize::MAX,
        p.len() == args.len(),
        q.len() == args.len(),
        specificity_prefix(p, args, n) is Some,
        specificity_prefix(q, args, n) is Some,
        forall|k: int| 0 <= k < n ==> (#[trigger] exact_distance(args[k], p[k]))->Some_0 <= exact_distance(args[k], q[k])->Some_0,
    ensures
        specificity_prefix(p, args, n)->Some_0 <= n,
        specificity_prefix(q, args, n)->Some_0 <= n,
        specificity_prefix(p, args, n)->Some_0 <= specificity_prefix(q, args, n)->Some_0,
        (exists|k: int| 0 <= k < n && (#[trigger] exact_distance(args[k], p[k]))->Some_0 < exact_distance(args[k], q[k])->Some_0)
            ==> specificity_prefix(p, args, n)->Some_0 < specificity_prefix(q, args, n)->Some_0,
    decreases n,
{
    if n > 0 {
        lemma_prefix_compare(p, q, args, n - 1);
        let k = n - 1;
        assert(exact_distance(args[k], p[k]) is Some);
        assert(exact_distance(args[k], q[k]) is Some);
        if exists|j: int| 0 <= j < n && (#[trigger] exact_distance(args[j], p[j]))->Some_0 < exact_distance(args[j], q[j])->Some_0 {
            let j = choose|j: int| 0 <= j < n && (#[trigger] exact_distance(args[j], p[j]))->Some_0 < exact_distance(args[j], q[j])->Some_0;
            if j < n - 1 {
                assert(exists|i: int| 0 <= i < n - 1 && (#[trigger] exact_distance(args[i], p[i]))->Some_0 < exact_distance(args[i], q[i])->Some_0);
            }
        }
    }
}

/// An entry's specificity is the sum of its parameters' distances: of two
/// entries that both apply, the one whose every parameter is at most as far
/// from its argument as the other's, and one strictly nearer, is strictly
/// more specific (it has the smaller specificity); and an entry is never
/// less specific than one whose parameters are all at least as far.
pub proof fn law_nearer_parameters_are_more_specific(p: Seq<Seq<char>>, q: Seq<Seq<char>>, args: Seq<Seq<char>>)
    requires
        args.len() <= usize::MAX,
        specificity(p, args) is Some,
        specificity(q, args) is Some,
        forall|k: int| 0 <= k < args.len() ==> (#[trigger] exact_distance(args[k], p[k]))->Some_0 <= exact_distance(args[k], q[k])->Some_0,
    ensures
        specificity(p, args)->Some_0 <= specificity(q, args)->Some_0,
        (exists|k: int| 0 <= k < args.len() && (#[trigger] exact_distance(args[k], p[k]))->Some_0 < exact_distance(args[k], q[k])->Some_0)
            ==> specificity(p, args)->Some_0 < specificity(q, args)->Some_0,
{
    lemma_prefix_compare(p, q, args, args.len() as int);
}

/// The plain sum of distances, `None` when one of them is `None`.
pub open spec fn plain_total(ds: Seq<Option<usize>>) -> Option<int>
    decreases ds.len(),
{
    if ds.len() == 0 {
        Some(0)
    } else {
        match (plain_total(ds.drop_last()), ds.last()) {
            (Some(t), Some(d)) => Some(t + d),
            _ => None,
        }
    }
}

/// Summing distances adds them: when every distance is known and their sum
/// fits a machine word, `sum_distances` is that sum; it is `None` exactly
/// when some distance is.
pub proof fn law_sum_distances_adds(ds: Seq<Option<usize>>)
    ensures
        sum_distances(ds) is None <==> plain_total(ds) is None,
        plain_total(ds) matches Some(t) ==> t >= 0 && (t <= usize::MAX ==> sum_distances(ds) == Some(t as usize)),
    decreases ds.len(),
{
    if ds.len() > 0 {
        law_sum_distances_adds(ds.drop_last());
    }
}

/// How Rust's `Debug` formatting writes a list of strings (`["a", "b"]`),
/// as a function of their characters alone.
pub uninterp spec fn debug_listing(items: Seq<Seq<char>>) -> Seq<char>;

/// Formats the strings with `format!("{:?}", ..)`; the contract claims only
/// that the text is the one `debug_listing` names for their characters.
#[verifier::external_body]
fn debug_list(items: &[String]) -> (r: String)
    ensures
        r@ == debug_listing(arg_names(items@)),
{
    format!("{:?}", items)
}

/// The error for a dispatch call that no registered method answers.
pub open spec fn no_dispatch_message(name: Seq<char>, arg_types: Seq<Seq<char>>) -> Seq<char> {
    "no dispatch method found for '"@ + name + "' with argument types "@ + debug_listing(arg_types)
}

/// The error for a dispatch call of `name` that no registered method
/// answers.
pub fn no_dispatch_error(name: &str, arg_types: &[String]) -> (e: RuntimeError)
    ensures
        e.message@ == no_dispatch_message(name@, arg_names(arg_types@)),
{
    let mut message = String::from_str("no dispatch method found for '");
    message.append(name);
    message.append("' with argument types ");
    let listing = debug_list(arg_types);
    message.append(listing.as_str());
    RuntimeError { message }
}

/// The method a dispatch call of `name` with arguments of the given types
/// runs, chosen over the class hierarchy as `find_match_in_hierarchy`
/// chooses it; an error naming the call when there is none.
pub fn call_dispatch<'a, F>(table: &'a DispatchTable<F>, name: &str, arg_types: &[String], classes: &[ClassDef]) -> (r: Result<&'a F, RuntimeError>)
    ensures
        ({
            let entries = entries_of(table.methods@, name@);
            exists|specs: Seq<Option<usize>>| #![trigger specs.len()]
                specs.len() == entries.len()
                && (forall|i: int| 0 <= i < specs.len() ==> hierarchy_specificity(classes@, param_names(entries[i]), arg_names(arg_types@), #[trigger] specs[i]))
                && match r {
                    Ok(f) => exists|i: int| is_unique_best(specs, i) && *f == entries[i].func,
                    Err(e) => (forall|i: int| !is_unique_best(specs, i))
                        && e.message@ == no_dispatch_message(name@, arg_names(arg_types@)),
                }
        }),
{
    match table.find_match_in_hierarchy(name, arg_types, classes) {
        Some(f) => Ok(f),
        None => {
            Err(no_dispatch_error(name, arg_types))
        },
    }
}
} // verus!
