//! Class definitions and the queries the evaluator makes of the class
//! hierarchy: how far one class is from an ancestor, subclassing, `final`
//! fields, private members, capabilities, and the checks on `final` and
//! `sealed` parents.
use vstd::prelude::*;
use vstd::string::*;
use vstd::hash_set::StringHashSet;
use vstd::set_lib::*;
use crate::error::RuntimeError;

verus! {

/// A base in a class header: a class named by its name, or any other
/// type expression, which no hierarchy query follows.
pub enum BaseType {
    Named(String),
    Other,
}

/// What kind of member a class body declares.
#[derive(PartialEq, Eq, Structural, Clone, Copy)]
pub enum MemberKind {
    Field,
    ClassVar,
    Method,
    ClassMethod,
    Factory,
    Getter,
    Setter,
    TypeAlias,
    Pass,
    Ellipsis,
}

/// One member of a class body: its kind, its name (empty for `pass` and
/// `...`), and whether a field or class variable is `final`.
pub struct ClassMember {
    pub kind: MemberKind,
    pub name: String,
    pub is_final: bool,
}

/// A class as the evaluator records it.
pub struct ClassDef {
    pub name: String,
    pub bases: Vec<BaseType>,
    pub without_traits: Vec<String>,
    pub body: Vec<ClassMember>,
    pub is_sealed: bool,
    pub is_final: bool,
    /// The file that defined the class, if it came from one.
    pub source_file: Option<String>,
}

/// The name a base refers to, if it is a named class.
pub open spec fn base_name(b: BaseType) -> Option<Seq<char>> {
    match b {
        BaseType::Named(s) => Some(s@),
        BaseType::Other => None,
    }
}

/// The position of the first class named `name`.
pub open spec fn class_index(classes: Seq<ClassDef>, name: Seq<char>) -> Option<int>
    decreases classes.len(),
{
    if classes.len() == 0 {
        None
    } else {
        match class_index(classes.drop_last(), name) {
            Some(i) => Some(i),
            None => if classes.last().name@ == name { Some(classes.len() - 1) } else { None },
        }
    }
}

/// The class named `name`: the first one registered under it.
pub open spec fn class_of(classes: Seq<ClassDef>, name: Seq<char>) -> Option<ClassDef> {
    match class_index(classes, name) {
        Some(i) => Some(classes[i]),
        None => None,
    }
}

/// `c` names `n` among its bases.
pub open spec fn has_base(c: ClassDef, n: Seq<char>) -> bool {
    exists|j: int| 0 <= j < c.bases@.len() && #[trigger] base_name(c.bases@[j]) == Some(n)
}

/// `a` is a class and `b` one of its named bases.
pub open spec fn edge(classes: Seq<ClassDef>, a: Seq<char>, b: Seq<char>) -> bool {
    match class_of(classes, a) {
        Some(c) => has_base(c, b),
        None => false,
    }
}

/// Each name in `p` is a class with the next one among its bases.
pub open spec fn is_path(classes: Seq<ClassDef>, p: Seq<Seq<char>>) -> bool {
    forall|k: int| 0 <= k < p.len() - 1 ==> #[trigger] edge(classes, p[k], p[k + 1])
}

/// `b` is reached from `a` by following `n` bases.
pub open spec fn reaches(classes: Seq<ClassDef>, a: Seq<char>, b: Seq<char>, n: nat) -> bool {
    exists|p: Seq<Seq<char>>| #[trigger] is_path(classes, p) && p.len() == n + 1 && p[0] == a && p[n as int] == b
}

/// The names of all classes.
pub open spec fn class_names(classes: Seq<ClassDef>) -> Set<Seq<char>> {
    classes.map_values(|c: ClassDef| c.name@).to_set()
}

/// How many classes are not yet in `seen`.
pub open spec fn unseen(classes: Seq<ClassDef>, seen: Set<Seq<char>>) -> nat {
    class_names(classes).difference(seen).len()
}

/// `class_index` finds the first class with the name, or says none has it.
proof fn lemma_class_index(classes: Seq<ClassDef>, name: Seq<char>)
    ensures
        match class_index(classes, name) {
            Some(i) => 0 <= i < classes.len() && classes[i].name@ == name
                && forall|j: int| 0 <= j < i ==> (#[trigger] classes[j]).name@ != name,
            None => forall|j: int| 0 <= j < classes.len() ==> (#[trigger] classes[j]).name@ != name,
        },
        class_index(classes, name) is Some <==> class_names(classes).contains(name),
    decreases classes.len(),
{
    if classes.len() > 0 {
        let rest = classes.drop_last();
        lemma_class_index(rest, name);
        assert forall|j: int| 0 <= j < rest.len() implies (#[trigger] rest[j]) == classes[j] by {}
        assert(classes.last() == classes[classes.len() - 1]);
        match class_index(rest, name) {
            Some(i) => {
                assert forall|j: int| 0 <= j < i implies (#[trigger] classes[j]).name@ != name by {
                    assert(rest[j] == classes[j]);
                }
            },
            None => {
                assert forall|j: int| 0 <= j < classes.len() - 1 implies (#[trigger] classes[j]).name@ != name by {
                    assert(rest[j] == classes[j]);
                }
            },
        }
    }
    let names = classes.map_values(|c: ClassDef| c.name@);
    match class_index(classes, name) {
        Some(i) => {
            assert(names[i] == name);
        },
        None => {
            if names.to_set().contains(name) {
                let j = choose|j: int| 0 <= j < names.len() && names[j] == name;
                assert(classes[j].name@ == name);
            }
        },
    }
}

/// The first class named `name`, by position.
pub fn find_class(classes: &[ClassDef], name: &String) -> (r: Option<usize>)
    ensures
        match r {
            Some(i) => class_index(classes@, name@) == Some(i as int) && i < classes@.len()
                && classes@[i as int].name@ == name@,
            None => class_index(classes@, name@) is None,
        },
{
    proof {
        lemma_class_index(classes@, name@);
    }
    let mut i: usize = 0;
    while i < classes.len()
        invariant
            i <= classes@.len(),
            forall|j: int| 0 <= j < i ==> (#[trigger] classes@[j]).name@ != name@,
            match class_index(classes@, name@) {
                Some(k) => i <= k,
                None => true,
            },
        decreases classes@.len() - i,
    {
        proof {
            lemma_class_index(classes@, name@);
        }
        if classes[i].name == *name {
            return Some(i);
        }
        i += 1;
    }
    None
}

/// Names new in `after` (absent from `before`) that are classes have only
/// bases other than `expected`, and those bases are in `after` as well.
pub open spec fn closed_off(classes: Seq<ClassDef>, expected: Seq<char>, before: Set<Seq<char>>, after: Set<Seq<char>>) -> bool {
    forall|x: Seq<char>, n: Seq<char>| after.contains(x) && !before.contains(x) && #[trigger] edge(classes, x, n)
        ==> n != expected && after.contains(n)
}

/// Counting the classes not yet seen: none of them when every one is
/// seen, at most all of them, fewer once more are seen, one fewer once a
/// new class is.
proof fn lemma_unseen(classes: Seq<ClassDef>, s1: Set<Seq<char>>, s2: Set<Seq<char>>, c: Seq<char>)
    ensures
        unseen(classes, s1) <= class_names(classes).len() <= classes.len(),
        unseen(classes, Set::empty()) == class_names(classes).len(),
        s1.subset_of(s2) ==> unseen(classes, s2) <= unseen(classes, s1),
        class_names(classes).contains(c) && !s1.contains(c) ==> unseen(classes, s1.insert(c)) + 1 == unseen(classes, s1),
        !class_names(classes).contains(c) ==> unseen(classes, s1.insert(c)) == unseen(classes, s1),
{
    let names = class_names(classes);
    let seq_names = classes.map_values(|cl: ClassDef| cl.name@);
    assert(names.finite()) by {
        vstd::seq_lib::seq_to_set_is_finite(seq_names);
    }
    seq_names.lemma_cardinality_of_set();
    lemma_len_difference(names, s1);
    assert(names.difference(Set::empty()) =~= names);
    if s1.subset_of(s2) {
        lemma_len_subset(names.difference(s2), names.difference(s1));
    }
    if names.contains(c) && !s1.contains(c) {
        assert(names.difference(s1.insert(c)) =~= names.difference(s1).remove(c));
        lemma_len_difference(names, s1);
    }
    if !names.contains(c) {
        assert(names.difference(s1.insert(c)) =~= names.difference(s1));
    }
}

/// Following `n` bases from `a` to `b`, then one more from `b` to `c`,
/// reaches `n + 1` bases from `a`.
proof fn lemma_reaches_append(classes: Seq<ClassDef>, a: Seq<char>, b: Seq<char>, c: Seq<char>, n: nat)
    requires
        reaches(classes, a, b, n),
        edge(classes, b, c),
    ensures
        reaches(classes, a, c, n + 1),
{
    let p = choose|p: Seq<Seq<char>>| #[trigger] is_path(classes, p) && p.len() == n + 1 && p[0] == a && p[n as int] == b;
    let q = p.push(c);
    assert forall|k: int| 0 <= k < q.len() - 1 implies #[trigger] edge(classes, q[k], q[k + 1]) by {
        if k < n {
            assert(q[k] == p[k] && q[k + 1] == p[k + 1]);
            assert(edge(classes, p[k], p[k + 1]));
        }
    }
    assert(is_path(classes, q) && q.len() == (n + 1) + 1 && q[0] == a && q[(n + 1) as int] == c);
}

/// A name is reached from itself by following no base.
proof fn lemma_reaches_self(classes: Seq<ClassDef>, a: Seq<char>)
    ensures
        reaches(classes, a, a, 0),
{
    let p = seq![a];
    assert(is_path(classes, p) && p.len() == 0 + 1 && p[0] == a && p[0int] == a);
}

/// Following a base from `a` to `b`, then `n` more from `b`, reaches
/// `n + 1` bases from `a`.
proof fn lemma_reaches_prepend(classes: Seq<ClassDef>, a: Seq<char>, b: Seq<char>, c: Seq<char>, n: nat)
    requires
        edge(classes, a, b),
        reaches(classes, b, c, n),
    ensures
        reaches(classes, a, c, n + 1),
{
    let p = choose|p: Seq<Seq<char>>| #[trigger] is_path(classes, p) && p.len() == n + 1 && p[0] == b && p[n as int] == c;
    let q = seq![a] + p;
    assert forall|k: int| 0 <= k < q.len() - 1 implies #[trigger] edge(classes, q[k], q[k + 1]) by {
        if k > 0 {
            assert(q[k] == p[k - 1] && q[k + 1] == p[k]);
            assert(edge(classes, p[k - 1], p[(k - 1) + 1]));
        }
    }
    assert(is_path(classes, q) && q.len() == (n + 1) + 1 && q[0] == a && q[(n + 1) as int] == c);
}

/// Along a path from a seen name, within a region closed off against
/// `expected`, every name is seen and none after the first is `expected`.
proof fn lemma_closed_path(classes: Seq<ClassDef>, expected: Seq<char>, seen: Set<Seq<char>>, p: Seq<Seq<char>>, k: int)
    requires
        closed_off(classes, expected, Set::empty(), seen),
        is_path(classes, p),
        p.len() > 0,
        seen.contains(p[0]),
        0 <= k < p.len(),
    ensures
        seen.contains(p[k]),
        k >= 1 ==> p[k] != expected,
    decreases k,
{
    if k >= 1 {
        lemma_closed_path(classes, expected, seen, p, k - 1);
        assert(edge(classes, p[k - 1], p[(k - 1) + 1]));
    }
}

/// The depth-first walk of `runtime_type_distance`, from `current` at
/// `depth` bases from where it began, with the names in `seen` already
/// visited: a visited name gives nothing; an unknown name is marked
/// visited and gives nothing; a class is marked visited and its bases are
/// tried in order. Gives the distance found and the names visited by then.
/// `fuel` bounds the nesting; more than the number of classes not yet
/// visited is always enough.
pub open spec fn dfs_walk(classes: Seq<ClassDef>, current: Seq<char>, expected: Seq<char>, depth: int,
    seen: Set<Seq<char>>, fuel: nat) -> (Option<int>, Set<Seq<char>>)
    decreases fuel, 0nat,
{
    if fuel == 0 || seen.contains(current) {
        (None, seen)
    } else {
        match class_of(classes, current) {
            None => (None, seen.insert(current)),
            Some(cl) => dfs_bases(classes, cl.bases@, 0, expected, depth, seen.insert(current), (fuel - 1) as nat),
        }
    }
}

/// The depth-first walk through `bases` from position `k` on, for a class
/// at `depth`: a base that is `expected` ends the walk at `depth + 1`;
/// otherwise the walk goes into the base, and on to the next base when
/// that finds nothing.
pub open spec fn dfs_bases(classes: Seq<ClassDef>, bases: Seq<BaseType>, k: int, expected: Seq<char>, depth: int,
    seen: Set<Seq<char>>, fuel: nat) -> (Option<int>, Set<Seq<char>>)
    decreases fuel, (if k < bases.len() { bases.len() - k + 1 } else { 0 }),
{
    if k < 0 || k >= bases.len() {
        (None, seen)
    } else {
        match base_name(bases[k]) {
            None => dfs_bases(classes, bases, k + 1, expected, depth, seen, fuel),
            Some(n) => if n == expected {
                (Some(depth + 1), seen)
            } else {
                let (found, after) = dfs_walk(classes, n, expected, depth + 1, seen, fuel);
                if found is Some {
                    (found, after)
                } else {
                    dfs_bases(classes, bases, k + 1, expected, depth, after, fuel)
                }
            },
        }
    }
}

/// The distance `runtime_type_distance` gives: `object` at
/// `usize::MAX / 4`, the same type at 0, otherwise what the depth-first
/// walk from `actual` finds, taking bases in order.
pub open spec fn dfs_distance(classes: Seq<ClassDef>, actual: Seq<char>, expected: Seq<char>) -> Option<int> {
    if expected == "object"@ {
        Some((usize::MAX / 4) as int)
    } else if actual == expected {
        Some(0)
    } else {
        dfs_walk(classes, actual, expected, 0, Set::empty(), (class_names(classes).len() + 1) as nat).0
    }
}

/// A distance as an optional integer.
pub open spec fn distance_view(d: Option<usize>) -> Option<int> {
    match d {
        Some(n) => Some(n as int),
        None => None,
    }
}

/// The depth-first search behind `runtime_type_distance`: from `current`,
/// at `depth` bases from where the search began, through the bases in
/// order, skipping names already in `seen`.
fn walk(classes: &[ClassDef], current: &String, expected: &String, depth: usize, seen: &mut StringHashSet,
    Ghost(fuel): Ghost<nat>) -> (r: Option<usize>)
    requires
        depth + unseen(classes@, old(seen)@) <= class_names(classes@).len(),
        fuel > unseen(classes@, old(seen)@),
    ensures
        distance_view(r) == dfs_walk(classes@, current@, expected@, depth as int, old(seen)@, fuel).0,
        final(seen)@ == dfs_walk(classes@, current@, expected@, depth as int, old(seen)@, fuel).1,
        old(seen)@.subset_of(final(seen)@),
        final(seen)@.contains(current@),
        match r {
            Some(d) => depth < d <= depth + unseen(classes@, old(seen)@)
                && reaches(classes@, current@, expected@, (d - depth) as nat),
            None => closed_off(classes@, expected@, old(seen)@, final(seen)@),
        },
    decreases unseen(classes@, old(seen)@),
{
    let ghost start = seen@;
    if !seen.insert(current.clone()) {
        proof {
            assert(seen@ =~= start);
        }
        return None;
    }
    let i = match find_class(classes, current) {
        Some(i) => i,
        None => {
            proof {
                assert forall|x: Seq<char>, n: Seq<char>| seen@.contains(x) && !start.contains(x) && #[trigger] edge(classes@, x, n)
                    implies n != expected@ && seen@.contains(n) by {
                    assert(x == current@);
                }
            }
            return None;
        },
    };
    let ghost seen1 = seen@;
    proof {
        lemma_class_index(classes@, current@);
        lemma_unseen(classes@, start, seen1, current@);
    }
    let class = &classes[i];
    let mut k: usize = 0;
    while k < class.bases.len()
        invariant
            k <= class.bases@.len(),
            i < classes@.len(),
            class_names(classes@).len() <= classes@.len(),
            classes@.len() == classes.len(),
            *class == classes@[i as int],
            class_index(classes@, current@) == Some(i as int),
            seen1 == start.insert(current@),
            start == old(seen)@,
            seen1.subset_of(seen@),
            unseen(classes@, seen1) + 1 == unseen(classes@, start),
            depth + unseen(classes@, start) <= class_names(classes@).len(),
            fuel > unseen(classes@, start),
            dfs_walk(classes@, current@, expected@, depth as int, start, fuel)
                == dfs_bases(classes@, class.bases@, k as int, expected@, depth as int, seen@, (fuel - 1) as nat),
            forall|j: int| 0 <= j < k && (#[trigger] base_name(class.bases@[j])) is Some
                ==> base_name(class.bases@[j])->Some_0 != expected@ && seen@.contains(base_name(class.bases@[j])->Some_0),
            forall|x: Seq<char>, n: Seq<char>| seen@.contains(x) && !start.contains(x) && x != current@ && #[trigger] edge(classes@, x, n)
                ==> n != expected@ && seen@.contains(n),
        decreases class.bases@.len() - k,
    {
        match &class.bases[k] {
            BaseType::Named(name) => {
                if *name == *expected {
                    proof {
                        assert(base_name(class.bases@[k as int]) == Some(expected@));
                        assert(edge(classes@, current@, expected@));
                        let p = seq![current@, expected@];
                        assert(edge(classes@, p[0int], p[0int + 1]));
                        assert(is_path(classes@, p));
                        assert(p[1] == expected@);
                    }
                    return Some(depth + 1);
                }
                let ghost before = seen@;
                proof {
                    lemma_unseen(classes@, seen1, before, current@);
                }
                match walk(classes, name, expected, depth + 1, seen, Ghost((fuel - 1) as nat)) {
                    Some(d) => {
                        proof {
                            assert(base_name(class.bases@[k as int]) == Some(name@));
                            assert(edge(classes@, current@, name@));
                            lemma_reaches_prepend(classes@, current@, name@, expected@, (d - depth - 1) as nat);
                            assert((d - depth - 1) as nat + 1 == (d - depth) as nat);
                        }
                        return Some(d);
                    },
                    None => {
                        proof {
                            assert(base_name(class.bases@[k as int]) == Some(name@));
                        }
                    },
                }
            },
            BaseType::Other => {},
        }
        k += 1;
    }
    proof {
        assert forall|x: Seq<char>, n: Seq<char>| seen@.contains(x) && !start.contains(x) && #[trigger] edge(classes@, x, n)
            implies n != expected@ && seen@.contains(n) by {
            if x == current@ {
                assert(has_base(classes@[i as int], n));
                let j = choose|j: int| 0 <= j < class.bases@.len() && #[trigger] base_name(class.bases@[j]) == Some(n);
                assert(base_name(class.bases@[j]) is Some);
            }
        }
    }
    None
}

/// `d` is how far a value of type `actual` is from a parameter of type
/// `expected` over the class hierarchy: `object` at `usize::MAX / 4`, the
/// same type at 0, otherwise the number of bases followed along some path
/// from `actual` up to `expected` (at most one per class), or `None` when
/// there is no such path.
pub open spec fn hierarchy_distance(classes: Seq<ClassDef>, actual: Seq<char>, expected: Seq<char>, d: Option<usize>) -> bool {
    if expected == "object"@ {
        d == Some(usize::MAX / 4)
    } else if actual == expected {
        d == Some(0usize)
    } else {
        match d {
            Some(n) => 1 <= n <= classes.len() && reaches(classes, actual, expected, n as nat),
            None => forall|n: nat| n >= 1 ==> !reaches(classes, actual, expected, n),
        }
    }
}

/// How far a value whose type is `actual` is from a parameter of type
/// `expected` in dispatch over the class hierarchy: `object` accepts
/// anything at a distance worse than any class ancestry (`usize::MAX / 4`),
/// the same type is at 0, an ancestor at the number of bases followed to
/// reach it, found depth first, and anything else does not match.
pub fn runtime_type_distance(classes: &[ClassDef], actual: &str, expected: &str) -> (r: Option<usize>)
    ensures
        distance_view(r) == dfs_distance(classes@, actual@, expected@),
        hierarchy_distance(classes@, actual@, expected@, r),
{
    let object = String::from_str("object");
    let actual_name = String::from_str(actual);
    let expected_name = String::from_str(expected);
    if expected_name == object {
        return Some(usize::MAX / 4);
    }
    if actual_name == expected_name {
        return Some(0);
    }
    let mut seen = StringHashSet::new();
    proof {
        lemma_unseen(classes@, Set::empty(), Set::empty(), actual@);
    }
    let r = walk(classes, &actual_name, &expected_name, 0, &mut seen, Ghost((class_names(classes@).len() + 1) as nat));
    proof {
        lemma_unseen(classes@, Set::empty(), Set::empty(), actual@);
        if r is None {
            assert forall|n: nat| n >= 1 implies !reaches(classes@, actual@, expected@, n) by {
                if reaches(classes@, actual@, expected@, n) {
                    let p = choose|p: Seq<Seq<char>>| #[trigger] is_path(classes@, p) && p.len() == n + 1 && p[0] == actual@ && p[n as int] == expected@;
                    lemma_closed_path(classes@, expected@, seen@, p, n as int);
                }
            }
        }
    }
    r
}

/// `b` is reached from `a` by following some number of bases.
pub open spec fn reachable(classes: Seq<ClassDef>, a: Seq<char>, b: Seq<char>) -> bool {
    exists|n: nat| #[trigger] reaches(classes, a, b, n)
}

/// `n` is among the names held in `v`.
pub open spec fn listed(v: Seq<String>, n: Seq<char>) -> bool {
    exists|j: int| 0 <= j < v.len() && #[trigger] v[j]@ == n
}

/// Whether `parent_name` is an ancestor of `class_name`: reached by
/// following one or more named bases through known classes.
pub fn is_subclass(classes: &[ClassDef], class_name: &str, parent_name: &str) -> (r: bool)
    ensures
        r == exists|n: nat| n >= 1 && #[trigger] reaches(classes@, class_name@, parent_name@, n),
{
    let parent = String::from_str(parent_name);
    let mut pending: Vec<String> = Vec::new();
    pending.push(String::from_str(class_name));
    let mut seen = StringHashSet::new();
    proof {
        lemma_reaches_self(classes@, class_name@);
        assert(pending@[0]@ == class_name@);
    }
    while pending.len() > 0
        invariant
            parent@ == parent_name@,
            classes@.len() == classes.len(),
            forall|j: int| 0 <= j < pending@.len() ==> reachable(classes@, class_name@, pending@[j]@),
            forall|x: Seq<char>, n: Seq<char>| seen@.contains(x) && #[trigger] edge(classes@, x, n)
                ==> n != parent@ && (seen@.contains(n) || listed(pending@, n)),
            seen@.contains(class_name@) || listed(pending@, class_name@),
        decreases unseen(classes@, seen@), pending@.len(),
    {
        let ghost before_pop = pending@;
        let ghost seen0 = seen@;
        let current = pending.pop().unwrap();
        proof {
            assert(before_pop[before_pop.len() - 1] == current);
            assert(reachable(classes@, class_name@, before_pop[before_pop.len() - 1]@));
            assert forall|m: Seq<char>| listed(before_pop, m) implies m == current@ || listed(pending@, m) by {
                let j = choose|j: int| 0 <= j < before_pop.len() && #[trigger] before_pop[j]@ == m;
                if j < before_pop.len() - 1 {
                    assert(pending@[j] == before_pop[j]);
                }
            }
            assert forall|j: int| 0 <= j < pending@.len() implies reachable(classes@, class_name@, pending@[j]@) by {
                assert(pending@[j] == before_pop[j]);
                assert(reachable(classes@, class_name@, before_pop[j]@));
            }
        }
        let ghost reach_current = choose|n: nat| #[trigger] reaches(classes@, class_name@, current@, n);
        let newly = seen.insert(current.clone());
        proof {
            lemma_unseen(classes@, seen0, seen0, current@);
            if !newly {
                assert(seen@ =~= seen0);
            }
        }
        if newly {
            match find_class(classes, &current) {
                Some(i) => {
                    proof {
                        lemma_class_index(classes@, current@);
                    }
                    let class = &classes[i];
                    let mut k: usize = 0;
                    while k < class.bases.len()
                        invariant
                            k <= class.bases@.len(),
                            i < classes@.len(),
                            *class == classes@[i as int],
                            class_index(classes@, current@) == Some(i as int),
                            parent@ == parent_name@,
                            reaches(classes@, class_name@, current@, reach_current),
                            seen@ == seen0.insert(current@),
                            !seen0.contains(current@),
                            unseen(classes@, seen@) < unseen(classes@, seen0),
                            forall|j: int| 0 <= j < pending@.len() ==> reachable(classes@, class_name@, pending@[j]@),
                            forall|j: int| 0 <= j < k && (#[trigger] base_name(class.bases@[j])) is Some
                                ==> base_name(class.bases@[j])->Some_0 != parent@ && listed(pending@, base_name(class.bases@[j])->Some_0),
                            forall|x: Seq<char>, n: Seq<char>| seen@.contains(x) && x != current@ && #[trigger] edge(classes@, x, n)
                                ==> n != parent@ && (seen@.contains(n) || listed(pending@, n)),
                            seen@.contains(class_name@) || listed(pending@, class_name@),
                        decreases class.bases@.len() - k,
                    {
                        match &class.bases[k] {
                            BaseType::Named(name) => {
                                proof {
                                    assert(base_name(class.bases@[k as int]) == Some(name@));
                                    assert(edge(classes@, current@, name@));
                                    lemma_reaches_append(classes@, class_name@, current@, name@, reach_current);
                                }
                                if *name == parent {
                                    return true;
                                }
                                let ghost before_push = pending@;
                                pending.push(name.clone());
                                proof {
                                    assert(pending@[before_push.len() as int]@ == name@);
                                    assert forall|m: Seq<char>| listed(before_push, m) implies listed(pending@, m) by {
                                        let j = choose|j: int| 0 <= j < before_push.len() && #[trigger] before_push[j]@ == m;
                                        assert(pending@[j] == before_push[j]);
                                    }
                                    assert forall|j: int| 0 <= j < pending@.len() implies reachable(classes@, class_name@, pending@[j]@) by {
                                        if j < before_push.len() {
                                            assert(pending@[j] == before_push[j]);
                                            assert(reachable(classes@, class_name@, before_push[j]@));
                                        } else {
                                            assert(reaches(classes@, class_name@, pending@[j]@, reach_current + 1));
                                        }
                                    }
                                }
                            },
                            BaseType::Other => {},
                        }
                        k += 1;
                    }
                    proof {
                        assert forall|x: Seq<char>, n: Seq<char>| seen@.contains(x) && #[trigger] edge(classes@, x, n)
                            implies n != parent@ && (seen@.contains(n) || listed(pending@, n)) by {
                            if x == current@ {
                                assert(has_base(classes@[i as int], n));
                                let j = choose|j: int| 0 <= j < class.bases@.len() && #[trigger] base_name(class.bases@[j]) == Some(n);
                                assert(base_name(class.bases@[j]) is Some);
                            }
                        }
                    }
                },
                None => {
                    proof {
                        assert forall|x: Seq<char>, n: Seq<char>| seen@.contains(x) && #[trigger] edge(classes@, x, n)
                            implies n != parent@ && (seen@.contains(n) || listed(pending@, n)) by {
                            if x != current@ {
                                assert(seen0.contains(x));
                            }
                        }
                    }
                },
            }
        }
    }
    proof {
        assert(closed_off(classes@, parent_name@, Set::empty(), seen@));
        assert forall|n: nat| n >= 1 implies !#[trigger] reaches(classes@, class_name@, parent_name@, n) by {
            if reaches(classes@, class_name@, parent_name@, n) {
                let p = choose|p: Seq<Seq<char>>| #[trigger] is_path(classes@, p) && p.len() == n + 1 && p[0] == class_name@ && p[n as int] == parent_name@;
                lemma_closed_path(classes@, parent_name@, seen@, p, n as int);
            }
        }
    }
    false
}

/// `m` is a `final` field or class variable named `f`.
pub open spec fn final_field_at(m: ClassMember, f: Seq<char>) -> bool {
    (m.kind == MemberKind::Field || m.kind == MemberKind::ClassVar) && m.name@ == f && m.is_final
}

/// `c` declares a `final` field or class variable named `f` in its body.
pub open spec fn declares_final_field(c: ClassDef, f: Seq<char>) -> bool {
    exists|j: int| 0 <= j < c.body@.len() && #[trigger] final_field_at(c.body@[j], f)
}

/// Whether field `f` is `final` for the class named `c`: declared so in
/// its body, or else for one of its bases, tried in order. `fuel` bounds
/// how deep the search may go; `None` means it ran out.
pub open spec fn final_walk(classes: Seq<ClassDef>, c: Seq<char>, f: Seq<char>, fuel: nat) -> Option<bool>
    decreases fuel, 0nat,
{
    match class_of(classes, c) {
        None => Some(false),
        Some(cl) => if declares_final_field(cl, f) {
            Some(true)
        } else if fuel == 0 {
            None
        } else {
            final_in_bases(classes, cl.bases@, f, (fuel - 1) as nat)
        },
    }
}

/// Whether field `f` is `final` for one of `bases`, tried in order.
pub open spec fn final_in_bases(classes: Seq<ClassDef>, bases: Seq<BaseType>, f: Seq<char>, fuel: nat) -> Option<bool>
    decreases fuel, bases.len(),
{
    if bases.len() == 0 {
        Some(false)
    } else {
        match final_in_bases(classes, bases.drop_last(), f, fuel) {
            Some(false) => match base_name(bases.last()) {
                Some(b) => final_walk(classes, b, f, fuel),
                None => Some(false),
            },
            other => other,
        }
    }
}

/// Two searches that both finish agree, whatever fuel each was given.
proof fn lemma_final_walk_agree(classes: Seq<ClassDef>, c: Seq<char>, f: Seq<char>, fuel1: nat, fuel2: nat)
    requires
        final_walk(classes, c, f, fuel1) is Some,
        final_walk(classes, c, f, fuel2) is Some,
    ensures
        final_walk(classes, c, f, fuel1) == final_walk(classes, c, f, fuel2),
    decreases fuel1, 0nat,
{
    match class_of(classes, c) {
        None => {},
        Some(cl) => {
            if !declares_final_field(cl, f) {
                lemma_final_bases_agree(classes, cl.bases@, f, (fuel1 - 1) as nat, (fuel2 - 1) as nat);
            }
        },
    }
}

/// Two searches through the same bases that both finish agree.
proof fn lemma_final_bases_agree(classes: Seq<ClassDef>, bases: Seq<BaseType>, f: Seq<char>, fuel1: nat, fuel2: nat)
    requires
        final_in_bases(classes, bases, f, fuel1) is Some,
        final_in_bases(classes, bases, f, fuel2) is Some,
    ensures
        final_in_bases(classes, bases, f, fuel1) == final_in_bases(classes, bases, f, fuel2),
    decreases fuel1, bases.len(),
{
    if bases.len() > 0 {
        lemma_final_bases_agree(classes, bases.drop_last(), f, fuel1, fuel2);
        if final_in_bases(classes, bases.drop_last(), f, fuel1) == Some(false) {
            if let Some(b) = base_name(bases.last()) {
                lemma_final_walk_agree(classes, b, f, fuel1, fuel2);
            }
        }
    }
}

/// A search through bases that finishes also finishes through each
/// leading part of them.
proof fn lemma_final_prefix(classes: Seq<ClassDef>, bases: Seq<BaseType>, f: Seq<char>, fuel: nat, k: int)
    requires
        final_in_bases(classes, bases, f, fuel) is Some,
        0 <= k <= bases.len(),
    ensures
        final_in_bases(classes, bases.take(k), f, fuel) is Some,
    decreases bases.len() - k,
{
    if k < bases.len() {
        lemma_final_prefix(classes, bases, f, fuel, k + 1);
        assert(bases.take(k + 1).drop_last() =~= bases.take(k));
    } else {
        assert(bases.take(k) =~= bases);
    }
}

/// The search of `final_walk` on the class at position `i`.
fn final_field_from(classes: &[ClassDef], i: usize, field: &String, Ghost(fuel): Ghost<nat>) -> (r: bool)
    requires
        i < classes@.len(),
        class_index(classes@, classes@[i as int].name@) == Some(i as int),
        final_walk(classes@, classes@[i as int].name@, field@, fuel) is Some,
    ensures
        final_walk(classes@, classes@[i as int].name@, field@, fuel) == Some(r),
    decreases fuel,
{
    let class = &classes[i];
    let mut j: usize = 0;
    while j < class.body.len()
        invariant
            j <= class.body@.len(),
            i < classes@.len(),
            class_index(classes@, classes@[i as int].name@) == Some(i as int),
            *class == classes@[i as int],
            forall|jj: int| 0 <= jj < j ==> !#[trigger] final_field_at(class.body@[jj], field@),
        decreases class.body@.len() - j,
    {
        let m = &class.body[j];
        if (m.kind == MemberKind::Field || m.kind == MemberKind::ClassVar) && m.is_final && m.name == *field {
            proof {
                assert(final_field_at(class.body@[j as int], field@));
            }
            return true;
        }
        j += 1;
    }
    let ghost bases = class.bases@;
    let ghost inner = (fuel - 1) as nat;
    proof {
        assert(!declares_final_field(*class, field@));
        lemma_final_prefix(classes@, bases, field@, inner, 0);
        assert(bases.take(0) =~= Seq::<BaseType>::empty());
    }
    let mut k: usize = 0;
    while k < class.bases.len()
        invariant
            k <= bases.len(),
            i < classes@.len(),
            *class == classes@[i as int],
            bases == class.bases@,
            class_index(classes@, classes@[i as int].name@) == Some(i as int),
            !declares_final_field(*class, field@),
            fuel > 0,
            inner == fuel - 1,
            final_in_bases(classes@, bases, field@, inner) is Some,
            final_in_bases(classes@, bases.take(k as int), field@, inner) == Some(false),
        decreases bases.len() - k,
    {
        proof {
            lemma_final_prefix(classes@, bases, field@, inner, k + 1);
            assert(bases.take(k + 1).drop_last() =~= bases.take(k as int));
            assert(bases.take(k + 1).last() == bases[k as int]);
        }
        match &class.bases[k] {
            BaseType::Named(name) => {
                match find_class(classes, name) {
                    Some(bi) => {
                        proof {
                            lemma_class_index(classes@, name@);
                        }
                        if final_field_from(classes, bi, field, Ghost(inner)) {
                            proof {
                                assert(bases.take(k + 1) =~= bases.take(k + 1));
                                lemma_final_prefix_true(classes@, bases, field@, inner, k + 1);
                            }
                            return true;
                        }
                    },
                    None => {},
                }
            },
            BaseType::Other => {},
        }
        k += 1;
    }
    proof {
        assert(bases.take(bases.len() as int) =~= bases);
    }
    false
}

/// Once the search through leading bases says yes, so does the search
/// through all of them.
proof fn lemma_final_prefix_true(classes: Seq<ClassDef>, bases: Seq<BaseType>, f: Seq<char>, fuel: nat, k: int)
    requires
        0 <= k <= bases.len(),
        final_in_bases(classes, bases.take(k), f, fuel) == Some(true),
    ensures
        final_in_bases(classes, bases, f, fuel) == Some(true),
    decreases bases.len() - k,
{
    if k < bases.len() {
        assert(bases.take(k + 1).drop_last() =~= bases.take(k));
        lemma_final_prefix_true(classes, bases, f, fuel, k + 1);
    } else {
        assert(bases.take(k) =~= bases);
    }
}

/// Whether field `field_name` is `final` for class `class_name`: declared
/// `final` in its body or, failing that, for one of its bases in order.
/// The search must finish (a hierarchy that loops back on itself before
/// the answer is found has no answer).
pub fn field_is_final(classes: &[ClassDef], class_name: &str, field_name: &str) -> (r: bool)
    requires
        exists|fuel: nat| #[trigger] final_walk(classes@, class_name@, field_name@, fuel) is Some,
    ensures
        forall|fuel: nat| #[trigger] final_walk(classes@, class_name@, field_name@, fuel) is Some
            ==> final_walk(classes@, class_name@, field_name@, fuel) == Some(r),
{
    let ghost fuel = choose|fuel: nat| #[trigger] final_walk(classes@, class_name@, field_name@, fuel) is Some;
    let name = String::from_str(class_name);
    let field = String::from_str(field_name);
    let r = match find_class(classes, &name) {
        Some(i) => {
            proof {
                lemma_class_index(classes@, name@);
            }
            final_field_from(classes, i, &field, Ghost(fuel))
        },
        None => false,
    };
    proof {
        assert forall|f2: nat| #[trigger] final_walk(classes@, class_name@, field_name@, f2) is Some
            implies final_walk(classes@, class_name@, field_name@, f2) == Some(r) by {
            lemma_final_walk_agree(classes@, class_name@, field_name@, fuel, f2);
        }
    }
    r
}

/// The error for inheriting from a `final` class.
pub open spec fn final_parent_message(parent: Seq<char>) -> Seq<char> {
    "class '"@ + parent + "' is final and cannot be inherited"@
}

/// The error for inheriting from a `sealed` class in another file.
pub open spec fn sealed_parent_message(parent: Seq<char>) -> Seq<char> {
    "sealed class '"@ + parent + "' may only be subclassed in its defining file"@
}

/// An optional string, by its characters.
pub open spec fn opt_view(f: Option<String>) -> Option<Seq<char>> {
    match f {
        Some(s) => Some(s@),
        None => None,
    }
}

/// What is wrong with inheriting from base `b` in a class defined in
/// `file`: the parent is a known `final` class, or a known `sealed` class
/// from another file; `None` when nothing is.
pub open spec fn base_violation(classes: Seq<ClassDef>, b: BaseType, file: Option<Seq<char>>) -> Option<Seq<char>> {
    match base_name(b) {
        None => None,
        Some(p) => match class_of(classes, p) {
            None => None,
            Some(pd) => if pd.is_final {
                Some(final_parent_message(p))
            } else if pd.is_sealed && opt_view(pd.source_file) != file {
                Some(sealed_parent_message(p))
            } else {
                None
            },
        },
    }
}

/// The first violation among `bases`, in order.
pub open spec fn first_violation(classes: Seq<ClassDef>, bases: Seq<BaseType>, file: Option<Seq<char>>) -> Option<Seq<char>>
    decreases bases.len(),
{
    if bases.len() == 0 {
        None
    } else {
        match first_violation(classes, bases.drop_last(), file) {
            Some(m) => Some(m),
            None => base_violation(classes, bases.last(), file),
        }
    }
}

/// A violation among leading bases is the first violation of them all.
proof fn lemma_violation_prefix(classes: Seq<ClassDef>, bases: Seq<BaseType>, file: Option<Seq<char>>, k: int, m: Seq<char>)
    requires
        0 <= k <= bases.len(),
        first_violation(classes, bases.take(k), file) == Some(m),
    ensures
        first_violation(classes, bases, file) == Some(m),
    decreases bases.len() - k,
{
    if k < bases.len() {
        assert(bases.take(k + 1).drop_last() =~= bases.take(k));
        lemma_violation_prefix(classes, bases, file, k + 1, m);
    } else {
        assert(bases.take(k) =~= bases);
    }
}

/// The two files are the same, or both absent.
fn same_file(a: &Option<String>, b: &Option<String>) -> (r: bool)
    ensures
        r == (opt_view(*a) == opt_view(*b)),
{
    match (a, b) {
        (Some(x), Some(y)) => *x == *y,
        (None, None) => true,
        _ => false,
    }
}

/// Checks the bases of a class defined in `source_file`: a known `final`
/// parent, or a known `sealed` parent defined in another file, is an
/// error; the first such base, in order, is reported.
pub fn check_bases(classes: &[ClassDef], bases: &[BaseType], source_file: &Option<String>) -> (r: Result<(), RuntimeError>)
    ensures
        match first_violation(classes@, bases@, opt_view(*source_file)) {
            None => r is Ok,
            Some(m) => r is Err && r->Err_0.message@ == m,
        },
{
    let ghost file = opt_view(*source_file);
    let mut k: usize = 0;
    proof {
        assert(bases@.take(0) =~= Seq::<BaseType>::empty());
    }
    while k < bases.len()
        invariant
            k <= bases@.len(),
            file == opt_view(*source_file),
            first_violation(classes@, bases@.take(k as int), file) is None,
        decreases bases@.len() - k,
    {
        proof {
            assert(bases@.take(k + 1).drop_last() =~= bases@.take(k as int));
            assert(bases@.take(k + 1).last() == bases@[k as int]);
        }
        match &bases[k] {
            BaseType::Named(parent) => {
                match find_class(classes, parent) {
                    Some(pi) => {
                        proof {
                            lemma_class_index(classes@, parent@);
                        }
                        let parent_def = &classes[pi];
                        if parent_def.is_final {
                            let mut message = String::from_str("class '");
                            message.append(parent.as_str());
                            message.append("' is final and cannot be inherited");
                            proof {
                                lemma_violation_prefix(classes@, bases@, file, k + 1, message@);
                            }
                            return Err(RuntimeError { message });
                        }
                        if parent_def.is_sealed && !same_file(&parent_def.source_file, source_file) {
                            let mut message = String::from_str("sealed class '");
                            message.append(parent.as_str());
                            message.append("' may only be subclassed in its defining file");
                            proof {
                                lemma_violation_prefix(classes@, bases@, file, k + 1, message@);
                            }
                            return Err(RuntimeError { message });
                        }
                    },
                    None => {},
                }
            },
            BaseType::Other => {},
        }
        k += 1;
    }
    proof {
        assert(bases@.take(bases@.len() as int) =~= bases@);
    }
    Ok(())
}

/// The first violation in the hierarchy: the classes of `list` in order,
/// each class's bases in order, checked against `classes`.
pub open spec fn hierarchy_violation(classes: Seq<ClassDef>, list: Seq<ClassDef>) -> Option<Seq<char>>
    decreases list.len(),
{
    if list.len() == 0 {
        None
    } else {
        match hierarchy_violation(classes, list.drop_last()) {
            Some(m) => Some(m),
            None => first_violation(classes, list.last().bases@, opt_view(list.last().source_file)),
        }
    }
}

/// A violation among leading classes is the first of the whole hierarchy.
proof fn lemma_hierarchy_prefix(classes: Seq<ClassDef>, list: Seq<ClassDef>, k: int, m: Seq<char>)
    requires
        0 <= k <= list.len(),
        hierarchy_violation(classes, list.take(k)) == Some(m),
    ensures
        hierarchy_violation(classes, list) == Some(m),
    decreases list.len() - k,
{
    if k < list.len() {
        assert(list.take(k + 1).drop_last() =~= list.take(k));
        lemma_hierarchy_prefix(classes, list, k + 1, m);
    } else {
        assert(list.take(k) =~= list);
    }
}

/// Checks every class against the `final` and `sealed` rules, whatever
/// order the classes were defined in: `Ok` when no class inherits from a
/// `final` class or from a `sealed` class of another file, otherwise the
/// first violation, class by class in order.
pub fn validate_class_hierarchy(classes: &[ClassDef]) -> (r: Result<(), RuntimeError>)
    ensures
        match hierarchy_violation(classes@, classes@) {
            None => r is Ok,
            Some(m) => r is Err && r->Err_0.message@ == m,
        },
{
    let mut i: usize = 0;
    proof {
        assert(classes@.take(0) =~= Seq::<ClassDef>::empty());
    }
    while i < classes.len()
        invariant
            i <= classes@.len(),
            hierarchy_violation(classes@, classes@.take(i as int)) is None,
        decreases classes@.len() - i,
    {
        proof {
            assert(classes@.take(i + 1).drop_last() =~= classes@.take(i as int));
            assert(classes@.take(i + 1).last() == classes@[i as int]);
        }
        let class = &classes[i];
        match check_bases(classes, class.bases.as_slice(), &class.source_file) {
            Ok(()) => {},
            Err(e) => {
                proof {
                    lemma_hierarchy_prefix(classes@, classes@, i + 1, e.message@);
                }
                return Err(e);
            },
        }
        i += 1;
    }
    proof {
        assert(classes@.take(classes@.len() as int) =~= classes@);
    }
    Ok(())
}

/// `m` is a member named `name` (`pass` and `...` name nothing).
pub open spec fn member_named(m: ClassMember, name: Seq<char>) -> bool {
    m.kind != MemberKind::Pass && m.kind != MemberKind::Ellipsis && m.name@ == name
}

/// `c` declares a member named `name` in its body.
pub open spec fn declares_member(c: ClassDef, name: Seq<char>) -> bool {
    exists|j: int| 0 <= j < c.body@.len() && #[trigger] member_named(c.body@[j], name)
}

/// The class that declares member `m` for the class named `c`: `c`
/// itself when its body declares it, otherwise the owner for its first
/// base, in order, that has one. `fuel` bounds how deep the search may
/// go; the outer `None` means it ran out.
pub open spec fn owner_walk(classes: Seq<ClassDef>, c: Seq<char>, m: Seq<char>, fuel: nat) -> Option<Option<Seq<char>>>
    decreases fuel, 0nat,
{
    match class_of(classes, c) {
        None => Some(None),
        Some(cl) => if declares_member(cl, m) {
            Some(Some(c))
        } else if fuel == 0 {
            None
        } else {
            owner_in_bases(classes, cl.bases@, m, (fuel - 1) as nat)
        },
    }
}

/// The owner of member `m` for the first of `bases`, in order, that has
/// one.
pub open spec fn owner_in_bases(classes: Seq<ClassDef>, bases: Seq<BaseType>, m: Seq<char>, fuel: nat) -> Option<Option<Seq<char>>>
    decreases fuel, bases.len(),
{
    if bases.len() == 0 {
        Some(None)
    } else {
        match owner_in_bases(classes, bases.drop_last(), m, fuel) {
            Some(None) => match base_name(bases.last()) {
                Some(b) => owner_walk(classes, b, m, fuel),
                None => Some(None),
            },
            other => other,
        }
    }
}

/// Two owner searches that both finish agree, whatever fuel each had.
proof fn lemma_owner_walk_agree(classes: Seq<ClassDef>, c: Seq<char>, m: Seq<char>, fuel1: nat, fuel2: nat)
    requires
        owner_walk(classes, c, m, fuel1) is Some,
        owner_walk(classes, c, m, fuel2) is Some,
    ensures
        owner_walk(classes, c, m, fuel1) == owner_walk(classes, c, m, fuel2),
    decreases fuel1, 0nat,
{
    match class_of(classes, c) {
        None => {},
        Some(cl) => {
            if !declares_member(cl, m) {
                lemma_owner_bases_agree(classes, cl.bases@, m, (fuel1 - 1) as nat, (fuel2 - 1) as nat);
            }
        },
    }
}

/// Two owner searches through the same bases that both finish agree.
proof fn lemma_owner_bases_agree(classes: Seq<ClassDef>, bases: Seq<BaseType>, m: Seq<char>, fuel1: nat, fuel2: nat)
    requires
        owner_in_bases(classes, bases, m, fuel1) is Some,
        owner_in_bases(classes, bases, m, fuel2) is Some,
    ensures
        owner_in_bases(classes, bases, m, fuel1) == owner_in_bases(classes, bases, m, fuel2),
    decreases fuel1, bases.len(),
{
    if bases.len() > 0 {
        lemma_owner_bases_agree(classes, bases.drop_last(), m, fuel1, fuel2);
        if owner_in_bases(classes, bases.drop_last(), m, fuel1) == Some(None::<Seq<char>>) {
            if let Some(b) = base_name(bases.last()) {
                lemma_owner_walk_agree(classes, b, m, fuel1, fuel2);
            }
        }
    }
}

/// An owner search through bases that finishes also finishes through
/// each leading part of them.
proof fn lemma_owner_prefix(classes: Seq<ClassDef>, bases: Seq<BaseType>, m: Seq<char>, fuel: nat, k: int)
    requires
        owner_in_bases(classes, bases, m, fuel) is Some,
        0 <= k <= bases.len(),
    ensures
        owner_in_bases(classes, bases.take(k), m, fuel) is Some,
    decreases bases.len() - k,
{
    if k < bases.len() {
        lemma_owner_prefix(classes, bases, m, fuel, k + 1);
        assert(bases.take(k + 1).drop_last() =~= bases.take(k));
    } else {
        assert(bases.take(k) =~= bases);
    }
}

/// Once an owner is found among leading bases, it is the owner found
/// among them all.
proof fn lemma_owner_prefix_found(classes: Seq<ClassDef>, bases: Seq<BaseType>, m: Seq<char>, fuel: nat, k: int, o: Seq<char>)
    requires
        0 <= k <= bases.len(),
        owner_in_bases(classes, bases.take(k), m, fuel) == Some(Some(o)),
    ensures
        owner_in_bases(classes, bases, m, fuel) == Some(Some(o)),
    decreases bases.len() - k,
{
    if k < bases.len() {
        assert(bases.take(k + 1).drop_last() =~= bases.take(k));
        lemma_owner_prefix_found(classes, bases, m, fuel, k + 1, o);
    } else {
        assert(bases.take(k) =~= bases);
    }
}

/// The search of `owner_walk` on the class at position `i`.
fn owner_from(classes: &[ClassDef], i: usize, member: &String, Ghost(fuel): Ghost<nat>) -> (r: Option<String>)
    requires
        i < classes@.len(),
        class_index(classes@, classes@[i as int].name@) == Some(i as int),
        owner_walk(classes@, classes@[i as int].name@, member@, fuel) is Some,
    ensures
        owner_walk(classes@, classes@[i as int].name@, member@, fuel) == Some(opt_view(r)),
    decreases fuel,
{
    let class = &classes[i];
    let mut j: usize = 0;
    while j < class.body.len()
        invariant
            j <= class.body@.len(),
            i < classes@.len(),
            class_index(classes@, classes@[i as int].name@) == Some(i as int),
            *class == classes@[i as int],
            forall|jj: int| 0 <= jj < j ==> !#[trigger] member_named(class.body@[jj], member@),
        decreases class.body@.len() - j,
    {
        let mm = &class.body[j];
        if mm.kind != MemberKind::Pass && mm.kind != MemberKind::Ellipsis && mm.name == *member {
            proof {
                assert(member_named(class.body@[j as int], member@));
            }
            return Some(class.name.clone());
        }
        j += 1;
    }
    let ghost bases = class.bases@;
    let ghost inner = (fuel - 1) as nat;
    proof {
        assert(!declares_member(*class, member@));
        lemma_owner_prefix(classes@, bases, member@, inner, 0);
        assert(bases.take(0) =~= Seq::<BaseType>::empty());
    }
    let mut k: usize = 0;
    while k < class.bases.len()
        invariant
            k <= bases.len(),
            i < classes@.len(),
            *class == classes@[i as int],
            bases == class.bases@,
            class_index(classes@, classes@[i as int].name@) == Some(i as int),
            !declares_member(*class, member@),
            fuel > 0,
            inner == fuel - 1,
            owner_in_bases(classes@, bases, member@, inner) is Some,
            owner_in_bases(classes@, bases.take(k as int), member@, inner) == Some(None::<Seq<char>>),
        decreases bases.len() - k,
    {
        proof {
            lemma_owner_prefix(classes@, bases, member@, inner, k + 1);
            assert(bases.take(k + 1).drop_last() =~= bases.take(k as int));
            assert(bases.take(k + 1).last() == bases[k as int]);
        }
        match &class.bases[k] {
            BaseType::Named(name) => {
                match find_class(classes, name) {
                    Some(bi) => {
                        proof {
                            lemma_class_index(classes@, name@);
                        }
                        match owner_from(classes, bi, member, Ghost(inner)) {
                            Some(o) => {
                                proof {
                                    lemma_owner_prefix_found(classes@, bases, member@, inner, k + 1, o@);
                                }
                                return Some(o);
                            },
                            None => {},
                        }
                    },
                    None => {},
                }
            },
            BaseType::Other => {},
        }
        k += 1;
    }
    proof {
        assert(bases.take(bases.len() as int) =~= bases);
    }
    None
}

/// The class that declares member `member_name` for class `class_name`:
/// the class itself when it declares it, otherwise, base by base in order,
/// the owner found through that base. `None` when `class_name` is not a
/// class or nothing declares the member. The search must finish.
pub fn private_member_owner(classes: &[ClassDef], class_name: &str, member_name: &str) -> (r: Option<String>)
    requires
        exists|fuel: nat| #[trigger] owner_walk(classes@, class_name@, member_name@, fuel) is Some,
    ensures
        forall|fuel: nat| #[trigger] owner_walk(classes@, class_name@, member_name@, fuel) is Some
            ==> owner_walk(classes@, class_name@, member_name@, fuel) == Some(opt_view(r)),
{
    let ghost fuel = choose|fuel: nat| #[trigger] owner_walk(classes@, class_name@, member_name@, fuel) is Some;
    let name = String::from_str(class_name);
    let member = String::from_str(member_name);
    let r = match find_class(classes, &name) {
        Some(i) => {
            proof {
                lemma_class_index(classes@, name@);
            }
            owner_from(classes, i, &member, Ghost(fuel))
        },
        None => None,
    };
    proof {
        assert forall|f2: nat| #[trigger] owner_walk(classes@, class_name@, member_name@, f2) is Some
            implies owner_walk(classes@, class_name@, member_name@, f2) == Some(opt_view(r)) by {
            lemma_owner_walk_agree(classes@, class_name@, member_name@, fuel, f2);
        }
    }
    r
}

/// The error for reaching a private member from outside its class.
pub open spec fn private_message(member: Seq<char>, owner: Seq<char>) -> Seq<char> {
    "member '"@ + member + "' is private to class '"@ + owner + "'"@
}

/// A name starting with `_` is private.
pub open spec fn is_private_name(name: Seq<char>) -> bool {
    name.len() > 0 && name[0] == '_'
}

/// Checks access to member `member_name` of class `class_name` from code
/// running in class `current_class` (`None` outside any class): a private
/// member (its name starts with `_`) declared by some class is reachable
/// only from that class.
pub fn check_private_access(classes: &[ClassDef], class_name: &str, member_name: &str, current_class: Option<&str>) -> (r: Result<(), RuntimeError>)
    requires
        is_private_name(member_name@) ==> exists|fuel: nat| #[trigger] owner_walk(classes@, class_name@, member_name@, fuel) is Some,
    ensures
        !is_private_name(member_name@) ==> r is Ok,
        is_private_name(member_name@) ==> forall|fuel: nat| #[trigger] owner_walk(classes@, class_name@, member_name@, fuel) is Some
            ==> match owner_walk(classes@, class_name@, member_name@, fuel)->Some_0 {
                None => r is Ok,
                Some(o) => match current_class {
                    Some(cur) if cur@ == o => r is Ok,
                    _ => r is Err && r->Err_0.message@ == private_message(member_name@, o),
                },
            },
{
    let n = member_name.unicode_len();
    if n == 0 || member_name.get_char(0) != '_' {
        return Ok(());
    }
    let owner = match private_member_owner(classes, class_name, member_name) {
        Some(o) => o,
        None => return Ok(()),
    };
    let allowed = match current_class {
        Some(cur) => String::from_str(cur) == owner,
        None => false,
    };
    if !allowed {
        let mut message = String::from_str("member '");
        message.append(member_name);
        message.append("' is private to class '");
        message.append(owner.as_str());
        message.append("'");
        return Err(RuntimeError { message });
    }
    Ok(())
}

/// The first named base of `bases`, in order, that is a known class.
pub open spec fn first_known_base(classes: Seq<ClassDef>, bases: Seq<BaseType>) -> Option<Seq<char>>
    decreases bases.len(),
{
    if bases.len() == 0 {
        None
    } else {
        match first_known_base(classes, bases.drop_last()) {
            Some(n) => Some(n),
            None => match base_name(bases.last()) {
                Some(n) => if class_index(classes, n) is Some { Some(n) } else { None },
                None => None,
            },
        }
    }
}

/// Capabilities every class has unless it opts out: `Eq`, `Ord` and
/// `Hashable`.
pub open spec fn generated_capability(cap: Seq<char>) -> bool {
    cap == "Eq"@ || cap == "Ord"@ || cap == "Hashable"@
}

/// Whether the class named `c` has capability `cap`, following each
/// class's first base that is a known class: a class that opts out
/// (`without cap`) does not, one that names `cap` among its bases does,
/// and at the end of the chain only a generated capability holds. `fuel`
/// bounds the number of steps; `None` means it ran out.
pub open spec fn capability_walk(classes: Seq<ClassDef>, c: Seq<char>, cap: Seq<char>, fuel: nat) -> Option<bool>
    decreases fuel,
{
    match class_of(classes, c) {
        None => Some(generated_capability(cap)),
        Some(cl) => if exists|j: int| 0 <= j < cl.without_traits@.len() && #[trigger] cl.without_traits@[j]@ == cap {
            Some(false)
        } else if has_base(cl, cap) {
            Some(true)
        } else {
            match first_known_base(classes, cl.bases@) {
                None => Some(generated_capability(cap)),
                Some(b) => if fuel == 0 { None } else { capability_walk(classes, b, cap, (fuel - 1) as nat) },
            }
        },
    }
}

/// Two capability walks that both finish agree.
proof fn lemma_capability_agree(classes: Seq<ClassDef>, c: Seq<char>, cap: Seq<char>, fuel1: nat, fuel2: nat)
    requires
        capability_walk(classes, c, cap, fuel1) is Some,
        capability_walk(classes, c, cap, fuel2) is Some,
    ensures
        capability_walk(classes, c, cap, fuel1) == capability_walk(classes, c, cap, fuel2),
    decreases fuel1,
{
    if let Some(cl) = class_of(classes, c) {
        let opted_out = exists|j: int| 0 <= j < cl.without_traits@.len() && #[trigger] cl.without_traits@[j]@ == cap;
        if !opted_out && !has_base(cl, cap) {
            if let Some(b) = first_known_base(classes, cl.bases@) {
                lemma_capability_agree(classes, b, cap, (fuel1 - 1) as nat, (fuel2 - 1) as nat);
            }
        }
    }
}

/// The first named base, in order, that is a known class.
fn find_first_known_base(classes: &[ClassDef], bases: &[BaseType]) -> (r: Option<String>)
    ensures
        opt_view(r) == first_known_base(classes@, bases@),
{
    let mut k: usize = 0;
    proof {
        assert(bases@.take(0) =~= Seq::<BaseType>::empty());
    }
    while k < bases.len()
        invariant
            k <= bases@.len(),
            first_known_base(classes@, bases@.take(k as int)) is None,
        decreases bases@.len() - k,
    {
        proof {
            assert(bases@.take(k + 1).drop_last() =~= bases@.take(k as int));
            assert(bases@.take(k + 1).last() == bases@[k as int]);
        }
        match &bases[k] {
            BaseType::Named(name) => {
                if find_class(classes, name).is_some() {
                    proof {
                        lemma_known_base_prefix(classes@, bases@, k + 1, name@);
                    }
                    return Some(name.clone());
                }
            },
            BaseType::Other => {},
        }
        k += 1;
    }
    proof {
        assert(bases@.take(bases@.len() as int) =~= bases@);
    }
    None
}

/// A known base among leading bases is the first of them all.
proof fn lemma_known_base_prefix(classes: Seq<ClassDef>, bases: Seq<BaseType>, k: int, n: Seq<char>)
    requires
        0 <= k <= bases.len(),
        first_known_base(classes, bases.take(k)) == Some(n),
    ensures
        first_known_base(classes, bases) == Some(n),
    decreases bases.len() - k,
{
    if k < bases.len() {
        assert(bases.take(k + 1).drop_last() =~= bases.take(k));
        lemma_known_base_prefix(classes, bases, k + 1, n);
    } else {
        assert(bases.take(k) =~= bases);
    }
}

/// The walk of `capability_walk` from `start`, with `fuel` enough for it.
fn capability_chain(classes: &[ClassDef], start: String, cap: &String, generated: bool, Ghost(fuel0): Ghost<nat>) -> (r: bool)
    requires
        generated == generated_capability(cap@),
        capability_walk(classes@, start@, cap@, fuel0) is Some,
    ensures
        capability_walk(classes@, start@, cap@, fuel0) == Some(r),
{
    let mut current = start;
    let ghost mut fuel: nat = fuel0;
    loop
        invariant
            generated == generated_capability(cap@),
            capability_walk(classes@, current@, cap@, fuel) is Some,
            capability_walk(classes@, current@, cap@, fuel) == capability_walk(classes@, start@, cap@, fuel0),
        decreases fuel,
    {
        let i = match find_class(classes, &current) {
            Some(i) => i,
            None => return generated,
        };
        proof {
            lemma_class_index(classes@, current@);
        }
        let class = &classes[i];
        let mut opted_out = false;
        let mut j: usize = 0;
        while j < class.without_traits.len()
            invariant
                j <= class.without_traits@.len(),
                opted_out == exists|jj: int| 0 <= jj < j && #[trigger] class.without_traits@[jj]@ == cap@,
            decreases class.without_traits@.len() - j,
        {
            if class.without_traits[j] == *cap {
                opted_out = true;
            }
            j += 1;
        }
        if opted_out {
            return false;
        }
        let mut declared = false;
        let mut k: usize = 0;
        while k < class.bases.len()
            invariant
                k <= class.bases@.len(),
                declared == exists|kk: int| 0 <= kk < k && #[trigger] base_name(class.bases@[kk]) == Some(cap@),
            decreases class.bases@.len() - k,
        {
            match &class.bases[k] {
                BaseType::Named(name) => {
                    proof {
                        assert(base_name(class.bases@[k as int]) == Some(name@));
                    }
                    if *name == *cap {
                        declared = true;
                    }
                },
                BaseType::Other => {
                    proof {
                        assert(base_name(class.bases@[k as int]) is None);
                    }
                },
            }
            k += 1;
        }
        if declared {
            return true;
        }
        match find_first_known_base(classes, class.bases.as_slice()) {
            Some(next) => {
                proof {
                    fuel = (fuel - 1) as nat;
                }
                current = next;
            },
            None => return generated,
        }
    }
}

/// Whether class `class_name` has capability `capability`, by
/// `capability_walk`. The walk must finish (a chain of first bases that
/// loops back on itself before the answer is found has no answer).
pub fn class_has_capability(classes: &[ClassDef], class_name: &str, capability: &str) -> (r: bool)
    requires
        exists|fuel: nat| #[trigger] capability_walk(classes@, class_name@, capability@, fuel) is Some,
    ensures
        forall|fuel: nat| #[trigger] capability_walk(classes@, class_name@, capability@, fuel) is Some
            ==> capability_walk(classes@, class_name@, capability@, fuel) == Some(r),
{
    let ghost fuel0 = choose|fuel: nat| #[trigger] capability_walk(classes@, class_name@, capability@, fuel) is Some;
    let cap = String::from_str(capability);
    let generated = cap == String::from_str("Eq") || cap == String::from_str("Ord") || cap == String::from_str("Hashable");
    let r = capability_chain(classes, String::from_str(class_name), &cap, generated, Ghost(fuel0));
    proof {
        assert forall|f2: nat| #[trigger] capability_walk(classes@, class_name@, capability@, f2) is Some
            implies capability_walk(classes@, class_name@, capability@, f2) == Some(r) by {
            lemma_capability_agree(classes@, class_name@, capability@, fuel0, f2);
        }
    }
    r
}


/// A class is a subclass of another exactly when dispatch over the class
/// hierarchy finds a finite distance from it to the other.
pub proof fn law_subclass_iff_finite_distance(classes: Seq<ClassDef>, actual: Seq<char>, expected: Seq<char>, d: Option<usize>)
    requires
        expected != "object"@,
        actual != expected,
        hierarchy_distance(classes, actual, expected, d),
    ensures
        d is Some <==> exists|n: nat| n >= 1 && #[trigger] reaches(classes, actual, expected, n),
{
    if d is Some {
        assert(reaches(classes, actual, expected, d->Some_0 as nat));
    }
}

/// Any ancestor is nearer than the `object` fallback: a finite distance
/// to a class is below the distance to `object`, for any hierarchy of
/// fewer than `usize::MAX / 4` classes.
pub proof fn law_ancestor_nearer_than_object(classes: Seq<ClassDef>, actual: Seq<char>, expected: Seq<char>, d: usize)
    requires
        expected != "object"@,
        classes.len() < usize::MAX / 4,
        hierarchy_distance(classes, actual, expected, Some(d)),
    ensures
        hierarchy_distance(classes, actual, "object"@, Some(usize::MAX / 4)),
        d < usize::MAX / 4,
{
}

/// A path of `n >= 1` bases from `a` starts with a base `b` of `a`, from
/// which the rest of the path leads on.
proof fn lemma_reaches_split(classes: Seq<ClassDef>, a: Seq<char>, c: Seq<char>, n: nat) -> (b: Seq<char>)
    requires
        n >= 1,
        reaches(classes, a, c, n),
    ensures
        edge(classes, a, b),
        reaches(classes, b, c, (n - 1) as nat),
{
    let p = choose|p: Seq<Seq<char>>| #[trigger] is_path(classes, p) && p.len() == n + 1 && p[0] == a && p[n as int] == c;
    let q = p.drop_first();
    assert(edge(classes, p[0int], p[0int + 1]));
    assert forall|k: int| 0 <= k < q.len() - 1 implies #[trigger] edge(classes, q[k], q[k + 1]) by {
        assert(q[k] == p[k + 1] && q[k + 1] == p[(k + 1) + 1]);
        assert(edge(classes, p[k + 1], p[(k + 1) + 1]));
    }
    assert(is_path(classes, q) && q.len() == (n - 1) as nat + 1 && q[0] == p[1] && q[(n - 1) as int] == c);
    p[1]
}

/// Following no base from `a` reaches only `a`.
proof fn lemma_reaches_zero(classes: Seq<ClassDef>, a: Seq<char>, k: Seq<char>)
    requires
        reaches(classes, a, k, 0),
    ensures
        k == a,
{
    let p = choose|p: Seq<Seq<char>>| #[trigger] is_path(classes, p) && p.len() == 0 + 1 && p[0] == a && p[0int] == k;
}

/// The class named `k` declares field `f` final.
pub open spec fn declares_final_in(classes: Seq<ClassDef>, k: Seq<char>, f: Seq<char>) -> bool {
    match class_of(classes, k) {
        Some(cl) => declares_final_field(cl, f),
        None => false,
    }
}

/// Some class reached from `c` through its bases, `c` included, declares
/// field `f` final.
pub open spec fn final_reached(classes: Seq<ClassDef>, c: Seq<char>, f: Seq<char>) -> bool {
    exists|k: Seq<char>, n: nat| #[trigger] reaches(classes, c, k, n) && declares_final_in(classes, k, f)
}

/// What `final_reached` is for a class that does not itself declare the
/// field: what it is for one of its bases.
proof fn lemma_final_reached_step(classes: Seq<ClassDef>, c: Seq<char>, f: Seq<char>)
    requires
        class_of(classes, c) is Some,
        !declares_final_field(class_of(classes, c)->Some_0, f),
    ensures
        final_reached(classes, c, f) <==> exists|b: Seq<char>| #[trigger] edge(classes, c, b) && final_reached(classes, b, f),
{
    if final_reached(classes, c, f) {
        let (k, n) = choose|k: Seq<char>, n: nat| #[trigger] reaches(classes, c, k, n) && declares_final_in(classes, k, f);
        if n == 0 {
            lemma_reaches_zero(classes, c, k);
        } else {
            let b = lemma_reaches_split(classes, c, k, n);
            assert(reaches(classes, b, k, (n - 1) as nat) && declares_final_in(classes, k, f));
            assert(edge(classes, c, b) && final_reached(classes, b, f));
        }
    }
    if exists|b: Seq<char>| #[trigger] edge(classes, c, b) && final_reached(classes, b, f) {
        let b = choose|b: Seq<char>| #[trigger] edge(classes, c, b) && final_reached(classes, b, f);
        let (k, n) = choose|k: Seq<char>, n: nat| #[trigger] reaches(classes, b, k, n) && declares_final_in(classes, k, f);
        lemma_reaches_prepend(classes, c, b, k, n);
        assert(reaches(classes, c, k, n + 1) && declares_final_in(classes, k, f));
    }
}

/// A class that is not known reaches no declaration.
proof fn lemma_final_reached_unknown(classes: Seq<ClassDef>, c: Seq<char>, f: Seq<char>)
    requires
        class_of(classes, c) is None,
    ensures
        !final_reached(classes, c, f),
{
    if final_reached(classes, c, f) {
        let (k, n) = choose|k: Seq<char>, n: nat| #[trigger] reaches(classes, c, k, n) && declares_final_in(classes, k, f);
        if n == 0 {
            lemma_reaches_zero(classes, c, k);
        } else {
            let b = lemma_reaches_split(classes, c, k, n);
        }
    }
}

/// A field is `final` for a class exactly when the class or some class
/// reached through its bases declares it `final`: a `final` declaration
/// is inherited by every descendant, and nothing else makes a field
/// `final`.
pub proof fn law_final_field_inherited(classes: Seq<ClassDef>, c: Seq<char>, f: Seq<char>, fuel: nat)
    requires
        final_walk(classes, c, f, fuel) is Some,
    ensures
        final_walk(classes, c, f, fuel) == Some(final_reached(classes, c, f)),
    decreases fuel, 0nat,
{
    match class_of(classes, c) {
        None => {
            lemma_final_reached_unknown(classes, c, f);
        },
        Some(cl) => {
            if declares_final_field(cl, f) {
                lemma_reaches_self(classes, c);
                assert(reaches(classes, c, c, 0) && declares_final_in(classes, c, f));
            } else {
                let inner = (fuel - 1) as nat;
                lemma_final_bases_reached(classes, cl.bases@, f, inner);
                lemma_final_reached_step(classes, c, f);
                let r = final_walk(classes, c, f, fuel)->Some_0;
                if r {
                    let j = choose|j: int| 0 <= j < cl.bases@.len() && #[trigger] base_name(cl.bases@[j]) is Some
                        && final_reached(classes, base_name(cl.bases@[j])->Some_0, f);
                    let b = base_name(cl.bases@[j])->Some_0;
                    assert(edge(classes, c, b));
                } else {
                    if exists|b: Seq<char>| #[trigger] edge(classes, c, b) && final_reached(classes, b, f) {
                        let b = choose|b: Seq<char>| #[trigger] edge(classes, c, b) && final_reached(classes, b, f);
                        let j = choose|j: int| 0 <= j < cl.bases@.len() && #[trigger] base_name(cl.bases@[j]) == Some(b);
                        assert(base_name(cl.bases@[j]) is Some);
                    }
                }
            }
        },
    }
}

/// The search through `bases` says whether one of them reaches a `final`
/// declaration.
proof fn lemma_final_bases_reached(classes: Seq<ClassDef>, bases: Seq<BaseType>, f: Seq<char>, fuel: nat)
    requires
        final_in_bases(classes, bases, f, fuel) is Some,
    ensures
        final_in_bases(classes, bases, f, fuel) == Some(exists|j: int| 0 <= j < bases.len() && #[trigger] base_name(bases[j]) is Some
            && final_reached(classes, base_name(bases[j])->Some_0, f)),
    decreases fuel, bases.len(),
{
    if bases.len() > 0 {
        let rest = bases.drop_last();
        assert(final_in_bases(classes, rest, f, fuel) is Some);
        lemma_final_bases_reached(classes, rest, f, fuel);
        assert forall|j: int| 0 <= j < rest.len() implies #[trigger] rest[j] == bases[j] by {}
        let last = bases.len() - 1;
        assert(bases.last() == bases[last]);
        if final_in_bases(classes, rest, f, fuel) == Some(false) {
            if let Some(b) = base_name(bases.last()) {
                law_final_field_inherited(classes, b, f, fuel);
            }
            let found = exists|j: int| 0 <= j < bases.len() && #[trigger] base_name(bases[j]) is Some
                && final_reached(classes, base_name(bases[j])->Some_0, f);
            if found {
                let j = choose|j: int| 0 <= j < bases.len() && #[trigger] base_name(bases[j]) is Some
                    && final_reached(classes, base_name(bases[j])->Some_0, f);
                if j < last {
                    assert(base_name(rest[j]) is Some);
                }
            }
        } else {
            let j = choose|j: int| 0 <= j < rest.len() && #[trigger] base_name(rest[j]) is Some
                && final_reached(classes, base_name(rest[j])->Some_0, f);
            assert(base_name(bases[j]) is Some);
        }
    }
}

/// The class named `k` declares member `m`.
pub open spec fn declares_member_in(classes: Seq<ClassDef>, k: Seq<char>, m: Seq<char>) -> bool {
    match class_of(classes, k) {
        Some(cl) => declares_member(cl, m),
        None => false,
    }
}

/// Some class reached from `c` through its bases, `c` included, declares
/// member `m`.
pub open spec fn member_reached(classes: Seq<ClassDef>, c: Seq<char>, m: Seq<char>) -> bool {
    exists|k: Seq<char>, n: nat| #[trigger] reaches(classes, c, k, n) && declares_member_in(classes, k, m)
}

/// The owner of a member is a class reached from the class asked about
/// that declares the member, the class itself when it does; and no owner
/// is found exactly when no class reached from it declares the member.
pub proof fn law_owner_declares_member(classes: Seq<ClassDef>, c: Seq<char>, m: Seq<char>, fuel: nat)
    requires
        owner_walk(classes, c, m, fuel) is Some,
    ensures
        match owner_walk(classes, c, m, fuel)->Some_0 {
            Some(o) => reachable(classes, c, o) && declares_member_in(classes, o, m)
                && (declares_member_in(classes, c, m) ==> o == c),
            None => !member_reached(classes, c, m),
        },
    decreases fuel, 0nat,
{
    match class_of(classes, c) {
        None => {
            if member_reached(classes, c, m) {
                let (k, n) = choose|k: Seq<char>, n: nat| #[trigger] reaches(classes, c, k, n) && declares_member_in(classes, k, m);
                if n == 0 {
                    lemma_reaches_zero(classes, c, k);
                } else {
                    let b = lemma_reaches_split(classes, c, k, n);
                }
            }
        },
        Some(cl) => {
            if declares_member(cl, m) {
                lemma_reaches_self(classes, c);
            } else {
                let inner = (fuel - 1) as nat;
                lemma_owner_bases_declares(classes, cl.bases@, m, inner);
                match owner_walk(classes, c, m, fuel)->Some_0 {
                    Some(o) => {
                        let j = choose|j: int| 0 <= j < cl.bases@.len() && #[trigger] base_name(cl.bases@[j]) is Some
                            && reachable(classes, base_name(cl.bases@[j])->Some_0, o);
                        let b = base_name(cl.bases@[j])->Some_0;
                        assert(edge(classes, c, b));
                        let n = choose|n: nat| #[trigger] reaches(classes, b, o, n);
                        lemma_reaches_prepend(classes, c, b, o, n);
                    },
                    None => {
                        if member_reached(classes, c, m) {
                            let (k, n) = choose|k: Seq<char>, n: nat| #[trigger] reaches(classes, c, k, n) && declares_member_in(classes, k, m);
                            if n == 0 {
                                lemma_reaches_zero(classes, c, k);
                            } else {
                                let b = lemma_reaches_split(classes, c, k, n);
                                let j = choose|j: int| 0 <= j < cl.bases@.len() && #[trigger] base_name(cl.bases@[j]) == Some(b);
                                assert(base_name(cl.bases@[j]) is Some);
                                assert(reaches(classes, b, k, (n - 1) as nat) && declares_member_in(classes, k, m));
                                assert(member_reached(classes, b, m));
                            }
                        }
                    },
                }
            }
        },
    }
}

/// The owner search through `bases` finds an owner reached from one of
/// them, or none when no base reaches a declaration.
proof fn lemma_owner_bases_declares(classes: Seq<ClassDef>, bases: Seq<BaseType>, m: Seq<char>, fuel: nat)
    requires
        owner_in_bases(classes, bases, m, fuel) is Some,
    ensures
        match owner_in_bases(classes, bases, m, fuel)->Some_0 {
            Some(o) => declares_member_in(classes, o, m) && exists|j: int| 0 <= j < bases.len()
                && #[trigger] base_name(bases[j]) is Some && reachable(classes, base_name(bases[j])->Some_0, o),
            None => forall|j: int| 0 <= j < bases.len() && #[trigger] base_name(bases[j]) is Some
                ==> !member_reached(classes, base_name(bases[j])->Some_0, m),
        },
    decreases fuel, bases.len(),
{
    if bases.len() > 0 {
        let rest = bases.drop_last();
        assert(owner_in_bases(classes, rest, m, fuel) is Some);
        lemma_owner_bases_declares(classes, rest, m, fuel);
        assert forall|j: int| 0 <= j < rest.len() implies #[trigger] rest[j] == bases[j] by {}
        let last = bases.len() - 1;
        assert(bases.last() == bases[last]);
        match owner_in_bases(classes, rest, m, fuel)->Some_0 {
            Some(o) => {
                let j = choose|j: int| 0 <= j < rest.len() && #[trigger] base_name(rest[j]) is Some
                    && reachable(classes, base_name(rest[j])->Some_0, o);
                assert(base_name(bases[j]) is Some);
            },
            None => {
                if let Some(b) = base_name(bases.last()) {
                    law_owner_declares_member(classes, b, m, fuel);
                    if let Some(o) = owner_walk(classes, b, m, fuel)->Some_0 {
                        assert(base_name(bases[last]) is Some);
                    } else {
                        assert forall|j: int| 0 <= j < bases.len() && #[trigger] base_name(bases[j]) is Some
                            implies !member_reached(classes, base_name(bases[j])->Some_0, m) by {
                            if j < last {
                                assert(base_name(rest[j]) is Some);
                            }
                        }
                    }
                } else {
                    assert forall|j: int| 0 <= j < bases.len() && #[trigger] base_name(bases[j]) is Some
                        implies !member_reached(classes, base_name(bases[j])->Some_0, m) by {
                        if j < last {
                            assert(base_name(rest[j]) is Some);
                        }
                    }
                }
            },
        }
    }
}

/// Classes named alike position by position are found at the same place.
proof fn lemma_same_class_names(a: Seq<ClassDef>, b: Seq<ClassDef>, name: Seq<char>)
    requires
        a.len() == b.len(),
        forall|i: int| 0 <= i < a.len() ==> (#[trigger] a[i]).name@ == b[i].name@,
    ensures
        class_index(a, name) == class_index(b, name),
    decreases a.len(),
{
    if a.len() > 0 {
        lemma_same_class_names(a.drop_last(), b.drop_last(), name);
        assert(a.last().name@ == b.last().name@);
    }
}

/// Defines `class` from a class statement: its bases are checked first
/// (a known `final` parent, or a known `sealed` parent from another file,
/// is an error and nothing changes); then it replaces the class of the
/// same name, or is added after the others.
pub fn define_class(classes: &mut Vec<ClassDef>, class: ClassDef) -> (r: Result<(), RuntimeError>)
    ensures
        match first_violation(old(classes)@, class.bases@, opt_view(class.source_file)) {
            Some(m) => r is Err && r->Err_0.message@ == m && final(classes)@ == old(classes)@,
            None => r is Ok && class_of(final(classes)@, class.name@) == Some(class)
                && forall|other: Seq<char>| other != class.name@ ==> #[trigger] class_of(final(classes)@, other)
                    == class_of(old(classes)@, other),
        },
{
    match check_bases(classes.as_slice(), class.bases.as_slice(), &class.source_file) {
        Err(e) => return Err(e),
        Ok(()) => {},
    }
    let ghost before = classes@;
    let ghost key = class.name@;
    proof {
        lemma_class_index(before, key);
    }
    match find_class(classes.as_slice(), &class.name) {
        Some(i) => {
            classes.set(i, class);
            proof {
                let after = classes@;
                assert forall|j: int| 0 <= j < before.len() implies (#[trigger] before[j]).name@ == after[j].name@ by {
                    if j == i as int {
                        assert(after[j].name@ == key);
                    }
                }
                assert forall|other: Seq<char>| other != key implies #[trigger] class_of(after, other) == class_of(before, other) by {
                    lemma_same_class_names(before, after, other);
                    lemma_class_index(before, other);
                    if class_index(before, other) is Some {
                        let k = class_index(before, other)->Some_0;
                        assert(k != i as int);
                    }
                }
                lemma_same_class_names(before, after, key);
            }
        },
        None => {
            classes.push(class);
            proof {
                let after = classes@;
                assert(after.drop_last() =~= before);
                assert forall|other: Seq<char>| other != key implies #[trigger] class_of(after, other) == class_of(before, other) by {
                    assert(class_index(after, other) == class_index(before, other));
                    lemma_class_index(before, other);
                    if class_index(before, other) is Some {
                        let k = class_index(before, other)->Some_0;
                        assert(after[k] == before[k]);
                    }
                }
            }
        },
    }
    Ok(())
}

/// The names of the fields `body` declares, in order.
pub open spec fn own_fields(body: Seq<ClassMember>) -> Seq<Seq<char>>
    decreases body.len(),
{
    if body.len() == 0 {
        Seq::empty()
    } else if body.last().kind == MemberKind::Field {
        own_fields(body.drop_last()).push(body.last().name@)
    } else {
        own_fields(body.drop_last())
    }
}

/// The field layout of the class named `c`: the layouts of its bases, in
/// order, then its own fields; nothing for a name that is not a class.
/// `fuel` bounds how deep the walk may go; `None` means it ran out.
pub open spec fn layout_walk(classes: Seq<ClassDef>, c: Seq<char>, fuel: nat) -> Option<Seq<Seq<char>>>
    decreases fuel, 0nat,
{
    match class_of(classes, c) {
        None => Some(Seq::empty()),
        Some(cl) => if fuel == 0 {
            None
        } else {
            match layout_in_bases(classes, cl.bases@, (fuel - 1) as nat) {
                Some(inherited) => Some(inherited + own_fields(cl.body@)),
                None => None,
            }
        },
    }
}

/// The layouts of `bases`, in order, one after the other.
pub open spec fn layout_in_bases(classes: Seq<ClassDef>, bases: Seq<BaseType>, fuel: nat) -> Option<Seq<Seq<char>>>
    decreases fuel, bases.len(),
{
    if bases.len() == 0 {
        Some(Seq::empty())
    } else {
        match layout_in_bases(classes, bases.drop_last(), fuel) {
            None => None,
            Some(before) => match base_name(bases.last()) {
                Some(b) => match layout_walk(classes, b, fuel) {
                    Some(more) => Some(before + more),
                    None => None,
                },
                None => Some(before),
            },
        }
    }
}

/// Two layout walks that both finish agree.
proof fn lemma_layout_agree(classes: Seq<ClassDef>, c: Seq<char>, fuel1: nat, fuel2: nat)
    requires
        layout_walk(classes, c, fuel1) is Some,
        layout_walk(classes, c, fuel2) is Some,
    ensures
        layout_walk(classes, c, fuel1) == layout_walk(classes, c, fuel2),
    decreases fuel1, 0nat,
{
    if let Some(cl) = class_of(classes, c) {
        lemma_layout_bases_agree(classes, cl.bases@, (fuel1 - 1) as nat, (fuel2 - 1) as nat);
    }
}

/// Two layout walks through the same bases that both finish agree.
proof fn lemma_layout_bases_agree(classes: Seq<ClassDef>, bases: Seq<BaseType>, fuel1: nat, fuel2: nat)
    requires
        layout_in_bases(classes, bases, fuel1) is Some,
        layout_in_bases(classes, bases, fuel2) is Some,
    ensures
        layout_in_bases(classes, bases, fuel1) == layout_in_bases(classes, bases, fuel2),
    decreases fuel1, bases.len(),
{
    if bases.len() > 0 {
        lemma_layout_bases_agree(classes, bases.drop_last(), fuel1, fuel2);
        if let Some(b) = base_name(bases.last()) {
            lemma_layout_agree(classes, b, fuel1, fuel2);
        }
    }
}

/// A layout walk through bases that finishes also finishes through each
/// leading part of them.
proof fn lemma_layout_prefix(classes: Seq<ClassDef>, bases: Seq<BaseType>, fuel: nat, k: int)
    requires
        layout_in_bases(classes, bases, fuel) is Some,
        0 <= k <= bases.len(),
    ensures
        layout_in_bases(classes, bases.take(k), fuel) is Some,
    decreases bases.len() - k,
{
    if k < bases.len() {
        lemma_layout_prefix(classes, bases, fuel, k + 1);
        assert(bases.take(k + 1).drop_last() =~= bases.take(k));
    } else {
        assert(bases.take(k) =~= bases);
    }
}

/// Names as sequences of characters.
pub open spec fn names_view(v: Seq<String>) -> Seq<Seq<char>> {
    v.map_values(|s: String| s@)
}

/// Appends the layout of the class at position `i` to `out`.
fn append_layout(classes: &[ClassDef], i: usize, out: &mut Vec<String>, Ghost(fuel): Ghost<nat>)
    requires
        i < classes@.len(),
        class_index(classes@, classes@[i as int].name@) == Some(i as int),
        layout_walk(classes@, classes@[i as int].name@, fuel) is Some,
    ensures
        names_view(final(out)@) == names_view(old(out)@) + layout_walk(classes@, classes@[i as int].name@, fuel)->Some_0,
    decreases fuel,
{
    let class = &classes[i];
    let ghost bases = class.bases@;
    let ghost inner = (fuel - 1) as nat;
    let ghost start = names_view(out@);
    proof {
        lemma_layout_prefix(classes@, bases, inner, 0);
        assert(bases.take(0) =~= Seq::<BaseType>::empty());
        assert(names_view(out@) =~= start + Seq::<Seq<char>>::empty());
    }
    let mut k: usize = 0;
    while k < class.bases.len()
        invariant
            k <= bases.len(),
            i < classes@.len(),
            *class == classes@[i as int],
            bases == class.bases@,
            fuel > 0,
            inner == fuel - 1,
            layout_in_bases(classes@, bases, inner) is Some,
            layout_in_bases(classes@, bases.take(k as int), inner) is Some,
            names_view(out@) == start + layout_in_bases(classes@, bases.take(k as int), inner)->Some_0,
        decreases bases.len() - k,
    {
        proof {
            lemma_layout_prefix(classes@, bases, inner, k + 1);
            assert(bases.take(k + 1).drop_last() =~= bases.take(k as int));
            assert(bases.take(k + 1).last() == bases[k as int]);
        }
        let ghost before = names_view(out@);
        match &class.bases[k] {
            BaseType::Named(name) => {
                match find_class(classes, name) {
                    Some(bi) => {
                        append_layout(classes, bi, out, Ghost(inner));
                        proof {
                            assert(names_view(out@) =~= start + layout_in_bases(classes@, bases.take(k + 1), inner)->Some_0);
                        }
                    },
                    None => {
                        proof {
                            assert(layout_walk(classes@, name@, inner) == Some(Seq::<Seq<char>>::empty()));
                            assert(names_view(out@) =~= start + layout_in_bases(classes@, bases.take(k + 1), inner)->Some_0);
                        }
                    },
                }
            },
            BaseType::Other => {},
        }
        k += 1;
    }
    proof {
        assert(bases.take(bases.len() as int) =~= bases);
    }
    let ghost inherited = names_view(out@);
    let mut j: usize = 0;
    proof {
        assert(class.body@.take(0) =~= Seq::<ClassMember>::empty());
        assert(names_view(out@) =~= inherited + own_fields(class.body@.take(0)));
    }
    while j < class.body.len()
        invariant
            j <= class.body@.len(),
            i < classes@.len(),
            *class == classes@[i as int],
            names_view(out@) == inherited + own_fields(class.body@.take(j as int)),
        decreases class.body@.len() - j,
    {
        proof {
            assert(class.body@.take(j + 1).drop_last() =~= class.body@.take(j as int));
            assert(class.body@.take(j + 1).last() == class.body@[j as int]);
        }
        if class.body[j].kind == MemberKind::Field {
            let ghost before = out@;
            let field = class.body[j].name.clone();
            out.push(field);
            proof {
                assert(names_view(out@) =~= names_view(before).push(class.body@[j as int].name@));
                assert(names_view(out@) =~= inherited + own_fields(class.body@.take(j + 1)));
            }
        }
        j += 1;
    }
    proof {
        assert(class.body@.take(class.body@.len() as int) =~= class.body@);
    }
}

/// The fields of an instance of class `class_name`, in order: those of its
/// bases first, base by base, then its own. The walk must finish.
pub fn class_field_layout(classes: &[ClassDef], class_name: &str) -> (r: Vec<String>)
    requires
        exists|fuel: nat| #[trigger] layout_walk(classes@, class_name@, fuel) is Some,
    ensures
        forall|fuel: nat| #[trigger] layout_walk(classes@, class_name@, fuel) is Some
            ==> layout_walk(classes@, class_name@, fuel) == Some(names_view(r@)),
{
    let ghost fuel = choose|fuel: nat| #[trigger] layout_walk(classes@, class_name@, fuel) is Some;
    let mut out: Vec<String> = Vec::new();
    let name = String::from_str(class_name);
    match find_class(classes, &name) {
        Some(i) => {
            append_layout(classes, i, &mut out, Ghost(fuel));
            proof {
                assert(names_view(out@) =~= Seq::<Seq<char>>::empty() + layout_walk(classes@, class_name@, fuel)->Some_0);
            }
        },
        None => {
            proof {
                assert(names_view(out@) =~= Seq::<Seq<char>>::empty());
            }
        },
    }
    proof {
        assert forall|f2: nat| #[trigger] layout_walk(classes@, class_name@, f2) is Some
            implies layout_walk(classes@, class_name@, f2) == Some(names_view(out@)) by {
            lemma_layout_agree(classes@, class_name@, fuel, f2);
        }
    }
    out
}
/// The hierarchy has no cycle through its bases, as `rank` witnesses:
/// every named base of a known class ranks below that class.
pub open spec fn ranked_by(classes: Seq<ClassDef>, rank: spec_fn(Seq<char>) -> nat) -> bool {
    forall|a: Seq<char>, b: Seq<char>| #[trigger] edge(classes, a, b) ==> rank(b) < rank(a)
}

/// Every named base of `bases` ranks below `bound`.
pub open spec fn bases_below(bases: Seq<BaseType>, rank: spec_fn(Seq<char>) -> nat, bound: nat) -> bool {
    forall|j: int| 0 <= j < bases.len() ==> (#[trigger] base_name(bases[j]) matches Some(b) ==> rank(b) < bound)
}

/// The named bases of a known class rank below one less than any fuel
/// above the class's own rank.
proof fn lemma_bases_below(classes: Seq<ClassDef>, rank: spec_fn(Seq<char>) -> nat, c: Seq<char>, fuel: nat)
    requires
        ranked_by(classes, rank),
        rank(c) < fuel,
        class_of(classes, c) is Some,
    ensures
        bases_below(class_of(classes, c)->Some_0.bases@, rank, (fuel - 1) as nat),
{
    let cl = class_of(classes, c)->Some_0;
    assert forall|j: int| 0 <= j < cl.bases@.len() implies
        (#[trigger] base_name(cl.bases@[j]) matches Some(b) ==> rank(b) < (fuel - 1) as nat) by {
        if let Some(b) = base_name(cl.bases@[j]) {
            assert(has_base(cl, b));
            assert(edge(classes, c, b));
        }
    }
}

/// Leading bases of `bases` stay below the bound.
proof fn lemma_bases_below_prefix(bases: Seq<BaseType>, rank: spec_fn(Seq<char>) -> nat, bound: nat)
    requires
        bases_below(bases, rank, bound),
        bases.len() > 0,
    ensures
        bases_below(bases.drop_last(), rank, bound),
        base_name(bases.last()) matches Some(b) ==> rank(b) < bound,
{
    assert forall|j: int| 0 <= j < bases.drop_last().len() implies
        (#[trigger] base_name(bases.drop_last()[j]) matches Some(b) ==> rank(b) < bound) by {
        assert(bases.drop_last()[j] == bases[j]);
    }
    assert(base_name(bases[bases.len() - 1]) == base_name(bases.last()));
}

/// In a ranked hierarchy the search for a `final` field finishes once its
/// fuel exceeds the class's rank.
pub proof fn law_final_walk_finishes(classes: Seq<ClassDef>, rank: spec_fn(Seq<char>) -> nat, c: Seq<char>, f: Seq<char>, fuel: nat)
    requires
        ranked_by(classes, rank),
        rank(c) < fuel,
    ensures
        final_walk(classes, c, f, fuel) is Some,
    decreases fuel, 0nat,
{
    if let Some(cl) = class_of(classes, c) {
        if !declares_final_field(cl, f) {
            lemma_bases_below(classes, rank, c, fuel);
            lemma_final_bases_finish(classes, rank, cl.bases@, f, (fuel - 1) as nat);
        }
    }
}

/// The search through `bases` finishes when each ranks below the fuel.
proof fn lemma_final_bases_finish(classes: Seq<ClassDef>, rank: spec_fn(Seq<char>) -> nat, bases: Seq<BaseType>, f: Seq<char>, fuel: nat)
    requires
        ranked_by(classes, rank),
        bases_below(bases, rank, fuel),
    ensures
        final_in_bases(classes, bases, f, fuel) is Some,
    decreases fuel, bases.len(),
{
    if bases.len() > 0 {
        lemma_bases_below_prefix(bases, rank, fuel);
        lemma_final_bases_finish(classes, rank, bases.drop_last(), f, fuel);
        if let Some(b) = base_name(bases.last()) {
            law_final_walk_finishes(classes, rank, b, f, fuel);
        }
    }
}

/// In a ranked hierarchy the search for a member's owner finishes once its
/// fuel exceeds the class's rank.
pub proof fn law_owner_walk_finishes(classes: Seq<ClassDef>, rank: spec_fn(Seq<char>) -> nat, c: Seq<char>, m: Seq<char>, fuel: nat)
    requires
        ranked_by(classes, rank),
        rank(c) < fuel,
    ensures
        owner_walk(classes, c, m, fuel) is Some,
    decreases fuel, 0nat,
{
    if let Some(cl) = class_of(classes, c) {
        if !declares_member(cl, m) {
            lemma_bases_below(classes, rank, c, fuel);
            lemma_owner_bases_finish(classes, rank, cl.bases@, m, (fuel - 1) as nat);
        }
    }
}

/// The owner search through `bases` finishes when each ranks below the
/// fuel.
proof fn lemma_owner_bases_finish(classes: Seq<ClassDef>, rank: spec_fn(Seq<char>) -> nat, bases: Seq<BaseType>, m: Seq<char>, fuel: nat)
    requires
        ranked_by(classes, rank),
        bases_below(bases, rank, fuel),
    ensures
        owner_in_bases(classes, bases, m, fuel) is Some,
    decreases fuel, bases.len(),
{
    if bases.len() > 0 {
        lemma_bases_below_prefix(bases, rank, fuel);
        lemma_owner_bases_finish(classes, rank, bases.drop_last(), m, fuel);
        if let Some(b) = base_name(bases.last()) {
            law_owner_walk_finishes(classes, rank, b, m, fuel);
        }
    }
}

/// In a ranked hierarchy a class's field layout is found once the fuel
/// exceeds the class's rank.
pub proof fn law_layout_walk_finishes(classes: Seq<ClassDef>, rank: spec_fn(Seq<char>) -> nat, c: Seq<char>, fuel: nat)
    requires
        ranked_by(classes, rank),
        rank(c) < fuel,
    ensures
        layout_walk(classes, c, fuel) is Some,
    decreases fuel, 0nat,
{
    if let Some(cl) = class_of(classes, c) {
        lemma_bases_below(classes, rank, c, fuel);
        lemma_layout_bases_finish(classes, rank, cl.bases@, (fuel - 1) as nat);
    }
}

/// The layouts of `bases` are found when each ranks below the fuel.
proof fn lemma_layout_bases_finish(classes: Seq<ClassDef>, rank: spec_fn(Seq<char>) -> nat, bases: Seq<BaseType>, fuel: nat)
    requires
        ranked_by(classes, rank),
        bases_below(bases, rank, fuel),
    ensures
        layout_in_bases(classes, bases, fuel) is Some,
    decreases fuel, bases.len(),
{
    if bases.len() > 0 {
        lemma_bases_below_prefix(bases, rank, fuel);
        lemma_layout_bases_finish(classes, rank, bases.drop_last(), fuel);
        if let Some(b) = base_name(bases.last()) {
            law_layout_walk_finishes(classes, rank, b, fuel);
        }
    }
}

/// What `first_known_base` picks is a named base of the list.
proof fn lemma_first_known_base_named(classes: Seq<ClassDef>, bases: Seq<BaseType>)
    ensures
        first_known_base(classes, bases) matches Some(n)
            ==> exists|j: int| 0 <= j < bases.len() && #[trigger] base_name(bases[j]) == Some(n),
    decreases bases.len(),
{
    if bases.len() > 0 {
        lemma_first_known_base_named(classes, bases.drop_last());
        if let Some(n) = first_known_base(classes, bases.drop_last()) {
            let j = choose|j: int| 0 <= j < bases.drop_last().len() && #[trigger] base_name(bases.drop_last()[j]) == Some(n);
            assert(base_name(bases[j]) == Some(n));
        } else {
            assert(base_name(bases[bases.len() - 1]) == base_name(bases.last()));
        }
    }
}

/// In a ranked hierarchy the capability walk finishes once its fuel
/// exceeds the class's rank.
pub proof fn law_capability_walk_finishes(classes: Seq<ClassDef>, rank: spec_fn(Seq<char>) -> nat, c: Seq<char>, cap: Seq<char>, fuel: nat)
    requires
        ranked_by(classes, rank),
        rank(c) < fuel,
    ensures
        capability_walk(classes, c, cap, fuel) is Some,
    decreases fuel,
{
    if let Some(cl) = class_of(classes, c) {
        lemma_first_known_base_named(classes, cl.bases@);
        if let Some(b) = first_known_base(classes, cl.bases@) {
            let j = choose|j: int| 0 <= j < cl.bases@.len() && #[trigger] base_name(cl.bases@[j]) == Some(b);
            assert(has_base(cl, b));
            assert(edge(classes, c, b));
            law_capability_walk_finishes(classes, rank, b, cap, (fuel - 1) as nat);
        }
    }
}

/// A hierarchy of one class after another, each naming only classes
/// before it as bases, is ranked by position.
pub proof fn law_bases_before_is_ranked(classes: Seq<ClassDef>)
    requires
        forall|i: int, j: int| 0 <= i < classes.len() && 0 <= j < classes[i].bases@.len()
            ==> (#[trigger] base_name(classes[i].bases@[j]) matches Some(b)
                ==> (class_index(classes, b) matches Some(k) && k < i)),
        forall|i: int, k: int| 0 <= k < i < classes.len() ==> classes[i].name@ != classes[k].name@,
    ensures
        ranked_by(classes, |n: Seq<char>| match class_index(classes, n) {
            Some(k) => k as nat,
            None => 0,
        }),
{
    let rank = |n: Seq<char>| match class_index(classes, n) {
        Some(k) => k as nat,
        None => 0,
    };
    assert forall|a: Seq<char>, b: Seq<char>| #[trigger] edge(classes, a, b) implies rank(b) < rank(a) by {
        lemma_class_index(classes, a);
        let i = class_index(classes, a)->Some_0;
        let cl = classes[i];
        let j = choose|j: int| 0 <= j < cl.bases@.len() && #[trigger] base_name(cl.bases@[j]) == Some(b);
        assert(base_name(classes[i].bases@[j]) == Some(b));
        lemma_class_index(classes, b);
    }
}

/// Every class has the capabilities `Eq`, `Ord` and `Hashable` unless it
/// opts out of them: in a table where no class opts out of `cap` (written
/// `without cap`), every class has each of the three, whatever its bases.
pub proof fn law_classes_have_generated_capabilities(classes: Seq<ClassDef>, c: Seq<char>, cap: Seq<char>, fuel: nat)
    requires
        cap == "Eq"@ || cap == "Ord"@ || cap == "Hashable"@,
        forall|i: int, j: int| 0 <= i < classes.len() && 0 <= j < classes[i].without_traits@.len()
            ==> (#[trigger] classes[i].without_traits@[j])@ != cap,
        capability_walk(classes, c, cap, fuel) is Some,
    ensures
        capability_walk(classes, c, cap, fuel) == Some(true),
    decreases fuel,
{
    lemma_class_index(classes, c);
    if let Some(cl) = class_of(classes, c) {
        let i = class_index(classes, c)->Some_0;
        assert(cl == classes[i]);
        assert(!exists|j: int| 0 <= j < cl.without_traits@.len() && #[trigger] cl.without_traits@[j]@ == cap) by {
            assert forall|j: int| 0 <= j < cl.without_traits@.len() implies #[trigger] cl.without_traits@[j]@ != cap by {
                assert(classes[i].without_traits@[j]@ != cap);
            }
        }
        if !has_base(cl, cap) {
            if let Some(b) = first_known_base(classes, cl.bases@) {
                if fuel > 0 {
                    law_classes_have_generated_capabilities(classes, b, cap, (fuel - 1) as nat);
                }
            }
        }
    }
}

/// A class that opts out of a capability (`without cap`) lacks it, even
/// when it is generated or named among its bases; a class that does not
/// opt out and names the capability among its bases has it.
pub proof fn law_opt_out_and_named_capabilities(classes: Seq<ClassDef>, c: Seq<char>, cap: Seq<char>, fuel: nat)
    requires
        class_of(classes, c) is Some,
    ensures
        (exists|j: int| 0 <= j < class_of(classes, c)->Some_0.without_traits@.len()
            && #[trigger] class_of(classes, c)->Some_0.without_traits@[j]@ == cap)
            ==> capability_walk(classes, c, cap, fuel) == Some(false),
        (forall|j: int| 0 <= j < class_of(classes, c)->Some_0.without_traits@.len()
            ==> #[trigger] class_of(classes, c)->Some_0.without_traits@[j]@ != cap)
            && (exists|j: int| 0 <= j < class_of(classes, c)->Some_0.bases@.len()
                && #[trigger] base_name(class_of(classes, c)->Some_0.bases@[j]) == Some(cap))
            ==> capability_walk(classes, c, cap, fuel) == Some(true),
{
}

} // verus!
