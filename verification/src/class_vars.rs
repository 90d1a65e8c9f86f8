//! Class variables: each class's own table of shared variables, read
//! through the class hierarchy and written where they were declared.
use vstd::prelude::*;
use vstd::string::*;
use vstd::hash_map::StringHashMap;
use crate::classes::{ClassDef, BaseType, base_name, class_of, class_index, find_class, ranked_by, edge, has_base};

verus! {

/// The class variables a class declares, by name.
#[verifier::reject_recursive_types(V)]
pub struct ClassVarScope<V> {
    pub class_name: String,
    pub vars: StringHashMap<V>,
}

/// The class variables of every class that declares some, one scope per
/// class.
#[verifier::reject_recursive_types(V)]
pub struct ClassVarTable<V> {
    pub scopes: Vec<ClassVarScope<V>>,
}

/// The position of the first scope for class `c`.
pub open spec fn scope_index<V>(scopes: Seq<ClassVarScope<V>>, c: Seq<char>) -> Option<int>
    decreases scopes.len(),
{
    if scopes.len() == 0 {
        None
    } else {
        match scope_index(scopes.drop_last(), c) {
            Some(i) => Some(i),
            None => if scopes.last().class_name@ == c { Some(scopes.len() - 1) } else { None },
        }
    }
}

/// The variables class `c` declares, if it has a scope.
pub open spec fn scope_vars<V>(scopes: Seq<ClassVarScope<V>>, c: Seq<char>) -> Option<Map<Seq<char>, V>> {
    match scope_index(scopes, c) {
        Some(i) => Some(scopes[i].vars@),
        None => None,
    }
}

/// `scope_index` finds the first scope for the class, or says none is.
proof fn lemma_scope_index<V>(scopes: Seq<ClassVarScope<V>>, c: Seq<char>)
    ensures
        match scope_index(scopes, c) {
            Some(i) => 0 <= i < scopes.len() && scopes[i].class_name@ == c
                && forall|j: int| 0 <= j < i ==> (#[trigger] scopes[j]).class_name@ != c,
            None => forall|j: int| 0 <= j < scopes.len() ==> (#[trigger] scopes[j]).class_name@ != c,
        },
    decreases scopes.len(),
{
    if scopes.len() > 0 {
        let rest = scopes.drop_last();
        lemma_scope_index(rest, c);
        assert forall|j: int| 0 <= j < rest.len() implies (#[trigger] rest[j]) == scopes[j] by {}
        assert(scopes.last() == scopes[scopes.len() - 1]);
        match scope_index(rest, c) {
            Some(i) => {
                assert forall|j: int| 0 <= j < i implies (#[trigger] scopes[j]).class_name@ != c by {
                    assert(rest[j] == scopes[j]);
                }
            },
            None => {
                assert forall|j: int| 0 <= j < scopes.len() - 1 implies (#[trigger] scopes[j]).class_name@ != c by {
                    assert(rest[j] == scopes[j]);
                }
            },
        }
    }
}

/// Scopes named alike position by position are found at the same place.
proof fn lemma_same_scope_names<V>(a: Seq<ClassVarScope<V>>, b: Seq<ClassVarScope<V>>, c: Seq<char>)
    requires
        a.len() == b.len(),
        forall|i: int| 0 <= i < a.len() ==> (#[trigger] a[i]).class_name@ == b[i].class_name@,
    ensures
        scope_index(a, c) == scope_index(b, c),
    decreases a.len(),
{
    if a.len() > 0 {
        lemma_same_scope_names(a.drop_last(), b.drop_last(), c);
        assert(a.last().class_name@ == b.last().class_name@);
    }
}

/// Finds the first scope for class `c`.
fn find_scope<V>(scopes: &Vec<ClassVarScope<V>>, c: &str) -> (r: Option<usize>)
    ensures
        match r {
            Some(i) => scope_index(scopes@, c@) == Some(i as int) && i < scopes@.len(),
            None => scope_index(scopes@, c@) is None,
        },
{
    let key = String::from_str(c);
    proof {
        lemma_scope_index(scopes@, c@);
    }
    let mut i: usize = 0;
    while i < scopes.len()
        invariant
            i <= scopes@.len(),
            key@ == c@,
            forall|j: int| 0 <= j < i ==> (#[trigger] scopes@[j]).class_name@ != c@,
            match scope_index(scopes@, c@) {
                Some(k) => i <= k,
                None => true,
            },
        decreases scopes@.len() - i,
    {
        proof {
            lemma_scope_index(scopes@, c@);
        }
        if scopes[i].class_name == key {
            return Some(i);
        }
        i += 1;
    }
    None
}

/// The value of class variable `name` for class `c`: its own, when its
/// scope holds it, else the value found for its first base, in order,
/// that has one. `fuel` bounds how deep the search may go; the outer
/// `None` means it ran out.
pub open spec fn var_walk<V>(classes: Seq<ClassDef>, scopes: Seq<ClassVarScope<V>>, c: Seq<char>, name: Seq<char>, fuel: nat) -> Option<Option<V>>
    decreases fuel, 0nat,
{
    match scope_vars(scopes, c) {
        Some(vars) if vars.contains_key(name) => Some(Some(vars[name])),
        _ => match class_of(classes, c) {
            None => Some(None),
            Some(cl) => if fuel == 0 {
                None
            } else {
                var_in_bases(classes, scopes, cl.bases@, name, (fuel - 1) as nat)
            },
        },
    }
}

/// The value of class variable `name` for the first of `bases`, in order,
/// that has one.
pub open spec fn var_in_bases<V>(classes: Seq<ClassDef>, scopes: Seq<ClassVarScope<V>>, bases: Seq<BaseType>, name: Seq<char>, fuel: nat) -> Option<Option<V>>
    decreases fuel, bases.len(),
{
    if bases.len() == 0 {
        Some(None)
    } else {
        match var_in_bases(classes, scopes, bases.drop_last(), name, fuel) {
            Some(None) => match base_name(bases.last()) {
                Some(b) => var_walk(classes, scopes, b, name, fuel),
                None => Some(None),
            },
            other => other,
        }
    }
}

/// Two lookups that both finish agree, whatever fuel each had.
proof fn lemma_var_walk_agree<V>(classes: Seq<ClassDef>, scopes: Seq<ClassVarScope<V>>, c: Seq<char>, name: Seq<char>, fuel1: nat, fuel2: nat)
    requires
        var_walk(classes, scopes, c, name, fuel1) is Some,
        var_walk(classes, scopes, c, name, fuel2) is Some,
    ensures
        var_walk(classes, scopes, c, name, fuel1) == var_walk(classes, scopes, c, name, fuel2),
    decreases fuel1, 0nat,
{
    let own = match scope_vars(scopes, c) {
        Some(vars) => vars.contains_key(name),
        None => false,
    };
    if !own {
        if let Some(cl) = class_of(classes, c) {
            lemma_var_bases_agree(classes, scopes, cl.bases@, name, (fuel1 - 1) as nat, (fuel2 - 1) as nat);
        }
    }
}

/// Two lookups through the same bases that both finish agree.
proof fn lemma_var_bases_agree<V>(classes: Seq<ClassDef>, scopes: Seq<ClassVarScope<V>>, bases: Seq<BaseType>, name: Seq<char>, fuel1: nat, fuel2: nat)
    requires
        var_in_bases(classes, scopes, bases, name, fuel1) is Some,
        var_in_bases(classes, scopes, bases, name, fuel2) is Some,
    ensures
        var_in_bases(classes, scopes, bases, name, fuel1) == var_in_bases(classes, scopes, bases, name, fuel2),
    decreases fuel1, bases.len(),
{
    if bases.len() > 0 {
        lemma_var_bases_agree(classes, scopes, bases.drop_last(), name, fuel1, fuel2);
        if var_in_bases(classes, scopes, bases.drop_last(), name, fuel1) == Some(None::<V>) {
            if let Some(b) = base_name(bases.last()) {
                lemma_var_walk_agree(classes, scopes, b, name, fuel1, fuel2);
            }
        }
    }
}

/// A lookup through bases that finishes also finishes through each
/// leading part of them.
proof fn lemma_var_prefix<V>(classes: Seq<ClassDef>, scopes: Seq<ClassVarScope<V>>, bases: Seq<BaseType>, name: Seq<char>, fuel: nat, k: int)
    requires
        var_in_bases(classes, scopes, bases, name, fuel) is Some,
        0 <= k <= bases.len(),
    ensures
        var_in_bases(classes, scopes, bases.take(k), name, fuel) is Some,
    decreases bases.len() - k,
{
    if k < bases.len() {
        lemma_var_prefix(classes, scopes, bases, name, fuel, k + 1);
        assert(bases.take(k + 1).drop_last() =~= bases.take(k));
    } else {
        assert(bases.take(k) =~= bases);
    }
}

/// A value found among leading bases is the value found among them all.
proof fn lemma_var_prefix_found<V>(classes: Seq<ClassDef>, scopes: Seq<ClassVarScope<V>>, bases: Seq<BaseType>, name: Seq<char>, fuel: nat, k: int, v: V)
    requires
        0 <= k <= bases.len(),
        var_in_bases(classes, scopes, bases.take(k), name, fuel) == Some(Some(v)),
    ensures
        var_in_bases(classes, scopes, bases, name, fuel) == Some(Some(v)),
    decreases bases.len() - k,
{
    if k < bases.len() {
        assert(bases.take(k + 1).drop_last() =~= bases.take(k));
        lemma_var_prefix_found(classes, scopes, bases, name, fuel, k + 1, v);
    } else {
        assert(bases.take(k) =~= bases);
    }
}

/// The first named base among `bases`, in order, that has a scope.
pub open spec fn first_scoped_in<V>(scopes: Seq<ClassVarScope<V>>, bases: Seq<BaseType>) -> Option<Seq<char>>
    decreases bases.len(),
{
    if bases.len() == 0 {
        None
    } else {
        match first_scoped_in(scopes, bases.drop_last()) {
            Some(n) => Some(n),
            None => match base_name(bases.last()) {
                Some(n) => if scope_index(scopes, n) is Some { Some(n) } else { None },
                None => None,
            },
        }
    }
}

/// The class whose scope receives a write of class variable `name` made
/// through class `c`: `c` itself when its scope holds the variable, else
/// the class the write lands in for the first base of `c` that has a
/// scope; `Some(None)` when there is none. `fuel` bounds the number of
/// steps; `None` means it ran out.
pub open spec fn set_target<V>(classes: Seq<ClassDef>, scopes: Seq<ClassVarScope<V>>, c: Seq<char>, name: Seq<char>, fuel: nat) -> Option<Option<Seq<char>>>
    decreases fuel,
{
    match scope_vars(scopes, c) {
        Some(vars) if vars.contains_key(name) => Some(Some(c)),
        _ => match class_of(classes, c) {
            None => Some(None),
            Some(cl) => match first_scoped_in(scopes, cl.bases@) {
                None => Some(None),
                Some(p) => if fuel == 0 { None } else { set_target(classes, scopes, p, name, (fuel - 1) as nat) },
            },
        },
    }
}

/// Two target searches that both finish agree.
proof fn lemma_set_target_agree<V>(classes: Seq<ClassDef>, scopes: Seq<ClassVarScope<V>>, c: Seq<char>, name: Seq<char>, fuel1: nat, fuel2: nat)
    requires
        set_target(classes, scopes, c, name, fuel1) is Some,
        set_target(classes, scopes, c, name, fuel2) is Some,
    ensures
        set_target(classes, scopes, c, name, fuel1) == set_target(classes, scopes, c, name, fuel2),
    decreases fuel1,
{
    let own = match scope_vars(scopes, c) {
        Some(vars) => vars.contains_key(name),
        None => false,
    };
    if !own {
        if let Some(cl) = class_of(classes, c) {
            if let Some(p) = first_scoped_in(scopes, cl.bases@) {
                lemma_set_target_agree(classes, scopes, p, name, (fuel1 - 1) as nat, (fuel2 - 1) as nat);
            }
        }
    }
}

/// A scoped base among leading bases is the first of them all.
proof fn lemma_scoped_prefix<V>(scopes: Seq<ClassVarScope<V>>, bases: Seq<BaseType>, k: int, n: Seq<char>)
    requires
        0 <= k <= bases.len(),
        first_scoped_in(scopes, bases.take(k)) == Some(n),
    ensures
        first_scoped_in(scopes, bases) == Some(n),
    decreases bases.len() - k,
{
    if k < bases.len() {
        assert(bases.take(k + 1).drop_last() =~= bases.take(k));
        lemma_scoped_prefix(scopes, bases, k + 1, n);
    } else {
        assert(bases.take(k) =~= bases);
    }
}

/// The first named base, in order, that has a scope.
fn find_scoped_base<V>(scopes: &Vec<ClassVarScope<V>>, bases: &[BaseType]) -> (r: Option<String>)
    ensures
        match r {
            Some(n) => first_scoped_in(scopes@, bases@) == Some(n@),
            None => first_scoped_in(scopes@, bases@) is None,
        },
{
    let mut k: usize = 0;
    proof {
        assert(bases@.take(0) =~= Seq::<BaseType>::empty());
    }
    while k < bases.len()
        invariant
            k <= bases@.len(),
            first_scoped_in(scopes@, bases@.take(k as int)) is None,
        decreases bases@.len() - k,
    {
        proof {
            assert(bases@.take(k + 1).drop_last() =~= bases@.take(k as int));
            assert(bases@.take(k + 1).last() == bases@[k as int]);
        }
        match &bases[k] {
            BaseType::Named(n) => {
                if find_scope(scopes, n.as_str()).is_some() {
                    proof {
                        lemma_scoped_prefix(scopes@, bases@, k + 1, n@);
                    }
                    return Some(n.clone());
                }
            },
            BaseType::Other => {},
        }
        k += 1;
    }
    proof {
        assert(bases@.take(bases@.len() as int) =~= bases@);
    }
    None
}

impl<V> ClassVarTable<V> {
    /// A table with no class variables.
    pub fn new() -> (t: Self)
        ensures
            t.scopes@.len() == 0,
    {
        ClassVarTable { scopes: Vec::new() }
    }

    /// Declares class variable `name` of class `class_name` with `value`:
    /// into the class's scope, created after the others when the class has
    /// none yet.
    pub fn declare(&mut self, class_name: &str, name: String, value: V)
        ensures
            scope_vars(final(self).scopes@, class_name@) == Some(match scope_vars(old(self).scopes@, class_name@) {
                Some(vars) => vars.insert(name@, value),
                None => Map::<Seq<char>, V>::empty().insert(name@, value),
            }),
            forall|other: Seq<char>| other != class_name@ ==> #[trigger] scope_vars(final(self).scopes@, other)
                == scope_vars(old(self).scopes@, other),
    {
        match find_scope(&self.scopes, class_name) {
            Some(i) => {
                let ghost before = self.scopes@;
                let mut scope = self.scopes.remove(i);
                scope.vars.insert(name, value);
                self.scopes.insert(i, scope);
                proof {
                    let after = self.scopes@;
                    assert(after =~= before.update(i as int, after[i as int]));
                    lemma_same_scope_names(before, after, class_name@);
                    lemma_scope_index(before, class_name@);
                    assert forall|other: Seq<char>| other != class_name@ implies #[trigger] scope_vars(after, other)
                        == scope_vars(before, other) by {
                        lemma_same_scope_names(before, after, other);
                        lemma_scope_index(before, other);
                        if scope_index(before, other) is Some {
                            let k = scope_index(before, other)->Some_0;
                            assert(k != i as int);
                            assert(after[k] == before[k]);
                        }
                    }
                }
            },
            None => {
                let ghost before = self.scopes@;
                let mut vars = StringHashMap::new();
                vars.insert(name, value);
                self.scopes.push(ClassVarScope { class_name: String::from_str(class_name), vars });
                proof {
                    let after = self.scopes@;
                    assert(after.drop_last() =~= before);
                    assert(after.last().class_name@ == class_name@);
                    assert forall|other: Seq<char>| other != class_name@ implies #[trigger] scope_vars(after, other)
                        == scope_vars(before, other) by {
                        assert(scope_index(after, other) == scope_index(before, other));
                        lemma_scope_index(before, other);
                        if scope_index(before, other) is Some {
                            let k = scope_index(before, other)->Some_0;
                            assert(after[k] == before[k]);
                        }
                    }
                }
            },
        }
    }

    /// The search of `var_walk` from class `c`, with `fuel` enough for it.
    fn get_from(&self, classes: &[ClassDef], c: &String, name: &str, Ghost(fuel): Ghost<nat>) -> (r: Option<&V>)
        requires
            var_walk(classes@, self.scopes@, c@, name@, fuel) is Some,
        ensures
            var_walk(classes@, self.scopes@, c@, name@, fuel) == Some(match r {
                Some(v) => Some(*v),
                None => None::<V>,
            }),
        decreases fuel,
    {
        match find_scope(&self.scopes, c.as_str()) {
            Some(i) => {
                match self.scopes[i].vars.get(name) {
                    Some(v) => return Some(v),
                    None => {},
                }
            },
            None => {},
        }
        let ci = match find_class(classes, c) {
            Some(ci) => ci,
            None => return None,
        };
        let class = &classes[ci];
        let ghost bases = class.bases@;
        let ghost inner = (fuel - 1) as nat;
        proof {
            lemma_var_prefix(classes@, self.scopes@, bases, name@, inner, 0);
            assert(bases.take(0) =~= Seq::<BaseType>::empty());
        }
        let mut k: usize = 0;
        while k < class.bases.len()
            invariant
                k <= bases.len(),
                ci < classes@.len(),
                *class == classes@[ci as int],
                bases == class.bases@,
                class_of(classes@, c@) == Some(classes@[ci as int]),
                !(match scope_vars(self.scopes@, c@) {
                    Some(vars) => vars.contains_key(name@),
                    None => false,
                }),
                fuel > 0,
                inner == fuel - 1,
                var_in_bases(classes@, self.scopes@, bases, name@, inner) is Some,
                var_in_bases(classes@, self.scopes@, bases.take(k as int), name@, inner) == Some(None::<V>),
            decreases bases.len() - k,
        {
            proof {
                lemma_var_prefix(classes@, self.scopes@, bases, name@, inner, k + 1);
                assert(bases.take(k + 1).drop_last() =~= bases.take(k as int));
                assert(bases.take(k + 1).last() == bases[k as int]);
            }
            match &class.bases[k] {
                BaseType::Named(base) => {
                    match self.get_from(classes, base, name, Ghost(inner)) {
                        Some(v) => {
                            proof {
                                lemma_var_prefix_found(classes@, self.scopes@, bases, name@, inner, k + 1, *v);
                            }
                            return Some(v);
                        },
                        None => {},
                    }
                },
                BaseType::Other => {},
            }
            k += 1;
        }
        proof {
            assert(bases.take(bases.len() as int) =~= bases);
        }
        None
    }

    /// The value of class variable `name` for class `class_name`: the
    /// class's own, else the one inherited through its bases, in order.
    /// The search must finish.
    pub fn class_var_get(&self, classes: &[ClassDef], class_name: &str, name: &str) -> (r: Option<&V>)
        requires
            exists|fuel: nat| #[trigger] var_walk(classes@, self.scopes@, class_name@, name@, fuel) is Some,
        ensures
            forall|fuel: nat| #[trigger] var_walk(classes@, self.scopes@, class_name@, name@, fuel) is Some
                ==> var_walk(classes@, self.scopes@, class_name@, name@, fuel) == Some(match r {
                    Some(v) => Some(*v),
                    None => None::<V>,
                }),
    {
        let ghost fuel = choose|fuel: nat| #[trigger] var_walk(classes@, self.scopes@, class_name@, name@, fuel) is Some;
        let c = String::from_str(class_name);
        let r = self.get_from(classes, &c, name, Ghost(fuel));
        proof {
            assert forall|f2: nat| #[trigger] var_walk(classes@, self.scopes@, class_name@, name@, f2) is Some
                implies var_walk(classes@, self.scopes@, class_name@, name@, f2) == Some(match r {
                    Some(v) => Some(*v),
                    None => None::<V>,
                }) by {
                lemma_var_walk_agree(classes@, self.scopes@, class_name@, name@, fuel, f2);
            }
        }
        r
    }

    /// Writes class variable `name` through class `class_name`: into the
    /// scope of the class found by `set_target`, `true`; `false`, with
    /// nothing changed, when there is none. The search must finish.
    pub fn class_var_set(&mut self, classes: &[ClassDef], class_name: &str, name: &str, value: V) -> (r: bool)
        requires
            exists|fuel: nat| #[trigger] set_target(classes@, old(self).scopes@, class_name@, name@, fuel) is Some,
        ensures
            forall|fuel: nat| #[trigger] set_target(classes@, old(self).scopes@, class_name@, name@, fuel) is Some
                ==> match set_target(classes@, old(self).scopes@, class_name@, name@, fuel)->Some_0 {
                    Some(t) => r && scope_vars(final(self).scopes@, t) == Some(
                        scope_vars(old(self).scopes@, t)->Some_0.insert(name@, value))
                        && scope_vars(old(self).scopes@, t) is Some
                        && forall|other: Seq<char>| other != t ==> #[trigger] scope_vars(final(self).scopes@, other)
                            == scope_vars(old(self).scopes@, other),
                    None => !r && final(self).scopes@ == old(self).scopes@,
                },
    {
        let ghost fuel0 = choose|fuel: nat| #[trigger] set_target(classes@, self.scopes@, class_name@, name@, fuel) is Some;
        let ghost start = set_target(classes@, self.scopes@, class_name@, name@, fuel0);
        proof {
            assert forall|f2: nat| #[trigger] set_target(classes@, self.scopes@, class_name@, name@, f2) is Some
                implies set_target(classes@, self.scopes@, class_name@, name@, f2) == start by {
                lemma_set_target_agree(classes@, self.scopes@, class_name@, name@, fuel0, f2);
            }
        }
        let mut current = String::from_str(class_name);
        let ghost mut fuel: nat = fuel0;
        loop
            invariant
                self.scopes@ == old(self).scopes@,
                set_target(classes@, self.scopes@, current@, name@, fuel) == start,
                start is Some,
                forall|f2: nat| #[trigger] set_target(classes@, old(self).scopes@, class_name@, name@, f2) is Some
                    ==> set_target(classes@, old(self).scopes@, class_name@, name@, f2) == start,
            decreases fuel,
        {
            let own = match find_scope(&self.scopes, current.as_str()) {
                Some(i) => self.scopes[i].vars.contains_key(name),
                None => false,
            };
            if own {
                self.declare(current.as_str(), String::from_str(name), value);
                return true;
            }
            let ci = match find_class(classes, &current) {
                Some(ci) => ci,
                None => return false,
            };
            match find_scoped_base(&self.scopes, classes[ci].bases.as_slice()) {
                Some(next) => {
                    proof {
                        fuel = (fuel - 1) as nat;
                    }
                    current = next;
                },
                None => return false,
            }
        }
    }
}

/// In a ranked hierarchy the lookup of a class variable finishes once its
/// fuel exceeds the class's rank.
pub proof fn law_var_walk_finishes<V>(classes: Seq<ClassDef>, scopes: Seq<ClassVarScope<V>>, rank: spec_fn(Seq<char>) -> nat,
    c: Seq<char>, name: Seq<char>, fuel: nat)
    requires
        ranked_by(classes, rank),
        rank(c) < fuel,
    ensures
        var_walk(classes, scopes, c, name, fuel) is Some,
    decreases fuel, 0nat,
{
    let own = match scope_vars(scopes, c) {
        Some(vars) => vars.contains_key(name),
        None => false,
    };
    if !own {
        if let Some(cl) = class_of(classes, c) {
            assert forall|j: int| 0 <= j < cl.bases@.len() implies
                (#[trigger] base_name(cl.bases@[j]) matches Some(b) ==> rank(b) < (fuel - 1) as nat) by {
                if let Some(b) = base_name(cl.bases@[j]) {
                    assert(has_base(cl, b));
                    assert(edge(classes, c, b));
                }
            }
            lemma_var_bases_finish(classes, scopes, rank, cl.bases@, name, (fuel - 1) as nat);
        }
    }
}

/// The lookup through `bases` finishes when each ranks below the fuel.
proof fn lemma_var_bases_finish<V>(classes: Seq<ClassDef>, scopes: Seq<ClassVarScope<V>>, rank: spec_fn(Seq<char>) -> nat,
    bases: Seq<BaseType>, name: Seq<char>, fuel: nat)
    requires
        ranked_by(classes, rank),
        forall|j: int| 0 <= j < bases.len() ==> (#[trigger] base_name(bases[j]) matches Some(b) ==> rank(b) < fuel),
    ensures
        var_in_bases(classes, scopes, bases, name, fuel) is Some,
    decreases fuel, bases.len(),
{
    if bases.len() > 0 {
        assert forall|j: int| 0 <= j < bases.drop_last().len() implies
            (#[trigger] base_name(bases.drop_last()[j]) matches Some(b) ==> rank(b) < fuel) by {
            assert(bases.drop_last()[j] == bases[j]);
        }
        assert(base_name(bases[bases.len() - 1]) == base_name(bases.last()));
        lemma_var_bases_finish(classes, scopes, rank, bases.drop_last(), name, fuel);
        if let Some(b) = base_name(bases.last()) {
            law_var_walk_finishes(classes, scopes, rank, b, name, fuel);
        }
    }
}

/// What `first_scoped_in` picks is a named base of the list.
proof fn lemma_first_scoped_named<V>(scopes: Seq<ClassVarScope<V>>, bases: Seq<BaseType>)
    ensures
        first_scoped_in(scopes, bases) matches Some(n)
            ==> exists|j: int| 0 <= j < bases.len() && #[trigger] base_name(bases[j]) == Some(n),
    decreases bases.len(),
{
    if bases.len() > 0 {
        lemma_first_scoped_named(scopes, bases.drop_last());
        if let Some(n) = first_scoped_in(scopes, bases.drop_last()) {
            let j = choose|j: int| 0 <= j < bases.drop_last().len() && #[trigger] base_name(bases.drop_last()[j]) == Some(n);
            assert(base_name(bases[j]) == Some(n));
        } else {
            assert(base_name(bases[bases.len() - 1]) == base_name(bases.last()));
        }
    }
}

/// In a ranked hierarchy the search for where a class-variable write lands
/// finishes once its fuel exceeds the class's rank.
pub proof fn law_set_target_finishes<V>(classes: Seq<ClassDef>, scopes: Seq<ClassVarScope<V>>, rank: spec_fn(Seq<char>) -> nat,
    c: Seq<char>, name: Seq<char>, fuel: nat)
    requires
        ranked_by(classes, rank),
        rank(c) < fuel,
    ensures
        set_target(classes, scopes, c, name, fuel) is Some,
    decreases fuel,
{
    let own = match scope_vars(scopes, c) {
        Some(vars) => vars.contains_key(name),
        None => false,
    };
    if !own {
        if let Some(cl) = class_of(classes, c) {
            lemma_first_scoped_named(scopes, cl.bases@);
            if let Some(p) = first_scoped_in(scopes, cl.bases@) {
                let j = choose|j: int| 0 <= j < cl.bases@.len() && #[trigger] base_name(cl.bases@[j]) == Some(p);
                assert(has_base(cl, p));
                assert(edge(classes, c, p));
                law_set_target_finishes(classes, scopes, rank, p, name, (fuel - 1) as nat);
            }
        }
    }
}

} // verus!
