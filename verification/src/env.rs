//! Lexical environments: a chain of scopes, each mapping names to values,
//! remembering the order in which its names were first bound and which of
//! them are `final`.
use vstd::prelude::*;
use vstd::string::*;
use vstd::hash_map::StringHashMap;
use vstd::hash_set::StringHashSet;
use crate::matching::{PatternShape, bound_names, pattern_bound_names};

verus! {

/// One scope of bindings, with its enclosing scope.
#[verifier::reject_recursive_types(V)]
pub struct Environment<V> {
    pub bindings: StringHashMap<V>,
    /// The order in which names were first bound here (for reflection);
    /// lookup goes through `bindings`.
    pub binding_order: Vec<String>,
    pub parent: Option<Box<Environment<V>>>,
    pub final_bindings: StringHashSet,
}

/// The names of `order`, as sequences of characters.
pub open spec fn order_names(order: Seq<String>) -> Seq<Seq<char>> {
    order.map_values(|s: String| s@)
}

impl<V> Environment<V> {
    /// The scopes from this one outward: their bindings.
    pub open spec fn scopes(self) -> Seq<Map<Seq<char>, V>>
        decreases self,
    {
        match self.parent {
            Some(p) => seq![self.bindings@].add(p.scopes()),
            None => seq![self.bindings@],
        }
    }

    /// The `final` names of the scopes from this one outward.
    pub open spec fn final_scopes(self) -> Seq<Set<Seq<char>>>
        decreases self,
    {
        match self.parent {
            Some(p) => seq![self.final_bindings@].add(p.final_scopes()),
            None => seq![self.final_bindings@],
        }
    }

    /// Well-formedness: in every scope, `binding_order` lists each bound
    /// name exactly once.
    pub open spec fn wf(self) -> bool
        decreases self,
    {
        &&& order_names(self.binding_order@).no_duplicates()
        &&& forall|n: Seq<char>| self.bindings@.contains_key(n) <==> #[trigger] order_names(self.binding_order@).contains(n)
        &&& match self.parent {
            Some(p) => p.wf(),
            None => true,
        }
    }

    /// The value `name` is bound to in the nearest scope that binds it.
    pub open spec fn lookup(self, name: Seq<char>) -> Option<V>
        decreases self,
    {
        if self.bindings@.contains_key(name) {
            Some(self.bindings@[name])
        } else {
            match self.parent {
                Some(p) => p.lookup(name),
                None => None,
            }
        }
    }

    /// Whether some scope from this one outward marks `name` final.
    pub open spec fn final_somewhere(self, name: Seq<char>) -> bool
        decreases self,
    {
        self.final_bindings@.contains(name) || match self.parent {
            Some(p) => p.final_somewhere(name),
            None => false,
        }
    }

    /// A new outermost scope with no bindings.
    pub fn new() -> (e: Self)
        ensures
            e.bindings@ == Map::<Seq<char>, V>::empty(),
            e.binding_order@.len() == 0,
            e.parent is None,
            e.final_bindings@ == Set::<Seq<char>>::empty(),
            e.wf(),
    {
        Environment {
            bindings: StringHashMap::new(),
            binding_order: Vec::new(),
            parent: None,
            final_bindings: StringHashSet::new(),
        }
    }

    /// A new scope with no bindings, enclosed by `parent`.
    pub fn with_parent(parent: Environment<V>) -> (e: Self)
        ensures
            e.bindings@ == Map::<Seq<char>, V>::empty(),
            e.binding_order@.len() == 0,
            e.parent == Some(Box::new(parent)),
            e.final_bindings@ == Set::<Seq<char>>::empty(),
            parent.wf() ==> e.wf(),
    {
        Environment {
            bindings: StringHashMap::new(),
            binding_order: Vec::new(),
            parent: Some(Box::new(parent)),
            final_bindings: StringHashSet::new(),
        }
    }

    /// The value of `name` in the nearest scope that binds it.
    pub fn get(&self, name: &str) -> (r: Option<&V>)
        ensures
            r == match self.lookup(name@) {
                Some(v) => Some(&v),
                None => None::<&V>,
            },
        decreases self,
    {
        match self.bindings.get(name) {
            Some(v) => Some(v),
            None => match &self.parent {
                Some(p) => p.get(name),
                None => None,
            },
        }
    }

    /// Binds `name` to `value` in this scope, recording the name's place in
    /// the binding order the first time it is bound here.
    pub fn set(&mut self, name: String, value: V)
        ensures
            final(self).bindings@ == old(self).bindings@.insert(name@, value),
            old(self).bindings@.contains_key(name@) ==> final(self).binding_order@ == old(self).binding_order@,
            !old(self).bindings@.contains_key(name@) ==> final(self).binding_order@ == old(self).binding_order@.push(name),
            final(self).parent == old(self).parent,
            final(self).final_bindings@ == old(self).final_bindings@,
            old(self).wf() ==> final(self).wf(),
    {
        let fresh = !self.bindings.contains_key(name.as_str());
        if fresh {
            self.binding_order.push(name.clone());
            proof {
                assert(order_names(self.binding_order@) =~= order_names(old(self).binding_order@).push(name@));
            }
        }
        let ghost key = name@;
        self.bindings.insert(name, value);
        proof {
            if old(self).wf() {
                let names = order_names(self.binding_order@);
                let old_names = order_names(old(self).binding_order@);
                if fresh {
                    assert(!old_names.contains(key));
                    assert(names.no_duplicates()) by {
                        assert forall|i: int, j: int| 0 <= i < names.len() && 0 <= j < names.len() && i != j
                            implies names[i] != names[j] by {
                            if i < old_names.len() && j < old_names.len() {
                                assert(names[i] == old_names[i]);
                                assert(names[j] == old_names[j]);
                            } else if i < old_names.len() {
                                assert(names[i] == old_names[i]);
                                assert(old_names.contains(names[i]));
                            } else if j < old_names.len() {
                                assert(names[j] == old_names[j]);
                                assert(old_names.contains(names[j]));
                            }
                        }
                    }
                    assert forall|n: Seq<char>| self.bindings@.contains_key(n) <==> #[trigger] names.contains(n) by {
                        if names.contains(n) && n != key {
                            let i = choose|i: int| 0 <= i < names.len() && names[i] == n;
                            assert(old_names[i] == n);
                        }
                        if old_names.contains(n) {
                            let i = choose|i: int| 0 <= i < old_names.len() && old_names[i] == n;
                            assert(names[i] == n);
                        }
                        if n == key {
                            assert(names[names.len() - 1] == key);
                        }
                    }
                } else {
                    assert(old_names.contains(key));
                }
            }
        }
    }

    /// Marks `name` final in this scope.
    pub fn mark_final(&mut self, name: String)
        ensures
            final(self).final_bindings@ == old(self).final_bindings@.insert(name@),
            final(self).bindings@ == old(self).bindings@,
            final(self).binding_order@ == old(self).binding_order@,
            final(self).parent == old(self).parent,
    {
        self.final_bindings.insert(name);
    }

    /// Marks final, in this scope, every name `pattern` binds (a `final`
    /// destructuring declaration).
    pub fn mark_final_pattern(&mut self, pattern: &PatternShape)
        ensures
            final(self).final_bindings@ == old(self).final_bindings@.union(bound_names(*pattern).to_set()),
            final(self).bindings@ == old(self).bindings@,
            final(self).binding_order@ == old(self).binding_order@,
            final(self).parent == old(self).parent,
    {
        let names = pattern_bound_names(pattern);
        let ghost views = names@.map_values(|s: String| s@);
        let mut k: usize = 0;
        proof {
            assert(views.take(0).to_set() =~= Set::<Seq<char>>::empty());
            assert(self.final_bindings@ =~= old(self).final_bindings@.union(views.take(0).to_set()));
        }
        while k < names.len()
            invariant
                k <= names@.len(),
                views == names@.map_values(|s: String| s@),
                views == bound_names(*pattern),
                self.final_bindings@ == old(self).final_bindings@.union(views.take(k as int).to_set()),
                self.bindings@ == old(self).bindings@,
                self.binding_order@ == old(self).binding_order@,
                self.parent == old(self).parent,
            decreases names@.len() - k,
        {
            self.mark_final(names[k].clone());
            proof {
                assert(views.take(k + 1) =~= views.take(k as int).push(views[k as int]));
                views.take(k as int).lemma_push_to_set_commute(views[k as int]);
                assert(views.take(k + 1).to_set() =~= views.take(k as int).to_set().insert(views[k as int]));
                assert(self.final_bindings@ =~= old(self).final_bindings@.union(views.take(k + 1).to_set()));
            }
            k += 1;
        }
        proof {
            assert(views.take(names@.len() as int) =~= views);
        }
    }

    /// Whether `name` is final in this scope or an enclosing one.
    pub fn is_final(&self, name: &str) -> (r: bool)
        ensures
            r == self.final_somewhere(name@),
        decreases self,
    {
        self.final_bindings.contains(name) || match &self.parent {
            Some(p) => p.is_final(name),
            None => false,
        }
    }

    /// `new` is `old` with `name` rebound to `value` in the nearest scope
    /// that binds it, every other binding, order and final mark unchanged.
    pub open spec fn assigned(old: Self, new: Self, name: Seq<char>, value: V) -> bool
        decreases old,
    {
        &&& new.binding_order@ == old.binding_order@
        &&& new.final_bindings@ == old.final_bindings@
        &&& if old.bindings@.contains_key(name) {
            new.bindings@ == old.bindings@.insert(name, value) && new.parent == old.parent
        } else {
            new.bindings@ == old.bindings@ && match (old.parent, new.parent) {
                (Some(op), Some(np)) => Self::assigned(*op, *np, name, value),
                (None, None) => true,
                _ => false,
            }
        }
    }

    /// Rebinds `name` to `value` in the nearest scope that binds it; `false`
    /// (and nothing changed) when no scope does.
    pub fn mutate(&mut self, name: &str, value: V) -> (r: bool)
        ensures
            r == old(self).lookup(name@) is Some,
            r ==> Self::assigned(*old(self), *final(self), name@, value),
            !r ==> *final(self) == *old(self),
        decreases *old(self),
    {
        if self.bindings.contains_key(name) {
            self.bindings.insert(String::from_str(name), value);
            true
        } else {
            match self.parent.take() {
                Some(mut p) => {
                    let r = (&mut *p).mutate(name, value);
                    self.parent = Some(p);
                    r
                },
                None => false,
            }
        }
    }

    /// Removes `name` from this scope: its binding, its place in the
    /// binding order and its final mark. Returns whether it was bound here.
    pub fn delete_local(&mut self, name: &str) -> (r: bool)
        ensures
            r == old(self).bindings@.contains_key(name@),
            final(self).bindings@ == old(self).bindings@.remove(name@),
            final(self).final_bindings@ == old(self).final_bindings@.remove(name@),
            r ==> order_names(final(self).binding_order@) == without_name(order_names(old(self).binding_order@), name@),
            !r ==> final(self).binding_order@ == old(self).binding_order@,
            final(self).parent == old(self).parent,
            old(self).wf() ==> final(self).wf(),
    {
        self.final_bindings.remove(name);
        let removed = self.bindings.contains_key(name);
        self.bindings.remove(name);
        let key = String::from_str(name);
        let mut kept: Vec<String> = Vec::new();
        let mut i: usize = 0;
        while i < self.binding_order.len()
            invariant
                i <= self.binding_order@.len(),
                self.binding_order@ == old(self).binding_order@,
                key@ == name@,
                order_names(kept@) == without_name(order_names(self.binding_order@.subrange(0, i as int)), name@),
            decreases self.binding_order@.len() - i,
        {
            proof {
                assert(self.binding_order@.subrange(0, i + 1).drop_last() =~= self.binding_order@.subrange(0, i as int));
                assert(order_names(self.binding_order@.subrange(0, i + 1)).drop_last()
                    =~= order_names(self.binding_order@.subrange(0, i as int)));
            }
            if !(self.binding_order[i] == key) {
                let bound = self.binding_order[i].clone();
                kept.push(bound);
                proof {
                    assert(order_names(kept@) =~= order_names(kept@.drop_last()).push(kept@.last()@));
                }
            }
            i += 1;
        }
        proof {
            assert(self.binding_order@.subrange(0, self.binding_order@.len() as int) =~= self.binding_order@);
        }
        if removed {
            self.binding_order = kept;
        }
        proof {
            if old(self).wf() {
                lemma_without_name_keeps(order_names(old(self).binding_order@), name@);
                if !removed {
                    assert(!order_names(old(self).binding_order@).contains(name@));
                }
            }
        }
        removed
    }
}

/// `names` without the entries equal to `name`.
pub open spec fn without_name(names: Seq<Seq<char>>, name: Seq<char>) -> Seq<Seq<char>>
    decreases names.len(),
{
    if names.len() == 0 {
        names
    } else if names.last() == name {
        without_name(names.drop_last(), name)
    } else {
        without_name(names.drop_last(), name).push(names.last())
    }
}

/// Dropping `name` keeps every other entry, once each.
proof fn lemma_without_name_keeps(names: Seq<Seq<char>>, name: Seq<char>)
    ensures
        forall|n: Seq<char>| #[trigger] without_name(names, name).contains(n) <==> (names.contains(n) && n != name),
        names.no_duplicates() ==> without_name(names, name).no_duplicates(),
    decreases names.len(),
{
    if names.len() > 0 {
        let rest = names.drop_last();
        lemma_without_name_keeps(rest, name);
        assert forall|n: Seq<char>| names.contains(n) <==> (rest.contains(n) || n == names.last()) by {
            if names.contains(n) {
                let i = choose|i: int| 0 <= i < names.len() && names[i] == n;
                if i < rest.len() {
                    assert(rest[i] == n);
                }
            }
            if rest.contains(n) {
                let i = choose|i: int| 0 <= i < rest.len() && rest[i] == n;
                assert(names[i] == n);
            }
            if n == names.last() {
                assert(names[names.len() - 1] == n);
            }
        }
        let w = without_name(rest, name);
        if names.last() != name {
            assert forall|n: Seq<char>| #[trigger] w.push(names.last()).contains(n) <==> (w.contains(n) || n == names.last()) by {
                if w.push(names.last()).contains(n) {
                    let i = choose|i: int| 0 <= i < w.len() + 1 && w.push(names.last())[i] == n;
                    if i < w.len() {
                        assert(w[i] == n);
                    }
                }
                if w.contains(n) {
                    let i = choose|i: int| 0 <= i < w.len() && w[i] == n;
                    assert(w.push(names.last())[i] == n);
                }
                if n == names.last() {
                    assert(w.push(names.last())[w.len() as int] == n);
                }
            }
            if names.no_duplicates() {
                assert(rest.no_duplicates());
                assert(!rest.contains(names.last())) by {
                    if rest.contains(names.last()) {
                        let i = choose|i: int| 0 <= i < rest.len() && rest[i] == names.last();
                        assert(names[i] == names[names.len() - 1]);
                    }
                }
                assert(!w.contains(names.last()));
                let ww = w.push(names.last());
                assert forall|i: int, j: int| 0 <= i < ww.len() && 0 <= j < ww.len() && i != j implies ww[i] != ww[j] by {
                    if i < w.len() && j < w.len() {
                        assert(ww[i] == w[i] && ww[j] == w[j]);
                    } else if i < w.len() {
                        assert(ww[i] == w[i]);
                        assert(w.contains(ww[i]));
                    } else if j < w.len() {
                        assert(ww[j] == w[j]);
                        assert(w.contains(ww[j]));
                    }
                }
            }
        } else {
            if names.no_duplicates() {
                assert(rest.no_duplicates());
            }
        }
    }
}

/// Reading a name back after `set` gives the value just bound, and every
/// other name reads as before.
pub proof fn law_set_then_lookup<V>(before: Environment<V>, after: Environment<V>, name: Seq<char>, value: V, other: Seq<char>)
    requires
        after.bindings@ == before.bindings@.insert(name, value),
        after.parent == before.parent,
    ensures
        after.lookup(name) == Some(value),
        other != name ==> after.lookup(other) == before.lookup(other),
{
}

/// After `delete_local` removes a name from a scope, reading it finds the
/// binding of an enclosing scope, if any.
pub proof fn law_delete_then_lookup<V>(before: Environment<V>, after: Environment<V>, name: Seq<char>)
    requires
        after.bindings@ == before.bindings@.remove(name),
        after.parent == before.parent,
    ensures
        after.lookup(name) == match before.parent {
            Some(p) => p.lookup(name),
            None => None,
        },
{
}

/// After `mutate` rebinds a name, reading it gives the new value, and every
/// other name reads as before.
pub proof fn law_mutate_then_lookup<V>(before: Environment<V>, after: Environment<V>, name: Seq<char>, value: V, other: Seq<char>)
    requires
        Environment::assigned(before, after, name, value),
        before.lookup(name) is Some,
    ensures
        after.lookup(name) == Some(value),
        other != name ==> after.lookup(other) == before.lookup(other),
    decreases before,
{
    if !before.bindings@.contains_key(name) {
        match (before.parent, after.parent) {
            (Some(bp), Some(ap)) => {
                law_mutate_then_lookup(*bp, *ap, name, value, other);
            },
            _ => {},
        }
    }
}

/// Scopes that share their enclosing scopes, as closures do: every scope
/// lives in the arena and names its enclosing scope by position, always
/// an earlier one, so a rebinding made through one scope is seen through
/// every scope enclosed by the one that holds the binding.
#[verifier::reject_recursive_types(V)]
pub struct ScopeArena<V> {
    /// The scopes' own bindings; none of them holds a parent itself.
    pub frames: Vec<Environment<V>>,
    /// The enclosing scope of each scope, by position.
    pub parents: Vec<Option<usize>>,
}

impl<V> ScopeArena<V> {
    /// Every scope has an enclosing scope before it, if any, and is a
    /// well-formed scope of its own.
    pub open spec fn wf(self) -> bool {
        &&& self.frames@.len() == self.parents@.len()
        &&& forall|i: int| 0 <= i < self.parents@.len() ==> (#[trigger] self.parents@[i] matches Some(p) ==> p < i)
        &&& forall|i: int| 0 <= i < self.frames@.len() ==> (#[trigger] self.frames@[i]).parent is None && self.frames@[i].wf()
    }

    /// The scope, from `s` outward, that binds `name`.
    pub open spec fn binder(self, s: nat, name: Seq<char>) -> Option<nat>
        decreases s,
    {
        if s >= self.frames@.len() {
            None
        } else if self.frames@[s as int].bindings@.contains_key(name) {
            Some(s)
        } else {
            match self.parents@[s as int] {
                Some(p) => if p < s { self.binder(p as nat, name) } else { None },
                None => None,
            }
        }
    }

    /// The value `name` has as seen from scope `s`.
    pub open spec fn lookup_in(self, s: nat, name: Seq<char>) -> Option<V> {
        match self.binder(s, name) {
            Some(b) => Some(self.frames@[b as int].bindings@[name]),
            None => None,
        }
    }

    /// An arena holding one outermost scope, at position 0, with no
    /// bindings.
    pub fn new() -> (a: Self)
        ensures
            a.wf(),
            a.frames@.len() == 1,
            a.parents@[0] is None,
            a.frames@[0].bindings@ == Map::<Seq<char>, V>::empty(),
    {
        let mut frames: Vec<Environment<V>> = Vec::new();
        frames.push(Environment::new());
        let mut parents: Vec<Option<usize>> = Vec::new();
        parents.push(None);
        ScopeArena { frames, parents }
    }

    /// Opens a new scope with no bindings, enclosed by scope `parent`, and
    /// gives its position.
    pub fn open(&mut self, parent: usize) -> (s: usize)
        requires
            old(self).wf(),
            parent < old(self).frames@.len(),
        ensures
            final(self).wf(),
            s == old(self).frames@.len(),
            final(self).frames@ == old(self).frames@.push(final(self).frames@[s as int]),
            final(self).parents@ == old(self).parents@.push(Some(parent)),
            final(self).frames@[s as int].bindings@ == Map::<Seq<char>, V>::empty(),
    {
        let s = self.frames.len();
        self.frames.push(Environment::new());
        self.parents.push(Some(parent));
        proof {
            assert forall|i: int| 0 <= i < self.frames@.len() implies (#[trigger] self.frames@[i]).parent is None && self.frames@[i].wf() by {
                if i < s {
                    assert(self.frames@[i] == old(self).frames@[i]);
                }
            }
            assert forall|i: int| 0 <= i < self.parents@.len() implies (#[trigger] self.parents@[i] matches Some(p) ==> p < i) by {
                if i < s {
                    assert(self.parents@[i] == old(self).parents@[i]);
                }
            }
        }
        s
    }

    /// The value of `name` as seen from scope `scope`.
    pub fn get(&self, scope: usize, name: &str) -> (r: Option<&V>)
        requires
            self.wf(),
            scope < self.frames@.len(),
        ensures
            r == match self.lookup_in(scope as nat, name@) {
                Some(v) => Some(&v),
                None => None::<&V>,
            },
    {
        let mut s = scope;
        loop
            invariant
                self.wf(),
                s < self.frames@.len(),
                self.binder(scope as nat, name@) == self.binder(s as nat, name@),
            decreases s,
        {
            match self.frames[s].bindings.get(name) {
                Some(v) => {
                    return Some(v);
                },
                None => {},
            }
            match self.parents[s] {
                Some(p) => {
                    proof {
                        assert(self.parents@[s as int] matches Some(q) && q < s);
                    }
                    s = p;
                },
                None => {
                    return None;
                },
            }
        }
    }

    /// Binds `name` to `value` in scope `scope` itself.
    pub fn set(&mut self, scope: usize, name: String, value: V)
        requires
            old(self).wf(),
            scope < old(self).frames@.len(),
        ensures
            final(self).wf(),
            final(self).parents@ == old(self).parents@,
            final(self).frames@.len() == old(self).frames@.len(),
            final(self).frames@[scope as int].bindings@ == old(self).frames@[scope as int].bindings@.insert(name@, value),
            forall|i: int| 0 <= i < old(self).frames@.len() && i != scope ==> #[trigger] final(self).frames@[i] == old(self).frames@[i],
    {
        proof {
            assert(self.frames@[scope as int].wf());
        }
        self.frames[scope].set(name, value);
        proof {
            assert forall|i: int| 0 <= i < self.frames@.len() implies (#[trigger] self.frames@[i]).parent is None && self.frames@[i].wf() by {
                if i != scope {
                    assert(self.frames@[i] == old(self).frames@[i]);
                }
            }
        }
    }

    /// `after` is this arena with `name` rebound to `value` in scope `b`
    /// only.
    pub open spec fn rebound(self, after: Self, b: nat, name: Seq<char>, value: V) -> bool {
        &&& after.parents@ == self.parents@
        &&& after.frames@.len() == self.frames@.len()
        &&& after.frames@[b as int].bindings@ == self.frames@[b as int].bindings@.insert(name, value)
        &&& forall|i: int| 0 <= i < self.frames@.len() && i != b ==> #[trigger] after.frames@[i] == self.frames@[i]
    }

    /// Rebinds `name` to `value` in the nearest scope, from `scope`
    /// outward, that binds it; `false` (and nothing changed) when none
    /// does.
    pub fn mutate(&mut self, scope: usize, name: &str, value: V) -> (r: bool)
        requires
            old(self).wf(),
            scope < old(self).frames@.len(),
        ensures
            final(self).wf(),
            r == old(self).binder(scope as nat, name@) is Some,
            r ==> old(self).rebound(*final(self), old(self).binder(scope as nat, name@)->Some_0, name@, value),
            !r ==> *final(self) == *old(self),
    {
        let mut s = scope;
        loop
            invariant
                self == old(self),
                self.wf(),
                s < self.frames@.len(),
                self.binder(scope as nat, name@) == self.binder(s as nat, name@),
            decreases s,
        {
            if self.frames[s].bindings.contains_key(name) {
                self.set(s, String::from_str(name), value);
                return true;
            }
            match self.parents[s] {
                Some(p) => {
                    proof {
                        assert(self.parents@[s as int] matches Some(q) && q < s);
                    }
                    s = p;
                },
                None => {
                    return false;
                },
            }
        }
    }
}

/// A rebinding in one scope is seen through every scope whose nearest
/// binding of the name is that scope, and nowhere else: every other
/// lookup, from every scope, is unchanged.
pub proof fn law_rebinding_is_shared<V>(before: ScopeArena<V>, after: ScopeArena<V>, b: nat, name: Seq<char>, value: V, s: nat, other: Seq<char>)
    requires
        before.wf(),
        b < before.frames@.len(),
        before.frames@[b as int].bindings@.contains_key(name),
        before.rebound(after, b, name, value),
    ensures
        after.binder(s, other) == before.binder(s, other),
        after.lookup_in(s, other) == if other == name && before.binder(s, name) == Some(b) {
            Some(value)
        } else {
            before.lookup_in(s, other)
        },
    decreases s,
{
    if s < before.frames@.len() {
        if s != b {
            assert(after.frames@[s as int] == before.frames@[s as int]);
        }
        if !before.frames@[s as int].bindings@.contains_key(other) {
            if let Some(p) = before.parents@[s as int] {
                if p < s {
                    law_rebinding_is_shared(before, after, b, name, value, p as nat, other);
                }
            }
        }
        if let Some(k) = before.binder(s, other) {
            lemma_binder_in_arena(before, s, other);
            if k != b {
                assert(after.frames@[k as int] == before.frames@[k as int]);
            }
        }
    }
}

/// The scope that binds a name is in the arena and binds it.
proof fn lemma_binder_in_arena<V>(a: ScopeArena<V>, s: nat, name: Seq<char>)
    ensures
        a.binder(s, name) matches Some(k) ==> k < a.frames@.len() && a.frames@[k as int].bindings@.contains_key(name),
    decreases s,
{
    if s < a.frames@.len() && !a.frames@[s as int].bindings@.contains_key(name) {
        if let Some(p) = a.parents@[s as int] {
            if p < s {
                lemma_binder_in_arena(a, p as nat, name);
            }
        }
    }
}

/// A name bound in a scope is seen there with the value just bound.
pub proof fn law_scope_set_then_lookup<V>(before: ScopeArena<V>, after: ScopeArena<V>, scope: nat, name: Seq<char>, value: V)
    requires
        before.wf(),
        scope < before.frames@.len(),
        before.rebound(after, scope, name, value),
    ensures
        after.lookup_in(scope, name) == Some(value),
{
}

} // verus!
