//! Module loading as a step function: which built-in module a name names,
//! where a relative module's file is looked for, and, for a file found,
//! whether the loader reuses the cached module, reports an initialization
//! cycle, or loads it. Reading, parsing and running the file are left to
//! the caller, which hands the results back.
use vstd::prelude::*;
use vstd::string::*;
use crate::error::RuntimeError;

verus! {

/// The modules the runtime provides itself.
#[derive(PartialEq, Eq, Structural, Clone, Copy, Debug)]
pub enum BuiltinModule {
    Math,
    Sys,
    Iteration,
    Time,
}

/// The built-in module a name names, if any.
pub open spec fn builtin_module_spec(name: Seq<char>) -> Option<BuiltinModule> {
    if name == "math"@ {
        Some(BuiltinModule::Math)
    } else if name == "sys"@ {
        Some(BuiltinModule::Sys)
    } else if name == "iteration"@ {
        Some(BuiltinModule::Iteration)
    } else if name == "time"@ {
        Some(BuiltinModule::Time)
    } else {
        None
    }
}

/// The built-in module `name` names, if any.
pub fn builtin_module(name: &str) -> (r: Option<BuiltinModule>)
    ensures
        r == builtin_module_spec(name@),
{
    let owned = String::from_str(name);
    if owned == String::from_str("math") {
        Some(BuiltinModule::Math)
    } else if owned == String::from_str("sys") {
        Some(BuiltinModule::Sys)
    } else if owned == String::from_str("iteration") {
        Some(BuiltinModule::Iteration)
    } else if owned == String::from_str("time") {
        Some(BuiltinModule::Time)
    } else {
        None
    }
}

/// How many dots a module name starts with.
pub open spec fn leading_dots(name: Seq<char>) -> nat
    decreases name.len(),
{
    if name.len() > 0 && name[0] == '.' {
        1 + leading_dots(name.drop_first())
    } else {
        0
    }
}

/// A module name's dots written as path separators.
pub open spec fn dots_to_slashes(name: Seq<char>) -> Seq<char> {
    name.map_values(|c: char| if c == '.' { '/' } else { c })
}

/// Where a module's file is looked for: the leading dots of its name, how
/// many directories up from the importing file's directory the search
/// starts, and the name's remaining path, relative to that directory.
pub struct ModulePath {
    pub dots: usize,
    pub ups: usize,
    pub rel_path: String,
}

/// `leading_dots` counted from position `i` on.
proof fn lemma_leading_dots_from(name: Seq<char>, i: int)
    requires
        0 <= i <= name.len(),
        forall|j: int| 0 <= j < i ==> name[j] == '.',
    ensures
        leading_dots(name) == i + leading_dots(name.skip(i)),
    decreases i,
{
    if i > 0 {
        assert(name[0] == '.');
        assert forall|j: int| 0 <= j < i - 1 implies name.drop_first()[j] == '.' by {
            assert(name.drop_first()[j] == name[j + 1]);
        }
        lemma_leading_dots_from(name.drop_first(), i - 1);
        assert(name.drop_first().skip(i - 1) =~= name.skip(i));
    } else {
        assert(name.skip(0) =~= name);
    }
}

/// Where the file of the module `name` is looked for.
pub fn module_location(name: &str) -> (r: ModulePath)
    ensures
        r.dots == leading_dots(name@),
        r.ups == if r.dots > 1 { r.dots - 1 } else { 0 },
        r.rel_path@ == dots_to_slashes(name@.skip(r.dots as int)),
{
    let len = name.unicode_len();
    let mut dots: usize = 0;
    while dots < len && name.get_char(dots) == '.'
        invariant
            len == name@.len(),
            dots <= len,
            forall|j: int| 0 <= j < dots ==> name@[j] == '.',
        decreases len - dots,
    {
        dots += 1;
    }
    proof {
        lemma_leading_dots_from(name@, dots as int);
        if dots < len {
            assert(name@.skip(dots as int)[0] == name@[dots as int]);
        }
    }
    let mut rel_path = String::new();
    let mut i: usize = dots;
    while i < len
        invariant
            len == name@.len(),
            dots <= i <= len,
            rel_path@ == dots_to_slashes(name@.subrange(dots as int, i as int)),
        decreases len - i,
    {
        let c = name.get_char(i);
        if c == '.' {
            proof {
                reveal_strlit("/");
            }
            rel_path.append("/");
        } else {
            let piece = name.substring_char(i, i + 1);
            proof {
                assert(piece@ =~= seq![c]);
            }
            rel_path.append(piece);
        }
        proof {
            assert(name@.subrange(dots as int, i + 1) =~= name@.subrange(dots as int, i as int).push(c));
            assert(dots_to_slashes(name@.subrange(dots as int, i + 1))
                =~= dots_to_slashes(name@.subrange(dots as int, i as int)).push(if c == '.' { '/' } else { c }));
        }
        i += 1;
    }
    proof {
        assert(name@.subrange(dots as int, len as int) =~= name@.skip(dots as int));
    }
    let ups = if dots > 1 { dots - 1 } else { 0 };
    ModulePath { dots, ups, rel_path }
}

/// The files tried for a module at `rel_path`, in order.
pub open spec fn candidate_files_spec(rel_path: Seq<char>) -> Seq<Seq<char>> {
    seq![rel_path + ".lucid"@, rel_path + "/mod.lucid"@, rel_path + "/__init__.lucid"@]
}

/// The files tried for a module at `rel_path`, in order: the file of that
/// name, then the directory's `mod` file, then its `__init__` file.
pub fn candidate_files(rel_path: &str) -> (r: Vec<String>)
    ensures
        r@.map_values(|s: String| s@) == candidate_files_spec(rel_path@),
{
    let mut plain = String::from_str(rel_path);
    plain.append(".lucid");
    let mut module_file = String::from_str(rel_path);
    module_file.append("/mod.lucid");
    let mut init_file = String::from_str(rel_path);
    init_file.append("/__init__.lucid");
    let mut r: Vec<String> = Vec::new();
    r.push(plain);
    r.push(module_file);
    r.push(init_file);
    proof {
        assert(r@.map_values(|s: String| s@) =~= candidate_files_spec(rel_path@));
    }
    r
}

/// What a statement of a module is, as far as the loader asks.
#[derive(PartialEq, Eq, Structural, Clone, Copy, Debug)]
pub enum StatementKind {
    ClassDef,
    InterfaceDef,
    TraitDef,
    ImplementDef,
    TypeAlias,
    Function,
    Import,
    FromImport,
    Pass,
    Break,
    Continue,
    /// A variable declared without a value.
    VarDecl,
    /// A variable declared with a value, or any other statement.
    Other,
}

/// Whether a statement only declares.
pub open spec fn is_declaration(k: StatementKind) -> bool {
    k != StatementKind::Other
}

/// Whether a module only declares: every statement is a declaration.
/// Such modules may import each other in a cycle.
pub fn declaration_only(kinds: &Vec<StatementKind>) -> (r: bool)
    ensures
        r == forall|i: int| 0 <= i < kinds@.len() ==> is_declaration(#[trigger] kinds@[i]),
{
    let mut i: usize = 0;
    while i < kinds.len()
        invariant
            i <= kinds@.len(),
            forall|j: int| 0 <= j < i ==> is_declaration(#[trigger] kinds@[j]),
        decreases kinds.len() - i,
    {
        if kinds[i] == StatementKind::Other {
            return false;
        }
        i += 1;
    }
    true
}

/// The names of a sequence of strings.
pub open spec fn names(v: Seq<String>) -> Seq<Seq<char>> {
    v.map_values(|s: String| s@)
}

/// The modules loaded so far, by file path, in the order they were
/// cached; each path occurs once.
pub struct ModuleCache<M> {
    pub entries: Vec<(String, M)>,
}

impl<M> ModuleCache<M> {
    /// The cached paths, in order.
    pub open spec fn paths(&self) -> Seq<Seq<char>> {
        self.entries@.map_values(|e: (String, M)| e.0@)
    }

    /// No path is cached twice.
    pub open spec fn wf(&self) -> bool {
        forall|i: int, j: int| 0 <= i < j < self.paths().len() ==> self.paths()[i] != self.paths()[j]
    }

    /// An empty cache.
    pub fn new() -> (c: Self)
        ensures
            c.paths().len() == 0,
            c.wf(),
    {
        ModuleCache { entries: Vec::new() }
    }

    /// The position of `path` in the cache.
    pub fn position(&self, path: &str) -> (r: Option<usize>)
        ensures
            match r {
                Some(i) => i < self.paths().len() && self.paths()[i as int] == path@,
                None => !self.paths().contains(path@),
            },
    {
        let key = String::from_str(path);
        let mut i: usize = 0;
        while i < self.entries.len()
            invariant
                i <= self.entries@.len(),
                key@ == path@,
                forall|j: int| 0 <= j < i ==> self.paths()[j] != path@,
            decreases self.entries.len() - i,
        {
            if self.entries[i].0 == key {
                return Some(i);
            }
            i += 1;
        }
        None
    }

    /// Caches `module` under `path`, in place of any module cached there.
    pub fn insert(&mut self, path: String, module: M)
        requires
            old(self).wf(),
        ensures
            final(self).wf(),
            final(self).paths().contains(path@),
            forall|p: Seq<char>| p != path@ ==> (final(self).paths().contains(p) <==> old(self).paths().contains(p)),
            forall|i: int| 0 <= i < final(self).paths().len() && final(self).paths()[i] == path@
                ==> final(self).entries@[i].1 == module,
            forall|i: int, j: int| 0 <= i < final(self).paths().len() && 0 <= j < old(self).paths().len()
                && final(self).paths()[i] == old(self).paths()[j] && old(self).paths()[j] != path@
                ==> final(self).entries@[i].1 == old(self).entries@[j].1,
    {
        match self.position(path.as_str()) {
            Some(i) => {
                let ghost before = self.paths();
                self.entries.set(i, (path, module));
                proof {
                    assert(self.paths() =~= before.update(i as int, before[i as int]));
                    assert forall|p: Seq<char>| p != before[i as int] implies
                        (self.paths().contains(p) <==> before.contains(p)) by {
                        if before.contains(p) {
                            let j = choose|j: int| 0 <= j < before.len() && before[j] == p;
                            assert(self.paths()[j] == p);
                        }
                    }
                    assert(self.paths()[i as int] == before[i as int]);
                }
            },
            None => {
                let ghost before = self.paths();
                self.entries.push((path, module));
                proof {
                    assert(self.paths() =~= before.push(path@));
                    assert(self.paths()[before.len() as int] == path@);
                    assert forall|p: Seq<char>| p != path@ implies
                        (self.paths().contains(p) <==> before.contains(p)) by {
                        if before.contains(p) {
                            let j = choose|j: int| 0 <= j < before.len() && before[j] == p;
                            assert(self.paths()[j] == p);
                        }
                        if self.paths().contains(p) {
                            let j = choose|j: int| 0 <= j < self.paths().len() && self.paths()[j] == p;
                            assert(before[j] == p);
                        }
                    }
                }
            },
        }
    }

    /// Drops the module cached under `path`, if any.
    pub fn remove(&mut self, path: &str)
        requires
            old(self).wf(),
        ensures
            final(self).wf(),
            !final(self).paths().contains(path@),
            forall|p: Seq<char>| p != path@ ==> (final(self).paths().contains(p) <==> old(self).paths().contains(p)),
    {
        match self.position(path) {
            Some(i) => {
                let ghost before = self.paths();
                self.entries.remove(i);
                proof {
                    assert(self.paths() =~= before.remove(i as int));
                    assert forall|p: Seq<char>| p != path@ implies
                        (self.paths().contains(p) <==> before.contains(p)) by {
                        if before.contains(p) {
                            let j = choose|j: int| 0 <= j < before.len() && before[j] == p;
                            if j < i {
                                assert(self.paths()[j] == p);
                            } else {
                                assert(self.paths()[j - 1] == p);
                            }
                        }
                        if self.paths().contains(p) {
                            let j = choose|j: int| 0 <= j < self.paths().len() && self.paths()[j] == p;
                            if j < i {
                                assert(before[j] == p);
                            } else {
                                assert(before[j + 1] == p);
                            }
                        }
                    }
                    if self.paths().contains(path@) {
                        let j = choose|j: int| 0 <= j < self.paths().len() && self.paths()[j] == path@;
                        if j < i {
                            assert(before[j] == path@);
                        } else {
                            assert(before[j + 1] == path@);
                        }
                    }
                }
            },
            None => {},
        }
    }
}

/// What the loader does with a module file it found.
pub enum ModuleAction {
    /// Reuse the module cached at this position.
    UseCached(usize),
    /// The module is cached but still loading: it may be reused only if it
    /// only declares. The caller reads it, classifies its statements and
    /// asks `cycle_step`.
    CheckCycle(usize),
    /// Read, parse and run the file.
    Load,
}

/// What the loader does with the module file at `path`, given the cache
/// and the modules whose loading is under way.
pub fn module_step<M>(cache: &ModuleCache<M>, loading: &Vec<String>, path: &str) -> (a: ModuleAction)
    ensures
        match a {
            ModuleAction::UseCached(i) => i < cache.paths().len() && cache.paths()[i as int] == path@
                && !names(loading@).contains(path@),
            ModuleAction::CheckCycle(i) => i < cache.paths().len() && cache.paths()[i as int] == path@
                && names(loading@).contains(path@),
            ModuleAction::Load => !cache.paths().contains(path@),
        },
{
    match cache.position(path) {
        None => ModuleAction::Load,
        Some(i) => {
            let key = String::from_str(path);
            let mut j: usize = 0;
            while j < loading.len()
                invariant
                    j <= loading@.len(),
                    key@ == path@,
                    i < cache.paths().len(),
                    cache.paths()[i as int] == path@,
                    forall|k: int| 0 <= k < j ==> names(loading@)[k] != path@,
                decreases loading.len() - j,
            {
                if loading[j] == key {
                    proof {
                        assert(names(loading@)[j as int] == path@);
                        assert(names(loading@).contains(path@));
                    }
                    return ModuleAction::CheckCycle(i);
                }
                j += 1;
            }
            ModuleAction::UseCached(i)
        },
    }
}

/// The error for a module reached again while it initializes.
pub open spec fn cyclic_message(path: Seq<char>) -> Seq<char> {
    "cyclic module initialization involving '"@ + path + "'"@
}

/// A module reached again while it is still loading: reused when it only
/// declares, an initialization cycle otherwise.
pub fn cycle_step(path: &str, index: usize, declarations_only: bool) -> (r: Result<usize, RuntimeError>)
    ensures
        match r {
            Ok(i) => declarations_only && i == index,
            Err(e) => !declarations_only && e.message@ == cyclic_message(path@),
        },
{
    if declarations_only {
        Ok(index)
    } else {
        let mut message = String::from_str("cyclic module initialization involving '");
        message.append(path);
        message.append("'");
        Err(RuntimeError { message })
    }
}

/// Ends the loading of the module at `path` with the outcome of running
/// it: the path leaves the modules under way either way; on success the
/// module is cached under the path, whose cache position is returned; on
/// failure the placeholder cached for it is dropped and the error returned.
pub fn finish_module_run<M>(
    cache: &mut ModuleCache<M>,
    loading: &mut Vec<String>,
    path: String,
    outcome: Result<M, RuntimeError>,
) -> (r: Result<usize, RuntimeError>)
    requires
        old(cache).wf(),
    ensures
        final(cache).wf(),
        !names(final(loading)@).contains(path@),
        forall|p: Seq<char>| p != path@ ==> (names(final(loading)@).contains(p) <==> names(old(loading)@).contains(p)),
        forall|p: Seq<char>| p != path@ ==> (final(cache).paths().contains(p) <==> old(cache).paths().contains(p)),
        match (outcome, r) {
            (Ok(m), Ok(i)) => i < final(cache).paths().len() && final(cache).paths()[i as int] == path@
                && final(cache).entries@[i as int].1 == m,
            (Err(e), Err(e2)) => e2 == e && !final(cache).paths().contains(path@),
            _ => false,
        },
{
    finish_loading(loading, path.as_str());
    match outcome {
        Err(e) => {
            cache.remove(path.as_str());
            Err(e)
        },
        Ok(module) => {
            let key = path.clone();
            cache.insert(path, module);
            match cache.position(key.as_str()) {
                Some(i) => Ok(i),
                None => {
                    proof {
                        assert(false);
                    }
                    Ok(0)
                },
            }
        },
    }
}

/// Records that loading the module at `path` is under way.
pub fn start_loading(loading: &mut Vec<String>, path: &str)
    ensures
        names(final(loading)@).contains(path@),
        forall|p: Seq<char>| p != path@ ==> (names(final(loading)@).contains(p) <==> names(old(loading)@).contains(p)),
{
    let key = String::from_str(path);
    let mut i: usize = 0;
    while i < loading.len()
        invariant
            i <= loading@.len(),
            key@ == path@,
            forall|j: int| 0 <= j < i ==> names(loading@)[j] != path@,
        decreases loading.len() - i,
    {
        if loading[i] == key {
            proof {
                assert(names(loading@)[i as int] == path@);
            }
            return;
        }
        i += 1;
    }
    let ghost before = names(loading@);
    loading.push(key);
    proof {
        assert(names(loading@) =~= before.push(path@));
        assert(names(loading@)[before.len() as int] == path@);
        assert forall|p: Seq<char>| p != path@ implies
            (names(loading@).contains(p) <==> before.contains(p)) by {
            if before.contains(p) {
                let j = choose|j: int| 0 <= j < before.len() && before[j] == p;
                assert(names(loading@)[j] == p);
            }
            if names(loading@).contains(p) {
                let j = choose|j: int| 0 <= j < names(loading@).len() && names(loading@)[j] == p;
                assert(before[j] == p);
            }
        }
    }
}

/// Records that loading the module at `path` is over, whether it
/// succeeded or failed.
pub fn finish_loading(loading: &mut Vec<String>, path: &str)
    ensures
        !names(final(loading)@).contains(path@),
        forall|p: Seq<char>| p != path@ ==> (names(final(loading)@).contains(p) <==> names(old(loading)@).contains(p)),
{
    let key = String::from_str(path);
    let ghost before = names(loading@);
    let mut kept: Vec<String> = Vec::new();
    let mut i: usize = 0;
    while i < loading.len()
        invariant
            i <= loading@.len(),
            key@ == path@,
            before == names(loading@),
            !names(kept@).contains(path@),
            forall|p: Seq<char>| p != path@ ==> (names(kept@).contains(p) <==> before.take(i as int).contains(p)),
        decreases loading.len() - i,
    {
        let ghost old_kept = names(kept@);
        let ghost item = before[i as int];
        proof {
            assert(before.take(i + 1) =~= before.take(i as int).push(item));
        }
        let keep = loading[i] != key;
        if keep {
            kept.push(loading[i].clone());
            proof {
                assert(names(kept@) =~= old_kept.push(item));
            }
        }
        proof {
            let now = names(kept@);
            assert(item == loading@[i as int]@);
            assert(keep ==> now == old_kept.push(item));
            assert(!keep ==> now == old_kept && item == path@);
            assert forall|p: Seq<char>| p != path@ implies
                (now.contains(p) <==> before.take(i + 1).contains(p)) by {
                if before.take(i + 1).contains(p) {
                    let j = choose|j: int| 0 <= j < before.take(i + 1).len() && #[trigger] before.take(i + 1)[j] == p;
                    if j < i {
                        assert(before.take(i as int)[j] == p);
                        assert(before.take(i as int).contains(p));
                        assert(old_kept.contains(p));
                        let k = choose|k: int| 0 <= k < old_kept.len() && #[trigger] old_kept[k] == p;
                        assert(now[k] == p);
                    } else {
                        assert(item == p);
                        assert(now[now.len() - 1] == p);
                    }
                }
                if now.contains(p) {
                    let j = choose|j: int| 0 <= j < now.len() && #[trigger] now[j] == p;
                    if j < old_kept.len() {
                        assert(old_kept[j] == p);
                        assert(old_kept.contains(p));
                        assert(before.take(i as int).contains(p));
                        let k = choose|k: int| 0 <= k < before.take(i as int).len() && #[trigger] before.take(i as int)[k] == p;
                        assert(before.take(i + 1)[k] == p);
                    } else {
                        assert(before.take(i + 1)[i as int] == p);
                    }
                }
            }
            if now.contains(path@) {
                let j = choose|j: int| 0 <= j < now.len() && #[trigger] now[j] == path@;
                if j < old_kept.len() {
                    assert(old_kept[j] == path@);
                }
            }
        }
        i += 1;
    }
    proof {
        assert(before.take(before.len() as int) =~= before);
    }
    *loading = kept;
}

} // verus!
