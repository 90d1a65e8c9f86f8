//! Gather parameters: what collects the arguments left over after the
//! ordinary parameters are bound. An argument bundle (`Arguments`,
//! `Parameters` and the classes named like them) keeps them as they come;
//! any other class fills its fields from them, by name or else in order.
use vstd::prelude::*;
use vstd::string::*;
use crate::error::{RuntimeError, runtime_error};
use crate::classes::{ClassDef, class_index, layout_walk, names_view, find_class, class_field_layout};

verus! {

/// What a gather parameter builds.
#[derive(PartialEq, Eq, Structural, Clone, Copy, Debug)]
pub enum GatherTarget {
    /// A bundle of the positional and keyword arguments; with `pargs`, it
    /// also carries an empty list of plain positional arguments.
    Bundle { with_pargs: bool },
    /// An instance of a declared class.
    Class,
}

/// `suffix` ends `s`.
pub open spec fn ends_with_text(s: Seq<char>, suffix: Seq<char>) -> bool {
    suffix.len() <= s.len() && s.subrange(s.len() - suffix.len(), s.len() as int) == suffix
}

/// What a gather parameter annotated with the class `class_name` builds.
pub open spec fn gather_target_of(class_name: Seq<char>) -> GatherTarget {
    if ends_with_text(class_name, "Arguments"@) || ends_with_text(class_name, "Parameters"@) {
        GatherTarget::Bundle { with_pargs: ends_with_text(class_name, "Parameters"@) }
    } else {
        GatherTarget::Class
    }
}

/// Whether `suffix` ends `s`.
pub fn ends_with(s: &str, suffix: &str) -> (r: bool)
    ensures
        r == ends_with_text(s@, suffix@),
{
    let n = s.unicode_len();
    let m = suffix.unicode_len();
    if m > n {
        return false;
    }
    let offset = n - m;
    let mut i: usize = 0;
    while i < m
        invariant
            m == suffix@.len(),
            n == s@.len(),
            offset == n - m,
            i <= m,
            forall|j: int| 0 <= j < i ==> suffix@[j] == s@[offset + j],
        decreases m - i,
    {
        if suffix.get_char(i) != s.get_char(offset + i) {
            proof {
                assert(s@.subrange(offset as int, n as int)[i as int] == s@[offset + i]);
            }
            return false;
        }
        i += 1;
    }
    proof {
        assert(s@.subrange(offset as int, n as int) =~= suffix@);
    }
    true
}

/// What a gather parameter annotated with the class `class_name` builds
/// (a parameter without a class annotation gathers into `Arguments`).
pub fn gather_target(class_name: &str) -> (r: GatherTarget)
    ensures
        r == gather_target_of(class_name@),
{
    let arguments = ends_with(class_name, "Arguments");
    let parameters = ends_with(class_name, "Parameters");
    if arguments || parameters {
        GatherTarget::Bundle { with_pargs: parameters }
    } else {
        GatherTarget::Class
    }
}

/// Where a gathered field takes its value from.
#[derive(PartialEq, Eq, Structural, Clone, Copy, Debug)]
pub enum GatherSource {
    /// The keyword argument of the field's name.
    Keyword,
    /// The positional argument at this position among those left over.
    Positional(usize),
}

/// A keyword argument named `name` is among `keywords`.
pub open spec fn has_keyword(keywords: Seq<Seq<char>>, name: Seq<char>) -> bool {
    keywords.contains(name)
}

/// How many of the first `j` fields take a positional argument: those
/// that no keyword names.
pub open spec fn positional_taken(names: Seq<Seq<char>>, keywords: Seq<Seq<char>>, j: int) -> int
    decreases j,
{
    if j <= 0 {
        0
    } else if has_keyword(keywords, names[j - 1]) {
        positional_taken(names, keywords, j - 1)
    } else {
        positional_taken(names, keywords, j - 1) + 1
    }
}

/// Field `j` takes a positional argument that is not there.
pub open spec fn field_missing(names: Seq<Seq<char>>, keywords: Seq<Seq<char>>, positional: int, j: int) -> bool {
    !has_keyword(keywords, names[j]) && positional_taken(names, keywords, j) >= positional
}

/// The first of the first `n` fields whose argument is missing.
pub open spec fn first_missing(names: Seq<Seq<char>>, keywords: Seq<Seq<char>>, positional: int, n: int) -> Option<int>
    decreases n,
{
    if n <= 0 {
        None
    } else {
        match first_missing(names, keywords, positional, n - 1) {
            Some(j) => Some(j),
            None => if field_missing(names, keywords, positional, n - 1) { Some(n - 1) } else { None },
        }
    }
}

/// The number of different texts in `s`.
pub open spec fn distinct_count(s: Seq<Seq<char>>) -> nat
    decreases s.len(),
{
    if s.len() == 0 {
        0
    } else {
        distinct_count(s.drop_last()) + if s.drop_last().contains(s.last()) { 0nat } else { 1nat }
    }
}

/// Where field `j` takes its value from.
pub open spec fn source_of(names: Seq<Seq<char>>, keywords: Seq<Seq<char>>, j: int) -> GatherSource {
    if has_keyword(keywords, names[j]) {
        GatherSource::Keyword
    } else {
        GatherSource::Positional(positional_taken(names, keywords, j) as usize)
    }
}

/// The error for a gathered field without an argument.
pub open spec fn missing_gathered_message(name: Seq<char>) -> Seq<char> {
    "missing gathered argument '"@ + name + "'"@
}

/// What gathering the fields `names` of a class with the members
/// `member_keys` gives, from the keyword arguments `keywords` and
/// `positional` positional arguments: the source of each field, or the
/// error message.
pub open spec fn gather_outcome(
    names: Seq<Seq<char>>,
    member_keys: Seq<Seq<char>>,
    keywords: Seq<Seq<char>>,
    positional: int,
) -> Result<Seq<GatherSource>, Seq<char>> {
    match first_missing(names, keywords, positional, names.len() as int) {
        Some(j) => Err(missing_gathered_message(names[j])),
        None => if positional_taken(names, keywords, names.len() as int) != positional
            || distinct_count(member_keys + names) < names.len() {
            Err("too many arguments for gathered class"@)
        } else {
            Ok(Seq::new(names.len(), |j: int| source_of(names, keywords, j)))
        },
    }
}

/// Whether some keyword argument is named `name`.
fn keyword_given(keywords: &[String], name: &String) -> (r: bool)
    ensures
        r == has_keyword(names_view(keywords@), name@),
{
    let mut k: usize = 0;
    while k < keywords.len()
        invariant
            k <= keywords@.len(),
            forall|j: int| 0 <= j < k ==> (#[trigger] keywords@[j])@ != name@,
        decreases keywords@.len() - k,
    {
        if keywords[k] == *name {
            proof {
                assert(names_view(keywords@)[k as int] == name@);
            }
            return true;
        }
        k += 1;
    }
    proof {
        if names_view(keywords@).contains(name@) {
            let t = choose|t: int| 0 <= t < keywords@.len() && names_view(keywords@)[t] == name@;
            assert(keywords@[t]@ == name@);
        }
    }
    false
}

/// A missing field found among the first `n` stays the first among more.
proof fn lemma_first_missing_stays(names: Seq<Seq<char>>, keywords: Seq<Seq<char>>, positional: int, n: int, m: int)
    requires
        0 <= n <= m,
        first_missing(names, keywords, positional, n) is Some,
    ensures
        first_missing(names, keywords, positional, m) == first_missing(names, keywords, positional, n),
    decreases m - n,
{
    if n < m {
        lemma_first_missing_stays(names, keywords, positional, n, m - 1);
    }
}

/// No field is missing among the first `n` when none of them is.
proof fn lemma_none_missing(names: Seq<Seq<char>>, keywords: Seq<Seq<char>>, positional: int, n: int)
    requires
        0 <= n,
        forall|j: int| 0 <= j < n ==> !field_missing(names, keywords, positional, j),
    ensures
        first_missing(names, keywords, positional, n) is None,
    decreases n,
{
    if n > 0 {
        lemma_none_missing(names, keywords, positional, n - 1);
    }
}

/// A leading part of a sequence has no more different texts than the
/// whole.
proof fn lemma_distinct_prefix(s: Seq<Seq<char>>, i: int)
    requires
        0 <= i <= s.len(),
    ensures
        distinct_count(s.take(i)) <= distinct_count(s),
    decreases s.len() - i,
{
    if i < s.len() {
        lemma_distinct_prefix(s, i + 1);
        assert(s.take(i + 1).drop_last() =~= s.take(i));
    } else {
        assert(s.take(i) =~= s);
    }
}

/// Whether `x` is among the first `end` strings of `v`.
fn seen_in(v: &[String], end: usize, x: &String) -> (r: bool)
    requires
        end <= v@.len(),
    ensures
        r == names_view(v@).take(end as int).contains(x@),
{
    let mut j: usize = 0;
    while j < end
        invariant
            end <= v@.len(),
            j <= end,
            forall|t: int| 0 <= t < j ==> (#[trigger] v@[t])@ != x@,
        decreases end - j,
    {
        if v[j] == *x {
            proof {
                assert(names_view(v@).take(end as int)[j as int] == x@);
            }
            return true;
        }
        j += 1;
    }
    proof {
        if names_view(v@).take(end as int).contains(x@) {
            let t = choose|t: int| 0 <= t < end && names_view(v@).take(end as int)[t] == x@;
            assert(v@[t]@ == x@);
        }
    }
    false
}

/// Whether `a` followed by `b` holds at least `bound` different texts.
fn distinct_reaches(a: &[String], b: &[String], bound: usize) -> (r: bool)
    ensures
        r == (distinct_count(names_view(a@) + names_view(b@)) >= bound),
{
    let ghost all = names_view(a@) + names_view(b@);
    if bound == 0 {
        return true;
    }
    let mut count: usize = 0;
    let mut i: usize = 0;
    proof {
        assert(all.take(0) =~= Seq::<Seq<char>>::empty());
    }
    while i < a.len()
        invariant
            all == names_view(a@) + names_view(b@),
            i <= a@.len(),
            count == distinct_count(all.take(i as int)),
            count < bound,
        decreases a@.len() - i,
    {
        let seen = seen_in(a, i, &a[i]);
        proof {
            assert(all.take(i + 1).drop_last() =~= all.take(i as int));
            assert(all.take(i + 1).last() == a@[i as int]@);
            assert(all.take(i as int) =~= names_view(a@).take(i as int));
        }
        if !seen {
            count += 1;
            if count == bound {
                proof {
                    lemma_distinct_prefix(all, i + 1);
                }
                return true;
            }
        }
        i += 1;
    }
    let mut j: usize = 0;
    while j < b.len()
        invariant
            all == names_view(a@) + names_view(b@),
            i == a@.len(),
            j <= b@.len(),
            count == distinct_count(all.take(a@.len() + j)),
            count < bound,
        decreases b@.len() - j,
    {
        let x = &b[j];
        let in_a = seen_in(a, a.len(), x);
        let in_b = seen_in(b, j, x);
        proof {
            let n = a@.len() as int;
            let p = all.take(n + j);
            let q = all.take(n + j + 1);
            assert(q.drop_last() =~= p);
            assert(q.last() == x@);
            assert(p =~= names_view(a@).take(n) + names_view(b@).take(j as int));
            if p.contains(x@) {
                let t = choose|t: int| 0 <= t < p.len() && p[t] == x@;
                if t < n {
                    assert(names_view(a@).take(n)[t] == x@);
                } else {
                    assert(names_view(b@).take(j as int)[t - n] == x@);
                }
            }
            if in_a {
                let t = choose|t: int| 0 <= t < n && names_view(a@).take(n)[t] == x@;
                assert(p[t] == x@);
            }
            if in_b {
                let t = choose|t: int| 0 <= t < j && names_view(b@).take(j as int)[t] == x@;
                assert(p[n + t] == x@);
            }
        }
        if !in_a && !in_b {
            count += 1;
            if count == bound {
                proof {
                    lemma_distinct_prefix(all, a@.len() + j + 1);
                }
                return true;
            }
        }
        j += 1;
    }
    proof {
        assert(all.take((a@.len() + b@.len()) as int) =~= all);
    }
    false
}

/// The sources of a gathered class's fields, in layout order: each field
/// takes the keyword argument of its name if there is one, and otherwise
/// the next positional argument left over. `member_keys` are the keys the
/// class's methods, getters and setters hold in the instance; `keywords`
/// are the names of the keyword arguments left over, `positional` the
/// number of positional ones. A field without an argument is an error (the
/// first such field); so are positional arguments left unused, and fields
/// that share a key with another field or member more than the instance
/// can hold.
pub fn gather_sources(names: &[String], member_keys: &[String], keywords: &[String], positional: usize)
    -> (r: Result<Vec<GatherSource>, RuntimeError>)
    ensures
        match gather_outcome(names_view(names@), names_view(member_keys@), names_view(keywords@), positional as int) {
            Ok(sources) => r matches Ok(v) && v@ == sources,
            Err(message) => r is Err && r->Err_0.message@ == message,
        },
{
    let ghost ns = names_view(names@);
    let ghost ks = names_view(keywords@);
    let mut sources: Vec<GatherSource> = Vec::new();
    let mut index: usize = 0;
    let mut j: usize = 0;
    while j < names.len()
        invariant
            ns == names_view(names@),
            ks == names_view(keywords@),
            j <= names@.len(),
            index as int == positional_taken(ns, ks, j as int),
            index <= positional,
            sources@.len() == j,
            forall|t: int| 0 <= t < j ==> !field_missing(ns, ks, positional as int, t),
            forall|t: int| 0 <= t < j ==> #[trigger] sources@[t] == source_of(ns, ks, t),
        decreases names@.len() - j,
    {
        if keyword_given(keywords, &names[j]) {
            sources.push(GatherSource::Keyword);
        } else {
            if index >= positional {
                proof {
                    assert(field_missing(ns, ks, positional as int, j as int));
                    lemma_none_missing(ns, ks, positional as int, j as int);
                    lemma_first_missing_stays(ns, ks, positional as int, j + 1, names@.len() as int);
                }
                let mut message = String::from_str("missing gathered argument '");
                message.append(names[j].as_str());
                message.append("'");
                return Err(RuntimeError { message });
            }
            sources.push(GatherSource::Positional(index));
            index += 1;
        }
        j += 1;
    }
    proof {
        lemma_none_missing(ns, ks, positional as int, names@.len() as int);
    }
    if index != positional {
        return Err(runtime_error("too many arguments for gathered class"));
    }
    if !distinct_reaches(member_keys, names, names.len()) {
        return Err(runtime_error("too many arguments for gathered class"));
    }
    proof {
        assert(sources@ =~= Seq::new(ns.len(), |t: int| source_of(ns, ks, t)));
    }
    Ok(sources)
}

/// Counting positional arguments never goes down.
proof fn lemma_taken_monotone(names: Seq<Seq<char>>, keywords: Seq<Seq<char>>, i: int, j: int)
    requires
        0 <= i <= j,
    ensures
        positional_taken(names, keywords, i) <= positional_taken(names, keywords, j),
    decreases j - i,
{
    if i < j {
        lemma_taken_monotone(names, keywords, i, j - 1);
    }
}

/// Every count below the number taken by the first `n` fields is the
/// position taken by one of them.
proof fn lemma_taken_reaches(names: Seq<Seq<char>>, keywords: Seq<Seq<char>>, n: int, p: int)
    requires
        0 <= n,
        0 <= p < positional_taken(names, keywords, n),
    ensures
        exists|j: int| 0 <= j < n && !has_keyword(keywords, names[j]) && #[trigger] positional_taken(names, keywords, j) == p,
    decreases n,
{
    if n > 0 {
        if p < positional_taken(names, keywords, n - 1) {
            lemma_taken_reaches(names, keywords, n - 1, p);
        } else {
            assert(!has_keyword(keywords, names[n - 1]));
            assert(positional_taken(names, keywords, n - 1) == p);
        }
    }
}

/// Some field takes the positional argument at position `p`.
pub open spec fn position_taken(sources: Seq<GatherSource>, p: int) -> bool {
    exists|j: int| 0 <= j < sources.len() && #[trigger] sources[j] == GatherSource::Positional(p as usize)
}

/// When gathering succeeds, the positional arguments are taken in order,
/// each by exactly one field: the fields that take one take positions
/// 0, 1, 2, ... one after the other, and every position is taken.
pub proof fn law_gather_takes_positionals_in_order(
    names: Seq<Seq<char>>,
    member_keys: Seq<Seq<char>>,
    keywords: Seq<Seq<char>>,
    positional: usize,
)
    requires
        gather_outcome(names, member_keys, keywords, positional as int) is Ok,
    ensures
        ({
            let sources = gather_outcome(names, member_keys, keywords, positional as int)->Ok_0;
            &&& forall|p: int| 0 <= p < positional ==> #[trigger] position_taken(sources, p)
            &&& forall|i: int, j: int| 0 <= i < j < sources.len() && sources[i] is Positional && sources[j] is Positional
                ==> (#[trigger] sources[i])->Positional_0 < (#[trigger] sources[j])->Positional_0
        }),
{
    let n = names.len() as int;
    let sources = gather_outcome(names, member_keys, keywords, positional as int)->Ok_0;
    assert(positional_taken(names, keywords, n) == positional);
    assert forall|p: int| 0 <= p < positional implies #[trigger] position_taken(sources, p) by {
        lemma_taken_reaches(names, keywords, n, p);
        let j = choose|j: int| 0 <= j < n && !has_keyword(keywords, names[j]) && #[trigger] positional_taken(names, keywords, j) == p;
        assert(sources[j] == source_of(names, keywords, j));
    }
    assert forall|i: int, j: int| 0 <= i < j < sources.len() && sources[i] is Positional && sources[j] is Positional
        implies (#[trigger] sources[i])->Positional_0 < (#[trigger] sources[j])->Positional_0 by {
        assert(sources[i] == source_of(names, keywords, i));
        assert(sources[j] == source_of(names, keywords, j));
        lemma_taken_monotone(names, keywords, i + 1, j);
        lemma_taken_monotone(names, keywords, 0, i);
        lemma_taken_monotone(names, keywords, j, n);
        assert(positional_taken(names, keywords, i + 1) == positional_taken(names, keywords, i) + 1);
    }
}

/// The error for gathering into a class that is not declared.
pub open spec fn unknown_gather_message(class_name: Seq<char>) -> Seq<char> {
    "unknown gather target class '"@ + class_name + "'"@
}

/// A gather parameter whose class is `class_name` (not a bundle): the
/// fields of that class in layout order, and where each takes its value
/// from, as `gather_sources` decides. A class that is not declared is an
/// error.
pub fn gather_class_fields(
    classes: &[ClassDef],
    class_name: &str,
    member_keys: &[String],
    keywords: &[String],
    positional: usize,
) -> (r: Result<(Vec<String>, Vec<GatherSource>), RuntimeError>)
    requires
        exists|fuel: nat| #[trigger] layout_walk(classes@, class_name@, fuel) is Some,
    ensures
        class_index(classes@, class_name@) is None ==> r is Err && r->Err_0.message@ == unknown_gather_message(class_name@),
        class_index(classes@, class_name@) is Some ==> {
            let fuel = choose|fuel: nat| #[trigger] layout_walk(classes@, class_name@, fuel) is Some;
            let names = layout_walk(classes@, class_name@, fuel)->Some_0;
            match gather_outcome(names, names_view(member_keys@), names_view(keywords@), positional as int) {
                Ok(sources) => r matches Ok((fields, v)) && names_view(fields@) == names && v@ == sources,
                Err(message) => r is Err && r->Err_0.message@ == message,
            }
        },
{
    let name = String::from_str(class_name);
    if find_class(classes, &name).is_none() {
        let mut message = String::from_str("unknown gather target class '");
        message.append(class_name);
        message.append("'");
        return Err(RuntimeError { message });
    }
    let fields = class_field_layout(classes, class_name);
    match gather_sources(&fields, member_keys, keywords, positional) {
        Ok(sources) => Ok((fields, sources)),
        Err(e) => Err(e),
    }
}

} // verus!
