//! Dotted paths (`a.b.c`): splitting a name into its parts and joining the
//! parts back.
use vstd::prelude::*;
use vstd::string::*;
use crate::error::RuntimeError;
use crate::literal::{is_white_space, is_white_space_char};

verus! {

/// Scanning `s` left to right: the non-empty parts already closed by a dot,
/// and the part still being read.
pub open spec fn split_scan(s: Seq<char>) -> (Seq<Seq<char>>, Seq<char>)
    decreases s.len(),
{
    if s.len() == 0 {
        (Seq::empty(), Seq::empty())
    } else {
        let (done, current) = split_scan(s.drop_last());
        if s.last() == '.' {
            (if current.len() > 0 { done.push(current) } else { done }, Seq::empty())
        } else {
            (done, current.push(s.last()))
        }
    }
}

/// The non-empty parts of `s` between dots, in order.
pub open spec fn dotted_parts(s: Seq<char>) -> Seq<Seq<char>> {
    let (done, current) = split_scan(s);
    if current.len() > 0 { done.push(current) } else { done }
}

/// The parts joined with a dot between each two.
pub open spec fn join_dots(parts: Seq<Seq<char>>) -> Seq<char>
    decreases parts.len(),
{
    if parts.len() == 0 {
        Seq::empty()
    } else if parts.len() == 1 {
        parts[0]
    } else {
        join_dots(parts.drop_last()) + seq!['.'] + parts.last()
    }
}

/// The parts of a dotted name: the pieces between dots, empty pieces
/// dropped (the `DottedPath` value the evaluator builds from a name).
pub fn dotted_path(value: &str) -> (parts: Vec<String>)
    ensures
        parts@.len() == dotted_parts(value@).len(),
        forall|i: int| 0 <= i < parts@.len() ==> #[trigger] parts@[i]@ == dotted_parts(value@)[i],
{
    let n = value.unicode_len();
    let mut parts: Vec<String> = Vec::new();
    let mut segment_start: usize = 0;
    let mut i: usize = 0;
    while i < n
        invariant
            n as int == value@.len(),
            segment_start <= i <= n,
            split_scan(value@.subrange(0, i as int)).0.len() == parts@.len(),
            forall|k: int| 0 <= k < parts@.len() ==> #[trigger] parts@[k]@ == split_scan(value@.subrange(0, i as int)).0[k],
            split_scan(value@.subrange(0, i as int)).1 == value@.subrange(segment_start as int, i as int),
        decreases n - i,
    {
        let c = value.get_char(i);
        proof {
            assert(value@.subrange(0, i + 1).drop_last() == value@.subrange(0, i as int));
            assert(value@.subrange(0, i + 1).last() == c);
        }
        if c == '.' {
            if segment_start < i {
                let part = value.substring_char(segment_start, i);
                parts.push(String::from_str(part));
            }
            segment_start = i + 1;
        } else {
            proof {
                assert(value@.subrange(segment_start as int, i + 1) == value@.subrange(segment_start as int, i as int).push(c));
            }
        }
        i += 1;
    }
    if segment_start < n {
        let part = value.substring_char(segment_start, n);
        parts.push(String::from_str(part));
    }
    proof {
        assert(value@.subrange(0, n as int) == value@);
    }
    parts
}

/// The parts of a dotted path joined with dots (`".".join(parts)`).
pub fn dotted_path_string(parts: &[String]) -> (r: String)
    ensures
        r@ == join_dots(parts@.map_values(|p: String| p@)),
{
    let mut joined = String::from_str("");
    let ghost views = parts@.map_values(|p: String| p@);
    proof {
        reveal_strlit("");
        reveal_strlit(".");
    }
    let mut i: usize = 0;
    while i < parts.len()
        invariant
            i <= parts@.len(),
            views == parts@.map_values(|p: String| p@),
            joined@ == join_dots(views.subrange(0, i as int)),
        decreases parts@.len() - i,
    {
        proof {
            assert(views.subrange(0, i + 1).drop_last() == views.subrange(0, i as int));
        }
        let ghost before = joined@;
        if i > 0 {
            joined.append(".");
        }
        joined.append(parts[i].as_str());
        proof {
            let sub = views.subrange(0, i + 1);
            assert(sub.last() == parts@[i as int]@);
            if i == 0 {
                assert(before == Seq::<char>::empty());
                assert(joined@ == sub[0]);
            } else {
                reveal_strlit(".");
                assert("."@.len() == 1);
                assert("."@[0] == '.');
                assert("."@ =~= seq!['.']);
                assert(joined@ == before + seq!['.'] + sub.last());
            }
        }
        i += 1;
    }
    proof {
        assert(views.subrange(0, parts@.len() as int) == views);
    }
    joined
}

/// A valid path part: non-empty and free of dots.
pub open spec fn is_path_part(p: Seq<char>) -> bool {
    p.len() > 0 && !p.contains('.')
}

/// Reading a dot-free stretch only extends the part being read.
proof fn lemma_scan_dot_free(s: Seq<char>, p: Seq<char>)
    requires
        !p.contains('.'),
    ensures
        split_scan(s + p) == (split_scan(s).0, split_scan(s).1 + p),
    decreases p.len(),
{
    if p.len() == 0 {
        assert(s + p =~= s);
        assert(split_scan(s).1 + p =~= split_scan(s).1);
    } else {
        let q = p.drop_last();
        assert(!q.contains('.')) by {
            if q.contains('.') {
                let k = choose|k: int| 0 <= k < q.len() && q[k] == '.';
                assert(p[k] == '.');
            }
        }
        lemma_scan_dot_free(s, q);
        assert((s + p).drop_last() =~= s + q);
        assert((s + p).last() == p.last());
        assert(p.last() != '.') by {
            assert(p[p.len() - 1] == p.last());
        }
        assert(split_scan(s).1 + q.push(p.last()) =~= split_scan(s).1 + p);
        assert((split_scan(s).1 + q).push(p.last()) =~= split_scan(s).1 + p);
    }
}

/// Scanning the join of valid parts leaves all but the last part closed
/// and the last part being read.
proof fn lemma_scan_join(parts: Seq<Seq<char>>)
    requires
        parts.len() > 0,
        forall|i: int| 0 <= i < parts.len() ==> is_path_part(#[trigger] parts[i]),
    ensures
        split_scan(join_dots(parts)) == (parts.drop_last(), parts.last()),
    decreases parts.len(),
{
    if parts.len() == 1 {
        lemma_scan_dot_free(Seq::empty(), parts[0]);
        assert(Seq::<char>::empty() + parts[0] =~= parts[0]);
        assert(Seq::<char>::empty() + parts[0] =~= parts[0]);
        assert(parts.drop_last() =~= Seq::<Seq<char>>::empty());
    } else {
        let rest = parts.drop_last();
        assert forall|i: int| 0 <= i < rest.len() implies is_path_part(#[trigger] rest[i]) by {
            assert(rest[i] == parts[i]);
        }
        lemma_scan_join(rest);
        let with_dot = join_dots(rest) + seq!['.'];
        assert(with_dot.drop_last() =~= join_dots(rest));
        assert(rest.last() == parts[parts.len() - 2]);
        assert(split_scan(with_dot) == (rest.drop_last().push(rest.last()), Seq::<char>::empty()));
        assert(rest.drop_last().push(rest.last()) =~= rest);
        assert(is_path_part(parts[parts.len() - 1]));
        lemma_scan_dot_free(with_dot, parts.last());
        assert(Seq::<char>::empty() + parts.last() =~= parts.last());
    }
}

/// Splitting the join of valid parts gives the parts back: a dotted path
/// survives its spelling.
pub proof fn law_dotted_path_round_trip(parts: Seq<Seq<char>>)
    requires
        forall|i: int| 0 <= i < parts.len() ==> is_path_part(#[trigger] parts[i]),
    ensures
        dotted_parts(join_dots(parts)) == parts,
{
    if parts.len() == 0 {
        assert(join_dots(parts) =~= Seq::<char>::empty());
    } else {
        lemma_scan_join(parts);
        assert(parts.drop_last().push(parts.last()) =~= parts);
    }
}


/// An identity attribute of a function, class, trait or module.
pub enum IdentityAttr {
    /// `__name__`: the declared name.
    Name(String),
    /// `__path__`: the dotted path, in parts.
    Path(Vec<String>),
    /// `__doc__`: no documentation is kept, so it reads as `none`.
    Doc,
}

/// The identity attribute `attr` of a declaration named `name` at dotted
/// path `path` (a function, class or trait has its name as its path):
/// `__name__`, `__path__` and `__doc__`; `None` for any other attribute.
pub fn identity_metadata_attr(name: &str, path: &str, attr: &str) -> (r: Option<IdentityAttr>)
    ensures
        attr@ == "__name__"@ ==> (r matches Some(IdentityAttr::Name(n)) && n@ == name@),
        attr@ == "__path__"@ ==> (r matches Some(IdentityAttr::Path(p)) && p@.len() == dotted_parts(path@).len()
            && forall|i: int| 0 <= i < p@.len() ==> #[trigger] p@[i]@ == dotted_parts(path@)[i]),
        attr@ == "__doc__"@ ==> r matches Some(IdentityAttr::Doc),
        attr@ != "__name__"@ && attr@ != "__path__"@ && attr@ != "__doc__"@ ==> r is None,
{
    proof {
        reveal_strlit("__name__");
        reveal_strlit("__path__");
        reveal_strlit("__doc__");
        assert("__name__"@[2] != "__path__"@[2]);
        assert("__name__"@[2] != "__doc__"@[2]);
        assert("__path__"@[2] != "__doc__"@[2]);
    }
    let a = String::from_str(attr);
    if a == String::from_str("__name__") {
        Some(IdentityAttr::Name(String::from_str(name)))
    } else if a == String::from_str("__path__") {
        Some(IdentityAttr::Path(dotted_path(path)))
    } else if a == String::from_str("__doc__") {
        Some(IdentityAttr::Doc)
    } else {
        None
    }
}

/// Scanning `s` left to right, splitting at every dot: the pieces already
/// closed by a dot (empty ones kept), and the piece still being read.
pub open spec fn piece_scan(s: Seq<char>) -> (Seq<Seq<char>>, Seq<char>)
    decreases s.len(),
{
    if s.len() == 0 {
        (Seq::empty(), Seq::empty())
    } else {
        let (done, current) = piece_scan(s.drop_last());
        if s.last() == '.' {
            (done.push(current), Seq::empty())
        } else {
            (done, current.push(s.last()))
        }
    }
}

/// `s` split at every dot, empty pieces kept (`str::split('.')`).
pub open spec fn dot_pieces(s: Seq<char>) -> Seq<Seq<char>> {
    let (done, current) = piece_scan(s);
    done.push(current)
}

/// A name that names nothing callable: empty, or holding white space.
pub open spec fn invalid_callable_name(name: Seq<char>) -> bool {
    name.len() == 0 || exists|i: int| 0 <= i < name.len() && is_white_space(#[trigger] name[i])
}

/// The path a callable name is looked up along: the name without one
/// leading dot, split at every dot.
pub open spec fn callable_pieces(name: Seq<char>) -> Seq<Seq<char>> {
    dot_pieces(if name.len() > 0 && name[0] == '.' { name.drop_first() } else { name })
}

/// A path with an empty piece, or a piece naming a private member.
pub open spec fn private_or_malformed(pieces: Seq<Seq<char>>) -> bool {
    exists|i: int| 0 <= i < pieces.len() && ((#[trigger] pieces[i]).len() == 0 || pieces[i][0] == '_')
}

/// The path a call by name (`call_named`) looks up: an empty name, or one
/// holding white space, is invalid; a path with an empty piece or a piece
/// starting with `_` is private or malformed; otherwise the pieces of the
/// name, without one leading dot, split at every dot.
pub fn callable_name_parts(name: &str) -> (r: Result<Vec<String>, RuntimeError>)
    ensures
        invalid_callable_name(name@) ==> (r is Err && r->Err_0.message@ == "invalid callable name '"@ + name@ + "'"@),
        !invalid_callable_name(name@) && private_or_malformed(callable_pieces(name@)) ==> (r is Err
            && r->Err_0.message@ == "name '"@ + name@ + "' is private or malformed and cannot be invoked"@),
        !invalid_callable_name(name@) && !private_or_malformed(callable_pieces(name@)) ==> (r matches Ok(parts)
            && parts@.len() == callable_pieces(name@).len()
            && forall|i: int| 0 <= i < parts@.len() ==> #[trigger] parts@[i]@ == callable_pieces(name@)[i]),
{
    let n = name.unicode_len();
    let mut white = false;
    let mut i: usize = 0;
    while i < n
        invariant
            n as int == name@.len(),
            i <= n,
            white == exists|k: int| 0 <= k < i && is_white_space(#[trigger] name@[k]),
        decreases n - i,
    {
        if is_white_space_char(name.get_char(i)) {
            white = true;
        }
        i += 1;
    }
    if n == 0 || white {
        let mut message = String::from_str("invalid callable name '");
        message.append(name);
        message.append("'");
        return Err(RuntimeError { message });
    }
    let start: usize = if name.get_char(0) == '.' { 1 } else { 0 };
    let target = name.substring_char(start, n);
    proof {
        if start == 1 {
            assert(target@ =~= name@.drop_first());
        } else {
            assert(target@ =~= name@);
        }
    }
    let m = target.unicode_len();
    let mut parts: Vec<String> = Vec::new();
    let mut piece_start: usize = 0;
    let mut bad = false;
    let mut j: usize = 0;
    while j < m
        invariant
            m as int == target@.len(),
            piece_start <= j <= m,
            piece_scan(target@.subrange(0, j as int)).0.len() == parts@.len(),
            forall|k: int| 0 <= k < parts@.len() ==> #[trigger] parts@[k]@ == piece_scan(target@.subrange(0, j as int)).0[k],
            piece_scan(target@.subrange(0, j as int)).1 == target@.subrange(piece_start as int, j as int),
            bad == exists|k: int| 0 <= k < parts@.len() && ((#[trigger] parts@[k])@.len() == 0 || parts@[k]@[0] == '_'),
        decreases m - j,
    {
        let c = target.get_char(j);
        proof {
            assert(target@.subrange(0, j + 1).drop_last() == target@.subrange(0, j as int));
            assert(target@.subrange(0, j + 1).last() == c);
        }
        if c == '.' {
            let piece = target.substring_char(piece_start, j);
            let empty_or_private = piece_start == j || target.get_char(piece_start) == '_';
            let ghost before = parts@;
            parts.push(String::from_str(piece));
            proof {
                assert(parts@[before.len() as int]@ == piece@);
                if piece_start < j {
                    assert(piece@[0] == target@[piece_start as int]);
                }
            }
            proof {
                assert forall|k: int| 0 <= k < before.len() implies #[trigger] parts@[k] == before[k] by {}
                let nb = before.len() as int;
                assert(empty_or_private == (parts@[nb]@.len() == 0 || parts@[nb]@[0] == '_'));
                if bad {
                    let k = choose|k: int| 0 <= k < before.len() && ((#[trigger] before[k])@.len() == 0 || before[k]@[0] == '_');
                    assert(parts@[k] == before[k]);
                }
                if !bad && !empty_or_private {
                    assert forall|k: int| 0 <= k < parts@.len() implies !((#[trigger] parts@[k])@.len() == 0 || parts@[k]@[0] == '_') by {
                        if k < nb {
                            assert(parts@[k] == before[k]);
                        }
                    }
                }
            }
            bad = bad || empty_or_private;
            piece_start = j + 1;
        } else {
            proof {
                assert(target@.subrange(piece_start as int, j + 1) == target@.subrange(piece_start as int, j as int).push(c));
            }
        }
        j += 1;
    }
    let last = target.substring_char(piece_start, m);
    let last_bad = piece_start == m || target.get_char(piece_start) == '_';
    let ghost before = parts@;
    parts.push(String::from_str(last));
    proof {
        assert(target@.subrange(0, m as int) == target@);
        assert(parts@[before.len() as int]@ == last@);
        if piece_start < m {
            assert(last@[0] == target@[piece_start as int]);
        }
        assert forall|k: int| 0 <= k < parts@.len() implies #[trigger] parts@[k]@ == callable_pieces(name@)[k] by {
            if k < before.len() {
                assert(parts@[k] == before[k]);
            }
        }
    }
    if bad || last_bad {
        proof {
            if bad {
                let k = choose|k: int| 0 <= k < before.len() && ((#[trigger] before[k])@.len() == 0 || before[k]@[0] == '_');
                assert(parts@[k] == before[k]);
                assert(callable_pieces(name@)[k] == parts@[k]@);
            } else {
                let k = before.len() as int;
                assert(callable_pieces(name@)[k] == parts@[k]@);
            }
        }
        let mut message = String::from_str("name '");
        message.append(name);
        message.append("' is private or malformed and cannot be invoked");
        return Err(RuntimeError { message });
    }
    proof {
        if private_or_malformed(callable_pieces(name@)) {
            let k = choose|k: int| 0 <= k < callable_pieces(name@).len() && ((#[trigger] callable_pieces(name@)[k]).len() == 0 || callable_pieces(name@)[k][0] == '_');
            if k < before.len() {
                assert(parts@[k] == before[k]);
            }
        }
    }
    Ok(parts)
}
} // verus!
