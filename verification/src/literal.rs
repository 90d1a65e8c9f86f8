//! Integer literals: decimal, hexadecimal (`0x`), octal (`0o`) and binary
//! (`0b`) spellings with optional signs and `_` separators.
use vstd::prelude::*;
use vstd::string::*;
use num_bigint::BigInt;
use crate::bigint::{big_value, big_neg, big_parse_bytes, parsed_in_radix};

verus! {

/// Unicode `White_Space`: the characters that `str::trim` removes.
pub open spec fn is_white_space(c: char) -> bool {
    ||| '\u{9}' <= c <= '\u{d}'
    ||| c == ' '
    ||| c == '\u{85}'
    ||| c == '\u{a0}'
    ||| c == '\u{1680}'
    ||| '\u{2000}' <= c <= '\u{200a}'
    ||| c == '\u{2028}'
    ||| c == '\u{2029}'
    ||| c == '\u{202f}'
    ||| c == '\u{205f}'
    ||| c == '\u{3000}'
}

/// `s` without its leading white space.
pub open spec fn trim_start_white(s: Seq<char>) -> Seq<char>
    decreases s.len(),
{
    if s.len() > 0 && is_white_space(s[0]) { trim_start_white(s.drop_first()) } else { s }
}

/// `s` without its trailing white space.
pub open spec fn trim_end_white(s: Seq<char>) -> Seq<char>
    decreases s.len(),
{
    if s.len() > 0 && is_white_space(s.last()) { trim_end_white(s.drop_last()) } else { s }
}

/// `s` without leading and trailing white space.
pub open spec fn trim_white(s: Seq<char>) -> Seq<char> {
    trim_end_white(trim_start_white(s))
}

/// Whether `c` is Unicode white space, as `char::is_whitespace` decides.
pub fn is_white_space_char(c: char) -> (r: bool)
    ensures
        r == is_white_space(c),
{
    ('\u{9}' <= c && c <= '\u{d}') || c == ' ' || c == '\u{85}' || c == '\u{a0}' || c == '\u{1680}'
        || ('\u{2000}' <= c && c <= '\u{200a}') || c == '\u{2028}' || c == '\u{2029}' || c == '\u{202f}'
        || c == '\u{205f}' || c == '\u{3000}'
}

/// The string without leading and trailing Unicode white space, as
/// `str::trim` gives it.
fn trim(s: &str) -> (r: &str)
    ensures
        r@ == trim_white(s@),
{
    let n = s.unicode_len();
    let mut start: usize = 0;
    proof {
        assert(s@.skip(0) =~= s@);
    }
    while start < n && is_white_space_char(s.get_char(start))
        invariant
            n == s@.len(),
            start <= n,
            trim_start_white(s@) == trim_start_white(s@.skip(start as int)),
        decreases n - start,
    {
        proof {
            assert(s@.skip(start as int)[0] == s@[start as int]);
            assert(s@.skip(start as int).drop_first() =~= s@.skip(start + 1));
        }
        start += 1;
    }
    proof {
        if start < n {
            assert(s@.skip(start as int)[0] == s@[start as int]);
        }
        assert(trim_start_white(s@) == s@.skip(start as int));
        assert(s@.skip(start as int) =~= s@.subrange(start as int, n as int));
    }
    let mut end: usize = n;
    while end > start && is_white_space_char(s.get_char(end - 1))
        invariant
            n == s@.len(),
            start <= end <= n,
            trim_end_white(s@.subrange(start as int, n as int)) == trim_end_white(s@.subrange(start as int, end as int)),
        decreases end - start,
    {
        proof {
            assert(s@.subrange(start as int, end as int).last() == s@[end - 1]);
            assert(s@.subrange(start as int, end as int).drop_last() =~= s@.subrange(start as int, end - 1));
        }
        end -= 1;
    }
    proof {
        if end > start {
            assert(s@.subrange(start as int, end as int).last() == s@[end - 1]);
        }
        assert(trim_end_white(s@.subrange(start as int, end as int)) == s@.subrange(start as int, end as int));
    }
    s.substring_char(start, end)
}

/// `s` with every `_` removed.
pub open spec fn without_underscores(s: Seq<char>) -> Seq<char>
    decreases s.len(),
{
    if s.len() == 0 {
        s
    } else if s.last() == '_' {
        without_underscores(s.drop_last())
    } else {
        without_underscores(s.drop_last()).push(s.last())
    }
}

/// How many `+` and `-` signs `s` starts with.
pub open spec fn sign_prefix_len(s: Seq<char>) -> nat
    decreases s.len(),
{
    if s.len() > 0 && (s[0] == '+' || s[0] == '-') { 1 + sign_prefix_len(s.drop_first()) } else { 0 }
}

/// The radix a literal's prefix selects, and how long that prefix is.
pub open spec fn literal_radix(u: Seq<char>) -> (u32, int) {
    if u.len() >= 2 && u[0] == '0' && (u[1] == 'x' || u[1] == 'X') {
        (16, 2)
    } else if u.len() >= 2 && u[0] == '0' && (u[1] == 'o' || u[1] == 'O') {
        (8, 2)
    } else if u.len() >= 2 && u[0] == '0' && (u[1] == 'b' || u[1] == 'B') {
        (2, 2)
    } else {
        (10, 0)
    }
}

/// The integer an integer literal spells: white space trimmed, `_`
/// dropped, negative when it starts with `-`, every leading sign skipped,
/// then a radix prefix and the digits in that radix.
pub open spec fn literal_value(text: Seq<char>) -> Option<int> {
    let t = without_underscores(trim_white(text));
    let negative = t.len() > 0 && t[0] == '-';
    let u = t.skip(sign_prefix_len(t) as int);
    let (radix, prefix) = literal_radix(u);
    match parsed_in_radix(u.skip(prefix), radix) {
        Some(v) => Some(if negative { -v } else { v }),
        None => None,
    }
}

/// Parses an integer literal into an arbitrary-precision integer, or
/// `None` when the text spells no integer.
pub fn parse_bigint_literal(text: &str) -> (r: Option<BigInt>)
    ensures
        match r {
            Some(b) => literal_value(text@) == Some(big_value(b)),
            None => literal_value(text@) is None,
        },
{
    let trimmed = trim(text);
    let n = trimmed.unicode_len();
    let mut t: Vec<char> = Vec::new();
    let mut i: usize = 0;
    while i < n
        invariant
            n as int == trimmed@.len(),
            i <= n,
            t@ == without_underscores(trimmed@.subrange(0, i as int)),
        decreases n - i,
    {
        let c = trimmed.get_char(i);
        proof {
            assert(trimmed@.subrange(0, i + 1).drop_last() =~= trimmed@.subrange(0, i as int));
        }
        if c != '_' {
            t.push(c);
        }
        i += 1;
    }
    proof {
        assert(trimmed@.subrange(0, n as int) =~= trimmed@);
    }
    let negative = t.len() > 0 && t[0] == '-';
    let mut k: usize = 0;
    assert(t@.skip(0) =~= t@);
    while k < t.len() && (t[k] == '+' || t[k] == '-')
        invariant
            k <= t@.len(),
            sign_prefix_len(t@) == k + sign_prefix_len(t@.skip(k as int)),
        decreases t@.len() - k,
    {
        proof {
            assert(t@.skip(k as int).drop_first() =~= t@.skip(k + 1));
        }
        k += 1;
    }
    proof {
        if k < t@.len() {
            assert(t@.skip(k as int)[0] == t@[k as int]);
        }
        assert(sign_prefix_len(t@.skip(k as int)) == 0);
    }
    let ghost u = t@.skip(k as int);
    let rest = t.len() - k;
    let (radix, prefix): (u32, usize) = if rest >= 2 && t[k] == '0' && (t[k + 1] == 'x' || t[k + 1] == 'X') {
        (16, 2)
    } else if rest >= 2 && t[k] == '0' && (t[k + 1] == 'o' || t[k + 1] == 'O') {
        (8, 2)
    } else if rest >= 2 && t[k] == '0' && (t[k + 1] == 'b' || t[k + 1] == 'B') {
        (2, 2)
    } else {
        (10, 0)
    };
    proof {
        if rest >= 2 {
            assert(u[0] == t@[k as int]);
            assert(u[1] == t@[k + 1]);
        }
        assert(literal_radix(u) == (radix, prefix as int));
    }
    let start = k + prefix;
    let mut digits: Vec<char> = Vec::new();
    let mut j: usize = start;
    while j < t.len()
        invariant
            start <= j <= t@.len(),
            digits@ == t@.subrange(start as int, j as int),
        decreases t@.len() - j,
    {
        digits.push(t[j]);
        j += 1;
        proof {
            assert(t@.subrange(start as int, j as int) =~= t@.subrange(start as int, j - 1).push(t@[j - 1]));
        }
    }
    proof {
        assert(digits@ =~= u.skip(prefix as int));
    }
    match big_parse_bytes(digits.as_slice(), radix) {
        Some(value) => {
            if negative {
                Some(big_neg(&value))
            } else {
                Some(value)
            }
        },
        None => None,
    }
}

} // verus!
