//! How integers and ranges are written when a value is shown.
use vstd::prelude::*;
use vstd::string::*;
use crate::integer::{Integer, INT_POS_INF, INT_NEG_INF, INT_NAN};
use crate::bigint::{big_value, big_decimal_bytes, decimal_digits, decimal_spelling};

verus! {

/// The character of decimal digit `d`.
pub open spec fn digit_char(d: nat) -> char {
    (48 + d) as char
}

/// The decimal digits of `n`, most significant first.
pub open spec fn decimal_text(n: nat) -> Seq<char>
    decreases n,
{
    if n < 10 {
        seq![digit_char(n)]
    } else {
        decimal_text(n / 10).push(digit_char(n % 10))
    }
}

/// `n` in decimal, with a leading `-` when negative.
pub open spec fn signed_text(n: int) -> Seq<char> {
    if n < 0 {
        seq!['-'] + decimal_text((-n) as nat)
    } else {
        decimal_text(n as nat)
    }
}

/// How an `int` is shown: the sentinels by name, any other value in
/// decimal.
pub open spec fn int_text(n: i64) -> Seq<char> {
    if n == INT_POS_INF {
        "int.inf"@
    } else if n == INT_NEG_INF {
        "-int.inf"@
    } else if n == INT_NAN {
        "int.nan"@
    } else {
        signed_text(n as int)
    }
}

/// How a range is shown: `range(start, stop)` for a step of 1, else
/// `range(start, stop, step)`, each bound in plain decimal.
pub open spec fn range_text(start: i64, stop: i64, step: i64) -> Seq<char> {
    if step == 1 {
        "range("@ + signed_text(start as int) + ", "@ + signed_text(stop as int) + ")"@
    } else {
        "range("@ + signed_text(start as int) + ", "@ + signed_text(stop as int) + ", "@
            + signed_text(step as int) + ")"@
    }
}

/// The text of one decimal digit.
fn digit_str(d: u64) -> (r: &'static str)
    requires
        d < 10,
    ensures
        r@ == seq![digit_char(d as nat)],
{
    proof {
        reveal_strlit("0");
        reveal_strlit("1");
        reveal_strlit("2");
        reveal_strlit("3");
        reveal_strlit("4");
        reveal_strlit("5");
        reveal_strlit("6");
        reveal_strlit("7");
        reveal_strlit("8");
        reveal_strlit("9");
    }
    if d == 0 {
        "0"
    } else if d == 1 {
        "1"
    } else if d == 2 {
        "2"
    } else if d == 3 {
        "3"
    } else if d == 4 {
        "4"
    } else if d == 5 {
        "5"
    } else if d == 6 {
        "6"
    } else if d == 7 {
        "7"
    } else if d == 8 {
        "8"
    } else {
        "9"
    }
}

/// Appends the decimal digits of `n` to `s`.
pub(crate) fn append_decimal(s: &mut String, n: u64)
    ensures
        final(s)@ == old(s)@ + decimal_text(n as nat),
    decreases n,
{
    if n >= 10 {
        append_decimal(s, n / 10);
    }
    s.append(digit_str(n % 10));
    proof {
        if n >= 10 {
            assert(decimal_text(n as nat) == decimal_text((n / 10) as nat).push(digit_char((n % 10) as nat)));
        }
    }
}

/// Appends `n` in decimal, with a leading `-` when negative, to `s`.
pub(crate) fn append_signed(s: &mut String, n: i64)
    ensures
        final(s)@ == old(s)@ + signed_text(n as int),
{
    if n < 0 {
        proof {
            reveal_strlit("-");
        }
        s.append("-");
        let magnitude: u64 = (-(n as i128)) as u64;
        append_decimal(s, magnitude);
        proof {
            assert(s@ =~= old(s)@ + (seq!['-'] + decimal_text(magnitude as nat)));
        }
    } else {
        append_decimal(s, n as u64);
    }
}

/// How an `int` value is shown.
pub fn int_repr(n: i64) -> (r: String)
    ensures
        r@ == int_text(n),
{
    if n == INT_POS_INF {
        String::from_str("int.inf")
    } else if n == INT_NEG_INF {
        String::from_str("-int.inf")
    } else if n == INT_NAN {
        String::from_str("int.nan")
    } else {
        let mut s = String::new();
        append_signed(&mut s, n);
        proof {
            assert(s@ =~= signed_text(n as int));
        }
        s
    }
}

/// How a range value is shown.
pub fn range_repr(start: i64, stop: i64, step: i64) -> (r: String)
    ensures
        r@ == range_text(start, stop, step),
{
    let mut s = String::from_str("range(");
    append_signed(&mut s, start);
    s.append(", ");
    append_signed(&mut s, stop);
    if step != 1 {
        s.append(", ");
        append_signed(&mut s, step);
    }
    s.append(")");
    proof {
        if step == 1 {
            assert(s@ =~= range_text(start, stop, step));
        } else {
            assert(s@ =~= range_text(start, stop, step));
        }
    }
    s
}

/// The character a byte of a decimal spelling stands for.
pub open spec fn spelled_char(b: u8) -> char {
    if b == 45 { '-' } else { digit_char((b - 48) as nat) }
}

/// The decimal digits as bytes spell the decimal text.
proof fn lemma_digits_spell(n: nat)
    ensures
        decimal_digits(n).map_values(|b: u8| spelled_char(b)) == decimal_text(n),
        forall|k: int| 0 <= k < decimal_digits(n).len() ==> 48 <= #[trigger] decimal_digits(n)[k] < 58,
    decreases n,
{
    if n >= 10 {
        lemma_digits_spell(n / 10);
        assert(decimal_digits(n).map_values(|b: u8| spelled_char(b))
            =~= decimal_digits(n / 10).map_values(|b: u8| spelled_char(b)).push(spelled_char((48 + n % 10) as u8)));
        let d = decimal_digits(n);
        assert forall|k: int| 0 <= k < d.len() implies 48 <= #[trigger] d[k] < 58 by {
            if k < d.len() - 1 {
                assert(d[k] == decimal_digits(n / 10)[k]);
            }
        }
    } else {
        assert(decimal_digits(n).map_values(|b: u8| spelled_char(b)) =~= seq![digit_char(n)]);
    }
}

/// The spelling of an integer as bytes spells its signed text.
proof fn lemma_spelling_spells(i: int)
    ensures
        decimal_spelling(i).map_values(|b: u8| spelled_char(b)) == signed_text(i),
        forall|k: int| 0 <= k < decimal_spelling(i).len()
            ==> (#[trigger] decimal_spelling(i)[k] == 45 || 48 <= decimal_spelling(i)[k] < 58),
{
    if i < 0 {
        lemma_digits_spell((-i) as nat);
        let d = decimal_digits((-i) as nat);
        assert(decimal_spelling(i).map_values(|b: u8| spelled_char(b))
            =~= seq!['-'] + d.map_values(|b: u8| spelled_char(b)));
        assert forall|k: int| 0 <= k < decimal_spelling(i).len()
            implies (#[trigger] decimal_spelling(i)[k] == 45 || 48 <= decimal_spelling(i)[k] < 58) by {
            if k > 0 {
                assert(decimal_spelling(i)[k] == d[k - 1]);
            }
        }
    } else {
        lemma_digits_spell(i as nat);
    }
}

/// How an integer is shown: a machine word as `int_text` says (the
/// sentinels by name), an arbitrary-precision value in decimal.
pub open spec fn integer_text(n: Integer) -> Seq<char> {
    match n {
        Integer::Int(x) => int_text(x),
        Integer::Big(b) => signed_text(big_value(b)),
    }
}

/// How an integer is shown.
pub fn integer_repr(n: &Integer) -> (r: String)
    ensures
        r@ == integer_text(*n),
{
    match n {
        Integer::Int(x) => int_repr(*x),
        Integer::Big(b) => {
            let bytes = big_decimal_bytes(b);
            let ghost spelling = decimal_spelling(big_value(*b));
            proof {
                lemma_spelling_spells(big_value(*b));
            }
            let mut out = String::new();
            let mut k: usize = 0;
            proof {
                assert(out@ =~= spelling.take(0).map_values(|c: u8| spelled_char(c)));
            }
            while k < bytes.len()
                invariant
                    bytes@ == spelling,
                    k <= bytes@.len(),
                    forall|j: int| 0 <= j < spelling.len() ==> (#[trigger] spelling[j] == 45 || 48 <= spelling[j] < 58),
                    out@ == spelling.take(k as int).map_values(|c: u8| spelled_char(c)),
                decreases bytes.len() - k,
            {
                let b = bytes[k];
                proof {
                    assert(spelling[k as int] == b);
                    assert(spelling.take(k + 1).map_values(|c: u8| spelled_char(c))
                        =~= spelling.take(k as int).map_values(|c: u8| spelled_char(c)).push(spelled_char(b)));
                }
                if b == 45 {
                    proof {
                        reveal_strlit("-");
                    }
                    out.append("-");
                } else {
                    out.append(digit_str((b - 48) as u64));
                }
                k += 1;
            }
            proof {
                assert(spelling.take(spelling.len() as int) =~= spelling);
            }
            out
        },
    }
}

} // verus!
