//! The `format(value, spec)` builtin: integers in hexadecimal, binary or
//! octal, strings as they are; what floats and other values become is
//! decided here and written by the caller.
use vstd::prelude::*;
use vstd::string::*;
use crate::error::{RuntimeError, runtime_error};

verus! {

/// An argument of `format`, as far as formatting tells values apart.
pub enum FormatValue {
    Int(i64),
    Float,
    Text(String),
    Other,
}

/// What `format` produces.
#[derive(Debug, PartialEq, Eq)]
pub enum Formatted {
    /// This text.
    Text(String),
    /// The float written the way `str()` writes it.
    FloatShortest,
    /// The float written with six decimal places.
    FloatFixed,
    /// The value written the way `repr()` writes it.
    Debug,
}

/// The digit character for `d`, lowercase or uppercase past 9.
pub open spec fn radix_digit(d: nat, upper: bool) -> char {
    if d < 10 {
        (48 + d) as char
    } else if upper {
        (55 + d) as char
    } else {
        (87 + d) as char
    }
}

/// The digits of `n` in base `base`, most significant first.
pub open spec fn radix_text(n: nat, base: nat, upper: bool) -> Seq<char>
    decreases n,
{
    if base < 2 || n < base {
        seq![radix_digit(n, upper)]
    } else {
        proof {
            assert(n / base < n) by (nonlinear_arith)
                requires
                    base >= 2,
                    n >= base,
            ;
        }
        radix_text(n / base, base, upper).push(radix_digit(n % base, upper))
    }
}

/// The bits of `v` read as an unsigned number: negative values in two's
/// complement over 64 bits.
pub open spec fn unsigned_bits(v: i64) -> nat {
    if v < 0 { (v + 0x1_0000_0000_0000_0000) as nat } else { v as nat }
}

/// The base and case that a format spec selects for an integer.
pub open spec fn int_spec(spec: Seq<char>) -> Option<(nat, bool)> {
    if spec == "x"@ {
        Some((16nat, false))
    } else if spec == "X"@ {
        Some((16nat, true))
    } else if spec == "b"@ {
        Some((2nat, false))
    } else if spec == "o"@ {
        Some((8nat, false))
    } else {
        None
    }
}

/// The error for a spec that does not apply to the value.
pub open spec fn unsupported_spec_message(spec: Seq<char>) -> Seq<char> {
    "unsupported format specifier '"@ + spec + "'"@
}

/// What `format(value, spec)` gives, with `spec` already read as text.
pub open spec fn format_outcome(value: FormatValue, spec: Seq<char>) -> Result<FormattedView, Seq<char>> {
    match value {
        FormatValue::Int(v) => match int_spec(spec) {
            Some((base, upper)) => Ok(FormattedView::Text(radix_text(unsigned_bits(v), base, upper))),
            None => if spec.len() == 0 { Ok(FormattedView::Debug) } else { Err(unsupported_spec_message(spec)) },
        },
        FormatValue::Float => if spec.len() == 0 {
            Ok(FormattedView::FloatShortest)
        } else if spec == "f"@ {
            Ok(FormattedView::FloatFixed)
        } else {
            Err(unsupported_spec_message(spec))
        },
        FormatValue::Text(s) => if spec.len() == 0 { Ok(FormattedView::Text(s@)) } else { Err(unsupported_spec_message(spec)) },
        FormatValue::Other => if spec.len() == 0 { Ok(FormattedView::Debug) } else { Err(unsupported_spec_message(spec)) },
    }
}

/// `Formatted` with its text as a sequence of characters.
pub enum FormattedView {
    Text(Seq<char>),
    FloatShortest,
    FloatFixed,
    Debug,
}

impl View for Formatted {
    type V = FormattedView;

    open spec fn view(&self) -> FormattedView {
        match self {
            Formatted::Text(s) => FormattedView::Text(s@),
            Formatted::FloatShortest => FormattedView::FloatShortest,
            Formatted::FloatFixed => FormattedView::FloatFixed,
            Formatted::Debug => FormattedView::Debug,
        }
    }
}

/// The text of one digit.
fn digit_text(d: u64, upper: bool) -> (r: &'static str)
    requires
        d < 16,
    ensures
        r@ == seq![radix_digit(d as nat, upper)],
{
    proof {
        reveal_strlit("0"); reveal_strlit("1"); reveal_strlit("2"); reveal_strlit("3");
        reveal_strlit("4"); reveal_strlit("5"); reveal_strlit("6"); reveal_strlit("7");
        reveal_strlit("8"); reveal_strlit("9");
        reveal_strlit("a"); reveal_strlit("b"); reveal_strlit("c"); reveal_strlit("d");
        reveal_strlit("e"); reveal_strlit("f");
        reveal_strlit("A"); reveal_strlit("B"); reveal_strlit("C"); reveal_strlit("D");
        reveal_strlit("E"); reveal_strlit("F");
    }
    if d == 0 { "0" } else if d == 1 { "1" } else if d == 2 { "2" } else if d == 3 { "3" }
    else if d == 4 { "4" } else if d == 5 { "5" } else if d == 6 { "6" } else if d == 7 { "7" }
    else if d == 8 { "8" } else if d == 9 { "9" }
    else if upper {
        if d == 10 { "A" } else if d == 11 { "B" } else if d == 12 { "C" } else if d == 13 { "D" } else if d == 14 { "E" } else { "F" }
    } else {
        if d == 10 { "a" } else if d == 11 { "b" } else if d == 12 { "c" } else if d == 13 { "d" } else if d == 14 { "e" } else { "f" }
    }
}

/// Appends the digits of `n` in base `base` to `s`.
fn append_radix(s: &mut String, n: u64, base: u64, upper: bool)
    requires
        2 <= base <= 16,
    ensures
        final(s)@ == old(s)@ + radix_text(n as nat, base as nat, upper),
    decreases n,
{
    if n >= base {
        assert(n / base < n) by (nonlinear_arith)
            requires
                base >= 2,
                n >= base,
        ;
        append_radix(s, n / base, base, upper);
    }
    s.append(digit_text(n % base, upper));
    proof {
        if n < base {
            vstd::arithmetic::div_mod::lemma_small_mod(n as nat, base as nat);
        }
    }
}

/// `format(args...)`: one value, and optionally a format spec, which must
/// be a string. Integers take `x`, `X`, `b` or `o` (negative ones in two's
/// complement over 64 bits); floats take `f` (six decimal places); without
/// a spec a string stays as it is, a float is written as `str()` writes
/// it, and any other value as `repr()` does. Any other spec is an error.
pub fn format_builtin(args: &[FormatValue]) -> (r: Result<Formatted, RuntimeError>)
    ensures
        !(1 <= args@.len() <= 2) ==> r is Err && r->Err_0.message@ == "format() takes one or two arguments"@,
        args@.len() == 2 && !(args@[1] is Text) ==> r is Err && r->Err_0.message@ == "format spec must be a string"@,
        1 <= args@.len() <= 2 && (args@.len() == 1 || args@[1] is Text) ==> {
            let spec = if args@.len() == 2 { args@[1]->Text_0@ } else { Seq::empty() };
            match format_outcome(args@[0], spec) {
                Ok(v) => r matches Ok(f) && f@ == v,
                Err(m) => r is Err && r->Err_0.message@ == m,
            }
        },
{
    proof {
        reveal_strlit("x");
        reveal_strlit("X");
        reveal_strlit("b");
        reveal_strlit("o");
        reveal_strlit("f");
        reveal_strlit("");
    }
    if args.len() < 1 || args.len() > 2 {
        return Err(runtime_error("format() takes one or two arguments"));
    }
    let spec: String = if args.len() == 2 {
        match &args[1] {
            FormatValue::Text(s) => s.clone(),
            _ => return Err(runtime_error("format spec must be a string")),
        }
    } else {
        String::from_str("")
    };
    let ghost spec_v = if args@.len() == 2 { args@[1]->Text_0@ } else { Seq::<char>::empty() };
    assert(spec@ == spec_v);
    let empty = spec.as_str().unicode_len() == 0;
    match &args[0] {
        FormatValue::Int(v) => {
            let selected: Option<(u64, bool)> = if spec == String::from_str("x") {
                Some((16, false))
            } else if spec == String::from_str("X") {
                Some((16, true))
            } else if spec == String::from_str("b") {
                Some((2, false))
            } else if spec == String::from_str("o") {
                Some((8, false))
            } else {
                None
            };
            match selected {
                Some((base, upper)) => {
                    let bits: u64 = if *v < 0 { (*v as i128 + 0x1_0000_0000_0000_0000i128) as u64 } else { *v as u64 };
                    let mut out = String::new();
                    append_radix(&mut out, bits, base, upper);
                    proof {
                        assert(out@ =~= radix_text(unsigned_bits(*v), base as nat, upper));
                    }
                    Ok(Formatted::Text(out))
                },
                None => if empty { Ok(Formatted::Debug) } else { Err(unsupported_spec(&spec)) },
            }
        },
        FormatValue::Float => {
            if empty {
                Ok(Formatted::FloatShortest)
            } else if spec == String::from_str("f") {
                Ok(Formatted::FloatFixed)
            } else {
                Err(unsupported_spec(&spec))
            }
        },
        FormatValue::Text(s) => if empty { Ok(Formatted::Text(s.clone())) } else { Err(unsupported_spec(&spec)) },
        FormatValue::Other => if empty { Ok(Formatted::Debug) } else { Err(unsupported_spec(&spec)) },
    }
}

/// The error for a spec that does not apply to the value.
fn unsupported_spec(spec: &String) -> (e: RuntimeError)
    ensures
        e.message@ == unsupported_spec_message(spec@),
{
    let mut message = String::from_str("unsupported format specifier '");
    message.append(spec.as_str());
    message.append("'");
    RuntimeError { message }
}

} // verus!
