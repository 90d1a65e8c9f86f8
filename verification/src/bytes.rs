//! Byte sequences and memory views: repetition, concatenation, conversion
//! of integers to bytes, and the positions a strided view reads.
use vstd::prelude::*;
use vstd::string::*;
use crate::error::{RuntimeError, runtime_error};
use crate::integer::Integer;
use crate::bigint::{big_value, big_to_u8};

verus! {

/// `s` repeated `n` times.
pub open spec fn repeat_seq<T>(s: Seq<T>, n: nat) -> Seq<T>
    decreases n,
{
    if n == 0 {
        Seq::empty()
    } else {
        repeat_seq(s, (n - 1) as nat) + s
    }
}

/// How many copies a repetition count asks for: a negative count asks for
/// none.
pub open spec fn repeat_count(count: int) -> nat {
    if count < 0 { 0 } else { count as nat }
}

/// `bytes * count`: the bytes repeated `count` times (none for a negative
/// count).
pub fn repeat_bytes(bytes: &[u8], count: i64) -> (r: Vec<u8>)
    ensures
        r@ == repeat_seq(bytes@, repeat_count(count as int)),
{
    let times: u64 = if count < 0 { 0 } else { count as u64 };
    let mut repeated: Vec<u8> = Vec::new();
    let mut done: u64 = 0;
    while done < times
        invariant
            done <= times,
            times as int == repeat_count(count as int),
            repeated@ == repeat_seq(bytes@, done as nat),
        decreases times - done,
    {
        let ghost before = repeated@;
        let mut i: usize = 0;
        while i < bytes.len()
            invariant
                i <= bytes@.len(),
                repeated@ == before + bytes@.subrange(0, i as int),
            decreases bytes@.len() - i,
        {
            repeated.push(bytes[i]);
            i += 1;
            proof {
                assert(bytes@.subrange(0, i as int) == bytes@.subrange(0, i - 1).push(bytes@[i - 1]));
            }
        }
        proof {
            assert(bytes@.subrange(0, bytes@.len() as int) == bytes@);
        }
        done += 1;
    }
    repeated
}

/// `left + right` on bytes: the concatenation.
pub fn concat_bytes(left: &[u8], right: &[u8]) -> (r: Vec<u8>)
    ensures
        r@ == left@ + right@,
{
    let mut joined: Vec<u8> = Vec::new();
    let mut i: usize = 0;
    while i < left.len()
        invariant
            i <= left@.len(),
            joined@ == left@.subrange(0, i as int),
        decreases left@.len() - i,
    {
        joined.push(left[i]);
        i += 1;
        proof {
            assert(left@.subrange(0, i as int) == left@.subrange(0, i - 1).push(left@[i - 1]));
        }
    }
    let mut j: usize = 0;
    while j < right.len()
        invariant
            j <= right@.len(),
            joined@ == left@ + right@.subrange(0, j as int),
        decreases right@.len() - j,
    {
        joined.push(right[j]);
        j += 1;
        proof {
            assert(right@.subrange(0, j as int) == right@.subrange(0, j - 1).push(right@[j - 1]));
        }
    }
    proof {
        assert(right@.subrange(0, right@.len() as int) == right@);
    }
    joined
}

/// The error for an item that is not an integer in 0..255, naming the
/// conversion that met it.
fn byte_range_error(context: &str) -> (e: RuntimeError)
    ensures
        e.message@ == context@ + " items must be integers in 0..255"@,
{
    let mut message = String::from_str(context);
    message.append(" items must be integers in 0..255");
    RuntimeError { message }
}

/// Converts an item to a byte: it must be an integer (`item` is `None` for
/// any other value) in 0..255; otherwise the error names `context`.
pub fn byte_from_value(item: Option<&Integer>, context: &str) -> (r: Result<u8, RuntimeError>)
    ensures
        match item {
            Some(v) if 0 <= v.value() <= 255 => r == Ok::<u8, RuntimeError>(v.value() as u8),
            _ => r is Err && r->Err_0.message@ == context@ + " items must be integers in 0..255"@,
        },
{
    match item {
        Some(Integer::Int(n)) => {
            if 0 <= *n && *n <= 255 {
                Ok(*n as u8)
            } else {
                Err(byte_range_error(context))
            }
        },
        Some(Integer::Big(n)) => match big_to_u8(n) {
            Some(b) => Ok(b),
            None => Err(byte_range_error(context)),
        },
        None => Err(byte_range_error(context)),
    }
}

/// Whether an item is an integer in 0..255.
pub open spec fn is_byte_item(item: Option<Integer>) -> bool {
    item matches Some(v) && 0 <= v.value() <= 255
}

/// The error for a constructor such as `bytes()` given a value of a type it
/// cannot take its bytes from.
pub fn cannot_convert_error(constructor: &str, kind: &str) -> (e: RuntimeError)
    ensures
        e.message@ == constructor@ + "() cannot convert "@ + kind@,
{
    let mut message = String::from_str(constructor);
    message.append("() cannot convert ");
    message.append(kind);
    RuntimeError { message }
}

/// `bytes(items)` for a list: every item converted with `byte_from_value`;
/// the first item that is not a byte fails the conversion.
pub fn bytes_from_items(items: &Vec<Option<Integer>>, context: &str) -> (r: Result<Vec<u8>, RuntimeError>)
    ensures
        (forall|i: int| 0 <= i < items@.len() ==> #[trigger] is_byte_item(items@[i]))
            ==> (r matches Ok(out) && out@.len() == items@.len()
                && forall|i: int| 0 <= i < items@.len() ==> out@[i] as int == items@[i]->Some_0.value()),
        !(forall|i: int| 0 <= i < items@.len() ==> #[trigger] is_byte_item(items@[i]))
            ==> (r is Err && r->Err_0.message@ == context@ + " items must be integers in 0..255"@),
{
    let mut out: Vec<u8> = Vec::new();
    let mut i: usize = 0;
    while i < items.len()
        invariant
            i <= items@.len(),
            out@.len() == i,
            forall|j: int| 0 <= j < i ==> #[trigger] is_byte_item(items@[j]),
            forall|j: int| 0 <= j < i ==> out@[j] as int == items@[j]->Some_0.value(),
        decreases items@.len() - i,
    {
        match byte_from_value(items[i].as_ref(), context) {
            Ok(b) => {
                out.push(b);
                i += 1;
            },
            Err(e) => {
                assert(!is_byte_item(items@[i as int]));
                return Err(e);
            },
        }
    }
    proof {
        assert forall|i: int| 0 <= i < items@.len() implies #[trigger] is_byte_item(items@[i]) by {}
    }
    Ok(out)
}

/// The items of a `Bytes` value as integers, in order.
pub fn binary_sequence_items(bytes: &[u8]) -> (r: Vec<i64>)
    ensures
        r@.len() == bytes@.len(),
        forall|i: int| 0 <= i < bytes@.len() ==> r@[i] == bytes@[i] as i64,
{
    let mut out: Vec<i64> = Vec::new();
    let mut i: usize = 0;
    while i < bytes.len()
        invariant
            i <= bytes@.len(),
            out@.len() == i,
            forall|j: int| 0 <= j < i ==> out@[j] == bytes@[j] as i64,
        decreases bytes@.len() - i,
    {
        out.push(bytes[i] as i64);
        i += 1;
    }
    out
}

/// `value in bytes`: whether the integer is a byte that occurs in them.
pub fn bytes_contains(bytes: &[u8], value: i64) -> (r: bool)
    ensures
        r == (0 <= value <= 255 && bytes@.contains(value as u8)),
{
    match u8::try_from(value) {
        Ok(byte) => {
            let mut i: usize = 0;
            while i < bytes.len()
                invariant
                    i <= bytes@.len(),
                    0 <= value <= 255,
                    byte == value as u8,
                    forall|j: int| 0 <= j < i ==> bytes@[j] != byte,
                decreases bytes@.len() - i,
            {
                if bytes[i] == byte {
                    return true;
                }
                i += 1;
            }
            false
        },
        Err(_) => false,
    }
}

/// The position of the underlying storage that offset `offset` of a
/// memory view reads.
pub open spec fn view_position(start: int, stride: int, offset: int) -> int {
    start + offset * stride
}

/// The positions a view of `len` items reads, in order: for each offset
/// below `len`, its position, kept when it indexes the storage of
/// `data_len` items.
pub open spec fn view_positions(data_len: int, start: int, len: int, stride: int) -> Seq<int>
    decreases (if len > 0 { len } else { 0 }),
{
    if len <= 0 {
        Seq::empty()
    } else {
        let rest = view_positions(data_len, start, len - 1, stride);
        let p = view_position(start, stride, len - 1);
        if 0 <= p < data_len { rest.push(p) } else { rest }
    }
}

/// The positions a view over `data_len` items reads, in order: the items
/// of a memory view are the storage's items at these positions. `requires`
/// leaves out views whose positions overflow an `i64`.
pub fn memoryview_positions(data_len: usize, start: i64, len: i64, stride: i64) -> (r: Vec<usize>)
    requires
        len > 0 ==> i64::MIN <= (len - 1) * stride <= i64::MAX,
        len > 0 ==> i64::MIN <= start + (len - 1) * stride <= i64::MAX,
    ensures
        r@.len() == view_positions(data_len as int, start as int, len as int, stride as int).len(),
        forall|i: int| 0 <= i < r@.len() ==> r@[i] as int == view_positions(data_len as int, start as int, len as int, stride as int)[i]
            && r@[i] < data_len,
{
    let mut out: Vec<usize> = Vec::new();
    let mut offset: i64 = 0;
    while offset < len
        invariant
            0 <= offset,
            len > 0 ==> offset <= len,
            len <= 0 ==> offset == 0,
            len > 0 ==> i64::MIN <= start + (len - 1) * stride <= i64::MAX,
            len > 0 ==> i64::MIN <= (len - 1) * stride <= i64::MAX,
            out@.len() == view_positions(data_len as int, start as int, offset as int, stride as int).len(),
            forall|i: int| 0 <= i < out@.len() ==> out@[i] as int == view_positions(data_len as int, start as int, offset as int, stride as int)[i]
                && out@[i] < data_len,
        decreases len - offset,
    {
        assert(i64::MIN <= offset * stride <= i64::MAX && i64::MIN <= start + offset * stride <= i64::MAX)
            by (nonlinear_arith)
            requires 0 <= offset < len, i64::MIN <= start + (len - 1) * stride <= i64::MAX,
                i64::MIN <= (len - 1) * stride <= i64::MAX, i64::MIN <= start <= i64::MAX;
        let position = start + offset * stride;
        if position >= 0 && (position as u64) < (data_len as u64) {
            out.push(position as usize);
        }
        offset += 1;
    }
    proof {
        if len <= 0 {
            assert(view_positions(data_len as int, start as int, len as int, stride as int).len() == 0);
            assert(view_positions(data_len as int, start as int, 0, stride as int).len() == 0);
        } else {
            assert(offset == len);
        }
    }
    out
}

/// `s * count` on strings: `s` repeated `count` times (none for a negative
/// count).
pub fn repeat_str(s: &str, count: i64) -> (r: String)
    ensures
        r@ == repeat_seq(s@, repeat_count(count as int)),
{
    let times: u64 = if count < 0 { 0 } else { count as u64 };
    let mut repeated = String::from_str("");
    let mut done: u64 = 0;
    proof {
        assert(""@.len() == 0) by { reveal_strlit(""); }
        assert(repeated@ == repeat_seq(s@, 0));
    }
    while done < times
        invariant
            done <= times,
            times as int == repeat_count(count as int),
            repeated@ == repeat_seq(s@, done as nat),
        decreases times - done,
    {
        repeated.append(s);
        done += 1;
    }
    repeated
}

} // verus!
