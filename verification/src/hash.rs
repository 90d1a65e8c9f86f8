//! `hash()` of Lucid values: integers hash to themselves, strings and bytes
//! fold their bytes, frozen containers combine the hashes of their items.
use vstd::prelude::*;
use vstd::string::*;
use vstd::wrapping::i64_specs::{wrapping_add, wrapping_mul};
use crate::integer::Integer;
use crate::bigint::{big_value, big_to_i64, big_decimal_bytes, decimal_spelling};

verus! {

/// Folds `items` into `seed`: at each item, multiply by `factor` and add the
/// item, both wrapping around on overflow.
pub open spec fn fold_hash(seed: i64, factor: i64, items: Seq<i64>) -> i64
    decreases items.len(),
{
    if items.len() == 0 {
        seed
    } else {
        wrapping_add(wrapping_mul(fold_hash(seed, factor, items.drop_last()), factor), items.last())
    }
}

/// Bytes read as hash items.
pub open spec fn byte_items(bytes: Seq<u8>) -> Seq<i64> {
    bytes.map_values(|b: u8| b as i64)
}

/// Folds the bytes of `bytes` into `seed` with factor 31.
fn fold_bytes(seed: i64, bytes: &[u8]) -> (r: i64)
    ensures
        r == fold_hash(seed, 31, byte_items(bytes@)),
{
    let mut acc = seed;
    let mut i: usize = 0;
    while i < bytes.len()
        invariant
            i <= bytes@.len(),
            acc == fold_hash(seed, 31, byte_items(bytes@.subrange(0, i as int))),
        decreases bytes@.len() - i,
    {
        proof {
            assert(byte_items(bytes@.subrange(0, i + 1)).drop_last() =~= byte_items(bytes@.subrange(0, i as int)));
        }
        acc = acc.wrapping_mul(31).wrapping_add(bytes[i] as i64);
        i += 1;
    }
    proof {
        assert(bytes@.subrange(0, bytes@.len() as int) =~= bytes@);
    }
    acc
}

/// The hash of a `Bytes` value.
pub fn hash_bytes(bytes: &[u8]) -> (r: i64)
    ensures
        r == fold_hash(0, 31, byte_items(bytes@)),
{
    fold_bytes(0, bytes)
}

/// The hash of a `str`: its UTF-8 bytes folded as for `Bytes`.
pub fn hash_str(s: &str) -> (r: i64)
    ensures
        r == fold_hash(0, 31, byte_items(s.spec_bytes())),
{
    fold_bytes(0, s.as_bytes())
}

/// The hash of a `bool`: 1 for true, 0 for false.
pub fn hash_bool(b: bool) -> (r: i64)
    ensures
        r == (if b { 1i64 } else { 0i64 }),
{
    if b { 1 } else { 0 }
}

/// The hash of the integer `v`: `v` itself when it fits an `i64`, else
/// its signed decimal spelling folded from 17.
pub open spec fn integer_hash(v: int) -> i64 {
    if i64::MIN <= v <= i64::MAX {
        v as i64
    } else {
        fold_hash(17, 31, byte_items(decimal_spelling(v)))
    }
}

/// The hash of an integer. It depends on the value alone, so a machine
/// word and an arbitrary-precision integer that are equal hash alike.
pub fn hash_integer(v: &Integer) -> (r: i64)
    ensures
        r == integer_hash(v.value()),
{
    match v {
        Integer::Int(n) => *n,
        Integer::Big(b) => match big_to_i64(b) {
            Some(n) => n,
            None => {
                let spelling = big_decimal_bytes(b);
                fold_bytes(17, spelling.as_slice())
            },
        },
    }
}

/// Whether every item has a hash.
pub open spec fn all_hashable(items: Seq<Option<i64>>) -> bool {
    forall|i: int| 0 <= i < items.len() ==> (#[trigger] items[i]) is Some
}

/// The hashes of hashable items.
pub open spec fn unwrap_hashes(items: Seq<Option<i64>>) -> Seq<i64> {
    items.map_values(|h: Option<i64>| h->Some_0)
}

/// Collects the item hashes, or `None` at the first item that has none.
fn collect_hashes(items: &[Option<i64>]) -> (r: Option<Vec<i64>>)
    ensures
        all_hashable(items@) ==> (r matches Some(v) && v@ == unwrap_hashes(items@)),
        !all_hashable(items@) ==> r is None,
{
    let mut out: Vec<i64> = Vec::new();
    let mut i: usize = 0;
    while i < items.len()
        invariant
            i <= items@.len(),
            out@ == unwrap_hashes(items@.subrange(0, i as int)),
            forall|j: int| 0 <= j < i ==> (#[trigger] items@[j]) is Some,
        decreases items@.len() - i,
    {
        match items[i] {
            Some(h) => {
                proof {
                    assert(unwrap_hashes(items@.subrange(0, i + 1)) =~= unwrap_hashes(items@.subrange(0, i as int)).push(h));
                }
                out.push(h);
            },
            None => {
                return None;
            },
        }
        i += 1;
    }
    proof {
        assert(items@.subrange(0, items@.len() as int) =~= items@);
    }
    Some(out)
}

/// Folds hashes into `seed` with `factor`.
fn fold_items(seed: i64, factor: i64, items: &Vec<i64>) -> (r: i64)
    ensures
        r == fold_hash(seed, factor, items@),
{
    let mut acc = seed;
    let mut i: usize = 0;
    while i < items.len()
        invariant
            i <= items@.len(),
            acc == fold_hash(seed, factor, items@.subrange(0, i as int)),
        decreases items@.len() - i,
    {
        proof {
            assert(items@.subrange(0, i + 1).drop_last() =~= items@.subrange(0, i as int));
        }
        acc = acc.wrapping_mul(factor).wrapping_add(items[i]);
        i += 1;
    }
    proof {
        assert(items@.subrange(0, items@.len() as int) =~= items@);
    }
    acc
}

/// The hash of a list from the hashes of its items (`None` for an item
/// without one): only a frozen list is hashable, and only when every item
/// is; the hashes fold from 1 in order.
pub fn hash_list(frozen: bool, item_hashes: &[Option<i64>]) -> (r: Option<i64>)
    ensures
        frozen && all_hashable(item_hashes@) ==> r == Some(fold_hash(1, 31, unwrap_hashes(item_hashes@))),
        !(frozen && all_hashable(item_hashes@)) ==> r is None,
{
    if !frozen {
        return None;
    }
    match collect_hashes(item_hashes) {
        Some(hashes) => Some(fold_items(1, 31, &hashes)),
        None => None,
    }
}

/// Integers in ascending order.
pub open spec fn ascending(a: i64, b: i64) -> bool {
    a <= b
}

/// `<[i64]>::sort_unstable`: sorts the integers in ascending order. Equal
/// integers are indistinguishable, so the result is the one sorted
/// permutation of the input.
#[verifier::external_body]
fn sort_hashes(v: &mut Vec<i64>)
    ensures
        final(v)@ == old(v)@.sort_by(|a: i64, b: i64| ascending(a, b)),
{
    v.sort_unstable();
}

/// The hash of a set from the hashes of its items: only a frozen set is
/// hashable, and only when every item is; the hashes are sorted (so the
/// order of the items does not matter) and fold from 7 with factor 37.
pub fn hash_set(frozen: bool, item_hashes: &[Option<i64>]) -> (r: Option<i64>)
    ensures
        frozen && all_hashable(item_hashes@) ==> r == Some(fold_hash(7, 37,
            unwrap_hashes(item_hashes@).sort_by(|a: i64, b: i64| ascending(a, b)))),
        !(frozen && all_hashable(item_hashes@)) ==> r is None,
{
    if !frozen {
        return None;
    }
    match collect_hashes(item_hashes) {
        Some(hashes) => {
            let mut sorted = hashes;
            sort_hashes(&mut sorted);
            Some(fold_items(7, 37, &sorted))
        },
        None => None,
    }
}

/// The hash of a set does not depend on the order of its items: item
/// hashes that are permutations of each other sort to the same sequence.
pub proof fn law_set_hash_ignores_order(a: Seq<i64>, b: Seq<i64>)
    requires
        a.to_multiset() == b.to_multiset(),
    ensures
        fold_hash(7, 37, a.sort_by(|x: i64, y: i64| ascending(x, y)))
            == fold_hash(7, 37, b.sort_by(|x: i64, y: i64| ascending(x, y))),
{
    let leq = |x: i64, y: i64| ascending(x, y);
    assert(vstd::relations::total_ordering(leq)) by {
        assert(vstd::relations::reflexive(leq));
        assert(vstd::relations::antisymmetric(leq));
        assert(vstd::relations::transitive(leq));
        assert(vstd::relations::strongly_connected(leq));
    }
    a.lemma_sort_by_ensures(leq);
    b.lemma_sort_by_ensures(leq);
    vstd::seq_lib::lemma_sorted_unique(a.sort_by(leq), b.sort_by(leq), leq);
}


/// `a` comes before `b` byte by byte, a proper prefix first: the order of
/// Rust strings, which compare their UTF-8 bytes.
pub open spec fn bytes_lt(a: Seq<u8>, b: Seq<u8>) -> bool
    decreases a.len(),
{
    if b.len() == 0 {
        false
    } else if a.len() == 0 {
        true
    } else if a[0] != b[0] {
        a[0] < b[0]
    } else {
        bytes_lt(a.drop_first(), b.drop_first())
    }
}

/// Dictionary entries (a key's bytes and a value's hash) by key, then by
/// value.
pub open spec fn entry_le(x: (Seq<u8>, i64), y: (Seq<u8>, i64)) -> bool {
    bytes_lt(x.0, y.0) || (x.0 == y.0 && x.1 <= y.1)
}

/// No byte string comes before itself.
pub(crate) proof fn lemma_bytes_lt_irreflexive(a: Seq<u8>)
    ensures
        !bytes_lt(a, a),
    decreases a.len(),
{
    if a.len() > 0 {
        lemma_bytes_lt_irreflexive(a.drop_first());
    }
}

/// Of two different byte strings, one comes before the other, and not both.
pub(crate) proof fn lemma_bytes_lt_total(a: Seq<u8>, b: Seq<u8>)
    ensures
        a != b ==> bytes_lt(a, b) || bytes_lt(b, a),
        !(bytes_lt(a, b) && bytes_lt(b, a)),
    decreases a.len(),
{
    if a.len() > 0 && b.len() > 0 && a[0] == b[0] {
        lemma_bytes_lt_total(a.drop_first(), b.drop_first());
        if a.drop_first() == b.drop_first() {
            assert(a =~= seq![a[0]] + a.drop_first());
            assert(b =~= seq![b[0]] + b.drop_first());
        }
    } else if a.len() == 0 && b.len() == 0 {
        assert(a =~= b);
    }
}

/// The byte order is transitive.
pub(crate) proof fn lemma_bytes_lt_transitive(a: Seq<u8>, b: Seq<u8>, c: Seq<u8>)
    requires
        bytes_lt(a, b),
        bytes_lt(b, c),
    ensures
        bytes_lt(a, c),
    decreases a.len(),
{
    if a.len() > 0 && a[0] == b[0] && b[0] == c[0] {
        lemma_bytes_lt_transitive(a.drop_first(), b.drop_first(), c.drop_first());
    }
}

/// Entries are totally ordered.
proof fn lemma_entry_total_ordering()
    ensures
        vstd::relations::total_ordering(|x: (Seq<u8>, i64), y: (Seq<u8>, i64)| entry_le(x, y)),
{
    let leq = |x: (Seq<u8>, i64), y: (Seq<u8>, i64)| entry_le(x, y);
    assert forall|x: (Seq<u8>, i64)| #[trigger] leq(x, x) by {}
    assert forall|x: (Seq<u8>, i64), y: (Seq<u8>, i64)| #[trigger] leq(x, y) && #[trigger] leq(y, x) implies x == y by {
        lemma_bytes_lt_total(x.0, y.0);
        lemma_bytes_lt_irreflexive(x.0);
    }
    assert forall|x: (Seq<u8>, i64), y: (Seq<u8>, i64), z: (Seq<u8>, i64)| #[trigger] leq(x, y) && #[trigger] leq(y, z)
        implies leq(x, z) by {
        if bytes_lt(x.0, y.0) && bytes_lt(y.0, z.0) {
            lemma_bytes_lt_transitive(x.0, y.0, z.0);
        }
    }
    assert forall|x: (Seq<u8>, i64), y: (Seq<u8>, i64)| #[trigger] leq(x, y) || #[trigger] leq(y, x) by {
        lemma_bytes_lt_total(x.0, y.0);
    }
}

/// The hash of a key: the hash of the string it is.
pub open spec fn key_hash(key: Seq<u8>) -> i64 {
    fold_hash(0, 31, byte_items(key))
}

/// Folds dictionary entries into `seed`: at each entry, multiply by 41 and
/// add the key's hash xor the value's hash, wrapping around on overflow.
pub open spec fn fold_entries(seed: i64, entries: Seq<(Seq<u8>, i64)>) -> i64
    decreases entries.len(),
{
    if entries.len() == 0 {
        seed
    } else {
        wrapping_add(wrapping_mul(fold_entries(seed, entries.drop_last()), 41), key_hash(entries.last().0) ^ entries.last().1)
    }
}

/// Entries as keys' bytes and values' hashes.
pub open spec fn entry_views(entries: Seq<(String, i64)>) -> Seq<(Seq<u8>, i64)> {
    entries.map_values(|e: (String, i64)| (vstd::utf8::encode_utf8(e.0@), e.1))
}

/// Entries whose value may have no hash, as keys' bytes and values'
/// hashes.
pub open spec fn hashed_entry_views(entries: Seq<(String, Option<i64>)>) -> Seq<(Seq<u8>, i64)> {
    entries.map_values(|e: (String, Option<i64>)| (vstd::utf8::encode_utf8(e.0@), e.1->Some_0))
}

/// Whether every entry's value has a hash.
pub open spec fn all_values_hashable(entries: Seq<(String, Option<i64>)>) -> bool {
    forall|i: int| 0 <= i < entries.len() ==> (#[trigger] entries[i]).1 is Some
}

/// `<[(String, i64)]>::sort_unstable`: sorts the entries by key (strings
/// compare their bytes) and then by value. Equal entries are
/// indistinguishable, so the result is the one sorted permutation.
#[verifier::external_body]
fn sort_entries(v: &mut Vec<(String, i64)>)
    ensures
        entry_views(final(v)@) == entry_views(old(v)@).sort_by(|x: (Seq<u8>, i64), y: (Seq<u8>, i64)| entry_le(x, y)),
{
    v.sort_unstable();
}

/// The hash of a dictionary from its entries (each key with the hash of its
/// value, `None` for a value without one): only a frozen dictionary is
/// hashable, and only when every value is; the entries are sorted by key
/// (so the order they were added in does not matter) and fold from 13.
pub fn hash_dict(frozen: bool, entries: &[(String, Option<i64>)]) -> (r: Option<i64>)
    ensures
        frozen && all_values_hashable(entries@) ==> r == Some(fold_entries(13,
            hashed_entry_views(entries@).sort_by(|x: (Seq<u8>, i64), y: (Seq<u8>, i64)| entry_le(x, y)))),
        !(frozen && all_values_hashable(entries@)) ==> r is None,
{
    if !frozen {
        return None;
    }
    let mut collected: Vec<(String, i64)> = Vec::new();
    let mut i: usize = 0;
    while i < entries.len()
        invariant
            i <= entries@.len(),
            entry_views(collected@) == hashed_entry_views(entries@.subrange(0, i as int)),
            forall|j: int| 0 <= j < i ==> (#[trigger] entries@[j]).1 is Some,
        decreases entries@.len() - i,
    {
        let (key, value) = &entries[i];
        match value {
            Some(h) => {
                let ghost before = collected@;
                collected.push((key.clone(), *h));
                proof {
                    assert(entry_views(collected@) =~= entry_views(before).push((vstd::utf8::encode_utf8(key@), *h)));
                    assert(hashed_entry_views(entries@.subrange(0, i + 1)) =~= hashed_entry_views(entries@.subrange(0, i as int)).push(
                        (vstd::utf8::encode_utf8(key@), *h)));
                }
            },
            None => {
                return None;
            },
        }
        i += 1;
    }
    proof {
        assert(entries@.subrange(0, entries@.len() as int) =~= entries@);
    }
    sort_entries(&mut collected);
    let ghost sorted = entry_views(collected@);
    let mut acc: i64 = 13;
    let mut k: usize = 0;
    while k < collected.len()
        invariant
            k <= collected@.len(),
            sorted == entry_views(collected@),
            acc == fold_entries(13, sorted.subrange(0, k as int)),
        decreases collected@.len() - k,
    {
        let key_h = hash_str(collected[k].0.as_str());
        proof {
            assert(sorted.subrange(0, k + 1).drop_last() =~= sorted.subrange(0, k as int));
            assert(sorted[k as int] == (vstd::utf8::encode_utf8(collected@[k as int].0@), collected@[k as int].1));
        }
        acc = acc.wrapping_mul(41).wrapping_add(key_h ^ collected[k].1);
        k += 1;
    }
    proof {
        assert(sorted.subrange(0, sorted.len() as int) =~= sorted);
    }
    Some(acc)
}

/// The hash of a dictionary does not depend on the order its entries were
/// added in: entries that are permutations of each other sort to the same
/// sequence.
pub proof fn law_dict_hash_ignores_order(a: Seq<(Seq<u8>, i64)>, b: Seq<(Seq<u8>, i64)>)
    requires
        a.to_multiset() == b.to_multiset(),
    ensures
        fold_entries(13, a.sort_by(|x: (Seq<u8>, i64), y: (Seq<u8>, i64)| entry_le(x, y)))
            == fold_entries(13, b.sort_by(|x: (Seq<u8>, i64), y: (Seq<u8>, i64)| entry_le(x, y))),
{
    let leq = |x: (Seq<u8>, i64), y: (Seq<u8>, i64)| entry_le(x, y);
    lemma_entry_total_ordering();
    a.lemma_sort_by_ensures(leq);
    b.lemma_sort_by_ensures(leq);
    vstd::seq_lib::lemma_sorted_unique(a.sort_by(leq), b.sort_by(leq), leq);
}

/// Equal integers hash alike, whether held in a machine word or at
/// arbitrary precision: the hash depends on the value alone.
pub proof fn law_equal_integers_hash_alike(a: Integer, b: Integer)
    requires
        a.value() == b.value(),
    ensures
        integer_hash(a.value()) == integer_hash(b.value()),
{
}
} // verus!
