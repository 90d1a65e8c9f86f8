use lucid_runtime::bytes::{
    binary_sequence_items, byte_from_value, bytes_contains, bytes_from_items, cannot_convert_error, concat_bytes, repeat_bytes, repeat_str,
};
use lucid_runtime::integer::Integer;
use num_bigint::BigInt;

#[test]
fn repetition_and_concatenation() {
    assert_eq!(repeat_bytes(&[1, 2], 3), vec![1, 2, 1, 2, 1, 2]);
    assert_eq!(repeat_bytes(&[1, 2], 0), Vec::<u8>::new());
    assert_eq!(repeat_bytes(&[1, 2], -4), Vec::<u8>::new());
    assert_eq!(concat_bytes(&[1, 2], &[3]), vec![1, 2, 3]);
    assert_eq!(concat_bytes(&[], &[]), Vec::<u8>::new());
    assert_eq!(repeat_str("ab", 2), "abab");
    assert_eq!(repeat_str("ab", -1), "");
}

#[test]
fn byte_conversion_accepts_in_range_integers() {
    assert_eq!(byte_from_value(Some(&Integer::Int(255)), "bytes").unwrap(), 255);
    assert_eq!(byte_from_value(Some(&Integer::Int(0)), "bytes").unwrap(), 0);
    assert_eq!(byte_from_value(Some(&Integer::Big(BigInt::from(200))), "bytes").unwrap(), 200);
}

#[test]
fn byte_conversion_rejects_everything_else() {
    let e = byte_from_value(Some(&Integer::Int(256)), "bytes").err().unwrap();
    assert_eq!(e.message, "bytes items must be integers in 0..255");
    let e = byte_from_value(Some(&Integer::Int(-1)), "bytearray").err().unwrap();
    assert_eq!(e.message, "bytearray items must be integers in 0..255");
    let e = byte_from_value(Some(&Integer::Big(BigInt::from(1) << 70)), "bytes").err().unwrap();
    assert_eq!(e.message, "bytes items must be integers in 0..255");
    let e = byte_from_value(None, "bytes").err().unwrap();
    assert_eq!(e.message, "bytes items must be integers in 0..255");
}

#[test]
fn byte_sequences_from_items() {
    let items = vec![Some(Integer::Int(1)), Some(Integer::Big(BigInt::from(2))), Some(Integer::Int(255))];
    assert_eq!(bytes_from_items(&items, "bytes").unwrap(), vec![1, 2, 255]);
    let items = vec![Some(Integer::Int(1)), None];
    assert_eq!(bytes_from_items(&items, "bytes").err().unwrap().message, "bytes items must be integers in 0..255");
    assert_eq!(binary_sequence_items(&[7, 8, 255]), vec![7, 8, 255]);
}

#[test]
fn membership_compares_byte_values() {
    assert!(bytes_contains(&[1, 2, 200], 200));
    assert!(!bytes_contains(&[1, 2], 3));
    assert!(!bytes_contains(&[0], 256));
    assert!(!bytes_contains(&[255], -1));
}

#[test]
fn byte_conversions_accept_in_range_bigints_and_reject_invalid_inputs() {
    let two_to_200 = BigInt::from(2).pow(200);
    let items = vec![Some(Integer::Int(256 - 1)), Some(Integer::Big(two_to_200.clone()))];
    let error = bytes_from_items(&items, "bytes() list").expect_err("out-of-range bytearray item must fail");
    assert!(error.message.contains("0..255"));
    let error = bytes_from_items(&vec![Some(Integer::Int(256))], "bytearray() list")
        .expect_err("out-of-range bytearray item must fail");
    assert!(error.message.contains("0..255"));

    let error = bytes_from_items(&vec![Some(Integer::Big(two_to_200))], "bytes() list")
        .expect_err("oversized bigint must not be accepted as a byte");
    assert!(error.message.contains("0..255"));

    let error = cannot_convert_error("bytes", "int");
    assert!(error.message.contains("cannot convert int"));
}

#[test]
fn in_range_bigint_items_become_bytes() {
    let items = vec![Some(Integer::Int(255)), Some(Integer::Big(BigInt::from(7)))];
    assert_eq!(bytes_from_items(&items, "bytes() list").unwrap(), vec![255u8, 7]);
    assert_eq!(cannot_convert_error("bytearray", "dict").message, "bytearray() cannot convert dict");
}
