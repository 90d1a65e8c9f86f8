use lucid_runtime::range::{materialize_range, range_contains, range_is_truthy, range_len};
use lucid_runtime::slice::{slice_copied, slice_object, slice_positions, slice_range, SliceArg};
use lucid_runtime::bytes::memoryview_positions;

#[test]
fn range_materialization_stops_at_integer_overflow() {
    let values = materialize_range(i64::MAX - 1, i64::MAX, 2);
    assert_eq!(values, vec![i64::MAX - 1]);
}

#[test]
fn materialized_ranges_follow_the_progression() {
    assert_eq!(materialize_range(0, 10, 3), vec![0, 3, 6, 9]);
    assert_eq!(materialize_range(5, 0, -2), vec![5, 3, 1]);
    assert_eq!(materialize_range(3, 3, 1), Vec::<i64>::new());
    assert_eq!(materialize_range(0, 5, 0), Vec::<i64>::new());
    assert_eq!(materialize_range(-9223372036854775806, i64::MIN, -2), vec![-9223372036854775806]);
}

#[test]
fn membership_uses_the_arithmetic_progression() {
    assert!(range_contains(0, 10, 2, 4));
    assert!(!range_contains(0, 10, 2, 5));
    assert!(range_contains(5, 0, -2, 3));
    assert!(!range_contains(5, 0, -2, 4));
    assert!(!range_contains(0, 10, 2, 10));
    assert!(!range_contains(0, 10, 0, 0));
}

#[test]
fn lengths_and_truthiness() {
    assert_eq!(range_len(0, 10, 3), 4);
    assert_eq!(range_len(5, 0, -2), 3);
    assert_eq!(range_len(0, 0, 1), 0);
    assert_eq!(range_len(10, 0, 1), 0);
    assert!(range_is_truthy(0, 1, 1));
    assert!(!range_is_truthy(1, 0, 1));
    assert!(!range_is_truthy(0, 10, 0));
}

#[test]
fn slices_of_ranges_materialize_positions() {
    assert_eq!(slice_range(0, 6, 1, Some(1), Some(5), 2).unwrap(), vec![1, 3]);
    assert_eq!(slice_range(5, 0, -1, None, None, -2).unwrap(), vec![1, 3, 5]);
}

#[test]
fn slice_positions_clamp_and_step() {
    assert_eq!(slice_positions(5, None, None, 1).unwrap(), vec![0, 1, 2, 3, 4]);
    assert_eq!(slice_positions(5, Some(-2), None, 1).unwrap(), vec![3, 4]);
    assert_eq!(slice_positions(5, None, None, -1).unwrap(), vec![4, 3, 2, 1, 0]);
    assert_eq!(slice_positions(5, Some(1), Some(100), 2).unwrap(), vec![1, 3]);
    assert_eq!(slice_positions(5, Some(-100), Some(2), 1).unwrap(), vec![0, 1]);
    let e = slice_positions(5, None, None, 0).err().unwrap();
    assert_eq!(e.message, "slice step cannot be zero");
}

#[test]
fn slicing_copies_the_chosen_items() {
    let items = vec![10u8, 20, 30, 40];
    assert_eq!(slice_copied(&items, Some(1), None, 1).unwrap(), vec![20, 30, 40]);
    assert_eq!(slice_copied(&items, None, None, -2).unwrap(), vec![40, 20]);
    let e = slice_copied(&items, None, None, 0).err().unwrap();
    assert_eq!(e.message, "slice step cannot be zero");
}

#[test]
fn memoryview_positions_skip_out_of_range_items() {
    assert_eq!(memoryview_positions(6, 1, 3, 2), vec![1, 3, 5]);
    assert_eq!(memoryview_positions(4, 1, 3, 2), vec![1, 3]);
    assert_eq!(memoryview_positions(4, 3, 2, -1), vec![3, 2]);
    assert_eq!(memoryview_positions(4, 0, 0, 1), Vec::<usize>::new());
}

#[test]
fn slice_objects_take_integers_or_none() {
    let b = slice_object(&[SliceArg::Int(1), SliceArg::NoneValue, SliceArg::Int(-1)]).unwrap();
    assert_eq!((b.start, b.stop, b.step), (Some(1), None, Some(-1)));
    let b = slice_object(&[SliceArg::Int(4)]).unwrap();
    assert_eq!((b.start, b.stop, b.step), (Some(4), None, None));
    assert_eq!(slice_object(&[]).err().unwrap().message, "slice() takes one to three arguments");
    assert_eq!(
        slice_object(&[SliceArg::Int(1), SliceArg::Other]).err().unwrap().message,
        "slice stop must be an integer or none"
    );
    assert_eq!(
        slice_object(&[SliceArg::Other, SliceArg::Other]).err().unwrap().message,
        "slice start must be an integer or none"
    );
}

#[test]
fn range_membership_uses_arithmetic_progression() {
    assert_eq!(range_contains(0, 10, 2, 4), true);
    assert_eq!(range_contains(0, 10, 2, 5), false);
    assert_eq!(range_contains(5, 0, -2, 3), true);
    assert_eq!(!range_contains(5, 0, -2, 4), true);
}
