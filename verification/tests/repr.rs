use lucid_runtime::repr::{int_repr, range_repr};
use lucid_runtime::integer::{INT_NAN, INT_NEG_INF, INT_POS_INF};

#[test]
fn integers_show_sentinels_by_name() {
    assert_eq!(int_repr(INT_POS_INF), "int.inf");
    assert_eq!(int_repr(INT_NEG_INF), "-int.inf");
    assert_eq!(int_repr(INT_NAN), "int.nan");
    assert_eq!(int_repr(0), "0");
    assert_eq!(int_repr(42), "42");
    assert_eq!(int_repr(-1907), "-1907");
    assert_eq!(int_repr(i64::MAX - 1), "9223372036854775806");
}

#[test]
fn ranges_show_their_step_unless_it_is_one() {
    assert_eq!(range_repr(0, 5, 1), "range(0, 5)");
    assert_eq!(range_repr(5, 0, -2), "range(5, 0, -2)");
    assert_eq!(range_repr(i64::MIN, i64::MAX, 3), "range(-9223372036854775808, 9223372036854775807, 3)");
}
