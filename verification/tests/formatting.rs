use lucid_runtime::formatting::{format_builtin, FormatValue, Formatted};

fn text(s: &str) -> FormatValue {
    FormatValue::Text(s.to_string())
}

fn formatted(s: &str) -> Formatted {
    Formatted::Text(s.to_string())
}

#[test]
fn integers_in_other_bases() {
    assert_eq!(format_builtin(&[FormatValue::Int(255), text("x")]).unwrap(), formatted("ff"));
    assert_eq!(format_builtin(&[FormatValue::Int(255), text("X")]).unwrap(), formatted("FF"));
    assert_eq!(format_builtin(&[FormatValue::Int(10), text("b")]).unwrap(), formatted("1010"));
    assert_eq!(format_builtin(&[FormatValue::Int(8), text("o")]).unwrap(), formatted("10"));
    assert_eq!(format_builtin(&[FormatValue::Int(0), text("x")]).unwrap(), formatted("0"));
}

#[test]
fn negative_integers_in_twos_complement() {
    assert_eq!(format_builtin(&[FormatValue::Int(-1), text("x")]).unwrap(), formatted(&format!("{:x}", -1i64)));
    assert_eq!(format_builtin(&[FormatValue::Int(i64::MIN), text("b")]).unwrap(), formatted(&format!("{:b}", i64::MIN)));
    assert_eq!(format_builtin(&[FormatValue::Int(-8), text("o")]).unwrap(), formatted(&format!("{:o}", -8i64)));
}

#[test]
fn values_without_spec() {
    assert_eq!(format_builtin(&[text("hi")]).unwrap(), formatted("hi"));
    assert_eq!(format_builtin(&[FormatValue::Int(3)]).unwrap(), Formatted::Debug);
    assert_eq!(format_builtin(&[FormatValue::Float]).unwrap(), Formatted::FloatShortest);
    assert_eq!(format_builtin(&[FormatValue::Float, text("f")]).unwrap(), Formatted::FloatFixed);
    assert_eq!(format_builtin(&[FormatValue::Other, text("")]).unwrap(), Formatted::Debug);
}

#[test]
fn format_errors() {
    assert_eq!(format_builtin(&[]).unwrap_err().message, "format() takes one or two arguments");
    assert_eq!(format_builtin(&[FormatValue::Int(1), text("x"), text("x")]).unwrap_err().message, "format() takes one or two arguments");
    assert_eq!(format_builtin(&[FormatValue::Int(1), FormatValue::Int(2)]).unwrap_err().message, "format spec must be a string");
    assert_eq!(format_builtin(&[FormatValue::Int(1), text("q")]).unwrap_err().message, "unsupported format specifier 'q'");
    assert_eq!(format_builtin(&[text("s"), text("x")]).unwrap_err().message, "unsupported format specifier 'x'");
    assert_eq!(format_builtin(&[FormatValue::Float, text("x")]).unwrap_err().message, "unsupported format specifier 'x'");
}
