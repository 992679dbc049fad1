//! Value rendering and fixed-width formatting.

use bight_engine::value::ErrKind;
use bight_engine::value::TableValue;

#[test]
fn format_number() {
    assert_eq!(TableValue::from_number(6).format_to_length(5), "6    ");
    assert_eq!(TableValue::from_number(678910).format_to_length(5), "67891");
}

#[test]
fn format_string() {
    assert_eq!(
        TableValue::from_stringable("6").format_to_length(5),
        "6    "
    );
    assert_eq!(
        TableValue::from_stringable("678910").format_to_length(5),
        "67891"
    );
}

#[test]
fn format_takes_the_first_line_only() {
    assert_eq!(
        TableValue::from_stringable("ab\ncd").format_to_length(4),
        "ab  "
    );
}

#[test]
fn render_forms() {
    assert_eq!(TableValue::Empty.render(), "");
    assert_eq!(TableValue::from_number(-42).render(), "-42");
    assert_eq!(TableValue::from_number(0).render(), "0");
    assert_eq!(TableValue::from_stringable("hi").render(), "hi");
    assert_eq!(
        TableValue::other_error("broken".to_string()).render(),
        "#ERR: broken"
    );
}

#[test]
fn error_constructors_carry_kind_and_message() {
    let e = TableValue::lua_error("msg".to_string());
    assert!(e.is_err());
    match &e {
        TableValue::Error(err) => {
            assert_eq!(err.kind, ErrKind::Script);
            assert_eq!(err.message, "msg");
        }
        other => panic!("unexpected value {other:?}"),
    }
    assert!(!TableValue::Empty.is_err());
    assert!(!TableValue::from_number(1).is_err());
    match TableValue::cycle_error("loop".to_string()) {
        TableValue::Error(err) => assert_eq!(err.kind, ErrKind::Cycle),
        other => panic!("unexpected value {other:?}"),
    }
}

#[test]
fn dup_preserves_the_value() {
    let v = TableValue::from_stringable("copy me");
    let w = v.dup();
    assert_eq!(w.render(), v.render());
    let n = TableValue::from_number(9).dup();
    assert_eq!(n.render(), "9");
}
