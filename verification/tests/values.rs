//! Tests of the typed value model: the scalar inference cascade and the
//! canonical text forms.
use hienmark_analysis::values::Decimal;
use hienmark_analysis::values::TagValue;

#[test]
fn integers_read_before_anything_else() {
    match TagValue::infer("3") {
        TagValue::Number(n) => assert_eq!(n, 3),
        other => panic!("expected an integer, got {other:?}"),
    }
    match TagValue::infer("-42") {
        TagValue::Number(n) => assert_eq!(n, -42),
        other => panic!("expected an integer, got {other:?}"),
    }
}

#[test]
fn decimals_read_after_integers() {
    match TagValue::infer("2.5") {
        TagValue::Float(d) => assert_eq!(d, Decimal { micros: 2_500_000 }),
        other => panic!("expected a decimal, got {other:?}"),
    }
    match TagValue::infer("-0.25") {
        TagValue::Float(d) => assert_eq!(d, Decimal { micros: -250_000 }),
        other => panic!("expected a decimal, got {other:?}"),
    }
}

#[test]
fn booleans_read_after_numbers() {
    assert!(matches!(TagValue::infer("true"), TagValue::Bool(true)));
    assert!(matches!(TagValue::infer("false"), TagValue::Bool(false)));
}

#[test]
fn everything_else_reads_as_text() {
    assert!(matches!(TagValue::infer("high"), TagValue::String(s) if s == "high"));
    assert!(matches!(TagValue::infer("2025-11-15"), TagValue::String(s) if s == "2025-11-15"));
    assert!(matches!(TagValue::infer(""), TagValue::String(s) if s.is_empty()));
    assert!(matches!(TagValue::infer("-"), TagValue::String(s) if s == "-"));
}

#[test]
fn out_of_range_literals_read_as_text() {
    assert!(matches!(
        TagValue::infer("99999999999999999999"),
        TagValue::String(_)
    ));
    assert!(matches!(
        TagValue::infer("1.23456789"),
        TagValue::String(_)
    ));
}

#[test]
fn widest_integers_still_read_as_integers() {
    match TagValue::infer("-9223372036854775808") {
        TagValue::Number(n) => assert_eq!(n, i64::MIN),
        other => panic!("expected an integer, got {other:?}"),
    }
    match TagValue::infer("9223372036854775807") {
        TagValue::Number(n) => assert_eq!(n, i64::MAX),
        other => panic!("expected an integer, got {other:?}"),
    }
}
