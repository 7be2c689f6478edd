use ordinary::language::{is_finite, legacy_syntax};
use ordinary::value::{NonFinite, Value};

#[test]
fn nonfinite_extra_fields_do_not_widen_expression_grammar() {
    let value = Value::Mapping(vec![
        ("expr".to_string(), Value::Text("p.value + 1".to_string())),
        ("extra".to_string(), Value::NonFinite(NonFinite::NaN)),
    ]);
    assert!(legacy_syntax(&value).is_err());
}

#[test]
fn explicit_expression_mapping_is_read_as_it_stands() {
    let value = Value::Mapping(vec![("expr".to_string(), Value::Text("p.value + 1".to_string()))]);
    assert_eq!(legacy_syntax(&value).unwrap(), value);
}

#[test]
fn nonfinite_parts_are_refused_at_any_depth() {
    let nested = Value::List(vec![Value::Mapping(vec![(
        "x".to_string(),
        Value::NonFinite(NonFinite::Infinity),
    )])]);
    assert!(!is_finite(&nested));
    assert_eq!(legacy_syntax(&nested).unwrap_err().0, "invalid_legacy_expression");
    let plain = Value::List(vec![Value::Integer("1".to_string()), Value::Text("a".to_string())]);
    assert!(is_finite(&plain));
    assert_eq!(legacy_syntax(&plain).unwrap(), plain);
}
