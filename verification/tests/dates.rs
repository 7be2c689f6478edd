use ordinary::dates::{entry_date, parse_date};
use ordinary::value::Value;

fn body(pairs: Vec<(&str, Value)>) -> Vec<(String, Value)> {
    pairs.into_iter().map(|(k, v)| (k.to_string(), v)).collect()
}

#[test]
fn iso_days_are_read_once_trimmed() {
    assert_eq!(parse_date(" 2024-03-05 "), Some((2024, 3, 5)));
    assert_eq!(parse_date("2024-02-30"), None);
    assert_eq!(parse_date("05/03/2024"), None);
}

#[test]
fn an_entry_is_dated_by_its_value_in_any_of_three_forms() {
    assert_eq!(entry_date(&body(vec![("v", Value::Text("2024-03-05".into()))])), Some((2024, 3, 5)));
    assert_eq!(entry_date(&body(vec![("quoted", Value::Text(" 05/03/2024 ".into()))])), Some((2024, 3, 5)));
    assert_eq!(entry_date(&body(vec![("v", Value::Text("05.03.2024".into()))])), Some((2024, 3, 5)));
    assert_eq!(
        entry_date(&body(vec![("v", Value::Text("".into())), ("quoted", Value::Text("2023-12-31".into()))])),
        Some((2023, 12, 31))
    );
    assert_eq!(entry_date(&body(vec![("v", Value::Text("soon".into()))])), None);
    assert_eq!(entry_date(&body(vec![("of", Value::Text("2024-03-05".into()))])), None);
}
