use ordinary::union::{entry_reading, gone_dependencies, judgment_kind_change};
use ordinary::value::Value;

fn text(s: &str) -> Value {
    Value::Text(s.to_string())
}

fn mapping(pairs: Vec<(&str, Value)>) -> Value {
    Value::Mapping(pairs.into_iter().map(|(k, v)| (k.to_string(), v)).collect())
}

fn list(xs: &[&str]) -> Value {
    Value::List(xs.iter().map(|s| text(s)).collect())
}

#[test]
fn a_judgment_keeps_its_kind_at_the_fold() {
    let judgment = mapping(vec![("rests_on", list(&["p.a"]))]);
    assert!(judgment_kind_change(&judgment, "rests_on", false, false).is_none());
    assert!(judgment_kind_change(&text("1"), "rests_on", false, false).unwrap().starts_with("the base holds a judgment under this id and the hypothesis an entry"));
    assert!(judgment_kind_change(&judgment, "rests_on", true, false).unwrap().starts_with("what replaces an arrangement is an arrangement"));
    assert!(judgment_kind_change(&judgment, "rests_on", false, true).unwrap().starts_with("the base holds a judgment under this id and the hypothesis an arrangement"));
}

#[test]
fn readings_over_entries_are_decided_in_order() {
    let old = mapping(vec![("from", text("s.one")), ("v", text("1"))]);
    let new = mapping(vec![("from", text("s.two")), ("v", text("2"))]);
    let judgment = mapping(vec![("rests_on", list(&["p.a"]))]);
    let d = entry_reading(&judgment, &old, "rests_on", None, None, "2024-05-01", false, false, false, "h", "p.a").unwrap();
    assert!(!d.allowed && d.why.starts_with("the base holds an entry under this id and the hypothesis a judgment"));
    let d = entry_reading(&new, &old, "rests_on", Some("2024-06-01"), None, "2024-05-01", false, false, false, "h", "p.a").unwrap();
    assert_eq!(d.why, "a reading dated 2024-06-01, after today (2024-05-01) - a day is the record's clock, and a day ahead is not read");
    let d = entry_reading(&new, &old, "rests_on", Some("2024-04-01"), None, "2024-05-01", false, false, false, "h", "p.a").unwrap();
    assert!(!d.allowed && d.sourced);
    assert_eq!(d.why, "a reading from s.two where the base reads from s.one - one id follows one source; take it by name: consolidate h --take p.a");
    let d = entry_reading(&new, &old, "rests_on", Some("2024-04-01"), None, "2024-05-01", false, false, true, "h", "p.a").unwrap();
    assert!(d.allowed && !d.sourced);
    assert_eq!(d.why, "a reading from s.two where the base reads from s.one - taken by name");
    let d = entry_reading(&new, &old, "rests_on", None, Some("2024-01-01"), "2024-05-01", true, false, false, "h", "p.a").unwrap();
    assert_eq!(d.why, "the reading is undated, and the base's is from 2024-01-01");
    assert!(entry_reading(&new, &old, "rests_on", Some("2024-04-01"), None, "2024-05-01", true, false, false, "h", "p.a").is_none());
}

#[test]
fn dropped_dependencies_must_be_named() {
    let old = mapping(vec![("rests_on", list(&["p.a", "p.b", "p.c"]))]);
    let new = mapping(vec![("rests_on", list(&["p.a"]))]);
    assert_eq!(gone_dependencies(&old, &new, "rests_on", &vec![]), vec!["p.b".to_string(), "p.c".to_string()]);
    assert_eq!(gone_dependencies(&old, &new, "rests_on", &vec!["p.c".to_string()]), vec!["p.b".to_string()]);
    assert!(gone_dependencies(&new, &old, "rests_on", &vec![]).is_empty());
}
