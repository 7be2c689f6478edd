use ordinary::migration::{migration_allowed, migration_fields, references_checked};
use ordinary::value::Value;

fn strings(xs: &[&str]) -> Vec<String> {
    xs.iter().map(|s| s.to_string()).collect()
}

fn text(s: &str) -> Value {
    Value::Text(s.to_string())
}

#[test]
fn a_migration_takes_one_file_and_no_hypotheses() {
    assert!(migration_allowed(&strings(&["r.yaml"]), "r.yaml", 0).is_ok());
    assert_eq!(
        migration_allowed(&strings(&["r.yaml", "more.yaml"]), "r.yaml", 0).unwrap_err().0,
        "multi-file and pointer records require primary review"
    );
    assert_eq!(
        migration_allowed(&strings(&["other.yaml"]), "r.yaml", 0).unwrap_err().0,
        "multi-file and pointer records require primary review"
    );
    assert_eq!(
        migration_allowed(&strings(&["r.yaml"]), "r.yaml", 2).unwrap_err().0,
        "a record with hypothesis context requires primary review"
    );
}

#[test]
fn the_fields_a_migration_converts() {
    let judgment = vec![("wrong_if".to_string(), text("p.a > 2")), ("rule".to_string(), text("x"))];
    assert_eq!(migration_fields(&judgment, true, "wrong_if", false, false), vec![("wrong_if".to_string(), true, false)]);
    let value = vec![("v".to_string(), text("p.a + p.b"))];
    assert_eq!(migration_fields(&value, false, "wrong_if", true, false), vec![("v".to_string(), false, false)]);
    assert!(migration_fields(&value, false, "wrong_if", false, false).is_empty());
    let tree = vec![("rule".to_string(), Value::Mapping(vec![("op".to_string(), text("+"))]))];
    assert_eq!(migration_fields(&tree, false, "wrong_if", false, true), vec![("rule".to_string(), false, true)]);
    assert!(migration_fields(&tree, false, "wrong_if", false, false).is_empty());
    let blank = vec![("rule".to_string(), text("  "))];
    assert!(migration_fields(&blank, false, "wrong_if", false, true).is_empty());
}

#[test]
fn converted_expressions_name_known_and_declared_ids() {
    let ids = strings(&["p.a", "p.b"]);
    let deps = Value::List(vec![text("p.a")]);
    assert!(references_checked(&strings(&["p.a"]), &ids, &deps, true).is_ok());
    assert!(references_checked(&strings(&["p.a", "p.b"]), &ids, &Value::Null, false).is_ok());
    assert_eq!(
        references_checked(&strings(&["q.z", "p.a", "q.c", "q.z"]), &ids, &deps, true).unwrap_err().0,
        "unknown or ambiguous bare names: q.c, q.z"
    );
    assert_eq!(
        references_checked(&strings(&["p.a", "p.b"]), &ids, &deps, true).unwrap_err().0,
        "predicate references are not declared in rests_on"
    );
    assert_eq!(
        references_checked(&strings(&["p.a"]), &ids, &Value::Null, true).unwrap_err().0,
        "predicate references are not declared in rests_on"
    );
}
