use ordinary::explain::{explains_unreadable, unreadable};
use ordinary::value::{Error, Value};

fn text(s: &str) -> Value {
    Value::Text(s.to_string())
}

fn integer(s: &str) -> Value {
    Value::Integer(s.to_string())
}

fn list(items: &[&str]) -> Value {
    Value::List(items.iter().map(|s| text(s)).collect())
}

fn mapping(pairs: Vec<(&str, Value)>) -> Value {
    Value::Mapping(pairs.into_iter().map(|(k, v)| (k.to_string(), v)).collect())
}

const CLOSING: &str = "\n\nEither those names are wrong, or one of these is a dependency field this reader cannot see by shape - and it does not guess between them. Fix the names, or say which:\n\nschema:\n  deps: <field name>";

#[test]
fn a_declared_field_nothing_carries_names_the_fields_in_sight() {
    let doc = mapping(vec![
        ("known", mapping(vec![("p.a", mapping(vec![("v", integer("1")), ("of", text("2026-01-01"))]))])),
        ("schema", mapping(vec![("deps", text("needs"))])),
    ]);
    let e = unreadable(&doc);
    assert_eq!(
        e.0,
        "schema names 'needs' for 'deps', and nothing this reader can see carries it: no judgment would be found, and the record would pass by having nothing left to check.\nFields it can see: of, v"
    );
    assert!(explains_unreadable(&e));
}

#[test]
fn a_declared_field_that_is_carried_keeps_the_code() {
    let doc = mapping(vec![
        ("known", mapping(vec![("p.a", mapping(vec![("v", integer("1"))]))])),
        ("schema", mapping(vec![("deps", text("v"))])),
    ]);
    let e = unreadable(&doc);
    assert_eq!(e.0, "ordinary_fields_unreadable");
    assert!(!explains_unreadable(&e));
}

#[test]
fn nothing_declared_and_nothing_listed() {
    let doc = mapping(vec![("known", mapping(vec![("p.a", mapping(vec![("v", integer("1"))]))]))]);
    assert_eq!(
        unreadable(&doc).0,
        "no dependency field found: nothing declares what it rests on, so there is no graph to walk"
    );
}

#[test]
fn broken_lists_are_named_with_their_first_holder() {
    let doc = mapping(vec![
        ("decisions", mapping(vec![("d.x", mapping(vec![("needs", list(&["p.a", "p.zz"]))]))])),
        ("known", mapping(vec![("p.a", mapping(vec![("v", integer("1"))]))])),
    ]);
    let e = unreadable(&doc);
    let expected = format!(
        "no dependency field found: no field lists names that are all entries in this record, so there is no graph to walk.\nThese list names that are not entries:\n  needs: p.zz (in d.x){CLOSING}"
    );
    assert_eq!(e.0, expected);
    assert!(explains_unreadable(&e));
}

#[test]
fn the_fields_with_most_holders_come_first_and_the_rest_are_counted() {
    let doc = mapping(vec![
        (
            "decisions",
            mapping(vec![
                ("d.one", mapping(vec![("a", list(&["y.1", "y.2", "y.3", "y.4"])), ("b", list(&["x.1"]))])),
                ("d.two", mapping(vec![("b", list(&["x.2"])), ("c", list(&["z.1"])), ("d", list(&["w.1"]))])),
            ]),
        ),
    ]);
    let expected = format!(
        "no dependency field found: no field lists names that are all entries in this record, so there is no graph to walk.\nThese list names that are not entries:\n  b: x.1 (in d.one, and 1 more)\n  a: y.1, y.2, y.3 ... (in d.one)\n  c: z.1 (in d.two)\n  ... and 1 more: d{CLOSING}"
    );
    assert_eq!(unreadable(&doc).0, expected);
}

#[test]
fn a_field_that_votes_keeps_the_code() {
    let doc = mapping(vec![
        ("decisions", mapping(vec![("d.x", mapping(vec![("needs", list(&["p.a"]))]))])),
        ("known", mapping(vec![("p.a", mapping(vec![("v", integer("1"))]))])),
    ]);
    assert_eq!(unreadable(&doc).0, "ordinary_fields_unreadable");
}

#[test]
fn a_record_that_is_not_a_mapping_keeps_the_code() {
    assert_eq!(unreadable(&text("hello")).0, "ordinary_fields_unreadable");
}

#[test]
fn only_accounts_are_recognised() {
    assert!(explains_unreadable(&Error("no dependency field found: anything".to_string())));
    assert!(!explains_unreadable(&Error("schema names 'x' but nothing more".to_string())));
    assert!(explains_unreadable(&Error(
        "schema names 'x' for 'deps', and nothing this reader can see carries it: ...".to_string()
    )));
    assert!(!explains_unreadable(&Error("invalid_snapshot".to_string())));
}
