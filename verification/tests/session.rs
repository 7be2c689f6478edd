use ordinary::session::apply_profile;
use ordinary::value::Value;

fn text(s: &str) -> Value {
    Value::Text(s.to_string())
}

fn integer(s: &str) -> Value {
    Value::Integer(s.to_string())
}

fn mapping(pairs: Vec<(&str, Value)>) -> Value {
    Value::Mapping(pairs.into_iter().map(|(k, v)| (k.to_string(), v)).collect())
}

fn strings(xs: &[&str]) -> Vec<String> {
    xs.iter().map(|s| s.to_string()).collect()
}

fn profile(ids: Vec<Value>) -> Value {
    mapping(vec![("groups", mapping(vec![("a", Value::List(ids))]))])
}

fn error_of(nodes: &[&str], p: &Value) -> String {
    match apply_profile(&strings(nodes), p) {
        Err(e) => e.0,
        Ok(_) => panic!("expected a refusal"),
    }
}

fn unmatched_of(nodes: &[&str], p: &Value) -> Vec<Value> {
    match apply_profile(&strings(nodes), p) {
        Ok(Some(r)) => r.unmatched,
        _ => panic!("expected a profile"),
    }
}

#[test]
fn an_empty_profile_changes_nothing() {
    assert!(matches!(apply_profile(&strings(&["p.a"]), &mapping(vec![])), Ok(None)));
}

#[test]
fn a_profile_declares_groups() {
    assert_eq!(error_of(&["p.a"], &mapping(vec![("orientation", mapping(vec![]))])), "profile must contain declared groups");
    assert_eq!(error_of(&["p.a"], &text("x")), "profile must contain declared groups");
}

#[test]
fn a_profile_places_nodes_under_topics() {
    let p = mapping(vec![
        ("description", text("Mine")),
        ("groups", mapping(vec![("core/basics", Value::List(vec![text("p.a"), text("x.y")]))])),
    ]);
    let r = apply_profile(&strings(&["p.a", "p.b"]), &p).unwrap().unwrap();
    assert_eq!(
        r.topics,
        vec![
            ("p.a".to_string(), strings(&["core", "basics"])),
            ("p.b".to_string(), strings(&["catalog", "p"])),
        ]
    );
    assert_eq!(r.unmatched, vec![text("x.y")]);
    assert_eq!(r.opening_depth, 1);
    assert_eq!(r.description, "Mine");
    assert_eq!(r.orientation, mapping(vec![]));
}

#[test]
fn unmatched_ids_sort_as_python_sorts_them() {
    assert_eq!(unmatched_of(&[], &profile(vec![text("q.z"), text("q.a")])), vec![text("q.a"), text("q.z")]);
    assert_eq!(
        unmatched_of(&[], &profile(vec![integer("10"), integer("-2"), Value::Bool(true), integer("3"), integer("-10")])),
        vec![integer("-10"), integer("-2"), Value::Bool(true), integer("3"), integer("10")]
    );
    assert_eq!(
        unmatched_of(&[], &profile(vec![integer("100000000000000000000000"), integer("99")])),
        vec![integer("99"), integer("100000000000000000000000")]
    );
    assert_eq!(unmatched_of(&[], &profile(vec![Value::Null])), vec![Value::Null]);
}

#[test]
fn unmatched_ids_of_other_types_do_not_sort() {
    assert_eq!(
        error_of(&[], &profile(vec![integer("3"), text("zz")])),
        "'<' not supported between instances of 'str' and 'int'"
    );
    assert_eq!(
        error_of(&[], &profile(vec![integer("1"), Value::Null])),
        "'<' not supported between instances of 'NoneType' and 'int'"
    );
    assert_eq!(
        error_of(&[], &profile(vec![Value::Null, integer("2"), Value::Bool(false)])),
        "'<' not supported between instances of 'int' and 'NoneType'"
    );
}

#[test]
fn a_profile_checks_its_orientation_and_depth() {
    let p = mapping(vec![("groups", mapping(vec![])), ("opening_depth", integer("9"))]);
    assert_eq!(error_of(&[], &p), "opening_depth must be 1..8");
    let p = mapping(vec![("groups", mapping(vec![])), ("orientation", mapping(vec![("text", text("x"))]))]);
    assert_eq!(error_of(&[], &p), "orientation needs text and basis");
}
