use ordinary::profile::{
    default_topic, opening_depth, orientation_checked, profile_assignment, profile_path, topics,
};
use ordinary::value::Value;

fn text(s: &str) -> Value {
    Value::Text(s.to_string())
}

fn mapping(pairs: Vec<(&str, Value)>) -> Value {
    Value::Mapping(pairs.into_iter().map(|(k, v)| (k.to_string(), v)).collect())
}

fn strings(xs: &[&str]) -> Vec<String> {
    xs.iter().map(|s| s.to_string()).collect()
}

#[test]
fn profile_paths_have_no_empty_part() {
    assert_eq!(profile_path("a/b").unwrap(), strings(&["a", "b"]));
    assert_eq!(profile_path("").unwrap_err().0, "invalid profile path");
    assert_eq!(profile_path("a//b").unwrap_err().0, "invalid profile path");
    assert_eq!(profile_path("a/").unwrap_err().0, "invalid profile path");
}

#[test]
fn an_undeclared_node_falls_under_the_catalog() {
    assert_eq!(default_topic("p.a.b"), strings(&["catalog", "p", "a"]));
    assert_eq!(default_topic("plain"), strings(&["catalog"]));
}

#[test]
fn an_orientation_needs_text_and_known_basis() {
    let nodes = strings(&["p.a", "p.b"]);
    assert!(orientation_checked(&Value::Mapping(vec![]), &nodes).is_ok());
    let good = mapping(vec![("basis", Value::List(vec![text("p.a")])), ("text", text("start here"))]);
    assert!(orientation_checked(&good, &nodes).is_ok());
    let no_text = mapping(vec![("basis", Value::List(vec![text("p.a")]))]);
    assert_eq!(orientation_checked(&no_text, &nodes).unwrap_err().0, "orientation needs text and basis");
    let missing = mapping(vec![("basis", Value::List(vec![text("p.a"), text("q.z")])), ("text", text("t"))]);
    assert_eq!(orientation_checked(&missing, &nodes).unwrap_err().0, "orientation basis missing: q.z");
    let not_id = mapping(vec![("basis", Value::List(vec![Value::Integer("3".into())])), ("text", text("t"))]);
    assert_eq!(orientation_checked(&not_id, &nodes).unwrap_err().0, "orientation basis must list IDs");
}

#[test]
fn the_opening_depth_is_one_to_eight() {
    assert_eq!(opening_depth(&Value::Mapping(vec![])).unwrap(), 1);
    assert_eq!(opening_depth(&mapping(vec![("opening_depth", Value::Integer("5".into()))])).unwrap(), 5);
    assert_eq!(
        opening_depth(&mapping(vec![("opening_depth", Value::Integer("9".into()))])).unwrap_err().0,
        "opening_depth must be 1..8"
    );
    assert_eq!(
        opening_depth(&mapping(vec![("opening_depth", text("2"))])).unwrap_err().0,
        "opening_depth must be 1..8"
    );
}

#[test]
fn each_node_gets_its_assigned_or_default_topic() {
    let nodes = strings(&["p.a", "q.b.c"]);
    let assigned = vec![("p.a".to_string(), strings(&["first", "sub"]))];
    assert_eq!(
        topics(&nodes, &assigned),
        vec![
            ("p.a".to_string(), strings(&["first", "sub"])),
            ("q.b.c".to_string(), strings(&["catalog", "q", "b"])),
        ]
    );
}

fn groups(pairs: Vec<(&str, Vec<Value>)>) -> Vec<(String, Value)> {
    pairs.into_iter().map(|(k, v)| (k.to_string(), Value::List(v))).collect()
}

#[test]
fn profile_groups_assign_each_text_id_its_topic() {
    let a = profile_assignment(&groups(vec![
        ("core/basics", vec![text("p.a"), text("p.b")]),
        ("extra", vec![Value::Integer("7".to_string()), text("q")]),
    ]))
    .unwrap();
    assert_eq!(
        a.assigned,
        vec![
            ("p.a".to_string(), strings(&["core", "basics"])),
            ("p.b".to_string(), strings(&["core", "basics"])),
            ("q".to_string(), strings(&["extra"])),
        ]
    );
    assert_eq!(a.values.len(), 4);
    assert_eq!(a.unmatched, vec![Value::Integer("7".to_string())]);
}

#[test]
fn a_profile_may_not_assign_an_id_twice() {
    let e = profile_assignment(&groups(vec![("a", vec![text("p.a")]), ("b", vec![text("p.a")])]))
        .unwrap_err();
    assert_eq!(e.0, "profile assigns an ID more than once");
    let e = profile_assignment(&groups(vec![(
        "a",
        vec![Value::Bool(true), Value::Integer("1".to_string())],
    )]))
    .unwrap_err();
    assert_eq!(e.0, "profile assigns an ID more than once");
    assert!(profile_assignment(&groups(vec![(
        "a",
        vec![Value::Bool(false), Value::Integer("1".to_string())],
    )]))
    .is_ok());
}

#[test]
fn profile_group_ids_must_be_scalars_in_a_list() {
    let e = profile_assignment(&groups(vec![("a", vec![Value::List(vec![])])])).unwrap_err();
    assert_eq!(e.0, "unhashable type: 'list'");
    let e = profile_assignment(&groups(vec![("a", vec![mapping(vec![])])])).unwrap_err();
    assert_eq!(e.0, "unhashable type: 'dict'");
    let e = profile_assignment(&vec![("a".to_string(), text("p.a"))]).unwrap_err();
    assert_eq!(e.0, "profile group must list IDs");
    let e = profile_assignment(&groups(vec![("a//b", vec![text("p.a")])])).unwrap_err();
    assert_eq!(e.0, "invalid profile path");
}
