use ordinary::capability::capabilities;
use ordinary::roles::{inferred_fields, semantic_roles, snapshot_fields};
use ordinary::value::Value;

fn text(s: &str) -> Value {
    Value::Text(s.to_string())
}

fn integer(s: &str) -> Value {
    Value::Integer(s.to_string())
}

fn list(items: &[&str]) -> Value {
    Value::List(items.iter().map(|s| text(s)).collect())
}

fn mapping(pairs: Vec<(&str, Value)>) -> Value {
    Value::Mapping(pairs.into_iter().map(|(k, v)| (k.to_string(), v)).collect())
}

fn entries(pairs: Vec<(&str, Value)>) -> Vec<(String, Value)> {
    pairs.into_iter().map(|(k, v)| (k.to_string(), v)).collect()
}

fn record() -> Value {
    mapping(vec![
        (
            "decisions",
            mapping(vec![(
                "d.x",
                mapping(vec![
                    ("needs", list(&["p.a", "p.b"])),
                    ("observed", mapping(vec![("p.a", integer("1")), ("p.b", integer("2"))])),
                    ("refuted_when", text("p.a + p.b > 3")),
                ]),
            )]),
        ),
        (
            "known",
            mapping(vec![
                ("p.a", mapping(vec![("v", integer("1"))])),
                ("p.b", mapping(vec![("v", integer("2"))])),
            ]),
        ),
    ])
}

#[test]
fn roles_are_read_from_how_entries_use_their_fields() {
    assert_eq!(
        snapshot_fields(&record()).unwrap(),
        entries(vec![
            ("deps", text("needs")),
            ("predicate", text("refuted_when")),
            ("snapshot", text("observed")),
        ])
    );
}

#[test]
fn a_record_without_lists_takes_the_default_roles() {
    let doc = mapping(vec![("meta", mapping(vec![]))]);
    assert_eq!(
        snapshot_fields(&doc).unwrap(),
        entries(vec![
            ("deps", text("rests_on")),
            ("predicate", text("wrong_if")),
            ("snapshot", text("seen")),
        ])
    );
}

#[test]
fn declared_roles_must_be_nonempty_texts() {
    let doc = mapping(vec![("schema", mapping(vec![("deps", text(""))]))]);
    assert_eq!(snapshot_fields(&doc).unwrap_err().0, "invalid_snapshot");
    let doc = mapping(vec![("schema", mapping(vec![("snapshot", integer("5"))]))]);
    assert_eq!(snapshot_fields(&doc).unwrap_err().0, "invalid_snapshot");
    let doc = mapping(vec![("schema", text("not a mapping"))]);
    assert_eq!(snapshot_fields(&doc).unwrap_err().0, "invalid_snapshot");
    assert_eq!(inferred_fields(&doc, true).unwrap_err().0, "invalid_comparison_roles");
}

#[test]
fn a_declared_role_is_kept() {
    let mut doc = record();
    if let Value::Mapping(es) = &mut doc {
        es.push(("schema".to_string(), mapping(vec![("predicate", text("other"))])));
    }
    assert_eq!(
        snapshot_fields(&doc).unwrap(),
        entries(vec![
            ("deps", text("needs")),
            ("predicate", text("other")),
            ("snapshot", text("observed")),
        ])
    );
}

#[test]
fn tied_dependency_votes_are_refused() {
    let doc = mapping(vec![
        (
            "decisions",
            mapping(vec![(
                "d.x",
                mapping(vec![("left", list(&["p.a"])), ("right", list(&["p.a"]))]),
            )]),
        ),
        ("known", mapping(vec![("p.a", mapping(vec![("v", integer("1"))]))])),
    ]);
    assert_eq!(snapshot_fields(&doc).unwrap_err().0, "invalid_snapshot");
}

#[test]
fn a_record_that_is_not_a_mapping_is_refused() {
    assert_eq!(snapshot_fields(&text("x")).unwrap_err().0, "expected_mapping");
    assert_eq!(capabilities(&text("x"), None).unwrap_err().0, "expected_mapping");
}

#[test]
fn comparison_roles_name_the_judgments() {
    let (judgments, fields) = semantic_roles(&record()).unwrap().unwrap();
    assert_eq!(judgments, vec!["d.x".chars().collect::<Vec<char>>()]);
    assert_eq!(fields[0], ("deps".to_string(), text("needs")));
}

#[test]
fn comparison_roles_of_an_unreadable_record_are_none() {
    let doc = mapping(vec![
        (
            "decisions",
            mapping(vec![("d.x", mapping(vec![("needs", list(&["p.missing"]))]))]),
        ),
    ]);
    assert!(semantic_roles(&doc).unwrap().is_none());
}

fn reasoning(version: &str, profile: &str, names: &[&str]) -> Value {
    mapping(vec![(
        "meta",
        mapping(vec![(
            "reasoning",
            mapping(vec![
                ("profile", text(profile)),
                ("requires", list(names)),
                ("version", integer(version)),
            ]),
        )]),
    )])
}

#[test]
fn a_record_that_declares_nothing_is_read_by_the_ordinary_reader() {
    assert_eq!(
        capabilities(&mapping(vec![]), None).unwrap(),
        mapping(vec![
            ("profile", text("ordinary-reader/v1")),
            ("requires", Value::List(vec![])),
            ("version", integer("1")),
        ])
    );
}

#[test]
fn a_declared_reasoning_profile_is_checked() {
    let ok = reasoning("1", "core/v1", &["arithmetic/v1", "query/v1"]);
    assert_eq!(
        capabilities(&ok, None).unwrap(),
        mapping(vec![
            ("profile", text("core/v1")),
            ("requires", list(&["arithmetic/v1", "query/v1"])),
            ("version", integer("1")),
        ])
    );
    let unsorted = reasoning("1", "core/v1", &["query/v1", "arithmetic/v1"]);
    assert_eq!(capabilities(&unsorted, None).unwrap_err().0, "invalid_capability");
    let later = reasoning("3", "core/v1", &["arithmetic/v1"]);
    assert_eq!(capabilities(&later, None).unwrap_err().0, "unsupported_capability");
    let unknown = reasoning("2", "core/v1", &["arithmetic/v1", "zeta/v1"]);
    assert_eq!(capabilities(&unknown, None).unwrap_err().0, "unsupported_capability");
    let without = reasoning("1", "core/v1", &["composition/v1"]);
    assert_eq!(capabilities(&without, None).unwrap_err().0, "invalid_capability");
    let other = reasoning("1", "other/v1", &["arithmetic/v1"]);
    assert_eq!(capabilities(&other, None).unwrap_err().0, "unsupported_capability");
    let short = mapping(vec![("meta", mapping(vec![("reasoning", mapping(vec![("version", integer("1"))]))]))]);
    assert_eq!(capabilities(&short, None).unwrap_err().0, "invalid_capability");
}

#[test]
fn an_asked_profile_overrides_the_declared_one() {
    assert_eq!(
        capabilities(&mapping(vec![]), Some("core/v1")).unwrap(),
        mapping(vec![
            ("declared_profile", text("ordinary-reader/v1")),
            ("experimental_override", Value::Bool(true)),
            ("profile", text("core/v1")),
            ("requires", list(&["arithmetic/v1"])),
            ("version", integer("1")),
        ])
    );
    assert_eq!(
        capabilities(&mapping(vec![]), Some("checked-reader/v1")).unwrap(),
        mapping(vec![
            ("declared_profile", text("ordinary-reader/v1")),
            ("experimental_override", Value::Bool(false)),
            ("profile", text("checked-reader/v1")),
            ("requires", Value::List(vec![])),
            ("version", integer("1")),
        ])
    );
    assert_eq!(
        capabilities(&mapping(vec![]), Some("ordinary-reader/v1")).unwrap(),
        capabilities(&mapping(vec![]), None).unwrap()
    );
    assert_eq!(capabilities(&mapping(vec![]), Some("bogus")).unwrap_err().0, "unsupported_capability");
    let core = reasoning("1", "core/v1", &["arithmetic/v1"]);
    assert_eq!(
        capabilities(&core, Some("ordinary-reader/v1")).unwrap_err().0,
        "unsupported_capability"
    );
}

#[test]
fn second_version_computations_need_the_second_version() {
    let doc = mapping(vec![
        (
            "decisions",
            mapping(vec![(
                "d.x",
                mapping(vec![
                    ("rests_on", list(&["p.a"])),
                    (
                        "seen",
                        mapping(vec![(
                            "p.a",
                            mapping(vec![("computed", mapping(vec![("version", integer("2"))]))]),
                        )]),
                    ),
                ]),
            )]),
        ),
        ("known", mapping(vec![("p.a", mapping(vec![("v", integer("1"))]))])),
    ]);
    assert_eq!(capabilities(&doc, None).unwrap_err().0, "invalid_capability");
}

#[test]
fn comparison_roles_list_the_judgments_in_ascending_order() {
    let doc = mapping(vec![
        ("alpha", mapping(vec![("z.y", mapping(vec![("needs", list(&["p.a"]))]))])),
        (
            "decisions",
            mapping(vec![("d.x", mapping(vec![("needs", list(&["p.a", "p.b"]))]))]),
        ),
        (
            "known",
            mapping(vec![
                ("p.a", mapping(vec![("v", integer("1"))])),
                ("p.b", mapping(vec![("v", integer("2"))])),
            ]),
        ),
    ]);
    let (judgments, _) = semantic_roles(&doc).unwrap().unwrap();
    let names: Vec<String> = judgments.iter().map(|n| n.iter().collect()).collect();
    assert_eq!(names, vec!["d.x".to_string(), "z.y".to_string()]);
}
