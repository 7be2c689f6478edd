use ordinary::document::{merge, pointers, MemberWalk};
use ordinary::value::Value;

fn text(s: &str) -> Value {
    Value::Text(s.to_string())
}

fn integer(s: &str) -> Value {
    Value::Integer(s.to_string())
}

fn mapping(pairs: Vec<(&str, Value)>) -> Value {
    Value::Mapping(pairs.into_iter().map(|(k, v)| (k.to_string(), v)).collect())
}

fn paths(pairs: &[(&str, &str)]) -> Vec<(String, String)> {
    pairs.iter().map(|(a, b)| (a.to_string(), b.to_string())).collect()
}

#[test]
fn a_later_file_merges_into_the_collections_and_meta() {
    let mut target = mapping(vec![
        ("known", mapping(vec![("p.a", mapping(vec![("v", integer("1"))]))])),
        ("meta", mapping(vec![("prefixes", mapping(vec![("p", text("prices"))]))])),
    ]);
    let incoming = mapping(vec![
        (
            "known",
            mapping(vec![("p.b", mapping(vec![("v", integer("2"))])), ("p.a", mapping(vec![("v", integer("3"))]))]),
        ),
        (
            "meta",
            mapping(vec![("prefixes", mapping(vec![("q", text("quantities"))])), ("language", text("he"))]),
        ),
        ("sources", text("x")),
    ]);
    let mut origins = vec![("known".to_string(), paths(&[("p.a", "a.yaml")]))];
    assert_eq!(merge(&mut target, &incoming, "b.yaml", &mut origins), Ok(()));
    assert_eq!(
        target,
        mapping(vec![
            (
                "known",
                mapping(vec![("p.a", mapping(vec![("v", integer("3"))])), ("p.b", mapping(vec![("v", integer("2"))]))]),
            ),
            (
                "meta",
                mapping(vec![
                    ("prefixes", mapping(vec![("p", text("prices")), ("q", text("quantities"))])),
                    ("language", text("he")),
                ]),
            ),
            ("sources", text("x")),
        ])
    );
    assert_eq!(
        origins,
        vec![
            ("known".to_string(), paths(&[("p.a", "b.yaml"), ("p.b", "b.yaml")])),
            ("meta".to_string(), paths(&[("language", "b.yaml"), ("prefixes", "b.yaml")])),
        ]
    );
}

#[test]
fn a_value_that_replaces_a_collection_forgets_where_it_came_from() {
    let mut target = mapping(vec![("known", mapping(vec![("p.a", integer("1"))]))]);
    let mut origins = vec![("known".to_string(), paths(&[("p.a", "a.yaml")]))];
    assert_eq!(merge(&mut target, &mapping(vec![("known", text("none"))]), "b.yaml", &mut origins), Ok(()));
    assert_eq!(target, mapping(vec![("known", text("none"))]));
    assert!(origins.is_empty());
}

#[test]
fn only_mappings_merge() {
    let mut target = text("not a record");
    let mut origins = vec![];
    let e = merge(&mut target, &mapping(vec![]), "b.yaml", &mut origins).unwrap_err();
    assert_eq!(e.0, "invalid_schema");
    assert_eq!(target, text("not a record"));
}

#[test]
fn a_record_points_to_yaml_files() {
    let doc = mapping(vec![
        ("also", Value::List(vec![text("a.yml"), text("notes.txt"), integer("3")])),
        ("record", text("other.yaml")),
        ("x", text("y.yaml")),
    ]);
    assert_eq!(pointers(&doc), vec!["other.yaml".to_string(), "a.yml".to_string()]);
    let by_name = mapping(vec![("also", mapping(vec![("k", text("z.yaml"))]))]);
    assert_eq!(pointers(&by_name), vec!["z.yaml".to_string()]);
    assert!(pointers(&text("a.yaml")).is_empty());
}

#[test]
fn a_walk_visits_entries_then_what_they_point_to() {
    let mut walk = MemberWalk::start(&vec!["a.yaml".to_string(), "b.yaml".to_string()]);
    assert_eq!(walk.next_path(), Some("a.yaml".to_string()));
    assert_eq!(walk.visit(&"a.yaml".to_string(), true), Ok(true));
    walk.point(vec!["c.yaml".to_string(), "d.yaml".to_string()]);
    assert_eq!(walk.next_path(), Some("c.yaml".to_string()));
    assert_eq!(walk.visit(&"c.yaml".to_string(), false), Ok(false));
    assert_eq!(walk.next_path(), Some("d.yaml".to_string()));
    assert_eq!(walk.visit(&"d.yaml".to_string(), true), Ok(true));
    walk.point(vec!["a.yaml".to_string()]);
    assert_eq!(walk.next_path(), Some("a.yaml".to_string()));
    assert_eq!(walk.visit(&"a.yaml".to_string(), true), Ok(false));
    assert_eq!(walk.next_path(), Some("b.yaml".to_string()));
    assert_eq!(walk.visit(&"b.yaml".to_string(), true), Ok(true));
    assert_eq!(walk.next_path(), None);
    assert_eq!(walk.found, vec!["a.yaml".to_string(), "d.yaml".to_string(), "b.yaml".to_string()]);
}

#[test]
fn a_record_may_span_at_most_the_limit_of_files() {
    let mut walk = MemberWalk { pending: vec![], found: (0..100_000).map(|i| format!("{i}.yaml")).collect() };
    assert_eq!(walk.visit(&"x.yaml".to_string(), true).unwrap_err().0, "source_limit");
    assert_eq!(walk.visit(&"7.yaml".to_string(), true), Ok(false));
}

#[test]
fn the_first_file_is_the_document() {
    let mut target = mapping(vec![]);
    let incoming = mapping(vec![("known", mapping(vec![("p.a", integer("1"))])), ("meta", text("m"))]);
    let mut origins = vec![];
    assert_eq!(merge(&mut target, &incoming, "a.yaml", &mut origins), Ok(()));
    assert_eq!(target, incoming);
    assert_eq!(origins, vec![("known".to_string(), paths(&[("p.a", "a.yaml")]))]);
}
