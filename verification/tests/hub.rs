use ordinary::hub::{entry_facts, judgment_facts, page_fields, page_language, used_by};
use ordinary::value::Value;

fn text(s: &str) -> Value {
    Value::Text(s.to_string())
}

fn mapping(pairs: Vec<(&str, Value)>) -> Value {
    Value::Mapping(pairs.into_iter().map(|(k, v)| (k.to_string(), v)).collect())
}

fn entries(pairs: Vec<(&str, Value)>) -> Vec<(String, Value)> {
    pairs.into_iter().map(|(k, v)| (k.to_string(), v)).collect()
}

#[test]
fn a_page_reads_the_fields_the_record_names() {
    assert_eq!(page_fields(&entries(vec![])), ("rests_on".to_string(), "wrong_if".to_string()));
    assert_eq!(
        page_fields(&entries(vec![("deps", text("needs")), ("predicate", text("fails_if"))])),
        ("needs".to_string(), "fails_if".to_string())
    );
}

#[test]
fn a_page_speaks_the_record_language() {
    let doc = |l: &str| mapping(vec![("meta", mapping(vec![("language", text(l))]))]);
    assert_eq!(page_language(&doc("he")), ("he".to_string(), "rtl".to_string()));
    assert_eq!(page_language(&doc("ar")), ("ar".to_string(), "rtl".to_string()));
    assert_eq!(page_language(&doc("fr")), ("en".to_string(), "ltr".to_string()));
    assert_eq!(page_language(&mapping(vec![])), ("en".to_string(), "ltr".to_string()));
}

#[test]
fn a_page_shows_what_an_entry_holds() {
    let ids: Vec<String> = vec!["p.a".to_string(), "s.src".to_string()];
    let body = entries(vec![
        ("from", text("s.src")),
        ("note", text("not shown")),
        ("quoted", text("12")),
        ("url", text("")),
    ]);
    let facts = entry_facts(&body, "p.a", &ids);
    assert_eq!(
        facts,
        entries(vec![
            ("from", text("s.src")),
            ("par", Value::List(vec![text("s.src")])),
            ("quoted", text("12")),
            ("v", text("12")),
        ])
    );
    let own = entries(vec![("from", text("p.a")), ("v", text("1"))]);
    assert_eq!(entry_facts(&own, "p.a", &ids), entries(vec![("from", text("p.a")), ("v", text("1"))]));
}

#[test]
fn an_entry_is_used_by_the_judgments_that_rest_on_it() {
    let node = |deps: &[&str]| {
        Value::Mapping(vec![(
            "body".to_string(),
            mapping(vec![("rests_on", Value::List(deps.iter().map(|d| text(d)).collect()))]),
        )])
    };
    let nodes = vec![
        ("d.x".to_string(), node(&["p.a", "p.b"])),
        ("d.y".to_string(), node(&["p.a", "p.a"])),
        ("p.a".to_string(), Value::Mapping(vec![("body".to_string(), mapping(vec![]))])),
    ];
    let judgments = vec!["d.x".to_string(), "d.y".to_string()];
    assert_eq!(used_by("p.a", &judgments, &nodes, "rests_on"), vec!["d.x".to_string(), "d.y".to_string(), "d.y".to_string()]);
    assert_eq!(used_by("p.b", &judgments, &nodes, "rests_on"), vec!["d.x".to_string()]);
    assert!(used_by("p.z", &judgments, &nodes, "rests_on").is_empty());
}

#[test]
fn a_page_records_what_a_judgment_says() {
    let body = entries(vec![("title", text("go")), ("verdict", text("")), ("why", text("cheap"))]);
    let facts = judgment_facts(&body, &vec!["p.a".to_string()], &vec![], "p.a > 1");
    assert_eq!(
        facts,
        entries(vec![
            ("because", text("cheap")),
            ("blocked", text("")),
            ("deps", Value::List(vec![text("p.a")])),
            ("pred", text("p.a > 1")),
            ("reopened", text("")),
            ("used", Value::List(vec![])),
            ("verdict", text("go")),
        ])
    );
}
