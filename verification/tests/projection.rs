use ordinary::projection::{earned, recorded_for};
use ordinary::value::Value;

fn text(s: &str) -> Value {
    Value::Text(s.to_string())
}

fn node(pairs: Vec<(&str, Value)>) -> Value {
    Value::Mapping(vec![(
        "body".to_string(),
        Value::Mapping(pairs.into_iter().map(|(k, v)| (k.to_string(), v)).collect()),
    )])
}

fn strings(xs: &[&str]) -> Vec<String> {
    xs.iter().map(|s| s.to_string()).collect()
}

#[test]
fn entries_record_the_intent_they_read_from_or_rest_on() {
    let nodes = vec![
        ("d.x".to_string(), node(vec![("rests_on", Value::List(vec![text("i.ask")]))])),
        ("i.ask".to_string(), node(vec![("asked", text("why?"))])),
        ("p.a".to_string(), node(vec![("from", text("i.ask"))])),
        ("p.b".to_string(), node(vec![("from", text("s.other"))])),
    ];
    let ids = strings(&["d.x", "i.ask", "p.a", "p.b"]);
    let judgments = strings(&["d.x"]);
    assert_eq!(recorded_for("i.ask", &ids, &judgments, &nodes, "rests_on"), strings(&["d.x", "p.a"]));
    assert!(recorded_for("i.none", &ids, &judgments, &nodes, "rests_on").is_empty());
    assert_eq!(recorded_for("i.ask", &ids, &vec![], &nodes, "rests_on"), strings(&["p.a"]));
}

#[test]
fn a_tab_earns_the_intents_whose_records_it_picks() {
    let recorded = vec![
        ("i.a".to_string(), strings(&["p.a", "d.x"])),
        ("i.b".to_string(), strings(&["p.b"])),
    ];
    let serves = strings(&["i.b", "i.a", "i.c"]);
    assert_eq!(earned(&serves, &recorded, &strings(&["d.x"])), strings(&["i.a"]));
    assert_eq!(earned(&serves, &recorded, &strings(&["d.x", "p.b"])), strings(&["i.b", "i.a"]));
    assert!(earned(&serves, &recorded, &vec![]).is_empty());
}
