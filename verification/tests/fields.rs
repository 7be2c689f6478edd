use ordinary::fields::{collections, field_uses, is_builtin, known_ids, member_list};
use ordinary::value::Value;

fn text(s: &str) -> Value {
    Value::Text(s.to_string())
}

fn mapping(pairs: Vec<(&str, Value)>) -> Value {
    Value::Mapping(pairs.into_iter().map(|(k, v)| (k.to_string(), v)).collect())
}

#[test]
fn counters_mentioned_in_prose_are_known_ids() {
    let doc = mapping(vec![
        ("decisions", mapping(vec![("d.x", mapping(vec![("note", text("see graph.entries, not graph.nothing"))]))])),
        ("known", mapping(vec![("p.a", mapping(vec![("v", text("1"))]))])),
    ]);
    let cs = collections(&doc).unwrap();
    let ms = member_list(&cs);
    let us = field_uses(&ms);
    let mut ids: Vec<String> = known_ids(&ms, &us).into_iter().map(|cs| cs.into_iter().collect()).collect();
    ids.sort();
    ids.dedup();
    assert_eq!(ids, vec!["d.x".to_string(), "graph.entries".to_string(), "p.a".to_string()]);
    assert!(is_builtin("graph.entries"));
    assert!(!is_builtin("graph.nothing"));
}

#[test]
fn dotted_names_are_found_left_to_right_each_as_long_as_it_goes() {
    let doc = mapping(vec![(
        "decisions",
        mapping(vec![("d.x", mapping(vec![("note", text("1graph.open. and graph.entries.x then graph.flagged"))]))]),
    )]);
    let cs = collections(&doc).unwrap();
    let ms = member_list(&cs);
    let us = field_uses(&ms);
    let ids: Vec<String> = known_ids(&ms, &us).into_iter().map(|cs| cs.into_iter().collect()).collect();
    assert_eq!(ids, vec!["d.x".to_string(), "graph.flagged".to_string(), "graph.open".to_string()]);
}
