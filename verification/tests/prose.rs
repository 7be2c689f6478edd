use ordinary::prose::{clipped_reasoning, prefix_heading, record_groups, record_nav};
use ordinary::value::Value;

fn strings(items: &[&str]) -> Vec<String> {
    items.iter().map(|s| s.to_string()).collect()
}

fn meta(prefix: &str, word: &str) -> Vec<(String, Value)> {
    vec![(
        "prefixes".to_string(),
        Value::Mapping(vec![(prefix.to_string(), Value::Text(word.to_string()))]),
    )]
}

#[test]
fn short_reasoning_is_whole() {
    assert_eq!(clipped_reasoning("abc"), "abc");
    let exact = "x".repeat(400);
    assert_eq!(clipped_reasoning(&exact), exact);
}

#[test]
fn long_reasoning_is_cut_at_a_word() {
    let long = "word ".repeat(90);
    assert_eq!(clipped_reasoning(&long), format!("{}word…", "word ".repeat(78)));
}

#[test]
fn a_reference_is_not_broken() {
    let long = format!("{} {{{{p.x}}}} and more text after it", "a".repeat(395)) + &"z".repeat(20);
    assert_eq!(clipped_reasoning(&long), format!("{}…", "a".repeat(395)));
}

#[test]
fn trailing_punctuation_is_dropped() {
    let long = format!("{}, {}", "b".repeat(250), "c".repeat(200));
    assert_eq!(clipped_reasoning(&long), format!("{}…", "b".repeat(250)));
}

#[test]
fn a_prefix_heading_uses_the_record_word() {
    assert_eq!(
        prefix_heading("p", &meta("p", "  prices   and  costs ")),
        (" title=\"p.\"".to_string(), "prices and costs".to_string())
    );
    assert_eq!(prefix_heading("<x>", &meta("p", "prices")), (String::new(), "&lt;x&gt;".to_string()));
    assert_eq!(prefix_heading("p", &meta("p", &"x".repeat(50))).1, format!("{}…", "x".repeat(39)));
    assert_eq!(prefix_heading("p", &meta("p", "   ")), (String::new(), "p".to_string()));
}

#[test]
fn groups_come_largest_first() {
    let ids = strings(&["d.a", "p.a", "p.b", "q.c", "solo"]);
    let judgments = strings(&["d.a"]);
    assert_eq!(
        record_groups(&ids, &judgments),
        vec![
            ("p".to_string(), strings(&["p.a", "p.b"])),
            ("-".to_string(), strings(&["solo"])),
            ("q".to_string(), strings(&["q.c"])),
        ]
    );
}

#[test]
fn the_navigation_links_each_group() {
    let ids = strings(&["d.a", "p.a", "p.b", "q.c", "solo"]);
    let judgments = strings(&["d.a"]);
    assert_eq!(
        record_nav(&ids, &judgments, &meta("p", "prices")),
        "<nav class=\"ns\" dir=\"ltr\"><a href=\"#g-p\" title=\"p.\">prices (2)</a><a href=\"#g--\">- (1)</a><a href=\"#g-q\">q (1)</a></nav>"
    );
}
