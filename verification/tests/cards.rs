use ordinary::cards::{relation_counts, says, shape_moves, state_line, tab_title};
use ordinary::page::Tab;
use ordinary::value::Value;

fn text(s: &str) -> Value {
    Value::Text(s.to_string())
}

fn tab(title: &str, shape: Vec<(&str, Value)>) -> Tab {
    Tab {
        key: "k".to_string(),
        title: title.to_string(),
        occasion: String::new(),
        intent: String::new(),
        serves: vec![],
        bare: false,
        shape: shape.into_iter().map(|(k, v)| (k.to_string(), v)).collect(),
        sections: vec![],
    }
}

#[test]
fn states_are_worded_in_the_page_language() {
    assert_eq!(says("en", "broken"), Some("rests on something that is not in this record"));
    assert_eq!(says("fr", "blocked"), Some("waiting on something nobody has recorded yet"));
    assert_eq!(says("he", "moved"), Some("משהו שהוא נשען עליו כבר לא מה שראה לאחרונה"));
    assert_eq!(says("ar", "falsified"), Some("تحقق شرط خطئه"));
    assert_eq!(says("en", "stale"), None);
}

#[test]
fn a_state_line_puts_the_most_urgent_first() {
    let flags = vec!["blocked".to_string(), "broken".to_string(), "custom".to_string()];
    let body = vec![("unverified".to_string(), text("the count"))];
    assert_eq!(
        state_line(&flags, &body, "en"),
        Some(
            "rests on something that is not in this record; waiting on something nobody has recorded yet; custom; unverified: the count"
                .to_string()
        )
    );
}

#[test]
fn a_state_line_in_hebrew_words_unverified_too() {
    let body = vec![("unverified".to_string(), text("x"))];
    assert_eq!(state_line(&vec![], &body, "he"), Some("לא אומת: x".to_string()));
}

#[test]
fn nothing_to_say_is_no_line() {
    let body = vec![("unverified".to_string(), text(""))];
    assert_eq!(state_line(&vec![], &body, "en"), None);
}

#[test]
fn a_tab_without_a_title_is_now() {
    assert_eq!(tab_title(&tab("", vec![])), "Now");
    assert_eq!(tab_title(&tab("Budget", vec![])), "Budget");
}

#[test]
fn only_the_figures_that_moved_are_reported() {
    let t = tab("", vec![("entries", Value::Integer("3".to_string())), ("judgments", text("2"))]);
    let now = vec![("entries".to_string(), 3), ("judgments".to_string(), 5), ("flagged".to_string(), 1)];
    assert_eq!(shape_moves(&t, &now), vec!["judgments: 2 -> 5".to_string()]);
}

#[test]
fn relation_counts_name_dependencies_and_sources() {
    let counts = vec![
        ("contradicts".to_string(), 3usize),
        ("from".to_string(), 1usize),
        ("rests_on".to_string(), 12usize),
    ];
    assert_eq!(
        relation_counts(&counts),
        "contradicts_count=3 source_count=1 dependency_count=12"
    );
}

#[test]
fn relation_counts_of_nothing_is_empty() {
    assert_eq!(relation_counts(&vec![]), "");
}
