use ordinary::wording::{cut, distinct_ids, ids_value, norm, predicate_short, quote};
use ordinary::value::Value;

#[test]
fn ids_are_separated_by_commas_and_whitespace() {
    assert_eq!(distinct_ids("a, b\tc,,d\u{1c}e"), vec!["a", "b", "c", "d", "e"]);
    assert!(distinct_ids(" , ").is_empty());
    assert_eq!(ids_value(&Value::List(vec![Value::Text("p.a".into()), Value::Text("p.b".into())])), vec!["['p.a'", "'p.b']"]);
    assert_eq!(ids_value(&Value::Text("p.a p.b".into())), vec!["p.a", "p.b"]);
    assert!(ids_value(&Value::Null).is_empty());
}

#[test]
fn norm_closes_up_whitespace_and_separators() {
    assert_eq!(norm(&Value::Text("  a \n b\u{1d}c  ".into())), "a b c");
    assert_eq!(norm(&Value::Integer("12".into())), "12");
    assert_eq!(norm(&Value::Text("".into())), "");
}

#[test]
fn predicates_are_cut_to_sixty_characters() {
    let long = "x ".repeat(40);
    let short = predicate_short(&Value::Text(long));
    assert_eq!(short.chars().count(), 60);
    assert!(short.ends_with("..."));
    assert_eq!(predicate_short(&Value::Text(" a  >  b ".into())), "a > b");
    assert_eq!(predicate_short(&Value::Bool(true)), "True");
}

#[test]
fn cut_keeps_short_texts_and_marks_long_ones() {
    assert_eq!(cut("abc", 4), "abc");
    assert_eq!(cut("abcd", 4), "abcd ...");
    assert_eq!(cut("", 0), " ...");
}

#[test]
fn quote_leaves_safe_words_and_quotes_the_rest() {
    assert_eq!(quote("p.a/b-c@1:2,3=4+5%"), "p.a/b-c@1:2,3=4+5%");
    assert_eq!(quote(""), "''");
    assert_eq!(quote("it's here"), "'it'\"'\"'s here'");
}

#[test]
fn norm_twice_is_norm_once() {
    let v = Value::List(vec![Value::Text(" a\u{1c} b ".into()), Value::Null]);
    let once = norm(&v);
    assert_eq!(norm(&Value::Text(once.clone())), once);
}
