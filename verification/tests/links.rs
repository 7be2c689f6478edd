use ordinary::links::{link, Link};
use ordinary::value::Value;

fn body(pairs: Vec<(&str, &str)>) -> Vec<(String, Value)> {
    pairs.into_iter().map(|(k, v)| (k.to_string(), Value::Text(v.to_string()))).collect()
}

#[test]
fn web_addresses_need_an_authority() {
    assert_eq!(link(&body(vec![("url", " https://example.org/a b ")])), Link::Web("https://example.org/a%20b".to_string()));
    assert_eq!(link(&body(vec![("url", "HTTP://x.org")])), Link::Web("HTTP://x.org".to_string()));
    assert_eq!(link(&body(vec![("url", "https:example.org")])), Link::Refused);
    assert_eq!(link(&body(vec![("url", "mailto:someone@example.org")])), Link::Web("mailto:someone@example.org".to_string()));
}

#[test]
fn other_schemes_and_network_paths_are_refused() {
    assert_eq!(link(&body(vec![("url", "javascript:alert(1)")])), Link::Refused);
    assert_eq!(link(&body(vec![("url", "//evil.example")])), Link::Refused);
    assert_eq!(link(&body(vec![("url", "a\u{7}b")])), Link::Refused);
    assert_eq!(link(&body(vec![("url", "   ")])), Link::Refused);
    assert_eq!(link(&body(vec![])), Link::Refused);
}

#[test]
fn anchors_and_files() {
    assert_eq!(link(&body(vec![("url", "#p.a")])), Link::Anchor("#p.a".to_string()));
    assert_eq!(link(&body(vec![("file", "#notes.md")])), Link::Local("#notes.md".to_string()));
    assert_eq!(link(&body(vec![("url", ""), ("file", "data/x y.csv")])), Link::Local("data/x y.csv".to_string()));
    assert_eq!(link(&body(vec![("file", "C d:/x")])), Link::Local("C d:/x".to_string()));
}
