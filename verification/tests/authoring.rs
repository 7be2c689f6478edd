use ordinary::authoring::{contribution_handle, human_notice, private_locator};
use ordinary::value::Value;

fn text(s: &str) -> Value {
    Value::Text(s.to_string())
}

fn mapping(pairs: Vec<(&str, Value)>) -> Value {
    Value::Mapping(pairs.into_iter().map(|(k, v)| (k.to_string(), v)).collect())
}

#[test]
fn notice_excludes_canonical_diagnostics() {
    let diagnostic = "d.new.wrong_if: stored as a readable expression".to_owned();
    let output = format!(
        "nearest existing:\n  d.old: rests on p.base too - verdicts differ\n{diagnostic}\nadd d.new\n"
    );
    assert_eq!(
        human_notice(&output, std::slice::from_ref(&diagnostic)),
        "nearest existing:\n  d.old: rests on p.base too - verdicts differ"
    );
}

#[test]
fn notice_stops_at_the_first_account_line_and_drops_blank_lines() {
    let output = "first\n\n   \nsecond\r\nset p.x\nafter\n";
    assert_eq!(human_notice(output, &[]), "first\nsecond");
    assert_eq!(human_notice("review d.y\nlater", &[]), "");
    assert_eq!(human_notice("", &[]), "");
    assert_eq!(human_notice("only\n\n", &[]), "only");
}

#[test]
fn notice_keeps_lines_that_merely_mention_an_account_word() {
    assert_eq!(human_notice("added p.x\nadd p.y", &[]), "added p.x");
}

#[test]
fn private_locators_are_found_at_any_depth() {
    assert!(private_locator(&mapping(vec![("file", text("/home/me/notes.txt"))])));
    assert!(private_locator(&mapping(vec![("url", text("file:///tmp/x"))])));
    assert!(private_locator(&mapping(vec![("path", text("~/notes"))])));
    assert!(private_locator(&mapping(vec![("from", text("C:\\data"))])));
    assert!(private_locator(&mapping(vec![("from", text("d:/data"))])));
    let nested = mapping(vec![(
        "sources",
        Value::List(vec![mapping(vec![("location", text("/srv/a"))])]),
    )]);
    assert!(private_locator(&nested));
}

#[test]
fn public_or_unlisted_locators_are_not_private() {
    assert!(!private_locator(&mapping(vec![("url", text("https://example.org"))])));
    assert!(!private_locator(&mapping(vec![("note", text("/not/a/locator/field"))])));
    assert!(!private_locator(&mapping(vec![("file", text("relative/path"))])));
    assert!(!private_locator(&mapping(vec![("file", text("é:/x"))])));
    assert!(!private_locator(&text("/a/path")));
    assert!(!private_locator(&mapping(vec![("file", Value::Bool(true))])));
}

#[test]
fn contribution_handle_drops_the_pending_prefix() {
    assert_eq!(contribution_handle("pending-alice-1"), "contribution.alice-1");
    assert_eq!(contribution_handle("bob"), "contribution.bob");
    assert_eq!(contribution_handle("pending-"), "contribution.");
    assert_eq!(contribution_handle("xpending-a"), "contribution.xpending-a");
}

#[test]
fn a_carriage_return_that_no_newline_follows_stays() {
    assert_eq!(human_notice("x\r", &[]), "x\r");
    assert_eq!(human_notice("a\r\nb\r", &[]), "a\nb\r");
    assert_eq!(human_notice("a\r\nb\r\n", &[]), "a\nb");
}
