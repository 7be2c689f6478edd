use ordinary::pointer::pointer;
use ordinary::value::Value;

fn text(s: &str) -> Value {
    Value::Text(s.to_string())
}

fn mapping(pairs: Vec<(&str, Value)>) -> Value {
    Value::Mapping(pairs.into_iter().map(|(k, v)| (k.to_string(), v)).collect())
}

fn record() -> Value {
    mapping(vec![
        ("a/b", text("slash")),
        ("a~b", text("tilde")),
        ("nodes", mapping(vec![("p.a", mapping(vec![("v", text("one"))]))])),
        ("xs", Value::List(vec![text("x0"), text("x1")])),
        ("~1", text("escaped")),
    ])
}

#[test]
fn a_selector_is_a_json_pointer() {
    let r = record();
    assert_eq!(pointer(&r, "nodes").unwrap_err().0, "field selector must be a JSON pointer");
    assert_eq!(pointer(&r, "").unwrap_err().0, "field selector must be a JSON pointer");
}

#[test]
fn a_pointer_walks_mappings_and_lists() {
    let r = record();
    assert_eq!(pointer(&r, "/nodes/p.a/v").unwrap(), &text("one"));
    assert_eq!(pointer(&r, "/xs/1").unwrap(), &text("x1"));
    assert_eq!(pointer(&r, "/xs/+1").unwrap(), &text("x1"));
    assert_eq!(pointer(&r, "/xs/01").unwrap(), &text("x1"));
    assert_eq!(pointer(&r, "/xs/2").unwrap_err().0, "unknown field");
    assert_eq!(pointer(&r, "/xs/-1").unwrap_err().0, "unknown field");
    assert_eq!(pointer(&r, "/xs/").unwrap_err().0, "unknown field");
    assert_eq!(pointer(&r, "/xs/99999999999999999999999").unwrap_err().0, "unknown field");
    assert_eq!(pointer(&r, "/nodes/p.a/v/w").unwrap_err().0, "unknown field");
    assert_eq!(pointer(&r, "/missing").unwrap_err().0, "unknown field");
}

#[test]
fn pointer_parts_unescape_slash_then_tilde() {
    let r = record();
    assert_eq!(pointer(&r, "/a~1b").unwrap(), &text("slash"));
    assert_eq!(pointer(&r, "/a~0b").unwrap(), &text("tilde"));
    assert_eq!(pointer(&r, "/~01").unwrap(), &text("escaped"));
}
