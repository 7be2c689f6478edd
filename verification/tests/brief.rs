use ordinary::brief::{iterable_text, sections, template_refs};
use ordinary::value::Value;

fn text(s: &str) -> Value {
    Value::Text(s.to_string())
}

fn mapping(pairs: Vec<(&str, Value)>) -> Value {
    Value::Mapping(pairs.into_iter().map(|(k, v)| (k.to_string(), v)).collect())
}

#[test]
fn a_brief_has_its_own_sections_then_its_tabs() {
    let section = |t: &str| mapping(vec![("title", text(t))]);
    let brief = mapping(vec![
        ("sections", Value::List(vec![section("A"), text("not a section")])),
        (
            "tabs",
            Value::List(vec![
                mapping(vec![("sections", Value::List(vec![section("B")]))]),
                text("odd tab"),
                mapping(vec![("sections", Value::List(vec![section("C")]))]),
            ]),
        ),
    ]);
    assert_eq!(sections(&brief), vec![section("A"), section("B"), section("C")]);
    assert!(sections(&text("x")).is_empty());
}

#[test]
fn a_text_cites_ids_in_double_braces() {
    assert!(template_refs(&text("as {{ p.a }} says"), "p.a"));
    assert!(template_refs(&text("{{p.b}} and {{ p.a}}"), "p.a"));
    assert!(!template_refs(&text("p.a without braces"), "p.a"));
    assert!(!template_refs(&text("{{ p.ab }}"), "p.a"));
    assert!(!template_refs(&Value::List(vec![text("{{ p.a }}")]), "p.a"));
}

#[test]
fn values_offer_items_keys_or_characters() {
    assert_eq!(iterable_text(&Value::List(vec![text("p.a"), Value::Integer("3".into())])), vec!["p.a", "3"]);
    assert_eq!(iterable_text(&mapping(vec![("p.b", text("x"))])), vec!["p.b"]);
    assert_eq!(iterable_text(&text("ab")), vec!["a", "b"]);
    assert!(iterable_text(&Value::Null).is_empty());
}

#[test]
fn citations_are_read_as_the_pattern_reads_them() {
    let t = |s: &str| Value::Text(s.to_string());
    assert!(template_refs(&t("{{{ p.a }}"), "p.a"));
    assert!(template_refs(&t("x {{p.a}} and {{ q.b.c }}"), "q.b.c"));
    assert!(!template_refs(&t("{{ p.a x }}"), "p.a"));
    assert!(!template_refs(&t("{{ p.a.b }}"), "p.a"));
    assert!(!template_refs(&t("{{ pa }}"), "pa"));
}
