use ordinary::branches::{branch_judgment_body, branch_role_evidence, branch_role_order, kept_in_order, metadata, text_values};
use ordinary::overlay::{layer, shaped, strings_of, verdict};
use ordinary::value::Value;

fn text(s: &str) -> Value {
    Value::Text(s.to_string())
}

fn mapping(pairs: Vec<(&str, Value)>) -> Value {
    Value::Mapping(pairs.into_iter().map(|(k, v)| (k.to_string(), v)).collect())
}

fn entries(pairs: Vec<(&str, Value)>) -> Vec<(String, Value)> {
    pairs.into_iter().map(|(k, v)| (k.to_string(), v)).collect()
}

#[test]
fn judgment_bodies_have_a_judgment_field() {
    assert!(branch_judgment_body(&entries(vec![("because", text("x"))])));
    assert!(!branch_judgment_body(&entries(vec![("v", text("x"))])));
}

#[test]
fn role_evidence_drops_the_lists_of_entries() {
    let doc = mapping(vec![
        ("known", mapping(vec![
            ("p.a", mapping(vec![("tags", Value::List(vec![text("x")])), ("v", text("1"))])),
            ("d.x", mapping(vec![("rests_on", Value::List(vec![text("p.a")]))])),
        ])),
        ("sources", mapping(vec![("s.a", mapping(vec![("tags", Value::List(vec![text("y")]))]))])),
    ]);
    let got = branch_role_evidence(&doc).unwrap();
    let want = mapping(vec![
        ("known", mapping(vec![
            ("p.a", mapping(vec![("v", text("1"))])),
            ("d.x", mapping(vec![("rests_on", Value::List(vec![text("p.a")]))])),
        ])),
        ("sources", mapping(vec![("s.a", mapping(vec![("tags", Value::List(vec![text("y")]))]))])),
    ]);
    assert_eq!(got, want);
    assert_eq!(branch_role_order(&doc), want);
    assert_eq!(branch_role_evidence(&text("x")).unwrap_err().0, "expected_mapping");
    assert_eq!(branch_role_order(&text("x")), text("x"));
}

#[test]
fn kept_in_order_cuts_to_what_was_laid() {
    let ordered = mapping(vec![
        ("b", mapping(vec![("p.y", text("1")), ("p.x", text("2"))])),
        ("a", mapping(vec![("q.z", text("3"))])),
        ("meta", text("m")),
    ]);
    let laid = mapping(vec![("a", mapping(vec![])), ("b", mapping(vec![("p.x", text("9"))]))]);
    assert_eq!(kept_in_order(&ordered, &laid), mapping(vec![("b", mapping(vec![("p.x", text("2"))]))]));
    assert_eq!(kept_in_order(&text("o"), &laid), text("o"));
}

#[test]
fn text_values_walk_depth_first() {
    let v = mapping(vec![("a", Value::List(vec![text("x"), Value::Null, mapping(vec![("b", text("y"))])])), ("c", text("z"))]);
    let mut out = vec!["w".to_string()];
    text_values(&v, &mut out);
    assert_eq!(out, vec!["w", "x", "y", "z"]);
}

#[test]
fn metadata_is_meta_or_empty() {
    assert_eq!(metadata(&mapping(vec![("meta", text("m"))])), text("m"));
    assert_eq!(metadata(&mapping(vec![])), mapping(vec![]));
}

#[test]
fn verdicts_strings_and_shapes() {
    assert_eq!(verdict(&mapping(vec![("title", text("t"))])), text("t"));
    assert_eq!(verdict(&mapping(vec![("verdict", text("v")), ("title", text("t"))])), text("v"));
    assert_eq!(verdict(&mapping(vec![("verdict", Value::Null), ("title", text("t"))])), text("t"));
    assert_eq!(strings_of(&Value::List(vec![text("a"), Value::Null, text("b")])), vec!["a", "b"]);
    assert!(shaped(&mapping(vec![("rests_on", Value::List(vec![text("p.a")]))]), "rests_on"));
    assert!(!shaped(&mapping(vec![("rests_on", Value::List(vec![]))]), "rests_on"));
    assert!(!shaped(&mapping(vec![("rests_on", Value::List(vec![Value::Null]))]), "rests_on"));
}

#[test]
fn a_hypothesis_moves_its_members_into_its_collections() {
    let base = mapping(vec![
        ("decisions", mapping(vec![("d.x", mapping(vec![("v", text("old"))]))])),
        ("known", mapping(vec![("p.a", mapping(vec![("v", text("1"))])), ("p.b", mapping(vec![("v", text("2"))]))])),
    ]);
    let hypothesis = mapping(vec![("open", mapping(vec![("p.a", mapping(vec![("v", text("3"))]))]))]);
    let got = layer(&base, &hypothesis).unwrap();
    let want = mapping(vec![
        ("decisions", mapping(vec![("d.x", mapping(vec![("v", text("old"))]))])),
        ("known", mapping(vec![("p.b", mapping(vec![("v", text("2"))]))])),
        ("open", mapping(vec![("p.a", mapping(vec![("v", text("3"))]))])),
    ]);
    assert_eq!(got, want);
    assert_eq!(layer(&base, &text("x")).unwrap_err().0, "expected_mapping");
    assert_eq!(layer(&text("b"), &mapping(vec![])).unwrap(), text("b"));
}

#[test]
fn keeping_twice_is_keeping_once() {
    let ordered = mapping(vec![
        ("b", mapping(vec![("p.y", text("1")), ("p.x", text("2"))])),
        ("a", mapping(vec![("q.z", text("3"))])),
    ]);
    let laid = mapping(vec![("a", mapping(vec![("q.z", text("0"))])), ("b", mapping(vec![("p.x", text("9"))]))]);
    let once = kept_in_order(&ordered, &laid);
    assert_eq!(kept_in_order(&once, &laid), once);
}
