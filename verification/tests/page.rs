use ordinary::page::{
    body, decimal_succ, deps, esc, finish_page, groups, groups_of, page_nodes, parse_brief, parse_sections, select,
    selectors, url_full, url_path,
};
use ordinary::value::Value;

fn text(s: &str) -> Value {
    Value::Text(s.to_string())
}

fn mapping(pairs: Vec<(&str, Value)>) -> Value {
    Value::Mapping(pairs.into_iter().map(|(k, v)| (k.to_string(), v)).collect())
}

fn strings(xs: &[&str]) -> Vec<String> {
    xs.iter().map(|s| s.to_string()).collect()
}

fn sorted(mut v: Vec<String>) -> Vec<String> {
    v.sort();
    v.dedup();
    v
}

#[test]
fn esc_escapes_markup_and_quotes_in_attributes() {
    assert_eq!(esc("a<b>&'\"", false), "a&lt;b&gt;&amp;'\"");
    assert_eq!(esc("a<b>&'\"", true), "a&lt;b&gt;&amp;&#x27;&quot;");
}

#[test]
fn urls_percent_encode_their_utf8_bytes() {
    assert_eq!(url_path("a b/é~"), "a%20b/%C3%A9~");
    assert_eq!(url_path("x?y"), "x%3Fy");
    assert_eq!(url_full("http://h/x?y=1#z"), "http://h/x?y=1#z");
    assert_eq!(url_full("a b"), "a%20b");
    assert_eq!(url_full("€"), "%E2%82%AC");
    assert_eq!(url_full("😀"), "%F0%9F%98%80");
}

#[test]
fn selectors_take_lists_or_a_truthy_value() {
    assert_eq!(selectors(Some(&Value::List(vec![text("a"), Value::Integer("2".into())]))), strings(&["a", "2"]));
    assert_eq!(selectors(Some(&text("p"))), strings(&["p"]));
    assert_eq!(selectors(Some(&text(""))), strings(&[]));
    assert_eq!(selectors(None), strings(&[]));
}

#[test]
fn select_picks_by_name_state_id_or_prefix() {
    let ids = strings(&["p.a", "p.b", "q.a", "d.x"]);
    let judgments = strings(&["d.x"]);
    let states = vec![
        ("d.x".to_string(), strings(&["broken"])),
        ("p.a".to_string(), strings(&[])),
    ];
    assert_eq!(sorted(select(" all ", &ids, &judgments, &states)), sorted(ids.clone()));
    assert_eq!(select("judgments", &ids, &judgments, &states), strings(&["d.x"]));
    assert_eq!(select("flagged", &ids, &judgments, &states), strings(&["d.x"]));
    assert_eq!(select("broken", &ids, &judgments, &states), strings(&["d.x"]));
    assert!(select("moved", &ids, &judgments, &states).is_empty());
    assert_eq!(select("q.a", &ids, &judgments, &states), strings(&["q.a"]));
    assert_eq!(sorted(select("p..", &ids, &judgments, &states)), strings(&["p.a", "p.b"]));
    assert!(select("r", &ids, &judgments, &states).is_empty());
}

#[test]
fn deps_read_lists_or_the_characters_of_a_text() {
    let b = mapping(vec![("rests_on", Value::List(vec![text("p.a"), text("p.b")]))]);
    assert_eq!(deps(&b, "rests_on"), strings(&["p.a", "p.b"]));
    let b = mapping(vec![("rests_on", text("ab"))]);
    assert_eq!(deps(&b, "rests_on"), strings(&["a", "b"]));
    assert!(deps(&b, "other").is_empty());
}

#[test]
fn bare_bodies_read_as_values() {
    let nodes = vec![
        ("p.a".to_string(), mapping(vec![("body", text("open?"))])),
        ("p.b".to_string(), mapping(vec![("body", mapping(vec![("v", text("1"))]))])),
    ];
    let read = page_nodes(&nodes).unwrap();
    assert_eq!(read[0].1, mapping(vec![("body", mapping(vec![("v", text("open?"))]))]));
    assert_eq!(read[1].1, nodes[1].1);
    assert_eq!(body(&read, "p.a").unwrap()[0].0, "v");
    assert_eq!(page_nodes(&vec![("x".to_string(), text("y"))]).unwrap_err().0, "expected_mapping");
}

#[test]
fn a_brief_lays_out_its_tabs() {
    let (m, tabs) = parse_brief(None).unwrap();
    assert!(m.is_empty() && tabs.is_empty());
    let brief = mapping(vec![
        ("intent", text("decide")),
        ("sections", Value::List(vec![mapping(vec![("title", text("S")), ("pick", text("p"))]), text("skip")])),
        (
            "tabs",
            Value::List(vec![
                mapping(vec![("title", text("T1")), ("serves", Value::List(vec![text("d.x")]))]),
                mapping(vec![("title", text("T2"))]),
            ]),
        ),
    ]);
    let (_, tabs) = parse_brief(Some(&brief)).unwrap();
    assert_eq!(tabs.len(), 3);
    assert_eq!(tabs[0].key, "now");
    assert!(tabs[0].bare);
    assert_eq!(tabs[0].intent, "decide");
    assert_eq!(tabs[0].sections.len(), 1);
    assert_eq!(tabs[0].sections[0].title, "S");
    assert_eq!(tabs[0].sections[0].pick, strings(&["p"]));
    assert_eq!(tabs[1].key, "now2");
    assert_eq!(tabs[1].serves, strings(&["d.x"]));
    assert_eq!(tabs[2].key, "now3");
    assert_eq!(tabs[2].title, "T2");
    let only_tabs = mapping(vec![("tabs", Value::List(vec![mapping(vec![("title", text("T"))])]))]);
    let (_, tabs) = parse_brief(Some(&only_tabs)).unwrap();
    assert_eq!(tabs.len(), 1);
    assert_eq!(tabs[0].key, "now");
    assert!(!tabs[0].bare);
    assert_eq!(parse_brief(Some(&text("x"))).unwrap_err().0, "expected_mapping");
    assert_eq!(parse_brief(Some(&text(""))).unwrap().1.len(), 1);
}

#[test]
fn sections_read_their_fields_as_text() {
    let secs = parse_sections(&[mapping(vec![("as", text("table")), ("why", Value::Null)])]);
    assert_eq!(secs[0].kind, "table");
    assert_eq!(secs[0].why_, "None");
    assert_eq!(secs[0].title, "");
}

#[test]
fn decimal_successor_carries() {
    assert_eq!(decimal_succ(0).iter().collect::<String>(), "1");
    assert_eq!(decimal_succ(9).iter().collect::<String>(), "10");
    assert_eq!(decimal_succ(1999).iter().collect::<String>(), "2000");
}

#[test]
fn groups_and_membership() {
    let ids = strings(&["p.a", "p.b", "q.a"]);
    let brief = mapping(vec![("groups", mapping(vec![("first", text("p")), ("second", Value::List(vec![text("q.a")]))]))]);
    let g = groups(&brief, &ids, &strings(&[]), &vec![]);
    assert_eq!(g.len(), 1);
    assert_eq!(g[0].0, "groups");
    assert_eq!(sorted(g[0].1[0].1.clone()), strings(&["p.a", "p.b"]));
    let nodes = vec![("q.a".to_string(), mapping(vec![("body", mapping(vec![("team", text("red"))]))]))];
    assert_eq!(groups_of("q.a", "", &g, &nodes), strings(&["second"]));
    assert_eq!(groups_of("q.a", "prefix", &g, &nodes), strings(&["q"]));
    assert_eq!(groups_of("q.a", "team", &g, &nodes), strings(&["red"]));
    let nested = mapping(vec![("fronts", mapping(vec![("s1", mapping(vec![("g", text("q"))]))]))]);
    let g = groups(&nested, &ids, &strings(&[]), &vec![]);
    assert_eq!(g[0].0, "s1");
}

#[test]
fn a_page_is_refused_over_its_byte_limit() {
    let page = finish_page("é".to_string(), 2, 5, 2, 1, vec![], vec![], Value::Null, vec![]).unwrap();
    assert_eq!((page.elements, page.entries, page.judgments, page.tabs), (5, 3, 2, 2));
    assert_eq!(
        finish_page("é".to_string(), 1, 5, 2, 1, vec![], vec![], Value::Null, vec![]).unwrap_err().0,
        "Hub HTML output exceeds its byte limit"
    );
}

#[test]
fn selections_come_out_in_ascending_order_each_once() {
    let ids = strings(&["q.b", "p.b", "q.a", "p.a"]);
    let judgments = strings(&["q.b", "p.a", "q.b"]);
    let states = vec![
        ("q.a".to_string(), strings(&["moved"])),
        ("p.b".to_string(), strings(&["moved", "broken"])),
    ];
    assert_eq!(select("all", &ids, &judgments, &states), strings(&["p.a", "p.b", "q.a", "q.b"]));
    assert_eq!(select("judgments", &ids, &judgments, &states), strings(&["p.a", "q.b"]));
    assert_eq!(select("moved", &ids, &judgments, &states), strings(&["p.b", "q.a"]));
    assert_eq!(select("q", &ids, &judgments, &states), strings(&["q.a", "q.b"]));
    let brief = mapping(vec![(
        "groups",
        mapping(vec![("both", Value::List(vec![text("q"), text("p.b"), text("q.a")]))]),
    )]);
    let g = groups(&brief, &ids, &judgments, &states);
    assert_eq!(g[0].1[0].1, strings(&["p.b", "q.a", "q.b"]));
}
