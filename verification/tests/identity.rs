use ordinary::identity::{declared_distinct, distinct_lines, distinct_plan, DistinctPlan, entry_with_fields, identity_plan, identity_roles, live_ids, one_line_why, same_kinds, same_line, unread_hypothesis, IdentityAction, IdentityRequest};
use ordinary::value::Value;

fn same(a: &str, b: &str, keep: Option<&str>) -> IdentityRequest {
    IdentityRequest { a: a.to_string(), b: b.to_string(), action: IdentityAction::Same { keep: keep.map(|k| k.to_string()) } }
}

fn distinct(a: &str, b: &str, because: &str) -> IdentityRequest {
    IdentityRequest { a: a.to_string(), b: b.to_string(), action: IdentityAction::Distinct { because: because.to_string() } }
}

fn strings(xs: &[&str]) -> Vec<String> {
    xs.iter().map(|s| s.to_string()).collect()
}

#[test]
fn the_why_of_distinct_is_one_line() {
    assert!(one_line_why(&distinct("p.a", "p.b", "two sources")).is_ok());
    assert_eq!(
        one_line_why(&distinct("p.a", "p.b", "one\ntwo")).unwrap_err().0,
        "the why is one line: a second line would be a line of the record"
    );
    assert!(one_line_why(&same("p.a", "p.b", None)).is_ok());
}

#[test]
fn keep_names_the_survivor() {
    let live = strings(&["p.a", "p.b"]);
    let none = vec![];
    assert_eq!(identity_roles(&same("p.a", "p.b", None), &live, &none, false).unwrap(), ("p.a".to_string(), "p.b".to_string()));
    assert_eq!(identity_roles(&same("p.a", "p.b", Some("b")), &live, &none, false).unwrap(), ("p.b".to_string(), "p.a".to_string()));
    assert_eq!(identity_roles(&same("p.a", "p.b", Some("p.b")), &live, &none, false).unwrap(), ("p.b".to_string(), "p.a".to_string()));
    assert_eq!(identity_roles(&same("p.a", "p.b", Some("a")), &live, &none, false).unwrap(), ("p.a".to_string(), "p.b".to_string()));
    assert_eq!(
        identity_roles(&same("p.a", "p.b", Some("c")), &live, &none, false).unwrap_err().0,
        "refused - --keep names the id that survives: p.a or p.b"
    );
}

#[test]
fn identity_edits_are_refused_in_order() {
    let live = strings(&["p.a", "p.b", "graph.entries"]);
    let retired = vec![("p.old".to_string(), "p.a".to_string())];
    assert_eq!(
        identity_roles(&same("p.a", "p.a", None), &live, &retired, false).unwrap_err().0,
        "refused - p.a and p.a are one id already"
    );
    assert_eq!(
        identity_roles(&distinct("p.a", "p.a", "x"), &live, &retired, false).unwrap_err().0,
        "refused - p.a and p.a are one id: distinct needs two"
    );
    assert_eq!(
        identity_roles(&same("graph.entries", "p.a", None), &live, &retired, false).unwrap_err().0,
        "refused - graph.entries is counted by the reader, never written"
    );
    assert_eq!(
        identity_roles(&distinct("p.a", "graph.entries", "x"), &live, &retired, false).unwrap_err().0,
        "refused - graph.entries is counted by the reader; it is nothing to be distinct from"
    );
    assert_eq!(
        identity_roles(&same("p.a", "p.old", None), &live, &retired, false).unwrap_err().0,
        "refused - p.old is not an entry of the record or of any hypothesis beside it - it was retired into p.a"
    );
    assert_eq!(
        identity_roles(&same("p.a", "p.none", None), &live, &retired, false).unwrap_err().0,
        "refused - p.none is not an entry of the record or of any hypothesis beside it"
    );
    assert_eq!(
        identity_roles(&same("p.a", "p.b", None), &live, &retired, true).unwrap_err().0,
        "refused - p.a and p.b were declared distinct; remove the distinct_from that says so before saying otherwise"
    );
    assert_eq!(
        identity_roles(&distinct("p.a", "p.b", "x"), &live, &retired, true).unwrap(),
        ("p.a".to_string(), "p.b".to_string())
    );
}

#[test]
fn distinct_from_declares_either_way() {
    let body = |ids: &str| Value::Mapping(vec![("distinct_from".to_string(), Value::Text(ids.to_string()))]);
    let base = vec![("p.a".to_string(), body("p.c, p.b"))];
    let hyp = vec![("p.c".to_string(), body("p.d"))];
    let worlds = vec![base, hyp];
    assert!(declared_distinct(&worlds, "p.a", "p.b"));
    assert!(declared_distinct(&worlds, "p.b", "p.a"));
    assert!(declared_distinct(&worlds, "p.d", "p.c"));
    assert!(!declared_distinct(&worlds, "p.b", "p.c"));
}

#[test]
fn a_same_joins_ids_of_one_kind() {
    let judgment = Value::Mapping(vec![("rests_on".to_string(), Value::List(vec![Value::Text("p.a".to_string())]))]);
    let entry = Value::Mapping(vec![("v".to_string(), Value::Text("1".to_string()))]);
    let worlds = vec![vec![
        ("d.x".to_string(), judgment),
        ("d.y".to_string(), Value::Mapping(vec![("rests_on".to_string(), Value::List(vec![Value::Text("p.b".to_string())]))])),
        ("p.a".to_string(), entry),
    ]];
    assert!(same_kinds(&worlds, "d.x", "d.y", "rests_on").is_ok());
    assert_eq!(
        same_kinds(&worlds, "d.x", "p.a", "rests_on").unwrap_err().0,
        "refused - d.x is a judgment and p.a an entry: one subject cannot be both"
    );
    assert_eq!(same_line("p.a", "p.b", "p.b", "p.a", true), "same p.a p.b: p.a retired into p.b (kept p.b)");
    assert_eq!(same_line("p.a", "p.b", "p.a", "p.b", false), "same p.a p.b: p.b retired into p.a");
}

#[test]
fn a_same_joins_entries_with_fields() {
    let worlds = vec![
        vec![("q.open".to_string(), Value::Text("why?".to_string()))],
        vec![
            ("p.a".to_string(), Value::Mapping(vec![])),
            ("q.open".to_string(), Value::Mapping(vec![])),
        ],
    ];
    assert!(entry_with_fields(&worlds, "p.a").is_ok());
    assert_eq!(
        entry_with_fields(&worlds, "q.open").unwrap_err().0,
        "refused - q.open is a line, not an entry with fields - an open question is closed by answering it, not folded into another"
    );
    assert_eq!(
        unread_hypothesis("h", &Value::Text("bad yaml".to_string())).0,
        "refused - hypothesis h could not be read (bad yaml), so the migration could not reach what it holds"
    );
}

#[test]
fn an_identity_plan_checks_in_order() {
    let judgment = |d: &str| Value::Mapping(vec![("rests_on".to_string(), Value::List(vec![Value::Text(d.to_string())]))]);
    let base = vec![
        ("d.x".to_string(), judgment("p.a")),
        ("d.y".to_string(), judgment("p.a")),
        ("p.a".to_string(), Value::Mapping(vec![])),
        ("q.open".to_string(), Value::Text("why?".to_string())),
        ("q.other".to_string(), Value::Text("how?".to_string())),
    ];
    let hyp = vec![("p.b".to_string(), Value::Mapping(vec![]))];
    let worlds = vec![base, hyp];
    assert_eq!(live_ids(&worlds), strings(&["d.x", "d.y", "p.a", "p.b", "q.open", "q.other"]));
    let none: Vec<(String, Value)> = vec![];
    let retired: Vec<(String, String)> = vec![];
    assert_eq!(
        identity_plan(&same("d.x", "d.y", None), &worlds, &none, &retired, "rests_on").unwrap(),
        ("d.x".to_string(), "d.y".to_string())
    );
    assert_eq!(
        identity_plan(&same("d.x", "p.a", None), &worlds, &none, &retired, "rests_on").unwrap_err().0,
        "refused - d.x is a judgment and p.a an entry: one subject cannot be both"
    );
    assert_eq!(
        identity_plan(&same("q.open", "q.other", None), &worlds, &none, &retired, "rests_on").unwrap_err().0,
        "refused - q.open is a line, not an entry with fields - an open question is closed by answering it, not folded into another"
    );
    let errors = vec![("h1".to_string(), Value::Null), ("h2".to_string(), Value::Text("broken".to_string()))];
    assert_eq!(
        identity_plan(&same("p.a", "p.b", None), &worlds, &errors, &retired, "rests_on").unwrap_err().0,
        "refused - hypothesis h2 could not be read (broken), so the migration could not reach what it holds"
    );
    assert_eq!(
        identity_plan(&distinct("p.a", "p.b", "x"), &worlds, &errors, &retired, "rests_on").unwrap(),
        ("p.a".to_string(), "p.b".to_string())
    );
    assert_eq!(
        identity_plan(&same("p.a", "p.zz", None), &worlds, &none, &retired, "rests_on").unwrap_err().0,
        "refused - p.zz is not an entry of the record or of any hypothesis beside it"
    );
}

#[test]
fn a_distinct_writes_its_why_once() {
    let body = |ids: Option<&str>| match ids {
        Some(i) => Value::Mapping(vec![("distinct_from".to_string(), Value::Text(i.to_string()))]),
        None => Value::Mapping(vec![]),
    };
    let worlds = vec![vec![
        ("p.a".to_string(), body(Some("p.c"))),
        ("p.b".to_string(), body(None)),
        ("q.line".to_string(), Value::Text("a line".to_string())),
    ]];
    match distinct_plan(&worlds, "p.a", "p.b", "  two \t sources\u{1c}here ").unwrap() {
        DistinctPlan::Write { why, value } => {
            assert_eq!(why, "two sources here");
            assert_eq!(value, "p.c, p.b");
        },
        _ => panic!("expected a write"),
    }
    match distinct_plan(&worlds, "p.a", "p.c", "x").unwrap() {
        DistinctPlan::Already(m) => assert_eq!(m, "p.a and p.c are already declared distinct; nothing written\n"),
        _ => panic!("expected the pair to be known"),
    }
    assert_eq!(
        distinct_plan(&worlds, "p.a", "p.b", " \t ").err().unwrap().0,
        "refused - distinct takes the why: distinct <a> <b> \"<why>\""
    );
    assert_eq!(
        distinct_plan(&worlds, "q.line", "p.b", "x").err().unwrap().0,
        "refused - q.line is a line, not an entry with fields; distinct is written on a field"
    );
    let (a, b) = distinct_lines("p.a", "p.b", "two sources", "p.c, p.b", Some("h"));
    assert_eq!(a, "distinct p.a from p.b: two sources (in hypothesis h)");
    assert_eq!(b, "  the pair returns as no candidate; p.a carries distinct_from: p.c, p.b");
}
