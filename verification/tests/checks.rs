use ordinary::arrange::{arrangement_failures, arrangement_notes, page_failures, page_notes, Arrangement};
use ordinary::checks::{
    page_shape, section_chosen, section_failures, section_kind, section_title, shape_note, tab_failures, Shape,
};
use ordinary::page::{Section, Tab};
use ordinary::value::Value;

fn strings(xs: &[&str]) -> Vec<String> {
    xs.iter().map(|s| s.to_string()).collect()
}

fn section(title: &str, pick: &[&str], kind: &str, text: &str) -> Section {
    Section {
        title: title.to_string(),
        why_: String::new(),
        text: text.to_string(),
        pick: strings(pick),
        kind: kind.to_string(),
        by: String::new(),
    }
}

fn tab(title: &str, bare: bool, shape: Vec<(&str, Value)>) -> Tab {
    Tab {
        key: "t".to_string(),
        title: title.to_string(),
        occasion: String::new(),
        intent: String::new(),
        serves: vec![],
        bare,
        shape: shape.into_iter().map(|(k, v)| (k.to_string(), v)).collect(),
        sections: vec![],
    }
}

fn node(id: &str, value: &str) -> (String, Value) {
    (
        id.to_string(),
        Value::Mapping(vec![(
            "body".to_string(),
            Value::Mapping(vec![("v".to_string(), Value::Text(value.to_string()))]),
        )]),
    )
}

#[test]
fn a_section_without_a_title_is_named_by_its_selectors() {
    assert_eq!(section_title(&section("", &["p.*", "q"], "", "")), "p.*,q");
    assert_eq!(section_title(&section("Mine", &["p.*"], "", "")), "Mine");
}

#[test]
fn a_section_without_a_renderer_shows_cards_for_judgments() {
    let js = strings(&["j"]);
    assert_eq!(section_kind(&section("", &[], "", ""), &strings(&["a", "j"]), &js), "cards");
    assert_eq!(section_kind(&section("", &[], "", ""), &strings(&["a"]), &js), "table");
    assert_eq!(section_kind(&section("", &[], "axis", ""), &strings(&["j"]), &js), "axis");
}

#[test]
fn an_unknown_renderer_and_an_empty_pick_both_fail() {
    let fs = section_failures(
        &tab("Plans", false, vec![]),
        &section("S", &["gone.*"], "pie", ""),
        &vec![],
        &vec![],
        &vec![],
        &vec![],
        &vec![],
    );
    assert_eq!(
        fs,
        strings(&[
            "section 'S': unknown renderer 'pie'",
            "section 'S' (tab 'Plans') picks nothing - it is about something the record no longer holds",
        ])
    );
}

#[test]
fn a_timeline_needs_dates() {
    let nodes = vec![node("a", "2024-01-02"), node("b", "soon")];
    let fs = section_failures(
        &tab("", true, vec![]),
        &section("When", &["*"], "timeline", ""),
        &strings(&["a", "b"]),
        &vec![],
        &nodes,
        &vec![],
        &vec![],
    );
    assert_eq!(fs, strings(&["section 'When': timeline needs date values; 1 of 2 are not dates"]));
}

#[test]
fn renderers_hold_their_picks_to_what_they_show() {
    let bare = tab("", true, vec![]);
    let none: Vec<(String, Value)> = vec![];
    let five = strings(&["a", "b", "c", "d", "e"]);
    assert_eq!(
        section_failures(&bare, &section("H", &["*"], "headline", ""), &five, &vec![], &none, &vec![], &vec![]),
        strings(&["section 'H': headline carries one to four values, not 5"])
    );
    assert_eq!(
        section_failures(&bare, &section("A", &["*"], "alerts", ""), &strings(&["a", "j"]), &strings(&["j"]), &none, &vec![], &vec![]),
        strings(&["section 'A': alerts ranks judgments; 1 of these are entries"])
    );
    let links = vec![("a".to_string(), Some("https://x.org".to_string())), ("b".to_string(), None)];
    assert_eq!(
        section_failures(&bare, &section("L", &["*"], "links", ""), &strings(&["a", "b", "c"]), &vec![], &none, &links, &vec![]),
        strings(&["section 'L': links needs a safe url or file: b, c"])
    );
    assert_eq!(
        section_failures(&bare, &section("G", &["*"], "grouped", ""), &strings(&["a"]), &vec![], &none, &vec![], &strings(&["p"])),
        strings(&["section 'G': grouped lays groups side by side; these are all one group (p)"])
    );
    assert!(section_failures(&bare, &section("G", &["*"], "fronts", ""), &strings(&["a"]), &vec![], &none, &vec![], &strings(&["p", "q"])).is_empty());
    assert_eq!(
        section_failures(&bare, &section("X", &["*"], "axis", "  \n "), &strings(&["a"]), &vec![], &none, &vec![], &vec![]),
        strings(&["section 'X': axis needs a written sequence in text"])
    );
}

#[test]
fn a_moved_shape_is_noted() {
    let now = Shape { entries: 3, judgments: 1, flagged: 0, blocked: 0 };
    let t = tab("", false, vec![("entries", Value::Integer("2".to_string())), ("judgments", Value::Integer("1".to_string()))]);
    assert_eq!(shape_note(&t, &now).unwrap(), "tab '?' recorded a different shape: entries: 2 -> 3");
    let t = tab("", true, vec![("entries", Value::Integer("3".to_string()))]);
    assert!(shape_note(&t, &now).is_none());
    let t = tab("", true, vec![("blocked", Value::Integer("1".to_string())), ("flagged", Value::Integer("2".to_string()))]);
    assert_eq!(shape_note(&t, &now).unwrap(), "the brief recorded a different shape: blocked: 1 -> 0; flagged: 2 -> 0");
}

fn arrangement(id: &str, sources: &[&str], fired: bool) -> Arrangement {
    Arrangement { id: id.to_string(), sources: strings(sources), predicate: "x > 1".to_string(), fired }
}

#[test]
fn two_arrangements_on_one_tab_without_a_shared_source_fail() {
    let tabs = vec![tab("Plans", false, vec![]), tab("", false, vec![])];
    let earned = vec![strings(&["s1", "s2"]), vec![]];
    let arrs = vec![arrangement("d.one", &["s1"], false), arrangement("d.two", &["s2"], false)];
    assert_eq!(
        arrangement_failures(&arrs, &tabs, &earned),
        strings(&["the brief reads d.one and d.two on one tab ('Plans'), which neither decided"])
    );
    let arrs = vec![arrangement("d.one", &["s1"], false), arrangement("d.two", &["s1", "s2"], false)];
    assert!(arrangement_failures(&arrs, &tabs, &earned).is_empty());
}

#[test]
fn an_arrangement_the_tabs_do_not_serve_fails() {
    let tabs = vec![tab("Plans", false, vec![]), tab("Other", false, vec![])];
    let earned = vec![strings(&["s1"]), vec![]];
    let arrs = vec![arrangement("d.one", &["s1", "s3"], true)];
    assert_eq!(
        arrangement_failures(&arrs, &tabs, &earned),
        strings(&[
            "the brief does not serve s1, s3 together, as d.one decided (no tab's sections earn s3)",
            "d.one: wrong_if holds (x > 1) - the arrangement fired",
        ])
    );
    let single = vec![tab("", true, vec![])];
    assert!(arrangement_failures(&vec![arrangement("d.one", &["s3"], false)], &single, &vec![vec![]]).is_empty());
}

#[test]
fn arranged_tabs_that_nobody_decided_are_noted() {
    let tabs = vec![tab("Plans", false, vec![]), tab("Kept", false, vec![])];
    let earned = vec![strings(&["s1"]), strings(&["s9"])];
    let arrs = vec![arrangement("d.one", &["s1"], false)];
    assert_eq!(
        arrangement_notes(true, true, &arrs, &tabs, &earned),
        strings(&["tab 'Kept' is an arrangement no decision records"])
    );
    assert_eq!(
        arrangement_notes(true, true, &vec![], &vec![], &vec![]),
        strings(&["no arrangement decision is recorded, so the brief is held against none"])
    );
    assert!(arrangement_notes(false, true, &vec![], &vec![], &vec![]).is_empty());
}

#[test]
fn a_section_picks_what_its_selectors_pick_together() {
    let ids = strings(&["j.x", "p.a", "p.b", "q.c"]);
    let js = strings(&["j.x"]);
    let chosen = section_chosen(&section("", &["q.c", "p"], "", ""), &ids, &js, &vec![]);
    assert_eq!(chosen, strings(&["p.a", "p.b", "q.c"]));
    let chosen = section_chosen(&section("", &["judgments"], "", ""), &ids, &js, &vec![]);
    assert_eq!(chosen, strings(&["j.x"]));
}

#[test]
fn a_tab_raises_the_failures_of_its_sections_in_order() {
    let ids = strings(&["j.x", "p.a", "p.b", "q.c"]);
    let js = strings(&["j.x"]);
    let mut t = tab("", true, vec![]);
    t.sections = vec![
        section("Ps", &["p"], "", ""),
        section("", &["gone"], "", ""),
        section("G", &["all"], "grouped", ""),
        section("G1", &["p"], "fronts", ""),
    ];
    let fs = tab_failures(&t, &ids, &js, &vec![], &vec![], &vec![], &vec![]);
    assert_eq!(
        fs,
        strings(&[
            "section 'gone' picks nothing - it is about something the record no longer holds",
            "section 'G1': grouped lays groups side by side; these are all one group (p)",
        ])
    );
}

#[test]
fn the_page_shape_counts_entries_judgments_and_flags() {
    let ids = strings(&["graph.entries", "j.x", "j.y", "p.a", "p.b"]);
    let js = strings(&["j.x", "j.y"]);
    let states = vec![
        ("j.x".to_string(), strings(&["blocked", "moved"])),
        ("j.y".to_string(), vec![]),
    ];
    let shape = page_shape(&ids, &js, &states);
    assert_eq!((shape.entries, shape.judgments, shape.flagged, shape.blocked), (2, 2, 1, 1));
}

#[test]
fn a_page_lists_arrangement_failures_before_section_failures() {
    let ids = strings(&["p.a"]);
    let mut t = tab("Plans", false, vec![("entries", Value::Integer("4".to_string()))]);
    t.sections = vec![section("", &["gone"], "", "")];
    let tabs = vec![t];
    let earned = vec![vec![]];
    let arrs = vec![arrangement("d.one", &["s1"], true)];
    assert_eq!(
        page_failures(&arrs, &tabs, &earned, &ids, &vec![], &vec![], &vec![], &vec![], &vec![]),
        strings(&[
            "the brief does not serve s1 together, as d.one decided (no tab's sections earn s1)",
            "d.one: wrong_if holds (x > 1) - the arrangement fired",
            "section 'gone' (tab 'Plans') picks nothing - it is about something the record no longer holds",
        ])
    );
    let now = Shape { entries: 1, judgments: 0, flagged: 0, blocked: 0 };
    assert_eq!(
        page_notes(true, false, &arrs, &tabs, &earned, &now),
        strings(&["tab 'Plans' recorded a different shape: entries: 4 -> 1"])
    );
}
