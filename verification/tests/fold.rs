use ordinary::fold::{dropped_line, files_line, kept_line, replace_line, tally_line, worse_checks};
use ordinary::value::Value;

fn text(s: &str) -> Value {
    Value::Text(s.to_string())
}

fn mapping(pairs: Vec<(&str, Value)>) -> Value {
    Value::Mapping(pairs.into_iter().map(|(k, v)| (k.to_string(), v)).collect())
}

#[test]
fn a_replacement_says_what_it_kept() {
    assert_eq!(replace_line("d.x", "h", false, false), "replace d.x with what h holds, where it stands");
    assert_eq!(replace_line("d.x", "h", true, false), "replace d.x with what h holds, where it stands - what it replaced kept");
    assert_eq!(
        replace_line("d.x", "h", true, true),
        "replace d.x with what h holds, where it stands - born renewed, and what it replaced kept"
    );
    let old = mapping(vec![("because", text("b")), ("verdict", text("v"))]);
    assert_eq!(kept_line(&old, "replaced.yaml"), "  kept: the replaced verdict, because, in replaced.yaml");
    assert_eq!(kept_line(&mapping(vec![("v", text("1"))]), "r.yaml"), "  kept: the replaced body, in r.yaml");
}

#[test]
fn a_renewed_judgment_says_what_it_no_longer_rests_on() {
    let list = |xs: &[&str]| Value::List(xs.iter().map(|s| text(s)).collect());
    let old = mapping(vec![("rests_on", list(&["p.a", "p.b", "p.c"]))]);
    let new = mapping(vec![("rests_on", list(&["p.b"]))]);
    assert_eq!(dropped_line(&old, &new, "rests_on").unwrap(), "  no longer rests on p.a; p.c");
    assert!(dropped_line(&new, &old, "rests_on").is_none());
}

#[test]
fn a_fold_tallies_what_it_wrote() {
    assert_eq!(tally_line("h", 1, 0, 0, 0, 0), "nothing to write: the base already holds everything h proposes");
    assert_eq!(tally_line("a, b", 2, 0, 0, 0, 0), "nothing to write: the base already holds everything a, b propose");
    assert_eq!(tally_line("h", 1, 3, 1, 2, 1), "folded h: 2 entries and 1 judgment - 2 added, 1 replaced");
    assert_eq!(tally_line("h", 1, 1, 0, 1, 0), "folded h: 1 entry and 0 judgments - 1 added, 0 replaced");
    assert_eq!(files_line(&vec![]), "files to commit: none");
    assert_eq!(
        files_line(&vec!["r.yaml".to_string(), "h.yaml (deleted)".to_string()]),
        "files to commit: r.yaml, h.yaml (deleted)"
    );
}

#[test]
fn a_fold_that_breaks_checks_is_undone() {
    assert!(worse_checks(&vec![]).is_none());
    let worse: Vec<String> = ["a", "b", "c", "d"].iter().map(|s| s.to_string()).collect();
    assert_eq!(
        worse_checks(&worse).unwrap(),
        "the fold broke the record and was undone: check fails on what was folded: a; b; c"
    );
}
