use ordinary::refusal::{fold_refusal, stray, verdict_lines, Reversal, UnionFacts};

fn strings(xs: &[&str]) -> Vec<String> {
    xs.iter().map(|s| s.to_string()).collect()
}

fn clean() -> UnionFacts {
    UnionFacts {
        hyps: vec![("h1".to_string(), false), ("h2".to_string(), false)],
        contested: vec![],
        reversed: vec![],
        untaken: vec![],
        untakeable: vec![],
        drops_needed: vec![],
        refused: 0,
        falsified: 0,
        holes: 0,
        head_falsified: 0,
        moved: 0,
    }
}

fn reversal(id: &str, hyp: usize, why: &str) -> Reversal {
    Reversal { id: id.to_string(), hyp, why: why.to_string() }
}

#[test]
fn a_clean_union_folds() {
    assert_eq!(fold_refusal(&clean(), &vec![]), None);
}

#[test]
fn a_contested_id_stops_the_fold() {
    let mut c = clean();
    c.contested = strings(&["p.a", "p.b"]);
    assert_eq!(fold_refusal(&c, &vec![]).unwrap(), "refused - a contested id stops the fold: p.a, p.b");
    assert_eq!(stray(&c, &strings(&["zz"])), None);
}

#[test]
fn take_must_name_a_reversal_that_a_name_can_take() {
    let mut c = clean();
    c.reversed = vec![reversal("j.a", 0, "kind changed")];
    c.untaken = vec![0];
    c.untakeable = strings(&["j.a"]);
    assert_eq!(
        fold_refusal(&c, &strings(&["j.x"])).unwrap(),
        "refused - --take names j.x, which no hypothesis here lays over a standing judgment, or reads from another source than the base"
    );
    assert_eq!(fold_refusal(&c, &strings(&["j.a"])).unwrap(), "refused - no name takes j.a: kind changed");
    assert_eq!(fold_refusal(&c, &vec![]).unwrap(), "refused - no name takes j.a: kind changed");
}

#[test]
fn a_dropped_dependency_needs_a_reason() {
    let mut c = clean();
    c.reversed = vec![reversal("j.a", 1, "by its own condition")];
    c.drops_needed = vec![("j.a".to_string(), strings(&["p.x", "p y"]))];
    assert_eq!(
        fold_refusal(&c, &vec![]).unwrap(),
        "refused - a replacement no longer rests on what the judgment it replaces rested on, and a dependency dropped is a decision with a reason: consolidate h2 --drop 'p.x: <why>' --drop 'p y: <why>'"
    );
}

#[test]
fn an_untaken_verdict_waits_for_a_name() {
    let mut c = clean();
    c.reversed = vec![reversal("j.a", 1, "waiting")];
    c.untaken = vec![0];
    assert_eq!(
        fold_refusal(&c, &vec![]).unwrap(),
        "refused - a verdict the base's own condition has not broken folds only when a person names it: consolidate h2 --take j.a"
    );
    c.falsified = 1;
    assert_eq!(fold_refusal(&c, &vec![]).unwrap(), "refused - the dry run is not clean; nothing folds until it is");
}

#[test]
fn a_what_if_never_folds() {
    let mut c = clean();
    c.hyps[1].1 = true;
    assert_eq!(
        fold_refusal(&c, &vec![]).unwrap(),
        "refused - h2 never folds: a what-if is evaluated and never written; consolidate the others by name"
    );
    c.hyps[0].1 = true;
    assert_eq!(
        fold_refusal(&c, &vec![]).unwrap(),
        "refused - h1, h2 never fold: a what-if is evaluated and never written; consolidate the others by name"
    );
    c.moved = 2;
    assert_eq!(fold_refusal(&c, &vec![]).unwrap(), "refused - the dry run is not clean; nothing folds until it is");
}

#[test]
fn a_clean_report_says_what_folds() {
    let c = clean();
    assert_eq!(verdict_lines(&c, 1, 0), strings(&["clean: h1, h2 may fold - consolidate h1 h2"]));
    assert_eq!(
        verdict_lines(&c, 0, 0),
        strings(&["clean - and nothing to write: the base already holds everything h1, h2 propose; consolidate h1 h2 removes the files"])
    );
    let mut one = clean();
    one.hyps = vec![("h1".to_string(), false), ("w".to_string(), true)];
    assert_eq!(
        verdict_lines(&one, 0, 0),
        strings(&["clean - and nothing to write: the base already holds everything h1 proposes; consolidate h1 removes the file"])
    );
    let mut never = clean();
    never.hyps = vec![("w".to_string(), true)];
    assert_eq!(
        verdict_lines(&never, 1, 1),
        strings(&["clean - and nothing here folds: w is a what-if, evaluated and never written"])
    );
    let mut moved = clean();
    moved.moved = 1;
    assert_eq!(
        verdict_lines(&moved, 1, 0),
        strings(&["moved: 1 judgment to re-review before the fold - a premise moved under it"])
    );
}

#[test]
fn an_unclean_report_gathers_the_commands_by_hypothesis() {
    let mut c = clean();
    c.reversed = vec![reversal("j.a", 1, "w"), reversal("j.b", 0, "w"), reversal("j.c", 1, "w")];
    c.untaken = vec![0, 1, 2];
    c.drops_needed = vec![("j.c".to_string(), strings(&["p.x"]))];
    assert_eq!(
        verdict_lines(&c, 0, 0),
        strings(&[
            "not clean: 3 reversals to take by name, a dropped dependency to name - a verdict the base's own condition has not broken folds only when a person names it",
            "  consolidate h2 --take j.a --take j.c --drop 'p.x: <why>'",
            "  consolidate h1 --take j.b",
        ])
    );
    c.holes = 1;
    c.untaken = vec![1];
    c.untakeable = strings(&["j.b"]);
    assert_eq!(
        verdict_lines(&c, 0, 0),
        strings(&[
            "not clean: a hole, 1 reversal to take by name, a dropped dependency to name - nothing folds until it is read again",
            "  consolidate h2 --drop 'p.x: <why>'",
        ])
    );
}
