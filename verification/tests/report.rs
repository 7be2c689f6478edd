use ordinary::report::{base_heading, drop_note, reversal_line, reversal_note, section_heading, update_lines, ReportSection};

#[test]
fn the_report_names_what_is_laid_over_the_base() {
    assert_eq!(base_heading(&vec!["h1".to_string()]), "the base with h1 laid over it");
    assert_eq!(
        base_heading(&vec!["a".to_string(), "b".to_string()]),
        "the base with a, b laid over it, in name order"
    );
}

#[test]
fn section_headings_count_their_lines() {
    assert_eq!(section_heading(ReportSection::Arrived, 3), "arrived (3): what the fold would add");
    assert_eq!(section_heading(ReportSection::Moved, 12), "moved / falsified (12): what the union moves or breaks");
    assert_eq!(
        section_heading(ReportSection::Contested, 1),
        "contested (1): an id two hypotheses hold with different claims - the union has no value to lay, so the run stops here"
    );
}

#[test]
fn updates_and_reversals_say_how_they_are_taken() {
    let (a, b) = update_lines("p.a", "1", "2", "h1", "a later reading", false);
    assert_eq!(a, "  p.a: 1 -> 2, from h1");
    assert_eq!(b, "    a later reading - the base keeps what it holds");
    assert_eq!(update_lines("p.a", "1", "2", "h1", "ok", true).1, "    ok");
    assert_eq!(reversal_line("d.x", "yes", "no", false, "h1"), "  d.x: yes -> no, from h1");
    assert_eq!(reversal_line("d.x", "yes", "yes", true, "h1"), "  d.x: the same verdict on other grounds, from h1");
    assert_eq!(reversal_note("taken by name", true, false, "h1", "d.x"), "    taken by name - taken by name");
    assert_eq!(reversal_note("its wrong_if holds", true, false, "h1", "d.x"), "    by its own condition - its wrong_if holds");
    assert_eq!(reversal_note("no", false, true, "h1", "d.x"), "    no");
    assert_eq!(
        reversal_note("waiting", false, false, "h1", "d.x"),
        "    waiting - take it by name: consolidate h1 --take d.x"
    );
    assert_eq!(
        drop_note("p.b"),
        "    no longer rests on p.b - name the reason at the fold: --drop 'p.b: <why>'"
    );
}
