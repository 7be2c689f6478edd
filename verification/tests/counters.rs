use ordinary::counters::{recent_unserved, spill, unserved};

fn strings(xs: &[&str]) -> Vec<String> {
    xs.iter().map(|s| s.to_string()).collect()
}

#[test]
fn an_intent_is_unserved_when_something_recorded_for_it_earns_no_tab() {
    let recorded = vec![
        ("s.a".to_string(), strings(&["x"])),
        ("s.b".to_string(), strings(&["y"])),
        ("s.c".to_string(), vec![]),
    ];
    let earned = vec![strings(&["s.a"]), vec![]];
    assert_eq!(unserved(&recorded, &earned), 1);
    assert_eq!(unserved(&recorded, &vec![]), 2);
}

fn row(day: Option<(i32, u32, u32)>, id: &str, unserved: bool) -> (Option<(i32, u32, u32)>, String, bool) {
    (day, id.to_string(), unserved)
}

#[test]
fn the_newest_unserved_intents_are_counted_day_by_day() {
    let rows = vec![
        row(Some((2024, 1, 1)), "s.a", false),
        row(Some((2024, 2, 1)), "s.b", true),
        row(Some((2024, 3, 1)), "s.c", true),
    ];
    assert_eq!(recent_unserved(&rows), 2);
    let rows = vec![
        row(Some((2024, 3, 1)), "s.a", false),
        row(Some((2024, 3, 1)), "s.b", true),
        row(Some((2024, 1, 1)), "s.c", true),
    ];
    assert_eq!(recent_unserved(&rows), 0);
    let rows = vec![row(None, "s.a", true), row(Some((2023, 5, 6)), "s.b", true)];
    assert_eq!(recent_unserved(&rows), 2);
    let rows = vec![row(None, "s.a", false), row(Some((2023, 5, 6)), "s.b", true), row(None, "s.c", true)];
    assert_eq!(recent_unserved(&rows), 1);
    assert_eq!(recent_unserved(&vec![]), 0);
}

#[test]
fn flagged_judgments_no_section_picks_spill() {
    let states = vec![
        ("j.a".to_string(), strings(&["moved"])),
        ("j.b".to_string(), strings(&["broken"])),
        ("j.c".to_string(), vec![]),
    ];
    assert_eq!(spill(&states, &strings(&["j.a"])), 1);
    assert_eq!(spill(&states, &vec![]), 2);
}
