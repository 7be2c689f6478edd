use ordinary::layout::{
    section_span,
    block_end, collections, common_prefix, ensure, field_span, file_for, insert_block, is_blank, locate,
    members, place, replace_field, shifted,
};

fn lines(text: &str) -> Vec<String> {
    text.split('\n').map(str::to_owned).collect()
}

const RECORD: &str = "meta:\n  title: t\n\nknown:\n  p.a: {v: 1}\n  p.c:\n    v: 3\n\n    of: x\n  # note\ndecisions:\n  d.x:\n    rests_on: [p.a]\n";

#[test]
fn collections_are_top_level_headers() {
    let ls = lines(RECORD);
    let cs = collections(&ls);
    let names: Vec<(&str, usize, usize)> = cs.iter().map(|(n, s, e)| (n.as_str(), *s, *e)).collect();
    assert_eq!(names, vec![("meta", 0, 3), ("known", 3, 10), ("decisions", 10, 14)]);
    assert!(collections(&lines("not a header\nx :\n1a:\nkey:value")).is_empty());
    assert_eq!(collections(&lines("key: value\nother:")).len(), 2);
}

#[test]
fn members_share_the_first_indentation() {
    let ls = lines(RECORD);
    let (ind, ms) = members(&ls, 3, 10);
    assert_eq!(ind, Some(2));
    let got: Vec<(&str, usize)> = ms.iter().map(|(n, i)| (n.as_str(), *i)).collect();
    assert_eq!(got, vec![("p.a", 4), ("p.c", 5)]);
    let (ind, ms) = members(&lines("x:\n\n# c\n"), 0, 4);
    assert_eq!(ind, None);
    assert!(ms.is_empty());
}

#[test]
fn a_block_runs_over_deeper_lines_and_inner_gaps() {
    let ls = lines(RECORD);
    assert_eq!(block_end(&ls, 5, 2, 10), 9);
    assert_eq!(block_end(&ls, 4, 2, 10), 5);
    assert_eq!(block_end(&lines("a:\n  b:\n\n\n"), 1, 2, 4), 2);
}

#[test]
fn locate_finds_the_first_holder() {
    let ls = lines(RECORD);
    let (col, ind, i, e) = locate(&ls, "p.c").unwrap();
    assert_eq!((col.as_str(), ind, i, e), ("known", 2, 5, 9));
    assert_eq!(locate(&ls, "d.x").unwrap().2, 11);
    assert!(locate(&ls, "p.z").is_none());
}

#[test]
fn blank_lines_include_comments() {
    assert!(is_blank(&"   ".chars().collect::<Vec<_>>()));
    assert!(is_blank(&"  # x".chars().collect::<Vec<_>>()));
    assert!(!is_blank(&"  a # x".chars().collect::<Vec<_>>()));
}

#[test]
fn common_counts_shared_dotted_parts() {
    assert_eq!(common_prefix("p.a.b", "p.a.c"), 2);
    assert_eq!(common_prefix("p.a", "q.a"), 0);
    assert_eq!(common_prefix("p", "p"), 1);
}

#[test]
fn place_goes_before_the_next_relative_or_after_the_last() {
    let ms = vec![("p.a".to_string(), 4), ("p.c".to_string(), 5), ("q.a".to_string(), 9)];
    assert_eq!(place(&ms, "p.b"), (1, true));
    assert_eq!(place(&ms, "p.d"), (1, false));
    assert_eq!(place(&ms, "r.a"), (2, false));
    assert_eq!(place(&ms, "a"), (0, true));
}

#[test]
fn ensure_adds_a_missing_collection_once() {
    let mut ls = lines("meta:\n  t: 1\n\n\n");
    ensure(&mut ls, "known");
    assert_eq!(ls, lines("meta:\n  t: 1\n\nknown:\n"));
    let before = ls.clone();
    ensure(&mut ls, "known");
    assert_eq!(ls, before);
    let mut empty: Vec<String> = vec![];
    ensure(&mut empty, "known");
    assert_eq!(empty, lines("known:\n"));
}

#[test]
fn shifted_keeps_relative_depth() {
    let block = lines("    p.b:\n      v: 2\n\n  w: 1");
    assert_eq!(shifted(&block, 2), lines("  p.b:\n    v: 2\n\nw: 1"));
}

#[test]
fn insert_block_places_a_member_among_its_relatives() {
    let mut ls = lines(RECORD);
    let note = insert_block(&mut ls, "known", "p.b", &lines("p.b: {v: 2}"));
    assert_eq!(note, "p.b into known, before p.c");
    assert_eq!(ls[5], "  p.b: {v: 2}");
    assert_eq!(ls[6], "  p.c:");
    let mut ls = lines(RECORD);
    let note = insert_block(&mut ls, "known", "p.d", &lines("p.d: {v: 4}"));
    assert_eq!(note, "p.d into known, after p.c");
    assert_eq!(ls[9], "  p.d: {v: 4}");
    let mut ls = lines("meta:\n  t: 1");
    let note = insert_block(&mut ls, "known", "p.a", &lines("p.a: {v: 1}"));
    assert_eq!(note, "p.a into known, its first entry");
    assert_eq!(ls, lines("meta:\n  t: 1\n\nknown:\n  p.a: {v: 1}\n"));
}

#[test]
fn fields_are_found_and_replaced_within_an_entry() {
    let ls = lines(RECORD);
    assert_eq!(field_span(&ls, 5, 9, "of"), Some((4, 8, 9)));
    assert_eq!(field_span(&ls, 5, 9, "zz"), None);
    let mut ls = lines(RECORD);
    let next = replace_field(&mut ls, 5, 9, "v", lines("    v: 30\n    w: 1"));
    assert_eq!(next, 10);
    assert_eq!(ls[6], "    v: 30");
    assert_eq!(ls[7], "    w: 1");
    let mut ls = lines(RECORD);
    let next = replace_field(&mut ls, 5, 9, "zz", lines("    zz: 1"));
    assert_eq!(next, 10);
    assert_eq!(ls[9], "    zz: 1");
}

#[test]
fn file_for_prefers_the_holder_then_relatives() {
    let a = lines("known:\n  p.a: {v: 1}\n");
    let b = lines("known:\n  q.a: {v: 1}\n");
    let files = vec![a.clone(), b.clone()];
    assert_eq!(file_for(&files, "q.b", "known"), 1);
    assert_eq!(file_for(&files, "p.a", "known"), 0);
    assert_eq!(file_for(&files, "r.a", "decisions"), 0);
    let c = lines("meta:\n  t: 1\n");
    assert_eq!(file_for(&vec![c.clone(), b.clone()], "q.z", "other"), 1);
    assert_eq!(file_for(&vec![c], "z.z", "other"), 0);
}

#[test]
fn a_section_is_found_by_its_title_when_it_has_a_text() {
    let ls = lines("sections:\n  - title: Budget\n    text: hello\n    seen: {p.a: 1}\n\n  - title: 'Other'\n    pick: [p.b]\n  - title: \"Other\"\n    text: x\ntabs: []");
    assert_eq!(section_span(&ls, "Budget"), Some((1, 4)));
    assert_eq!(section_span(&ls, "Other"), Some((7, 9)));
    assert_eq!(section_span(&ls, "Missing"), None);
}
