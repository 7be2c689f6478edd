use ordinary::loading::{admit_file, history_mode, missing_member, LoadAction, LoadEvent, LoadWalk};
use ordinary::value::Value;

fn text(s: &str) -> Value {
    Value::Text(s.to_string())
}

fn mapping(pairs: Vec<(&str, Value)>) -> Value {
    Value::Mapping(pairs.into_iter().map(|(k, v)| (k.to_string(), v)).collect())
}

#[test]
fn a_history_entry_is_loaded_alone() {
    assert_eq!(history_mode(&vec![]).unwrap_err().0, "invalid_snapshot");
    assert_eq!(history_mode(&vec![false, false]).unwrap(), false);
    assert_eq!(history_mode(&vec![true]).unwrap(), true);
    assert_eq!(history_mode(&vec![false, true]).unwrap_err().0, "history_composite_capture_unsupported");
}

#[test]
fn a_missing_member_empties_meta_only_where_allowed() {
    let mut source = vec![("meta".to_string(), mapping(vec![("title", text("x"))]))];
    assert_eq!(missing_member(&mut source, false).unwrap_err().0, "missing_record");
    assert_eq!(source.len(), 1);
    assert!(missing_member(&mut source, true).is_ok());
    assert_eq!(source, vec![("meta".to_string(), Value::Mapping(vec![]))]);
    let mut fresh = vec![];
    assert!(missing_member(&mut fresh, true).is_ok());
    assert_eq!(fresh, vec![("meta".to_string(), Value::Mapping(vec![]))]);
}

#[test]
fn the_ordinary_reader_takes_only_plain_files() {
    let plain = mapping(vec![("known", mapping(vec![("p.a", mapping(vec![("v", text("1"))]))]))]);
    assert!(admit_file(&plain, None).is_ok());
    assert_eq!(admit_file(&text("x"), None).unwrap_err().0, "expected_mapping");
    let declared = mapping(vec![("meta", mapping(vec![("history", text("h"))]))]);
    assert_eq!(admit_file(&declared, None).unwrap_err().0, "missing_history_authority");
    let history = mapping(vec![("authority", text("history"))]);
    assert_eq!(admit_file(&plain, Some(&history)).unwrap_err().0, "history_reader_unsupported");
    let other = mapping(vec![("authority", text("ordinary"))]);
    assert_eq!(admit_file(&declared, Some(&other)).unwrap_err().0, "authority_mismatch");
    assert!(admit_file(&plain, Some(&other)).is_ok());
}

fn next(walk: &mut LoadWalk) -> Option<String> {
    match walk.step(LoadEvent::Next) {
        LoadAction::Read(p) => Some(p),
        LoadAction::Done => None,
        _ => panic!("unexpected action"),
    }
}

fn read(walk: &mut LoadWalk, path: &str, pointers: &[&str]) -> LoadAction {
    walk.step(LoadEvent::Read { path: path.to_string(), pointers: pointers.iter().map(|s| s.to_string()).collect() })
}

#[test]
fn the_load_walks_each_entry_depth_first() {
    let mut walk = LoadWalk::start(vec!["/r/a.yaml".to_string(), "/r/b.yaml".to_string()], false);
    assert_eq!(next(&mut walk).unwrap(), "/r/a.yaml");
    assert!(matches!(read(&mut walk, "/r/a.yaml", &["/r/x.yaml", "/r/y.yaml", "/r/a.yaml"]), LoadAction::Merge));
    assert_eq!(next(&mut walk).unwrap(), "/r/x.yaml");
    assert!(matches!(read(&mut walk, "/r/x.yaml", &["/r/y.yaml"]), LoadAction::Merge));
    assert_eq!(next(&mut walk).unwrap(), "/r/y.yaml");
    assert!(matches!(read(&mut walk, "/r/y.yaml", &[]), LoadAction::Merge));
    assert_eq!(next(&mut walk).unwrap(), "/r/b.yaml");
    match walk.step(LoadEvent::Missing) {
        LoadAction::Fail(e) => assert_eq!(e.0, "missing_record"),
        _ => panic!("a missing file is refused"),
    }
    assert_eq!(next(&mut walk), None);
}

#[test]
fn a_missing_member_may_be_allowed() {
    let mut walk = LoadWalk::start(vec!["/r/a.yaml".to_string()], true);
    assert_eq!(next(&mut walk).unwrap(), "/r/a.yaml");
    assert!(matches!(walk.step(LoadEvent::Missing), LoadAction::EmptyMeta));
}
