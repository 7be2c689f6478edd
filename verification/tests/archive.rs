use ordinary::archive::{body_identity, bounded_expansion, empty, next_identity, rebase, retained, Identity};
use ordinary::value::Value;

fn text(s: &str) -> Value {
    Value::Text(s.to_string())
}

#[test]
fn alias_growth_is_bounded_before_cloning_retained_versions() {
    let source = Value::List((0..20).map(|_| Value::List(vec![])).collect());
    let identity = Identity {
        id: None,
        children: (0..20)
            .map(|_| Identity {
                id: Some(7),
                children: vec![],
            })
            .collect(),
    };
    let changed = Value::List(vec![text(&"x".repeat(1024 * 1024))]);
    assert_eq!(
        bounded_expansion(&source, &identity, 7, &changed)
            .unwrap_err()
            .0,
        "history_limit"
    );
    let source = Value::List((0..1000).map(|_| Value::List(vec![])).collect());
    let identity = Identity {
        id: None,
        children: (0..1000)
            .map(|_| Identity {
                id: Some(7),
                children: vec![],
            })
            .collect(),
    };
    let changed = Value::List((0..1000).map(|_| Value::Null).collect());
    assert_eq!(
        bounded_expansion(&source, &identity, 7, &changed)
            .unwrap_err()
            .0,
        "history_limit"
    );
}

#[test]
fn a_small_alias_expansion_stays_within_the_limits() {
    let source = Value::List((0..3).map(|_| Value::List(vec![])).collect());
    let identity = Identity {
        id: None,
        children: (0..3)
            .map(|_| Identity {
                id: Some(7),
                children: vec![],
            })
            .collect(),
    };
    let changed = Value::List(vec![text("x")]);
    assert!(bounded_expansion(&source, &identity, 7, &changed).is_ok());
}

#[test]
fn rebase_doubles_anchors_and_next_identity_follows_the_largest() {
    let identity = Identity {
        id: Some(3),
        children: vec![Identity {
            id: Some(5),
            children: vec![],
        }],
    };
    let moved = rebase(&identity, 1).unwrap();
    assert_eq!(moved.id, Some(7));
    assert_eq!(moved.children[0].id, Some(11));
    assert_eq!(next_identity(&moved), 12);
    let huge = Identity {
        id: Some(usize::MAX / 2 + 1),
        children: vec![],
    };
    assert_eq!(rebase(&huge, 0).unwrap_err().0, "history_limit");
}

#[test]
fn retained_keeps_identities_of_entries_left_in_place() {
    let before = Value::Mapping(vec![
        ("a".to_string(), text("x")),
        ("b".to_string(), text("y")),
    ]);
    let identity = Identity {
        id: None,
        children: vec![
            Identity { id: None, children: vec![] },
            Identity { id: Some(1), children: vec![] },
            Identity { id: None, children: vec![] },
            Identity { id: Some(2), children: vec![] },
        ],
    };
    let after = Value::Mapping(vec![
        ("b".to_string(), text("y")),
        ("c".to_string(), text("z")),
    ]);
    let kept = retained(&before, &identity, &after);
    assert_eq!(kept.children.len(), 4);
    assert_eq!(kept.children[1].id, Some(2));
    assert_eq!(kept.children[3].id, None);
    let fresh = empty(&after);
    assert_eq!(fresh.children.len(), 4);
}

#[test]
fn rebased_anchors_take_the_parity_of_the_origin() {
    let identity = Identity {
        id: Some(4),
        children: vec![Identity { id: Some(9), children: vec![] }, Identity { id: None, children: vec![] }],
    };
    let even = rebase(&identity, 0).unwrap();
    assert_eq!((even.id, even.children[0].id, even.children[1].id), (Some(8), Some(18), None));
    let odd = rebase(&identity, 1).unwrap();
    assert_eq!((odd.id, odd.children[0].id), (Some(9), Some(19)));
}

#[test]
fn a_body_is_found_in_the_first_collection_that_holds_it() {
    let value = Value::Mapping(vec![
        ("known".to_string(), Value::Mapping(vec![("p.a".to_string(), text("1")), ("p.b".to_string(), text("2"))])),
        ("open".to_string(), Value::Mapping(vec![("q.x".to_string(), text("3"))])),
    ]);
    let leaf = |id: Option<usize>| Identity { id, children: vec![] };
    let identity = Identity { id: None, children: vec![leaf(None), leaf(Some(10)), leaf(None), leaf(Some(20))] };
    let (found, index) = body_identity(&value, &identity, "p.b").unwrap();
    assert_eq!((found.id, index), (Some(10), 1));
    let (found, index) = body_identity(&value, &identity, "q.x").unwrap();
    assert_eq!((found.id, index), (Some(20), 0));
    assert!(body_identity(&value, &identity, "zz").is_none());
}

#[test]
fn a_retained_identity_serves_the_next_edit() {
    let before = Value::Mapping(vec![("a".to_string(), Value::List(vec![text("x"), text("y")]))]);
    let identity = Identity {
        id: None,
        children: vec![
            Identity { id: None, children: vec![] },
            Identity { id: Some(1), children: vec![Identity { id: Some(2), children: vec![] }, Identity { id: None, children: vec![] }] },
        ],
    };
    let middle = Value::Mapping(vec![
        ("a".to_string(), Value::List(vec![text("x"), text("z"), text("w")])),
        ("b".to_string(), text("new")),
    ]);
    let kept = retained(&before, &identity, &middle);
    assert_eq!(kept.children.len(), 4);
    assert_eq!(kept.children[1].children.len(), 3);
    assert_eq!(kept.children[1].children[0].id, Some(2));
    let after = Value::Mapping(vec![("a".to_string(), Value::List(vec![text("x")]))]);
    let again = retained(&middle, &kept, &after);
    assert_eq!(again.children.len(), 2);
    assert_eq!(again.children[1].id, Some(1));
    assert_eq!(again.children[1].children[0].id, Some(2));
}

#[test]
fn body_identity_reads_only_the_group_that_holds_the_entry() {
    let value = Value::Mapping(vec![
        ("a".to_string(), Value::Mapping(vec![("p.a".to_string(), text("1"))])),
        ("b".to_string(), Value::Mapping(vec![("q.x".to_string(), text("2"))])),
    ]);
    let identity = Identity {
        id: None,
        children: vec![Identity { id: None, children: vec![] }, Identity { id: Some(3), children: vec![] }],
    };
    let (found, index) = body_identity(&value, &identity, "p.a").unwrap();
    assert_eq!((found.id, index), (Some(3), 0));
}
