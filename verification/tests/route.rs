use ordinary::route::{event_id, route_options, RouteOptions, Routed};
use ordinary::value::Error;
use ordinary::value::Value;

fn text(s: &str) -> Value {
    Value::Text(s.to_string())
}

fn mapping(pairs: Vec<(&str, Value)>) -> Value {
    Value::Mapping(pairs.into_iter().map(|(k, v)| (k.to_string(), v)).collect())
}

fn options() -> RouteOptions {
    RouteOptions {
        shareability: None,
        scope: None,
        environment: None,
        commit: None,
        event_id: None,
        contribution_id: None,
        evidence_root: None,
        disclose_locators: vec![],
    }
}

fn action() -> Value {
    mapping(vec![("body", mapping(vec![("v", text("1"))])), ("id", text("p.a"))])
}

#[test]
fn an_action_without_options_stays_local() {
    match route_options("add", &options(), action(), None, None).unwrap() {
        Routed::Local(a) => assert_eq!(a, action()),
        _ => panic!("expected a local write"),
    }
}

#[test]
fn unknown_permissions_and_scopes_are_refused() {
    let mut o = options();
    o.shareability = Some("public".to_string());
    assert_eq!(route_options("add", &o, action(), None, None).err().unwrap().0, "shareability must be project, private or unclear");
    let mut o = options();
    o.scope = Some("team".to_string());
    assert_eq!(
        route_options("add", &o, action(), None, None).err().unwrap().0,
        "scope must be project, external, code, feature or unclear"
    );
}

#[test]
fn a_project_contribution_carries_its_scope() {
    let mut o = options();
    o.shareability = Some("project".to_string());
    o.scope = Some("code".to_string());
    o.commit = Some("abc".to_string());
    let scope = mapping(vec![("commit", text("abc")), ("environment", text("")), ("kind", text("code"))]);
    match route_options("add", &o, action(), None, None).unwrap() {
        Routed::Scoped { action, scope: s } => {
            assert_eq!(s, scope);
            let scope2 = mapping(vec![("commit", text("abc")), ("environment", text("")), ("kind", text("code"))]);
            let scope3 = mapping(vec![("commit", text("abc")), ("environment", text("")), ("kind", text("code"))]);
            assert_eq!(
                action,
                mapping(vec![
                    ("_record_scope", scope2),
                    ("body", mapping(vec![("scope", scope3), ("v", text("1"))])),
                    ("id", text("p.a")),
                    ("shareability", text("project")),
                ])
            );
        },
        _ => panic!("expected a scoped contribution"),
    }
}

#[test]
fn a_scoped_add_needs_a_body_that_agrees() {
    let mut o = options();
    o.shareability = Some("project".to_string());
    o.scope = Some("project".to_string());
    let bare = mapping(vec![("id", text("p.a"))]);
    assert_eq!(route_options("add", &o, bare, None, None).err().unwrap().0, "scoped writes need a complete entry body");
    let other = mapping(vec![("body", mapping(vec![("scope", text("elsewhere"))]))]);
    assert_eq!(route_options("add", &o, other, None, None).err().unwrap().0, "entry body scope differs from the requested scope");
    let set = mapping(vec![("id", text("p.a"))]);
    match route_options("set", &o, set, None, None).unwrap() {
        Routed::Scoped { action, .. } => match action {
            Value::Mapping(es) => assert_eq!(es.iter().map(|e| e.0.as_str()).collect::<Vec<_>>(), vec!["_record_scope", "id", "shareability"]),
            _ => panic!("expected a mapping"),
        },
        _ => panic!("expected a scoped contribution"),
    }
}

#[test]
fn a_private_share_carries_only_its_permission() {
    let mut o = options();
    o.shareability = Some("private".to_string());
    o.scope = Some("feature".to_string());
    match route_options("add", &o, action(), None, None).unwrap() {
        Routed::Scoped { action, .. } => match action {
            Value::Mapping(es) => assert_eq!(es.iter().map(|e| e.0.as_str()).collect::<Vec<_>>(), vec!["body", "id", "shareability"]),
            _ => panic!("expected a mapping"),
        },
        _ => panic!("expected a scoped contribution"),
    }
}

#[test]
fn an_event_id_is_given_or_fresh() {
    assert_eq!(event_id(&Some("e1".to_string())), "e1");
    let fresh = event_id(&None);
    assert_eq!(fresh.len(), 32);
    assert!(fresh.chars().all(|c| c.is_ascii_digit() || ('a'..='f').contains(&c)));
    assert_eq!(fresh.chars().nth(12), Some('4'));
    assert_ne!(event_id(&None), fresh);
}

#[test]
fn ids_ride_with_the_contribution_once_they_read_as_tokens() {
    let mut o = options();
    o.shareability = Some("private".to_string());
    o.event_id = Some("e1".to_string());
    o.contribution_id = Some("c1".to_string());
    match route_options("set", &o, mapping(vec![("id", text("p.a"))]), None, None).unwrap() {
        Routed::Scoped { action, .. } => match action {
            Value::Mapping(es) => assert_eq!(
                es.iter().map(|e| e.0.as_str()).collect::<Vec<_>>(),
                vec!["contribution_id", "event_id", "id", "shareability"]
            ),
            _ => panic!("expected a mapping"),
        },
        _ => panic!("expected a scoped contribution"),
    }
    let refused = route_options("set", &o, mapping(vec![("id", text("p.a"))]), Some(Error("invalid_token".to_string())), None);
    assert_eq!(refused.err().unwrap().0, "invalid_token");
}

#[test]
fn a_body_scope_written_in_another_order_is_the_same_scope() {
    let mut o = options();
    o.shareability = Some("project".to_string());
    o.scope = Some("project".to_string());
    let body_scope = mapping(vec![("kind", text("project")), ("environment", text(""))]);
    let action = mapping(vec![("body", mapping(vec![("scope", body_scope)]))]);
    assert!(route_options("add", &o, action, None, None).is_ok());
}
