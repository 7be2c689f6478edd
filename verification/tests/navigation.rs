use ordinary::navigation::{buckets, leaf_routes, route_step, topic_routes};
use ordinary::value::Value;

fn text(s: &str) -> Value {
    Value::Text(s.to_string())
}

#[test]
fn a_topic_path_gives_one_route_per_part() {
    let routes = topic_routes(&Value::List(vec![text("core"), text("first steps")])).unwrap();
    assert_eq!(routes, vec!["/".to_string(), "/core".to_string(), "/core/first%20steps".to_string()]);
    assert_eq!(topic_routes(&Value::List(vec![])).unwrap(), vec!["/".to_string()]);
}

#[test]
fn route_steps_keep_only_unreserved_bytes() {
    assert_eq!(route_step("a-b._~Z9").iter().collect::<String>(), "a-b._~Z9");
    assert_eq!(route_step("a/b").iter().collect::<String>(), "a%2Fb");
    assert_eq!(route_step("é").iter().collect::<String>(), "%C3%A9");
}

#[test]
fn a_topic_path_is_a_list_of_non_empty_texts() {
    assert_eq!(topic_routes(&text("core")).unwrap_err().0, "invalid topic path");
    assert_eq!(topic_routes(&Value::List(vec![text("core"), text("")])).unwrap_err().0, "invalid topic path");
    assert_eq!(topic_routes(&Value::List(vec![Value::Null])).unwrap_err().0, "invalid topic path");
}

#[test]
fn more_than_sixty_four_successors_are_bucketed() {
    let few: Vec<String> = (0..64).map(|i| format!("n{i}")).collect();
    assert!(buckets("/core", &few).is_empty());
    let many: Vec<String> = (0..70).map(|i| format!("n{i}")).collect();
    let bs = buckets("/core/", &many);
    assert_eq!(bs.len(), 5);
    assert_eq!(bs[0].0, "/core/@ids1");
    assert_eq!(bs[4].0, "/core/@ids5");
    assert_eq!(bs[0].1.len(), 16);
    assert_eq!(bs[4].1, many[64..].to_vec());
    let lots: Vec<String> = (0..400).map(|i| format!("n{i}")).collect();
    let bs = buckets("/", &lots);
    assert_eq!(bs.len(), 16);
    assert_eq!(bs[0].1.len(), 25);
    assert_eq!(bs[0].0, "/@ids1");
}

#[test]
fn each_node_has_a_leaf_route() {
    let topics = vec![
        ("p.a".to_string(), Value::List(vec![text("catalog"), text("p")])),
        ("q".to_string(), Value::List(vec![])),
    ];
    assert_eq!(
        leaf_routes(&topics).unwrap(),
        vec![("p.a".to_string(), "/catalog/p".to_string()), ("q".to_string(), "/".to_string())]
    );
    let bad = vec![("p.a".to_string(), Value::List(vec![text("")]))];
    assert_eq!(leaf_routes(&bad).unwrap_err().0, "invalid topic path");
}
