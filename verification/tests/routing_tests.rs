use ads_search::routing::{parse_route_mode, RouteMode, Router};

fn addrs2() -> Vec<String> {
    vec![
        "http://[::1]:50052".to_string(),
        "http://[::1]:50053".to_string(),
    ]
}

#[test]
fn test_router_creation() {
    let router = Router::new(addrs2(), 150);
    assert_eq!(router.storager_count(), 2);
}

#[test]
fn test_keyword_routing() {
    let router = Router::new(addrs2(), 150);

    let result1 = router.get_storager_for_keyword("test");
    let result2 = router.get_storager_for_keyword("test");

    assert_eq!(result1, result2);
}

#[test]
fn test_insert_records_override() {
    let mut router = Router::new(addrs2(), 1);

    let initial = router.route_keyword("alpha").expect("initial route");
    router.record_insert("alpha", &initial.prefix, &initial.node_name, vec![1, 2, 3]);

    let routed = router.route_keyword("alpha").expect("stored route");
    assert_eq!(routed.prefix, initial.prefix);
    assert_eq!(routed.node_name, initial.node_name);
}

#[test]
fn test_chring_routing_backend() {
    let mut router = Router::new_with_mode(addrs2(), 150, RouteMode::Chring);

    assert_eq!(router.route_mode(), RouteMode::Chring);

    let route1 = router.route_keyword("test").expect("route 1");
    let route2 = router.route_keyword("test").expect("route 2");
    assert_eq!(route1, route2);
    assert!(route1.prefix.is_empty());
    assert!(route1.node_name.starts_with("storager-"));
    assert_eq!(
        router.record_insert("test", "", &route1.node_name, vec![1]),
        None
    );
}

#[test]
fn recorded_route_wins_over_the_ring() {
    let mut router = Router::new(addrs2(), 100);
    router.record_insert("kw", "ff", "storager-1", vec![]);
    let route = router.route_keyword("kw").unwrap();
    assert_eq!(route.prefix, "ff");
    assert_eq!(route.node_name, "storager-1");
    assert_eq!(route.addr, "http://[::1]:50053");
    router.record_delete("kw", "ff", vec![]);
    let route = router.route_keyword("kw").unwrap();
    let hex = ads_search::epring::EPRing::keyword_to_hex("kw");
    assert!(hex.starts_with(&route.prefix));
}

#[test]
fn unknown_node_gets_empty_address() {
    let mut router = Router::new(addrs2(), 100);
    router.record_insert("kw", "0", "elsewhere", vec![]);
    let route = router.route_keyword("kw").unwrap();
    assert_eq!(route.node_name, "elsewhere");
    assert_eq!(route.addr, "");
}

#[test]
fn split_returns_plan() {
    let mut router = Router::new(addrs2(), 0);
    let route = router.route_keyword("alpha").unwrap();
    let plan = router
        .record_insert("alpha", &route.prefix, &route.node_name, vec![1])
        .expect("plan");
    assert_eq!(plan.parent_prefix, route.prefix);
    assert_eq!(plan.source.node_name, route.node_name);
    assert_eq!(plan.children.len(), 16);
    for (d, child) in plan.children.iter().enumerate() {
        assert!(child.prefix.starts_with(&route.prefix));
        assert_eq!(child.prefix.len(), route.prefix.len() + 1);
        assert!(child.node_name.starts_with("storager-"));
        let _ = d;
    }
}

#[test]
fn add_and_remove_storagers() {
    let mut router = Router::new(addrs2(), 10);
    router.add_storager("http://c".to_string(), 10);
    assert_eq!(router.storager_count(), 3);
    let mut all = router.get_all_storagers();
    all.sort();
    assert_eq!(all[2], ("storager-2".to_string(), "http://c".to_string()));
    router.remove_storager("storager-0", 10);
    assert_eq!(router.storager_count(), 2);
    let route = router.route_keyword("x").unwrap();
    assert_ne!(route.node_name, "storager-0");
}

#[test]
fn clear_overrides_for_matching_prefix() {
    let mut router = Router::new(addrs2(), 100);
    let hex = ads_search::epring::EPRing::keyword_to_hex("kw");
    router.record_insert("kw", "zz", "storager-0", vec![]);
    router.clear_keyword_overrides_for_prefix(&hex[..2]);
    let route = router.route_keyword("kw").unwrap();
    assert_ne!(route.prefix, "zz");
}

#[test]
fn presplit_handles_shorter_prefixes_first() {
    let mut router = Router::new(addrs2(), 2);
    let counts = vec![("30".to_string(), 5usize), ("3".to_string(), 5usize)];
    let plans = router.presplit_empty_prefixes(&counts);
    assert_eq!(plans.len(), 2);
    assert_eq!(plans[0].parent_prefix, "3");
    assert_eq!(plans[1].parent_prefix, "30");
}

#[test]
fn chring_structure_lines_sorted() {
    let router = Router::new_with_mode(addrs2(), 10, RouteMode::Chring);
    let lines = router.routing_structure_lines();
    assert_eq!(lines[0], "mode=chring, nodes=2, virtual_nodes=300, per_node=150");
    assert_eq!(lines[1], "[storager-0] virtual_nodes=150");
    assert_eq!(lines[2], "[storager-1] virtual_nodes=150");
}

#[test]
fn route_mode_names() {
    assert_eq!(RouteMode::Epring.as_str(), "epring");
    assert_eq!(parse_route_mode("CHRING"), Ok(RouteMode::Chring));
    assert_eq!(
        parse_route_mode("ring"),
        Err("invalid route mode: ring. expected epring|chring".to_string())
    );
    assert_eq!("Epring".parse::<RouteMode>(), Ok(RouteMode::Epring));
}

#[test]
fn reset_forgets_recorded_routes() {
    let mut router = Router::new(addrs2(), 100);
    router.record_insert("kw", "zz", "storager-0", vec![]);
    router.reset(100);
    let route = router.route_keyword("kw").unwrap();
    assert_ne!(route.prefix, "zz");
}

#[test]
fn new_router_counts_its_storagers() {
    let router = Router::new_with_mode(addrs2(), 10, RouteMode::Chring);
    assert_eq!(router.storager_count(), 2);
    let mut all = router.get_all_storagers();
    all.sort();
    assert_eq!(
        all,
        vec![
            ("storager-0".to_string(), "http://[::1]:50052".to_string()),
            ("storager-1".to_string(), "http://[::1]:50053".to_string()),
        ]
    );
}

#[test]
fn route_key_hex_on_short_keys() {
    let addrs = vec!["a".to_string(), "b".to_string(), "c".to_string()];
    let router = Router::new(addrs.clone(), 10);
    assert!(router.route_key_hex_defined("3abc"));
    let t = router.route_key_hex("3abc").expect("route");
    assert_eq!(t.prefix, "3");
    assert_eq!(t.node_name, "storager-0");
    assert_eq!(t.addr, "a");
    assert!(router.route_key_hex_defined(""));
    assert_eq!(router.route_key_hex(""), None);
    let chring = Router::new_with_mode(addrs, 10, RouteMode::Chring);
    assert_eq!(chring.route_key_hex("3abc"), None);
}

#[test]
fn reset_router_routes_like_a_fresh_one() {
    let mut router = Router::new(addrs2(), 1);
    let fresh = Router::new(addrs2(), 1);
    for i in 0..20 {
        let k = format!("kw{}", i);
        if let Some(t) = router.route_keyword(&k) {
            router.record_insert(&k, &t.prefix, &t.node_name, Vec::new());
        }
    }
    router.reset(1);
    for i in 0..20 {
        let k = format!("kw{}", i);
        assert_eq!(router.route_keyword(&k), fresh.route_keyword(&k));
    }
}
