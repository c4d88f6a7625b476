use ads_search::epring::EPRing;
use ads_search::migration::{
    normalize_addr, ordered_unique_keywords, plan_replay, record_persistence_mode,
    replay_label_of, root_summary_for_values, select_representative, update_representative, MigrationBook,
};
use ads_search::routing::{PrefixSplitPlan, RouteTarget, Router};
use ads_search::stats::PendingOperation;

fn target(prefix: &str, node: &str, addr: &str) -> RouteTarget {
    RouteTarget {
        prefix: prefix.to_string(),
        node_name: node.to_string(),
        addr: addr.to_string(),
    }
}

/// A plan that splits the first digit of `keyword`'s digest into its two
/// first digits, so that the keyword falls under the second child.
fn plan_for(keyword: &str) -> (PrefixSplitPlan, String) {
    let hex = EPRing::keyword_to_hex(keyword);
    let parent = hex[..1].to_string();
    let child = hex[..2].to_string();
    let other = if &hex[1..2] == "0" { format!("{parent}1") } else { format!("{parent}0") };
    let plan = PrefixSplitPlan {
        parent_prefix: parent.clone(),
        source: target(&parent, "storager-0", "http://a"),
        children: vec![target(&other, "storager-1", "http://b"), target(&child, "storager-2", "http://c")],
    };
    (plan, child)
}

#[test]
fn migration_buffers_and_hands_back_writes() {
    let mut book = MigrationBook::new();
    let (plan, _) = plan_for("alpha");
    assert!(book.schedule(&plan));
    assert!(!book.schedule(&plan));
    assert_eq!(book.active_for_keyword("alpha"), Some(0));

    let add = PendingOperation::Add { keyword: "alpha".to_string(), fid: "f1".to_string() };
    assert_eq!(book.buffer(add.clone()), Ok(()));
    let ops = book.take_pending(&plan.parent_prefix).unwrap();
    assert_eq!(ops, vec![add]);
    assert_eq!(book.take_pending(&plan.parent_prefix).unwrap(), vec![]);
    assert_eq!(book.take_pending("zz"), Err("prefix migration not found: zz".to_string()));
}

#[test]
fn migration_refuses_writes_it_does_not_cover() {
    let mut book = MigrationBook::new();
    let op = PendingOperation::Delete { keyword: "beta".to_string(), fid: "f".to_string() };
    assert_eq!(book.buffer(op), Err("no active migration found for keyword".to_string()));
}

#[test]
fn confirmed_migration_stops_covering_and_can_restart() {
    let mut book = MigrationBook::new();
    let (plan, _) = plan_for("gamma");
    assert!(book.schedule(&plan));
    book.confirm(&plan.parent_prefix);
    assert_eq!(book.active_for_keyword("gamma"), None);
    assert!(book.schedule(&plan));
    assert_eq!(book.active_for_keyword("gamma"), Some(0));
    book.clear();
    assert_eq!(book.active_for_keyword("gamma"), None);
}

#[test]
fn query_during_migration_goes_to_source_node() {
    let router = Router::new(vec!["http://x".to_string(), "http://y".to_string()], 100);
    let mut book = MigrationBook::new();
    assert_eq!(book.query_route(&router, "delta"), router.route_keyword("delta"));
    let (plan, child) = plan_for("delta");
    book.schedule(&plan);
    let routed = book.query_route(&router, "delta").unwrap();
    assert_eq!(routed.prefix, child);
    assert_eq!(routed.node_name, "storager-0");
    assert_eq!(routed.addr, "http://a");
}

#[test]
fn unique_keywords_come_sorted() {
    let ks = vec!["b".to_string(), "a".to_string(), "b".to_string(), "c".to_string()];
    assert_eq!(ordered_unique_keywords(&ks), vec!["a", "b", "c"]);
}

#[test]
fn summary_prefers_accumulator() {
    assert_eq!(root_summary_for_values(&[1, 2], &[9]), vec![9]);
    assert_eq!(root_summary_for_values(&[1, 2], &[]), vec![1, 2]);
}

#[test]
fn addresses_get_http_scheme() {
    assert_eq!(normalize_addr("127.0.0.1:5"), "http://127.0.0.1:5");
    assert_eq!(normalize_addr("http://h"), "http://h");
    assert_eq!(normalize_addr("https://h"), "https://h");
}

#[test]
fn persistence_modes_merge() {
    let mut mode = "unknown".to_string();
    record_persistence_mode(&mut mode, "  other ");
    assert_eq!(mode, "unknown");
    record_persistence_mode(&mut mode, " PAGE ");
    assert_eq!(mode, "page");
    record_persistence_mode(&mut mode, "page");
    assert_eq!(mode, "page");
    record_persistence_mode(&mut mode, "kvdb");
    assert_eq!(mode, "mixed");
}

#[test]
fn replay_plans_follow_the_operation() {
    let add = PendingOperation::Add { keyword: "k".to_string(), fid: "1".to_string() };
    let del = PendingOperation::Delete { keyword: "k".to_string(), fid: "2".to_string() };
    let upd = PendingOperation::Update {
        keyword: "k".to_string(),
        old_fid: "3".to_string(),
        new_fid: "3".to_string(),
    };
    let bad = PendingOperation::Update {
        keyword: "k".to_string(),
        old_fid: "3".to_string(),
        new_fid: "4".to_string(),
    };
    assert_eq!(plan_replay(&add), Ok(vec![(true, "1".to_string())]));
    assert_eq!(plan_replay(&del), Ok(vec![(false, "2".to_string())]));
    assert_eq!(
        plan_replay(&upd),
        Ok(vec![(false, "3".to_string()), (true, "3".to_string())])
    );
    assert_eq!(
        plan_replay(&bad),
        Err("replay for update with differing fid values is unsupported: k".to_string())
    );
    assert_eq!(replay_label_of(&add), "add:k");
    assert_eq!(replay_label_of(&del), "delete:k");
    assert_eq!(replay_label_of(&upd), "update:k");
}

#[test]
fn representative_reply_is_the_last_with_a_root_hash() {
    let proofs = vec![vec![1u8], vec![2u8], vec![3u8]];
    let hashes = vec![vec![10u8], vec![20u8], vec![]];
    let accs = vec![vec![100u8], vec![200u8]];
    assert_eq!(select_representative(&proofs, &hashes, &accs), (vec![2], vec![20], vec![200]));
    let empty_hashes = vec![vec![], vec![]];
    assert_eq!(select_representative(&proofs, &empty_hashes, &accs), (vec![1], vec![], vec![100]));
    assert_eq!(select_representative(&vec![], &vec![], &vec![]), (vec![], vec![], vec![]));
    let late = vec![vec![], vec![], vec![30u8]];
    assert_eq!(select_representative(&proofs, &late, &accs), (vec![3], vec![30], vec![]));
    assert_eq!(update_representative(&proofs, &hashes, &accs, true), (vec![], vec![20], vec![200]));
    assert_eq!(update_representative(&proofs, &hashes, &accs, false), (vec![2], vec![20], vec![200]));
}
