use ads_search::assoc::StrMap;
use ads_search::reply_roots::ReplyRoots;
use ads_search::routing::{PrefixSplitPlan, RouteTarget};
use ads_search::split_migration::{migration_target_addrs, SplitMigration, SplitStep};

fn target(prefix: &str, node: &str, addr: &str) -> RouteTarget {
    RouteTarget { prefix: prefix.to_string(), node_name: node.to_string(), addr: addr.to_string() }
}

fn plan() -> PrefixSplitPlan {
    PrefixSplitPlan {
        parent_prefix: "a".to_string(),
        source: target("a", "storager-1", "http://n1"),
        children: vec![
            target("a0", "storager-1", "http://n1"),
            target("a1", "storager-2", "http://n2"),
            target("a2", "storager-2", "http://n2"),
            target("a3", "storager-3", "http://n3"),
        ],
    }
}

#[test]
fn targets_leave_out_the_source_and_repeats() {
    assert_eq!(migration_target_addrs(&plan()), vec!["http://n2".to_string(), "http://n3".to_string()]);
    let mut all_on_source = plan();
    all_on_source.children = vec![target("a0", "storager-1", "http://n1")];
    assert!(migration_target_addrs(&all_on_source).is_empty());
}

#[test]
fn each_moving_child_is_prepared_imported_and_confirmed_in_turn() {
    let mut m = SplitMigration::new(plan(), vec![1], vec![]);
    assert_eq!(m.step(), SplitStep::Prepare { child: 1 });
    m.on_prepared(10, vec![2], vec![]);
    assert_eq!(m.step(), SplitStep::Import { child: 1 });
    assert_eq!(m.payload_bytes(), 10);
    m.on_imported(vec![3], vec![30]);
    assert_eq!(m.step(), SplitStep::Confirm { child: 1 });
    m.on_confirmed(vec![4], vec![]);
    assert_eq!(m.step(), SplitStep::Prepare { child: 2 });
    m.on_prepared(5, vec![5], vec![]);
    m.on_imported(vec![6], vec![]);
    m.on_confirmed(vec![7], vec![]);
    assert_eq!(m.step(), SplitStep::Prepare { child: 3 });
    m.on_prepared(usize::MAX, vec![8], vec![]);
    assert_eq!(m.payload_bytes(), u64::MAX);
    m.on_imported(vec![9], vec![]);
    m.on_confirmed(vec![10], vec![]);
    assert_eq!(m.step(), SplitStep::Done);

    let mut updates = m.root_updates();
    updates.sort();
    assert_eq!(
        updates,
        vec![
            ("storager-1".to_string(), vec![10], vec![]),
            ("storager-2".to_string(), vec![6], vec![]),
            ("storager-3".to_string(), vec![9], vec![]),
        ]
    );
}

#[test]
fn summaries_come_from_replies_or_the_stored_state() {
    let mut p = plan();
    p.children.push(target("a4", "storager-4", "http://n4"));
    p.children.push(target("a5", "storager-5", "http://n5"));
    let mut m = SplitMigration::new(p, vec![1], vec![]);
    while m.step() != SplitStep::Done {
        match m.step() {
            SplitStep::Prepare { .. } => m.on_prepared(1, vec![2], vec![]),
            SplitStep::Import { child } => m.on_imported(vec![child as u8], vec![100 + child as u8]),
            SplitStep::Confirm { .. } => m.on_confirmed(vec![3], vec![]),
            SplitStep::Done => {}
        }
        if let SplitStep::Prepare { child: 4 } = m.step() {
            break;
        }
    }
    let mut hashes = StrMap::new();
    hashes.insert("storager-4".to_string(), vec![44]);
    let mut accs = StrMap::new();
    accs.insert("storager-4".to_string(), vec![]);
    let summaries = m.prefix_summaries(&hashes, &accs);
    assert_eq!(
        summaries,
        vec![
            ("a0".to_string(), vec![3]),
            ("a1".to_string(), vec![102]),
            ("a2".to_string(), vec![102]),
            ("a3".to_string(), vec![103]),
            ("a4".to_string(), vec![44]),
            ("a5".to_string(), vec![]),
        ]
    );
}

#[test]
fn replies_keep_the_latest_state_per_node_and_prefix() {
    let mut roots = ReplyRoots::new();
    roots.record("n1".to_string(), vec![1], vec![]);
    roots.record("n2".to_string(), vec![2], vec![20]);
    roots.record("n1".to_string(), vec![3], vec![]);
    roots.set_prefix_summary("ab".to_string(), vec![7]);
    roots.set_prefix_summary("ab".to_string(), vec![8]);
    let mut updates = roots.root_updates();
    updates.sort();
    assert_eq!(updates, vec![("n1".to_string(), vec![3], vec![]), ("n2".to_string(), vec![2], vec![20])]);
    assert_eq!(roots.prefix_updates(), vec![("ab".to_string(), vec![8])]);
    let mut hashes = StrMap::new();
    hashes.insert("n3".to_string(), vec![9]);
    let mut accs = StrMap::new();
    accs.insert("n3".to_string(), vec![90]);
    assert_eq!(roots.summary_for_node("n1", &hashes, &accs), vec![3]);
    assert_eq!(roots.summary_for_node("n2", &hashes, &accs), vec![20]);
    assert_eq!(roots.summary_for_node("n3", &hashes, &accs), vec![90]);
    assert_eq!(roots.summary_for_node("n4", &hashes, &accs), Vec::<u8>::new());
}
