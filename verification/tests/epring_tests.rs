use ads_search::epring::EPRing;

fn nodes(count: usize) -> Vec<String> {
    (0..count).map(|idx| format!("storager-{idx}")).collect()
}

#[test]
fn computes_minimal_root_prefix_length() {
    assert_eq!(EPRing::minimal_prefix_len(1), 0);
    assert_eq!(EPRing::minimal_prefix_len(2), 1);
    assert_eq!(EPRing::minimal_prefix_len(16), 1);
    assert_eq!(EPRing::minimal_prefix_len(17), 2);
}

#[test]
fn routes_root_prefixes_cyclically() {
    let ring = EPRing::new(&nodes(3), 10);
    assert_eq!(ring.root_prefix_len(), 1);

    let route_0 = ring.route_key_hex("0abc").expect("route 0");
    let route_1 = ring.route_key_hex("1abc").expect("route 1");
    let route_2 = ring.route_key_hex("2abc").expect("route 2");
    let route_3 = ring.route_key_hex("3abc").expect("route 3");

    assert_eq!(ring.node_name(route_0.node_index), Some("storager-0"));
    assert_eq!(ring.node_name(route_1.node_index), Some("storager-1"));
    assert_eq!(ring.node_name(route_2.node_index), Some("storager-2"));
    assert_eq!(ring.node_name(route_3.node_index), Some("storager-0"));
}

#[test]
fn split_keeps_pre0_on_original_owner_and_rotates_rest() {
    let mut ring = EPRing::new(&nodes(3), 1);
    ring.record_insert("a", vec![1]);
    ring.record_insert("a", vec![2]);

    let parent_index = ring.find_entry_index("a").expect("parent entry");
    assert!(ring.entry_is_split(parent_index));

    let route_a0 = ring.route_key_hex("a0ff").expect("a0 route");
    let route_a1 = ring.route_key_hex("a1ff").expect("a1 route");
    let route_af = ring.route_key_hex("afff").expect("af route");

    assert_eq!(ring.entry_prefix(route_a0.entry_index), Some("a0"));
    assert_eq!(ring.entry_prefix(route_a1.entry_index), Some("a1"));
    assert_eq!(ring.node_name(route_a0.node_index), Some("storager-1"));
    assert_eq!(ring.node_name(route_a1.node_index), Some("storager-2"));
    assert_eq!(ring.node_name(route_af.node_index), Some("storager-1"));
}

#[test]
fn hashes_keywords_before_prefix_routing() {
    let digest = EPRing::keyword_to_hex("alpha");
    assert_eq!(digest.len(), 32);
    assert_eq!(digest, EPRing::keyword_to_hex("alpha"));
}

#[test]
fn keyword_routes_like_its_digest() {
    let mut ring = EPRing::new(&nodes(5), 2);
    for k in 0..40 {
        let kw = format!("kw{k}");
        let hex = EPRing::keyword_to_hex(&kw);
        let prefix = hex[..1].to_string();
        ring.record_insert(&prefix, vec![k as u8]);
    }
    for k in 0..40 {
        let kw = format!("kw{k}");
        let hex = EPRing::keyword_to_hex(&kw);
        let by_keyword = ring.route_keyword(&kw).expect("route");
        let by_hex = ring.route_key_hex(&hex).expect("route");
        assert_eq!(by_keyword, by_hex);
        let prefix = ring.entry_prefix(by_keyword.entry_index).unwrap();
        assert!(hex.starts_with(prefix));
        assert!(EPRing::keyword_matches_prefix(&kw, prefix));
        assert!(by_keyword.node_index < 5);
    }
}

#[test]
fn keyword_to_hex_is_lowercase_hex_of_digest() {
    let hex = EPRing::keyword_to_hex("");
    assert_eq!(hex.len(), 32);
    assert!(hex.chars().all(|c| c.is_ascii_hexdigit() && !c.is_ascii_uppercase()));
    let expected = xxhash_rust::xxh3::xxh3_128(b"").to_le_bytes();
    let manual: String = expected.iter().map(|b| format!("{:02x}", b)).collect();
    assert_eq!(hex, manual);
}

#[test]
fn matches_prefix_ignores_case_and_caps_at_32() {
    let hex = EPRing::keyword_to_hex("beta");
    assert!(EPRing::keyword_matches_prefix("beta", &hex.to_uppercase()));
    let long = format!("{hex}zzzz");
    assert!(EPRing::keyword_matches_prefix("beta", &long));
    let first = hex.chars().next().unwrap();
    let other = if first == '0' { '1' } else { '0' };
    assert!(!EPRing::keyword_matches_prefix("beta", &other.to_string()));
    assert!(EPRing::keyword_matches_prefix("beta", ""));
}

#[test]
fn empty_ring_routes_nothing() {
    let ring = EPRing::new(&[], 4);
    assert_eq!(ring.root_prefix_len(), 0);
    assert!(ring.entries().is_empty());
    assert!(ring.route_keyword("x").is_none());
    assert!(ring.find_entry_index("").is_none());
}

#[test]
fn single_node_ring_has_one_root() {
    let ring = EPRing::new(&nodes(1), 4);
    assert_eq!(ring.root_prefix_len(), 0);
    assert_eq!(ring.entries().len(), 1);
    let route = ring.route_keyword("anything").unwrap();
    assert_eq!(route.entry_index, 0);
    assert_eq!(route.node_index, 0);
}

#[test]
fn seventeen_nodes_get_two_digit_roots() {
    let ring = EPRing::new(&nodes(17), 4);
    assert_eq!(ring.root_prefix_len(), 2);
    assert_eq!(ring.entries().len(), 256);
    assert_eq!(ring.entry_prefix(0), Some("00"));
    assert_eq!(ring.entry_prefix(255), Some("ff"));
    assert_eq!(ring.entries()[18].owner_ref, 1);
}

#[test]
fn record_delete_saturates_at_zero() {
    let mut ring = EPRing::new(&nodes(2), 5);
    ring.record_delete("3", vec![9]);
    let i = ring.find_entry_index("3").unwrap();
    assert_eq!(ring.entries()[i].counter, 0);
    assert_eq!(ring.entries()[i].root_summary, vec![9]);
    ring.record_insert("3", vec![1]);
    ring.record_insert("3", vec![2]);
    ring.record_delete("3", vec![3]);
    assert_eq!(ring.entries()[i].counter, 1);
    assert_eq!(ring.entries()[i].root_summary, vec![3]);
}

#[test]
fn split_event_lists_rotated_children() {
    let mut ring = EPRing::new(&nodes(3), 0);
    let event = ring.record_insert("2", vec![]).expect("split");
    assert_eq!(event.parent_entry_index, 2);
    assert_eq!(event.original_owner_index, 2);
    assert_eq!(event.child_routes.len(), 16);
    for (d, route) in event.child_routes.iter().enumerate() {
        assert_eq!(route.entry_index, 16 + d);
        assert_eq!(route.node_index, (2 + d) % 3);
    }
    assert!(ring.record_insert("2", vec![]).is_none());
}

#[test]
fn presplit_only_empty_prefixes_above_threshold() {
    let mut ring = EPRing::new(&nodes(2), 3);
    assert!(ring.maybe_presplit_empty_prefix("7", 3).is_none());
    ring.record_insert("8", vec![]);
    assert!(ring.maybe_presplit_empty_prefix("8", 10).is_none());
    let event = ring.maybe_presplit_empty_prefix("7", 4).expect("split");
    assert_eq!(event.parent_entry_index, 7);
    assert!(ring.maybe_presplit_empty_prefix("7", 4).is_none());
    assert!(ring.maybe_presplit_empty_prefix("zz", 100).is_none());
}

#[test]
fn update_root_summary_changes_only_summary() {
    let mut ring = EPRing::new(&nodes(2), 3);
    ring.record_insert("c", vec![1]);
    ring.update_root_summary("c", vec![7, 7]);
    let i = ring.find_entry_index("c").unwrap();
    assert_eq!(ring.entries()[i].counter, 1);
    assert_eq!(ring.entries()[i].root_summary, vec![7, 7]);
}

#[test]
fn structure_lines_describe_entries() {
    let ring = EPRing::new(&nodes(2), 3);
    let lines = ring.structure_lines();
    assert_eq!(lines.len(), 17);
    assert_eq!(lines[0], "root_prefix_len=1, split_threshold=3, entries=16");
    assert_eq!(
        lines[1],
        "[0] prefix='0' counter=0 owner=storager-0(0) root_summary_len=0"
    );
    assert_eq!(
        lines[2],
        "[1] prefix='1' counter=0 owner=storager-1(1) root_summary_len=0"
    );
}

#[test]
fn split_entry_shows_in_structure_lines() {
    let mut ring = EPRing::new(&nodes(2), 0);
    ring.record_insert("5", vec![1, 2]);
    let lines = ring.structure_lines();
    assert_eq!(lines.len(), 33);
    assert_eq!(
        lines[6],
        "[5] prefix='5' counter=1 owner=split->16 root_summary_len=2"
    );
    assert_eq!(
        lines[17],
        "[16] prefix='50' counter=0 owner=storager-1(1) root_summary_len=0"
    );
}

#[test]
fn every_entry_is_found_by_its_prefix() {
    let mut ring = EPRing::new(&nodes(3), 0);
    ring.record_insert("4", vec![]);
    ring.record_insert("41", vec![]);
    let count = ring.entries().len();
    assert_eq!(count, 16 + 16 + 16);
    for i in 0..count {
        let prefix = ring.entry_prefix(i).unwrap().to_string();
        assert_eq!(ring.find_entry_index(&prefix), Some(i));
    }
    assert_eq!(ring.find_entry_index("41f"), Some(47));
    assert_eq!(ring.find_entry_index("42f"), None);
}

#[test]
fn lower_case_digest_prefixes_match_exactly() {
    for kw in ["alpha", "beta", "gamma", ""] {
        let hex = EPRing::keyword_to_hex(kw);
        assert_eq!(hex.len(), 32);
        for len in [0usize, 1, 2, 5, 32] {
            assert!(EPRing::keyword_matches_prefix(kw, &hex[..len]));
        }
        let first = hex.as_bytes()[0];
        let other = if first == b'0' { "1" } else { "0" };
        assert!(!EPRing::keyword_matches_prefix(kw, other));
    }
}

#[test]
fn route_key_hex_is_defined_on_short_keys_of_a_fresh_ring() {
    let ring = EPRing::new(&nodes(3), 10);
    assert!(ring.route_key_hex_defined("0abc"));
    assert!(ring.route_key_hex_defined(""));
    assert_eq!(ring.route_key_hex("3abc").unwrap().entry_index, 3);
    let empty = EPRing::new(&nodes(0), 10);
    assert!(empty.route_key_hex_defined("0abc"));
    assert_eq!(empty.route_key_hex("0abc"), None);
}

#[test]
fn upper_case_and_long_prefixes_match_by_their_digits() {
    let hex = EPRing::keyword_to_hex("delta");
    assert!(EPRing::keyword_matches_prefix("delta", &hex[..4].to_ascii_uppercase()));
    let long = format!("{}ffff", hex);
    assert!(EPRing::keyword_matches_prefix("delta", &long));
}
