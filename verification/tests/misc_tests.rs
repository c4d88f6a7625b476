use ads_search::stats::PrefixImportCounts;
use ads_search::proofs::{
    acctree_proof_fids, acctree_proof_root_hash, verify_acctree, AccTreeProofEnvelope, AccTreeProofKind,
};
use ads_search::client_modes::progress_bucket;
use ads_search::config::optional_positive_u64_setting;
use ads_search::metrics::run_report_file_name;
use ads_search::migration::record_persistence_modes;
use ads_search::blockchain::{chain_enabled, path_setting_given, positive_u64_setting, positive_usize_setting};
use ads_search::blockchain::{doubled_delay_ms, hex_encode, pending_commit, ChainWorkerState};
use ads_search::client_modes::{describe_mode, effective_upload_batch_size, OperationMode, RunMetadata};
use ads_search::config::{parse_address_list, parse_usize, RuntimeConfig};
use ads_search::metrics::{dataset_label_from_path, format_timestamp_token, sanitize_component, timestamp_token};
use ads_search::proofs::{
    acctree_proof_digest, is_accumulator_set_operation_proof, is_acctree_proof,
    is_boolean_query_aggregate_proof, is_polynomial_intersection_proof, SetProofLeaf,
};
use ads_search::stats::{ProcessIoStats, SplitMigrationStats};
use ads_search::types::{parse_ads_mode, parse_set_proof_mode, AdsMode, SetProofMode};
use ads_search::verification::ProofVerifier;

#[test]
fn encodes_empty_summary_as_hex_zero() {
    assert_eq!(hex_encode(&[]), "0x");
}

#[test]
fn encodes_summary_as_lowercase_hex() {
    assert_eq!(hex_encode(&[0x00, 0xab, 0xff]), "0x00abff");
}

#[test]
fn test_mest_proof_size_detection() {
    let simple_proof = vec![0u8; 32];
    let full_proof = vec![0u8; 150];

    assert_eq!(simple_proof.len(), 32);
    assert!(full_proof.len() > 32);
}

#[test]
fn retry_delay_is_capped() {
    assert_eq!(doubled_delay_ms(20_000), 30_000);
    assert_eq!(doubled_delay_ms(30_000), 30_000);
}

#[test]
fn retry_delay_doubles_up_to_thirty_seconds() {
    assert_eq!(doubled_delay_ms(20_000), 30_000);
    assert_eq!(doubled_delay_ms(30_000), 30_000);
    assert_eq!(doubled_delay_ms(500), 1_000);
    assert_eq!(doubled_delay_ms(u64::MAX), 30_000);
}

#[test]
fn chain_worker_submits_full_batches_in_order() {
    let mut w = ChainWorkerState::new(2, 500, Vec::new(), 0);
    let c1 = pending_commit("a", &[1]);
    let c2 = pending_commit("b", &[2]);
    let c3 = pending_commit("c", &[3]);
    assert_eq!(c1.summary_hex, "0x01");
    assert!(!w.on_commit(vec![c1.clone()], true, 0));
    assert!(w.on_commit(vec![c2.clone(), c3.clone()], true, 0));
    let batch = w.flush_batch().unwrap();
    assert_eq!(batch, vec![c1, c2]);
    w.on_confirmed(batch.len(), true);
    assert_eq!(w.pending(), &vec![c3]);
    w.on_attempt_done(false, 10);
    assert!(!w.on_tick(true, 100));
    assert!(w.on_tick(true, 510));
    w.on_reset();
    assert!(w.flush_batch().is_none());
}

#[test]
fn chain_worker_waits_for_outbox() {
    let mut w = ChainWorkerState::new(1, 500, Vec::new(), 0);
    assert!(!w.on_commit(vec![pending_commit("p", &[])], false, 0));
    assert!(w.is_dirty());
    assert!(!w.on_tick(false, 0));
    assert!(w.on_tick(true, 0));
}

#[test]
fn magic_prefixes_identify_proofs() {
    assert!(is_acctree_proof(b"ACTR1rest"));
    assert!(!is_acctree_proof(b"ACTR"));
    assert!(is_accumulator_set_operation_proof(b"ACCSI1"));
    assert!(is_boolean_query_aggregate_proof(b"BOOLP1x"));
    assert!(!is_boolean_query_aggregate_proof(b"BOOLQ1x"));
    assert!(is_polynomial_intersection_proof(b"POLYI1..."));
    assert!(!is_polynomial_intersection_proof(b""));
}

#[test]
fn proof_digest_is_sha256() {
    let d = acctree_proof_digest(b"abc");
    assert_eq!(
        hex_encode(&d),
        "0xba7816bf8f01cfea414140de5dae2223b00361a396177a9cb410ff61f20015ad"
    );
}

#[test]
fn set_proof_leaf_keeps_fields() {
    let leaf = SetProofLeaf::new(
        "k".to_string(),
        "n".to_string(),
        AdsMode::Mest,
        vec![1],
        vec![2],
        vec!["f".to_string()],
    );
    assert_eq!(leaf.keyword, "k");
    assert_eq!(leaf.ads_mode, AdsMode::Mest);
    assert_eq!(leaf.fids, vec!["f".to_string()]);
}

#[test]
fn parses_modes_in_any_case() {
    assert_eq!(parse_ads_mode("MPT"), Ok(AdsMode::Mpt));
    assert_eq!(parse_ads_mode("Accumulator"), Ok(AdsMode::AccTrie));
    assert_eq!(parse_ads_mode("acctree"), Ok(AdsMode::AccTree));
    assert_eq!(
        parse_ads_mode("x"),
        Err("Unknown ADS mode: x. Expected mpt|mest|acctrie|acctree".to_string())
    );
    assert_eq!(parse_set_proof_mode("POLY"), Ok(SetProofMode::Polynomial));
    assert_eq!(parse_set_proof_mode("acc"), Ok(SetProofMode::Accumulator));
    assert!(parse_set_proof_mode("").is_err());
    assert_eq!(AdsMode::AccTrie.as_str(), "acctrie");
    assert_eq!(SetProofMode::Accumulator.as_str(), "accumulator");
}

#[test]
fn operation_modes() {
    assert_eq!(OperationMode::from_arg("LOAD"), Ok(OperationMode::Upload));
    assert_eq!(OperationMode::from_arg("clear"), Ok(OperationMode::Reset));
    assert!(OperationMode::from_arg("other").is_err());
    assert_eq!(describe_mode(&OperationMode::UploadAndQuery), "upload-and-query");
    assert_eq!(effective_upload_batch_size(AdsMode::Mpt, 100), 3);
    assert_eq!(effective_upload_batch_size(AdsMode::Mest, 100), 1);
    assert_eq!(effective_upload_batch_size(AdsMode::AccTrie, 0), 1);
    assert_eq!(effective_upload_batch_size(AdsMode::AccTree, 64), 64);
    let m = RunMetadata::new("d".to_string(), 1, 2, 3, 4);
    assert_eq!(m.total_updates, 4);
}

#[test]
fn validates_runtime_config() {
    let mut cfg = RuntimeConfig {
        num_clients: None,
        num_storagers: None,
        ads_mode: None,
        manager_addr: None,
        storager_addrs: None,
        client_addrs: None,
    };
    assert_eq!(cfg.validate(), Err("manager_addr missing or empty".to_string()));
    cfg.manager_addr = Some("m".to_string());
    assert_eq!(cfg.validate(), Err("storager_addrs missing or empty".to_string()));
    cfg.apply_env_overrides(Some("+7"), Some("x"), None, None, Some(" a , ,b"), Some(" , "));
    assert_eq!(cfg.num_clients, Some(7));
    assert_eq!(cfg.num_storagers, None);
    assert_eq!(cfg.storager_addrs, Some(vec!["a".to_string(), "b".to_string()]));
    assert_eq!(cfg.client_addrs, None);
    assert_eq!(cfg.validate(), Ok(()));
}

#[test]
fn parses_numbers_like_std() {
    for s in ["0", "+12", "18446744073709551615", "", "+", "-1", "1a", " 1", "99999999999999999999"] {
        assert_eq!(parse_usize(s), s.parse::<usize>().ok(), "input {s:?}");
    }
    assert_eq!(parse_address_list(""), Vec::<String>::new());
    assert_eq!(parse_address_list("x,,y "), vec!["x".to_string(), "y".to_string()]);
}

#[test]
fn report_names() {
    assert_eq!(sanitize_component("a b/c-d_e"), "a_b_c-d_e");
    assert_eq!(sanitize_component(""), "default");
    assert_eq!(dataset_label_from_path("data/set one/records.csv"), "set_one");
    assert_eq!(dataset_label_from_path("data/enron"), "enron");
    assert_eq!(dataset_label_from_path("records.csv"), "records");
    assert_eq!(format_timestamp_token(12, 7), "12_007");
    let t = timestamp_token();
    let (secs, millis) = t.split_once('_').unwrap();
    assert!(secs.parse::<u64>().is_ok());
    assert_eq!(millis.len(), 3);
}

#[test]
fn migration_stats_saturate() {
    let mut s = SplitMigrationStats::default();
    s.record_duration(5);
    s.record_duration(u128::MAX);
    assert_eq!(s.migration_count, 2);
    assert_eq!(s.total_duration_ms, u64::MAX);
    assert_eq!(s.last_duration_ms, u64::MAX);
    assert_eq!(s.max_duration_ms, u64::MAX);
    let a = ProcessIoStats { read_bytes: 3, write_bytes: 4, read_ops: 1, write_ops: 1 };
    let b = ProcessIoStats { read_bytes: u64::MAX, write_bytes: 1, read_ops: 0, write_ops: 0 };
    assert_eq!(a.total_bytes(), 7);
    assert_eq!(b.total_bytes(), u64::MAX);
    s.record_io(a, b, 9);
    assert_eq!(s.total_io_read_bytes, u64::MAX);
    assert_eq!(s.total_io_write_bytes, 5);
    assert_eq!(s.max_io_total_bytes, u64::MAX);
    assert_eq!(s.last_io_payload_bytes, 9);
}

#[test]
fn chain_settings_read_like_the_environment() {
    assert!(!chain_enabled(None));
    assert!(chain_enabled(Some(" yes ")));
    assert!(chain_enabled(Some("1")));
    assert!(!chain_enabled(Some(" OFF ")));
    assert!(!chain_enabled(Some("False")));
    assert!(!chain_enabled(Some("0")));
    assert_eq!(positive_u64_setting(None, 100), 100);
    assert_eq!(positive_u64_setting(Some("250"), 100), 250);
    assert_eq!(positive_u64_setting(Some("+7"), 100), 7);
    assert_eq!(positive_u64_setting(Some("0"), 100), 100);
    assert_eq!(positive_u64_setting(Some("x"), 100), 100);
    assert_eq!(positive_u64_setting(Some("18446744073709551616"), 5), 5);
    assert_eq!(positive_u64_setting(Some("18446744073709551615"), 5), u64::MAX);
    assert_eq!(positive_usize_setting(Some("64"), 32), 64);
    assert_eq!(positive_usize_setting(Some(" 64"), 32), 32);
    assert!(path_setting_given(Some("a/b")));
    assert!(!path_setting_given(Some("   ")));
    assert!(!path_setting_given(None));
}

#[test]
fn progress_is_reported_by_tenths() {
    assert_eq!(progress_bucket(0, 0, 0), None);
    assert_eq!(progress_bucket(5, 100, 0), None);
    assert_eq!(progress_bucket(10, 100, 0), Some(1));
    assert_eq!(progress_bucket(25, 100, 1), Some(2));
    assert_eq!(progress_bucket(25, 100, 2), None);
    assert_eq!(progress_bucket(100, 100, 9), Some(10));
    assert_eq!(progress_bucket(usize::MAX, usize::MAX, 0), Some(1));
}

#[test]
fn optional_duration_setting() {
    assert_eq!(optional_positive_u64_setting(None, Some(30)), Some(30));
    assert_eq!(optional_positive_u64_setting(None, None), None);
    assert_eq!(optional_positive_u64_setting(Some("45"), Some(30)), Some(45));
    assert_eq!(optional_positive_u64_setting(Some("0"), Some(30)), None);
    assert_eq!(optional_positive_u64_setting(Some("soon"), Some(30)), None);
}

#[test]
fn persistence_modes_fold_in_order() {
    let mut mode = "unknown".to_string();
    record_persistence_modes(&mut mode, &vec!["".to_string(), "Page".to_string(), "page ".to_string()]);
    assert_eq!(mode, "page");
    record_persistence_modes(&mut mode, &vec!["kvdb".to_string(), "page".to_string()]);
    assert_eq!(mode, "mixed");
}

#[test]
fn manager_report_file_name() {
    assert_eq!(run_report_file_name("wiki", 8, "epring", "page", 1200), "wiki-8-epring-page-1200.txt");
}

#[test]
fn acctree_envelopes_name_their_files() {
    let query = AccTreeProofEnvelope {
        root_hash: vec![1, 2, 3],
        proof: AccTreeProofKind::Query {
            keyword: "alpha".to_string(),
            result_fids: vec!["file-1".to_string(), "file-2".to_string()],
        },
    };
    assert_eq!(acctree_proof_root_hash(Some(&query)), vec![1, 2, 3]);
    assert_eq!(acctree_proof_root_hash(None), Vec::<u8>::new());
    assert_eq!(acctree_proof_fids(Some(&query)), Some(vec!["file-1".to_string(), "file-2".to_string()]));
    let add = AccTreeProofEnvelope {
        root_hash: vec![],
        proof: AccTreeProofKind::Add { keyword: "k".to_string(), fid: "f".to_string() },
    };
    assert_eq!(acctree_proof_fids(Some(&add)), Some(vec!["f".to_string()]));
    let del = AccTreeProofEnvelope {
        root_hash: vec![],
        proof: AccTreeProofKind::Delete {
            keyword: "k".to_string(),
            fid: "f".to_string(),
            deleted_fid: "f".to_string(),
            new_fid: None,
        },
    };
    assert_eq!(acctree_proof_fids(Some(&del)), Some(vec![]));
    assert_eq!(acctree_proof_fids(None), None);
}

#[test]
fn prefix_import_report_is_sorted_by_node_then_prefix() {
    let mut counts = PrefixImportCounts::new();
    assert_eq!(counts.report(), "");
    counts.record("storager-1", "b", 2);
    counts.record("storager-0", "c", 1);
    counts.record("storager-1", "a", 5);
    counts.record("storager-1", "b", 3);
    counts.record("storager-0", "a", 0);
    assert_eq!(counts.report(), "storager-0,c,1\nstorager-1,a,5\nstorager-1,b,5\n");
    counts.record("storager-0", "c", u64::MAX);
    assert_eq!(counts.report(), format!("storager-0,c,{}\nstorager-1,a,5\nstorager-1,b,5\n", u64::MAX));
}

#[test]
fn acctree_proof_needs_its_mark_root_and_deleted_file() {
    let proof = b"ACTR1 payload".to_vec();
    let env = |kind| AccTreeProofEnvelope { root_hash: vec![4, 2], proof: kind };
    let add = env(AccTreeProofKind::Add { keyword: "k".to_string(), fid: "f".to_string() });
    assert!(verify_acctree(&proof, &[4, 2], Some(&add), true));
    assert!(!verify_acctree(&proof, &[4, 2], Some(&add), false));
    assert!(!verify_acctree(&proof, &[4, 3], Some(&add), true));
    assert!(!verify_acctree(b"XXXX1", &[4, 2], Some(&add), true));
    assert!(!verify_acctree(&proof, &[], None, true));
    let wrong_delete = env(AccTreeProofKind::Delete {
        keyword: "k".to_string(),
        fid: "f".to_string(),
        deleted_fid: "g".to_string(),
        new_fid: None,
    });
    assert!(!verify_acctree(&proof, &[4, 2], Some(&wrong_delete), true));
    let delete = env(AccTreeProofKind::Delete {
        keyword: "k".to_string(),
        fid: "f".to_string(),
        deleted_fid: "f".to_string(),
        new_fid: Some("h".to_string()),
    });
    assert!(verify_acctree(&proof, &[4, 2], Some(&delete), true));
}

#[test]
fn leaf_checks_its_ads_verdict_and_result() {
    let v = ProofVerifier::new(AdsMode::Mest);
    let leaf = SetProofLeaf::new("k".to_string(), "n".to_string(), AdsMode::Mest, vec![1; 32], b"ACCSI1x".to_vec(), vec!["b".to_string(), "a".to_string(), "b".to_string()]);
    let decoded = vec!["a".to_string(), "b".to_string(), "b".to_string()];
    assert!(leaf.verify(&v, true, Some(&decoded)));
    assert!(!leaf.verify(&v, false, Some(&decoded)));
    assert!(!leaf.verify(&v, true, None));
    let mut fids = leaf.verify_and_collect_fids(&v, true, Some(&decoded)).unwrap();
    fids.sort();
    assert_eq!(fids, vec!["a".to_string(), "b".to_string()]);
    assert_eq!(leaf.verify_and_collect_fids(&v, false, Some(&decoded)), None);
}

#[test]
fn mode_names_parse_back_in_any_case() {
    for m in [AdsMode::Mpt, AdsMode::Mest, AdsMode::AccTrie, AdsMode::AccTree] {
        assert_eq!(parse_ads_mode(m.as_str()), Ok(m));
        assert_eq!(parse_ads_mode(&m.as_str().to_ascii_uppercase()), Ok(m));
    }
    for m in [SetProofMode::Polynomial, SetProofMode::Accumulator] {
        assert_eq!(parse_set_proof_mode(m.as_str()), Ok(m));
    }
}
