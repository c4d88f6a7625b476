use ads_search::boolean_expr::{parse_boolean_expr, BooleanExpr};
use ads_search::client_modes::{run_plan, Client, OperationMode, RunPlan};
use ads_search::epring::EPRing;
use ads_search::types::{AdsMode, SetProofMode};

fn client(mode: SetProofMode) -> Client {
    Client::new("http://127.0.0.1:50051".to_string(), AdsMode::Mest, mode)
}

#[test]
fn keywords_travel_as_digest_hex() {
    let c = client(SetProofMode::Polynomial);
    let out = c.encode_upload_keywords(vec!["alpha".to_string(), "beta".to_string()]);
    assert_eq!(out, vec![EPRing::keyword_to_hex("alpha"), EPRing::keyword_to_hex("beta")]);
    assert_eq!(c.encode_update_keywords(vec!["alpha".to_string()]), vec![EPRing::keyword_to_hex("alpha")]);
    assert_eq!(c.manager_addr(), "http://127.0.0.1:50051");
    assert_eq!(c.ads_mode(), AdsMode::Mest);
}

#[test]
fn queries_travel_with_hashed_keywords() {
    let c = client(SetProofMode::Accumulator);
    let a = EPRing::keyword_to_hex("a");
    let b = EPRing::keyword_to_hex("b");
    assert_eq!(c.encode_query_expression("a AND NOT b").unwrap(), format!("({a} AND (NOT {b}))"));
    let parsed = parse_boolean_expr("a OR b").unwrap();
    assert_eq!(c.encode_boolean_query_expression(&parsed), format!("({a} OR {b})"));
    assert_eq!(
        c.encode_boolean_query_expression(&BooleanExpr::Keyword("a".to_string())),
        a
    );
    assert_eq!(c.encode_query_expression(""), Err(parse_boolean_expr("").unwrap_err()));
}

#[test]
fn expected_set_proof_marks() {
    let poly = client(SetProofMode::Polynomial);
    let acc = client(SetProofMode::Accumulator);
    assert!(poly.verify_expected_set_proof_mode(b"POLYI1rest"));
    assert!(!poly.verify_expected_set_proof_mode(b"ACCSI1rest"));
    assert!(acc.verify_expected_set_proof_mode(b"ACCSI1rest"));
    assert!(!acc.verify_expected_set_proof_mode(b"POLY"));
}

#[test]
fn unparsable_queries_are_skipped_and_counted() {
    let c = client(SetProofMode::Accumulator);
    let a = EPRing::keyword_to_hex("a");
    let b = EPRing::keyword_to_hex("b");
    let queries = vec!["a AND b AND a".to_string(), "(a OR".to_string(), "b".to_string(), "".to_string()];
    let (prepared, skipped) = c.prepare_queries(&queries);
    assert_eq!(
        prepared,
        vec![(format!("(({a} AND {b}) AND {a})"), 2), (b.clone(), 1)]
    );
    assert_eq!(skipped, 2);
}

#[test]
fn run_plan_follows_the_operation_mode() {
    assert_eq!(
        run_plan(OperationMode::UploadAndQuery, AdsMode::AccTrie),
        RunPlan { upload: true, batch_add: true, update: false, query: true, reset: false }
    );
    assert_eq!(
        run_plan(OperationMode::Upload, AdsMode::Mpt),
        RunPlan { upload: true, batch_add: false, update: false, query: false, reset: false }
    );
    assert!(!run_plan(OperationMode::UploadSequential, AdsMode::Mest).batch_add);
    assert!(run_plan(OperationMode::Update, AdsMode::Mest).update);
    assert!(run_plan(OperationMode::Reset, AdsMode::Mest).reset);
    assert!(run_plan(OperationMode::Query, AdsMode::AccTree).query);
}
