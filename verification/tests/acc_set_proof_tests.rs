use ads_search::acc_set_proof::{
    accumulator_proof_leaves, verify_accumulator_set_operation_aggregate,
    verify_accumulator_set_operation_node,
};
use ads_search::proofs::{
    accumulator_set_operation_root_hash, AccumulatorIntersectionNodeProof,
    AccumulatorSetOperationAggregateProof, AccumulatorSetOperationLeafProof,
    AccumulatorSetOperationProofNode, AccumulatorUnionNodeProof, SetProofLeaf,
};
use ads_search::types::AdsMode;
use ads_search::verification::{verify_mest, ProofVerifier};

fn strings(v: &[&str]) -> Vec<String> {
    v.iter().map(|s| s.to_string()).collect()
}

fn leaf(keyword: &str, fids: &[&str]) -> AccumulatorSetOperationProofNode {
    AccumulatorSetOperationProofNode::Leaf(AccumulatorSetOperationLeafProof {
        leaf: SetProofLeaf::new(
            keyword.to_string(),
            format!("node-{}", keyword),
            AdsMode::Mest,
            Vec::new(),
            Vec::new(),
            strings(fids),
        ),
    })
}

fn and_tree(result: &[&str]) -> AccumulatorSetOperationProofNode {
    AccumulatorSetOperationProofNode::And(Box::new(AccumulatorIntersectionNodeProof {
        left: leaf("A", &["f1", "f2", "f3"]),
        right: leaf("B", &["f2", "f3", "f4"]),
        result_fids: strings(result),
        proof: vec![7u8; 8],
    }))
}

fn or_tree(result: &[&str]) -> AccumulatorSetOperationProofNode {
    AccumulatorSetOperationProofNode::Or(Box::new(AccumulatorUnionNodeProof {
        left: leaf("A", &["f1", "f2", "f3"]),
        right: leaf("B", &["f2", "f3", "f4"]),
        result_fids: strings(result),
        proof: vec![9u8; 8],
    }))
}

fn sorted(mut v: Vec<String>) -> Vec<String> {
    v.sort();
    v
}

#[test]
fn intersection_node_stands_for_the_common_fids() {
    let t = and_tree(&["f3", "f2"]);
    let got = verify_accumulator_set_operation_node(&t, &vec![true, true], &vec![true]).unwrap();
    assert_eq!(sorted(got), strings(&["f2", "f3"]));
}

#[test]
fn union_node_stands_for_all_fids() {
    let t = or_tree(&["f1", "f2", "f3", "f4"]);
    let got = verify_accumulator_set_operation_node(&t, &vec![true, true], &vec![true]).unwrap();
    assert_eq!(sorted(got), strings(&["f1", "f2", "f3", "f4"]));
}

#[test]
fn operator_node_with_a_wrong_claim_is_refused() {
    let ok = vec![true, true];
    let op = vec![true];
    assert_eq!(verify_accumulator_set_operation_node(&and_tree(&["f2"]), &ok, &op), None);
    assert_eq!(verify_accumulator_set_operation_node(&and_tree(&["f2", "f3", "f2"]), &ok, &op), None);
    assert_eq!(verify_accumulator_set_operation_node(&or_tree(&["f1", "f2", "f3"]), &ok, &op), None);
}

#[test]
fn failed_leaf_or_accumulator_proof_is_refused() {
    let t = and_tree(&["f2", "f3"]);
    assert_eq!(verify_accumulator_set_operation_node(&t, &vec![true, false], &vec![true]), None);
    assert_eq!(verify_accumulator_set_operation_node(&t, &vec![true, true], &vec![false]), None);
    assert_eq!(verify_accumulator_set_operation_node(&t, &vec![true], &vec![true]), None);
    assert_eq!(verify_accumulator_set_operation_node(&t, &vec![true, true], &vec![]), None);
}

#[test]
fn leaves_come_left_to_right() {
    let t = or_tree(&["f1", "f2", "f3", "f4"]);
    let leaves = accumulator_proof_leaves(&t);
    assert_eq!(leaves.len(), 2);
    assert_eq!(leaves[0].keyword, "A");
    assert_eq!(leaves[1].keyword, "B");
}

fn aggregate(result: &[&str], node_result: &[&str]) -> AccumulatorSetOperationAggregateProof {
    AccumulatorSetOperationAggregateProof {
        expr: "(A AND B)".to_string(),
        result_fids: strings(result),
        root: and_tree(node_result),
    }
}

#[test]
fn aggregate_passes_with_its_own_hash_and_sorted_result() {
    let bytes = b"ACCSI1 some encoded proof".to_vec();
    let root = accumulator_set_operation_root_hash(&bytes);
    let a = aggregate(&["f2", "f3"], &["f2", "f3"]);
    assert!(verify_accumulator_set_operation_aggregate(&bytes, &root, Some(&a), &vec![true, true], &vec![true]));
}

#[test]
fn aggregate_is_refused_on_hash_decode_or_result_mismatch() {
    let bytes = b"ACCSI1 some encoded proof".to_vec();
    let root = accumulator_set_operation_root_hash(&bytes);
    let ok = vec![true, true];
    let op = vec![true];
    let a = aggregate(&["f2", "f3"], &["f2", "f3"]);
    assert!(!verify_accumulator_set_operation_aggregate(&bytes, &[0u8; 32], Some(&a), &ok, &op));
    assert!(!verify_accumulator_set_operation_aggregate(&bytes, &root, None, &ok, &op));
    let unsorted = aggregate(&["f3", "f2"], &["f2", "f3"]);
    assert!(!verify_accumulator_set_operation_aggregate(&bytes, &root, Some(&unsorted), &ok, &op));
    let short = aggregate(&["f2"], &["f2", "f3"]);
    assert!(!verify_accumulator_set_operation_aggregate(&bytes, &root, Some(&short), &ok, &op));
}

#[test]
fn test_accumulator_leaf_verification_uses_leaf_ads_mode() {
    let leaf = SetProofLeaf::new(
        "A".to_string(),
        "node-a".to_string(),
        AdsMode::Mest,
        vec![9u8; 32],
        vec![9u8; 32],
        vec!["f1".to_string()],
    );
    let aggregate = AccumulatorSetOperationAggregateProof {
        expr: "A".to_string(),
        result_fids: vec!["f1".to_string()],
        root: AccumulatorSetOperationProofNode::Leaf(AccumulatorSetOperationLeafProof { leaf: leaf.clone() }),
    };
    let verifier = ProofVerifier::new(AdsMode::Mpt);
    // The leaf is checked under its own mode, MEST, not the verifier's.
    let leaf_ok = leaf.verify(&verifier, verify_mest(&leaf.ads_proof, None, &leaf.root_hash), None);
    let encoded = b"ACCSI1 leaf-only aggregate".to_vec();
    assert!(verify_accumulator_set_operation_aggregate(
        &encoded,
        &accumulator_set_operation_root_hash(&encoded),
        Some(&aggregate),
        &vec![leaf_ok],
        &vec![],
    ));
}

#[test]
fn accepted_result_holds_only_leaf_fids() {
    let t = or_tree(&["f1", "f2", "f3", "f4"]);
    let got = verify_accumulator_set_operation_node(&t, &vec![true, true], &vec![true]).unwrap();
    let leaf_fids: Vec<String> = accumulator_proof_leaves(&t).iter().flat_map(|l| l.fids.clone()).collect();
    assert!(got.iter().all(|f| leaf_fids.contains(f)));
}
