use ads_search::assoc::StrMap;
use ads_search::boolean_proof::{
    boolean_proof_parts, verify_boolean_node, verify_boolean_query_aggregate, verify_disjointness_proof,
    verify_pairwise_disjoint,
};
use ads_search::proofs::{
    BooleanBinaryProof, BooleanProofNode, BooleanQueryAggregateProof, LeafKeywordProof,
    SetOperationAggregateProof, SetProofLeaf,
};
use ads_search::types::AdsMode;
use ads_search::verification::{verify_mest, ProofVerifier};
use sha2::{Digest, Sha256};

fn strings(v: &[&str]) -> Vec<String> {
    v.iter().map(|s| s.to_string()).collect()
}

fn leaf(keyword: &str, node: &str, root: u8, fids: &[&str]) -> BooleanProofNode {
    BooleanProofNode::Leaf(LeafKeywordProof {
        leaf: SetProofLeaf::new(keyword.to_string(), node.to_string(), AdsMode::Mest, vec![root; 4], vec![], strings(fids)),
    })
}

fn decomposition(i: &[&str], l: &[&str], r: &[&str]) -> SetOperationAggregateProof {
    SetOperationAggregateProof {
        intersection_fids: strings(i),
        left_only_fids: strings(l),
        right_only_fids: strings(r),
        intersection_left_only_proof: vec![],
        intersection_right_only_proof: vec![],
        left_only_right_only_proof: vec![],
    }
}

fn roots() -> StrMap<Vec<u8>> {
    let mut m = StrMap::new();
    m.insert("n1".to_string(), vec![1; 4]);
    m.insert("n2".to_string(), vec![2; 4]);
    m
}

fn tree(or: bool, d: SetOperationAggregateProof) -> BooleanProofNode {
    let b = Box::new(BooleanBinaryProof {
        left: leaf("A", "n1", 1, &["f1", "f2", "f3"]),
        right: leaf("B", "n2", 2, &["f2", "f3", "f4", "f4"]),
        decomposition: d,
    });
    if or { BooleanProofNode::Or(b) } else { BooleanProofNode::And(b) }
}

fn sorted(mut v: Vec<String>) -> Vec<String> {
    v.sort();
    v
}

#[test]
fn and_node_stands_for_the_intersection() {
    let t = tree(false, decomposition(&["f2", "f3"], &["f1"], &["f4"]));
    let got = verify_boolean_node(&t, &roots(), &vec![true, true], &vec![true]).unwrap();
    assert_eq!(sorted(got), strings(&["f2", "f3"]));
    assert_eq!(verify_boolean_node(&t, &roots(), &vec![true, false], &vec![true]), None);
    assert_eq!(verify_boolean_node(&t, &roots(), &vec![true, true], &vec![false]), None);
    let (leaves, decs) = boolean_proof_parts(&t);
    assert_eq!(leaves.len(), 2);
    assert_eq!(leaves[1].keyword, "B");
    assert_eq!(decs.len(), 1);
}

#[test]
fn or_node_stands_for_all_parts() {
    let t = tree(true, decomposition(&["f2", "f3"], &["f1"], &["f4"]));
    let got = verify_boolean_node(&t, &roots(), &vec![true, true], &vec![true]).unwrap();
    assert_eq!(sorted(got), strings(&["f1", "f2", "f3", "f4"]));
}

#[test]
fn decomposition_must_account_for_operands() {
    let t = tree(false, decomposition(&["f2"], &["f1"], &["f4"]));
    assert_eq!(verify_boolean_node(&t, &roots(), &vec![true, true], &vec![true]), None);
    let mut wrong_roots = StrMap::new();
    wrong_roots.insert("n1".to_string(), vec![9; 4]);
    wrong_roots.insert("n2".to_string(), vec![2; 4]);
    let good = tree(false, decomposition(&["f2", "f3"], &["f1"], &["f4"]));
    assert_eq!(verify_boolean_node(&good, &wrong_roots, &vec![true, true], &vec![true]), None);
}

#[test]
fn aggregate_names_its_sorted_result() {
    let proof = b"BOOLP1 encoded".to_vec();
    let root = Sha256::digest(&proof).to_vec();
    let aggregate = BooleanQueryAggregateProof {
        expr: "(A AND B)".to_string(),
        result_fids: strings(&["f2", "f3"]),
        node_root_hashes: roots(),
        tree: tree(false, decomposition(&["f3", "f2"], &["f1"], &["f4"])),
    };
    assert!(verify_boolean_query_aggregate(&proof, &root, Some(&aggregate), &vec![true, true], &vec![true]));
    assert!(!verify_boolean_query_aggregate(&proof, &[0; 32], Some(&aggregate), &vec![true, true], &vec![true]));
    assert!(!verify_boolean_query_aggregate(&proof, &root, None, &vec![true, true], &vec![true]));
    let unsorted = BooleanQueryAggregateProof {
        expr: "(A AND B)".to_string(),
        result_fids: strings(&["f3", "f2"]),
        node_root_hashes: roots(),
        tree: tree(false, decomposition(&["f2", "f3"], &["f1"], &["f4"])),
    };
    assert!(!verify_boolean_query_aggregate(&proof, &root, Some(&unsorted), &vec![true, true], &vec![true]));
}

#[test]
fn disjointness_needs_an_empty_proof_for_an_empty_side() {
    let some = strings(&["f1"]);
    let none: Vec<String> = vec![];
    assert!(verify_disjointness_proof(&none, &some, &[], false));
    assert!(!verify_disjointness_proof(&none, &some, &[1], true));
    assert!(verify_disjointness_proof(&some, &some, &[1], true));
    assert!(!verify_disjointness_proof(&some, &some, &[1], false));
    let d = decomposition(&["f2"], &["f1"], &[]);
    assert!(verify_pairwise_disjoint(&d, (true, false, false)));
    assert!(!verify_pairwise_disjoint(&d, (false, true, true)));
}

#[test]
fn test_boolean_leaf_verification_uses_leaf_ads_mode() {
    let leaf = SetProofLeaf::new(
        "A".to_string(),
        "node-a".to_string(),
        AdsMode::Mest,
        vec![5u8; 32],
        vec![5u8; 32],
        vec!["f1".to_string()],
    );
    let mut node_root_hashes = StrMap::new();
    node_root_hashes.insert("node-a".to_string(), vec![5u8; 32]);
    let aggregate = BooleanQueryAggregateProof {
        expr: "A".to_string(),
        result_fids: vec!["f1".to_string()],
        node_root_hashes,
        tree: BooleanProofNode::Leaf(LeafKeywordProof { leaf: leaf.clone() }),
    };
    let verifier = ProofVerifier::new(AdsMode::Mpt);
    // The leaf is checked under its own mode, MEST, not the verifier's.
    let leaf_ok = leaf.verify(&verifier, verify_mest(&leaf.ads_proof, None, &leaf.root_hash), None);
    let encoded = b"BOOLP1 leaf-only aggregate".to_vec();
    let mut h = Sha256::new();
    h.update(&encoded);
    let root = h.finalize().to_vec();
    assert!(verify_boolean_query_aggregate(&encoded, &root, Some(&aggregate), &vec![leaf_ok], &vec![]));
}

#[test]
fn accepted_boolean_result_holds_only_leaf_fids() {
    let t = tree(true, decomposition(&["f2", "f3"], &["f1"], &["f4"]));
    let got = verify_boolean_node(&t, &roots(), &vec![true, true], &vec![true]).unwrap();
    let (leaves, _) = boolean_proof_parts(&t);
    let leaf_fids: Vec<String> = leaves.iter().flat_map(|l| l.fids.clone()).collect();
    assert!(!got.is_empty());
    assert!(got.iter().all(|f| leaf_fids.contains(f)));
}
