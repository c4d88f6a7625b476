use sha2::Digest;
use ads_search::types::AdsMode;
use ads_search::verification::{same_fids, verify_mest, ProofKind, ProofVerifier};

/// A MEST-mode verifier sends an unmarked proof to the MEST check; the
/// bytes below are no encoded MEST proof, so the check sees them undecoded.
fn mest_verify(proof: &[u8], root_hash: &[u8]) -> bool {
    let verifier = ProofVerifier::new(AdsMode::Mest);
    assert_eq!(verifier.proof_kind(proof), ProofKind::Ads(AdsMode::Mest));
    verify_mest(proof, None, root_hash)
}

#[test]
fn test_empty_proof_mest() {
    assert!(mest_verify(&[], &[]));
}

#[test]
fn test_valid_proof_mest() {
    let proof = vec![1u8; 32];
    let root_hash = vec![1u8; 32];
    assert!(mest_verify(&proof, &root_hash));
}

#[test]
fn test_invalid_proof_length() {
    let proof = vec![1u8; 16];
    let root_hash = vec![1u8; 32];
    assert!(!mest_verify(&proof, &root_hash));
}

#[test]
fn test_mismatched_proof_and_root_hash() {
    let proof = vec![1u8; 32];
    let root_hash = vec![2u8; 32];
    assert!(!mest_verify(&proof, &root_hash));
}

#[test]
fn test_combine_same_proofs() {
    let verifier = ProofVerifier::new(AdsMode::Mest);
    let proof1 = vec![1u8; 32];
    let proof2 = vec![1u8; 32];
    let combined = verifier.aggregate_proofs(&vec![proof1.clone(), proof2]);
    assert_eq!(combined, proof1);
}

#[test]
fn test_combine_different_proofs() {
    let verifier = ProofVerifier::new(AdsMode::Mest);
    let proof1 = vec![1u8; 32];
    let proof2 = vec![2u8; 32];
    let combined = verifier.aggregate_proofs(&vec![proof1, proof2]);
    assert_eq!(combined.len(), 32);
}

#[test]
fn test_mest_simple_root_hash_verification() {
    let simple_root: [u8; 32] = [
        0x12, 0x34, 0x56, 0x78, 0x9a, 0xbc, 0xde, 0xf0, 0x12, 0x34, 0x56, 0x78, 0x9a, 0xbc,
        0xde, 0xf0, 0x12, 0x34, 0x56, 0x78, 0x9a, 0xbc, 0xde, 0xf0, 0x12, 0x34, 0x56, 0x78,
        0x9a, 0xbc, 0xde, 0xf0,
    ];
    assert!(verify_mest(&simple_root, None, &simple_root));
}

#[test]
fn test_mest_mismatched_root_hash() {
    let simple_root: [u8; 32] = [0xaa; 32];
    let wrong_root: [u8; 32] = [0xff; 32];
    assert!(!verify_mest(&simple_root, None, &wrong_root));
}

#[test]
fn combined_proof_is_the_last_one() {
    let verifier = ProofVerifier::new(AdsMode::AccTrie);
    assert_eq!(verifier.ads_mode(), AdsMode::AccTrie);
    assert_eq!(verifier.combine_proofs(&vec![]), Vec::<u8>::new());
    assert_eq!(verifier.combine_proofs(&vec![vec![1], vec![2, 3]]), vec![2, 3]);
}

#[test]
fn marked_proofs_go_to_their_checks() {
    let verifier = ProofVerifier::new(AdsMode::Mpt);
    assert_eq!(verifier.proof_kind(b"ACCSI1xyz"), ProofKind::AccumulatorSetOperation);
    assert_eq!(verifier.proof_kind(b"POLYI1"), ProofKind::PolynomialIntersection);
    assert_eq!(verifier.proof_kind(b"BOOLP1"), ProofKind::BooleanQueryAggregate);
    assert_eq!(verifier.proof_kind(b"ACTR1..."), ProofKind::AccTree);
    assert_eq!(verifier.proof_kind(b"ACTR"), ProofKind::Ads(AdsMode::Mpt));
}

fn strings(v: &[&str]) -> Vec<String> {
    v.iter().map(|s| s.to_string()).collect()
}

#[test]
fn result_fids_compare_as_multisets() {
    assert!(same_fids(&strings(&["b", "a", "a"]), &strings(&["a", "b", "a"])));
    assert!(!same_fids(&strings(&["a", "a"]), &strings(&["a"])));
    assert!(!same_fids(&strings(&["a"]), &strings(&["a", "a"])));
    assert!(!same_fids(&strings(&["a", "b"]), &strings(&["a", "c"])));
    assert!(same_fids(&strings(&[]), &strings(&[])));
}

#[test]
fn marked_proofs_need_their_result() {
    let verifier = ProofVerifier::new(AdsMode::Mest);
    let fids = strings(&["f2", "f1"]);
    let decoded = strings(&["f1", "f2"]);
    assert!(verifier.verify_query_result_fids(b"POLYI1..", Some(&decoded), &fids));
    assert!(!verifier.verify_query_result_fids(b"POLYI1..", None, &fids));
    assert!(!verifier.verify_query_result_fids(b"BOOLP1..", Some(&strings(&["f1"])), &fids));
    assert!(verifier.verify_query_result_fids(b"plain", None, &fids));
    assert!(verifier.verify_accumulator_query_result_fids(Some(&decoded), &fids));
    assert!(!verifier.verify_accumulator_query_result_fids(None, &fids));
}

#[test]
fn combine_proofs_keeps_the_last_proof() {
    let verifier = ProofVerifier::new(AdsMode::Mest);
    assert_eq!(verifier.combine_proofs(&vec![vec![1u8, 2], vec![3u8]]), vec![3u8]);
    assert_eq!(verifier.combine_proofs(&vec![]), Vec::<u8>::new());
}

#[test]
fn aggregate_hashes_root_hashes_in_byte_order() {
    let verifier = ProofVerifier::new(AdsMode::Mpt);
    let a = vec![1u8; 32];
    let b = vec![2u8; 32];
    let ab = verifier.aggregate_proofs(&vec![b.clone(), Vec::new(), a.clone()]);
    assert_eq!(ab, verifier.aggregate_proofs(&vec![a.clone(), b.clone()]));
    let mut hasher = sha2::Sha256::new();
    hasher.update(&a);
    hasher.update(&b);
    assert_eq!(ab, hasher.finalize().to_vec());
}

#[test]
fn aggregate_frames_full_proofs() {
    let verifier = ProofVerifier::new(AdsMode::AccTrie);
    let combined = verifier.aggregate_proofs(&vec![vec![1, 2, 3], Vec::new(), vec![4]]);
    assert_eq!(combined, vec![0, 0, 0, 3, 1, 2, 3, 0, 0, 0, 1, 4]);
    assert_eq!(verifier.aggregate_proofs(&vec![]), Vec::<u8>::new());
    assert_eq!(verifier.aggregate_proofs(&vec![Vec::new()]), Vec::<u8>::new());
}
