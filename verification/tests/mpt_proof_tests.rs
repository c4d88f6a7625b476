use ads_search::mpt_proof::{mpt_proof_value, verify_full_mpt_proof, verify_mpt, MptProofElement, MptProofView};

fn element(proof_type: u8, value: &[u8]) -> MptProofElement {
    MptProofElement { proof_type, value: value.to_vec() }
}

const EMPTY_TRIE_ROOT: [u8; 32] = [
    0xe3, 0xb0, 0xc4, 0x42, 0x98, 0xfc, 0x1c, 0x14, 0x9a, 0xfb, 0xf4, 0xc8, 0x99, 0x6f, 0xb9, 0x24, 0x27, 0xae,
    0x41, 0xe4, 0x64, 0x9b, 0x93, 0x4c, 0xa4, 0x95, 0x99, 0x1b, 0x78, 0x52, 0xb8, 0x55,
];

#[test]
fn value_comes_from_the_leaf_else_the_first_valued_element() {
    let p = MptProofView { is_exist: true, proofs: vec![element(1, b"branch"), element(0, b"f1,f2")] };
    assert_eq!(mpt_proof_value(&p), b"f1,f2".to_vec());
    let p = MptProofView { is_exist: true, proofs: vec![element(2, b""), element(0, b""), element(1, b"ext")] };
    assert_eq!(mpt_proof_value(&p), b"ext".to_vec());
    let p = MptProofView { is_exist: false, proofs: vec![element(0, b"f1")] };
    assert!(mpt_proof_value(&p).is_empty());
    let p = MptProofView { is_exist: true, proofs: vec![] };
    assert!(mpt_proof_value(&p).is_empty());
}

#[test]
fn computed_root_must_match_the_root_hash() {
    let root = [7u8; 32];
    assert!(verify_full_mpt_proof(&root, &root));
    assert!(!verify_full_mpt_proof(&root, &[8u8; 32]));
    assert!(verify_full_mpt_proof(&[], &[8u8; 32]));
    assert!(!verify_full_mpt_proof(&[7u8; 31], &[7u8; 31]));
    assert!(verify_full_mpt_proof(&[0u8; 32], &EMPTY_TRIE_ROOT));
    assert!(verify_full_mpt_proof(&[0u8; 32], &[0u8; 32]));
    assert!(!verify_full_mpt_proof(&[0u8; 32], &[1u8; 32]));
}

#[test]
fn empty_proof_passes_and_undecodable_fails() {
    assert!(verify_mpt(&[], None, &[1u8; 32]));
    assert!(!verify_mpt(&[1, 2, 3], None, &[1u8; 32]));
    assert!(verify_mpt(&[1, 2, 3], Some(&[1u8; 32]), &[1u8; 32]));
    assert!(verify_mpt(&[1, 2, 3], Some(&[2u8; 32]), &[]));
}
