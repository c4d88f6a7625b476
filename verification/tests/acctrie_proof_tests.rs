use ads_search::acctrie_proof::{verify_acctrie, MembershipClaim};
use ads_search::verification::{
    verify_mest, verify_mest_proof_internal, BucketProof, MerklePathElement, MestProof,
    MgtPathElement, MgtProof, SiblingElement,
};
use ark_serialize::CanonicalSerialize;
use sha2::{Digest, Sha256};

fn sha(parts: &[&[u8]]) -> Vec<u8> {
    let mut h = Sha256::new();
    for p in parts {
        h.update(p);
    }
    h.finalize().to_vec()
}

fn g1() -> Vec<u8> {
    let mut out = Vec::new();
    ark_bls12_381::G1Affine::default().serialize_uncompressed(&mut out).unwrap();
    out
}

fn fr(n: u64) -> Vec<u8> {
    let mut out = Vec::new();
    ark_bls12_381::Fr::from(n).serialize_uncompressed(&mut out).unwrap();
    out
}

fn lp(bytes: &[u8]) -> Vec<u8> {
    let mut out = (bytes.len() as u32).to_le_bytes().to_vec();
    out.extend_from_slice(bytes);
    out
}

fn membership(w: &[u8], e: &[u8]) -> Vec<u8> {
    let mut out = vec![1u8];
    out.extend(lp(w));
    out.extend(lp(e));
    out
}

fn snapshot(accs: &[Vec<u8>]) -> Vec<u8> {
    let mut out = (accs.len() as u32).to_le_bytes().to_vec();
    for a in accs {
        out.extend(lp(a));
    }
    out
}

fn claim_parts(c: &MembershipClaim) -> (Vec<u8>, Vec<u8>, Vec<u8>) {
    (c.witness.clone(), c.element.clone(), c.accumulator.clone())
}

fn query_proof_for_existing_key(acc: &[u8]) -> Vec<u8> {
    let mut p = vec![3u8, 1u8];
    p.extend(lp(b"alpha"));
    p.extend(lp(b"file-1"));
    p.extend(7u64.to_le_bytes());
    p.extend(lp(&g1()));
    p.extend(membership(&g1(), &fr(1)));
    p.extend(membership(&g1(), &fr(2)));
    p.push(1);
    p.extend(lp(&g1()));
    p.extend(membership(&g1(), &fr(3)));
    p.extend(snapshot(&[acc.to_vec()]));
    p
}

#[test]
fn query_proof_yields_its_three_claims() {
    let acc = vec![9u8; 40];
    let proof = query_proof_for_existing_key(&acc);
    let root = sha(&[&acc]);
    let claims = verify_acctrie(&proof, &root).expect("accepted layout");
    assert_eq!(claims.len(), 3);
    assert_eq!(claim_parts(&claims[0]), (g1(), fr(1), g1()));
    assert_eq!(claim_parts(&claims[2]), (g1(), fr(3), g1()));
    assert!(verify_acctrie(&proof, &[]).is_some());
    assert!(verify_acctrie(&proof, &[0u8; 32]).is_none());
    assert!(verify_acctrie(&proof, &root[..31]).is_none());
}

#[test]
fn query_proof_with_bad_element_is_rejected() {
    let acc = vec![9u8; 40];
    let mut proof = vec![3u8, 1u8];
    proof.extend(lp(b"alpha"));
    proof.extend(lp(b"file-1"));
    proof.extend(7u64.to_le_bytes());
    proof.extend(lp(&g1()));
    proof.extend(membership(&g1(), &[0xffu8; 32]));
    proof.extend(snapshot(&[acc.clone()]));
    assert!(verify_acctrie(&proof, &sha(&[&acc])).is_none());
}

fn insertion_proof() -> Vec<u8> {
    let mut p = vec![1u8];
    p.extend(lp(b"key"));
    p.extend(lp(b"value"));
    p.push(0);
    p.push(0);
    p.extend(lp(&g1()));
    p.extend(lp(&g1()));
    p.push(0);
    p.push(1);
    p.extend(lp(&g1()));
    p.push(0);
    p.extend(membership(&g1(), &fr(4)));
    for _ in 0..5 {
        p.push(0);
    }
    p
}

#[test]
fn insertion_proof_without_snapshot_needs_no_root() {
    let proof = insertion_proof();
    let claims = verify_acctrie(&proof, &[]).expect("accepted layout");
    assert_eq!(claims.len(), 1);
    assert_eq!(claim_parts(&claims[0]), (g1(), fr(4), g1()));
    assert!(verify_acctrie(&proof, &[1u8; 32]).is_none());
}

#[test]
fn short_insertion_proof_is_rejected() {
    let proof = insertion_proof();
    assert!(verify_acctrie(&proof[..99], &[]).is_none());
}

#[test]
fn deletion_proof_skips_undecodable_neighbour() {
    let mut p = vec![2u8];
    p.extend(lp(b"key"));
    p.push(1);
    p.push(0);
    p.push(0);
    p.push(0);
    p.extend(lp(&g1()));
    p.push(0);
    p.push(1);
    p.extend(lp(&[0xffu8; 96]));
    p.push(0);
    p.extend(membership(&g1(), &fr(5)));
    p.push(0);
    p.extend(membership(&g1(), &fr(6)));
    p.push(0);
    p.extend(snapshot(&[]));
    let root = sha(&[b"empty_acctrie"]);
    let claims = verify_acctrie(&p, &root).expect("accepted layout");
    assert_eq!(claims.len(), 1);
    assert_eq!(claim_parts(&claims[0]), (g1(), fr(5), g1()));
}

#[test]
fn batch_proof_collects_item_claims() {
    let item = insertion_proof();
    let mut p = vec![16u8];
    p.extend(1u32.to_le_bytes());
    p.extend(lp(&item));
    let acc = vec![3u8; 8];
    p.extend(snapshot(&[acc.clone()]));
    assert_eq!(verify_acctrie(&p, &[]).unwrap().len(), 1);
    assert_eq!(verify_acctrie(&p, &sha(&[&acc])).unwrap().len(), 1);
    assert!(verify_acctrie(&p, &[0u8; 32]).is_none());
    let mut empty_batch = vec![16u8];
    empty_batch.extend(0u32.to_le_bytes());
    assert!(verify_acctrie(&empty_batch, &[]).is_none());
}

#[test]
fn acctrie_kinds() {
    assert_eq!(verify_acctrie(&[], &[1, 2, 3]).unwrap().len(), 0);
    assert!(verify_acctrie(&[1], &[]).is_none());
    assert!(verify_acctrie(&[9, 0, 0, 0], &[]).is_none());
}

fn mest_fixture() -> (MestProof, Vec<u8>) {
    let sibling = vec![5u8; 32];
    let seg = sha(&[&sibling, &sha(&[b"v1"])]);
    let other = vec![6u8; 32];
    let leaf = sha(&[&seg, &other]);
    let a = vec![7u8; 32];
    let c = vec![8u8; 32];
    let root = sha(&[&a, &leaf, &c]);
    let proof = MestProof {
        is_exist: true,
        key: "k".to_string(),
        bucket_proof: BucketProof {
            value: "v1".to_string(),
            seg_root_hash: seg.clone(),
            merkle_path: vec![MerklePathElement { direction: 0, sibling_hash: sibling }],
            leaf_segment_roots: vec![seg, other],
        },
        mgt_proof: MgtProof {
            root_hash: root.clone(),
            path: vec![MgtPathElement {
                level: 0,
                child_index: 1,
                node_hash: vec![],
                sub_siblings: vec![SiblingElement { index: 0, hash: a }],
                cached_siblings: vec![SiblingElement { index: 2, hash: c }],
            }],
        },
    };
    (proof, root)
}

#[test]
fn mest_proof_checks_bucket_and_mgt_paths() {
    let (proof, root) = mest_fixture();
    assert!(verify_mest_proof_internal(&proof));
    assert!(verify_mest(&[1], Some(&proof), &root));
    assert!(verify_mest(&[1], Some(&proof), &[]));
    assert!(!verify_mest(&[1], Some(&proof), &[0u8; 32]));
    let (mut tampered, root) = mest_fixture();
    tampered.bucket_proof.value = "v2".to_string();
    assert!(!verify_mest(&[1], Some(&tampered), &root));
}

#[test]
fn mest_mgt_children_are_ordered_by_index() {
    let (mut proof, _) = mest_fixture();
    let a = vec![7u8; 32];
    let c = vec![8u8; 32];
    let leaf = sha(&[&proof.bucket_proof.leaf_segment_roots[0], &proof.bucket_proof.leaf_segment_roots[1]]);
    proof.mgt_proof.path[0].child_index = 0;
    proof.mgt_proof.path[0].sub_siblings[0].index = 3;
    proof.mgt_proof.root_hash = sha(&[&leaf, &a, &c]);
    assert!(verify_mest_proof_internal(&proof));
}

#[test]
fn mest_bytes_that_do_not_decode() {
    let root = vec![4u8; 32];
    assert!(verify_mest(&[], None, &root));
    assert!(verify_mest(&root, None, &root));
    assert!(verify_mest(&root, None, &[]));
    assert!(!verify_mest(&root[..31], None, &[]));
    assert!(!verify_mest(&[5u8; 32], None, &root));
}
