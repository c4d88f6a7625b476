use ads_search::poly_proof::{
    build_polynomial_intersection_node, build_polynomial_intersection_proof, build_polynomial_union_node,
    checked_build_polynomial_intersection_node, checked_build_polynomial_intersection_proof,
    checked_build_polynomial_union_node, normalize_bezout_identity, verify_polynomial_intersection_aggregate,
    derive_polynomial_challenge, evaluate_transparent_polynomial, polynomial_commitment_hash,
    checked_multiply_polynomials, checked_quotient_polynomial, multiply_polynomials, quotient_polynomial, transparent_polynomial_from_coefficients, verify_transparent_polynomial,
};
use ads_search::proofs::TransparentPolynomial;
use ark_ff::PrimeField;
use ark_serialize::CanonicalSerialize;
use sha2::{Digest, Sha256};

fn enc(v: ark_bls12_381::Fr) -> Vec<u8> {
    let mut out = Vec::new();
    v.serialize(&mut out).unwrap();
    out
}

fn fr(n: u64) -> Vec<u8> {
    enc(ark_bls12_381::Fr::from(n))
}

fn minus(n: u64) -> Vec<u8> {
    enc(-ark_bls12_381::Fr::from(n))
}

#[test]
fn commitment_hashes_length_prefixed_coefficients() {
    let coeffs = vec![vec![1u8, 2], vec![3u8]];
    let mut h = Sha256::new();
    h.update(2u32.to_le_bytes());
    h.update([1u8, 2]);
    h.update(1u32.to_le_bytes());
    h.update([3u8]);
    assert_eq!(polynomial_commitment_hash(&coeffs), h.finalize().to_vec());
}

#[test]
fn transparent_polynomial_round_trip_and_evaluation() {
    let p = transparent_polynomial_from_coefficients(vec![fr(1), fr(2), fr(0)]).unwrap();
    assert_eq!(p.coefficients, vec![fr(1), fr(2)]);
    assert_eq!(p.commitment, polynomial_commitment_hash(&p.coefficients));
    assert!(verify_transparent_polynomial(&p));
    assert_eq!(evaluate_transparent_polynomial(&p, &fr(3)).unwrap(), fr(7));
    let mut tampered = p.clone();
    tampered.commitment[0] ^= 1;
    assert!(!verify_transparent_polynomial(&tampered));
    assert_eq!(
        evaluate_transparent_polynomial(&tampered, &fr(3)),
        Err("transparent polynomial commitment mismatch".to_string())
    );
}

#[test]
fn unreadable_coefficients_are_refused() {
    let err = transparent_polynomial_from_coefficients(vec![fr(1), vec![0xff; 32]]).unwrap_err();
    assert!(err.starts_with("deserialize Fr failed"));
    let p = transparent_polynomial_from_coefficients(vec![fr(1)]).unwrap();
    assert!(evaluate_transparent_polynomial(&p, &[1, 2]).unwrap_err().starts_with("deserialize Fr failed"));
    let raw = TransparentPolynomial {
        commitment: polynomial_commitment_hash(&vec![fr(1), fr(0)]),
        coefficients: vec![fr(1), fr(0)],
    };
    assert!(!verify_transparent_polynomial(&raw));
}

#[test]
fn exact_division_gives_the_quotient() {
    let num = transparent_polynomial_from_coefficients(vec![minus(1), fr(0), fr(1)]).unwrap();
    let den = transparent_polynomial_from_coefficients(vec![minus(1), fr(1)]).unwrap();
    let q = quotient_polynomial(&num, &den).unwrap();
    assert_eq!(q.coefficients, vec![fr(1), fr(1)]);
    assert!(verify_transparent_polynomial(&q));
    let x2 = transparent_polynomial_from_coefficients(vec![fr(0), fr(0), fr(1)]).unwrap();
    assert_eq!(
        quotient_polynomial(&x2, &den),
        Err("polynomial division has non-zero remainder".to_string())
    );
    let zero = transparent_polynomial_from_coefficients(vec![fr(0)]).unwrap();
    assert!(zero.coefficients.is_empty());
    assert_eq!(checked_quotient_polynomial(&x2, &zero), None);
    let q0 = checked_quotient_polynomial(&zero, &zero).unwrap().unwrap();
    assert!(q0.coefficients.is_empty());
    assert_eq!(checked_quotient_polynomial(&num, &den), Some(Ok(q.clone())));
}

#[test]
fn challenge_hashes_commitments_into_the_field() {
    let a = transparent_polynomial_from_coefficients(vec![fr(5)]).unwrap();
    let b = transparent_polynomial_from_coefficients(vec![fr(6), fr(7)]).unwrap();
    let mut h = Sha256::new();
    h.update(&a.commitment);
    h.update(&b.commitment);
    let expected = enc(ark_bls12_381::Fr::from_le_bytes_mod_order(&h.finalize()));
    assert_eq!(derive_polynomial_challenge(&[&a, &b]), expected);
}

use ads_search::poly_proof::{polynomial_leaves, verify_polynomial_set_node};
use ads_search::proofs::{
    polynomial_intersection_root_hash, PolynomialIntersectionAggregateProof, PolynomialIntersectionLeafProof, PolynomialIntersectionNodeProof, PolynomialSetProofNode,
    PolynomialUnionNodeProof, SetProofLeaf,
};
use ads_search::types::AdsMode;
use ads_search::verification::{verify_mest, ProofVerifier};

fn tp(coeffs: Vec<Vec<u8>>) -> TransparentPolynomial {
    transparent_polynomial_from_coefficients(coeffs).unwrap()
}

fn leaf_node(keyword: &str, poly: TransparentPolynomial) -> PolynomialSetProofNode {
    PolynomialSetProofNode::Leaf(PolynomialIntersectionLeafProof {
        leaf: SetProofLeaf::new(keyword.to_string(), "n1".to_string(), AdsMode::Mest, vec![], vec![], vec![]),
        set_polynomial: poly,
    })
}

/// Left = (x-1)(x-2), right = (x-1)(x-3): they share x-1; the quotients
/// x-2 and x-3 satisfy 1·(x-2) + (-1)·(x-3) = 1.
fn parts() -> [TransparentPolynomial; 7] {
    [
        tp(vec![fr(2), minus(3), fr(1)]),
        tp(vec![fr(3), minus(4), fr(1)]),
        tp(vec![minus(1), fr(1)]),
        tp(vec![minus(2), fr(1)]),
        tp(vec![minus(3), fr(1)]),
        tp(vec![fr(1)]),
        tp(vec![minus(1)]),
    ]
}

fn and_node(tamper: bool) -> PolynomialSetProofNode {
    let [l, r, i, ql, qr, u, v] = parts();
    let set = i.clone();
    let mut challenge = derive_polynomial_challenge(&[&l, &r, &set, &i, &ql, &qr, &u, &v]);
    if tamper {
        challenge[0] ^= 1;
    }
    PolynomialSetProofNode::And(Box::new(PolynomialIntersectionNodeProof {
        set_polynomial: set,
        intersection_polynomial: i,
        left: leaf_node("A", l),
        right: leaf_node("B", r),
        quotient_left: ql,
        quotient_right: qr,
        bezout_u: u,
        bezout_v: v,
        challenge_point: challenge,
    }))
}

#[test]
fn intersection_node_checks_its_identities() {
    let node = and_node(false);
    let [_, _, i, ..] = parts();
    assert_eq!(verify_polynomial_set_node(&node, &vec![true, true]), Some(i));
    assert_eq!(verify_polynomial_set_node(&node, &vec![true, false]), None);
    assert_eq!(verify_polynomial_set_node(&node, &vec![true]), None);
    assert_eq!(verify_polynomial_set_node(&and_node(true), &vec![true, true]), None);
    let leaves = polynomial_leaves(&node);
    assert_eq!(leaves.len(), 2);
    assert_eq!(leaves[0].keyword, "A");
    assert_eq!(leaves[1].keyword, "B");
}

#[test]
fn union_node_checks_its_identities() {
    let [l, r, i, ql, qr, u, v] = parts();
    let union = tp(vec![minus(6), fr(11), minus(6), fr(1)]);
    let challenge = derive_polynomial_challenge(&[&l, &r, &union, &i, &ql, &qr, &u, &v]);
    let node = PolynomialSetProofNode::Or(Box::new(PolynomialUnionNodeProof {
        set_polynomial: union.clone(),
        intersection_polynomial: i.clone(),
        left: leaf_node("A", l.clone()),
        right: leaf_node("B", r.clone()),
        quotient_left: ql.clone(),
        quotient_right: qr.clone(),
        bezout_u: u.clone(),
        bezout_v: v.clone(),
        challenge_point: challenge,
    }));
    assert_eq!(verify_polynomial_set_node(&node, &vec![true, true]), Some(union));
    let wrong = PolynomialSetProofNode::Or(Box::new(PolynomialUnionNodeProof {
        set_polynomial: i.clone(),
        intersection_polynomial: i.clone(),
        left: leaf_node("A", l.clone()),
        right: leaf_node("B", r.clone()),
        quotient_left: ql.clone(),
        quotient_right: qr.clone(),
        bezout_u: u.clone(),
        bezout_v: v.clone(),
        challenge_point: derive_polynomial_challenge(&[&l, &r, &i, &i, &ql, &qr, &u, &v]),
    }));
    assert_eq!(verify_polynomial_set_node(&wrong, &vec![true, true]), None);
}

#[test]
fn nested_nodes_consume_leaf_verdicts_in_order() {
    let inner = and_node(false);
    let [_, _, i, ..] = parts();
    let c = tp(vec![minus(1), fr(1)]);
    let one = tp(vec![fr(1)]);
    let zero_u = tp(vec![fr(1)]);
    let zero_v = tp(vec![]);
    let challenge = derive_polynomial_challenge(&[&i, &c, &i, &i, &one, &one, &zero_u, &zero_v]);
    let node = PolynomialSetProofNode::And(Box::new(PolynomialIntersectionNodeProof {
        set_polynomial: i.clone(),
        intersection_polynomial: i.clone(),
        left: inner,
        right: leaf_node("C", c),
        quotient_left: one.clone(),
        quotient_right: one,
        bezout_u: zero_u,
        bezout_v: zero_v,
        challenge_point: challenge,
    }));
    assert_eq!(polynomial_leaves(&node).len(), 3);
    assert_eq!(verify_polynomial_set_node(&node, &vec![true, true, true]), Some(i));
    assert_eq!(verify_polynomial_set_node(&node, &vec![true, true, false]), None);
}

#[test]
fn product_multiplies_coefficients() {
    let a = transparent_polynomial_from_coefficients(vec![fr(1), fr(1)]).unwrap();
    let b = transparent_polynomial_from_coefficients(vec![fr(2), fr(1)]).unwrap();
    let p = multiply_polynomials(&a, &b).unwrap();
    assert_eq!(p.coefficients, vec![fr(2), fr(3), fr(1)]);
    assert_eq!(p.commitment, polynomial_commitment_hash(&p.coefficients));
    assert!(verify_transparent_polynomial(&p));
    let c = transparent_polynomial_from_coefficients(vec![minus(1), fr(1)]).unwrap();
    let d = transparent_polynomial_from_coefficients(vec![fr(1), fr(1)]).unwrap();
    assert_eq!(multiply_polynomials(&c, &d).unwrap().coefficients, vec![minus(1), fr(0), fr(1)]);
}

#[test]
fn product_with_zero_and_tampered_factors() {
    let zero = transparent_polynomial_from_coefficients(vec![]).unwrap();
    let a = transparent_polynomial_from_coefficients(vec![fr(5), fr(1)]).unwrap();
    let p = multiply_polynomials(&zero, &a).unwrap();
    assert!(p.coefficients.is_empty());
    assert_eq!(checked_multiply_polynomials(&zero, &zero), None);
    assert_eq!(checked_multiply_polynomials(&a, &a), Some(multiply_polynomials(&a, &a)));
    let mut bad = a.clone();
    bad.commitment[0] ^= 1;
    assert_eq!(
        multiply_polynomials(&bad, &a),
        Err("transparent polynomial commitment mismatch".to_string())
    );
}

fn xgcd(g: u64, u: u64, v_neg: u64) -> Option<(Vec<Vec<u8>>, Vec<Vec<u8>>, Vec<Vec<u8>>)> {
    Some((vec![fr(g)], vec![fr(u)], vec![minus(v_neg)]))
}

#[test]
fn bezout_coefficients_are_scaled_by_the_gcd_inverse() {
    let [_, _, _, ql, qr, u, v] = parts();
    let (nu, nv) = normalize_bezout_identity(&ql, &qr, &xgcd(2, 2, 2)).unwrap();
    assert_eq!(nu, u);
    assert_eq!(nv, v);
    assert_eq!(
        normalize_bezout_identity(&ql, &qr, &None),
        Err("extended gcd for quotient polynomials failed".to_string())
    );
    assert_eq!(
        normalize_bezout_identity(&ql, &qr, &Some((vec![], vec![], vec![]))),
        Err("gcd is zero".to_string())
    );
    assert_eq!(
        normalize_bezout_identity(&ql, &qr, &Some((vec![fr(0)], vec![], vec![]))),
        Err("gcd is zero".to_string())
    );
    assert_eq!(
        normalize_bezout_identity(&ql, &qr, &Some((vec![fr(1), fr(1)], vec![], vec![]))),
        Err("quotient polynomials are not coprime".to_string())
    );
    let mut bad = ql.clone();
    bad.commitment[0] ^= 1;
    assert_eq!(
        normalize_bezout_identity(&bad, &qr, &xgcd(1, 1, 1)),
        Err("transparent polynomial commitment mismatch".to_string())
    );
}

#[test]
fn built_intersection_node_verifies() {
    let [l, r, i, ..] = parts();
    let built = build_polynomial_intersection_node(leaf_node("A", l.clone()), leaf_node("B", r.clone()), i.clone(), xgcd(2, 2, 2))
        .unwrap();
    let node = PolynomialSetProofNode::And(Box::new(built));
    assert_eq!(node, and_node(false));
    assert_eq!(verify_polynomial_set_node(&node, &vec![true, true]), Some(i.clone()));
    let proof = build_polynomial_intersection_proof(
        "(A AND B)".to_string(),
        vec!["f1".to_string()],
        leaf_node("A", l.clone()),
        leaf_node("B", r.clone()),
        i.clone(),
        xgcd(1, 1, 1),
    )
    .unwrap();
    assert_eq!(proof.expr, "(A AND B)");
    assert_eq!(proof.result_fids, vec!["f1".to_string()]);
    assert_eq!(proof.root, and_node(false));
}

#[test]
fn intersection_node_build_errors() {
    let [l, r, i, ..] = parts();
    let other = tp(vec![minus(5), fr(1)]);
    assert_eq!(
        build_polynomial_intersection_node(leaf_node("A", l.clone()), leaf_node("B", r.clone()), other, xgcd(1, 1, 1)),
        Err("polynomial division has non-zero remainder".to_string())
    );
    assert_eq!(
        build_polynomial_intersection_node(leaf_node("A", l.clone()), leaf_node("B", r.clone()), i.clone(), None),
        Err("extended gcd for quotient polynomials failed".to_string())
    );
    let zero = tp(vec![]);
    assert_eq!(checked_build_polynomial_intersection_node(leaf_node("A", l.clone()), leaf_node("B", r.clone()), zero.clone(), None), None);
    assert_eq!(
        checked_build_polynomial_intersection_proof("q".to_string(), vec![], leaf_node("A", l.clone()), leaf_node("B", r.clone()), zero, None),
        None
    );
    let ok = checked_build_polynomial_intersection_node(leaf_node("A", l), leaf_node("B", r), i, xgcd(1, 1, 1));
    assert!(matches!(ok, Some(Ok(_))));
}

#[test]
fn built_union_node_verifies_and_checks_its_result() {
    let [l, r, i, ..] = parts();
    let union = tp(vec![minus(6), fr(11), minus(6), fr(1)]);
    let built = build_polynomial_union_node(
        leaf_node("A", l.clone()),
        leaf_node("B", r.clone()),
        i.clone(),
        union.clone(),
        xgcd(3, 3, 3),
    )
    .unwrap();
    let node = PolynomialSetProofNode::Or(Box::new(built));
    assert_eq!(verify_polynomial_set_node(&node, &vec![true, true]), Some(union.clone()));
    assert_eq!(
        build_polynomial_union_node(leaf_node("A", l.clone()), leaf_node("B", r.clone()), i.clone(), i.clone(), xgcd(1, 1, 1)),
        Err("union polynomial does not match the provided result set".to_string())
    );
    let zero = tp(vec![]);
    assert_eq!(
        checked_build_polynomial_union_node(leaf_node("A", l.clone()), leaf_node("B", r.clone()), zero, union.clone(), None),
        None
    );
    assert!(matches!(
        checked_build_polynomial_union_node(leaf_node("A", l), leaf_node("B", r), i, union, xgcd(1, 1, 1)),
        Some(Ok(_))
    ));
}

#[test]
fn test_polynomial_leaf_verification_uses_leaf_ads_mode() {
    // The characteristic polynomial of {f1}: the leaf carries it and the
    // result names f1, so both sides are this polynomial.
    let set_polynomial = tp(vec![minus(11), fr(1)]);
    let leaf = SetProofLeaf::new(
        "A".to_string(),
        "n1".to_string(),
        AdsMode::Mest,
        vec![7u8; 32],
        vec![7u8; 32],
        vec!["f1".to_string()],
    );
    let proof = PolynomialIntersectionAggregateProof {
        expr: "A".to_string(),
        result_fids: vec!["f1".to_string()],
        root: PolynomialSetProofNode::Leaf(PolynomialIntersectionLeafProof {
            leaf: leaf.clone(),
            set_polynomial: set_polynomial.clone(),
        }),
    };
    let verifier = ProofVerifier::new(AdsMode::Mpt);
    // The leaf is checked under its own mode, MEST, not the verifier's.
    let leaf_ok = leaf.verify(&verifier, verify_mest(&leaf.ads_proof, None, &leaf.root_hash), None);
    let encoded = b"POLYI1 leaf-only aggregate".to_vec();
    assert!(verify_polynomial_intersection_aggregate(
        &encoded,
        &polynomial_intersection_root_hash(&encoded),
        Some(&proof),
        &vec![leaf_ok],
        Some(&set_polynomial),
    ));
    assert!(!verify_polynomial_intersection_aggregate(
        &encoded,
        &polynomial_intersection_root_hash(&encoded),
        Some(&proof),
        &vec![leaf_ok],
        None,
    ));
}
