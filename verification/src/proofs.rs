//! Proof envelopes: the magic bytes that tell the kinds of proof apart, the
//! digests that stand for a proof's root, and the shapes of the aggregate
//! proofs exchanged between manager and clients.
use vstd::prelude::*;
use sha2::Digest;
use crate::assoc::StrMap;
use crate::types::AdsMode;

verus! {

/// The SHA-256 digest of a byte string.
pub uninterp spec fn sha256_spec(bytes: Seq<u8>) -> Seq<u8>;

/// `sha2::Sha256` fed with `bytes` and finalized: a pure function of its
/// input, 32 bytes long; its value is left to the name `sha256_spec`.
#[verifier::external_body]
pub(crate) fn sha256(bytes: &[u8]) -> (r: Vec<u8>)
    ensures
        r@ == sha256_spec(bytes@),
        r@.len() == 32,
{
    let mut hasher = sha2::Sha256::new();
    hasher.update(bytes);
    hasher.finalize().to_vec()
}

/// `data` starts with `prefix`.
pub open spec fn bytes_start_with(data: Seq<u8>, prefix: Seq<u8>) -> bool {
    prefix.len() <= data.len() && data.take(prefix.len() as int) == prefix
}

fn starts_with_bytes(data: &[u8], prefix: &[u8]) -> (r: bool)
    ensures
        r == bytes_start_with(data@, prefix@),
{
    if prefix.len() > data.len() {
        return false;
    }
    let mut i: usize = 0;
    while i < prefix.len()
        invariant
            i <= prefix@.len() <= data@.len(),
            forall|j: int| 0 <= j < i ==> data@[j] == prefix@[j],
        decreases prefix@.len() - i,
    {
        if data[i] != prefix[i] {
            assert(data@.take(prefix@.len() as int)[i as int] != prefix@[i as int]);
            return false;
        }
        i = i + 1;
    }
    assert(data@.take(prefix@.len() as int) =~= prefix@);
    true
}

/// `ACTR1`, the mark of an accumulator-tree proof.
pub open spec fn acctree_magic() -> Seq<u8> {
    seq![65u8, 67u8, 84u8, 82u8, 49u8]
}

/// `ACCSI1`, the mark of an accumulator set-operation proof.
pub open spec fn accumulator_set_magic() -> Seq<u8> {
    seq![65u8, 67u8, 67u8, 83u8, 73u8, 49u8]
}

/// `BOOLP1`, the mark of a boolean query aggregate proof.
pub open spec fn boolean_query_magic() -> Seq<u8> {
    seq![66u8, 79u8, 79u8, 76u8, 80u8, 49u8]
}

/// `POLYI1`, the mark of a polynomial set-operation proof.
pub open spec fn polynomial_magic() -> Seq<u8> {
    seq![80u8, 79u8, 76u8, 89u8, 73u8, 49u8]
}

/// Whether the proof carries the accumulator-tree mark.
pub fn is_acctree_proof(proof: &[u8]) -> (r: bool)
    ensures
        r == bytes_start_with(proof@, acctree_magic()),
{
    let magic: Vec<u8> = vec![65u8, 67u8, 84u8, 82u8, 49u8];
    assert(magic@ =~= acctree_magic());
    starts_with_bytes(proof, magic.as_slice())
}

/// Whether the proof carries the accumulator set-operation mark.
pub fn is_accumulator_set_operation_proof(proof: &[u8]) -> (r: bool)
    ensures
        r == bytes_start_with(proof@, accumulator_set_magic()),
{
    let magic: Vec<u8> = vec![65u8, 67u8, 67u8, 83u8, 73u8, 49u8];
    assert(magic@ =~= accumulator_set_magic());
    starts_with_bytes(proof, magic.as_slice())
}

/// Whether the proof carries the boolean query aggregate mark.
pub fn is_boolean_query_aggregate_proof(proof: &[u8]) -> (r: bool)
    ensures
        r == bytes_start_with(proof@, boolean_query_magic()),
{
    let magic: Vec<u8> = vec![66u8, 79u8, 79u8, 76u8, 80u8, 49u8];
    assert(magic@ =~= boolean_query_magic());
    starts_with_bytes(proof, magic.as_slice())
}

/// Whether the proof carries the polynomial set-operation mark.
pub fn is_polynomial_intersection_proof(proof: &[u8]) -> (r: bool)
    ensures
        r == bytes_start_with(proof@, polynomial_magic()),
{
    let magic: Vec<u8> = vec![80u8, 79u8, 76u8, 89u8, 73u8, 49u8];
    assert(magic@ =~= polynomial_magic());
    starts_with_bytes(proof, magic.as_slice())
}

/// The digest of an accumulator-tree proof: SHA-256 of its bytes.
pub fn acctree_proof_digest(proof: &[u8]) -> (r: Vec<u8>)
    ensures
        r@ == sha256_spec(proof@),
        r@.len() == 32,
{
    sha256(proof)
}

/// The root hash of an accumulator set-operation proof: SHA-256 of its bytes.
pub fn accumulator_set_operation_root_hash(proof: &[u8]) -> (r: Vec<u8>)
    ensures
        r@ == sha256_spec(proof@),
        r@.len() == 32,
{
    sha256(proof)
}

/// The root hash of a boolean query aggregate proof: SHA-256 of its bytes.
pub fn boolean_query_aggregate_root_hash(proof: &[u8]) -> (r: Vec<u8>)
    ensures
        r@ == sha256_spec(proof@),
        r@.len() == 32,
{
    sha256(proof)
}

/// The root hash of a polynomial set-operation proof: SHA-256 of its bytes.
pub fn polynomial_intersection_root_hash(proof: &[u8]) -> (r: Vec<u8>)
    ensures
        r@ == sha256_spec(proof@),
        r@.len() == 32,
{
    sha256(proof)
}

/// One keyword's query result from one storage node, with the ADS proof
/// that backs it.
#[derive(Debug, Clone, PartialEq, Eq)]
pub struct SetProofLeaf {
    pub keyword: String,
    pub node_name: String,
    pub ads_mode: AdsMode,
    pub root_hash: Vec<u8>,
    pub ads_proof: Vec<u8>,
    pub fids: Vec<String>,
}

impl SetProofLeaf {
    pub fn new(
        keyword: String,
        node_name: String,
        ads_mode: AdsMode,
        root_hash: Vec<u8>,
        ads_proof: Vec<u8>,
        fids: Vec<String>,
    ) -> (leaf: Self)
        ensures
            leaf.keyword == keyword,
            leaf.node_name == node_name,
            leaf.ads_mode == ads_mode,
            leaf.root_hash == root_hash,
            leaf.ads_proof == ads_proof,
            leaf.fids == fids,
    {
        SetProofLeaf { keyword, node_name, ads_mode, root_hash, ads_proof, fids }
    }
}

/// A polynomial given by its serialized coefficients, with a commitment to
/// them.
#[derive(Debug, Clone, PartialEq, Eq)]
pub struct TransparentPolynomial {
    pub commitment: Vec<u8>,
    pub coefficients: Vec<Vec<u8>>,
}

#[derive(Debug, Clone, PartialEq, Eq)]
pub struct PolynomialIntersectionLeafProof {
    pub leaf: SetProofLeaf,
    pub set_polynomial: TransparentPolynomial,
}

/// A node of a polynomial set-operation proof tree.
#[derive(Debug, PartialEq, Eq)]
pub enum PolynomialSetProofNode {
    Leaf(PolynomialIntersectionLeafProof),
    And(Box<PolynomialIntersectionNodeProof>),
    Or(Box<PolynomialUnionNodeProof>),
}

#[derive(Debug, PartialEq, Eq)]
pub struct PolynomialIntersectionNodeProof {
    pub set_polynomial: TransparentPolynomial,
    pub intersection_polynomial: TransparentPolynomial,
    pub left: PolynomialSetProofNode,
    pub right: PolynomialSetProofNode,
    pub quotient_left: TransparentPolynomial,
    pub quotient_right: TransparentPolynomial,
    pub bezout_u: TransparentPolynomial,
    pub bezout_v: TransparentPolynomial,
    pub challenge_point: Vec<u8>,
}

#[derive(Debug, PartialEq, Eq)]
pub struct PolynomialUnionNodeProof {
    pub set_polynomial: TransparentPolynomial,
    pub intersection_polynomial: TransparentPolynomial,
    pub left: PolynomialSetProofNode,
    pub right: PolynomialSetProofNode,
    pub quotient_left: TransparentPolynomial,
    pub quotient_right: TransparentPolynomial,
    pub bezout_u: TransparentPolynomial,
    pub bezout_v: TransparentPolynomial,
    pub challenge_point: Vec<u8>,
}

#[derive(Debug, PartialEq, Eq)]
pub struct PolynomialIntersectionAggregateProof {
    pub expr: String,
    pub result_fids: Vec<String>,
    pub root: PolynomialSetProofNode,
}

/// The polynomial of the set a node stands for.
pub fn polynomial_for_node(node: &PolynomialSetProofNode) -> (p: &TransparentPolynomial)
    ensures
        p == match node {
            PolynomialSetProofNode::Leaf(leaf) => &leaf.set_polynomial,
            PolynomialSetProofNode::And(binary) => &binary.set_polynomial,
            PolynomialSetProofNode::Or(binary) => &binary.set_polynomial,
        },
{
    match node {
        PolynomialSetProofNode::Leaf(leaf) => &leaf.set_polynomial,
        PolynomialSetProofNode::And(binary) => &binary.set_polynomial,
        PolynomialSetProofNode::Or(binary) => &binary.set_polynomial,
    }
}

/// The proof of a boolean query: the expression, its result and one proof
/// node per operator.
#[derive(Debug)]
pub struct BooleanQueryAggregateProof {
    pub expr: String,
    pub result_fids: Vec<String>,
    pub node_root_hashes: StrMap<Vec<u8>>,
    pub tree: BooleanProofNode,
}

#[derive(Debug)]
pub enum BooleanProofNode {
    Leaf(LeafKeywordProof),
    And(Box<BooleanBinaryProof>),
    Or(Box<BooleanBinaryProof>),
}

#[derive(Debug, Clone)]
pub struct LeafKeywordProof {
    pub leaf: SetProofLeaf,
}

#[derive(Debug)]
pub struct BooleanBinaryProof {
    pub left: BooleanProofNode,
    pub right: BooleanProofNode,
    pub decomposition: SetOperationAggregateProof,
}

/// How two result sets split into their intersection and the parts only
/// one of them holds, with disjointness proofs for each pair.
#[derive(Debug, Clone)]
pub struct SetOperationAggregateProof {
    pub intersection_fids: Vec<String>,
    pub left_only_fids: Vec<String>,
    pub right_only_fids: Vec<String>,
    pub intersection_left_only_proof: Vec<u8>,
    pub intersection_right_only_proof: Vec<u8>,
    pub left_only_right_only_proof: Vec<u8>,
}

#[derive(Debug, Clone)]
pub struct AccumulatorSetOperationLeafProof {
    pub leaf: SetProofLeaf,
}

/// An intersection node of an accumulator set-operation proof: the file
/// ids it claims and the accumulator's intersection proof, as its bytes.
#[derive(Debug)]
pub struct AccumulatorIntersectionNodeProof {
    pub left: AccumulatorSetOperationProofNode,
    pub right: AccumulatorSetOperationProofNode,
    pub result_fids: Vec<String>,
    pub proof: Vec<u8>,
}

/// A union node of an accumulator set-operation proof: the file ids it
/// claims and the accumulator's union proof, as its bytes.
#[derive(Debug)]
pub struct AccumulatorUnionNodeProof {
    pub left: AccumulatorSetOperationProofNode,
    pub right: AccumulatorSetOperationProofNode,
    pub result_fids: Vec<String>,
    pub proof: Vec<u8>,
}

/// A node of an accumulator set-operation proof tree.
#[derive(Debug)]
pub enum AccumulatorSetOperationProofNode {
    Leaf(AccumulatorSetOperationLeafProof),
    And(Box<AccumulatorIntersectionNodeProof>),
    Or(Box<AccumulatorUnionNodeProof>),
}

/// An accumulator set-operation proof of a boolean query: the query, the
/// file ids of its result and the proof tree.
#[derive(Debug)]
pub struct AccumulatorSetOperationAggregateProof {
    pub expr: String,
    pub result_fids: Vec<String>,
    pub root: AccumulatorSetOperationProofNode,
}

/// An AccTree proof, as far as its result goes: an insertion names the file
/// added, a query the file ids it found, a deletion the file asked to be
/// deleted, the one its result deleted and the one that replaces it, if any.
pub enum AccTreeProofKind {
    Add { keyword: String, fid: String },
    Query { keyword: String, result_fids: Vec<String> },
    Delete { keyword: String, fid: String, deleted_fid: String, new_fid: Option<String> },
}

/// An AccTree proof with the root hash it was made against.
pub struct AccTreeProofEnvelope {
    pub root_hash: Vec<u8>,
    pub proof: AccTreeProofKind,
}

fn copy_string(s: &String) -> (r: String)
    ensures
        r@ == s@,
{
    let mut cs: Vec<char> = Vec::new();
    crate::text::push_str(&mut cs, s.as_str());
    crate::text::string_from_chars(cs.as_slice())
}

pub(crate) fn copy_strings(v: &Vec<String>) -> (r: Vec<String>)
    ensures
        r@.map_values(|s: String| s@) == v@.map_values(|s: String| s@),
{
    let mut r: Vec<String> = Vec::new();
    let mut i: usize = 0;
    while i < v.len()
        invariant
            i <= v@.len(),
            r@.map_values(|s: String| s@) == v@.take(i as int).map_values(|s: String| s@),
        decreases v@.len() - i,
    {
        let ghost before = r@;
        r.push(copy_string(&v[i]));
        assert(r@.map_values(|s: String| s@) =~= before.map_values(|s: String| s@).push(v@[i as int]@));
        assert(v@.take(i + 1).map_values(|s: String| s@) =~= v@.take(i as int).map_values(|s: String| s@).push(
            v@[i as int]@,
        ));
        i = i + 1;
    }
    assert(v@.take(v@.len() as int) =~= v@);
    r
}

/// The root hash an AccTree proof was made against; empty when the proof
/// does not decode (`decoded` is what it decodes to).
pub fn acctree_proof_root_hash(decoded: Option<&AccTreeProofEnvelope>) -> (r: Vec<u8>)
    ensures
        r@ == match decoded {
            Some(e) => e.root_hash@,
            None => Seq::<u8>::empty(),
        },
{
    match decoded {
        Some(e) => {
            let mut r: Vec<u8> = Vec::new();
            let mut i: usize = 0;
            while i < e.root_hash.len()
                invariant
                    i <= e.root_hash@.len(),
                    r@ == e.root_hash@.take(i as int),
                decreases e.root_hash@.len() - i,
            {
                r.push(e.root_hash[i]);
                i = i + 1;
                assert(r@ =~= e.root_hash@.take(i as int));
            }
            assert(e.root_hash@.take(e.root_hash@.len() as int) =~= e.root_hash@);
            r
        },
        None => Vec::new(),
    }
}

/// What an AccTree proof establishes against a root hash, given what its
/// bytes decode to: it must carry the AccTree mark, name that root hash and
/// decode; a deletion must have deleted the file asked for; and the
/// accumulator tree's check of its result (`result_ok`) decides.
pub open spec fn acctree_verdict(
    proof: Seq<u8>,
    root_hash: Seq<u8>,
    decoded: Option<AccTreeProofEnvelope>,
    result_ok: bool,
) -> bool {
    &&& bytes_start_with(proof, acctree_magic())
    &&& match decoded {
        Some(e) => e.root_hash@ == root_hash,
        None => root_hash.len() == 0,
    }
    &&& match decoded {
        None => false,
        Some(e) => match e.proof {
            AccTreeProofKind::Delete { fid, deleted_fid, .. } => deleted_fid@ == fid@ && result_ok,
            _ => result_ok,
        },
    }
}

/// Checks an AccTree proof against a root hash; `decoded` is what the
/// proof's bytes decode to (`None` when they do not) and `result_ok` the
/// accumulator tree's check of the result it carries.
pub fn verify_acctree(proof: &[u8], root_hash: &[u8], decoded: Option<&AccTreeProofEnvelope>, result_ok: bool) -> (r: bool)
    ensures
        r == acctree_verdict(
            proof@,
            root_hash@,
            match decoded {
                Some(e) => Some(*e),
                None => None,
            },
            result_ok,
        ),
{
    if !is_acctree_proof(proof) {
        return false;
    }
    let h = acctree_proof_root_hash(decoded);
    if !crate::verification::bytes_equal(h.as_slice(), root_hash) {
        return false;
    }
    match decoded {
        None => false,
        Some(e) => match &e.proof {
            AccTreeProofKind::Delete { fid, deleted_fid, .. } => crate::text::str_eq(deleted_fid.as_str(), fid.as_str())
                && result_ok,
            _ => result_ok,
        },
    }
}

/// The file ids an AccTree proof vouches for: those a query found, the one
/// an insertion added, the one that replaces a deleted file (none when
/// nothing does); `None` when the proof does not decode.
pub fn acctree_proof_fids(decoded: Option<&AccTreeProofEnvelope>) -> (r: Option<Vec<String>>)
    ensures
        match decoded {
            None => r is None,
            Some(e) => r matches Some(v) && v@.map_values(|s: String| s@) == match e.proof {
                AccTreeProofKind::Query { result_fids, .. } => result_fids@.map_values(|s: String| s@),
                AccTreeProofKind::Delete { new_fid, .. } => match new_fid {
                    Some(f) => seq![f@],
                    None => Seq::<Seq<char>>::empty(),
                },
                AccTreeProofKind::Add { fid, .. } => seq![fid@],
            },
        },
{
    match decoded {
        None => None,
        Some(e) => match &e.proof {
            AccTreeProofKind::Query { result_fids, .. } => Some(copy_strings(result_fids)),
            AccTreeProofKind::Delete { new_fid, .. } => match new_fid {
                Some(f) => {
                    let v = vec![copy_string(f)];
                    assert(v@.map_values(|s: String| s@) =~= seq![f@]);
                    Some(v)
                },
                None => {
                    let v: Vec<String> = Vec::new();
                    assert(v@.map_values(|s: String| s@) =~= Seq::<Seq<char>>::empty());
                    Some(v)
                },
            },
            AccTreeProofKind::Add { fid, .. } => {
                let v = vec![copy_string(fid)];
                assert(v@.map_values(|s: String| s@) =~= seq![fid@]);
                Some(v)
            },
        },
    }
}

} // verus!
