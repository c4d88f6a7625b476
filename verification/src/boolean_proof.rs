//! Checking the proof of a boolean query: each leaf's storage node must
//! answer with the root hash the manager holds for it, and each operator
//! node splits its operands' results into an intersection and the parts only
//! one operand holds, which must account exactly for both operands.
use vstd::prelude::*;
use crate::assoc::StrMap;
use crate::proofs::{
    boolean_query_aggregate_root_hash, BooleanBinaryProof, BooleanProofNode,
    BooleanQueryAggregateProof, SetOperationAggregateProof, SetProofLeaf,
};
use crate::routing::{lemma_lex_asym, lex_lt, sort_strings, sorted_names};
use crate::text::{contains_string, dedup_strings, distinct_strings, string_set, union_strings};
use crate::verification::bytes_equal;

verus! {

/// What a boolean proof node establishes, given the verdicts of its leaves
/// (their ADS proofs and results, read from `li` on, left to right) and of
/// its operator nodes' disjointness proofs (read from `di` on, each node
/// after its operands): the set of file ids it stands for and where the
/// verdicts it read end. A leaf needs the manager's root hash for its
/// storage node to be the one it carries; an operator node needs the
/// intersection and the parts only one operand holds to make up each
/// operand's set. An intersection stands for the intersection; a union for
/// all three parts.
pub open spec fn bool_node_spec(
    node: BooleanProofNode,
    roots: Map<Seq<char>, Seq<u8>>,
    leaf_ok: Seq<bool>,
    disjoint_ok: Seq<bool>,
    li: int,
    di: int,
) -> Option<(Set<Seq<char>>, int, int)>
    decreases node,
{
    match node {
        BooleanProofNode::Leaf(l) => if roots.dom().contains(l.leaf.node_name@) && roots[l.leaf.node_name@]
            == l.leaf.root_hash@ && 0 <= li < leaf_ok.len() && leaf_ok[li] {
            Some((string_set(l.leaf.fids@), li + 1, di))
        } else {
            None
        },
        BooleanProofNode::And(b) => binary_spec(false, *b, roots, leaf_ok, disjoint_ok, li, di),
        BooleanProofNode::Or(b) => binary_spec(true, *b, roots, leaf_ok, disjoint_ok, li, di),
    }
}

pub open spec fn binary_spec(
    union: bool,
    b: BooleanBinaryProof,
    roots: Map<Seq<char>, Seq<u8>>,
    leaf_ok: Seq<bool>,
    disjoint_ok: Seq<bool>,
    li: int,
    di: int,
) -> Option<(Set<Seq<char>>, int, int)>
    decreases b,
{
    match bool_node_spec(b.left, roots, leaf_ok, disjoint_ok, li, di) {
        None => None,
        Some((ls, li1, di1)) => match bool_node_spec(b.right, roots, leaf_ok, disjoint_ok, li1, di1) {
            None => None,
            Some((rs, li2, di2)) => {
                let i = string_set(b.decomposition.intersection_fids@);
                let l = string_set(b.decomposition.left_only_fids@);
                let r = string_set(b.decomposition.right_only_fids@);
                if 0 <= di2 < disjoint_ok.len() && disjoint_ok[di2] && i.union(l) == ls && i.union(r) == rs {
                    Some((if union { i.union(l).union(r) } else { i }, li2, di2 + 1))
                } else {
                    None
                }
            },
        },
    }
}

/// Whether two lists hold the same strings.
pub(crate) fn same_set(a: &Vec<String>, b: &Vec<String>) -> (r: bool)
    ensures
        r == (string_set(a@) == string_set(b@)),
{
    let mut i: usize = 0;
    while i < a.len()
        invariant
            i <= a@.len(),
            forall|j: int| 0 <= j < i ==> string_set(b@).contains(#[trigger] a@[j]@),
        decreases a@.len() - i,
    {
        if !contains_string(b, &a[i]) {
            assert(string_set(a@).contains(a@[i as int]@));
            return false;
        }
        i = i + 1;
    }
    let mut k: usize = 0;
    while k < b.len()
        invariant
            k <= b@.len(),
            forall|j: int| 0 <= j < a@.len() ==> string_set(b@).contains(#[trigger] a@[j]@),
            forall|j: int| 0 <= j < k ==> string_set(a@).contains(#[trigger] b@[j]@),
        decreases b@.len() - k,
    {
        if !contains_string(a, &b[k]) {
            assert(string_set(b@).contains(b@[k as int]@));
            return false;
        }
        k = k + 1;
    }
    assert(string_set(a@) =~= string_set(b@)) by {
        assert forall|x: Seq<char>| string_set(a@).contains(x) implies string_set(b@).contains(x) by {
            let j = choose|j: int| 0 <= j < a@.len() && a@[j]@ == x;
            assert(string_set(b@).contains(a@[j]@));
        }
        assert forall|x: Seq<char>| string_set(b@).contains(x) implies string_set(a@).contains(x) by {
            let j = choose|j: int| 0 <= j < b@.len() && b@[j]@ == x;
            assert(string_set(a@).contains(b@[j]@));
        }
    }
    true
}

fn check_node(
    node: &BooleanProofNode,
    roots: &StrMap<Vec<u8>>,
    leaf_ok: &Vec<bool>,
    disjoint_ok: &Vec<bool>,
    li: usize,
    di: usize,
) -> (r: Option<(Vec<String>, usize, usize)>)
    requires
        roots.wf(),
    ensures
        match r {
            Some((v, a, b)) => distinct_strings(v@) && bool_node_spec(*node, roots.map(), leaf_ok@, disjoint_ok@, li as int, di as int)
                == Some((string_set(v@), a as int, b as int)),
            None => bool_node_spec(*node, roots.map(), leaf_ok@, disjoint_ok@, li as int, di as int) is None,
        },
    decreases node,
{
    match node {
        BooleanProofNode::Leaf(l) => {
            let expected = match roots.get(l.leaf.node_name.as_str()) {
                Some(h) => h,
                None => return None,
            };
            if !bytes_equal(expected.as_slice(), l.leaf.root_hash.as_slice()) {
                return None;
            }
            if li < leaf_ok.len() && leaf_ok[li] {
                let fids = dedup_strings(&l.leaf.fids);
                Some((fids, li + 1, di))
            } else {
                None
            }
        },
        BooleanProofNode::And(b) => check_binary(false, b, roots, leaf_ok, disjoint_ok, li, di),
        BooleanProofNode::Or(b) => check_binary(true, b, roots, leaf_ok, disjoint_ok, li, di),
    }
}

fn check_binary(
    union: bool,
    b: &BooleanBinaryProof,
    roots: &StrMap<Vec<u8>>,
    leaf_ok: &Vec<bool>,
    disjoint_ok: &Vec<bool>,
    li: usize,
    di: usize,
) -> (r: Option<(Vec<String>, usize, usize)>)
    requires
        roots.wf(),
    ensures
        match r {
            Some((v, x, y)) => distinct_strings(v@) && binary_spec(union, *b, roots.map(), leaf_ok@, disjoint_ok@, li as int, di as int)
                == Some((string_set(v@), x as int, y as int)),
            None => binary_spec(union, *b, roots.map(), leaf_ok@, disjoint_ok@, li as int, di as int) is None,
        },
    decreases b,
{
    let (left_set, li1, di1) = match check_node(&b.left, roots, leaf_ok, disjoint_ok, li, di) {
        Some(x) => x,
        None => return None,
    };
    let (right_set, li2, di2) = match check_node(&b.right, roots, leaf_ok, disjoint_ok, li1, di1) {
        Some(x) => x,
        None => return None,
    };
    if !(di2 < disjoint_ok.len() && disjoint_ok[di2]) {
        return None;
    }
    let d = &b.decomposition;
    let inter = dedup_strings(&d.intersection_fids);
    let left_only = dedup_strings(&d.left_only_fids);
    let right_only = dedup_strings(&d.right_only_fids);
    let expected_left = union_strings(&inter, &left_only);
    let expected_right = union_strings(&inter, &right_only);
    if !same_set(&expected_left, &left_set) || !same_set(&expected_right, &right_set) {
        return None;
    }
    if union {
        Some((union_strings(&expected_left, &right_only), li2, di2 + 1))
    } else {
        Some((inter, li2, di2 + 1))
    }
}

/// Checks a boolean proof tree against the manager's root hashes, given the
/// verdicts of its leaves (left to right) and of its operator nodes'
/// disjointness proofs (each after its operands): the file ids the tree
/// stands for, without repeats, or `None`.
pub fn verify_boolean_node(
    node: &BooleanProofNode,
    roots: &StrMap<Vec<u8>>,
    leaf_ok: &Vec<bool>,
    disjoint_ok: &Vec<bool>,
) -> (r: Option<Vec<String>>)
    requires
        roots.wf(),
    ensures
        match r {
            Some(v) => distinct_strings(v@) && (bool_node_spec(*node, roots.map(), leaf_ok@, disjoint_ok@, 0, 0) matches Some(
                (set, _, _),
            ) && string_set(v@) == set),
            None => bool_node_spec(*node, roots.map(), leaf_ok@, disjoint_ok@, 0, 0) is None,
        },
{
    match check_node(node, roots, leaf_ok, disjoint_ok, 0, 0) {
        Some((v, _, _)) => Some(v),
        None => None,
    }
}

/// What a boolean query proof establishes against a root hash, given what
/// its bytes decode to: the root hash must be the SHA-256 of the proof, the
/// proof must decode, its tree must pass, and the file ids it stands for,
/// sorted, must be exactly the result it names.
pub open spec fn boolean_aggregate_verdict(
    proof_hash: Seq<u8>,
    root_hash: Seq<u8>,
    decoded: Option<BooleanQueryAggregateProof>,
    leaf_ok: Seq<bool>,
    disjoint_ok: Seq<bool>,
) -> bool {
    proof_hash == root_hash && match decoded {
        None => false,
        Some(a) => match bool_node_spec(a.tree, a.node_root_hashes.map(), leaf_ok, disjoint_ok, 0, 0) {
            None => false,
            Some((set, _, _)) => {
                &&& sorted_names(a.result_fids@.map_values(|s: String| s@))
                &&& set == string_set(a.result_fids@)
            },
        },
    }
}

/// Checks a boolean query proof against a root hash; `decoded` is what the
/// proof's bytes decode to, `None` when they do not.
pub fn verify_boolean_query_aggregate(
    proof: &[u8],
    root_hash: &[u8],
    decoded: Option<&BooleanQueryAggregateProof>,
    leaf_ok: &Vec<bool>,
    disjoint_ok: &Vec<bool>,
) -> (r: bool)
    requires
        decoded matches Some(a) ==> a.node_root_hashes.wf(),
    ensures
        r == boolean_aggregate_verdict(
            crate::proofs::sha256_spec(proof@),
            root_hash@,
            match decoded {
                Some(a) => Some(*a),
                None => None,
            },
            leaf_ok@,
            disjoint_ok@,
        ),
{
    let h = boolean_query_aggregate_root_hash(proof);
    if !bytes_equal(h.as_slice(), root_hash) {
        return false;
    }
    let a = match decoded {
        Some(a) => a,
        None => return false,
    };
    match verify_boolean_node(&a.tree, &a.node_root_hashes, leaf_ok, disjoint_ok) {
        None => false,
        Some(set) => {
            let expected = sort_strings(&set);
            proof {
                lemma_sorted_set_equal(expected@, a.result_fids@);
            }
            strings_equal(&expected, &a.result_fids)
        },
    }
}

/// Two strictly sorted lists are equal exactly when they hold the same
/// strings.
pub(crate) proof fn lemma_sorted_set_equal(a: Seq<String>, b: Seq<String>)
    requires
        sorted_names(a.map_values(|s: String| s@)),
    ensures
        (a.map_values(|s: String| s@) == b.map_values(|s: String| s@)) <==> (sorted_names(
            b.map_values(|s: String| s@),
        ) && string_set(a) == string_set(b)),
{
    let av = a.map_values(|s: String| s@);
    let bv = b.map_values(|s: String| s@);
    lemma_string_set_to_set(a);
    lemma_string_set_to_set(b);
    if sorted_names(bv) && av.to_set() == bv.to_set() {
        lemma_sorted_unique(av, bv);
    }
}

proof fn lemma_string_set_to_set(a: Seq<String>)
    ensures
        string_set(a) == a.map_values(|s: String| s@).to_set(),
{
    let av = a.map_values(|s: String| s@);
    assert forall|x: Seq<char>| string_set(a).contains(x) implies av.to_set().contains(x) by {
        let i = choose|i: int| 0 <= i < a.len() && a[i]@ == x;
        assert(av[i] == x);
    }
    assert forall|x: Seq<char>| av.to_set().contains(x) implies string_set(a).contains(x) by {
        assert(av.contains(x));
        let i = choose|i: int| 0 <= i < av.len() && av[i] == x;
        assert(a[i]@ == x);
    }
    assert(string_set(a) =~= av.to_set());
}

/// Two strictly increasing sequences with the same elements are equal.
proof fn lemma_sorted_unique(a: Seq<Seq<char>>, b: Seq<Seq<char>>)
    requires
        sorted_names(a),
        sorted_names(b),
        a.to_set() == b.to_set(),
    ensures
        a == b,
    decreases a.len(),
{
    if a.len() == 0 {
        if b.len() > 0 {
            assert(b.to_set().contains(b[0]));
        }
        assert(a =~= b);
    } else {
        assert(a.to_set().contains(a[0]));
        assert(b.len() > 0);
        assert(b.to_set().contains(b[0]));
        let i = choose|i: int| 0 <= i < a.len() && a[i] == b[0];
        let j = choose|j: int| 0 <= j < b.len() && b[j] == a[0];
        if i > 0 && j > 0 {
            assert(lex_lt(a[0], a[i]));
            assert(lex_lt(b[0], b[j]));
            lemma_lex_asym(a[0], b[0]);
        }
        assert(a[0] == b[0]);
        let ar = a.drop_first();
        let br = b.drop_first();
        assert forall|x: Seq<char>| ar.to_set().contains(x) implies br.to_set().contains(x) by {
            let k = choose|k: int| 0 <= k < ar.len() && ar[k] == x;
            assert(a[k + 1] == x);
            assert(lex_lt(a[0], x));
            lemma_lex_asym(a[0], x);
            assert(b.to_set().contains(x));
            let m = choose|m: int| 0 <= m < b.len() && b[m] == x;
            assert(m != 0);
            assert(br[m - 1] == x);
        }
        assert forall|x: Seq<char>| br.to_set().contains(x) implies ar.to_set().contains(x) by {
            let k = choose|k: int| 0 <= k < br.len() && br[k] == x;
            assert(b[k + 1] == x);
            assert(lex_lt(b[0], x));
            lemma_lex_asym(b[0], x);
            assert(a.to_set().contains(x));
            let m = choose|m: int| 0 <= m < a.len() && a[m] == x;
            assert(m != 0);
            assert(ar[m - 1] == x);
        }
        assert(ar.to_set() =~= br.to_set());
        lemma_sorted_unique(ar, br);
        assert(a =~= seq![a[0]] + ar);
        assert(b =~= seq![b[0]] + br);
    }
}

/// Whether two lists hold the same strings in the same order.
pub(crate) fn strings_equal(a: &Vec<String>, b: &Vec<String>) -> (r: bool)
    ensures
        r == (a@.map_values(|s: String| s@) == b@.map_values(|s: String| s@)),
{
    if a.len() != b.len() {
        assert(a@.map_values(|s: String| s@).len() != b@.map_values(|s: String| s@).len());
        return false;
    }
    let mut i: usize = 0;
    while i < a.len()
        invariant
            a@.len() == b@.len(),
            i <= a@.len(),
            forall|k: int| 0 <= k < i ==> a@[k]@ == b@[k]@,
        decreases a@.len() - i,
    {
        if !crate::text::str_eq(a[i].as_str(), b[i].as_str()) {
            assert(a@.map_values(|s: String| s@)[i as int] != b@.map_values(|s: String| s@)[i as int]);
            return false;
        }
        i = i + 1;
    }
    assert(a@.map_values(|s: String| s@) =~= b@.map_values(|s: String| s@));
    true
}

/// The file ids the leaves of a boolean proof tree report.
pub open spec fn bool_leaf_fids(node: BooleanProofNode) -> Set<Seq<char>>
    decreases node,
{
    match node {
        BooleanProofNode::Leaf(l) => string_set(l.leaf.fids@),
        BooleanProofNode::And(b) => bool_leaf_fids(b.left).union(bool_leaf_fids(b.right)),
        BooleanProofNode::Or(b) => bool_leaf_fids(b.left).union(bool_leaf_fids(b.right)),
    }
}

/// An accepted boolean proof tree stands only for file ids that its leaves
/// reported.
pub proof fn accepted_boolean_result_comes_from_leaves(
    node: BooleanProofNode,
    roots: Map<Seq<char>, Seq<u8>>,
    leaf_ok: Seq<bool>,
    disjoint_ok: Seq<bool>,
    li: int,
    di: int,
)
    ensures
        bool_node_spec(node, roots, leaf_ok, disjoint_ok, li, di) matches Some((set, _, _)) ==> set.subset_of(
            bool_leaf_fids(node),
        ),
    decreases node,
{
    match node {
        BooleanProofNode::Leaf(_) => {},
        BooleanProofNode::And(b) => {
            accepted_boolean_result_comes_from_leaves(b.left, roots, leaf_ok, disjoint_ok, li, di);
            if let Some((_, li1, di1)) = bool_node_spec(b.left, roots, leaf_ok, disjoint_ok, li, di) {
                accepted_boolean_result_comes_from_leaves(b.right, roots, leaf_ok, disjoint_ok, li1, di1);
            }
        },
        BooleanProofNode::Or(b) => {
            accepted_boolean_result_comes_from_leaves(b.left, roots, leaf_ok, disjoint_ok, li, di);
            if let Some((_, li1, di1)) = bool_node_spec(b.left, roots, leaf_ok, disjoint_ok, li, di) {
                accepted_boolean_result_comes_from_leaves(b.right, roots, leaf_ok, disjoint_ok, li1, di1);
            }
        },
    }
}

/// Whether a disjointness proof stands for two lists of file ids: when
/// either list is empty the proof must be empty; otherwise the
/// accumulator's verdict on the proof (`proof_ok`) decides.
pub fn verify_disjointness_proof(left: &Vec<String>, right: &Vec<String>, proof_bytes: &[u8], proof_ok: bool) -> (r: bool)
    ensures
        r == disjoint_spec(left@, right@, proof_bytes@, proof_ok),
{
    if left.len() == 0 || right.len() == 0 {
        return proof_bytes.len() == 0;
    }
    proof_ok
}

/// Whether the three parts of a decomposition are pairwise disjoint:
/// intersection and left-only, intersection and right-only, left-only and
/// right-only, each by its proof, with the accumulator's verdicts on those
/// proofs in that order.
pub fn verify_pairwise_disjoint(op: &SetOperationAggregateProof, proof_ok: (bool, bool, bool)) -> (r: bool)
    ensures
        r == (disjoint_spec(op.intersection_fids@, op.left_only_fids@, op.intersection_left_only_proof@, proof_ok.0)
            && disjoint_spec(op.intersection_fids@, op.right_only_fids@, op.intersection_right_only_proof@, proof_ok.1)
            && disjoint_spec(op.left_only_fids@, op.right_only_fids@, op.left_only_right_only_proof@, proof_ok.2)),
{
    verify_disjointness_proof(&op.intersection_fids, &op.left_only_fids, op.intersection_left_only_proof.as_slice(), proof_ok.0)
        && verify_disjointness_proof(&op.intersection_fids, &op.right_only_fids, op.intersection_right_only_proof.as_slice(), proof_ok.1)
        && verify_disjointness_proof(&op.left_only_fids, &op.right_only_fids, op.left_only_right_only_proof.as_slice(), proof_ok.2)
}

/// Whether two lists count as disjoint by a proof: with an empty list,
/// exactly when the proof is empty; otherwise when `proof_ok` holds.
pub open spec fn disjoint_spec(left: Seq<String>, right: Seq<String>, proof: Seq<u8>, proof_ok: bool) -> bool {
    if left.len() == 0 || right.len() == 0 {
        proof.len() == 0
    } else {
        proof_ok
    }
}

/// The leaves of a boolean proof tree, left to right.
pub open spec fn bool_leaves_of(node: BooleanProofNode) -> Seq<SetProofLeaf>
    decreases node,
{
    match node {
        BooleanProofNode::Leaf(l) => seq![l.leaf],
        BooleanProofNode::And(b) => bool_leaves_of(b.left) + bool_leaves_of(b.right),
        BooleanProofNode::Or(b) => bool_leaves_of(b.left) + bool_leaves_of(b.right),
    }
}

/// The operator nodes' decompositions, each after those of its operands.
pub open spec fn decompositions_of(node: BooleanProofNode) -> Seq<SetOperationAggregateProof>
    decreases node,
{
    match node {
        BooleanProofNode::Leaf(_) => Seq::empty(),
        BooleanProofNode::And(b) => decompositions_of(b.left) + decompositions_of(b.right) + seq![b.decomposition],
        BooleanProofNode::Or(b) => decompositions_of(b.left) + decompositions_of(b.right) + seq![b.decomposition],
    }
}

fn collect<'a>(
    node: &'a BooleanProofNode,
    leaves: &mut Vec<&'a SetProofLeaf>,
    decs: &mut Vec<&'a SetOperationAggregateProof>,
)
    ensures
        final(leaves)@.map_values(|l: &SetProofLeaf| *l) == old(leaves)@.map_values(|l: &SetProofLeaf| *l)
            + bool_leaves_of(*node),
        final(decs)@.map_values(|d: &SetOperationAggregateProof| *d) == old(decs)@.map_values(
            |d: &SetOperationAggregateProof| *d,
        ) + decompositions_of(*node),
    decreases node,
{
    let ghost l0 = leaves@.map_values(|l: &SetProofLeaf| *l);
    let ghost d0 = decs@.map_values(|d: &SetOperationAggregateProof| *d);
    match node {
        BooleanProofNode::Leaf(l) => {
            leaves.push(&l.leaf);
            assert(leaves@.map_values(|x: &SetProofLeaf| *x) =~= l0 + seq![l.leaf]);
            assert(d0 + Seq::<SetOperationAggregateProof>::empty() =~= d0);
        },
        BooleanProofNode::And(b) => {
            collect(&b.left, leaves, decs);
            collect(&b.right, leaves, decs);
            let ghost d1 = decs@.map_values(|d: &SetOperationAggregateProof| *d);
            decs.push(&b.decomposition);
            assert(decs@.map_values(|d: &SetOperationAggregateProof| *d) =~= d1.push(b.decomposition));
            assert(l0 + bool_leaves_of(b.left) + bool_leaves_of(b.right) =~= l0 + (bool_leaves_of(b.left) + bool_leaves_of(b.right)));
            assert(d0 + decompositions_of(b.left) + decompositions_of(b.right) + seq![b.decomposition] =~= d0 + (
            decompositions_of(b.left) + decompositions_of(b.right) + seq![b.decomposition]));
        },
        BooleanProofNode::Or(b) => {
            collect(&b.left, leaves, decs);
            collect(&b.right, leaves, decs);
            let ghost d1 = decs@.map_values(|d: &SetOperationAggregateProof| *d);
            decs.push(&b.decomposition);
            assert(decs@.map_values(|d: &SetOperationAggregateProof| *d) =~= d1.push(b.decomposition));
            assert(l0 + bool_leaves_of(b.left) + bool_leaves_of(b.right) =~= l0 + (bool_leaves_of(b.left) + bool_leaves_of(b.right)));
            assert(d0 + decompositions_of(b.left) + decompositions_of(b.right) + seq![b.decomposition] =~= d0 + (
            decompositions_of(b.left) + decompositions_of(b.right) + seq![b.decomposition]));
        },
    }
}

/// The leaves of a boolean proof tree (left to right) and its operator
/// nodes' decompositions (each after its operands): the orders in which
/// `verify_boolean_node` reads their verdicts.
pub fn boolean_proof_parts(node: &BooleanProofNode) -> (r: (Vec<&SetProofLeaf>, Vec<&SetOperationAggregateProof>))
    ensures
        r.0@.map_values(|l: &SetProofLeaf| *l) == bool_leaves_of(*node),
        r.1@.map_values(|d: &SetOperationAggregateProof| *d) == decompositions_of(*node),
{
    let mut leaves: Vec<&SetProofLeaf> = Vec::new();
    let mut decs: Vec<&SetOperationAggregateProof> = Vec::new();
    assert(leaves@.map_values(|l: &SetProofLeaf| *l) =~= Seq::<SetProofLeaf>::empty());
    assert(decs@.map_values(|d: &SetOperationAggregateProof| *d) =~= Seq::<SetOperationAggregateProof>::empty());
    collect(node, &mut leaves, &mut decs);
    assert(Seq::<SetProofLeaf>::empty() + bool_leaves_of(*node) =~= bool_leaves_of(*node));
    assert(Seq::<SetOperationAggregateProof>::empty() + decompositions_of(*node) =~= decompositions_of(*node));
    (leaves, decs)
}

} // verus!
