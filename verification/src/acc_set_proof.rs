//! Checking an accumulator set-operation proof: each leaf's ADS proof must
//! pass, each operator node must claim exactly the intersection or union of
//! its operands' file ids, and its accumulator proof must pass.
use vstd::prelude::*;
use crate::boolean_proof::{lemma_sorted_set_equal, same_set, strings_equal};
use crate::proofs::{
    accumulator_set_operation_root_hash, AccumulatorSetOperationAggregateProof,
    AccumulatorSetOperationProofNode, SetProofLeaf,
};
use crate::routing::{sort_strings, sorted_names};
use crate::text::{distinct_strings, intersect_strings, str_eq, string_set, dedup_strings, union_strings};
use crate::verification::bytes_equal;

verus! {

/// What an operator node establishes once its operands stood for `ls` and
/// `rs`: its claimed file ids, without repeats, must be exactly their
/// intersection (or union), and its accumulator proof (the verdict at `oi`)
/// must pass.
pub open spec fn acc_step_spec(
    union: bool,
    ls: Set<Seq<char>>,
    rs: Set<Seq<char>>,
    result_fids: Seq<String>,
    op_ok: Seq<bool>,
    li: int,
    oi: int,
) -> Option<(Set<Seq<char>>, int, int)> {
    let r = if union { ls.union(rs) } else { ls.intersect(rs) };
    if distinct_strings(result_fids) && string_set(result_fids) == r && 0 <= oi < op_ok.len() && op_ok[oi] {
        Some((r, li, oi + 1))
    } else {
        None
    }
}

/// What an accumulator proof node establishes, given the verdicts of its
/// leaves' ADS proofs (read from `li` on, left to right) and of its operator
/// nodes' accumulator proofs (read from `oi` on, each node after its
/// operands): the set of file ids it stands for and where the verdicts it
/// read end.
pub open spec fn acc_node_spec(
    node: AccumulatorSetOperationProofNode,
    leaf_ok: Seq<bool>,
    op_ok: Seq<bool>,
    li: int,
    oi: int,
) -> Option<(Set<Seq<char>>, int, int)>
    decreases node,
{
    match node {
        AccumulatorSetOperationProofNode::Leaf(l) => if 0 <= li < leaf_ok.len() && leaf_ok[li] {
            Some((string_set(l.leaf.fids@), li + 1, oi))
        } else {
            None
        },
        AccumulatorSetOperationProofNode::And(b) => match acc_node_spec(b.left, leaf_ok, op_ok, li, oi) {
            None => None,
            Some((ls, li1, oi1)) => match acc_node_spec(b.right, leaf_ok, op_ok, li1, oi1) {
                None => None,
                Some((rs, li2, oi2)) => acc_step_spec(false, ls, rs, b.result_fids@, op_ok, li2, oi2),
            },
        },
        AccumulatorSetOperationProofNode::Or(b) => match acc_node_spec(b.left, leaf_ok, op_ok, li, oi) {
            None => None,
            Some((ls, li1, oi1)) => match acc_node_spec(b.right, leaf_ok, op_ok, li1, oi1) {
                None => None,
                Some((rs, li2, oi2)) => acc_step_spec(true, ls, rs, b.result_fids@, op_ok, li2, oi2),
            },
        },
    }
}

/// Whether no two strings of the list are the same.
fn strings_distinct(v: &Vec<String>) -> (r: bool)
    ensures
        r == distinct_strings(v@),
{
    let mut i: usize = 0;
    while i < v.len()
        invariant
            i <= v@.len(),
            forall|a: int, b: int| 0 <= a < i && 0 <= b < v@.len() && a != b ==> v@[a]@ != v@[b]@,
        decreases v@.len() - i,
    {
        let mut j: usize = 0;
        while j < v.len()
            invariant
                i < v@.len(),
                j <= v@.len(),
                forall|b: int| 0 <= b < j && b != i ==> v@[i as int]@ != v@[b]@,
            decreases v@.len() - j,
        {
            if j != i && str_eq(v[i].as_str(), v[j].as_str()) {
                return false;
            }
            j = j + 1;
        }
        i = i + 1;
    }
    true
}

fn acc_step(
    union: bool,
    ls: &Vec<String>,
    rs: &Vec<String>,
    result_fids: &Vec<String>,
    op_ok: &Vec<bool>,
    li: usize,
    oi: usize,
) -> (r: Option<(Vec<String>, usize, usize)>)
    requires
        distinct_strings(ls@),
        distinct_strings(rs@),
    ensures
        match r {
            Some((v, a, b)) => distinct_strings(v@) && acc_step_spec(union, string_set(ls@), string_set(rs@), result_fids@, op_ok@, li as int, oi as int)
                == Some((string_set(v@), a as int, b as int)),
            None => acc_step_spec(union, string_set(ls@), string_set(rs@), result_fids@, op_ok@, li as int, oi as int) is None,
        },
{
    let r = if union {
        union_strings(ls, rs)
    } else {
        intersect_strings(ls, rs)
    };
    if !strings_distinct(result_fids) || !same_set(result_fids, &r) {
        return None;
    }
    if !(oi < op_ok.len() && op_ok[oi]) {
        return None;
    }
    Some((r, li, oi + 1))
}

fn check_acc_node(
    node: &AccumulatorSetOperationProofNode,
    leaf_ok: &Vec<bool>,
    op_ok: &Vec<bool>,
    li: usize,
    oi: usize,
) -> (r: Option<(Vec<String>, usize, usize)>)
    ensures
        match r {
            Some((v, a, b)) => distinct_strings(v@) && acc_node_spec(*node, leaf_ok@, op_ok@, li as int, oi as int)
                == Some((string_set(v@), a as int, b as int)),
            None => acc_node_spec(*node, leaf_ok@, op_ok@, li as int, oi as int) is None,
        },
    decreases node,
{
    match node {
        AccumulatorSetOperationProofNode::Leaf(l) => {
            if li < leaf_ok.len() && leaf_ok[li] {
                Some((dedup_strings(&l.leaf.fids), li + 1, oi))
            } else {
                None
            }
        },
        AccumulatorSetOperationProofNode::And(b) => {
            let (ls, li1, oi1) = match check_acc_node(&b.left, leaf_ok, op_ok, li, oi) {
                Some(x) => x,
                None => return None,
            };
            let (rs, li2, oi2) = match check_acc_node(&b.right, leaf_ok, op_ok, li1, oi1) {
                Some(x) => x,
                None => return None,
            };
            acc_step(false, &ls, &rs, &b.result_fids, op_ok, li2, oi2)
        },
        AccumulatorSetOperationProofNode::Or(b) => {
            let (ls, li1, oi1) = match check_acc_node(&b.left, leaf_ok, op_ok, li, oi) {
                Some(x) => x,
                None => return None,
            };
            let (rs, li2, oi2) = match check_acc_node(&b.right, leaf_ok, op_ok, li1, oi1) {
                Some(x) => x,
                None => return None,
            };
            acc_step(true, &ls, &rs, &b.result_fids, op_ok, li2, oi2)
        },
    }
}

/// Checks an accumulator proof tree, given the verdicts of its leaves' ADS
/// proofs (left to right) and of its operator nodes' accumulator proofs
/// (each after its operands): the file ids the tree stands for, without
/// repeats, or `None`.
pub fn verify_accumulator_set_operation_node(
    node: &AccumulatorSetOperationProofNode,
    leaf_ok: &Vec<bool>,
    op_ok: &Vec<bool>,
) -> (r: Option<Vec<String>>)
    ensures
        match r {
            Some(v) => distinct_strings(v@) && (acc_node_spec(*node, leaf_ok@, op_ok@, 0, 0) matches Some((set, _, _))
                && string_set(v@) == set),
            None => acc_node_spec(*node, leaf_ok@, op_ok@, 0, 0) is None,
        },
{
    match check_acc_node(node, leaf_ok, op_ok, 0, 0) {
        Some((v, _, _)) => Some(v),
        None => None,
    }
}

/// What an accumulator set-operation proof establishes against a root
/// hash, given what its bytes decode to: the root hash must be the SHA-256
/// of the proof, the proof must decode, its tree must pass, and the file
/// ids it stands for, sorted, must be exactly the result it names.
pub open spec fn acc_aggregate_verdict(
    proof_hash: Seq<u8>,
    root_hash: Seq<u8>,
    decoded: Option<AccumulatorSetOperationAggregateProof>,
    leaf_ok: Seq<bool>,
    op_ok: Seq<bool>,
) -> bool {
    proof_hash == root_hash && match decoded {
        None => false,
        Some(a) => match acc_node_spec(a.root, leaf_ok, op_ok, 0, 0) {
            None => false,
            Some((set, _, _)) => {
                &&& sorted_names(a.result_fids@.map_values(|s: String| s@))
                &&& set == string_set(a.result_fids@)
            },
        },
    }
}

/// Checks an accumulator set-operation proof against a root hash;
/// `decoded` is what the proof's bytes decode to, `None` when they do not.
pub fn verify_accumulator_set_operation_aggregate(
    proof: &[u8],
    root_hash: &[u8],
    decoded: Option<&AccumulatorSetOperationAggregateProof>,
    leaf_ok: &Vec<bool>,
    op_ok: &Vec<bool>,
) -> (r: bool)
    ensures
        r == acc_aggregate_verdict(
            crate::proofs::sha256_spec(proof@),
            root_hash@,
            match decoded {
                Some(a) => Some(*a),
                None => None,
            },
            leaf_ok@,
            op_ok@,
        ),
{
    let h = accumulator_set_operation_root_hash(proof);
    if !bytes_equal(h.as_slice(), root_hash) {
        return false;
    }
    let a = match decoded {
        Some(a) => a,
        None => return false,
    };
    match verify_accumulator_set_operation_node(&a.root, leaf_ok, op_ok) {
        None => false,
        Some(set) => {
            let expected = sort_strings(&set);
            proof {
                lemma_sorted_set_equal(expected@, a.result_fids@);
            }
            strings_equal(&expected, &a.result_fids)
        },
    }
}

/// The leaves of an accumulator proof tree, left to right.
pub open spec fn acc_leaves_of(node: AccumulatorSetOperationProofNode) -> Seq<SetProofLeaf>
    decreases node,
{
    match node {
        AccumulatorSetOperationProofNode::Leaf(l) => seq![l.leaf],
        AccumulatorSetOperationProofNode::And(b) => acc_leaves_of(b.left) + acc_leaves_of(b.right),
        AccumulatorSetOperationProofNode::Or(b) => acc_leaves_of(b.left) + acc_leaves_of(b.right),
    }
}

/// The file ids the leaves of an accumulator proof tree report.
pub open spec fn acc_leaf_fids(node: AccumulatorSetOperationProofNode) -> Set<Seq<char>>
    decreases node,
{
    match node {
        AccumulatorSetOperationProofNode::Leaf(l) => string_set(l.leaf.fids@),
        AccumulatorSetOperationProofNode::And(b) => acc_leaf_fids(b.left).union(acc_leaf_fids(b.right)),
        AccumulatorSetOperationProofNode::Or(b) => acc_leaf_fids(b.left).union(acc_leaf_fids(b.right)),
    }
}

/// An accepted accumulator proof tree stands only for file ids that its
/// leaves reported.
pub proof fn accepted_result_comes_from_leaves(
    node: AccumulatorSetOperationProofNode,
    leaf_ok: Seq<bool>,
    op_ok: Seq<bool>,
    li: int,
    oi: int,
)
    ensures
        acc_node_spec(node, leaf_ok, op_ok, li, oi) matches Some((set, _, _)) ==> set.subset_of(acc_leaf_fids(node)),
    decreases node,
{
    match node {
        AccumulatorSetOperationProofNode::Leaf(_) => {},
        AccumulatorSetOperationProofNode::And(b) => {
            accepted_result_comes_from_leaves(b.left, leaf_ok, op_ok, li, oi);
            if let Some((_, li1, oi1)) = acc_node_spec(b.left, leaf_ok, op_ok, li, oi) {
                accepted_result_comes_from_leaves(b.right, leaf_ok, op_ok, li1, oi1);
            }
        },
        AccumulatorSetOperationProofNode::Or(b) => {
            accepted_result_comes_from_leaves(b.left, leaf_ok, op_ok, li, oi);
            if let Some((_, li1, oi1)) = acc_node_spec(b.left, leaf_ok, op_ok, li, oi) {
                accepted_result_comes_from_leaves(b.right, leaf_ok, op_ok, li1, oi1);
            }
        },
    }
}

fn collect_leaves<'a>(node: &'a AccumulatorSetOperationProofNode, leaves: &mut Vec<&'a SetProofLeaf>)
    ensures
        final(leaves)@.map_values(|l: &SetProofLeaf| *l) == old(leaves)@.map_values(|l: &SetProofLeaf| *l)
            + acc_leaves_of(*node),
    decreases node,
{
    let ghost l0 = leaves@.map_values(|l: &SetProofLeaf| *l);
    match node {
        AccumulatorSetOperationProofNode::Leaf(l) => {
            leaves.push(&l.leaf);
            assert(leaves@.map_values(|x: &SetProofLeaf| *x) =~= l0 + seq![l.leaf]);
        },
        AccumulatorSetOperationProofNode::And(b) => {
            collect_leaves(&b.left, leaves);
            collect_leaves(&b.right, leaves);
            assert(l0 + acc_leaves_of(b.left) + acc_leaves_of(b.right) =~= l0 + (acc_leaves_of(b.left) + acc_leaves_of(b.right)));
        },
        AccumulatorSetOperationProofNode::Or(b) => {
            collect_leaves(&b.left, leaves);
            collect_leaves(&b.right, leaves);
            assert(l0 + acc_leaves_of(b.left) + acc_leaves_of(b.right) =~= l0 + (acc_leaves_of(b.left) + acc_leaves_of(b.right)));
        },
    }
}

/// The leaves of an accumulator proof tree, left to right: the order in
/// which `verify_accumulator_set_operation_node` reads their verdicts.
pub fn accumulator_proof_leaves(node: &AccumulatorSetOperationProofNode) -> (r: Vec<&SetProofLeaf>)
    ensures
        r@.map_values(|l: &SetProofLeaf| *l) == acc_leaves_of(*node),
{
    let mut leaves: Vec<&SetProofLeaf> = Vec::new();
    assert(leaves@.map_values(|l: &SetProofLeaf| *l) =~= Seq::<SetProofLeaf>::empty());
    collect_leaves(node, &mut leaves);
    assert(Seq::<SetProofLeaf>::empty() + acc_leaves_of(*node) =~= acc_leaves_of(*node));
    leaves
}

} // verus!
