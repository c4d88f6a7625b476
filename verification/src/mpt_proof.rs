//! Checking an MPT proof: the value it attests, read from its elements,
//! and the verdict on the root the trie library computes from it.
use vstd::prelude::*;
use crate::verification::copy_bytes;

verus! {

/// One element of an MPT proof: its kind (0 for the leaf) and the value it
/// carries.
pub struct MptProofElement {
    pub proof_type: u8,
    pub value: Vec<u8>,
}

/// An MPT proof as far as its value goes: whether the key exists and the
/// proof's elements.
pub struct MptProofView {
    pub is_exist: bool,
    pub proofs: Vec<MptProofElement>,
}

/// The position of the first leaf element at or after `i`.
pub open spec fn first_leaf_from(ps: Seq<MptProofElement>, i: int) -> Option<int>
    decreases ps.len() - i,
{
    if i < 0 || i >= ps.len() {
        None
    } else if ps[i].proof_type == 0 {
        Some(i)
    } else {
        first_leaf_from(ps, i + 1)
    }
}

/// The position of the first element with a value at or after `i`.
pub open spec fn first_valued_from(ps: Seq<MptProofElement>, i: int) -> Option<int>
    decreases ps.len() - i,
{
    if i < 0 || i >= ps.len() {
        None
    } else if ps[i].value@.len() > 0 {
        Some(i)
    } else {
        first_valued_from(ps, i + 1)
    }
}

/// The value a proof attests: nothing when the key does not exist or the
/// proof is empty; else the first leaf's value when it has one, else the
/// first value any element carries, else nothing.
pub open spec fn mpt_value_spec(p: MptProofView) -> Seq<u8> {
    let ps = p.proofs@;
    if !p.is_exist || ps.len() == 0 {
        Seq::empty()
    } else {
        match first_leaf_from(ps, 0) {
            Some(i) if ps[i].value@.len() > 0 => ps[i].value@,
            _ => match first_valued_from(ps, 0) {
                Some(j) => ps[j].value@,
                None => Seq::empty(),
            },
        }
    }
}

fn first_leaf(ps: &Vec<MptProofElement>) -> (r: Option<usize>)
    ensures
        r matches Some(i) ==> i < ps@.len() && first_leaf_from(ps@, 0) == Some(i as int),
        r is None ==> first_leaf_from(ps@, 0) is None,
{
    let mut i: usize = 0;
    while i < ps.len()
        invariant
            i <= ps@.len(),
            first_leaf_from(ps@, 0) == first_leaf_from(ps@, i as int),
        decreases ps@.len() - i,
    {
        if ps[i].proof_type == 0 {
            return Some(i);
        }
        i = i + 1;
    }
    None
}

fn first_valued(ps: &Vec<MptProofElement>) -> (r: Option<usize>)
    ensures
        r matches Some(i) ==> i < ps@.len() && first_valued_from(ps@, 0) == Some(i as int),
        r is None ==> first_valued_from(ps@, 0) is None,
{
    let mut i: usize = 0;
    while i < ps.len()
        invariant
            i <= ps@.len(),
            first_valued_from(ps@, 0) == first_valued_from(ps@, i as int),
        decreases ps@.len() - i,
    {
        if ps[i].value.len() > 0 {
            return Some(i);
        }
        i = i + 1;
    }
    None
}

/// The value a proof attests (its bytes; the trie library reads them as
/// text).
pub fn mpt_proof_value(p: &MptProofView) -> (r: Vec<u8>)
    ensures
        r@ == mpt_value_spec(*p),
{
    if !p.is_exist || p.proofs.len() == 0 {
        return Vec::new();
    }
    if let Some(i) = first_leaf(&p.proofs) {
        if p.proofs[i].value.len() > 0 {
            return copy_bytes(p.proofs[i].value.as_slice());
        }
    }
    match first_valued(&p.proofs) {
        Some(j) => copy_bytes(p.proofs[j].value.as_slice()),
        None => Vec::new(),
    }
}

/// The root of the empty trie: the SHA-256 of nothing.
pub open spec fn empty_trie_root() -> Seq<u8> {
    seq![
        0xe3u8, 0xb0, 0xc4, 0x42, 0x98, 0xfc, 0x1c, 0x14, 0x9a, 0xfb, 0xf4, 0xc8, 0x99, 0x6f, 0xb9, 0x24,
        0x27, 0xae, 0x41, 0xe4, 0x64, 0x9b, 0x93, 0x4c, 0xa4, 0x95, 0x99, 0x1b, 0x78, 0x52, 0xb8, 0x55,
    ]
}

/// Whether the root the trie library computed from a proof answers the
/// expected root hash: an empty root hash is not checked; one of another
/// length than 32 bytes fails; all zeros stand for the empty trie too;
/// otherwise the roots must be equal.
pub open spec fn mpt_root_verdict(root_hash: Seq<u8>, computed: Seq<u8>) -> bool {
    if root_hash.len() == 0 {
        true
    } else if root_hash.len() != 32 {
        false
    } else if root_hash == Seq::new(32, |i: int| 0u8) && computed == empty_trie_root() {
        true
    } else {
        computed == root_hash
    }
}

fn all_zero_bytes(b: &[u8]) -> (r: bool)
    ensures
        r == (b@ == Seq::new(b@.len(), |i: int| 0u8)),
{
    let mut i: usize = 0;
    while i < b.len()
        invariant
            i <= b@.len(),
            forall|k: int| 0 <= k < i ==> b@[k] == 0,
        decreases b@.len() - i,
    {
        if b[i] != 0 {
            assert(Seq::new(b@.len(), |k: int| 0u8)[i as int] == 0);
            return false;
        }
        i = i + 1;
    }
    assert(b@ =~= Seq::new(b@.len(), |k: int| 0u8));
    true
}

/// Checks the root computed from an MPT proof against the expected root
/// hash.
pub fn verify_full_mpt_proof(root_hash: &[u8], computed_root: &[u8]) -> (r: bool)
    ensures
        r == mpt_root_verdict(root_hash@, computed_root@),
{
    if root_hash.len() == 0 {
        return true;
    }
    if root_hash.len() != 32 {
        return false;
    }
    let empty: [u8; 32] = [
        0xe3, 0xb0, 0xc4, 0x42, 0x98, 0xfc, 0x1c, 0x14, 0x9a, 0xfb, 0xf4, 0xc8, 0x99, 0x6f, 0xb9, 0x24,
        0x27, 0xae, 0x41, 0xe4, 0x64, 0x9b, 0x93, 0x4c, 0xa4, 0x95, 0x99, 0x1b, 0x78, 0x52, 0xb8, 0x55,
    ];
    assert(empty@ =~= empty_trie_root());
    if all_zero_bytes(root_hash) && crate::verification::bytes_equal(computed_root, empty.as_slice()) {
        return true;
    }
    crate::verification::bytes_equal(computed_root, root_hash)
}

/// Checks an MPT proof against a root hash: an empty proof passes (the key
/// is absent); otherwise `computed_root` is the root the trie library
/// computes from the decoded proof and the value it attests, `None` when the
/// proof does not decode.
pub fn verify_mpt(proof: &[u8], computed_root: Option<&[u8]>, root_hash: &[u8]) -> (r: bool)
    ensures
        r == if proof@.len() == 0 {
            true
        } else {
            match computed_root {
                None => false,
                Some(c) => mpt_root_verdict(root_hash@, c@),
            }
        },
{
    if proof.len() == 0 {
        return true;
    }
    match computed_root {
        None => false,
        Some(c) => verify_full_mpt_proof(root_hash, c),
    }
}

/// Leaving out the root hash never turns an MPT proof down: one that
/// passes against a root hash passes when no root hash is given.
pub proof fn mpt_proof_passes_without_root(proof: Seq<u8>, computed_root: Option<Seq<u8>>, root_hash: Seq<u8>)
    requires
        proof.len() == 0 || (computed_root matches Some(c) && mpt_root_verdict(root_hash, c)),
    ensures
        proof.len() == 0 || (computed_root matches Some(c) && mpt_root_verdict(Seq::empty(), c)),
{
}

} // verus!
