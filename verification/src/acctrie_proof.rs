//! The byte layout of AccTrie proofs (insertion, deletion, query and batch
//! insertion): what a proof must contain for it to be accepted, and the
//! membership claims that its accumulators must then bear out.
use vstd::prelude::*;
use ark_serialize::CanonicalDeserialize;
use crate::verification::{
    acc_root_ok, copy_bytes, read_fields, deserialize_acc_snapshot, field_end, fields_from, read_u32_le,
    skip_length_prefixed_bytes, snapshot_at, u32_le, verify_acc_root,
};

verus! {

/// Whether the bytes start with a BLS12-381 G1 point in uncompressed form
/// that the decoder accepts: the two coordinates read as field elements,
/// the infinity flag is consistent, and the point built from them passes
/// the subgroup test (which takes the point to be on the curve and does
/// not check that it is).
pub uninterp spec fn g1_decodes_spec(bytes: Seq<u8>) -> bool;

/// Whether the bytes start with a BLS12-381 scalar in its canonical form.
pub uninterp spec fn fr_decodes_spec(bytes: Seq<u8>) -> bool;

/// `CanonicalDeserialize::deserialize_uncompressed` for
/// `ark_bls12_381::G1Affine` (ark-ec 0.3) succeeds on the bytes: a function
/// of the bytes alone, left to the name `g1_decodes_spec`.
#[verifier::external_body]
fn g1_decodes(bytes: &[u8]) -> (r: bool)
    ensures
        r == g1_decodes_spec(bytes@),
{
    ark_bls12_381::G1Affine::deserialize_uncompressed(bytes).is_ok()
}

/// `CanonicalDeserialize::deserialize_uncompressed` for
/// `ark_bls12_381::Fr` (ark-ff 0.3) succeeds on the bytes: a function of the
/// bytes alone, left to the name `fr_decodes_spec`.
#[verifier::external_body]
fn fr_decodes(bytes: &[u8]) -> (r: bool)
    ensures
        r == fr_decodes_spec(bytes@),
{
    ark_bls12_381::Fr::deserialize_uncompressed(bytes).is_ok()
}

/// A membership proof (a G1 witness and a scalar element) that must verify
/// against an accumulator (a G1 point), all three as their encoded bytes.
pub struct MembershipClaim {
    pub witness: Vec<u8>,
    pub element: Vec<u8>,
    pub accumulator: Vec<u8>,
}

pub open spec fn claim_view(c: MembershipClaim) -> (Seq<u8>, Seq<u8>, Seq<u8>) {
    (c.witness@, c.element@, c.accumulator@)
}

pub open spec fn claims_view(cs: Seq<MembershipClaim>) -> Seq<(Seq<u8>, Seq<u8>, Seq<u8>)> {
    cs.map_values(|c: MembershipClaim| claim_view(c))
}

/// A membership proof at `o`: a presence byte (`0`: none), a length-prefixed
/// G1 witness and a length-prefixed scalar element, with the offset reached.
/// A missing or undecodable part gives `None`, at the offset where reading
/// stopped.
pub open spec fn membership_at(s: Seq<u8>, o: int) -> (Option<(Seq<u8>, Seq<u8>)>, int) {
    if o >= s.len() {
        (None, o)
    } else if s[o] == 0 {
        (None, o + 1)
    } else if o + 5 > s.len() {
        (None, o + 1)
    } else if o + 5 + u32_le(s, o + 1) > s.len() {
        (None, o + 5)
    } else if !g1_decodes_spec(s.subrange(o + 5, o + 5 + u32_le(s, o + 1))) {
        (None, o + 5)
    } else {
        let c = o + 5 + u32_le(s, o + 1);
        if c + 4 > s.len() {
            (None, c)
        } else if c + 4 + u32_le(s, c) > s.len() {
            (None, c + 4)
        } else if !fr_decodes_spec(s.subrange(c + 4, c + 4 + u32_le(s, c))) {
            (None, c + 4)
        } else {
            (
                Some((s.subrange(o + 5, c), s.subrange(c + 4, c + 4 + u32_le(s, c)))),
                c + 4 + u32_le(s, c),
            )
        }
    }
}

/// An accumulator behind a presence byte at `o` (`0`: none), with the
/// offset reached; a missing or undecodable one gives `None`, at the offset
/// where reading stopped.
pub open spec fn optional_acc_at(s: Seq<u8>, o: int) -> (Option<Seq<u8>>, int) {
    if o >= s.len() {
        (None, o)
    } else if s[o] == 0 {
        (None, o + 1)
    } else if o + 5 > s.len() {
        (None, o + 1)
    } else if o + 5 + u32_le(s, o + 1) > s.len() {
        (None, o + 5)
    } else if !g1_decodes_spec(s.subrange(o + 5, o + 5 + u32_le(s, o + 1))) {
        (None, o + 5)
    } else {
        (Some(s.subrange(o + 5, o + 5 + u32_le(s, o + 1))), o + 5 + u32_le(s, o + 1))
    }
}

fn sub_bytes(s: &[u8], a: usize, b: usize) -> (r: Vec<u8>)
    requires
        a <= b <= s@.len(),
    ensures
        r@ == s@.subrange(a as int, b as int),
{
    copy_bytes(&s[a..b])
}

/// Reads a membership proof at `offset`.
fn read_membership(s: &[u8], offset: usize) -> (r: (Option<(Vec<u8>, Vec<u8>)>, usize))
    requires
        offset <= s@.len(),
    ensures
        r.1 <= s@.len(),
        membership_at(s@, offset as int) == (
            match r.0 {
                Some((w, e)) => Some((w@, e@)),
                None => None,
            },
            r.1 as int,
        ),
{
    if offset >= s.len() {
        return (None, offset);
    }
    if s[offset] == 0 {
        return (None, offset + 1);
    }
    if s.len() - offset < 5 {
        return (None, offset + 1);
    }
    let wl = read_u32_le(s, offset + 1);
    let b = offset + 5;
    if wl > s.len() - b {
        return (None, b);
    }
    if !g1_decodes(&s[b..b + wl]) {
        return (None, b);
    }
    let c = b + wl;
    if s.len() - c < 4 {
        return (None, c);
    }
    let el = read_u32_le(s, c);
    let d = c + 4;
    if el > s.len() - d {
        return (None, d);
    }
    if !fr_decodes(&s[d..d + el]) {
        return (None, d);
    }
    (Some((sub_bytes(s, b, c), sub_bytes(s, d, d + el))), d + el)
}

/// Reads an accumulator behind a presence byte at `offset`.
fn read_optional_acc(s: &[u8], offset: usize) -> (r: (Option<Vec<u8>>, usize))
    requires
        offset <= s@.len(),
    ensures
        r.1 <= s@.len(),
        optional_acc_at(s@, offset as int) == (
            match r.0 {
                Some(a) => Some(a@),
                None => None,
            },
            r.1 as int,
        ),
{
    if offset >= s.len() {
        return (None, offset);
    }
    if s[offset] == 0 {
        return (None, offset + 1);
    }
    if s.len() - offset < 5 {
        return (None, offset + 1);
    }
    let l = read_u32_le(s, offset + 1);
    let b = offset + 5;
    if l > s.len() - b {
        return (None, b);
    }
    if !g1_decodes(&s[b..b + l]) {
        return (None, b);
    }
    (Some(sub_bytes(s, b, b + l)), b + l)
}

/// A key at `o`: a four-byte length of at most 1024, then the key; the
/// offset after it.
pub open spec fn key_end(s: Seq<u8>, o: int) -> Option<int> {
    if o + 4 > s.len() || u32_le(s, o) > 1024 || o + 4 + u32_le(s, o) > s.len() {
        None
    } else {
        Some(o + 4 + u32_le(s, o))
    }
}

/// A neighbour key behind a presence byte at `o` (`1`: present), whose
/// length is taken on trust: the offset after it, which may lie past the end.
pub open spec fn flagged_key_end(s: Seq<u8>, o: int) -> Option<int> {
    if o >= s.len() {
        None
    } else if s[o] == 1 {
        if o + 5 > s.len() {
            None
        } else {
            Some(o + 5 + u32_le(s, o + 1))
        }
    } else {
        Some(o + 1)
    }
}

/// A length-prefixed field behind a presence byte at `o` (`1`: present):
/// the offset after it.
pub open spec fn flagged_field_end(s: Seq<u8>, o: int) -> Option<int> {
    if o >= s.len() {
        None
    } else if s[o] == 1 {
        field_end(s, o + 1)
    } else {
        Some(o + 1)
    }
}

/// A length-prefixed accumulator at `o`, absent when its length is 0 and
/// otherwise required to decode.
pub open spec fn sized_acc_at(s: Seq<u8>, o: int) -> Option<(Option<Seq<u8>>, int)> {
    match field_end(s, o) {
        None => None,
        Some(e) => if e == o + 4 {
            Some((None, e))
        } else if g1_decodes_spec(s.subrange(o + 4, e)) {
            Some((Some(s.subrange(o + 4, e)), e))
        } else {
            None
        },
    }
}

/// A length-prefixed accumulator at `o` that must decode.
pub open spec fn required_acc_at(s: Seq<u8>, o: int) -> Option<(Seq<u8>, int)> {
    match field_end(s, o) {
        None => None,
        Some(e) => if g1_decodes_spec(s.subrange(o + 4, e)) {
            Some((s.subrange(o + 4, e), e))
        } else {
            None
        },
    }
}

/// An accumulator behind a presence byte at `o` (`1`: present). With
/// `strict`, a present one must decode; without, one that does not decode
/// counts as absent.
pub open spec fn flagged_acc_at(s: Seq<u8>, o: int, strict: bool) -> Option<(Option<Seq<u8>>, int)> {
    if o >= s.len() {
        None
    } else if s[o] == 1 {
        match field_end(s, o + 1) {
            None => None,
            Some(e) => if g1_decodes_spec(s.subrange(o + 5, e)) {
                Some((Some(s.subrange(o + 5, e)), e))
            } else if strict {
                None
            } else {
                Some((None, e))
            },
        }
    } else {
        Some((None, o + 1))
    }
}

/// The claim that a membership proof makes, when both it and its
/// accumulator are there.
pub open spec fn claim_of(m: Option<(Seq<u8>, Seq<u8>)>, acc: Option<Seq<u8>>) -> Seq<(Seq<u8>, Seq<u8>, Seq<u8>)> {
    match (m, acc) {
        (Some((w, e)), Some(a)) => seq![(w, e, a)],
        _ => Seq::empty(),
    }
}

/// The end of a proof: at the very end it passes only without a root hash
/// to check; otherwise an accumulator snapshot must follow that stands for
/// the root hash.
pub open spec fn snapshot_tail(s: Seq<u8>, p: int, root_hash: Seq<u8>, claims: Seq<(Seq<u8>, Seq<u8>, Seq<u8>)>) -> Option<Seq<(Seq<u8>, Seq<u8>, Seq<u8>)>> {
    if p == s.len() {
        if root_hash.len() == 0 {
            Some(claims)
        } else {
            None
        }
    } else {
        required_snapshot(s, p, root_hash, claims)
    }
}

/// An accumulator snapshot at `p` must follow and stand for the root hash.
pub open spec fn required_snapshot(s: Seq<u8>, p: int, root_hash: Seq<u8>, claims: Seq<(Seq<u8>, Seq<u8>, Seq<u8>)>) -> Option<Seq<(Seq<u8>, Seq<u8>, Seq<u8>)>> {
    match snapshot_at(s, p) {
        None => None,
        Some((snap, _)) => if acc_root_ok(snap, root_hash) {
            Some(claims)
        } else {
            None
        },
    }
}

/// The fields of an insertion proof before its membership proofs: after the
/// type byte, the key, the value, optional previous and next keys, the old
/// and new accumulators and three optional neighbour accumulators. Gives the
/// new accumulator, the old and new accumulators of the next leaf, and the
/// offset reached.
pub open spec fn insertion_header(s: Seq<u8>) -> Option<(Option<Seq<u8>>, Option<Seq<u8>>, Option<Seq<u8>>, int)> {
    match key_end(s, 1) {
        None => None,
        Some(o1) => match field_end(s, o1) {
            None => None,
            Some(o2) => match flagged_key_end(s, o2) {
                None => None,
                Some(o3) => match flagged_key_end(s, o3) {
                    None => None,
                    Some(o4) => match sized_acc_at(s, o4) {
                        None => None,
                        Some((_, o5)) => insertion_accs(s, o5),
                    },
                },
            },
        },
    }
}

/// The new accumulator and the three optional neighbour accumulators of an
/// insertion proof, from `o` on.
pub open spec fn insertion_accs(s: Seq<u8>, o: int) -> Option<(Option<Seq<u8>>, Option<Seq<u8>>, Option<Seq<u8>>, int)> {
    match sized_acc_at(s, o) {
        None => None,
        Some((acc_new, o6)) => match flagged_acc_at(s, o6, true) {
            None => None,
            Some((_, o7)) => match flagged_acc_at(s, o7, true) {
                None => None,
                Some((next_old, o8)) => match flagged_acc_at(s, o8, true) {
                    None => None,
                    Some((next_new, o9)) => Some((acc_new, next_old, next_new, o9)),
                },
            },
        },
    }
}

/// What an AccTrie insertion proof establishes: `None` when it is rejected
/// as it stands, else the membership claims it rests on. It is at least 100
/// bytes; its header is followed by six membership proofs and an
/// accumulator snapshot (which may be left out when no root hash is
/// checked).
pub open spec fn insertion_verdict(s: Seq<u8>, root_hash: Seq<u8>) -> Option<Seq<(Seq<u8>, Seq<u8>, Seq<u8>)>> {
    if s.len() < 100 {
        None
    } else {
        match insertion_header(s) {
            None => None,
            Some((acc_new, next_old, next_new, o)) => insertion_memberships(s, o, acc_new, next_old, next_new, root_hash),
        }
    }
}

/// The six membership proofs of an insertion proof, from `o` on, and the
/// snapshot after them.
pub open spec fn insertion_memberships(
    s: Seq<u8>,
    o: int,
    acc_new: Option<Seq<u8>>,
    next_old: Option<Seq<u8>>,
    next_new: Option<Seq<u8>>,
    root_hash: Seq<u8>,
) -> Option<Seq<(Seq<u8>, Seq<u8>, Seq<u8>)>> {
    let (m1, p1) = membership_at(s, o);
    let (m2, p2) = membership_at(s, p1);
    let (m3, p3) = membership_at(s, p2);
    let (m4, p4) = membership_at(s, p3);
    let (m5, p5) = membership_at(s, p4);
    let (m6, p6) = membership_at(s, p5);
    snapshot_tail(
        s,
        p6,
        root_hash,
        claim_of(m1, next_old) + claim_of(m2, acc_new) + claim_of(m3, acc_new) + claim_of(m4, next_new)
            + claim_of(m5, next_new) + claim_of(m6, acc_new),
    )
}

fn read_key(s: &[u8], offset: usize) -> (r: Option<usize>)
    requires
        offset <= s@.len(),
    ensures
        match r {
            Some(e) => key_end(s@, offset as int) == Some(e as int) && e <= s@.len(),
            None => key_end(s@, offset as int) is None,
        },
{
    if s.len() - offset < 4 {
        return None;
    }
    let kl = read_u32_le(s, offset);
    if kl > 1024 || kl > s.len() - offset - 4 {
        return None;
    }
    Some(offset + 4 + kl)
}

/// Steps over a flagged neighbour key; `None` also when the step would
/// lead past the end.
fn skip_flagged_key(s: &[u8], offset: usize) -> (r: Option<usize>)
    requires
        offset <= s@.len(),
    ensures
        match r {
            Some(e) => flagged_key_end(s@, offset as int) == Some(e as int) && e <= s@.len(),
            None => match flagged_key_end(s@, offset as int) {
                None => true,
                Some(e) => e > s@.len(),
            },
        },
{
    if offset >= s.len() {
        return None;
    }
    if s[offset] == 1 {
        if s.len() - offset < 5 {
            return None;
        }
        let l = read_u32_le(s, offset + 1);
        if l > s.len() - offset - 5 {
            return None;
        }
        Some(offset + 5 + l)
    } else {
        Some(offset + 1)
    }
}

fn skip_flagged_field(s: &[u8], offset: usize) -> (r: Option<usize>)
    requires
        offset <= s@.len(),
    ensures
        match r {
            Some(e) => flagged_field_end(s@, offset as int) == Some(e as int) && e <= s@.len(),
            None => flagged_field_end(s@, offset as int) is None,
        },
{
    if offset >= s.len() {
        return None;
    }
    if s[offset] == 1 {
        skip_length_prefixed_bytes(s, offset + 1)
    } else {
        Some(offset + 1)
    }
}

fn read_sized_acc(s: &[u8], offset: usize) -> (r: Option<(Option<Vec<u8>>, usize)>)
    requires
        offset <= s@.len(),
    ensures
        match r {
            Some((a, e)) => e <= s@.len() && sized_acc_at(s@, offset as int) == Some(
                (
                    match a {
                        Some(v) => Some(v@),
                        None => None,
                    },
                    e as int,
                ),
            ),
            None => sized_acc_at(s@, offset as int) is None,
        },
{
    match skip_length_prefixed_bytes(s, offset) {
        None => None,
        Some(e) => {
            if e == offset + 4 {
                Some((None, e))
            } else if g1_decodes(&s[offset + 4..e]) {
                Some((Some(sub_bytes(s, offset + 4, e)), e))
            } else {
                None
            }
        },
    }
}

fn read_required_acc(s: &[u8], offset: usize) -> (r: Option<(Vec<u8>, usize)>)
    requires
        offset <= s@.len(),
    ensures
        match r {
            Some((a, e)) => e <= s@.len() && required_acc_at(s@, offset as int) == Some((a@, e as int)),
            None => required_acc_at(s@, offset as int) is None,
        },
{
    match skip_length_prefixed_bytes(s, offset) {
        None => None,
        Some(e) => {
            if g1_decodes(&s[offset + 4..e]) {
                Some((sub_bytes(s, offset + 4, e), e))
            } else {
                None
            }
        },
    }
}

fn read_flagged_acc(s: &[u8], offset: usize, strict: bool) -> (r: Option<(Option<Vec<u8>>, usize)>)
    requires
        offset <= s@.len(),
    ensures
        match r {
            Some((a, e)) => e <= s@.len() && flagged_acc_at(s@, offset as int, strict) == Some(
                (
                    match a {
                        Some(v) => Some(v@),
                        None => None,
                    },
                    e as int,
                ),
            ),
            None => flagged_acc_at(s@, offset as int, strict) is None,
        },
{
    if offset >= s.len() {
        return None;
    }
    if s[offset] == 1 {
        match skip_length_prefixed_bytes(s, offset + 1) {
            None => None,
            Some(e) => {
                if g1_decodes(&s[offset + 5..e]) {
                    Some((Some(sub_bytes(s, offset + 5, e)), e))
                } else if strict {
                    None
                } else {
                    Some((None, e))
                }
            },
        }
    } else {
        Some((None, offset + 1))
    }
}

/// Adds the claim of a membership proof, when it and its accumulator are
/// both there.
fn push_claim(claims: &mut Vec<MembershipClaim>, m: Option<(Vec<u8>, Vec<u8>)>, acc: &Option<Vec<u8>>)
    ensures
        claims_view(final(claims)@) == claims_view(old(claims)@) + claim_of(
            match m {
                Some((w, e)) => Some((w@, e@)),
                None => None,
            },
            match acc {
                Some(a) => Some(a@),
                None => None,
            },
        ),
{
    let ghost before = claims@;
    match (m, acc) {
        (Some((w, e)), Some(a)) => {
            claims.push(MembershipClaim { witness: w, element: e, accumulator: copy_bytes(a.as_slice()) });
            assert(claims_view(claims@) =~= claims_view(before).push(claim_view(claims@.last())));
        },
        _ => {
            assert(claims_view(claims@) =~= claims_view(before) + Seq::<(Seq<u8>, Seq<u8>, Seq<u8>)>::empty());
        },
    }
}

pub open spec fn opt_view(a: Option<Vec<u8>>) -> Option<Seq<u8>> {
    match a {
        Some(v) => Some(v@),
        None => None,
    }
}

/// Checks the end of a proof against the root hash.
fn check_snapshot_tail(s: &[u8], p: usize, root_hash: &[u8], claims: Vec<MembershipClaim>) -> (r: Option<Vec<MembershipClaim>>)
    requires
        p <= s@.len(),
    ensures
        match r {
            Some(c) => snapshot_tail(s@, p as int, root_hash@, claims_view(claims@)) == Some(claims_view(c@)),
            None => snapshot_tail(s@, p as int, root_hash@, claims_view(claims@)) is None,
        },
{
    if p == s.len() {
        if root_hash.len() == 0 {
            return Some(claims);
        }
        return None;
    }
    check_required_snapshot(s, p, root_hash, claims)
}

fn check_required_snapshot(s: &[u8], p: usize, root_hash: &[u8], claims: Vec<MembershipClaim>) -> (r: Option<Vec<MembershipClaim>>)
    requires
        p <= s@.len(),
    ensures
        match r {
            Some(c) => required_snapshot(s@, p as int, root_hash@, claims_view(claims@)) == Some(claims_view(c@)),
            None => required_snapshot(s@, p as int, root_hash@, claims_view(claims@)) is None,
        },
{
    match deserialize_acc_snapshot(s, p) {
        None => None,
        Some((snap, _)) => {
            if verify_acc_root(&snap, root_hash) {
                Some(claims)
            } else {
                None
            }
        },
    }
}

fn read_insertion_accs(s: &[u8], o: usize) -> (r: Option<(Option<Vec<u8>>, Option<Vec<u8>>, Option<Vec<u8>>, usize)>)
    requires
        o <= s@.len(),
    ensures
        match r {
            Some((a, b, c, e)) => e <= s@.len() && insertion_accs(s@, o as int) == Some(
                (opt_view(a), opt_view(b), opt_view(c), e as int),
            ),
            None => insertion_accs(s@, o as int) is None,
        },
{
    let (acc_new, o6) = match read_sized_acc(s, o) {
        Some(x) => x,
        None => return None,
    };
    let o7 = match read_flagged_acc(s, o6, true) {
        Some((_, e)) => e,
        None => return None,
    };
    let (next_old, o8) = match read_flagged_acc(s, o7, true) {
        Some(x) => x,
        None => return None,
    };
    let (next_new, o9) = match read_flagged_acc(s, o8, true) {
        Some(x) => x,
        None => return None,
    };
    Some((acc_new, next_old, next_new, o9))
}

fn read_insertion_header(s: &[u8]) -> (r: Option<(Option<Vec<u8>>, Option<Vec<u8>>, Option<Vec<u8>>, usize)>)
    requires
        s@.len() >= 100,
    ensures
        match r {
            Some((a, b, c, e)) => e <= s@.len() && insertion_header(s@) == Some(
                (opt_view(a), opt_view(b), opt_view(c), e as int),
            ),
            None => insertion_header(s@) is None,
        },
{
    let o1 = match read_key(s, 1) {
        Some(e) => e,
        None => return None,
    };
    let o2 = match skip_length_prefixed_bytes(s, o1) {
        Some(e) => e,
        None => return None,
    };
    let o3 = match skip_flagged_key(s, o2) {
        Some(e) => e,
        None => return None,
    };
    let o4 = match skip_flagged_key(s, o3) {
        Some(e) => e,
        None => {
            assert(flagged_key_end(s@, o3 as int) matches Some(e) ==> field_end(s@, e) is None);
            return None;
        },
    };
    let o5 = match read_sized_acc(s, o4) {
        Some((_, e)) => e,
        None => return None,
    };
    read_insertion_accs(s, o5)
}

/// Checks an AccTrie insertion proof: `None` when it is rejected, else the
/// membership claims that must still verify for it to be accepted.
pub fn verify_acctrie_insertion_proof(proof: &[u8], root_hash: &[u8]) -> (r: Option<Vec<MembershipClaim>>)
    ensures
        match r {
            Some(c) => insertion_verdict(proof@, root_hash@) == Some(claims_view(c@)),
            None => insertion_verdict(proof@, root_hash@) is None,
        },
{
    let s = proof;
    if s.len() < 100 {
        return None;
    }
    let (acc_new, next_old, next_new, o9) = match read_insertion_header(s) {
        Some(x) => x,
        None => return None,
    };
    let mut claims: Vec<MembershipClaim> = Vec::new();
    let (m1, p1) = read_membership(s, o9);
    push_claim(&mut claims, m1, &next_old);
    let (m2, p2) = read_membership(s, p1);
    push_claim(&mut claims, m2, &acc_new);
    let (m3, p3) = read_membership(s, p2);
    push_claim(&mut claims, m3, &acc_new);
    let (m4, p4) = read_membership(s, p3);
    push_claim(&mut claims, m4, &next_new);
    let (m5, p5) = read_membership(s, p4);
    push_claim(&mut claims, m5, &next_new);
    let (m6, p6) = read_membership(s, p5);
    push_claim(&mut claims, m6, &acc_new);
    assert(claims_view(Seq::<MembershipClaim>::empty()) =~= Seq::<(Seq<u8>, Seq<u8>, Seq<u8>)>::empty());
    check_snapshot_tail(s, p6, root_hash, claims)
}

/// The fields of a deletion proof before its membership proofs: after the
/// type byte, the key, a whole-leaf byte, an optional value, optional
/// previous and next keys, the old accumulator (which must decode), an
/// optional new accumulator, and the optional old and new accumulators of
/// the next leaf (either counting as absent when it does not decode). Gives
/// the old accumulator, the next leaf's two accumulators and the offset.
pub open spec fn deletion_header(s: Seq<u8>) -> Option<(Seq<u8>, Option<Seq<u8>>, Option<Seq<u8>>, int)> {
    match key_end(s, 1) {
        None => None,
        Some(o1) => if o1 >= s.len() {
            None
        } else {
            match flagged_field_end(s, o1 + 1) {
                None => None,
                Some(o3) => match flagged_key_end(s, o3) {
                    None => None,
                    Some(o4) => match flagged_key_end(s, o4) {
                        None => None,
                        Some(o5) => deletion_accs(s, o5),
                    },
                },
            }
        },
    }
}

pub open spec fn deletion_accs(s: Seq<u8>, o: int) -> Option<(Seq<u8>, Option<Seq<u8>>, Option<Seq<u8>>, int)> {
    match required_acc_at(s, o) {
        None => None,
        Some((acc_old, o6)) => match flagged_acc_at(s, o6, true) {
            None => None,
            Some((_, o7)) => match flagged_acc_at(s, o7, false) {
                None => None,
                Some((next_old, o8)) => match flagged_acc_at(s, o8, false) {
                    None => None,
                    Some((next_new, o9)) => Some((acc_old, next_old, next_new, o9)),
                },
            },
        },
    }
}

/// What an AccTrie deletion proof establishes: `None` when it is rejected
/// as it stands, else the membership claims it rests on. It is at least 50
/// bytes; its header is followed by four membership proofs and an
/// accumulator snapshot that stands for the root hash.
pub open spec fn deletion_verdict(s: Seq<u8>, root_hash: Seq<u8>) -> Option<Seq<(Seq<u8>, Seq<u8>, Seq<u8>)>> {
    if s.len() < 50 {
        None
    } else {
        match deletion_header(s) {
            None => None,
            Some((acc_old, next_old, next_new, o)) => {
                let (m1, p1) = membership_at(s, o);
                let (m2, p2) = membership_at(s, p1);
                let (m3, p3) = membership_at(s, p2);
                let (m4, p4) = membership_at(s, p3);
                required_snapshot(
                    s,
                    p4,
                    root_hash,
                    claim_of(m1, Some(acc_old)) + claim_of(m2, Some(acc_old)) + claim_of(m3, next_old)
                        + claim_of(m4, next_new),
                )
            },
        }
    }
}

fn read_deletion_accs(s: &[u8], o: usize) -> (r: Option<(Vec<u8>, Option<Vec<u8>>, Option<Vec<u8>>, usize)>)
    requires
        o <= s@.len(),
    ensures
        match r {
            Some((a, b, c, e)) => e <= s@.len() && deletion_accs(s@, o as int) == Some(
                (a@, opt_view(b), opt_view(c), e as int),
            ),
            None => deletion_accs(s@, o as int) is None,
        },
{
    let (acc_old, o6) = match read_required_acc(s, o) {
        Some(x) => x,
        None => return None,
    };
    let o7 = match read_flagged_acc(s, o6, true) {
        Some((_, e)) => e,
        None => return None,
    };
    let (next_old, o8) = match read_flagged_acc(s, o7, false) {
        Some(x) => x,
        None => return None,
    };
    let (next_new, o9) = match read_flagged_acc(s, o8, false) {
        Some(x) => x,
        None => return None,
    };
    Some((acc_old, next_old, next_new, o9))
}

fn read_deletion_header(s: &[u8]) -> (r: Option<(Vec<u8>, Option<Vec<u8>>, Option<Vec<u8>>, usize)>)
    requires
        s@.len() >= 50,
    ensures
        match r {
            Some((a, b, c, e)) => e <= s@.len() && deletion_header(s@) == Some(
                (a@, opt_view(b), opt_view(c), e as int),
            ),
            None => deletion_header(s@) is None,
        },
{
    let o1 = match read_key(s, 1) {
        Some(e) => e,
        None => return None,
    };
    if o1 >= s.len() {
        return None;
    }
    let o3 = match skip_flagged_field(s, o1 + 1) {
        Some(e) => e,
        None => return None,
    };
    let o4 = match skip_flagged_key(s, o3) {
        Some(e) => e,
        None => return None,
    };
    let o5 = match skip_flagged_key(s, o4) {
        Some(e) => e,
        None => {
            assert(flagged_key_end(s@, o4 as int) matches Some(e) ==> field_end(s@, e) is None);
            return None;
        },
    };
    read_deletion_accs(s, o5)
}

/// Checks an AccTrie deletion proof: `None` when it is rejected, else the
/// membership claims that must still verify for it to be accepted.
pub fn verify_acctrie_deletion_proof(proof: &[u8], root_hash: &[u8]) -> (r: Option<Vec<MembershipClaim>>)
    ensures
        match r {
            Some(c) => deletion_verdict(proof@, root_hash@) == Some(claims_view(c@)),
            None => deletion_verdict(proof@, root_hash@) is None,
        },
{
    let s = proof;
    if s.len() < 50 {
        return None;
    }
    let (acc_old, next_old, next_new, o9) = match read_deletion_header(s) {
        Some(x) => x,
        None => return None,
    };
    let old = Some(acc_old);
    let mut claims: Vec<MembershipClaim> = Vec::new();
    let (m1, p1) = read_membership(s, o9);
    push_claim(&mut claims, m1, &old);
    let (m2, p2) = read_membership(s, p1);
    push_claim(&mut claims, m2, &old);
    let (m3, p3) = read_membership(s, p2);
    push_claim(&mut claims, m3, &next_old);
    let (m4, p4) = read_membership(s, p3);
    push_claim(&mut claims, m4, &next_new);
    assert(claims_view(Seq::<MembershipClaim>::empty()) =~= Seq::<(Seq<u8>, Seq<u8>, Seq<u8>)>::empty());
    check_required_snapshot(s, p4, root_hash, claims)
}

/// A membership proof that must be present (its presence byte there and
/// not `0`) and decode.
pub open spec fn present_membership_at(s: Seq<u8>, o: int) -> Option<((Seq<u8>, Seq<u8>), int)> {
    if o >= s.len() || s[o] == 0 {
        None
    } else {
        match membership_at(s, o) {
            (None, _) => None,
            (Some(m), p) => Some((m, p)),
        }
    }
}

/// The rest of a query proof for a key that exists: the value, a count,
/// the leaf accumulator (which must decode), two membership proofs in it,
/// the root accumulator (which must be there and decode), one membership
/// proof in it, and the snapshot.
pub open spec fn query_found(s: Seq<u8>, o: int, root_hash: Seq<u8>) -> Option<Seq<(Seq<u8>, Seq<u8>, Seq<u8>)>> {
    match field_end(s, o) {
        None => None,
        Some(o2) => if o2 + 8 > s.len() {
            None
        } else {
            match required_acc_at(s, o2 + 8) {
                None => None,
                Some((ln_acc, o4)) => match present_membership_at(s, o4) {
                    None => None,
                    Some((m1, p1)) => match present_membership_at(s, p1) {
                        None => None,
                        Some((m2, p2)) => match optional_acc_at(s, p2) {
                            (None, _) => None,
                            (Some(root_acc), p3) => match present_membership_at(s, p3) {
                                None => None,
                                Some((m3, p4)) => required_snapshot(
                                    s,
                                    p4,
                                    root_hash,
                                    seq![(m1.0, m1.1, ln_acc), (m2.0, m2.1, ln_acc), (m3.0, m3.1, root_acc)],
                                ),
                            },
                        },
                    },
                },
            }
        },
    }
}

/// The rest of a query proof for a key that does not exist: optional
/// previous and next keys, the next leaf's optional accumulator (which must
/// decode when present), two membership proofs in it, the optional root
/// accumulator, one membership proof in it, and the snapshot.
pub open spec fn query_missing(s: Seq<u8>, o: int, root_hash: Seq<u8>) -> Option<Seq<(Seq<u8>, Seq<u8>, Seq<u8>)>> {
    match flagged_field_end(s, o) {
        None => None,
        Some(o2) => match flagged_field_end(s, o2) {
            None => None,
            Some(o3) => match flagged_acc_at(s, o3, true) {
                None => None,
                Some((ln_next, o4)) => {
                    let (m1, p1) = membership_at(s, o4);
                    let (m2, p2) = membership_at(s, p1);
                    let (root_acc, p3) = optional_acc_at(s, p2);
                    let (m3, p4) = membership_at(s, p3);
                    required_snapshot(
                        s,
                        p4,
                        root_hash,
                        claim_of(m1, ln_next) + claim_of(m2, ln_next) + claim_of(m3, root_acc),
                    )
                },
            },
        },
    }
}

/// What an AccTrie query proof establishes: `None` when it is rejected as
/// it stands, else the membership claims it rests on. It is at least 10
/// bytes: the type byte, an existence byte (`1`: the key exists), the key,
/// then the rest for an existing or a missing key.
pub open spec fn query_verdict(s: Seq<u8>, root_hash: Seq<u8>) -> Option<Seq<(Seq<u8>, Seq<u8>, Seq<u8>)>> {
    if s.len() < 10 {
        None
    } else {
        match key_end(s, 2) {
            None => None,
            Some(o1) => if s[1] == 1 {
                query_found(s, o1, root_hash)
            } else {
                query_missing(s, o1, root_hash)
            },
        }
    }
}

fn read_present_membership(s: &[u8], o: usize) -> (r: Option<(Vec<u8>, Vec<u8>, usize)>)
    requires
        o <= s@.len(),
    ensures
        match r {
            Some((w, e, p)) => p <= s@.len() && present_membership_at(s@, o as int) == Some(((w@, e@), p as int)),
            None => present_membership_at(s@, o as int) is None,
        },
{
    if o >= s.len() || s[o] == 0 {
        return None;
    }
    match read_membership(s, o) {
        (None, _) => None,
        (Some((w, e)), p) => Some((w, e, p)),
    }
}

fn claim(w: Vec<u8>, e: Vec<u8>, a: &Vec<u8>) -> (c: MembershipClaim)
    ensures
        claim_view(c) == (w@, e@, a@),
{
    MembershipClaim { witness: w, element: e, accumulator: copy_bytes(a.as_slice()) }
}

fn check_query_found(s: &[u8], o: usize, root_hash: &[u8]) -> (r: Option<Vec<MembershipClaim>>)
    requires
        o <= s@.len(),
    ensures
        match r {
            Some(c) => query_found(s@, o as int, root_hash@) == Some(claims_view(c@)),
            None => query_found(s@, o as int, root_hash@) is None,
        },
{
    let o2 = match skip_length_prefixed_bytes(s, o) {
        Some(e) => e,
        None => return None,
    };
    if s.len() - o2 < 8 {
        return None;
    }
    let (ln_acc, o4) = match read_required_acc(s, o2 + 8) {
        Some(x) => x,
        None => return None,
    };
    let (w1, e1, p1) = match read_present_membership(s, o4) {
        Some(x) => x,
        None => return None,
    };
    let (w2, e2, p2) = match read_present_membership(s, p1) {
        Some(x) => x,
        None => return None,
    };
    let (root_acc, p3) = match read_optional_acc(s, p2) {
        (Some(a), p) => (a, p),
        (None, _) => return None,
    };
    let (w3, e3, p4) = match read_present_membership(s, p3) {
        Some(x) => x,
        None => return None,
    };
    let mut claims: Vec<MembershipClaim> = Vec::new();
    claims.push(claim(w1, e1, &ln_acc));
    claims.push(claim(w2, e2, &ln_acc));
    claims.push(claim(w3, e3, &root_acc));
    assert(claims_view(claims@) =~= seq![(w1@, e1@, ln_acc@), (w2@, e2@, ln_acc@), (w3@, e3@, root_acc@)]);
    check_required_snapshot(s, p4, root_hash, claims)
}

fn check_query_missing(s: &[u8], o: usize, root_hash: &[u8]) -> (r: Option<Vec<MembershipClaim>>)
    requires
        o <= s@.len(),
    ensures
        match r {
            Some(c) => query_missing(s@, o as int, root_hash@) == Some(claims_view(c@)),
            None => query_missing(s@, o as int, root_hash@) is None,
        },
{
    let o2 = match skip_flagged_field(s, o) {
        Some(e) => e,
        None => return None,
    };
    let o3 = match skip_flagged_field(s, o2) {
        Some(e) => e,
        None => return None,
    };
    let (ln_next, o4) = match read_flagged_acc(s, o3, true) {
        Some(x) => x,
        None => return None,
    };
    let mut claims: Vec<MembershipClaim> = Vec::new();
    let (m1, p1) = read_membership(s, o4);
    push_claim(&mut claims, m1, &ln_next);
    let (m2, p2) = read_membership(s, p1);
    push_claim(&mut claims, m2, &ln_next);
    let (root_acc, p3) = read_optional_acc(s, p2);
    let (m3, p4) = read_membership(s, p3);
    push_claim(&mut claims, m3, &root_acc);
    assert(claims_view(Seq::<MembershipClaim>::empty()) =~= Seq::<(Seq<u8>, Seq<u8>, Seq<u8>)>::empty());
    check_required_snapshot(s, p4, root_hash, claims)
}

/// Checks an AccTrie query proof: `None` when it is rejected, else the
/// membership claims that must still verify for it to be accepted.
pub fn verify_acctrie_query_proof(proof: &[u8], root_hash: &[u8]) -> (r: Option<Vec<MembershipClaim>>)
    ensures
        match r {
            Some(c) => query_verdict(proof@, root_hash@) == Some(claims_view(c@)),
            None => query_verdict(proof@, root_hash@) is None,
        },
{
    let s = proof;
    if s.len() < 10 {
        return None;
    }
    let o1 = match read_key(s, 2) {
        Some(e) => e,
        None => return None,
    };
    if s[1] == 1 {
        check_query_found(s, o1, root_hash)
    } else {
        check_query_missing(s, o1, root_hash)
    }
}

/// The claims of the insertion proofs of a batch, each checked without a
/// root hash, one after the other; `None` when one of them is rejected.
pub open spec fn batch_items_verdict(items: Seq<Seq<u8>>) -> Option<Seq<(Seq<u8>, Seq<u8>, Seq<u8>)>>
    decreases items.len(),
{
    if items.len() == 0 {
        Some(Seq::empty())
    } else {
        match (batch_items_verdict(items.drop_last()), insertion_verdict(items.last(), Seq::empty())) {
            (Some(a), Some(b)) => Some(a + b),
            _ => None,
        }
    }
}

proof fn lemma_batch_items_none_after(items: Seq<Seq<u8>>, k: nat)
    requires
        k <= items.len(),
        batch_items_verdict(items.take(k as int)) is None,
    ensures
        batch_items_verdict(items) is None,
    decreases items.len() - k,
{
    if k < items.len() {
        assert(items.take((k + 1) as int).drop_last() =~= items.take(k as int));
        lemma_batch_items_none_after(items, k + 1);
    } else {
        assert(items.take(k as int) =~= items);
    }
}

/// What an AccTrie batch insertion proof establishes: after the type byte,
/// a non-zero four-byte count of length-prefixed insertion proofs, each of
/// which must pass on its own, then (unless no root hash is checked) an
/// accumulator snapshot that stands for the root hash.
pub open spec fn batch_verdict(s: Seq<u8>, root_hash: Seq<u8>) -> Option<Seq<(Seq<u8>, Seq<u8>, Seq<u8>)>> {
    if s.len() < 5 || u32_le(s, 1) == 0 {
        None
    } else {
        match fields_from(s, 5, u32_le(s, 1)) {
            None => None,
            Some((items, o)) => match batch_items_verdict(items) {
                None => None,
                Some(claims) => if root_hash.len() == 0 {
                    Some(claims)
                } else if o < s.len() {
                    required_snapshot(s, o, root_hash, claims)
                } else {
                    None
                },
            },
        }
    }
}

pub open spec fn claims_opt_view(r: Option<Vec<MembershipClaim>>) -> Option<Seq<(Seq<u8>, Seq<u8>, Seq<u8>)>> {
    match r {
        Some(c) => Some(claims_view(c@)),
        None => None,
    }
}

proof fn lemma_batch_step(
    items: Seq<Seq<u8>>,
    i: int,
    a: Seq<(Seq<u8>, Seq<u8>, Seq<u8>)>,
    b: Option<Seq<(Seq<u8>, Seq<u8>, Seq<u8>)>>,
)
    requires
        0 <= i < items.len(),
        batch_items_verdict(items.take(i)) == Some(a),
        insertion_verdict(items[i], Seq::empty()) == b,
    ensures
        batch_items_verdict(items.take(i + 1)) == match b {
            Some(c) => Some(a + c),
            None => None,
        },
{
    assert(items.take(i + 1).drop_last() =~= items.take(i));
    assert(items.take(i + 1).last() == items[i]);
}

/// The claims of the insertion proofs of a batch, each checked without a
/// root hash.
fn batch_item_claims(items: &Vec<Vec<u8>>) -> (r: Option<Vec<MembershipClaim>>)
    ensures
        match r {
            Some(c) => batch_items_verdict(crate::verification::parts_view(items@)) == Some(claims_view(c@)),
            None => batch_items_verdict(crate::verification::parts_view(items@)) is None,
        },
{
    let ghost iv = crate::verification::parts_view(items@);
    let mut claims: Vec<MembershipClaim> = Vec::new();
    let mut i: usize = 0;
    let empty: Vec<u8> = Vec::new();
    assert(claims_view(claims@) =~= Seq::<(Seq<u8>, Seq<u8>, Seq<u8>)>::empty());
    assert(iv.take(0) =~= Seq::<Seq<u8>>::empty());
    while i < items.len()
        invariant
            i <= items@.len(),
            iv == crate::verification::parts_view(items@),
            empty@ == Seq::<u8>::empty(),
            batch_items_verdict(iv.take(i as int)) == Some(claims_view(claims@)),
        decreases items@.len() - i,
    {
        let res = verify_acctrie_insertion_proof(items[i].as_slice(), empty.as_slice());
        proof {
            lemma_batch_step(
                iv,
                i as int,
                claims_view(claims@),
                claims_opt_view(res),
            );
        }
        match res {
            None => {
                proof {
                    lemma_batch_items_none_after(iv, (i + 1) as nat);
                }
                return None;
            },
            Some(more) => {
                let ghost before = claims@;
                let ghost mv = more@;
                let mut more = more;
                claims.append(&mut more);
                assert(claims_view(claims@) =~= claims_view(before) + claims_view(mv));
            },
        }
        i = i + 1;
    }
    assert(iv.take(items@.len() as int) =~= iv);
    Some(claims)
}

/// Checks an AccTrie batch insertion proof: `None` when it is rejected,
/// else the membership claims that must still verify for it to be accepted.
pub fn verify_acctrie_batch_insertion_proof(proof: &[u8], root_hash: &[u8]) -> (r: Option<Vec<MembershipClaim>>)
    ensures
        match r {
            Some(c) => batch_verdict(proof@, root_hash@) == Some(claims_view(c@)),
            None => batch_verdict(proof@, root_hash@) is None,
        },
{
    let s = proof;
    if s.len() < 5 {
        return None;
    }
    let count = read_u32_le(s, 1);
    if count == 0 {
        return None;
    }
    let (items, o) = match read_fields(s, 5, count) {
        Some(x) => x,
        None => return None,
    };
    let claims = match batch_item_claims(&items) {
        Some(c) => c,
        None => return None,
    };
    if root_hash.len() == 0 {
        return Some(claims);
    }
    if o < s.len() {
        check_required_snapshot(s, o, root_hash, claims)
    } else {
        None
    }
}


/// What an AccTrie proof establishes: empty bytes (a key that is not
/// there) pass with no claim; otherwise it is at least two bytes and its
/// first byte tells its kind (`1` insertion, `2` deletion, `3` query, `16`
/// batch insertion); any other kind is rejected.
pub open spec fn acctrie_verdict(s: Seq<u8>, root_hash: Seq<u8>) -> Option<Seq<(Seq<u8>, Seq<u8>, Seq<u8>)>> {
    if s.len() == 0 {
        Some(Seq::empty())
    } else if s.len() < 2 {
        None
    } else if s[0] == 1 {
        insertion_verdict(s, root_hash)
    } else if s[0] == 2 {
        deletion_verdict(s, root_hash)
    } else if s[0] == 3 {
        query_verdict(s, root_hash)
    } else if s[0] == 16 {
        batch_verdict(s, root_hash)
    } else {
        None
    }
}

/// Checks an AccTrie proof against the root hash: `None` when it is
/// rejected, else the membership claims that must still verify for it to be
/// accepted.
pub fn verify_acctrie(proof: &[u8], root_hash: &[u8]) -> (r: Option<Vec<MembershipClaim>>)
    ensures
        claims_opt_view(r) == acctrie_verdict(proof@, root_hash@),
{
    if proof.len() == 0 {
        let v: Vec<MembershipClaim> = Vec::new();
        assert(claims_view(v@) =~= Seq::<(Seq<u8>, Seq<u8>, Seq<u8>)>::empty());
        return Some(v);
    }
    if proof.len() < 2 {
        return None;
    }
    let kind = proof[0];
    if kind == 1 {
        verify_acctrie_insertion_proof(proof, root_hash)
    } else if kind == 2 {
        verify_acctrie_deletion_proof(proof, root_hash)
    } else if kind == 3 {
        verify_acctrie_query_proof(proof, root_hash)
    } else if kind == 16 {
        verify_acctrie_batch_insertion_proof(proof, root_hash)
    } else {
        None
    }
}


proof fn lemma_required_snapshot_without_root(s: Seq<u8>, p: int, root_hash: Seq<u8>, claims: Seq<(Seq<u8>, Seq<u8>, Seq<u8>)>)
    ensures
        required_snapshot(s, p, root_hash, claims) is Some ==> required_snapshot(s, p, Seq::empty(), claims)
            == required_snapshot(s, p, root_hash, claims),
        snapshot_tail(s, p, root_hash, claims) is Some ==> snapshot_tail(s, p, Seq::empty(), claims)
            == snapshot_tail(s, p, root_hash, claims),
{
}

proof fn lemma_batch_without_root(s: Seq<u8>, root_hash: Seq<u8>)
    ensures
        batch_verdict(s, root_hash) is Some ==> batch_verdict(s, Seq::empty()) == batch_verdict(s, root_hash),
{
    if s.len() >= 5 && u32_le(s, 1) != 0 {
        match fields_from(s, 5, u32_le(s, 1)) {
            None => {},
            Some((items, o)) => match batch_items_verdict(items) {
                None => {},
                Some(claims) => {
                    lemma_required_snapshot_without_root(s, o, root_hash, claims);
                },
            },
        }
    }
}

/// Leaving out the root hash never turns a proof down: an AccTrie proof
/// that passes against a root hash passes, with the same claims, when no
/// root hash is given.
pub proof fn accepted_proof_passes_without_root(proof: Seq<u8>, root_hash: Seq<u8>)
    requires
        acctrie_verdict(proof, root_hash) is Some,
    ensures
        acctrie_verdict(proof, Seq::empty()) == acctrie_verdict(proof, root_hash),
{
    let s = proof;
    if s.len() >= 2 {
        if s[0] == 1 {
            match insertion_header(s) {
                None => {},
                Some((acc_new, next_old, next_new, o)) => {
                    let (m1, p1) = membership_at(s, o);
                    let (m2, p2) = membership_at(s, p1);
                    let (m3, p3) = membership_at(s, p2);
                    let (m4, p4) = membership_at(s, p3);
                    let (m5, p5) = membership_at(s, p4);
                    let (m6, p6) = membership_at(s, p5);
                    lemma_required_snapshot_without_root(
                        s,
                        p6,
                        root_hash,
                        claim_of(m1, next_old) + claim_of(m2, acc_new) + claim_of(m3, acc_new) + claim_of(
                            m4,
                            next_new,
                        ) + claim_of(m5, next_new) + claim_of(m6, acc_new),
                    );
                },
            }
        } else if s[0] == 2 {
            match deletion_header(s) {
                None => {},
                Some((acc_old, next_old, next_new, o)) => {
                    let (m1, p1) = membership_at(s, o);
                    let (m2, p2) = membership_at(s, p1);
                    let (m3, p3) = membership_at(s, p2);
                    let (m4, p4) = membership_at(s, p3);
                    lemma_required_snapshot_without_root(
                        s,
                        p4,
                        root_hash,
                        claim_of(m1, Some(acc_old)) + claim_of(m2, Some(acc_old)) + claim_of(m3, next_old)
                            + claim_of(m4, next_new),
                    );
                },
            }
        } else if s[0] == 3 {
            lemma_query_without_root(s, root_hash);
        } else if s[0] == 16 {
            lemma_batch_without_root(s, root_hash);
        }
    }
}

proof fn lemma_query_without_root(s: Seq<u8>, root_hash: Seq<u8>)
    ensures
        query_verdict(s, root_hash) is Some ==> query_verdict(s, Seq::empty()) == query_verdict(s, root_hash),
{
    if s.len() >= 10 {
        match key_end(s, 2) {
            None => {},
            Some(o1) => {
                if s[1] == 1 {
                    match field_end(s, o1) {
                        None => {},
                        Some(o2) => if o2 + 8 <= s.len() {
                            match required_acc_at(s, o2 + 8) {
                                None => {},
                                Some((ln_acc, o4)) => match present_membership_at(s, o4) {
                                    None => {},
                                    Some((m1, p1)) => match present_membership_at(s, p1) {
                                        None => {},
                                        Some((m2, p2)) => match optional_acc_at(s, p2) {
                                            (None, _) => {},
                                            (Some(root_acc), p3) => match present_membership_at(s, p3) {
                                                None => {},
                                                Some((m3, p4)) => {
                                                    lemma_required_snapshot_without_root(
                                                        s,
                                                        p4,
                                                        root_hash,
                                                        seq![
                                                            (m1.0, m1.1, ln_acc),
                                                            (m2.0, m2.1, ln_acc),
                                                            (m3.0, m3.1, root_acc),
                                                        ],
                                                    );
                                                },
                                            },
                                        },
                                    },
                                },
                            }
                        },
                    }
                } else {
                    match flagged_field_end(s, o1) {
                        None => {},
                        Some(o2) => match flagged_field_end(s, o2) {
                            None => {},
                            Some(o3) => match flagged_acc_at(s, o3, true) {
                                None => {},
                                Some((ln_next, o4)) => {
                                    let (m1, p1) = membership_at(s, o4);
                                    let (m2, p2) = membership_at(s, p1);
                                    let (root_acc, p3) = optional_acc_at(s, p2);
                                    let (m3, p4) = membership_at(s, p3);
                                    lemma_required_snapshot_without_root(
                                        s,
                                        p4,
                                        root_hash,
                                        claim_of(m1, ln_next) + claim_of(m2, ln_next) + claim_of(m3, root_acc),
                                    );
                                },
                            },
                        },
                    }
                }
            },
        }
    }
}

} // verus!
