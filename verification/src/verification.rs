//! Checks of storage proofs that rest on SHA-256: the bucket Merkle path and
//! the MGT path of a MEST proof, and the accumulator snapshot that an AccTrie
//! root hash stands for, with the length-prefixed framing that carries it.
use vstd::prelude::*;
use vstd::string::StringSliceAdditionalSpecFns;
use crate::proofs::{
    accumulator_set_magic, acctree_magic, boolean_query_magic, bytes_start_with,
    is_accumulator_set_operation_proof, is_acctree_proof, is_boolean_query_aggregate_proof,
    is_polynomial_intersection_proof, polynomial_magic, sha256, sha256_spec, SetProofLeaf,
};
use crate::types::AdsMode;
use crate::proof_combine::{aggregate_root_proofs, aggregate_spec, all_root_hashes, byte_views, non_empty};

verus! {

/// Appends `data` to `buf`.
pub(crate) fn push_bytes(buf: &mut Vec<u8>, data: &[u8])
    ensures
        final(buf)@ == old(buf)@ + data@,
{
    let ghost start = buf@;
    let mut i: usize = 0;
    while i < data.len()
        invariant
            i <= data@.len(),
            buf@ == start + data@.take(i as int),
        decreases data@.len() - i,
    {
        buf.push(data[i]);
        i = i + 1;
        assert(data@.take(i as int) == data@.take(i - 1).push(data@[i - 1]));
    }
    assert(data@.take(data@.len() as int) == data@);
}

/// A fresh copy of a byte string.
pub(crate) fn copy_bytes(data: &[u8]) -> (r: Vec<u8>)
    ensures
        r@ == data@,
{
    let mut r: Vec<u8> = Vec::new();
    push_bytes(&mut r, data);
    r
}

/// Whether two byte strings are equal.
pub(crate) fn bytes_equal(a: &[u8], b: &[u8]) -> (r: bool)
    ensures
        r == (a@ == b@),
{
    if a.len() != b.len() {
        return false;
    }
    let mut i: usize = 0;
    while i < a.len()
        invariant
            a@.len() == b@.len(),
            i <= a@.len(),
            forall|k: int| 0 <= k < i ==> a@[k] == b@[k],
        decreases a@.len() - i,
    {
        if a[i] != b[i] {
            return false;
        }
        i = i + 1;
    }
    assert(a@ =~= b@);
    true
}

/// The byte strings one after the other.
pub open spec fn flatten(parts: Seq<Vec<u8>>) -> Seq<u8>
    decreases parts.len(),
{
    if parts.len() == 0 {
        Seq::empty()
    } else {
        flatten(parts.drop_last()) + parts.last()@
    }
}

/// The byte strings of `parts` one after the other.
fn concat_parts(parts: &Vec<Vec<u8>>) -> (r: Vec<u8>)
    ensures
        r@ == flatten(parts@),
{
    let mut r: Vec<u8> = Vec::new();
    let mut i: usize = 0;
    while i < parts.len()
        invariant
            i <= parts@.len(),
            r@ == flatten(parts@.take(i as int)),
        decreases parts@.len() - i,
    {
        push_bytes(&mut r, parts[i].as_slice());
        i = i + 1;
        assert(parts@.take(i as int).drop_last() == parts@.take(i - 1));
    }
    assert(parts@.take(parts@.len() as int) == parts@);
    r
}

/// One step of a bucket's Merkle path: the sibling's hash, and the side it
/// stands on (`0`: left of the running hash, anything else: right).
pub struct MerklePathElement {
    pub direction: u8,
    pub sibling_hash: Vec<u8>,
}

/// The bucket part of a MEST proof: a value, the root of its segment with
/// the path up to it, and the roots of all leaf segments.
pub struct BucketProof {
    pub value: String,
    pub seg_root_hash: Vec<u8>,
    pub merkle_path: Vec<MerklePathElement>,
    pub leaf_segment_roots: Vec<Vec<u8>>,
}

/// A sibling in the MGT: its position among its parent's children and its
/// hash.
pub struct SiblingElement {
    pub index: usize,
    pub hash: Vec<u8>,
}

/// One level of the MGT path: the position of the child on the path, and
/// the other children of its parent.
pub struct MgtPathElement {
    pub level: u32,
    pub child_index: usize,
    pub node_hash: Vec<u8>,
    pub sub_siblings: Vec<SiblingElement>,
    pub cached_siblings: Vec<SiblingElement>,
}

/// The MGT part of a MEST proof.
pub struct MgtProof {
    pub root_hash: Vec<u8>,
    pub path: Vec<MgtPathElement>,
}

/// A MEST proof as the storage node sends it.
pub struct MestProof {
    pub is_exist: bool,
    pub key: String,
    pub bucket_proof: BucketProof,
    pub mgt_proof: MgtProof,
}

/// The root that a bucket value reaches along a Merkle path: the value's
/// hash, then at each step the hash of the sibling and the running hash,
/// in the order the step's side gives.
pub open spec fn bucket_root(leaf: Seq<u8>, path: Seq<MerklePathElement>) -> Seq<u8>
    decreases path.len(),
{
    if path.len() == 0 {
        sha256_spec(leaf)
    } else {
        let below = bucket_root(leaf, path.drop_last());
        let e = path.last();
        if e.direction == 0 {
            sha256_spec(e.sibling_hash@ + below)
        } else {
            sha256_spec(below + e.sibling_hash@)
        }
    }
}

/// Whether the value's Merkle path leads to the expected segment root.
fn verify_bucket_merkle_proof(leaf_data: &[u8], expected_root: &[u8], path: &Vec<MerklePathElement>) -> (r: bool)
    ensures
        r == (bucket_root(leaf_data@, path@) == expected_root@),
{
    let mut current = sha256(leaf_data);
    let mut i: usize = 0;
    while i < path.len()
        invariant
            i <= path@.len(),
            current@ == bucket_root(leaf_data@, path@.take(i as int)),
        decreases path@.len() - i,
    {
        let e = &path[i];
        let mut buf: Vec<u8> = Vec::new();
        if e.direction == 0 {
            push_bytes(&mut buf, e.sibling_hash.as_slice());
            push_bytes(&mut buf, current.as_slice());
        } else {
            push_bytes(&mut buf, current.as_slice());
            push_bytes(&mut buf, e.sibling_hash.as_slice());
        }
        current = sha256(buf.as_slice());
        i = i + 1;
        assert(path@.take(i as int).drop_last() == path@.take(i - 1));
    }
    assert(path@.take(path@.len() as int) == path@);
    bytes_equal(current.as_slice(), expected_root)
}

/// `(index, hash)` pairs: `x` placed after the last pair of `s` whose index
/// is not above its own (for `s` ordered by index, `x` joins after its equals).
pub open spec fn insert_by_index(s: Seq<(usize, Seq<u8>)>, x: (usize, Seq<u8>)) -> Seq<(usize, Seq<u8>)>
    decreases s.len(),
{
    if s.len() == 0 {
        seq![x]
    } else if s.last().0 <= x.0 {
        s.push(x)
    } else {
        insert_by_index(s.drop_last(), x).push(s.last())
    }
}

/// The pairs ordered by index, pairs with equal indexes keeping their order
/// (a stable sort).
pub open spec fn sort_by_index(s: Seq<(usize, Seq<u8>)>) -> Seq<(usize, Seq<u8>)>
    decreases s.len(),
{
    if s.len() == 0 {
        s
    } else {
        insert_by_index(sort_by_index(s.drop_last()), s.last())
    }
}

/// The hashes of the pairs one after the other.
pub open spec fn concat_hashes(s: Seq<(usize, Seq<u8>)>) -> Seq<u8>
    decreases s.len(),
{
    if s.len() == 0 {
        Seq::empty()
    } else {
        concat_hashes(s.drop_last()) + s.last().1
    }
}

pub open spec fn sibling_pairs(s: Seq<SiblingElement>) -> Seq<(usize, Seq<u8>)> {
    s.map_values(|e: SiblingElement| (e.index, e.hash@))
}

/// The hash one MGT level up: the children on the path's side (the child
/// itself among them) ordered by position, then the cached children ordered
/// by position, hashed together.
pub open spec fn mgt_step(below: Seq<u8>, e: MgtPathElement) -> Seq<u8> {
    let subs = sort_by_index(sibling_pairs(e.sub_siblings@).push((e.child_index, below)));
    let cached = sort_by_index(sibling_pairs(e.cached_siblings@));
    sha256_spec(concat_hashes(subs) + concat_hashes(cached))
}

/// The hash that an MGT path reaches from `start`.
pub open spec fn mgt_root(start: Seq<u8>, path: Seq<MgtPathElement>) -> Seq<u8>
    decreases path.len(),
{
    if path.len() == 0 {
        start
    } else {
        mgt_step(mgt_root(start, path.drop_last()), path.last())
    }
}

pub open spec fn pairs_view(s: Seq<(usize, Vec<u8>)>) -> Seq<(usize, Seq<u8>)> {
    s.map_values(|p: (usize, Vec<u8>)| (p.0, p.1@))
}

/// Inserting before the run of larger indexes at the end is what
/// `insert_by_index` does.
proof fn lemma_insert_by_index_at(s: Seq<(usize, Seq<u8>)>, x: (usize, Seq<u8>), p: int)
    requires
        0 <= p <= s.len(),
        forall|k: int| p <= k < s.len() ==> (#[trigger] s[k]).0 > x.0,
        p > 0 ==> s[p - 1].0 <= x.0,
    ensures
        insert_by_index(s, x) == s.take(p).push(x) + s.skip(p),
    decreases s.len(),
{
    if s.len() == 0 {
        assert(s.take(p).push(x) + s.skip(p) =~= seq![x]);
    } else if s.last().0 <= x.0 {
        if p < s.len() {
            assert(s[s.len() - 1].0 > x.0);
        }
        assert(s.take(p).push(x) + s.skip(p) =~= s.push(x));
    } else {
        let d = s.drop_last();
        assert(p < s.len());
        lemma_insert_by_index_at(d, x, p);
        assert(d.take(p).push(x) + d.skip(p) + seq![s.last()] =~= s.take(p).push(x) + s.skip(p));
    }
}

/// Puts `x` among pairs ordered by index, after those with an index not
/// above its own.
fn insert_pair(s: &mut Vec<(usize, Vec<u8>)>, x: (usize, Vec<u8>))
    ensures
        pairs_view(final(s)@) == insert_by_index(pairs_view(old(s)@), (x.0, x.1@)),
{
    let ghost xs = (x.0, x.1@);
    let ghost v = pairs_view(s@);
    let mut p: usize = s.len();
    while p > 0 && s[p - 1].0 > x.0
        invariant
            p <= s@.len(),
            v == pairs_view(s@),
            forall|k: int| p <= k < s@.len() ==> (#[trigger] s@[k]).0 > x.0,
        decreases p,
    {
        p = p - 1;
    }
    proof {
        assert forall|k: int| p <= k < v.len() implies (#[trigger] v[k]).0 > xs.0 by {
            assert(s@[k].0 > x.0);
        }
        lemma_insert_by_index_at(v, xs, p as int);
    }
    s.insert(p, x);
    assert(pairs_view(s@) =~= v.take(p as int).push(xs) + v.skip(p as int));
}

/// The pairs ordered by index, stably.
fn sort_pairs(items: Vec<(usize, Vec<u8>)>) -> (r: Vec<(usize, Vec<u8>)>)
    ensures
        pairs_view(r@) == sort_by_index(pairs_view(items@)),
{
    let ghost v = pairs_view(items@);
    let mut r: Vec<(usize, Vec<u8>)> = Vec::new();
    let mut rest = items;
    let n: usize = rest.len();
    let mut i: usize = 0;
    while rest.len() > 0
        invariant
            i <= n,
            rest@.len() == n - i,
            v.len() == n,
            pairs_view(rest@) == v.skip(i as int),
            pairs_view(r@) == sort_by_index(v.take(i as int)),
        decreases rest@.len(),
    {
        let ghost before = rest@;
        let x = rest.remove(0);
        proof {
            assert(pairs_view(before)[0] == (x.0, x.1@));
            assert(rest@ =~= before.skip(1));
            assert(pairs_view(rest@) =~= pairs_view(before).skip(1));
            assert(pairs_view(rest@) =~= v.skip(i + 1));
            assert(v.take(i + 1).drop_last() =~= v.take(i as int));
        }
        insert_pair(&mut r, x);
        i = i + 1;
    }
    assert(v.take(n as int) =~= v);
    r
}

/// The hashes of the pairs one after the other.
fn concat_pair_hashes(s: &Vec<(usize, Vec<u8>)>) -> (r: Vec<u8>)
    ensures
        r@ == concat_hashes(pairs_view(s@)),
{
    let ghost v = pairs_view(s@);
    let mut r: Vec<u8> = Vec::new();
    let mut i: usize = 0;
    while i < s.len()
        invariant
            i <= s@.len(),
            v == pairs_view(s@),
            r@ == concat_hashes(v.take(i as int)),
        decreases s@.len() - i,
    {
        push_bytes(&mut r, s[i].1.as_slice());
        i = i + 1;
        assert(v.take(i as int).drop_last() =~= v.take(i - 1));
    }
    assert(v.take(s@.len() as int) =~= v);
    r
}

/// The siblings as `(index, hash)` pairs.
fn sibling_vec(s: &Vec<SiblingElement>) -> (r: Vec<(usize, Vec<u8>)>)
    ensures
        pairs_view(r@) == sibling_pairs(s@),
{
    let mut r: Vec<(usize, Vec<u8>)> = Vec::new();
    let mut i: usize = 0;
    while i < s.len()
        invariant
            i <= s@.len(),
            pairs_view(r@) == sibling_pairs(s@.take(i as int)),
        decreases s@.len() - i,
    {
        let e = &s[i];
        r.push((e.index, copy_bytes(e.hash.as_slice())));
        i = i + 1;
        assert(sibling_pairs(s@.take(i as int)) =~= sibling_pairs(s@.take(i - 1)).push((s@[i - 1].index, s@[i - 1].hash@)));
        assert(pairs_view(r@) =~= sibling_pairs(s@.take(i as int)));
    }
    assert(s@.take(s@.len() as int) =~= s@);
    r
}

/// Whether the MGT path leads from the leaf segment roots to the MGT root.
fn verify_mgt_proof_path(leaf_roots: &Vec<Vec<u8>>, mgt_proof: &MgtProof) -> (r: bool)
    ensures
        r == (mgt_root(sha256_spec(flatten(leaf_roots@)), mgt_proof.path@) == mgt_proof.root_hash@),
{
    let all = concat_parts(leaf_roots);
    let mut current = sha256(all.as_slice());
    let ghost start = current@;
    let mut i: usize = 0;
    while i < mgt_proof.path.len()
        invariant
            i <= mgt_proof.path@.len(),
            current@ == mgt_root(start, mgt_proof.path@.take(i as int)),
        decreases mgt_proof.path@.len() - i,
    {
        let e = &mgt_proof.path[i];
        let mut subs = sibling_vec(&e.sub_siblings);
        let ghost cur = current@;
        subs.push((e.child_index, current));
        assert(pairs_view(subs@) =~= sibling_pairs(e.sub_siblings@).push((e.child_index, cur)));
        let subs = sort_pairs(subs);
        let cached = sort_pairs(sibling_vec(&e.cached_siblings));
        let mut buf = concat_pair_hashes(&subs);
        let tail = concat_pair_hashes(&cached);
        push_bytes(&mut buf, tail.as_slice());
        current = sha256(buf.as_slice());
        i = i + 1;
        assert(mgt_proof.path@.take(i as int).drop_last() =~= mgt_proof.path@.take(i - 1));
    }
    assert(mgt_proof.path@.take(mgt_proof.path@.len() as int) =~= mgt_proof.path@);
    bytes_equal(current.as_slice(), mgt_proof.root_hash.as_slice())
}

/// The segment root is among the leaf segment roots.
pub open spec fn has_segment_root(roots: Seq<Vec<u8>>, seg: Seq<u8>) -> bool {
    exists|j: int| 0 <= j < roots.len() && (#[trigger] roots[j])@ == seg
}

/// A MEST proof holds together: the value's bucket path reaches the segment
/// root, the segment root is a leaf segment root, and the MGT path leads
/// from the leaf segment roots to the MGT root.
pub open spec fn mest_proof_holds(p: MestProof) -> bool {
    &&& bucket_root(
        vstd::utf8::encode_utf8(p.bucket_proof.value@),
        p.bucket_proof.merkle_path@,
    ) == p.bucket_proof.seg_root_hash@
    &&& has_segment_root(p.bucket_proof.leaf_segment_roots@, p.bucket_proof.seg_root_hash@)
    &&& mgt_root(sha256_spec(flatten(p.bucket_proof.leaf_segment_roots@)), p.mgt_proof.path@)
        == p.mgt_proof.root_hash@
}

fn contains_bytes(roots: &Vec<Vec<u8>>, seg: &[u8]) -> (r: bool)
    ensures
        r == has_segment_root(roots@, seg@),
{
    let mut j: usize = 0;
    while j < roots.len()
        invariant
            j <= roots@.len(),
            forall|k: int| 0 <= k < j ==> roots@[k]@ != seg@,
        decreases roots@.len() - j,
    {
        if bytes_equal(roots[j].as_slice(), seg) {
            return true;
        }
        j = j + 1;
    }
    false
}

/// Whether a MEST proof holds together.
pub fn verify_mest_proof_internal(proof: &MestProof) -> (r: bool)
    ensures
        r == mest_proof_holds(*proof),
{
    let b = &proof.bucket_proof;
    if !verify_bucket_merkle_proof(b.value.as_str().as_bytes(), b.seg_root_hash.as_slice(), &b.merkle_path) {
        return false;
    }
    if !contains_bytes(&b.leaf_segment_roots, b.seg_root_hash.as_slice()) {
        return false;
    }
    verify_mgt_proof_path(&b.leaf_segment_roots, &proof.mgt_proof)
}

/// What a MEST proof's bytes establish against a root hash, given what the
/// bytes decode to (`None` when they are no MEST proof): empty bytes always
/// pass; a decoded proof must hold together and, for a non-empty root hash,
/// carry that root; other bytes must be 32 long and, for a non-empty root
/// hash, equal it.
pub open spec fn mest_verdict(proof: Seq<u8>, decoded: Option<MestProof>, root_hash: Seq<u8>) -> bool {
    if proof.len() == 0 {
        true
    } else {
        match decoded {
            Some(m) => (root_hash.len() == 0 || m.mgt_proof.root_hash@ == root_hash)
                && mest_proof_holds(m),
            None => proof.len() == 32 && (root_hash.len() == 0 || proof == root_hash),
        }
    }
}

/// Checks a MEST proof against the expected root hash; `decoded` is what
/// the proof bytes decode to, `None` when they do not decode.
pub fn verify_mest(proof: &[u8], decoded: Option<&MestProof>, root_hash: &[u8]) -> (r: bool)
    ensures
        r == mest_verdict(
            proof@,
            match decoded {
                Some(m) => Some(*m),
                None => None,
            },
            root_hash@,
        ),
{
    if proof.len() == 0 {
        return true;
    }
    match decoded {
        Some(m) => {
            if root_hash.len() != 0 && !bytes_equal(m.mgt_proof.root_hash.as_slice(), root_hash) {
                return false;
            }
            verify_mest_proof_internal(m)
        },
        None => {
            if proof.len() != 32 {
                return false;
            }
            root_hash.len() == 0 || bytes_equal(proof, root_hash)
        },
    }
}

/// The little-endian number in the four bytes at `o`.
pub open spec fn u32_le(s: Seq<u8>, o: int) -> nat {
    (s[o] + 256 * s[o + 1] + 65536 * s[o + 2] + 16777216 * s[o + 3]) as nat
}

/// Reads the little-endian `u32` at `offset`.
pub(crate) fn read_u32_le(s: &[u8], offset: usize) -> (r: usize)
    requires
        offset + 4 <= s@.len(),
    ensures
        r == u32_le(s@, offset as int),
{
    let b0 = s[offset] as u64;
    let b1 = s[offset + 1] as u64;
    let b2 = s[offset + 2] as u64;
    let b3 = s[offset + 3] as u64;
    let v: u64 = b0 + 256 * b1 + 65536 * b2 + 16777216 * b3;
    assert(v < 0x1_0000_0000);
    v as usize
}

/// A length-prefixed field at `o`: where it ends, or `None` when its length
/// or its bytes run past the end.
pub open spec fn field_end(s: Seq<u8>, o: int) -> Option<int> {
    if o + 4 > s.len() {
        None
    } else if o + 4 + u32_le(s, o) > s.len() {
        None
    } else {
        Some(o + 4 + u32_le(s, o))
    }
}

/// Steps over a length-prefixed field: the offset after it, or `None`.
pub(crate) fn skip_length_prefixed_bytes(s: &[u8], offset: usize) -> (r: Option<usize>)
    requires
        offset <= s@.len(),
    ensures
        match r {
            Some(e) => field_end(s@, offset as int) == Some(e as int),
            None => field_end(s@, offset as int) is None,
        },
{
    if s.len() - offset < 4 {
        return None;
    }
    let len = read_u32_le(s, offset);
    if len > s.len() - offset - 4 {
        return None;
    }
    Some(offset + 4 + len)
}

/// `k` length-prefixed byte strings read from `o` on, with where they end;
/// `None` when one of them runs past the end.
pub open spec fn fields_from(s: Seq<u8>, o: int, k: nat) -> Option<(Seq<Seq<u8>>, int)>
    decreases k,
{
    if k == 0 {
        Some((Seq::empty(), o))
    } else {
        match fields_from(s, o, (k - 1) as nat) {
            None => None,
            Some((items, p)) => match field_end(s, p) {
                None => None,
                Some(e) => Some((items.push(s.subrange(p + 4, e)), e)),
            },
        }
    }
}

/// An accumulator snapshot at `o`: a four-byte count, then that many
/// length-prefixed accumulator values.
pub open spec fn snapshot_at(s: Seq<u8>, o: int) -> Option<(Seq<Seq<u8>>, int)> {
    if o + 4 > s.len() {
        None
    } else {
        fields_from(s, o + 4, u32_le(s, o))
    }
}

pub open spec fn parts_view(parts: Seq<Vec<u8>>) -> Seq<Seq<u8>> {
    parts.map_values(|v: Vec<u8>| v@)
}

/// Reads `count` length-prefixed byte strings from `offset` on: them and
/// the offset after them, or `None`.
pub(crate) fn read_fields(s: &[u8], offset: usize, count: usize) -> (r: Option<(Vec<Vec<u8>>, usize)>)
    requires
        offset <= s@.len(),
    ensures
        match r {
            Some((items, e)) => e <= s@.len() && fields_from(s@, offset as int, count as nat) == Some((parts_view(items@), e as int)),
            None => fields_from(s@, offset as int, count as nat) is None,
        },
{
    let mut pos: usize = offset;
    let mut items: Vec<Vec<u8>> = Vec::new();
    let mut i: usize = 0;
    assert(parts_view(items@) =~= Seq::<Seq<u8>>::empty());
    while i < count
        invariant
            i <= count,
            offset <= pos <= s@.len(),
            fields_from(s@, offset as int, i as nat) == Some((parts_view(items@), pos as int)),
        decreases count - i,
    {
        match skip_length_prefixed_bytes(s, pos) {
            None => {
                proof {
                    assert(fields_from(s@, offset as int, (i + 1) as nat) is None);
                    lemma_fields_none_after(s@, offset as int, (i + 1) as nat, count as nat);
                }
                return None;
            },
            Some(e) => {
                let item = copy_bytes(&s[pos + 4..e]);
                let ghost before = items@;
                items.push(item);
                proof {
                    assert(parts_view(items@) =~= parts_view(before).push(s@.subrange(pos + 4, e as int)));
                }
                pos = e;
            },
        }
        i = i + 1;
    }
    Some((items, pos))
}

/// Reads an accumulator snapshot at `offset`: the values and the offset
/// after them, or `None`.
pub(crate) fn deserialize_acc_snapshot(s: &[u8], offset: usize) -> (r: Option<(Vec<Vec<u8>>, usize)>)
    requires
        offset <= s@.len(),
    ensures
        match r {
            Some((items, e)) => snapshot_at(s@, offset as int) == Some((parts_view(items@), e as int)),
            None => snapshot_at(s@, offset as int) is None,
        },
{
    if s.len() - offset < 4 {
        return None;
    }
    let count = read_u32_le(s, offset);
    read_fields(s, offset + 4, count)
}

proof fn lemma_fields_none_after(s: Seq<u8>, o: int, k: nat, m: nat)
    requires
        k <= m,
        fields_from(s, o, k) is None,
    ensures
        fields_from(s, o, m) is None,
    decreases m - k,
{
    if k < m {
        lemma_fields_none_after(s, o, k, (m - 1) as nat);
    }
}

/// Whether an accumulator snapshot stands for the root hash: an empty root
/// hash is not checked; otherwise it is 32 bytes, the SHA-256 of the
/// accumulators one after the other (of `empty_acctrie` when there are none).
pub open spec fn acc_root_ok(snapshot: Seq<Seq<u8>>, root_hash: Seq<u8>) -> bool {
    root_hash.len() == 0 || (root_hash.len() == 32 && sha256_spec(
        if snapshot.len() == 0 {
            vstd::utf8::encode_utf8("empty_acctrie"@)
        } else {
            flatten_seqs(snapshot)
        },
    ) == root_hash)
}

/// The byte strings one after the other.
pub open spec fn flatten_seqs(parts: Seq<Seq<u8>>) -> Seq<u8>
    decreases parts.len(),
{
    if parts.len() == 0 {
        Seq::empty()
    } else {
        flatten_seqs(parts.drop_last()) + parts.last()
    }
}

proof fn lemma_flatten_view(parts: Seq<Vec<u8>>)
    ensures
        flatten(parts) == flatten_seqs(parts_view(parts)),
    decreases parts.len(),
{
    if parts.len() > 0 {
        lemma_flatten_view(parts.drop_last());
        assert(parts_view(parts.drop_last()) =~= parts_view(parts).drop_last());
    }
}

/// Checks the root hash against an accumulator snapshot.
pub(crate) fn verify_acc_root(snapshot: &Vec<Vec<u8>>, root_hash: &[u8]) -> (r: bool)
    ensures
        r == acc_root_ok(parts_view(snapshot@), root_hash@),
{
    proof {
        lemma_flatten_view(snapshot@);
    }
    if root_hash.len() == 0 {
        return true;
    }
    if root_hash.len() != 32 {
        return false;
    }
    let expected = if snapshot.len() == 0 {
        sha256("empty_acctrie".as_bytes())
    } else {
        let all = concat_parts(snapshot);
        sha256(all.as_slice())
    };
    bytes_equal(expected.as_slice(), root_hash)
}

/// Which check a proof goes to.
#[derive(Debug, Clone, Copy, PartialEq, Eq, Structural)]
pub enum ProofKind {
    AccumulatorSetOperation,
    PolynomialIntersection,
    BooleanQueryAggregate,
    AccTree,
    /// A plain proof of the verifier's ADS.
    Ads(AdsMode),
}

/// Checks the proofs that storage nodes send, for one kind of ADS.
pub struct ProofVerifier {
    ads_mode: AdsMode,
}

/// The kind of a proof: its mark decides, checked in this order, and a
/// proof without a mark is one of the verifier's ADS.
pub open spec fn proof_kind_spec(proof: Seq<u8>, mode: AdsMode) -> ProofKind {
    if bytes_start_with(proof, accumulator_set_magic()) {
        ProofKind::AccumulatorSetOperation
    } else if bytes_start_with(proof, polynomial_magic()) {
        ProofKind::PolynomialIntersection
    } else if bytes_start_with(proof, boolean_query_magic()) {
        ProofKind::BooleanQueryAggregate
    } else if bytes_start_with(proof, acctree_magic()) {
        ProofKind::AccTree
    } else {
        ProofKind::Ads(mode)
    }
}

impl ProofVerifier {
    pub closed spec fn mode(&self) -> AdsMode {
        self.ads_mode
    }

    pub fn new(ads_mode: AdsMode) -> (v: Self)
        ensures
            v.mode() == ads_mode,
    {
        ProofVerifier { ads_mode }
    }

    pub fn ads_mode(&self) -> (m: AdsMode)
        ensures
            m == self.mode(),
    {
        self.ads_mode
    }

    /// The proof that stands for several: the last one (it goes with the
    /// root hash after the last write), none for none.
    pub fn combine_proofs(&self, proofs: &Vec<Vec<u8>>) -> (r: Vec<u8>)
        ensures
            r@ == if proofs@.len() == 0 {
                Seq::<u8>::empty()
            } else {
                proofs@.last()@
            },
    {
        if proofs.len() == 0 {
            return Vec::new();
        }
        copy_bytes(proofs[proofs.len() - 1].as_slice())
    }

    /// The proof that stands for several storagers' proofs, as the manager
    /// combines them: empty proofs are dropped; equal root hashes stand for
    /// themselves, different root hashes are hashed together in byte order,
    /// and full proofs follow one another, each after its length.
    pub fn aggregate_proofs(&self, proofs: &Vec<Vec<u8>>) -> (r: Vec<u8>)
        ensures
            r@ == aggregate_spec(byte_views(proofs@)),
            non_empty(byte_views(proofs@)).len() > 0 && all_root_hashes(non_empty(byte_views(proofs@))) ==> r@.len()
                == 32,
    {
        aggregate_root_proofs(proofs)
    }

    /// Which check the proof goes to.
    pub fn proof_kind(&self, proof: &[u8]) -> (k: ProofKind)
        ensures
            k == proof_kind_spec(proof@, self.mode()),
    {
        if is_accumulator_set_operation_proof(proof) {
            ProofKind::AccumulatorSetOperation
        } else if is_polynomial_intersection_proof(proof) {
            ProofKind::PolynomialIntersection
        } else if is_boolean_query_aggregate_proof(proof) {
            ProofKind::BooleanQueryAggregate
        } else if is_acctree_proof(proof) {
            ProofKind::AccTree
        } else {
            ProofKind::Ads(self.ads_mode)
        }
    }
}

/// Leaving out the root hash never turns a MEST proof down: one that passes
/// against a root hash passes when no root hash is given.
pub proof fn mest_proof_passes_without_root(proof: Seq<u8>, decoded: Option<MestProof>, root_hash: Seq<u8>)
    requires
        mest_verdict(proof, decoded, root_hash),
    ensures
        mest_verdict(proof, decoded, Seq::empty()),
{
}

pub open spec fn names_view(v: Seq<String>) -> Seq<Seq<char>> {
    v.map_values(|s: String| s@)
}

pub open spec fn refs_view(v: Seq<&String>) -> Seq<Seq<char>> {
    v.map_values(|s: &String| s@)
}

/// Whether two lists hold the same file ids, each as many times (what
/// comparing them sorted answers).
pub fn same_fids(a: &Vec<String>, b: &Vec<String>) -> (r: bool)
    ensures
        r == (names_view(a@).to_multiset() == names_view(b@).to_multiset()),
{
    broadcast use vstd::seq_lib::group_to_multiset_ensures, vstd::multiset::group_multiset_axioms;
    let ghost av = names_view(a@);
    let ghost bv = names_view(b@);
    let mut rest: Vec<&String> = Vec::new();
    let mut k: usize = 0;
    while k < b.len()
        invariant
            k <= b@.len(),
            bv == names_view(b@),
            refs_view(rest@) == bv.take(k as int),
        decreases b@.len() - k,
    {
        let ghost before = rest@;
        rest.push(&b[k]);
        assert(refs_view(rest@) =~= refs_view(before).push(b@[k as int]@));
        assert(bv.take(k + 1) =~= bv.take(k as int).push(bv[k as int]));
        k = k + 1;
    }
    assert(bv.take(b@.len() as int) =~= bv);
    let mut i: usize = 0;
    assert(av.take(0) =~= Seq::<Seq<char>>::empty());
    while i < a.len()
        invariant
            i <= a@.len(),
            av == names_view(a@),
            bv == names_view(b@),
            av.take(i as int).to_multiset().add(refs_view(rest@).to_multiset()) == bv.to_multiset(),
        decreases a@.len() - i,
    {
        let x = a[i].as_str();
        let ghost rv = refs_view(rest@);
        let mut j: usize = 0;
        while j < rest.len() && !crate::text::str_eq(rest[j].as_str(), x)
            invariant
                j <= rest@.len(),
                rv == refs_view(rest@),
                forall|t: int| 0 <= t < j ==> rv[t] != x@,
            decreases rest@.len() - j,
        {
            j = j + 1;
        }
        assert(av.take(i + 1) =~= av.take(i as int).push(x@));
        if j == rest.len() {
            proof {
                assert(!rv.contains(x@));
                vstd::seq_lib::to_multiset_contains(rv, x@);
                assert(rv.to_multiset().count(x@) == 0);
                vstd::seq_lib::to_multiset_build(av.take(i as int), x@);
                assert(av =~= av.take(i + 1) + av.skip(i + 1));
                vstd::seq_lib::lemma_multiset_commutative(av.take(i + 1), av.skip(i + 1));
                assert(av.to_multiset().count(x@) >= av.take(i + 1).to_multiset().count(x@));
                assert(av.take(i + 1).to_multiset().count(x@) == av.take(i as int).to_multiset().count(x@) + 1);
                assert(bv.to_multiset().count(x@) == av.take(i as int).to_multiset().count(x@));
            }
            return false;
        }
        proof {
            assert(rv[j as int] == x@);
            assert(rv.contains(x@));
            vstd::seq_lib::to_multiset_contains(rv, x@);
            vstd::seq_lib::to_multiset_remove(rv, j as int);
            vstd::seq_lib::to_multiset_build(av.take(i as int), x@);
        }
        rest.remove(j);
        proof {
            assert(refs_view(rest@) =~= rv.remove(j as int));
            assert(av.take(i + 1).to_multiset().add(refs_view(rest@).to_multiset()) =~= av.take(i as int).to_multiset().add(
                rv.to_multiset(),
            ));
        }
        i = i + 1;
    }
    assert(av.take(a@.len() as int) =~= av);
    if rest.len() == 0 {
        assert(refs_view(rest@) =~= Seq::<Seq<char>>::empty());
        assert(av.to_multiset().add(Seq::<Seq<char>>::empty().to_multiset()) =~= av.to_multiset());
        true
    } else {
        proof {
            assert(bv.to_multiset().len() == av.to_multiset().len() + refs_view(rest@).to_multiset().len());
        }
        false
    }
}

/// Whether a proof's result matches the file ids received, given the
/// result it decodes to (`None` when it does not decode): a marked proof
/// must decode and hold the same file ids, each as many times; an unmarked
/// one has no result to compare.
pub open spec fn fids_verdict(proof: Seq<u8>, decoded: Option<Seq<Seq<char>>>, fids: Seq<Seq<char>>) -> bool {
    if bytes_start_with(proof, accumulator_set_magic()) || bytes_start_with(proof, polynomial_magic())
        || bytes_start_with(proof, acctree_magic()) || bytes_start_with(proof, boolean_query_magic()) {
        match decoded {
            Some(r) => r.to_multiset() == fids.to_multiset(),
            None => false,
        }
    } else {
        true
    }
}

impl ProofVerifier {
    /// Checks the file ids of a query result against the proof;
    /// `decoded_fids` is the result the proof decodes to, `None` when it
    /// does not decode.
    pub fn verify_query_result_fids(&self, proof: &[u8], decoded_fids: Option<&Vec<String>>, fids: &Vec<String>) -> (r: bool)
        ensures
            r == fids_verdict(
                proof@,
                match decoded_fids {
                    Some(d) => Some(names_view(d@)),
                    None => None,
                },
                names_view(fids@),
            ),
    {
        if is_accumulator_set_operation_proof(proof) || is_polynomial_intersection_proof(proof)
            || is_acctree_proof(proof) || is_boolean_query_aggregate_proof(proof) {
            match decoded_fids {
                Some(d) => same_fids(d, fids),
                None => false,
            }
        } else {
            true
        }
    }

    /// Checks the file ids of a query result against an accumulator
    /// set-operation proof, given the result it decodes to.
    pub fn verify_accumulator_query_result_fids(&self, decoded_fids: Option<&Vec<String>>, fids: &Vec<String>) -> (r: bool)
        ensures
            r == match decoded_fids {
                Some(d) => names_view(d@).to_multiset() == names_view(fids@).to_multiset(),
                None => false,
            },
    {
        match decoded_fids {
            Some(d) => same_fids(d, fids),
            None => false,
        }
    }
}

impl SetProofLeaf {
    /// Checks a keyword's leaf: its ADS proof must pass under the leaf's own
    /// mode (`ads_ok`, the verdict of that mode's check on the leaf's proof
    /// and root hash) and its file ids must match the proof's result
    /// (`decoded_fids`, what the proof decodes to).
    pub fn verify(&self, verifier: &ProofVerifier, ads_ok: bool, decoded_fids: Option<&Vec<String>>) -> (r: bool)
        ensures
            r == (ads_ok && fids_verdict(
                self.ads_proof@,
                match decoded_fids {
                    Some(d) => Some(names_view(d@)),
                    None => None,
                },
                names_view(self.fids@),
            )),
    {
        ads_ok && verifier.verify_query_result_fids(self.ads_proof.as_slice(), decoded_fids, &self.fids)
    }

    /// The leaf's file ids, without repeats, when it checks out.
    pub fn verify_and_collect_fids(
        &self,
        verifier: &ProofVerifier,
        ads_ok: bool,
        decoded_fids: Option<&Vec<String>>,
    ) -> (r: Option<Vec<String>>)
        ensures
            match r {
                Some(v) => ads_ok && fids_verdict(
                    self.ads_proof@,
                    match decoded_fids {
                        Some(d) => Some(names_view(d@)),
                        None => None,
                    },
                    names_view(self.fids@),
                ) && crate::text::distinct_strings(v@) && crate::text::string_set(v@) == crate::text::string_set(
                    self.fids@,
                ),
                None => !(ads_ok && fids_verdict(
                    self.ads_proof@,
                    match decoded_fids {
                        Some(d) => Some(names_view(d@)),
                        None => None,
                    },
                    names_view(self.fids@),
                )),
            },
    {
        if self.verify(verifier, ads_ok, decoded_fids) {
            Some(crate::text::dedup_strings(&self.fids))
        } else {
            None
        }
    }
}

} // verus!
