//! Combining the proofs of several storagers into one: equal root hashes
//! stand for themselves, different root hashes are hashed together in
//! byte order, and full proofs are framed one after another.
use vstd::prelude::*;
use vstd::relations::{sorted_by, total_ordering};
use crate::proofs::{sha256, sha256_spec};
use crate::verification::{bytes_equal, copy_bytes};

verus! {

/// Lexicographic order on byte strings: a proper prefix comes first.
pub open spec fn bytes_le(a: Seq<u8>, b: Seq<u8>) -> bool
    decreases a.len(),
{
    if a.len() == 0 {
        true
    } else if b.len() == 0 {
        false
    } else if a[0] != b[0] {
        a[0] < b[0]
    } else {
        bytes_le(a.drop_first(), b.drop_first())
    }
}

/// `bytes_le` as a relation.
pub open spec fn byte_order() -> spec_fn(Seq<u8>, Seq<u8>) -> bool {
    |a: Seq<u8>, b: Seq<u8>| bytes_le(a, b)
}

proof fn lemma_bytes_le_reflexive(a: Seq<u8>)
    ensures
        bytes_le(a, a),
    decreases a.len(),
{
    if a.len() > 0 {
        lemma_bytes_le_reflexive(a.drop_first());
    }
}

proof fn lemma_bytes_le_antisymmetric(a: Seq<u8>, b: Seq<u8>)
    requires
        bytes_le(a, b),
        bytes_le(b, a),
    ensures
        a == b,
    decreases a.len(),
{
    if a.len() > 0 && b.len() > 0 {
        lemma_bytes_le_antisymmetric(a.drop_first(), b.drop_first());
        assert(a =~= seq![a[0]] + a.drop_first());
        assert(b =~= seq![b[0]] + b.drop_first());
    }
}

proof fn lemma_bytes_le_transitive(a: Seq<u8>, b: Seq<u8>, c: Seq<u8>)
    requires
        bytes_le(a, b),
        bytes_le(b, c),
    ensures
        bytes_le(a, c),
    decreases a.len(),
{
    if a.len() > 0 && b.len() > 0 && c.len() > 0 && a[0] == b[0] && b[0] == c[0] {
        lemma_bytes_le_transitive(a.drop_first(), b.drop_first(), c.drop_first());
    }
}

proof fn lemma_bytes_le_total(a: Seq<u8>, b: Seq<u8>)
    ensures
        bytes_le(a, b) || bytes_le(b, a),
    decreases a.len(),
{
    if a.len() > 0 && b.len() > 0 && a[0] == b[0] {
        lemma_bytes_le_total(a.drop_first(), b.drop_first());
    }
}

/// `bytes_le` is a total order.
pub proof fn lemma_byte_order_total()
    ensures
        total_ordering(byte_order()),
{
    let r = byte_order();
    assert forall|x: Seq<u8>| #[trigger] r(x, x) by {
        lemma_bytes_le_reflexive(x);
    }
    assert forall|x: Seq<u8>, y: Seq<u8>| #[trigger] r(x, y) && #[trigger] r(y, x) implies x == y by {
        lemma_bytes_le_antisymmetric(x, y);
    }
    assert forall|x: Seq<u8>, y: Seq<u8>, z: Seq<u8>| #[trigger] r(x, y) && #[trigger] r(
        y,
        z,
    ) implies r(x, z) by {
        lemma_bytes_le_transitive(x, y, z);
    }
    assert forall|x: Seq<u8>, y: Seq<u8>| #[trigger] r(x, y) || #[trigger] r(y, x) by {
        lemma_bytes_le_total(x, y);
    }
}

fn bytes_le_exec(a: &[u8], b: &[u8]) -> (r: bool)
    ensures
        r == bytes_le(a@, b@),
{
    let mut i: usize = 0;
    assert(a@.skip(0) =~= a@);
    assert(b@.skip(0) =~= b@);
    while i < a.len() && i < b.len()
        invariant
            i <= a@.len(),
            i <= b@.len(),
            bytes_le(a@, b@) == bytes_le(a@.skip(i as int), b@.skip(i as int)),
        decreases a@.len() - i,
    {
        if a[i] != b[i] {
            return a[i] < b[i];
        }
        proof {
            assert(a@.skip(i as int).drop_first() =~= a@.skip(i + 1));
            assert(b@.skip(i as int).drop_first() =~= b@.skip(i + 1));
        }
        i = i + 1;
    }
    i == a.len()
}

/// The byte strings of `ps`.
pub open spec fn byte_views(ps: Seq<Vec<u8>>) -> Seq<Seq<u8>> {
    ps.map_values(|p: Vec<u8>| p@)
}

/// The byte strings one after another.
pub open spec fn concat_all(ps: Seq<Seq<u8>>) -> Seq<u8>
    decreases ps.len(),
{
    if ps.len() == 0 {
        Seq::empty()
    } else {
        concat_all(ps.drop_last()) + ps.last()
    }
}

/// The four big-endian bytes of a length, taken modulo 2^32.
pub open spec fn be_len(n: nat) -> Seq<u8> {
    let m = n % 0x1_0000_0000;
    seq![(m / 0x100_0000) as u8, ((m / 0x1_0000) % 256) as u8, ((m / 256) % 256) as u8, (m % 256) as u8]
}

/// Each byte string after its length.
pub open spec fn framed(ps: Seq<Seq<u8>>) -> Seq<u8>
    decreases ps.len(),
{
    if ps.len() == 0 {
        Seq::empty()
    } else {
        framed(ps.drop_last()) + be_len(ps.last().len()) + ps.last()
    }
}

/// The non-empty proofs, in order.
pub open spec fn non_empty(ps: Seq<Seq<u8>>) -> Seq<Seq<u8>>
    decreases ps.len(),
{
    if ps.len() == 0 {
        Seq::empty()
    } else if ps.last().len() > 0 {
        non_empty(ps.drop_last()).push(ps.last())
    } else {
        non_empty(ps.drop_last())
    }
}

/// Every proof is a 32-byte root hash.
pub open spec fn all_root_hashes(ps: Seq<Seq<u8>>) -> bool {
    forall|i: int| 0 <= i < ps.len() ==> (#[trigger] ps[i]).len() == 32
}

/// Every proof equals the first.
pub open spec fn all_same(ps: Seq<Seq<u8>>) -> bool {
    forall|i: int| 0 <= i < ps.len() ==> #[trigger] ps[i] == ps[0]
}

/// The proof that stands for several: none for no non-empty proof; for
/// root hashes, the one hash when they agree, else the SHA-256 digest of all
/// of them in byte order; otherwise every non-empty proof after its
/// big-endian four-byte length, in order.
pub open spec fn aggregate_spec(ps: Seq<Seq<u8>>) -> Seq<u8> {
    let ne = non_empty(ps);
    if ne.len() == 0 {
        Seq::empty()
    } else if all_root_hashes(ne) {
        if all_same(ne) {
            ne[0]
        } else {
            sha256_spec(concat_all(ne.sort_by(byte_order())))
        }
    } else {
        framed(ne)
    }
}

fn non_empty_of(proofs: &Vec<Vec<u8>>) -> (r: Vec<Vec<u8>>)
    ensures
        byte_views(r@) == non_empty(byte_views(proofs@)),
{
    let mut r: Vec<Vec<u8>> = Vec::new();
    let mut i: usize = 0;
    while i < proofs.len()
        invariant
            i <= proofs@.len(),
            byte_views(r@) == non_empty(byte_views(proofs@).take(i as int)),
        decreases proofs@.len() - i,
    {
        let ghost before = r@;
        let ghost all = byte_views(proofs@);
        proof {
            assert(all.take(i + 1).drop_last() =~= all.take(i as int));
            assert(all.take(i + 1).last() == proofs@[i as int]@);
        }
        proof {
            assert(all[i as int] == proofs@[i as int]@);
            assert(non_empty(all.take(i + 1)) == if proofs@[i as int]@.len() > 0 {
                non_empty(all.take(i as int)).push(proofs@[i as int]@)
            } else {
                non_empty(all.take(i as int))
            });
        }
        if proofs[i].len() > 0 {
            r.push(copy_bytes(proofs[i].as_slice()));
            assert(byte_views(r@) =~= byte_views(before).push(proofs@[i as int]@));
        }
        i = i + 1;
    }
    assert(byte_views(proofs@).take(proofs@.len() as int) =~= byte_views(proofs@));
    r
}

/// The byte strings in byte order.
fn sort_proofs(ps: &Vec<Vec<u8>>) -> (r: Vec<Vec<u8>>)
    ensures
        byte_views(r@) == byte_views(ps@).sort_by(byte_order()),
{
    proof {
        lemma_byte_order_total();
    }
    let ghost leq = byte_order();
    let mut out: Vec<Vec<u8>> = Vec::new();
    let mut i: usize = 0;
    assert(byte_views(out@) =~= byte_views(ps@).take(0));
    while i < ps.len()
        invariant
            i <= ps@.len(),
            total_ordering(leq),
            leq == byte_order(),
            sorted_by(byte_views(out@), leq),
            byte_views(out@).to_multiset() == byte_views(ps@).take(i as int).to_multiset(),
        decreases ps@.len() - i,
    {
        let x = &ps[i];
        let mut p: usize = 0;
        while p < out.len() && bytes_le_exec(out[p].as_slice(), x.as_slice())
            invariant
                p <= out@.len(),
                forall|j: int| 0 <= j < p ==> bytes_le(#[trigger] out@[j]@, x@),
            decreases out@.len() - p,
        {
            p = p + 1;
        }
        let ghost before = byte_views(out@);
        proof {
            assert forall|j: int| p <= j < before.len() implies bytes_le(x@, #[trigger] before[j]) by {
                assert(!bytes_le(out@[p as int]@, x@));
                lemma_bytes_le_total(out@[p as int]@, x@);
                assert(leq(before[p as int], before[j]) || p as int == j);
                if p as int != j {
                    lemma_bytes_le_transitive(x@, before[p as int], before[j]);
                }
            }
        }
        out.insert(p, copy_bytes(x.as_slice()));
        proof {
            let after = byte_views(out@);
            assert(after =~= before.insert(p as int, x@));
            assert forall|a: int, b: int| 0 <= a < b < after.len() implies #[trigger] leq(
                after[a],
                after[b],
            ) by {
                if a < p && b == p {
                } else if a < p && b > p {
                    assert(after[b] == before[b - 1]);
                    lemma_bytes_le_transitive(after[a], x@, after[b]);
                } else if a == p {
                    assert(after[b] == before[b - 1]);
                } else if b < p {
                    assert(leq(before[a], before[b]));
                } else {
                    assert(after[a] == before[a - 1]);
                    assert(after[b] == before[b - 1]);
                    assert(leq(before[a - 1], before[b - 1]));
                }
            }
            vstd::seq_lib::to_multiset_insert(before, p as int, x@);
            let all = byte_views(ps@);
            assert(all.take(i + 1) =~= all.take(i as int).push(x@));
            vstd::seq_lib::to_multiset_build(all.take(i as int), x@);
        }
        i = i + 1;
    }
    proof {
        let all = byte_views(ps@);
        assert(all.take(ps@.len() as int) =~= all);
        all.lemma_sort_by_ensures(leq);
        vstd::seq_lib::lemma_sorted_unique(byte_views(out@), all.sort_by(leq), leq);
    }
    out
}

fn concat_proofs(ps: &Vec<Vec<u8>>) -> (r: Vec<u8>)
    ensures
        r@ == concat_all(byte_views(ps@)),
{
    let mut r: Vec<u8> = Vec::new();
    let mut i: usize = 0;
    while i < ps.len()
        invariant
            i <= ps@.len(),
            r@ == concat_all(byte_views(ps@).take(i as int)),
        decreases ps@.len() - i,
    {
        let ghost before = r@;
        let mut j: usize = 0;
        while j < ps[i].len()
            invariant
                i < ps@.len(),
                j <= ps@[i as int]@.len(),
                r@ == before + ps@[i as int]@.take(j as int),
            decreases ps@[i as int]@.len() - j,
        {
            r.push(ps[i][j]);
            assert(ps@[i as int]@.take(j + 1) =~= ps@[i as int]@.take(j as int).push(ps@[i as int]@[j as int]));
            j = j + 1;
        }
        proof {
            let all = byte_views(ps@);
            assert(all.take(i + 1).drop_last() =~= all.take(i as int));
            assert(ps@[i as int]@.take(j as int) =~= ps@[i as int]@);
        }
        i = i + 1;
    }
    assert(byte_views(ps@).take(ps@.len() as int) =~= byte_views(ps@));
    r
}

fn frame_proofs(ps: &Vec<Vec<u8>>) -> (r: Vec<u8>)
    ensures
        r@ == framed(byte_views(ps@)),
{
    let mut r: Vec<u8> = Vec::new();
    let mut i: usize = 0;
    while i < ps.len()
        invariant
            i <= ps@.len(),
            r@ == framed(byte_views(ps@).take(i as int)),
        decreases ps@.len() - i,
    {
        let ghost before = r@;
        let m: u64 = (ps[i].len() as u64) % 0x1_0000_0000;
        r.push((m / 0x100_0000) as u8);
        r.push(((m / 0x1_0000) % 256) as u8);
        r.push(((m / 256) % 256) as u8);
        r.push((m % 256) as u8);
        proof {
            assert(r@ =~= before + be_len(ps@[i as int]@.len()));
        }
        let ghost mid = r@;
        let mut j: usize = 0;
        while j < ps[i].len()
            invariant
                i < ps@.len(),
                j <= ps@[i as int]@.len(),
                r@ == mid + ps@[i as int]@.take(j as int),
            decreases ps@[i as int]@.len() - j,
        {
            r.push(ps[i][j]);
            assert(ps@[i as int]@.take(j + 1) =~= ps@[i as int]@.take(j as int).push(ps@[i as int]@[j as int]));
            j = j + 1;
        }
        proof {
            let all = byte_views(ps@);
            assert(all.take(i + 1).drop_last() =~= all.take(i as int));
            assert(ps@[i as int]@.take(j as int) =~= ps@[i as int]@);
        }
        i = i + 1;
    }
    assert(byte_views(ps@).take(ps@.len() as int) =~= byte_views(ps@));
    r
}

/// Combines the proofs of several storagers into one, as `aggregate_spec`
/// says.
pub fn aggregate_root_proofs(proofs: &Vec<Vec<u8>>) -> (r: Vec<u8>)
    ensures
        r@ == aggregate_spec(byte_views(proofs@)),
        non_empty(byte_views(proofs@)).len() > 0 && all_root_hashes(non_empty(byte_views(proofs@)))
            ==> r@.len() == 32,
{
    let ne = non_empty_of(proofs);
    let ghost nv = byte_views(ne@);
    if ne.len() == 0 {
        return Vec::new();
    }
    let mut all_hashes = true;
    let mut all_equal = true;
    let mut i: usize = 0;
    while i < ne.len()
        invariant
            i <= ne@.len(),
            ne@.len() > 0,
            nv == byte_views(ne@),
            all_hashes == all_root_hashes(nv.take(i as int)),
            all_equal == all_same_as(nv.take(i as int), nv[0]),
        decreases ne@.len() - i,
    {
        if ne[i].len() != 32 {
            all_hashes = false;
        }
        if !bytes_equal(ne[i].as_slice(), ne[0].as_slice()) {
            all_equal = false;
        }
        proof {
            let t = nv.take(i as int);
            let t1 = nv.take(i + 1);
            assert(t1 =~= t.push(nv[i as int]));
            assert(nv[i as int] == ne@[i as int]@);
            assert(nv[0] == ne@[0]@);
            assert(all_root_hashes(t1) == (all_root_hashes(t) && nv[i as int].len() == 32)) by {
                if all_root_hashes(t) && nv[i as int].len() == 32 {
                    assert forall|k: int| 0 <= k < t1.len() implies (#[trigger] t1[k]).len() == 32 by {
                        if k < i {
                            assert(t1[k] == t[k]);
                        }
                    }
                }
                if all_root_hashes(t1) {
                    assert(t1[i as int].len() == 32);
                    assert forall|k: int| 0 <= k < t.len() implies (#[trigger] t[k]).len() == 32 by {
                        assert(t1[k] == t[k]);
                    }
                }
            }
            assert(all_same_as(t1, nv[0]) == (all_same_as(t, nv[0]) && nv[i as int] == nv[0])) by {
                if all_same_as(t, nv[0]) && nv[i as int] == nv[0] {
                    assert forall|k: int| 0 <= k < t1.len() implies #[trigger] t1[k] == nv[0] by {
                        if k < i {
                            assert(t1[k] == t[k]);
                        }
                    }
                }
                if all_same_as(t1, nv[0]) {
                    assert(t1[i as int] == nv[0]);
                    assert forall|k: int| 0 <= k < t.len() implies #[trigger] t[k] == nv[0] by {
                        assert(t1[k] == t[k]);
                    }
                }
            }
        }
        i = i + 1;
    }
    proof {
        assert(nv.take(ne@.len() as int) =~= nv);
        assert(all_same(nv) == all_same_as(nv, nv[0]));
    }
    if all_hashes {
        if all_equal {
            assert(nv[0].len() == 32);
            copy_bytes(ne[0].as_slice())
        } else {
            let sorted = sort_proofs(&ne);
            let joined = concat_proofs(&sorted);
            sha256(joined.as_slice())
        }
    } else {
        frame_proofs(&ne)
    }
}

/// Every proof equals `first`.
pub open spec fn all_same_as(ps: Seq<Seq<u8>>, first: Seq<u8>) -> bool {
    forall|i: int| 0 <= i < ps.len() ==> #[trigger] ps[i] == first
}

} // verus!
