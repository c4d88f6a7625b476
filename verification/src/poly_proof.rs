//! Transparent polynomials over the BLS12-381 scalar field: their commitment
//! (the SHA-256 of their length-prefixed coefficients), reading them back,
//! evaluating and dividing them, and the challenge point of a proof node.
//! The field arithmetic is arkworks'.
use vstd::prelude::*;
use ark_ff::{Field, One, PrimeField, Zero};
use ark_poly::univariate::{DenseOrSparsePolynomial, DensePolynomial};
use ark_poly::{Polynomial, UVPolynomial};
use ark_serialize::{CanonicalDeserialize, CanonicalSerialize};
use crate::proofs::{
    polynomial_for_node, sha256, sha256_spec, PolynomialIntersectionAggregateProof,
    PolynomialIntersectionNodeProof, PolynomialSetProofNode, PolynomialUnionNodeProof, SetProofLeaf,
    TransparentPolynomial,
};
use crate::verification::{bytes_equal, copy_bytes, push_bytes};

verus! {

/// `Fr::deserialize` on the bytes, the scalar written back with
/// `serialize`; or the error's text.
pub uninterp spec fn fr_read_spec(bytes: Seq<u8>) -> Result<Seq<u8>, Seq<char>>;

/// The coefficients of `DensePolynomial::from_coefficients_vec` over the
/// scalars the bytes encode, written back.
pub uninterp spec fn poly_from_coefficients_spec(coeffs: Seq<Seq<u8>>) -> Seq<Seq<u8>>;

/// The value at a point of the polynomial with these coefficients, written
/// back.
pub uninterp spec fn poly_evaluate_spec(coeffs: Seq<Seq<u8>>, point: Seq<u8>) -> Seq<u8>;

/// Division with remainder of two polynomials: the quotient's coefficients
/// and whether the remainder is zero; `None` when division fails.
pub uninterp spec fn poly_divide_spec(num: Seq<Seq<u8>>, den: Seq<Seq<u8>>) -> Option<(Seq<Seq<u8>>, bool)>;

/// The scalar that the little-endian bytes give reduced modulo the field
/// order, written back.
pub uninterp spec fn fr_from_le_bytes_spec(bytes: Seq<u8>) -> Seq<u8>;

pub open spec fn bytes_seqs(v: Seq<Vec<u8>>) -> Seq<Seq<u8>> {
    v.map_values(|b: Vec<u8>| b@)
}

/// Reads a scalar: `ark_bls12_381::Fr::deserialize` (ark-ff 0.3), the result
/// written back with `CanonicalSerialize::serialize`, or the error as
/// `deserialize Fr failed: {:?}`. A function of the bytes alone, left to the
/// name `fr_read_spec`.
#[verifier::external_body]
fn fr_read(bytes: &[u8]) -> (r: Result<Vec<u8>, String>)
    ensures
        match r {
            Ok(v) => fr_read_spec(bytes@) == Ok::<Seq<u8>, Seq<char>>(v@),
            Err(e) => fr_read_spec(bytes@) == Err::<Seq<u8>, Seq<char>>(e@),
        },
{
    match ark_bls12_381::Fr::deserialize(bytes) {
        Ok(value) => {
            let mut out = Vec::new();
            value.serialize(&mut out).expect("serializing into a vector does not fail");
            Ok(out)
        },
        Err(e) => Err(format!("deserialize Fr failed: {:?}", e)),
    }
}

/// `DensePolynomial::from_coefficients_vec` (ark-poly 0.3) over the scalars
/// the bytes encode (each must read), its coefficients written back; left to
/// the name `poly_from_coefficients_spec`. Two facts are stated of the
/// result: a written-back scalar reads back as itself (serialization and
/// deserialization are inverse), and the coefficients, having no trailing
/// zero, are left as they are by `from_coefficients_vec`.
#[verifier::external_body]
fn poly_from_coefficients(coeffs: &Vec<Vec<u8>>) -> (r: Vec<Vec<u8>>)
    requires
        decode_all(bytes_seqs(coeffs@)) is Ok,
    ensures
        bytes_seqs(r@) == poly_from_coefficients_spec(bytes_seqs(coeffs@)),
        decode_all(bytes_seqs(r@)) == Ok::<Seq<Seq<u8>>, Seq<char>>(bytes_seqs(r@)),
        poly_from_coefficients_spec(bytes_seqs(r@)) == bytes_seqs(r@),
{
    let scalars: Vec<ark_bls12_381::Fr> =
        coeffs.iter().map(|b| ark_bls12_381::Fr::deserialize(&b[..]).unwrap()).collect();
    let poly = DensePolynomial::from_coefficients_vec(scalars);
    poly.coeffs.iter().map(|c| {
        let mut out = Vec::new();
        c.serialize(&mut out).expect("serializing into a vector does not fail");
        out
    }).collect()
}

/// `Polynomial::evaluate` (ark-poly 0.3) of the polynomial with these
/// coefficients at the point (all must read), written back; left to the
/// name `poly_evaluate_spec`.
#[verifier::external_body]
fn poly_evaluate(coeffs: &Vec<Vec<u8>>, point: &[u8]) -> (r: Vec<u8>)
    requires
        decode_all(bytes_seqs(coeffs@)) is Ok,
        fr_read_spec(point@) is Ok,
    ensures
        r@ == poly_evaluate_spec(bytes_seqs(coeffs@), point@),
{
    let scalars: Vec<ark_bls12_381::Fr> =
        coeffs.iter().map(|b| ark_bls12_381::Fr::deserialize(&b[..]).unwrap()).collect();
    let at = ark_bls12_381::Fr::deserialize(point).unwrap();
    let value = DensePolynomial::from_coefficients_vec(scalars).evaluate(&at);
    let mut out = Vec::new();
    value.serialize(&mut out).expect("serializing into a vector does not fail");
    out
}

/// `DenseOrSparsePolynomial::divide_with_q_and_r` (ark-poly 0.3) of the
/// polynomials with these coefficients (all must read): the quotient's
/// coefficients written back and whether the remainder `is_zero`; left to
/// the name `poly_divide_spec`. It panics when it divides a non-zero
/// polynomial by zero, so that input is left out: a polynomial from
/// `from_coefficients_vec` carries no trailing zero coefficient, hence is
/// zero exactly when it has no coefficient. The quotient it gives is zero or
/// comes from `from_coefficients_vec`, so as for `poly_from_coefficients`
/// its coefficients read back as themselves and are left as they are.
#[verifier::external_body]
fn poly_divide(num: &Vec<Vec<u8>>, den: &Vec<Vec<u8>>) -> (r: Option<(Vec<Vec<u8>>, bool)>)
    requires
        decode_all(bytes_seqs(num@)) is Ok,
        decode_all(bytes_seqs(den@)) is Ok,
        poly_from_coefficients_spec(bytes_seqs(num@)).len() == 0
            || poly_from_coefficients_spec(bytes_seqs(den@)).len() > 0,
    ensures
        poly_divide_spec(bytes_seqs(num@), bytes_seqs(den@)) == match r {
            Some((q, z)) => Some((bytes_seqs(q@), z)),
            None => None,
        },
        match r {
            Some((q, _)) => decode_all(bytes_seqs(q@)) == Ok::<Seq<Seq<u8>>, Seq<char>>(bytes_seqs(q@))
                && poly_from_coefficients_spec(bytes_seqs(q@)) == bytes_seqs(q@),
            None => true,
        },
{
    let read = |v: &Vec<Vec<u8>>| DensePolynomial::from_coefficients_vec(
        v.iter().map(|b| ark_bls12_381::Fr::deserialize(&b[..]).unwrap()).collect());
    let (n, d) = (read(num), read(den));
    let (q, rem) = DenseOrSparsePolynomial::from(&n).divide_with_q_and_r(&DenseOrSparsePolynomial::from(&d))?;
    let coeffs = q.coeffs.iter().map(|c| {
        let mut out = Vec::new();
        c.serialize(&mut out).expect("serializing into a vector does not fail");
        out
    }).collect();
    Some((coeffs, rem.is_zero()))
}

/// `PrimeField::from_le_bytes_mod_order` for `ark_bls12_381::Fr` (ark-ff
/// 0.3), written back; left to the name `fr_from_le_bytes_spec`.
#[verifier::external_body]
fn fr_from_le_bytes_mod_order(bytes: &[u8]) -> (r: Vec<u8>)
    ensures
        r@ == fr_from_le_bytes_spec(bytes@),
{
    let value = ark_bls12_381::Fr::from_le_bytes_mod_order(bytes);
    let mut out = Vec::new();
    value.serialize(&mut out).expect("serializing into a vector does not fail");
    out
}

/// Reads every coefficient, in order: their scalars written back, or the
/// first error.
pub open spec fn decode_all(cs: Seq<Seq<u8>>) -> Result<Seq<Seq<u8>>, Seq<char>>
    decreases cs.len(),
{
    if cs.len() == 0 {
        Ok(Seq::empty())
    } else {
        match decode_all(cs.drop_last()) {
            Err(e) => Err(e),
            Ok(v) => match fr_read_spec(cs.last()) {
                Err(e) => Err(e),
                Ok(x) => Ok(v.push(x)),
            },
        }
    }
}

/// The four little-endian bytes of a length, as `u32` keeps it.
pub open spec fn le4(n: nat) -> Seq<u8> {
    let m = n % 0x1_0000_0000;
    seq![(m % 256) as u8, ((m / 256) % 256) as u8, ((m / 65536) % 256) as u8, ((m / 16777216) % 256) as u8]
}

/// What a commitment hashes: each coefficient after its length.
pub open spec fn commitment_preimage(cs: Seq<Seq<u8>>) -> Seq<u8>
    decreases cs.len(),
{
    if cs.len() == 0 {
        Seq::empty()
    } else {
        commitment_preimage(cs.drop_last()) + le4(cs.last().len()) + cs.last()
    }
}

/// The commitment to coefficients.
pub open spec fn commitment_of(cs: Seq<Seq<u8>>) -> Seq<u8> {
    sha256_spec(commitment_preimage(cs))
}

fn push_le4(buf: &mut Vec<u8>, n: usize)
    ensures
        final(buf)@ == old(buf)@ + le4(n as nat),
{
    let m: u64 = (n as u64) % 0x1_0000_0000;
    assert(m == (n as nat) % 0x1_0000_0000);
    buf.push((m % 256) as u8);
    buf.push(((m / 256) % 256) as u8);
    buf.push(((m / 65536) % 256) as u8);
    buf.push(((m / 16777216) % 256) as u8);
    assert(final(buf)@ =~= old(buf)@ + le4(n as nat));
}

/// The commitment to coefficients: the SHA-256 of each coefficient's
/// length (four little-endian bytes) followed by the coefficient.
pub fn polynomial_commitment_hash(coefficients: &Vec<Vec<u8>>) -> (r: Vec<u8>)
    ensures
        r@ == commitment_of(bytes_seqs(coefficients@)),
{
    let ghost cs = bytes_seqs(coefficients@);
    let mut buf: Vec<u8> = Vec::new();
    let mut i: usize = 0;
    while i < coefficients.len()
        invariant
            i <= coefficients@.len(),
            cs == bytes_seqs(coefficients@),
            buf@ == commitment_preimage(cs.take(i as int)),
        decreases coefficients@.len() - i,
    {
        let c = coefficients[i].as_slice();
        push_le4(&mut buf, c.len());
        push_bytes(&mut buf, c);
        i = i + 1;
        assert(cs.take(i as int).drop_last() =~= cs.take(i - 1));
    }
    assert(cs.take(coefficients@.len() as int) =~= cs);
    sha256(buf.as_slice())
}

pub open spec fn res_view(r: Result<Vec<Vec<u8>>, String>) -> Result<Seq<Seq<u8>>, Seq<char>> {
    match r {
        Ok(v) => Ok(bytes_seqs(v@)),
        Err(e) => Err(e@),
    }
}

/// Reads every coefficient.
fn read_all(cs: &Vec<Vec<u8>>) -> (r: Result<Vec<Vec<u8>>, String>)
    ensures
        res_view(r) == decode_all(bytes_seqs(cs@)),
{
    let ghost v = bytes_seqs(cs@);
    let mut out: Vec<Vec<u8>> = Vec::new();
    let mut i: usize = 0;
    assert(v.take(0) =~= Seq::<Seq<u8>>::empty());
    assert(bytes_seqs(out@) =~= Seq::<Seq<u8>>::empty());
    while i < cs.len()
        invariant
            i <= cs@.len(),
            v == bytes_seqs(cs@),
            decode_all(v.take(i as int)) == Ok::<Seq<Seq<u8>>, Seq<char>>(bytes_seqs(out@)),
        decreases cs@.len() - i,
    {
        assert(v.take(i + 1).drop_last() =~= v.take(i as int));
        assert(v.take(i + 1).last() == cs@[i as int]@);
        match fr_read(cs[i].as_slice()) {
            Err(e) => {
                proof {
                    lemma_decode_err_stays(v, i + 1);
                }
                return Err(e);
            },
            Ok(x) => {
                let ghost before = out@;
                out.push(x);
                assert(bytes_seqs(out@) =~= bytes_seqs(before).push(out@.last()@));
            },
        }
        i = i + 1;
    }
    assert(v.take(cs@.len() as int) =~= v);
    Ok(out)
}

proof fn lemma_decode_err_stays(cs: Seq<Seq<u8>>, k: int)
    requires
        0 < k <= cs.len(),
        decode_all(cs.take(k)) is Err,
    ensures
        decode_all(cs) == decode_all(cs.take(k)),
    decreases cs.len() - k,
{
    if k < cs.len() {
        assert(cs.take(k + 1).drop_last() =~= cs.take(k));
        lemma_decode_err_stays(cs, k + 1);
    } else {
        assert(cs.take(k) =~= cs);
    }
}

/// A transparent polynomial read back: its commitment must match its
/// coefficients, and each coefficient must read; then its coefficients as
/// `from_coefficients_vec` leaves them.
pub open spec fn dense_spec(p: TransparentPolynomial) -> Result<Seq<Seq<u8>>, Seq<char>> {
    if commitment_of(bytes_seqs(p.coefficients@)) != p.commitment@ {
        Err("transparent polynomial commitment mismatch"@)
    } else {
        match decode_all(bytes_seqs(p.coefficients@)) {
            Err(e) => Err(e),
            Ok(_) => Ok(poly_from_coefficients_spec(bytes_seqs(p.coefficients@))),
        }
    }
}

fn message(s: &str) -> (r: String)
    ensures
        r@ == s@,
{
    let mut cs: Vec<char> = Vec::new();
    crate::text::push_str(&mut cs, s);
    crate::text::string_from_chars(cs.as_slice())
}

/// Reads a transparent polynomial back.
fn dense_from_transparent(poly: &TransparentPolynomial) -> (r: Result<Vec<Vec<u8>>, String>)
    ensures
        res_view(r) == dense_spec(*poly),
{
    let h = polynomial_commitment_hash(&poly.coefficients);
    if !bytes_equal(h.as_slice(), poly.commitment.as_slice()) {
        return Err(message("transparent polynomial commitment mismatch"));
    }
    match read_all(&poly.coefficients) {
        Err(e) => Err(e),
        Ok(_) => Ok(poly_from_coefficients(&poly.coefficients)),
    }
}

/// The transparent polynomial with these coefficients, committed.
fn transparent_from_canonical(coefficients: Vec<Vec<u8>>) -> (p: TransparentPolynomial)
    ensures
        bytes_seqs(p.coefficients@) == bytes_seqs(coefficients@),
        p.commitment@ == commitment_of(bytes_seqs(coefficients@)),
{
    let commitment = polynomial_commitment_hash(&coefficients);
    TransparentPolynomial { commitment, coefficients }
}

/// Whether a transparent polynomial is sound: it reads back, and its
/// commitment is that of its coefficients as read back.
pub fn verify_transparent_polynomial(poly: &TransparentPolynomial) -> (r: bool)
    ensures
        r == match dense_spec(*poly) {
            Ok(c) => commitment_of(c) == poly.commitment@,
            Err(_) => false,
        },
{
    match dense_from_transparent(poly) {
        Ok(c) => {
            let h = polynomial_commitment_hash(&c);
            bytes_equal(h.as_slice(), poly.commitment.as_slice())
        },
        Err(_) => false,
    }
}

/// The value of a transparent polynomial at a point: the polynomial must
/// read back and the point must read.
pub fn evaluate_transparent_polynomial(poly: &TransparentPolynomial, point_bytes: &[u8]) -> (r: Result<Vec<u8>, String>)
    ensures
        match dense_spec(*poly) {
            Err(e) => r matches Err(x) && x@ == e,
            Ok(_) => match fr_read_spec(point_bytes@) {
                Err(e) => r matches Err(x) && x@ == e,
                Ok(_) => r matches Ok(v) && v@ == poly_evaluate_spec(bytes_seqs(poly.coefficients@), point_bytes@),
            },
        },
{
    match dense_from_transparent(poly) {
        Err(e) => Err(e),
        Ok(_) => match fr_read(point_bytes) {
            Err(e) => Err(e),
            Ok(_) => {
                proof {
                    assert(decode_all(bytes_seqs(poly.coefficients@)) is Ok);
                }
                Ok(poly_evaluate(&poly.coefficients, point_bytes))
            },
        },
    }
}

/// A transparent polynomial from serialized coefficients: each must read;
/// its coefficients are then those `from_coefficients_vec` leaves, committed.
pub fn transparent_polynomial_from_coefficients(coefficients: Vec<Vec<u8>>) -> (r: Result<TransparentPolynomial, String>)
    ensures
        match decode_all(bytes_seqs(coefficients@)) {
            Err(e) => r matches Err(x) && x@ == e,
            Ok(_) => r matches Ok(p) && bytes_seqs(p.coefficients@) == poly_from_coefficients_spec(
                bytes_seqs(coefficients@),
            ) && p.commitment@ == commitment_of(bytes_seqs(p.coefficients@)),
        },
        r matches Ok(p) ==> sound(p),
{
    match read_all(&coefficients) {
        Err(e) => Err(e),
        Ok(_) => Ok(transparent_from_canonical(poly_from_coefficients(&coefficients))),
    }
}

/// Division is defined: a zero polynomial is divided by nothing but zero
/// only when the dividend is zero too (that is, when both read back, the
/// dividend is zero or the divisor is not).
pub open spec fn division_defined(numerator: TransparentPolynomial, denominator: TransparentPolynomial) -> bool {
    match (dense_spec(numerator), dense_spec(denominator)) {
        (Ok(n), Ok(d)) => n.len() == 0 || d.len() > 0,
        _ => true,
    }
}

/// The quotient's coefficients, or the error: both polynomials must read
/// back, the division must succeed and leave no remainder.
pub open spec fn quotient_spec(numerator: TransparentPolynomial, denominator: TransparentPolynomial) -> Result<Seq<Seq<u8>>, Seq<char>> {
    match (dense_spec(numerator), dense_spec(denominator)) {
        (Err(e), _) => Err(e),
        (Ok(_), Err(e)) => Err(e),
        (Ok(_), Ok(_)) => match poly_divide_spec(
            bytes_seqs(numerator.coefficients@),
            bytes_seqs(denominator.coefficients@),
        ) {
            None => Err("polynomial division failed"@),
            Some((q, zero)) => if !zero {
                Err("polynomial division has non-zero remainder"@)
            } else {
                Ok(q)
            },
        },
    }
}

/// A committed polynomial as its coefficients, or the error; and its
/// commitment is that of its coefficients.
pub open spec fn committed_view(r: Result<TransparentPolynomial, String>) -> Result<Seq<Seq<u8>>, Seq<char>> {
    match r {
        Ok(p) => Ok(bytes_seqs(p.coefficients@)),
        Err(e) => Err(e@),
    }
}

pub open spec fn committed(r: Result<TransparentPolynomial, String>) -> bool {
    r matches Ok(p) ==> p.commitment@ == commitment_of(bytes_seqs(p.coefficients@))
}

/// The quotient of two transparent polynomials.
pub fn quotient_polynomial(numerator: &TransparentPolynomial, denominator: &TransparentPolynomial) -> (r: Result<TransparentPolynomial, String>)
    requires
        division_defined(*numerator, *denominator),
    ensures
        committed_view(r) == quotient_spec(*numerator, *denominator),
        committed(r),
        r matches Ok(p) ==> sound(p) && canonical(p),
{
    match dense_from_transparent(numerator) {
        Err(e) => return Err(e),
        Ok(_) => {},
    }
    match dense_from_transparent(denominator) {
        Err(e) => return Err(e),
        Ok(_) => {},
    }
    match poly_divide(&numerator.coefficients, &denominator.coefficients) {
        None => Err(message("polynomial division failed")),
        Some((q, zero)) => {
            if !zero {
                Err(message("polynomial division has non-zero remainder"))
            } else {
                Ok(transparent_from_canonical(q))
            }
        },
    }
}

/// The quotient of two transparent polynomials where division is defined;
/// `None` when a non-zero polynomial would be divided by zero.
pub fn checked_quotient_polynomial(numerator: &TransparentPolynomial, denominator: &TransparentPolynomial) -> (r: Option<Result<TransparentPolynomial, String>>)
    ensures
        r is None <==> !division_defined(*numerator, *denominator),
        r matches Some(q) ==> committed_view(q) == quotient_spec(*numerator, *denominator) && committed(q),
{
    if !division_ok(numerator, denominator) {
        return None;
    }
    Some(quotient_polynomial(numerator, denominator))
}

/// Whether division of the first polynomial by the second is defined.
fn division_ok(numerator: &TransparentPolynomial, denominator: &TransparentPolynomial) -> (b: bool)
    ensures
        b == division_defined(*numerator, *denominator),
{
    if let (Ok(n), Ok(d)) = (dense_from_transparent(numerator), dense_from_transparent(denominator)) {
        if n.len() != 0 && d.len() == 0 {
            return false;
        }
    }
    true
}

/// The inverse of the scalar that the little-endian bytes give reduced
/// into the field, written back; `None` for zero.
pub uninterp spec fn fr_inverse_spec(a: Seq<u8>) -> Option<Seq<u8>>;

/// `Field::inverse` (ark-ff 0.3) of `from_le_bytes_mod_order` of the bytes
/// for `ark_bls12_381::Fr`, written back; left to the name
/// `fr_inverse_spec`.
#[verifier::external_body]
fn fr_inverse(a: &[u8]) -> (r: Option<Vec<u8>>)
    ensures
        fr_inverse_spec(a@) == match r {
            Some(v) => Some(v@),
            None => None,
        },
{
    match ark_bls12_381::Fr::from_le_bytes_mod_order(a).inverse() {
        Some(value) => {
            let mut out = Vec::new();
            value.serialize(&mut out).expect("serializing into a vector does not fail");
            Some(out)
        },
        None => None,
    }
}

/// Every coefficient is zero (so is the polynomial without coefficients).
pub open spec fn all_zero(cs: Seq<Seq<u8>>) -> bool {
    forall|k: int| 0 <= k < cs.len() ==> cs[k] == zero_bytes()
}

/// Each coefficient multiplied by `k`.
pub open spec fn scale_all(cs: Seq<Seq<u8>>, k: Seq<u8>) -> Seq<Seq<u8>> {
    cs.map_values(|c: Seq<u8>| fr_mul_le_spec(c, k))
}

/// A polynomial that `DensePolynomial::degree` accepts: zero, or with a
/// non-zero last coefficient.
pub open spec fn trimmed(cs: Seq<Seq<u8>>) -> bool {
    all_zero(cs) || cs.last() != zero_bytes()
}

/// The Bezout coefficients made to sum to one, or the error: both
/// quotients must read back (`left` and `right` are what they read back
/// to) and their extended gcd must be given; the gcd
/// must be a non-zero constant, and both coefficients are multiplied by its
/// inverse.
pub open spec fn bezout_spec(
    left: Result<Seq<Seq<u8>>, Seq<char>>,
    right: Result<Seq<Seq<u8>>, Seq<char>>,
    xgcd: Option<(Seq<Seq<u8>>, Seq<Seq<u8>>, Seq<Seq<u8>>)>,
) -> Result<(Seq<Seq<u8>>, Seq<Seq<u8>>), Seq<char>> {
    match (left, right) {
        (Err(e), _) => Err(e),
        (Ok(_), Err(e)) => Err(e),
        (Ok(_), Ok(_)) => match xgcd {
            None => Err("extended gcd for quotient polynomials failed"@),
            Some((g, u, v)) => if all_zero(g) {
                Err("gcd is zero"@)
            } else if g.len() != 1 {
                Err("quotient polynomials are not coprime"@)
            } else if g[0] == zero_bytes() {
                Err("gcd constant is zero"@)
            } else {
                match fr_inverse_spec(g[0]) {
                    None => Err("failed to invert gcd constant"@),
                    Some(inv) => Ok((scale_all(u, inv), scale_all(v, inv))),
                }
            },
        },
    }
}

pub open spec fn xgcd_view(x: Option<(Vec<Vec<u8>>, Vec<Vec<u8>>, Vec<Vec<u8>>)>) -> Option<(Seq<Seq<u8>>, Seq<Seq<u8>>, Seq<Seq<u8>>)> {
    match x {
        Some((g, u, v)) => Some((bytes_seqs(g@), bytes_seqs(u@), bytes_seqs(v@))),
        None => None,
    }
}

pub open spec fn pair_view(r: Result<(TransparentPolynomial, TransparentPolynomial), String>) -> Result<(Seq<Seq<u8>>, Seq<Seq<u8>>), Seq<char>> {
    match r {
        Ok((p, q)) => Ok((bytes_seqs(p.coefficients@), bytes_seqs(q.coefficients@))),
        Err(e) => Err(e@),
    }
}

fn is_zero_scalar(c: &Vec<u8>) -> (r: bool)
    ensures
        r == (c@ == zero_bytes()),
{
    let z = fr_zero_bytes();
    bytes_equal(c.as_slice(), z.as_slice())
}

fn scale_coefficients(cs: &Vec<Vec<u8>>, k: &Vec<u8>) -> (r: Vec<Vec<u8>>)
    ensures
        bytes_seqs(r@) == scale_all(bytes_seqs(cs@), k@),
{
    let mut r: Vec<Vec<u8>> = Vec::new();
    let mut i: usize = 0;
    while i < cs.len()
        invariant
            i <= cs@.len(),
            bytes_seqs(r@) == scale_all(bytes_seqs(cs@), k@).take(i as int),
        decreases cs@.len() - i,
    {
        let ghost before = bytes_seqs(r@);
        r.push(fr_mul_le(cs[i].as_slice(), k.as_slice()));
        assert(bytes_seqs(r@) =~= before.push(fr_mul_le_spec(cs@[i as int]@, k@)));
        assert(scale_all(bytes_seqs(cs@), k@).take(i + 1) =~= scale_all(bytes_seqs(cs@), k@).take(i as int).push(
            fr_mul_le_spec(cs@[i as int]@, k@),
        ));
        i = i + 1;
    }
    assert(scale_all(bytes_seqs(cs@), k@).take(cs@.len() as int) =~= scale_all(bytes_seqs(cs@), k@));
    r
}

/// Makes the Bezout coefficients of two quotient polynomials sum to one,
/// given the extended gcd `(gcd, u, v)` of the two as read back (their
/// coefficients written back), `None` when it failed.
pub fn normalize_bezout_identity(
    left: &TransparentPolynomial,
    right: &TransparentPolynomial,
    xgcd: &Option<(Vec<Vec<u8>>, Vec<Vec<u8>>, Vec<Vec<u8>>)>,
) -> (r: Result<(TransparentPolynomial, TransparentPolynomial), String>)
    requires
        *xgcd matches Some((g, _, _)) ==> trimmed(bytes_seqs(g@)),
    ensures
        pair_view(r) == bezout_spec(dense_spec(*left), dense_spec(*right), xgcd_view(*xgcd)),
        r matches Ok((p, q)) ==> committed(Ok::<TransparentPolynomial, String>(p)) && committed(
            Ok::<TransparentPolynomial, String>(q),
        ),
{
    match dense_from_transparent(left) {
        Err(e) => return Err(e),
        Ok(_) => {},
    }
    match dense_from_transparent(right) {
        Err(e) => return Err(e),
        Ok(_) => {},
    }
    let (g, u, v) = match xgcd {
        None => return Err(message("extended gcd for quotient polynomials failed")),
        Some((g, u, v)) => (g, u, v),
    };
    let ghost gv = bytes_seqs(g@);
    let mut zero = true;
    let mut i: usize = 0;
    while i < g.len()
        invariant
            i <= g@.len(),
            gv == bytes_seqs(g@),
            zero == (forall|k: int| 0 <= k < i ==> gv[k] == zero_bytes()),
        decreases g@.len() - i,
    {
        assert(gv[i as int] == g@[i as int]@);
        if !is_zero_scalar(&g[i]) {
            zero = false;
        }
        i = i + 1;
    }
    if zero {
        return Err(message("gcd is zero"));
    }
    if g.len() != 1 {
        return Err(message("quotient polynomials are not coprime"));
    }
    if is_zero_scalar(&g[0]) {
        return Err(message("gcd constant is zero"));
    }
    let inv = match fr_inverse(g[0].as_slice()) {
        None => return Err(message("failed to invert gcd constant")),
        Some(inv) => inv,
    };
    let su = scale_coefficients(u, &inv);
    let sv = scale_coefficients(v, &inv);
    Ok((transparent_from_canonical(su), transparent_from_canonical(sv)))
}

/// The polynomial of the set a node stands for.
pub open spec fn node_polynomial(node: PolynomialSetProofNode) -> TransparentPolynomial {
    match node {
        PolynomialSetProofNode::Leaf(l) => l.set_polynomial,
        PolynomialSetProofNode::And(b) => b.set_polynomial,
        PolynomialSetProofNode::Or(b) => b.set_polynomial,
    }
}

/// The parts of a binary node over operands with polynomials `lp` and
/// `rp` and intersection polynomial `inter`: the quotients of both by the
/// intersection and the Bezout coefficients normalized from `xgcd`, or the
/// first error.
pub open spec fn node_parts_spec(
    lp: TransparentPolynomial,
    rp: TransparentPolynomial,
    inter: TransparentPolynomial,
    xgcd: Option<(Seq<Seq<u8>>, Seq<Seq<u8>>, Seq<Seq<u8>>)>,
) -> Result<(Seq<Seq<u8>>, Seq<Seq<u8>>, Seq<Seq<u8>>, Seq<Seq<u8>>), Seq<char>> {
    match quotient_spec(lp, inter) {
        Err(e) => Err(e),
        Ok(ql) => match quotient_spec(rp, inter) {
            Err(e) => Err(e),
            Ok(qr) => match bezout_spec(
                Ok::<Seq<Seq<u8>>, Seq<char>>(ql),
                Ok::<Seq<Seq<u8>>, Seq<char>>(qr),
                xgcd,
            ) {
                Err(e) => Err(e),
                Ok((u, v)) => Ok((ql, qr, u, v)),
            },
        },
    }
}

/// Byte strings one after the other.
pub open spec fn concat_all(cs: Seq<Seq<u8>>) -> Seq<u8>
    decreases cs.len(),
{
    if cs.len() == 0 {
        Seq::empty()
    } else {
        concat_all(cs.drop_last()) + cs.last()
    }
}

proof fn lemma_commitments_concat(polys: Seq<&TransparentPolynomial>)
    ensures
        commitments_of(polys) == concat_all(polys.map_values(|p: &TransparentPolynomial| p.commitment@)),
    decreases polys.len(),
{
    if polys.len() > 0 {
        lemma_commitments_concat(polys.drop_last());
        assert(polys.drop_last().map_values(|p: &TransparentPolynomial| p.commitment@) =~= polys.map_values(
            |p: &TransparentPolynomial| p.commitment@,
        ).drop_last());
    }
}

/// A polynomial with these coefficients and their commitment.
pub open spec fn committed_to(p: TransparentPolynomial, cs: Seq<Seq<u8>>) -> bool {
    bytes_seqs(p.coefficients@) == cs && p.commitment@ == commitment_of(cs)
}

/// The quotients, Bezout coefficients and challenge point of a binary node
/// built from `parts` over operand polynomials `lp` and `rp`, set
/// polynomial `set` and intersection polynomial `inter`: each part
/// committed, and the challenge derived from the eight commitments in the
/// order operands, set, intersection, quotients, Bezout coefficients.
pub open spec fn built_parts(
    lp: TransparentPolynomial,
    rp: TransparentPolynomial,
    set: TransparentPolynomial,
    inter: TransparentPolynomial,
    parts: (Seq<Seq<u8>>, Seq<Seq<u8>>, Seq<Seq<u8>>, Seq<Seq<u8>>),
    ql: TransparentPolynomial,
    qr: TransparentPolynomial,
    u: TransparentPolynomial,
    v: TransparentPolynomial,
    challenge: Seq<u8>,
) -> bool {
    &&& committed_to(ql, parts.0)
    &&& committed_to(qr, parts.1)
    &&& committed_to(u, parts.2)
    &&& committed_to(v, parts.3)
    &&& challenge == fr_from_le_bytes_spec(
        sha256_spec(
            concat_all(
                seq![
                    lp.commitment@,
                    rp.commitment@,
                    set.commitment@,
                    inter.commitment@,
                    commitment_of(parts.0),
                    commitment_of(parts.1),
                    commitment_of(parts.2),
                    commitment_of(parts.3),
                ],
            ),
        ),
    )
}

/// An intersection node over `left` and `right` whose set and intersection
/// polynomial are both `set`, built from `parts`.
pub open spec fn intersection_node_fields(
    n: PolynomialIntersectionNodeProof,
    left: PolynomialSetProofNode,
    right: PolynomialSetProofNode,
    set: TransparentPolynomial,
    parts: (Seq<Seq<u8>>, Seq<Seq<u8>>, Seq<Seq<u8>>, Seq<Seq<u8>>),
) -> bool {
    &&& n.left == left
    &&& n.right == right
    &&& tp_view(n.set_polynomial) == tp_view(set)
    &&& tp_view(n.intersection_polynomial) == tp_view(set)
    &&& built_parts(
        node_polynomial(left),
        node_polynomial(right),
        set,
        set,
        parts,
        n.quotient_left,
        n.quotient_right,
        n.bezout_u,
        n.bezout_v,
        n.challenge_point@,
    )
}

/// The quotients, Bezout coefficients and challenge point of a binary
/// node, or the first error.
fn build_parts(
    lp: &TransparentPolynomial,
    rp: &TransparentPolynomial,
    set: &TransparentPolynomial,
    inter: &TransparentPolynomial,
    xgcd: &Option<(Vec<Vec<u8>>, Vec<Vec<u8>>, Vec<Vec<u8>>)>,
) -> (r: Result<(TransparentPolynomial, TransparentPolynomial, TransparentPolynomial, TransparentPolynomial, Vec<u8>), String>)
    requires
        division_defined(*lp, *inter),
        division_defined(*rp, *inter),
        *xgcd matches Some((g, _, _)) ==> trimmed(bytes_seqs(g@)),
    ensures
        match node_parts_spec(*lp, *rp, *inter, xgcd_view(*xgcd)) {
            Err(e) => r matches Err(x) && x@ == e,
            Ok(parts) => r matches Ok((ql, qr, u, v, c)) && built_parts(*lp, *rp, *set, *inter, parts, ql, qr, u, v, c@)
                && canonical(ql) && canonical(qr),
        },
{
    let ql = match quotient_polynomial(lp, inter) {
        Ok(q) => q,
        Err(e) => return Err(e),
    };
    let qr = match quotient_polynomial(rp, inter) {
        Ok(q) => q,
        Err(e) => return Err(e),
    };
    let (u, v) = match normalize_bezout_identity(&ql, &qr, xgcd) {
        Ok(pair) => pair,
        Err(e) => return Err(e),
    };
    let polys: Vec<&TransparentPolynomial> = vec![lp, rp, set, inter, &ql, &qr, &u, &v];
    let challenge = derive_polynomial_challenge(polys.as_slice());
    proof {
        lemma_commitments_concat(polys@);
        assert(polys@.map_values(|p: &TransparentPolynomial| p.commitment@) =~= seq![
            lp.commitment@,
            rp.commitment@,
            set.commitment@,
            inter.commitment@,
            ql.commitment@,
            qr.commitment@,
            u.commitment@,
            v.commitment@,
        ]);
    }
    Ok((ql, qr, u, v, challenge))
}

/// An intersection node over two proof nodes: `set_polynomial` is the
/// characteristic polynomial of the result and stands for the
/// intersection too; `xgcd` is the extended gcd of the two quotients by it.
pub fn build_polynomial_intersection_node(
    left: PolynomialSetProofNode,
    right: PolynomialSetProofNode,
    set_polynomial: TransparentPolynomial,
    xgcd: Option<(Vec<Vec<u8>>, Vec<Vec<u8>>, Vec<Vec<u8>>)>,
) -> (r: Result<PolynomialIntersectionNodeProof, String>)
    requires
        division_defined(node_polynomial(left), set_polynomial),
        division_defined(node_polynomial(right), set_polynomial),
        xgcd matches Some((g, _, _)) ==> trimmed(bytes_seqs(g@)),
    ensures
        match node_parts_spec(node_polynomial(left), node_polynomial(right), set_polynomial, xgcd_view(xgcd)) {
            Err(e) => r matches Err(x) && x@ == e,
            Ok(parts) => r matches Ok(n) && intersection_node_fields(n, left, right, set_polynomial, parts),
        },
{
    let intersection_polynomial = copy_polynomial(&set_polynomial);
    let built = build_parts(
        polynomial_for_node(&left),
        polynomial_for_node(&right),
        &set_polynomial,
        &intersection_polynomial,
        &xgcd,
    );
    let (quotient_left, quotient_right, bezout_u, bezout_v, challenge_point) = match built {
        Ok(b) => b,
        Err(e) => return Err(e),
    };
    Ok(PolynomialIntersectionNodeProof {
        set_polynomial,
        intersection_polynomial,
        left,
        right,
        quotient_left,
        quotient_right,
        bezout_u,
        bezout_v,
        challenge_point,
    })
}

/// Whether both operands divide by the set polynomial.
fn intersection_defined(
    left: &PolynomialSetProofNode,
    right: &PolynomialSetProofNode,
    set_polynomial: &TransparentPolynomial,
) -> (b: bool)
    ensures
        b == (division_defined(node_polynomial(*left), *set_polynomial) && division_defined(
            node_polynomial(*right),
            *set_polynomial,
        )),
{
    division_ok(polynomial_for_node(left), set_polynomial) && division_ok(polynomial_for_node(right), set_polynomial)
}

/// An intersection node where both operands divide by the set polynomial;
/// `None` when one would divide a non-zero polynomial by zero.
pub fn checked_build_polynomial_intersection_node(
    left: PolynomialSetProofNode,
    right: PolynomialSetProofNode,
    set_polynomial: TransparentPolynomial,
    xgcd: Option<(Vec<Vec<u8>>, Vec<Vec<u8>>, Vec<Vec<u8>>)>,
) -> (r: Option<Result<PolynomialIntersectionNodeProof, String>>)
    requires
        xgcd matches Some((g, _, _)) ==> trimmed(bytes_seqs(g@)),
    ensures
        r is None <==> !(division_defined(node_polynomial(left), set_polynomial) && division_defined(
            node_polynomial(right),
            set_polynomial,
        )),
        r matches Some(b) ==> match node_parts_spec(node_polynomial(left), node_polynomial(right), set_polynomial, xgcd_view(xgcd)) {
            Err(e) => b matches Err(x) && x@ == e,
            Ok(parts) => b matches Ok(n) && intersection_node_fields(n, left, right, set_polynomial, parts),
        },
{
    if !intersection_defined(&left, &right, &set_polynomial) {
        return None;
    }
    Some(build_polynomial_intersection_node(left, right, set_polynomial, xgcd))
}

/// The proof of an intersection query: one intersection node over two
/// proof nodes (see `build_polynomial_intersection_node`).
pub fn build_polynomial_intersection_proof(
    expr: String,
    result_fids: Vec<String>,
    left: PolynomialSetProofNode,
    right: PolynomialSetProofNode,
    set_polynomial: TransparentPolynomial,
    xgcd: Option<(Vec<Vec<u8>>, Vec<Vec<u8>>, Vec<Vec<u8>>)>,
) -> (r: Result<PolynomialIntersectionAggregateProof, String>)
    requires
        division_defined(node_polynomial(left), set_polynomial),
        division_defined(node_polynomial(right), set_polynomial),
        xgcd matches Some((g, _, _)) ==> trimmed(bytes_seqs(g@)),
    ensures
        match node_parts_spec(node_polynomial(left), node_polynomial(right), set_polynomial, xgcd_view(xgcd)) {
            Err(e) => r matches Err(x) && x@ == e,
            Ok(parts) => r matches Ok(a) && a.expr == expr && a.result_fids == result_fids && (a.root matches PolynomialSetProofNode::And(
                n,
            ) && intersection_node_fields(*n, left, right, set_polynomial, parts)),
        },
{
    match build_polynomial_intersection_node(left, right, set_polynomial, xgcd) {
        Ok(node) => Ok(PolynomialIntersectionAggregateProof {
            expr,
            result_fids,
            root: PolynomialSetProofNode::And(Box::new(node)),
        }),
        Err(e) => Err(e),
    }
}

/// The proof of an intersection query where both operands divide by the
/// set polynomial; `None` otherwise.
pub fn checked_build_polynomial_intersection_proof(
    expr: String,
    result_fids: Vec<String>,
    left: PolynomialSetProofNode,
    right: PolynomialSetProofNode,
    set_polynomial: TransparentPolynomial,
    xgcd: Option<(Vec<Vec<u8>>, Vec<Vec<u8>>, Vec<Vec<u8>>)>,
) -> (r: Option<Result<PolynomialIntersectionAggregateProof, String>>)
    requires
        xgcd matches Some((g, _, _)) ==> trimmed(bytes_seqs(g@)),
    ensures
        r is None <==> !(division_defined(node_polynomial(left), set_polynomial) && division_defined(
            node_polynomial(right),
            set_polynomial,
        )),
        r matches Some(b) ==> match node_parts_spec(node_polynomial(left), node_polynomial(right), set_polynomial, xgcd_view(xgcd)) {
            Err(e) => b matches Err(x) && x@ == e,
            Ok(parts) => b matches Ok(a) && a.expr == expr && a.result_fids == result_fids && (a.root matches PolynomialSetProofNode::And(
                n,
            ) && intersection_node_fields(*n, left, right, set_polynomial, parts)),
        },
{
    if !intersection_defined(&left, &right, &set_polynomial) {
        return None;
    }
    Some(build_polynomial_intersection_proof(expr, result_fids, left, right, set_polynomial, xgcd))
}

/// Whether the intersection times both quotients is the set polynomial
/// (same coefficients and commitment).
pub open spec fn union_matches(
    inter: TransparentPolynomial,
    set: TransparentPolynomial,
    parts: (Seq<Seq<u8>>, Seq<Seq<u8>>, Seq<Seq<u8>>, Seq<Seq<u8>>),
) -> bool {
    match dense_spec(inter) {
        Ok(ic) => {
            let whole = product_of(ic, product_of(parts.0, parts.1));
            bytes_seqs(set.coefficients@) == whole && set.commitment@ == commitment_of(whole)
        },
        Err(_) => false,
    }
}

/// The multiplications of a union node are defined once its parts are
/// built: the two quotients, then the intersection and their product, have
/// at least one coefficient between them and no more than a vector holds.
pub open spec fn union_defined(
    lp: TransparentPolynomial,
    rp: TransparentPolynomial,
    inter: TransparentPolynomial,
    xgcd: Option<(Seq<Seq<u8>>, Seq<Seq<u8>>, Seq<Seq<u8>>)>,
) -> bool {
    &&& division_defined(lp, inter)
    &&& division_defined(rp, inter)
    &&& match node_parts_spec(lp, rp, inter, xgcd) {
        Err(_) => true,
        Ok(parts) => {
            &&& 1 <= parts.0.len() + parts.1.len() <= usize::MAX
            &&& match dense_spec(inter) {
                Ok(ic) => 1 <= ic.len() + product_of(parts.0, parts.1).len() <= usize::MAX,
                Err(_) => true,
            }
        },
    }
}

/// A union node over `left` and `right` with set polynomial `set` and
/// intersection polynomial `inter`, built from `parts`.
pub open spec fn union_node_fields(
    n: PolynomialUnionNodeProof,
    left: PolynomialSetProofNode,
    right: PolynomialSetProofNode,
    inter: TransparentPolynomial,
    set: TransparentPolynomial,
    parts: (Seq<Seq<u8>>, Seq<Seq<u8>>, Seq<Seq<u8>>, Seq<Seq<u8>>),
) -> bool {
    &&& n.left == left
    &&& n.right == right
    &&& tp_view(n.set_polynomial) == tp_view(set)
    &&& tp_view(n.intersection_polynomial) == tp_view(inter)
    &&& built_parts(
        node_polynomial(left),
        node_polynomial(right),
        set,
        inter,
        parts,
        n.quotient_left,
        n.quotient_right,
        n.bezout_u,
        n.bezout_v,
        n.challenge_point@,
    )
}

/// What building a union node gives: the first error met building its
/// parts; else, unless the intersection times both quotients is the set
/// polynomial, the mismatch; else the node.
pub open spec fn union_node_result(
    r: Result<PolynomialUnionNodeProof, String>,
    left: PolynomialSetProofNode,
    right: PolynomialSetProofNode,
    inter: TransparentPolynomial,
    set: TransparentPolynomial,
    xgcd: Option<(Seq<Seq<u8>>, Seq<Seq<u8>>, Seq<Seq<u8>>)>,
) -> bool {
    match node_parts_spec(node_polynomial(left), node_polynomial(right), inter, xgcd) {
        Err(e) => r matches Err(x) && x@ == e,
        Ok(parts) => if union_matches(inter, set, parts) {
            r matches Ok(n) && union_node_fields(n, left, right, inter, set, parts)
        } else {
            r matches Err(x) && x@ == "union polynomial does not match the provided result set"@
        },
    }
}

/// Whether two transparent polynomials are equal.
fn same_polynomial(a: &TransparentPolynomial, b: &TransparentPolynomial) -> (r: bool)
    ensures
        r == (tp_view(*a) == tp_view(*b)),
{
    if !bytes_equal(a.commitment.as_slice(), b.commitment.as_slice()) {
        return false;
    }
    if a.coefficients.len() != b.coefficients.len() {
        assert(bytes_seqs(a.coefficients@).len() != bytes_seqs(b.coefficients@).len());
        return false;
    }
    let mut i: usize = 0;
    while i < a.coefficients.len()
        invariant
            i <= a.coefficients@.len(),
            a.coefficients@.len() == b.coefficients@.len(),
            forall|k: int| 0 <= k < i ==> a.coefficients@[k]@ == b.coefficients@[k]@,
        decreases a.coefficients@.len() - i,
    {
        if !bytes_equal(a.coefficients[i].as_slice(), b.coefficients[i].as_slice()) {
            assert(bytes_seqs(a.coefficients@)[i as int] != bytes_seqs(b.coefficients@)[i as int]);
            return false;
        }
        i = i + 1;
    }
    assert(bytes_seqs(a.coefficients@) =~= bytes_seqs(b.coefficients@));
    true
}

/// A union node over two proof nodes: `intersection_polynomial` and
/// `set_polynomial` are the characteristic polynomials of the operands'
/// common file ids and of the result; `xgcd` is the extended gcd of the
/// two quotients by the intersection.
pub fn build_polynomial_union_node(
    left: PolynomialSetProofNode,
    right: PolynomialSetProofNode,
    intersection_polynomial: TransparentPolynomial,
    set_polynomial: TransparentPolynomial,
    xgcd: Option<(Vec<Vec<u8>>, Vec<Vec<u8>>, Vec<Vec<u8>>)>,
) -> (r: Result<PolynomialUnionNodeProof, String>)
    requires
        union_defined(node_polynomial(left), node_polynomial(right), intersection_polynomial, xgcd_view(xgcd)),
        xgcd matches Some((g, _, _)) ==> trimmed(bytes_seqs(g@)),
    ensures
        union_node_result(r, left, right, intersection_polynomial, set_polynomial, xgcd_view(xgcd)),
{
    let built = build_parts(
        polynomial_for_node(&left),
        polynomial_for_node(&right),
        &set_polynomial,
        &intersection_polynomial,
        &xgcd,
    );
    let (quotient_left, quotient_right, bezout_u, bezout_v, challenge_point) = match built {
        Ok(b) => b,
        Err(e) => return Err(e),
    };
    let quotients = match multiply_polynomials(&quotient_left, &quotient_right) {
        Ok(p) => p,
        Err(e) => return Err(e),
    };
    let expected_union = match multiply_polynomials(&intersection_polynomial, &quotients) {
        Ok(p) => p,
        Err(e) => return Err(e),
    };
    if !same_polynomial(&expected_union, &set_polynomial) {
        return Err(message("union polynomial does not match the provided result set"));
    }
    Ok(PolynomialUnionNodeProof {
        set_polynomial,
        intersection_polynomial,
        left,
        right,
        quotient_left,
        quotient_right,
        bezout_u,
        bezout_v,
        challenge_point,
    })
}

/// A union node where its divisions and multiplications are defined;
/// `None` otherwise.
pub fn checked_build_polynomial_union_node(
    left: PolynomialSetProofNode,
    right: PolynomialSetProofNode,
    intersection_polynomial: TransparentPolynomial,
    set_polynomial: TransparentPolynomial,
    xgcd: Option<(Vec<Vec<u8>>, Vec<Vec<u8>>, Vec<Vec<u8>>)>,
) -> (r: Option<Result<PolynomialUnionNodeProof, String>>)
    requires
        xgcd matches Some((g, _, _)) ==> trimmed(bytes_seqs(g@)),
    ensures
        r is None <==> !union_defined(node_polynomial(left), node_polynomial(right), intersection_polynomial, xgcd_view(xgcd)),
        r matches Some(b) ==> union_node_result(b, left, right, intersection_polynomial, set_polynomial, xgcd_view(xgcd)),
{
    let lp = polynomial_for_node(&left);
    let rp = polynomial_for_node(&right);
    if !division_ok(lp, &intersection_polynomial) || !division_ok(rp, &intersection_polynomial) {
        return None;
    }
    if let Ok((ql, qr, _, _, _)) = build_parts(lp, rp, &set_polynomial, &intersection_polynomial, &xgcd) {
        let a: usize = ql.coefficients.len();
        let b: usize = qr.coefficients.len();
        if a == 0 && b == 0 || a > usize::MAX - b {
            return None;
        }
        if let (Ok(ic), Ok(q)) = (dense_from_transparent(&intersection_polynomial), multiply_polynomials(&ql, &qr)) {
            let c: usize = q.coefficients.len();
            if ic.len() == 0 && c == 0 || ic.len() > usize::MAX - c {
                return None;
            }
        }
    }
    Some(build_polynomial_union_node(left, right, intersection_polynomial, set_polynomial, xgcd))
}

/// The commitments of the polynomials one after the other.
pub open spec fn commitments_of(polys: Seq<&TransparentPolynomial>) -> Seq<u8>
    decreases polys.len(),
{
    if polys.len() == 0 {
        Seq::empty()
    } else {
        commitments_of(polys.drop_last()) + polys.last().commitment@
    }
}

/// The challenge point of a proof node: the SHA-256 of the polynomials'
/// commitments, read as a little-endian number reduced into the field.
pub fn derive_polynomial_challenge(polys: &[&TransparentPolynomial]) -> (r: Vec<u8>)
    ensures
        r@ == fr_from_le_bytes_spec(sha256_spec(commitments_of(polys@))),
{
    let mut buf: Vec<u8> = Vec::new();
    let mut i: usize = 0;
    while i < polys.len()
        invariant
            i <= polys@.len(),
            buf@ == commitments_of(polys@.take(i as int)),
        decreases polys@.len() - i,
    {
        push_bytes(&mut buf, polys[i].commitment.as_slice());
        i = i + 1;
        assert(polys@.take(i as int).drop_last() =~= polys@.take(i - 1));
    }
    assert(polys@.take(polys@.len() as int) =~= polys@);
    let digest = sha256(buf.as_slice());
    fr_from_le_bytes_mod_order(digest.as_slice())
}

/// The product of the scalars that two little-endian byte strings give
/// reduced into the field, written back.
pub uninterp spec fn fr_mul_le_spec(a: Seq<u8>, b: Seq<u8>) -> Seq<u8>;

/// The sum of the scalars that two little-endian byte strings give reduced
/// into the field, written back.
pub uninterp spec fn fr_add_le_spec(a: Seq<u8>, b: Seq<u8>) -> Seq<u8>;

/// `from_le_bytes_mod_order` of both byte strings, multiplied (ark-ff 0.3
/// `Mul` for `ark_bls12_381::Fr`), written back; left to the name
/// `fr_mul_le_spec`.
#[verifier::external_body]
fn fr_mul_le(a: &[u8], b: &[u8]) -> (r: Vec<u8>)
    ensures
        r@ == fr_mul_le_spec(a@, b@),
{
    let value = ark_bls12_381::Fr::from_le_bytes_mod_order(a) * ark_bls12_381::Fr::from_le_bytes_mod_order(b);
    let mut out = Vec::new();
    value.serialize(&mut out).expect("serializing into a vector does not fail");
    out
}

/// `from_le_bytes_mod_order` of both byte strings, added (ark-ff 0.3 `Add`
/// for `ark_bls12_381::Fr`), written back; left to the name
/// `fr_add_le_spec`.
#[verifier::external_body]
fn fr_add_le(a: &[u8], b: &[u8]) -> (r: Vec<u8>)
    ensures
        r@ == fr_add_le_spec(a@, b@),
        fr_read_spec(r@) == Ok::<Seq<u8>, Seq<char>>(r@),
{
    let value = ark_bls12_381::Fr::from_le_bytes_mod_order(a) + ark_bls12_381::Fr::from_le_bytes_mod_order(b);
    let mut out = Vec::new();
    value.serialize(&mut out).expect("serializing into a vector does not fail");
    out
}

/// The scalar one written back: `ark_bls12_381::Fr::one()` serializes as its
/// canonical representative, 1, in 32 little-endian bytes.
#[verifier::external_body]
fn fr_one_bytes() -> (r: Vec<u8>)
    ensures
        r@ == seq![1u8] + Seq::new(31, |i: int| 0u8),
{
    let mut out = Vec::new();
    ark_bls12_381::Fr::one().serialize(&mut out).expect("serializing into a vector does not fail");
    out
}

/// The encoding of one.
pub open spec fn one_bytes() -> Seq<u8> {
    seq![1u8] + Seq::new(31, |i: int| 0u8)
}

/// The scalar zero written back: `ark_bls12_381::Fr::zero()` serializes as
/// 32 zero bytes, which read back as zero.
#[verifier::external_body]
fn fr_zero_bytes() -> (r: Vec<u8>)
    ensures
        r@ == zero_bytes(),
        fr_read_spec(r@) == Ok::<Seq<u8>, Seq<char>>(r@),
{
    let mut out = Vec::new();
    ark_bls12_381::Fr::zero().serialize(&mut out).expect("serializing into a vector does not fail");
    out
}

/// The encoding of zero.
pub open spec fn zero_bytes() -> Seq<u8> {
    Seq::new(32, |i: int| 0u8)
}

/// The coefficients `c` after adding, for `j` below `m`, the product of `a`
/// (the coefficient at `i` of the left factor) and the right factor's
/// coefficient at `j` into the coefficient at `i + j`, in that order.
pub open spec fn conv_row(c: Seq<Seq<u8>>, a: Seq<u8>, r: Seq<Seq<u8>>, i: int, m: nat) -> Seq<Seq<u8>>
    decreases m,
{
    if m == 0 {
        c
    } else {
        let c1 = conv_row(c, a, r, i, (m - 1) as nat);
        c1.update(i + m - 1, fr_add_le_spec(c1[i + m - 1], fr_mul_le_spec(a, r[m - 1])))
    }
}

/// The product's coefficients after the first `n` coefficients of the left
/// factor: zeros, one fewer than the two factors have coefficients, to
/// which each left coefficient in turn adds its products with the right
/// coefficients.
pub open spec fn convolution(l: Seq<Seq<u8>>, r: Seq<Seq<u8>>, n: nat) -> Seq<Seq<u8>>
    decreases n,
{
    if n == 0 {
        Seq::new((l.len() + r.len() - 1) as nat, |k: int| zero_bytes())
    } else {
        conv_row(convolution(l, r, (n - 1) as nat), l[n - 1], r, n - 1, r.len())
    }
}

proof fn lemma_conv_row_len(c: Seq<Seq<u8>>, a: Seq<u8>, r: Seq<Seq<u8>>, i: int, m: nat)
    requires
        0 <= i,
        i + m <= c.len(),
    ensures
        conv_row(c, a, r, i, m).len() == c.len(),
    decreases m,
{
    if m > 0 {
        lemma_conv_row_len(c, a, r, i, (m - 1) as nat);
    }
}

proof fn lemma_convolution_len(l: Seq<Seq<u8>>, r: Seq<Seq<u8>>, n: nat)
    requires
        l.len() + r.len() >= 1,
        n <= l.len(),
    ensures
        convolution(l, r, n).len() == l.len() + r.len() - 1,
    decreases n,
{
    if n > 0 {
        lemma_convolution_len(l, r, (n - 1) as nat);
        lemma_conv_row_len(convolution(l, r, (n - 1) as nat), l[n - 1], r, n - 1, r.len());
    }
}

/// Scalars that read back as themselves decode to themselves.
proof fn lemma_decode_self(cs: Seq<Seq<u8>>)
    requires
        forall|k: int| 0 <= k < cs.len() ==> fr_read_spec(#[trigger] cs[k]) == Ok::<Seq<u8>, Seq<char>>(cs[k]),
    ensures
        decode_all(cs) == Ok::<Seq<Seq<u8>>, Seq<char>>(cs),
    decreases cs.len(),
{
    if cs.len() > 0 {
        let d = cs.drop_last();
        assert forall|k: int| 0 <= k < d.len() implies fr_read_spec(#[trigger] d[k]) == Ok::<Seq<u8>, Seq<char>>(d[k]) by {
            assert(d[k] == cs[k]);
        }
        lemma_decode_self(d);
        assert(fr_read_spec(cs[cs.len() - 1]) == Ok::<Seq<u8>, Seq<char>>(cs[cs.len() - 1]));
        assert(d.push(cs.last()) =~= cs);
    } else {
        assert(cs =~= Seq::<Seq<u8>>::empty());
    }
}

/// The coefficients of the product of two polynomials, read back: their
/// convolution, as `from_coefficients_vec` leaves it.
pub open spec fn product_of(l: Seq<Seq<u8>>, r: Seq<Seq<u8>>) -> Seq<Seq<u8>> {
    poly_from_coefficients_spec(convolution(l, r, l.len()))
}

/// Multiplication is defined: when both polynomials read back, they have
/// at least one coefficient between them (two zero polynomials have none,
/// and their product's length would be negative), and not more than a
/// vector can hold.
pub open spec fn multiplication_defined(left: TransparentPolynomial, right: TransparentPolynomial) -> bool {
    match (dense_spec(left), dense_spec(right)) {
        (Ok(l), Ok(r)) => 1 <= l.len() + r.len() <= usize::MAX,
        _ => true,
    }
}

/// The product's coefficients, or the error: both polynomials must read
/// back; then the convolution of their coefficients, as
/// `from_coefficients_vec` leaves it.
pub open spec fn product_spec(left: TransparentPolynomial, right: TransparentPolynomial) -> Result<Seq<Seq<u8>>, Seq<char>> {
    match (dense_spec(left), dense_spec(right)) {
        (Err(e), _) => Err(e),
        (Ok(_), Err(e)) => Err(e),
        (Ok(l), Ok(r)) => Ok(product_of(l, r)),
    }
}

/// The product of two transparent polynomials.
pub fn multiply_polynomials(left: &TransparentPolynomial, right: &TransparentPolynomial) -> (r: Result<TransparentPolynomial, String>)
    requires
        multiplication_defined(*left, *right),
    ensures
        committed_view(r) == product_spec(*left, *right),
        committed(r),
        r matches Ok(p) ==> sound(p) && canonical(p),
{
    let l = match dense_from_transparent(left) {
        Err(e) => return Err(e),
        Ok(l) => l,
    };
    let rc = match dense_from_transparent(right) {
        Err(e) => return Err(e),
        Ok(rc) => rc,
    };
    let ghost lv = bytes_seqs(l@);
    let ghost rv = bytes_seqs(rc@);
    let degree: usize = l.len() + rc.len() - 1;
    let zero = fr_zero_bytes();
    let mut coeffs: Vec<Vec<u8>> = Vec::new();
    let mut k: usize = 0;
    while k < degree
        invariant
            k <= degree,
            zero@ == zero_bytes(),
            fr_read_spec(zero@) == Ok::<Seq<u8>, Seq<char>>(zero@),
            bytes_seqs(coeffs@) == Seq::new(k as nat, |t: int| zero_bytes()),
        decreases degree - k,
    {
        let ghost before = bytes_seqs(coeffs@);
        coeffs.push(copy_bytes(zero.as_slice()));
        assert(bytes_seqs(coeffs@) =~= before.push(zero_bytes()));
        k = k + 1;
    }
    assert(bytes_seqs(coeffs@) =~= convolution(lv, rv, 0));
    let mut i: usize = 0;
    while i < l.len()
        invariant
            i <= l@.len(),
            degree == lv.len() + rv.len() - 1,
            lv == bytes_seqs(l@),
            rv == bytes_seqs(rc@),
            bytes_seqs(coeffs@) == convolution(lv, rv, i as nat),
            coeffs@.len() == degree,
            forall|t: int| 0 <= t < coeffs@.len() ==> fr_read_spec(#[trigger] bytes_seqs(coeffs@)[t])
                == Ok::<Seq<u8>, Seq<char>>(bytes_seqs(coeffs@)[t]),
        decreases l@.len() - i,
    {
        let ghost start = bytes_seqs(coeffs@);
        let mut j: usize = 0;
        while j < rc.len()
            invariant
                i < l@.len(),
                j <= rc@.len(),
                degree == lv.len() + rv.len() - 1,
                lv == bytes_seqs(l@),
                rv == bytes_seqs(rc@),
                bytes_seqs(coeffs@) == conv_row(start, lv[i as int], rv, i as int, j as nat),
                coeffs@.len() == degree,
                forall|t: int| 0 <= t < coeffs@.len() ==> fr_read_spec(#[trigger] bytes_seqs(coeffs@)[t])
                    == Ok::<Seq<u8>, Seq<char>>(bytes_seqs(coeffs@)[t]),
            decreases rc@.len() - j,
        {
            let ghost before = bytes_seqs(coeffs@);
            let prod = fr_mul_le(l[i].as_slice(), rc[j].as_slice());
            let sum = fr_add_le(coeffs[i + j].as_slice(), prod.as_slice());
            coeffs.set(i + j, sum);
            proof {
                assert(bytes_seqs(coeffs@) =~= before.update(i + j, fr_add_le_spec(before[i + j], fr_mul_le_spec(lv[i as int], rv[j as int]))));
                assert forall|t: int| 0 <= t < coeffs@.len() implies fr_read_spec(#[trigger] bytes_seqs(coeffs@)[t])
                    == Ok::<Seq<u8>, Seq<char>>(bytes_seqs(coeffs@)[t]) by {
                    if t != i + j {
                        assert(bytes_seqs(coeffs@)[t] == before[t]);
                    }
                }
            }
            j = j + 1;
        }
        proof {
            lemma_convolution_len(lv, rv, i as nat);
        }
        i = i + 1;
    }
    proof {
        lemma_decode_self(bytes_seqs(coeffs@));
    }
    let canonical = poly_from_coefficients(&coeffs);
    Ok(transparent_from_canonical(canonical))
}

/// The product of two transparent polynomials where multiplication is
/// defined; `None` when both are zero.
pub fn checked_multiply_polynomials(left: &TransparentPolynomial, right: &TransparentPolynomial) -> (r: Option<Result<TransparentPolynomial, String>>)
    ensures
        r is None <==> !multiplication_defined(*left, *right),
        r matches Some(p) ==> committed_view(p) == product_spec(*left, *right) && committed(p),
{
    if let (Ok(l), Ok(rc)) = (dense_from_transparent(left), dense_from_transparent(right)) {
        if l.len() == 0 && rc.len() == 0 {
            return None;
        }
        if l.len() > usize::MAX - rc.len() {
            return None;
        }
    }
    Some(multiply_polynomials(left, right))
}

/// A transparent polynomial that reads back to its own coefficients.
pub open spec fn canonical(p: TransparentPolynomial) -> bool {
    dense_spec(p) == Ok::<Seq<Seq<u8>>, Seq<char>>(bytes_seqs(p.coefficients@))
}

/// Whether a transparent polynomial is sound (what
/// `verify_transparent_polynomial` answers).
pub open spec fn sound(p: TransparentPolynomial) -> bool {
    match dense_spec(p) {
        Ok(c) => commitment_of(c) == p.commitment@,
        Err(_) => false,
    }
}

/// A polynomial's value at a point, reduced into the field and written
/// back; `None` when the polynomial does not read back or the point does
/// not read.
pub open spec fn claim_spec(p: TransparentPolynomial, point: Seq<u8>) -> Option<Seq<u8>> {
    match dense_spec(p) {
        Err(_) => None,
        Ok(_) => match fr_read_spec(point) {
            Err(_) => None,
            Ok(_) => Some(fr_from_le_bytes_spec(poly_evaluate_spec(bytes_seqs(p.coefficients@), point))),
        },
    }
}

/// A polynomial's value at a point, as a field element.
fn evaluate_polynomial_claim(poly: &TransparentPolynomial, point: &[u8]) -> (r: Option<Vec<u8>>)
    ensures
        match r {
            Some(v) => claim_spec(*poly, point@) == Some(v@),
            None => claim_spec(*poly, point@) is None,
        },
{
    match evaluate_transparent_polynomial(poly, point) {
        Ok(v) => Some(fr_from_le_bytes_mod_order(v.as_slice())),
        Err(_) => None,
    }
}

pub open spec fn tp_view(p: TransparentPolynomial) -> (Seq<u8>, Seq<Seq<u8>>) {
    (p.commitment@, bytes_seqs(p.coefficients@))
}

fn copy_polynomial(p: &TransparentPolynomial) -> (r: TransparentPolynomial)
    ensures
        tp_view(r) == tp_view(*p),
{
    let mut coefficients: Vec<Vec<u8>> = Vec::new();
    let mut i: usize = 0;
    while i < p.coefficients.len()
        invariant
            i <= p.coefficients@.len(),
            bytes_seqs(coefficients@) == bytes_seqs(p.coefficients@).take(i as int),
        decreases p.coefficients@.len() - i,
    {
        let ghost before = coefficients@;
        coefficients.push(crate::verification::copy_bytes(p.coefficients[i].as_slice()));
        assert(bytes_seqs(coefficients@) =~= bytes_seqs(before).push(p.coefficients@[i as int]@));
        assert(bytes_seqs(p.coefficients@).take(i + 1) =~= bytes_seqs(p.coefficients@).take(i as int).push(
            p.coefficients@[i as int]@,
        ));
        i = i + 1;
    }
    assert(bytes_seqs(p.coefficients@).take(p.coefficients@.len() as int) =~= bytes_seqs(p.coefficients@));
    TransparentPolynomial { commitment: crate::verification::copy_bytes(p.commitment.as_slice()), coefficients }
}

/// The parts of a binary node that its checks read.
pub open spec fn node_parts(
    set_polynomial: TransparentPolynomial,
    intersection_polynomial: TransparentPolynomial,
    quotient_left: TransparentPolynomial,
    quotient_right: TransparentPolynomial,
    bezout_u: TransparentPolynomial,
    bezout_v: TransparentPolynomial,
) -> Seq<TransparentPolynomial> {
    seq![set_polynomial, intersection_polynomial, quotient_left, quotient_right, bezout_u, bezout_v]
}

/// The checks that an intersection (`union == false`) or union node makes
/// of its polynomials, given those its children stand for: all six of its
/// own are sound; its challenge point is the one its transcript gives; all
/// eight take a value there; the children factor as the intersection times
/// their quotients; the quotients are coprime by the Bézout identity
/// `u·ql + v·qr = 1`; and the result is the intersection (for an
/// intersection) or the intersection times both quotients (for a union).
pub open spec fn binary_checks(
    union: bool,
    left: TransparentPolynomial,
    right: TransparentPolynomial,
    parts: Seq<TransparentPolynomial>,
    challenge: Seq<u8>,
) -> bool {
    let set = parts[0];
    let inter = parts[1];
    let ql = parts[2];
    let qr = parts[3];
    let u = parts[4];
    let v = parts[5];
    &&& forall|i: int| 0 <= i < 6 ==> #[trigger] sound(parts[i])
    &&& fr_from_le_bytes_spec(sha256_spec(
        left.commitment@ + right.commitment@ + set.commitment@ + inter.commitment@ + ql.commitment@
            + qr.commitment@ + u.commitment@ + v.commitment@,
    )) == challenge
    &&& claim_spec(left, challenge) is Some
    &&& claim_spec(right, challenge) is Some
    &&& claim_spec(inter, challenge) is Some
    &&& claim_spec(set, challenge) is Some
    &&& claim_spec(ql, challenge) is Some
    &&& claim_spec(qr, challenge) is Some
    &&& claim_spec(u, challenge) is Some
    &&& claim_spec(v, challenge) is Some
    &&& claim_spec(left, challenge).unwrap() == fr_mul_le_spec(
        claim_spec(inter, challenge).unwrap(),
        claim_spec(ql, challenge).unwrap(),
    )
    &&& claim_spec(right, challenge).unwrap() == fr_mul_le_spec(
        claim_spec(inter, challenge).unwrap(),
        claim_spec(qr, challenge).unwrap(),
    )
    &&& fr_add_le_spec(
        fr_mul_le_spec(claim_spec(u, challenge).unwrap(), claim_spec(ql, challenge).unwrap()),
        fr_mul_le_spec(claim_spec(v, challenge).unwrap(), claim_spec(qr, challenge).unwrap()),
    ) == one_bytes()
    &&& claim_spec(set, challenge).unwrap() == if union {
        fr_mul_le_spec(
            fr_mul_le_spec(claim_spec(inter, challenge).unwrap(), claim_spec(ql, challenge).unwrap()),
            claim_spec(qr, challenge).unwrap(),
        )
    } else {
        claim_spec(inter, challenge).unwrap()
    }
}

/// Runs the checks of a binary node.
fn check_binary(
    union: bool,
    left: &TransparentPolynomial,
    right: &TransparentPolynomial,
    set: &TransparentPolynomial,
    inter: &TransparentPolynomial,
    ql: &TransparentPolynomial,
    qr: &TransparentPolynomial,
    u: &TransparentPolynomial,
    v: &TransparentPolynomial,
    challenge: &[u8],
) -> (r: bool)
    ensures
        r == binary_checks(union, *left, *right, node_parts(*set, *inter, *ql, *qr, *u, *v), challenge@),
{
    let ghost parts = node_parts(*set, *inter, *ql, *qr, *u, *v);
    if !verify_transparent_polynomial(set) || !verify_transparent_polynomial(inter)
        || !verify_transparent_polynomial(ql) || !verify_transparent_polynomial(qr)
        || !verify_transparent_polynomial(u) || !verify_transparent_polynomial(v) {
        proof {
            assert(!sound(parts[0]) || !sound(parts[1]) || !sound(parts[2]) || !sound(parts[3])
                || !sound(parts[4]) || !sound(parts[5]));
        }
        return false;
    }
    assert forall|i: int| 0 <= i < 6 implies #[trigger] sound(parts[i]) by {
        if i == 0 {} else if i == 1 {} else if i == 2 {} else if i == 3 {} else if i == 4 {} else {}
    }
    let transcript = derive_polynomial_challenge(&[left, right, set, inter, ql, qr, u, v]);
    proof {
        let ps = seq![left, right, set, inter, ql, qr, u, v];
        reveal_with_fuel(commitments_of, 9);
        assert(ps.drop_last().drop_last().drop_last().drop_last().drop_last().drop_last().drop_last().drop_last() =~= Seq::<&TransparentPolynomial>::empty());
    }
    if !bytes_equal(transcript.as_slice(), challenge) {
        return false;
    }
    let le = match evaluate_polynomial_claim(left, challenge) {
        Some(x) => x,
        None => return false,
    };
    let re = match evaluate_polynomial_claim(right, challenge) {
        Some(x) => x,
        None => return false,
    };
    let ie = match evaluate_polynomial_claim(inter, challenge) {
        Some(x) => x,
        None => return false,
    };
    let se = match evaluate_polynomial_claim(set, challenge) {
        Some(x) => x,
        None => return false,
    };
    let qle = match evaluate_polynomial_claim(ql, challenge) {
        Some(x) => x,
        None => return false,
    };
    let qre = match evaluate_polynomial_claim(qr, challenge) {
        Some(x) => x,
        None => return false,
    };
    let ue = match evaluate_polynomial_claim(u, challenge) {
        Some(x) => x,
        None => return false,
    };
    let ve = match evaluate_polynomial_claim(v, challenge) {
        Some(x) => x,
        None => return false,
    };
    let il = fr_mul_le(ie.as_slice(), qle.as_slice());
    if !bytes_equal(le.as_slice(), il.as_slice()) {
        return false;
    }
    let ir = fr_mul_le(ie.as_slice(), qre.as_slice());
    if !bytes_equal(re.as_slice(), ir.as_slice()) {
        return false;
    }
    let ul = fr_mul_le(ue.as_slice(), qle.as_slice());
    let vr = fr_mul_le(ve.as_slice(), qre.as_slice());
    let bezout = fr_add_le(ul.as_slice(), vr.as_slice());
    let one = fr_one_bytes();
    if !bytes_equal(bezout.as_slice(), one.as_slice()) {
        return false;
    }
    if union {
        let whole = fr_mul_le(il.as_slice(), qre.as_slice());
        bytes_equal(se.as_slice(), whole.as_slice())
    } else {
        bytes_equal(se.as_slice(), ie.as_slice())
    }
}

/// What a polynomial set-proof node establishes, given the verdicts of the
/// leaves met from `next` on (left to right): the polynomial of the set it
/// stands for and where its leaves end; `None` when a leaf's verdict is
/// missing or false, a leaf polynomial is unsound, or a binary node fails
/// its checks.
pub open spec fn set_node_spec(node: PolynomialSetProofNode, leaf_ok: Seq<bool>, next: int) -> Option<(TransparentPolynomial, int)>
    decreases node,
{
    match node {
        PolynomialSetProofNode::Leaf(l) => if 0 <= next < leaf_ok.len() && leaf_ok[next] && sound(l.set_polynomial) {
            Some((l.set_polynomial, next + 1))
        } else {
            None
        },
        PolynomialSetProofNode::And(b) => match set_node_spec(b.left, leaf_ok, next) {
            None => None,
            Some((lp, n1)) => match set_node_spec(b.right, leaf_ok, n1) {
                None => None,
                Some((rp, n2)) => if binary_checks(
                    false,
                    lp,
                    rp,
                    node_parts(b.set_polynomial, b.intersection_polynomial, b.quotient_left, b.quotient_right, b.bezout_u, b.bezout_v),
                    b.challenge_point@,
                ) {
                    Some((b.set_polynomial, n2))
                } else {
                    None
                },
            },
        },
        PolynomialSetProofNode::Or(b) => match set_node_spec(b.left, leaf_ok, next) {
            None => None,
            Some((lp, n1)) => match set_node_spec(b.right, leaf_ok, n1) {
                None => None,
                Some((rp, n2)) => if binary_checks(
                    true,
                    lp,
                    rp,
                    node_parts(b.set_polynomial, b.intersection_polynomial, b.quotient_left, b.quotient_right, b.bezout_u, b.bezout_v),
                    b.challenge_point@,
                ) {
                    Some((b.set_polynomial, n2))
                } else {
                    None
                },
            },
        },
    }
}

fn verify_set_node_from(node: &PolynomialSetProofNode, leaf_ok: &Vec<bool>, next: usize) -> (r: Option<(TransparentPolynomial, usize)>)
    ensures
        match r {
            Some((p, n)) => set_node_spec(*node, leaf_ok@, next as int) matches Some((q, m)) && tp_view(p)
                == tp_view(q) && m == n,
            None => set_node_spec(*node, leaf_ok@, next as int) is None,
        },
    decreases node,
{
    match node {
        PolynomialSetProofNode::Leaf(l) => {
            if next < leaf_ok.len() && leaf_ok[next] && verify_transparent_polynomial(&l.set_polynomial) {
                Some((copy_polynomial(&l.set_polynomial), next + 1))
            } else {
                None
            }
        },
        PolynomialSetProofNode::And(b) => {
            let (lp, n1) = match verify_set_node_from(&b.left, leaf_ok, next) {
                Some(x) => x,
                None => return None,
            };
            let (rp, n2) = match verify_set_node_from(&b.right, leaf_ok, n1) {
                Some(x) => x,
                None => return None,
            };
            proof {
                lemma_checks_by_view(false, lp, rp, b.challenge_point@,
                    node_parts(b.set_polynomial, b.intersection_polynomial, b.quotient_left, b.quotient_right, b.bezout_u, b.bezout_v));
            }
            if check_binary(false, &lp, &rp, &b.set_polynomial, &b.intersection_polynomial, &b.quotient_left,
                &b.quotient_right, &b.bezout_u, &b.bezout_v, b.challenge_point.as_slice()) {
                Some((copy_polynomial(&b.set_polynomial), n2))
            } else {
                None
            }
        },
        PolynomialSetProofNode::Or(b) => {
            let (lp, n1) = match verify_set_node_from(&b.left, leaf_ok, next) {
                Some(x) => x,
                None => return None,
            };
            let (rp, n2) = match verify_set_node_from(&b.right, leaf_ok, n1) {
                Some(x) => x,
                None => return None,
            };
            proof {
                lemma_checks_by_view(true, lp, rp, b.challenge_point@,
                    node_parts(b.set_polynomial, b.intersection_polynomial, b.quotient_left, b.quotient_right, b.bezout_u, b.bezout_v));
            }
            if check_binary(true, &lp, &rp, &b.set_polynomial, &b.intersection_polynomial, &b.quotient_left,
                &b.quotient_right, &b.bezout_u, &b.bezout_v, b.challenge_point.as_slice()) {
                Some((copy_polynomial(&b.set_polynomial), n2))
            } else {
                None
            }
        },
    }
}

/// The checks read the polynomials only through their commitments and
/// coefficients.
proof fn lemma_checks_by_view(
    union: bool,
    lp: TransparentPolynomial,
    rp: TransparentPolynomial,
    challenge: Seq<u8>,
    parts: Seq<TransparentPolynomial>,
)
    ensures
        forall|lq: TransparentPolynomial, rq: TransparentPolynomial|
            tp_view(lq) == tp_view(lp) && tp_view(rq) == tp_view(rp) ==> (binary_checks(union, lq, rq, parts, challenge)
                == binary_checks(union, lp, rp, parts, challenge)),
{
    assert forall|lq: TransparentPolynomial, rq: TransparentPolynomial|
        tp_view(lq) == tp_view(lp) && tp_view(rq) == tp_view(rp) implies (binary_checks(union, lq, rq, parts, challenge)
            == binary_checks(union, lp, rp, parts, challenge)) by {
        assert(bytes_seqs(lq.coefficients@) == bytes_seqs(lp.coefficients@));
        assert(dense_spec(lq) == dense_spec(lp));
        assert(dense_spec(rq) == dense_spec(rp));
        assert(claim_spec(lq, challenge) == claim_spec(lp, challenge));
        assert(claim_spec(rq, challenge) == claim_spec(rp, challenge));
    }
}

/// Checks a polynomial set-proof tree, given the verdicts of its leaves met
/// left to right (each leaf's ADS proof and result set): the polynomial of
/// the set the tree stands for, or `None`.
pub fn verify_polynomial_set_node(node: &PolynomialSetProofNode, leaf_ok: &Vec<bool>) -> (r: Option<TransparentPolynomial>)
    ensures
        match r {
            Some(p) => set_node_spec(*node, leaf_ok@, 0) matches Some((q, _)) && tp_view(p) == tp_view(q),
            None => set_node_spec(*node, leaf_ok@, 0) is None,
        },
{
    match verify_set_node_from(node, leaf_ok, 0) {
        Some((p, _)) => Some(p),
        None => None,
    }
}

/// What a polynomial set-operation proof establishes against a root hash,
/// given what its bytes decode to and the characteristic polynomial of the
/// result it names (`None` where that cannot be built): the root hash must
/// be the SHA-256 of the proof, the proof must decode, its tree must pass,
/// and the polynomial the tree stands for must be that characteristic
/// polynomial.
pub open spec fn polynomial_aggregate_verdict(
    proof_hash: Seq<u8>,
    root_hash: Seq<u8>,
    decoded: Option<PolynomialIntersectionAggregateProof>,
    leaf_ok: Seq<bool>,
    expected_root: Option<TransparentPolynomial>,
) -> bool {
    &&& proof_hash == root_hash
    &&& decoded matches Some(a)
    &&& set_node_spec(a.root, leaf_ok, 0) matches Some((q, _))
    &&& expected_root matches Some(e)
    &&& tp_view(q) == tp_view(e)
}

/// Checks a polynomial set-operation proof against a root hash; `decoded`
/// is what the proof's bytes decode to (`None` when they do not) and
/// `expected_root` the characteristic polynomial of the result it names.
pub fn verify_polynomial_intersection_aggregate(
    proof: &[u8],
    root_hash: &[u8],
    decoded: Option<&PolynomialIntersectionAggregateProof>,
    leaf_ok: &Vec<bool>,
    expected_root: Option<&TransparentPolynomial>,
) -> (r: bool)
    ensures
        r == polynomial_aggregate_verdict(
            sha256_spec(proof@),
            root_hash@,
            match decoded {
                Some(a) => Some(*a),
                None => None,
            },
            leaf_ok@,
            match expected_root {
                Some(e) => Some(*e),
                None => None,
            },
        ),
{
    let h = crate::proofs::polynomial_intersection_root_hash(proof);
    if !bytes_equal(h.as_slice(), root_hash) {
        return false;
    }
    let a = match decoded {
        Some(a) => a,
        None => return false,
    };
    let root_poly = match verify_polynomial_set_node(&a.root, leaf_ok) {
        Some(p) => p,
        None => return false,
    };
    match expected_root {
        Some(e) => same_polynomial(&root_poly, e),
        None => false,
    }
}

/// The leaves of a polynomial set-proof tree, left to right.
pub open spec fn leaves_of(node: PolynomialSetProofNode) -> Seq<SetProofLeaf>
    decreases node,
{
    match node {
        PolynomialSetProofNode::Leaf(l) => seq![l.leaf],
        PolynomialSetProofNode::And(b) => leaves_of(b.left) + leaves_of(b.right),
        PolynomialSetProofNode::Or(b) => leaves_of(b.left) + leaves_of(b.right),
    }
}

fn collect_leaves<'a>(node: &'a PolynomialSetProofNode, out: &mut Vec<&'a SetProofLeaf>)
    ensures
        final(out)@.map_values(|l: &SetProofLeaf| *l) == old(out)@.map_values(|l: &SetProofLeaf| *l) + leaves_of(*node),
    decreases node,
{
    match node {
        PolynomialSetProofNode::Leaf(l) => {
            let ghost before = out@;
            out.push(&l.leaf);
            assert(out@.map_values(|x: &SetProofLeaf| *x) =~= before.map_values(|x: &SetProofLeaf| *x) + seq![l.leaf]);
        },
        PolynomialSetProofNode::And(b) => {
            let ghost start = out@.map_values(|x: &SetProofLeaf| *x);
            collect_leaves(&b.left, out);
            collect_leaves(&b.right, out);
            assert(start + leaves_of(b.left) + leaves_of(b.right) =~= start + (leaves_of(b.left) + leaves_of(b.right)));
        },
        PolynomialSetProofNode::Or(b) => {
            let ghost start = out@.map_values(|x: &SetProofLeaf| *x);
            collect_leaves(&b.left, out);
            collect_leaves(&b.right, out);
            assert(start + leaves_of(b.left) + leaves_of(b.right) =~= start + (leaves_of(b.left) + leaves_of(b.right)));
        },
    }
}

/// The leaves of a polynomial set-proof tree, left to right: the order in
/// which `verify_polynomial_set_node` reads their verdicts.
pub fn polynomial_leaves(node: &PolynomialSetProofNode) -> (r: Vec<&SetProofLeaf>)
    ensures
        r@.map_values(|l: &SetProofLeaf| *l) == leaves_of(*node),
{
    let mut out: Vec<&SetProofLeaf> = Vec::new();
    assert(out@.map_values(|l: &SetProofLeaf| *l) =~= Seq::<SetProofLeaf>::empty());
    collect_leaves(node, &mut out);
    assert(Seq::<SetProofLeaf>::empty() + leaves_of(*node) =~= leaves_of(*node));
    out
}

} // verus!
