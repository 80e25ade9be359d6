//! The group and field operations of the commitment scheme, over BLS12-381.
//!
//! Elements travel between parties, and through this library, in their
//! canonical compressed encoding: a point of G1 or a scalar of Fr is a byte
//! string. The arithmetic itself is arkworks'; each result is named here as a
//! function of the encodings handed in (`None` where one does not decode).

use vstd::prelude::*;

use ark_bls12_381::{Bls12_381, Fr, G1Affine, G1Projective, G2Affine, G2Projective};
use ark_ec::pairing::Pairing;
use ark_ec::CurveGroup;
use ark_ec::VariableBaseMSM;
use ark_ff::{batch_inversion, Field, PrimeField};
use ark_poly::univariate::DensePolynomial;
use ark_poly::{DenseUVPolynomial, EvaluationDomain, GeneralEvaluationDomain, Polynomial};
use ark_serialize::{CanonicalDeserialize, CanonicalSerialize};

verus! {

/// The encodings held by a list of byte strings.
pub open spec fn encodings(v: Seq<Vec<u8>>) -> Seq<Seq<u8>> {
    v.map_values(|b: Vec<u8>| b@)
}

/// The encoding held by an optional byte string.
pub open spec fn opt_encoding(r: Option<Vec<u8>>) -> Option<Seq<u8>> {
    match r {
        Some(v) => Some(v@),
        None => None,
    }
}

/// Sum of the G1 points encoded by `parts`.
pub uninterp spec fn g1_sum_of(parts: Seq<Seq<u8>>) -> Option<Seq<u8>>;

/// Multi-scalar multiplication: the sum of `scalars[i] * bases[i]` over the
/// shorter of the two lists.
pub uninterp spec fn g1_msm_of(bases: Seq<Seq<u8>>, scalars: Seq<Seq<u8>>) -> Option<Seq<u8>>;

/// Sum of the Fr scalars encoded by `parts`.
pub uninterp spec fn fr_sum_of(parts: Seq<Seq<u8>>) -> Option<Seq<u8>>;

/// The Fr scalar of the little-endian number `bytes`, reduced modulo the group order.
pub uninterp spec fn fr_from_le_of(bytes: Seq<u8>) -> Seq<u8>;

/// Relies on ark-ec's `Sum` of BLS12-381 G1 points (decoded with ark-serialize's
/// `deserialize_compressed`, the sum encoded with `serialize_compressed`, whose
/// size for a compressed G1 point is `G1_SERIALIZED_SIZE`, 48 bytes).
#[verifier::external_body]
pub(crate) fn g1_sum(parts: &Vec<Vec<u8>>) -> (r: Option<Vec<u8>>)
    ensures
        opt_encoding(r) == g1_sum_of(encodings(parts@)),
        r matches Some(v) ==> v@.len() == 48,
{
    let pts = parts.iter().map(|p| G1Affine::deserialize_compressed(&p[..]));
    let pts: Vec<G1Affine> = pts.collect::<Result<_, _>>().ok()?;
    let s: G1Projective = pts.iter().sum();
    let mut out = Vec::new();
    s.serialize_compressed(&mut out).ok()?;
    Some(out)
}

/// Relies on ark-ec's `VariableBaseMSM::msm_unchecked` for BLS12-381 G1, which
/// pairs bases and scalars up to the shorter list.
#[verifier::external_body]
pub(crate) fn g1_msm(bases: &Vec<Vec<u8>>, scalars: &Vec<Vec<u8>>) -> (r: Option<Vec<u8>>)
    ensures
        opt_encoding(r) == g1_msm_of(encodings(bases@), encodings(scalars@)),
        r matches Some(v) ==> v@.len() == 48,
{
    let b = bases.iter().map(|p| G1Affine::deserialize_compressed(&p[..]));
    let b: Vec<G1Affine> = b.collect::<Result<_, _>>().ok()?;
    let s = scalars.iter().map(|x| Fr::deserialize_compressed(&x[..]));
    let s: Vec<Fr> = s.collect::<Result<_, _>>().ok()?;
    let mut out = Vec::new();
    G1Projective::msm_unchecked(&b, &s).serialize_compressed(&mut out).ok()?;
    Some(out)
}

/// Relies on ark-ff's `Sum` of BLS12-381 Fr scalars; a scalar encodes in the
/// 32 bytes of its 255-bit modulus.
#[verifier::external_body]
pub(crate) fn fr_sum(parts: &Vec<Vec<u8>>) -> (r: Option<Vec<u8>>)
    ensures
        opt_encoding(r) == fr_sum_of(encodings(parts@)),
        r matches Some(v) ==> v@.len() == 32,
{
    let xs = parts.iter().map(|x| Fr::deserialize_compressed(&x[..]));
    let xs: Vec<Fr> = xs.collect::<Result<_, _>>().ok()?;
    let s: Fr = xs.iter().sum();
    let mut out = Vec::new();
    s.serialize_compressed(&mut out).ok()?;
    Some(out)
}

/// Relies on ark-ff's `PrimeField::from_le_bytes_mod_order` for BLS12-381 Fr,
/// which reduces any byte string to a scalar.
#[verifier::external_body]
pub(crate) fn fr_from_le_bytes_mod_order(bytes: &Vec<u8>) -> (r: Vec<u8>)
    ensures
        r@ == fr_from_le_of(bytes@),
{
    let mut out = Vec::new();
    Fr::from_le_bytes_mod_order(&bytes[..]).serialize_compressed(&mut out).unwrap();
    out
}

/// The list of encodings held by an optional list of byte strings.
pub open spec fn opt_encodings(r: Option<Vec<Vec<u8>>>) -> Option<Seq<Seq<u8>>> {
    match r {
        Some(v) => Some(encodings(v@)),
        None => None,
    }
}

/// Multi-scalar multiplication in G2 over the shorter of the two lists.
pub uninterp spec fn g2_msm_of(bases: Seq<Seq<u8>>, scalars: Seq<Seq<u8>>) -> Option<Seq<u8>>;

/// The product in the target group of the pairings `e(a[i], b[i])`, for two
/// lists of the same length.
pub uninterp spec fn multi_pairing_of(a: Seq<Seq<u8>>, b: Seq<Seq<u8>>) -> Option<Seq<u8>>;

/// The G1 points `scalars[i] * base`.
pub uninterp spec fn g1_scalar_muls_of(base: Seq<u8>, scalars: Seq<Seq<u8>>) -> Option<Seq<Seq<u8>>>;

/// `a + b` in Fr.
pub uninterp spec fn fr_add_of(a: Seq<u8>, b: Seq<u8>) -> Option<Seq<u8>>;

/// `a * b` in Fr.
pub uninterp spec fn fr_mul_of(a: Seq<u8>, b: Seq<u8>) -> Option<Seq<u8>>;

/// The value at `x` of the polynomial with coefficients `coeffs`, lowest first.
pub uninterp spec fn poly_eval_of(coeffs: Seq<Seq<u8>>, x: Seq<u8>) -> Option<Seq<u8>>;

/// The coefficients of the polynomial `coeffs` times the scalar `f`, without
/// leading zeros.
pub uninterp spec fn poly_scale_of(coeffs: Seq<Seq<u8>>, f: Seq<u8>) -> Option<Seq<Seq<u8>>>;

/// The coefficients of the sum of two polynomials, without leading zeros.
pub uninterp spec fn poly_add_of(a: Seq<Seq<u8>>, b: Seq<Seq<u8>>) -> Option<Seq<Seq<u8>>>;

/// The values at `point` of all Lagrange basis polynomials of the
/// multiplicative evaluation domain for `size` points.
pub uninterp spec fn lagrange_coefficients_of(size: nat, point: Seq<u8>) -> Option<Seq<Seq<u8>>>;

/// The elements of the multiplicative evaluation domain for `size` points, in order.
pub uninterp spec fn domain_elements_of(size: nat) -> Option<Seq<Seq<u8>>>;

/// The generator of the multiplicative evaluation domain for `size` points.
pub uninterp spec fn domain_generator_of(size: nat) -> Option<Seq<u8>>;

/// The number of elements of the evaluation domain for `size` points, as a scalar.
pub uninterp spec fn domain_size_scalar_of(size: nat) -> Option<Seq<u8>>;

/// The value at `point` of the vanishing polynomial of the evaluation domain
/// for `size` points.
pub uninterp spec fn vanishing_eval_of(size: nat, point: Seq<u8>) -> Option<Seq<u8>>;

/// `a - b` in Fr.
pub uninterp spec fn fr_sub_of(a: Seq<u8>, b: Seq<u8>) -> Option<Seq<u8>>;

/// `a` to the power `e` in Fr.
pub uninterp spec fn fr_pow_of(a: Seq<u8>, e: nat) -> Option<Seq<u8>>;

/// The inverse of `a` in Fr, where `a` is not zero.
pub uninterp spec fn fr_inverse_of(a: Seq<u8>) -> Option<Seq<u8>>;

/// The inverse of each entry of `v` in Fr, zero entries kept as zero.
pub uninterp spec fn batch_inverse_of(v: Seq<Seq<u8>>) -> Option<Seq<Seq<u8>>>;

/// Relies on ark-ff's addition of BLS12-381 Fr scalars.
#[verifier::external_body]
pub(crate) fn fr_add(a: &Vec<u8>, b: &Vec<u8>) -> (r: Option<Vec<u8>>)
    ensures
        opt_encoding(r) == fr_add_of(a@, b@),
{
    let x = Fr::deserialize_compressed(&a[..]).ok()?;
    let y = Fr::deserialize_compressed(&b[..]).ok()?;
    let mut out = Vec::new();
    (x + y).serialize_compressed(&mut out).ok()?;
    Some(out)
}

/// Relies on ark-ff's multiplication of BLS12-381 Fr scalars.
#[verifier::external_body]
pub(crate) fn fr_mul(a: &Vec<u8>, b: &Vec<u8>) -> (r: Option<Vec<u8>>)
    ensures
        opt_encoding(r) == fr_mul_of(a@, b@),
{
    let x = Fr::deserialize_compressed(&a[..]).ok()?;
    let y = Fr::deserialize_compressed(&b[..]).ok()?;
    let mut out = Vec::new();
    (x * y).serialize_compressed(&mut out).ok()?;
    Some(out)
}

/// Relies on ark-poly's `Polynomial::evaluate` for a dense univariate polynomial over Fr.
#[verifier::external_body]
pub(crate) fn poly_eval(coeffs: &Vec<Vec<u8>>, x: &Vec<u8>) -> (r: Option<Vec<u8>>)
    ensures
        opt_encoding(r) == poly_eval_of(encodings(coeffs@), x@),
        r matches Some(v) ==> v@.len() == 32,
{
    let c = coeffs.iter().map(|e| Fr::deserialize_compressed(&e[..]));
    let p = DensePolynomial::from_coefficients_vec(c.collect::<Result<_, _>>().ok()?);
    let v = p.evaluate(&Fr::deserialize_compressed(&x[..]).ok()?);
    let mut out = Vec::new();
    v.serialize_compressed(&mut out).ok()?;
    Some(out)
}

/// Relies on ark-poly's product of a dense polynomial over Fr with a scalar.
#[verifier::external_body]
pub(crate) fn poly_scale(coeffs: &Vec<Vec<u8>>, f: &Vec<u8>) -> (r: Option<Vec<Vec<u8>>>)
    ensures
        opt_encodings(r) == poly_scale_of(encodings(coeffs@), f@),
{
    let c = coeffs.iter().map(|e| Fr::deserialize_compressed(&e[..]));
    let p = DensePolynomial::from_coefficients_vec(c.collect::<Result<_, _>>().ok()?);
    let q = &p * Fr::deserialize_compressed(&f[..]).ok()?;
    q.coeffs.iter().map(|e| {
        let mut out = Vec::new();
        e.serialize_compressed(&mut out).ok().map(|_| out)
    }).collect()
}

/// Relies on ark-poly's sum of two dense polynomials over Fr.
#[verifier::external_body]
pub(crate) fn poly_add(a: &Vec<Vec<u8>>, b: &Vec<Vec<u8>>) -> (r: Option<Vec<Vec<u8>>>)
    ensures
        opt_encodings(r) == poly_add_of(encodings(a@), encodings(b@)),
{
    let x = a.iter().map(|e| Fr::deserialize_compressed(&e[..]));
    let x = DensePolynomial::from_coefficients_vec(x.collect::<Result<_, _>>().ok()?);
    let y = b.iter().map(|e| Fr::deserialize_compressed(&e[..]));
    let y = DensePolynomial::from_coefficients_vec(y.collect::<Result<_, _>>().ok()?);
    (&x + &y).coeffs.iter().map(|e| {
        let mut out = Vec::new();
        e.serialize_compressed(&mut out).ok().map(|_| out)
    }).collect()
}

/// Relies on ark-poly's `GeneralEvaluationDomain::new` and
/// `evaluate_all_lagrange_coefficients`.
#[verifier::external_body]
pub(crate) fn lagrange_coefficients(size: usize, point: &Vec<u8>) -> (r: Option<Vec<Vec<u8>>>)
    ensures
        opt_encodings(r) == lagrange_coefficients_of(size as nat, point@),
{
    let domain = GeneralEvaluationDomain::<Fr>::new(size)?;
    let tau = Fr::deserialize_compressed(&point[..]).ok()?;
    domain.evaluate_all_lagrange_coefficients(tau).iter().map(|v| {
        let mut out = Vec::new();
        v.serialize_compressed(&mut out).ok().map(|_| out)
    }).collect()
}

/// Relies on ark-poly's `GeneralEvaluationDomain::new` and `elements`.
#[verifier::external_body]
pub(crate) fn domain_elements(size: usize) -> (r: Option<Vec<Vec<u8>>>)
    ensures
        opt_encodings(r) == domain_elements_of(size as nat),
{
    let domain = GeneralEvaluationDomain::<Fr>::new(size)?;
    domain.elements().map(|v| {
        let mut out = Vec::new();
        v.serialize_compressed(&mut out).ok().map(|_| out)
    }).collect()
}

/// Relies on ark-poly's `GeneralEvaluationDomain::new` and `group_gen`.
#[verifier::external_body]
pub(crate) fn domain_generator(size: usize) -> (r: Option<Vec<u8>>)
    ensures
        opt_encoding(r) == domain_generator_of(size as nat),
{
    let domain = GeneralEvaluationDomain::<Fr>::new(size)?;
    let mut out = Vec::new();
    domain.group_gen().serialize_compressed(&mut out).ok()?;
    Some(out)
}

/// Relies on ark-poly's `GeneralEvaluationDomain::new` and `size_as_field_element`.
#[verifier::external_body]
pub(crate) fn domain_size_scalar(size: usize) -> (r: Option<Vec<u8>>)
    ensures
        opt_encoding(r) == domain_size_scalar_of(size as nat),
{
    let domain = GeneralEvaluationDomain::<Fr>::new(size)?;
    let mut out = Vec::new();
    domain.size_as_field_element().serialize_compressed(&mut out).ok()?;
    Some(out)
}

/// Relies on ark-poly's `GeneralEvaluationDomain::new` and
/// `evaluate_vanishing_polynomial`.
#[verifier::external_body]
pub(crate) fn vanishing_eval(size: usize, point: &Vec<u8>) -> (r: Option<Vec<u8>>)
    ensures
        opt_encoding(r) == vanishing_eval_of(size as nat, point@),
{
    let domain = GeneralEvaluationDomain::<Fr>::new(size)?;
    let tau = Fr::deserialize_compressed(&point[..]).ok()?;
    let mut out = Vec::new();
    domain.evaluate_vanishing_polynomial(tau).serialize_compressed(&mut out).ok()?;
    Some(out)
}

/// Relies on ark-ff's subtraction of BLS12-381 Fr scalars.
#[verifier::external_body]
pub(crate) fn fr_sub(a: &Vec<u8>, b: &Vec<u8>) -> (r: Option<Vec<u8>>)
    ensures
        opt_encoding(r) == fr_sub_of(a@, b@),
{
    let x = Fr::deserialize_compressed(&a[..]).ok()?;
    let y = Fr::deserialize_compressed(&b[..]).ok()?;
    let mut out = Vec::new();
    (x - y).serialize_compressed(&mut out).ok()?;
    Some(out)
}

/// Relies on ark-ff's `Field::pow` for BLS12-381 Fr, with a one-limb exponent.
#[verifier::external_body]
pub(crate) fn fr_pow(a: &Vec<u8>, e: u64) -> (r: Option<Vec<u8>>)
    ensures
        opt_encoding(r) == fr_pow_of(a@, e as nat),
{
    let x = Fr::deserialize_compressed(&a[..]).ok()?;
    let mut out = Vec::new();
    x.pow([e]).serialize_compressed(&mut out).ok()?;
    Some(out)
}

/// Relies on ark-ff's `Field::inverse` for BLS12-381 Fr (`None` for zero).
#[verifier::external_body]
pub(crate) fn fr_inverse(a: &Vec<u8>) -> (r: Option<Vec<u8>>)
    ensures
        opt_encoding(r) == fr_inverse_of(a@),
{
    let x = Fr::deserialize_compressed(&a[..]).ok()?;
    let mut out = Vec::new();
    x.inverse()?.serialize_compressed(&mut out).ok()?;
    Some(out)
}

/// Relies on ark-ff's `batch_inversion` for BLS12-381 Fr.
#[verifier::external_body]
pub(crate) fn batch_inverse(v: &Vec<Vec<u8>>) -> (r: Option<Vec<Vec<u8>>>)
    ensures
        opt_encodings(r) == batch_inverse_of(encodings(v@)),
{
    let xs = v.iter().map(|e| Fr::deserialize_compressed(&e[..]));
    let mut xs: Vec<Fr> = xs.collect::<Result<_, _>>().ok()?;
    batch_inversion(&mut xs);
    xs.iter().map(|x| {
        let mut out = Vec::new();
        x.serialize_compressed(&mut out).ok().map(|_| out)
    }).collect()
}

/// Relies on ark-ec's `VariableBaseMSM::msm_unchecked` for BLS12-381 G2.
#[verifier::external_body]
pub(crate) fn g2_msm(bases: &Vec<Vec<u8>>, scalars: &Vec<Vec<u8>>) -> (r: Option<Vec<u8>>)
    ensures
        opt_encoding(r) == g2_msm_of(encodings(bases@), encodings(scalars@)),
{
    let b = bases.iter().map(|p| G2Affine::deserialize_compressed(&p[..]));
    let b: Vec<G2Affine> = b.collect::<Result<_, _>>().ok()?;
    let s = scalars.iter().map(|x| Fr::deserialize_compressed(&x[..]));
    let s: Vec<Fr> = s.collect::<Result<_, _>>().ok()?;
    let mut out = Vec::new();
    G2Projective::msm_unchecked(&b, &s).serialize_compressed(&mut out).ok()?;
    Some(out)
}

/// Relies on ark-ec's `Pairing::multi_miller_loop` and `final_exponentiation`
/// for BLS12-381, which together are its `multi_pairing` (that one unwraps the
/// final exponentiation, which this keeps as `None`). The Miller loop pairs
/// the lists with `zip_eq`, which panics on lists of different lengths.
#[verifier::external_body]
pub(crate) fn multi_pairing(a: &Vec<Vec<u8>>, b: &Vec<Vec<u8>>) -> (r: Option<Vec<u8>>)
    requires
        a@.len() == b@.len(),
    ensures
        opt_encoding(r) == multi_pairing_of(encodings(a@), encodings(b@)),
{
    let x = a.iter().map(|p| G1Affine::deserialize_compressed(&p[..]));
    let x: Vec<G1Affine> = x.collect::<Result<_, _>>().ok()?;
    let y = b.iter().map(|p| G2Affine::deserialize_compressed(&p[..]));
    let y: Vec<G2Affine> = y.collect::<Result<_, _>>().ok()?;
    let out = Bls12_381::final_exponentiation(Bls12_381::multi_miller_loop(x, y))?;
    let mut bytes = Vec::new();
    out.serialize_compressed(&mut bytes).ok()?;
    Some(bytes)
}

/// Relies on ark-ec's product of a BLS12-381 G1 point with each scalar, and
/// `CurveGroup::normalize_batch` to bring the results to affine form.
#[verifier::external_body]
pub(crate) fn g1_scalar_muls(base: &Vec<u8>, scalars: &Vec<Vec<u8>>) -> (r: Option<Vec<Vec<u8>>>)
    ensures
        opt_encodings(r) == g1_scalar_muls_of(base@, encodings(scalars@)),
{
    let b = G1Projective::from(G1Affine::deserialize_compressed(&base[..]).ok()?);
    let s = scalars.iter().map(|x| Fr::deserialize_compressed(&x[..]));
    let pts: Vec<G1Projective> = s.map(|x| x.map(|x| b * x)).collect::<Result<_, _>>().ok()?;
    G1Projective::normalize_batch(&pts).iter().map(|p| {
        let mut out = Vec::new();
        p.serialize_compressed(&mut out).ok().map(|_| out)
    }).collect()
}

} // verus!
