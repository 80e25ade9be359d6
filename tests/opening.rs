use ark_bls12_381::{Fr, G1Affine, G1Projective};
use ark_ec::{CurveGroup, Group, VariableBaseMSM};
use ark_ff::{Field, One, UniformRand};
use ark_poly::univariate::DensePolynomial;
use ark_poly::{DenseUVPolynomial, EvaluationDomain, GeneralEvaluationDomain, Polynomial};
use ark_serialize::CanonicalSerialize;
use ark_std::test_rng;
use de_kzg::error::NetError;
use de_kzg::opening::{
    de_evaluate_share, de_open_share, distinct_points, divide_by_points, lagrange_open_share,
    double_lagrange_open_share, rlc_scalars, same_y_eval_share, same_y_quotient_share, sum_points, sum_scalars, target_evals,
};
use de_kzg::protocol::{de_commit_double_lagrange_share, de_commit_share};
use de_kzg::poly::{combine_polys, divide_by_x_minus_k, generate_powers};

fn enc<T: CanonicalSerialize>(x: &T) -> Vec<u8> {
    let mut out = Vec::new();
    x.serialize_compressed(&mut out).unwrap();
    out
}

fn enc_poly(p: &[Fr]) -> Vec<Vec<u8>> {
    p.iter().map(enc).collect()
}

fn rand_poly(len: usize) -> Vec<Fr> {
    let mut rng = test_rng();
    (0..len).map(|_| Fr::rand(&mut rng)).collect()
}

fn srs(len: usize) -> Vec<G1Affine> {
    let mut rng = test_rng();
    let g = G1Projective::generator();
    (0..len).map(|_| (g * Fr::rand(&mut rng)).into_affine()).collect()
}

fn linear(k: Fr) -> DensePolynomial<Fr> {
    DensePolynomial::from_coefficients_vec(vec![-k, Fr::one()])
}

#[test]
fn division_by_linear_factor_matches_arkworks() {
    let c = rand_poly(6);
    let k = Fr::from(7u64);
    let mut p = enc_poly(&c);
    divide_by_x_minus_k(&mut p, &enc(&k)).unwrap();
    let q = &DensePolynomial::from_coefficients_vec(c.clone()) / &linear(k);
    assert_eq!(p, enc_poly(&q.coeffs));

    let mut zero_k = enc_poly(&c);
    divide_by_x_minus_k(&mut zero_k, &enc(&Fr::from(0u64))).unwrap();
    assert_eq!(zero_k, enc_poly(&c[1..]));

    let mut empty: Vec<Vec<u8>> = Vec::new();
    divide_by_x_minus_k(&mut empty, &enc(&k)).unwrap();
    assert!(empty.is_empty());

    let mut bad = vec![vec![0xffu8; 32], enc(&k), enc(&k)];
    let before = bad.clone();
    assert!(matches!(divide_by_x_minus_k(&mut bad, &vec![1, 2]), Err(NetError::BadShare)));
    assert_eq!(bad, before);
}

#[test]
fn powers_and_combinations_match_arkworks() {
    let g = Fr::from(3u64);
    let p = generate_powers(&enc(&g), 4).unwrap();
    assert_eq!(p, vec![enc(&Fr::one()), enc(&g), enc(&g.square()), enc(&(g * g * g))]);
    assert!(generate_powers(&enc(&g), 0).unwrap().is_empty());

    let a = rand_poly(4);
    let b = rand_poly(2);
    let f = vec![Fr::from(2u64), Fr::from(5u64)];
    let got = combine_polys(&vec![enc_poly(&a), enc_poly(&b)], &enc_poly(&f)).unwrap();
    let pa = DensePolynomial::from_coefficients_vec(a);
    let pb = DensePolynomial::from_coefficients_vec(b);
    let want = &(&pa * f[0]) + &(&pb * f[1]);
    assert_eq!(got, enc_poly(&want.coeffs));
    assert!(combine_polys(&vec![], &vec![]).unwrap().is_empty());
}

#[test]
fn univariate_open_and_evaluate_shares() {
    let c = rand_poly(8);
    let powers = srs(8);
    let z = Fr::from(11u64);
    let share = de_open_share(&powers.iter().map(enc).collect(), &enc_poly(&c), &enc(&z)).unwrap();
    let poly = DensePolynomial::from_coefficients_vec(c.clone());
    let q = &poly / &linear(z);
    let want = G1Projective::msm_unchecked(&powers, &q.coeffs);
    assert_eq!(share, enc(&want));

    let e = de_evaluate_share(&enc_poly(&c), &enc(&z)).unwrap();
    assert_eq!(e, enc(&poly.evaluate(&z)));
    assert!(matches!(de_evaluate_share(&enc_poly(&c), &vec![]), Err(NetError::BadShare)));

    let pts = vec![G1Projective::generator(), G1Projective::generator().double()];
    let s = sum_points(&pts.iter().map(enc).collect()).unwrap();
    assert_eq!(s, enc(&(pts[0] * Fr::from(3u64))));
    let xs = vec![enc(&Fr::from(4u64)), enc(&Fr::from(6u64))];
    assert_eq!(sum_scalars(&xs).unwrap(), enc(&Fr::from(10u64)));
}

#[test]
fn division_by_points_removes_repeats_beyond_three() {
    let a = Fr::from(2u64);
    let b = Fr::from(5u64);
    let pts = vec![enc(&a), enc(&b), enc(&a), enc(&b)];
    assert_eq!(distinct_points(&pts), vec![enc(&a), enc(&b)]);
    let c = rand_poly(7);
    let poly = DensePolynomial::from_coefficients_vec(c.clone());
    let got = divide_by_points(&enc_poly(&c), &pts).unwrap();
    let want = &poly / &(&linear(a) * &linear(b));
    assert_eq!(got, enc_poly(&want.coeffs));
    let three = vec![enc(&a), enc(&a), enc(&b)];
    let got = divide_by_points(&enc_poly(&c), &three).unwrap();
    let want = &poly / &(&(&linear(a) * &linear(a)) * &linear(b));
    assert_eq!(got, enc_poly(&want.coeffs));
}

#[test]
fn same_y_rounds_match_arkworks() {
    let n = 4;
    let id = 2;
    let rows = vec![rand_poly(8), rand_poly(8)];
    let points = vec![vec![Fr::from(3u64)], vec![Fr::from(4u64), Fr::from(9u64)]];
    let y = Fr::from(1234u64);
    let gamma = Fr::from(17u64);
    let x_srs = srs(8);
    let share = same_y_quotient_share(
        id,
        n,
        &x_srs.iter().map(enc).collect(),
        &rows.iter().map(|r| enc_poly(r)).collect(),
        &points.iter().map(|p| enc_poly(p)).collect(),
        &enc(&y),
        &enc(&gamma),
    )
    .unwrap();

    let domain = GeneralEvaluationDomain::<Fr>::new(n).unwrap();
    let el = domain.evaluate_all_lagrange_coefficients(y)[id];
    assert_eq!(share.eval_lagrange, enc(&el));
    let row0 = DensePolynomial::from_coefficients_vec(rows[0].clone());
    let row1 = DensePolynomial::from_coefficients_vec(rows[1].clone());
    let q0 = &row0 / &linear(points[0][0]);
    let q1 = &(&row1 / &linear(points[1][0])) / &linear(points[1][1]);
    let combined = &(&q0 * el) + &(&q1 * (gamma * el));
    assert_eq!(share.q_slice, enc_poly(&combined.coeffs));
    assert_eq!(share.proof_q, enc(&G1Projective::msm_unchecked(&x_srs, &combined.coeffs)));

    let eta = Fr::from(99u64);
    let ev = same_y_eval_share(
        &rows.iter().map(|r| enc_poly(r)).collect(),
        &share.q_slice,
        &share.eval_lagrange,
        &enc(&eta),
    )
    .unwrap();
    assert_eq!(ev.sub_evals_eta, vec![enc(&row0.evaluate(&eta)), enc(&row1.evaluate(&eta))]);
    assert_eq!(
        ev.evals_eta_beta,
        vec![enc(&(row0.evaluate(&eta) * el)), enc(&(row1.evaluate(&eta) * el))]
    );
    assert_eq!(ev.eval_q, enc(&combined.evaluate(&eta)));

    assert!(matches!(
        same_y_quotient_share(id, n, &vec![], &vec![enc_poly(&rows[0])], &vec![], &enc(&y), &enc(&gamma)),
        Err(NetError::WrongLength)
    ));
}

#[test]
fn batched_open_share_skips_combination_for_one_row() {
    let c = rand_poly(8);
    let powers: Vec<Vec<u8>> = srs(8).iter().map(enc).collect();
    let x = Fr::from(21u64);
    let theta = enc(&Fr::from(8u64));
    let one = lagrange_open_share(&powers, &vec![enc_poly(&c)], &enc(&x), &theta).unwrap();
    assert_eq!(one, de_open_share(&powers, &enc_poly(&c), &enc(&x)).unwrap());

    let d = rand_poly(8);
    let two = lagrange_open_share(&powers, &vec![enc_poly(&c), enc_poly(&d)], &enc(&x), &theta).unwrap();
    let pc = DensePolynomial::from_coefficients_vec(c);
    let pd = DensePolynomial::from_coefficients_vec(d);
    let comb = &pc + &(&pd * Fr::from(8u64));
    let want = de_open_share(&powers, &enc_poly(&comb.coeffs), &enc(&x)).unwrap();
    assert_eq!(two, want);

    let values = vec![enc(&Fr::from(2u64)), enc(&Fr::from(3u64))];
    let factors = vec![enc(&Fr::from(10u64)), enc(&Fr::from(100u64))];
    assert_eq!(rlc_scalars(&values, &factors).unwrap(), enc(&Fr::from(320u64)));
}

#[test]
fn target_values_weight_each_party_by_its_lagrange_value() {
    let evals: Vec<Vec<Fr>> = (0..3).map(|p| vec![Fr::from(p as u64 + 1), Fr::from(10 * p as u64)]).collect();
    let y = Fr::from(7u64);
    let got = target_evals(&evals.iter().map(|e| enc_poly(e)).collect(), &enc(&y), 4, 2).unwrap();
    let lag = GeneralEvaluationDomain::<Fr>::new(4).unwrap().evaluate_all_lagrange_coefficients(y);
    let want: Vec<Fr> = (0..2).map(|i| (0..3).map(|p| evals[p][i] * lag[p]).sum()).collect();
    assert_eq!(got, enc_poly(&want));
    assert!(matches!(
        target_evals(&evals.iter().map(|e| enc_poly(e)).collect(), &enc(&y), 4, 3),
        Err(NetError::BadShare)
    ));
}

#[test]
fn double_lagrange_share_uses_the_party_chunk() {
    let powers: Vec<Vec<u8>> = srs(8).iter().map(enc).collect();
    let sub = vec![enc_poly(&rand_poly(4)), enc_poly(&rand_poly(4))];
    let got = de_commit_double_lagrange_share(1, &powers, &sub, 4).unwrap();
    assert_eq!(got, de_commit_share(&powers[4..8].to_vec(), &sub).unwrap());
    assert!(matches!(
        de_commit_double_lagrange_share(2, &powers, &sub, 4),
        Err(NetError::BadShare)
    ));
}

#[test]
fn double_lagrange_share_matches_arkworks() {
    let size = 4;
    let id = 1;
    let powers = srs(8);
    let rows: Vec<Vec<Fr>> = vec![rand_poly(4), rand_poly(4)];
    let x = Fr::from(1000u64);
    let ch = Fr::from(3u64);
    let (proof, at_x) = double_lagrange_open_share(
        id,
        &powers.iter().map(enc).collect(),
        &rows.iter().map(|r| enc_poly(r)).collect(),
        &enc(&x),
        size,
        &enc(&ch),
    )
    .unwrap();
    let dom = GeneralEvaluationDomain::<Fr>::new(size).unwrap();
    let lag = dom.evaluate_all_lagrange_coefficients(x);
    let ep: Vec<Fr> = rows.iter().map(|r| r.iter().zip(&lag).map(|(a, b)| *a * b).sum()).collect();
    assert_eq!(at_x, enc_poly(&ep));
    let div: Vec<Fr> = dom.elements().map(|e| (e - x).inverse().unwrap()).collect();
    let fs = [Fr::one(), ch];
    let q1: Vec<Fr> = (0..size)
        .map(|c| (0..2).map(|k| (rows[k][c] - ep[k]) * fs[k]).sum::<Fr>() * div[c])
        .collect();
    assert_eq!(proof, enc(&G1Projective::msm_unchecked(&powers[4..8], &q1)));
    assert!(double_lagrange_open_share(2, &powers.iter().map(enc).collect(), &vec![], &enc(&x), size, &enc(&ch)).is_err());
}
