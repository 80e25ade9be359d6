use ark_bls12_381::{Fr, G1Affine, G1Projective};
use ark_ec::{CurveGroup, Group, VariableBaseMSM};
use ark_ff::{Field, One, UniformRand, Zero};
use ark_poly::univariate::DensePolynomial;
use ark_poly::{DenseUVPolynomial, EvaluationDomain, GeneralEvaluationDomain, Polynomial};
use ark_serialize::CanonicalSerialize;
use ark_std::test_rng;
use de_kzg::central::open_lagrange_at_same_y;
use de_kzg::kzg::get_quotient_eval_lagrange;
use ark_bls12_381::G2Projective;
use de_kzg::opening::{
    de_open_share, lagrange_open_finish, lagrange_open_share, same_y_eval_share,
    same_y_quotient_share, sum_points, SameYProof,
};
use de_kzg::protocol::{commit, master_challenge, master_scalars_challenge, srs_share, sum_evaluations};
use de_kzg::transcript::{FsTranscript, ProofTranscript};
use de_kzg::verify::{kzg_verify, verify_at_same_y, VerifierKey};

fn enc<T: CanonicalSerialize>(x: &T) -> Vec<u8> {
    let mut out = Vec::new();
    x.serialize_compressed(&mut out).unwrap();
    out
}

fn enc_all<T: CanonicalSerialize>(xs: &[T]) -> Vec<Vec<u8>> {
    xs.iter().map(enc).collect()
}

fn numerator(points: &[Fr]) -> DensePolynomial<Fr> {
    let mut seen: Vec<Fr> = Vec::new();
    for p in points {
        if !seen.contains(p) {
            seen.push(*p);
        }
    }
    let mut num = DensePolynomial::from_coefficients_vec(vec![Fr::one()]);
    for p in seen {
        num = &num * &DensePolynomial::from_coefficients_vec(vec![-p, Fr::one()]);
    }
    num
}

fn divide_linear(p: &DensePolynomial<Fr>, k: Fr) -> DensePolynomial<Fr> {
    p / &DensePolynomial::from_coefficients_vec(vec![-k, Fr::one()])
}

fn msm(bases: &[G1Affine], scalars: &[Fr]) -> G1Projective {
    G1Projective::msm_unchecked(bases, scalars)
}

struct Run {
    vk: VerifierKey,
    coms: Vec<Vec<u8>>,
    x_points: Vec<Vec<Vec<u8>>>,
    beta: Vec<u8>,
    evals: Vec<Vec<Vec<u8>>>,
    gamma: Vec<u8>,
    proof: SameYProof,
}

/// The proof of an opening at a common y, distributed over the parties and
/// computed in one process straight from arkworks, must be the same.
#[test]
fn distributed_same_y_opening_equals_central_opening() {
    run();
}

fn run() -> Run {
    let l = 4; // parties, one row each
    let w = 8; // coefficients per row
    let m = 2; // polynomials
    let mut rng = test_rng();
    let g = G1Projective::generator();
    let y_domain = GeneralEvaluationDomain::<Fr>::new(l).unwrap();
    let tau_x = Fr::rand(&mut rng);
    let tau_y = Fr::rand(&mut rng);
    let lag_tau = y_domain.evaluate_all_lagrange_coefficients(tau_y);
    let x_srs: Vec<G1Affine> = (0..w).map(|k| (g * tau_x.pow([k as u64])).into_affine()).collect();
    let y_srs: Vec<G1Affine> = (0..l).map(|i| (g * lag_tau[i]).into_affine()).collect();
    let powers: Vec<G1Affine> = (0..l * w)
        .map(|t| (g * (tau_x.pow([(t % w) as u64]) * lag_tau[t / w])).into_affine())
        .collect();
    let polys: Vec<Vec<Vec<Fr>>> = (0..m)
        .map(|_| (0..l).map(|_| (0..w).map(|_| Fr::rand(&mut rng)).collect()).collect())
        .collect();
    let x_points = vec![vec![Fr::from(3u64)], vec![Fr::from(5u64), Fr::from(6u64)]];
    let beta = Fr::rand(&mut rng);
    let gamma = Fr::rand(&mut rng);

    // Distributed, party by party, with the master's steps in between.
    let x_srs_e = enc_all(&x_srs);
    let y_srs_e = enc_all(&y_srs);
    let powers_e = enc_all(&powers);
    let points_e: Vec<Vec<Vec<u8>>> = x_points.iter().map(|p| enc_all(p)).collect();
    let rows_of = |i: usize| -> Vec<Vec<Vec<u8>>> { polys.iter().map(|p| enc_all(&p[i])).collect() };
    let mut t = FsTranscript::new(b"same y");
    let shares: Vec<_> = (0..l)
        .map(|i| {
            same_y_quotient_share(i, l, &x_srs_e, &rows_of(i), &points_e, &enc(&beta), &enc(&gamma)).unwrap()
        })
        .collect();
    let proof_q = sum_points(&shares.iter().map(|s| s.proof_q.clone()).collect()).unwrap();
    let (eta, copies) = master_challenge(&mut t, b"combined_polynomial_x_beta", &proof_q, b"random_evaluate_point", l);
    assert!(copies.iter().all(|c| *c == eta));
    let evs: Vec<_> = (0..l)
        .map(|i| same_y_eval_share(&rows_of(i), &shares[i].q_slice, &shares[i].eval_lagrange, &eta).unwrap())
        .collect();
    let rows: Vec<Vec<Vec<u8>>> = evs
        .iter()
        .map(|e| {
            let mut r = e.evals_eta_beta.clone();
            r.push(e.eval_q.clone());
            r
        })
        .collect();
    let mut sums = sum_evaluations(&rows).unwrap();
    let (theta, _) = master_scalars_challenge(&mut t, b"combined_polynomial_x_beta", &sums, b"batch_kzg_rlc_challenge", l);
    let s1: Vec<Vec<u8>> = (0..l)
        .map(|i| lagrange_open_share(&srs_share(&powers_e, i, w).unwrap(), &rows_of(i), &eta, &theta).unwrap())
        .collect();
    let evals: Vec<Vec<Vec<u8>>> = evs.iter().map(|e| e.sub_evals_eta.clone()).collect();
    let (first, second) = lagrange_open_finish(&s1, &evals, &enc(&beta), l, &y_srs_e, &theta, m).unwrap();
    let s3: Vec<Vec<u8>> = (0..l).map(|i| de_open_share(&x_srs_e, &shares[i].q_slice, &eta).unwrap()).collect();
    let proof_q3 = sum_points(&s3).unwrap();
    let eval_q = sums.pop().unwrap();

    // The library's central opening gives the same proof.
    let polys_e: Vec<Vec<Vec<Vec<u8>>>> = polys.iter().map(|p| p.iter().map(|r| enc_all(r)).collect()).collect();
    let mut tc0 = FsTranscript::new(b"same y");
    let central = open_lagrange_at_same_y(
        &powers_e, &x_srs_e, &y_srs_e, &polys_e, &points_e, &enc(&beta), w, l, &mut tc0, &enc(&gamma),
    )
    .unwrap();
    assert_eq!(central.proof_q, proof_q);
    assert_eq!(central.evals_eta_beta, sums);
    assert_eq!(central.eval_q, eval_q);
    assert_eq!(central.proof_q1_q2, (first.clone(), second.clone()));
    assert_eq!(central.proof_q3, proof_q3);

    // Centrally, straight from arkworks.
    let lag_beta = y_domain.evaluate_all_lagrange_coefficients(beta);
    let dense: Vec<Vec<DensePolynomial<Fr>>> = polys
        .iter()
        .map(|p| p.iter().map(|r| DensePolynomial::from_coefficients_vec(r.clone())).collect())
        .collect();
    let mut combined = DensePolynomial::zero();
    let mut gp = Fr::one();
    for j in 0..m {
        let mut f_beta = DensePolynomial::zero();
        for k in 0..l {
            f_beta = &f_beta + &(&dense[j][k] * lag_beta[k]);
        }
        combined = &combined + &(&(&f_beta / &numerator(&x_points[j])) * gp);
        gp *= gamma;
    }
    let c_proof_q = msm(&x_srs, &combined.coeffs);
    assert_eq!(proof_q, enc(&c_proof_q));
    let mut tc = FsTranscript::new(b"same y");
    tc.append_point(b"combined_polynomial_x_beta", &enc(&c_proof_q));
    let c_eta_e = tc.challenge_scalar(b"random_evaluate_point");
    assert_eq!(c_eta_e, eta);
    let c_eta: Fr = ark_serialize::CanonicalDeserialize::deserialize_compressed(&c_eta_e[..]).unwrap();
    let c_evals: Vec<Fr> = (0..m)
        .map(|j| (0..l).map(|k| dense[j][k].evaluate(&c_eta) * lag_beta[k]).sum())
        .collect();
    let c_eval_q = combined.evaluate(&c_eta);
    assert_eq!(sums, enc_all(&c_evals));
    assert_eq!(eval_q, enc(&c_eval_q));
    let mut all = c_evals.clone();
    all.push(c_eval_q);
    tc.append_scalars(b"combined_polynomial_x_beta", &enc_all(&all));
    let c_theta_e = tc.challenge_scalar(b"batch_kzg_rlc_challenge");
    assert_eq!(c_theta_e, theta);
    let c_theta: Fr = ark_serialize::CanonicalDeserialize::deserialize_compressed(&c_theta_e[..]).unwrap();

    // q2 over the rows' combined values at eta, q1 row by row.
    let mut q2_vals = Vec::new();
    let mut q1 = Vec::new();
    for i in 0..l {
        let mut v = Fr::zero();
        let mut row = DensePolynomial::zero();
        let mut f = Fr::one();
        for j in 0..m {
            v += dense[j][i].evaluate(&c_eta) * f;
            row = &row + &(&dense[j][i] * f);
            f *= c_theta;
        }
        q2_vals.push(v);
        let mut q = divide_linear(&row, c_eta).coeffs;
        q.resize(w, Fr::zero());
        q1.extend(q);
    }
    let eval_point: Fr = q2_vals.iter().zip(&lag_beta).map(|(a, b)| *a * b).sum();
    let q2: Vec<Fr> = q2_vals
        .iter()
        .zip(y_domain.elements())
        .map(|(v, e)| (*v - eval_point) * (e - beta).inverse().unwrap())
        .collect();
    assert_eq!(
        get_quotient_eval_lagrange(&enc_all(&q2_vals), &enc(&beta), l).unwrap(),
        enc_all(&q2)
    );
    assert_eq!(first, enc(&msm(&powers, &q1)));
    assert_eq!(second, enc(&msm(&y_srs, &q2)));
    assert_eq!(proof_q3, enc(&msm(&x_srs, &divide_linear(&combined, c_eta).coeffs)));

    let h = G2Projective::generator();
    let vk = VerifierKey {
        g: enc(&g.into_affine()),
        h: enc(&h.into_affine()),
        h_alpha: enc(&(h * tau_x).into_affine()),
        h_beta: enc(&(h * tau_y).into_affine()),
    };
    let coms = commit(&powers_e, &polys_e).unwrap();
    let evals: Vec<Vec<Vec<u8>>> = (0..m)
        .map(|j| {
            x_points[j]
                .iter()
                .map(|a| enc(&(0..l).map(|k| dense[j][k].evaluate(a) * lag_beta[k]).sum::<Fr>()))
                .collect()
        })
        .collect();
    Run {
        vk,
        coms,
        x_points: points_e,
        beta: enc(&beta),
        evals,
        gamma: enc(&gamma),
        proof: SameYProof {
            proof_q,
            evals_eta_beta: sums,
            eval_q,
            proof_q1_q2: (first, second),
            proof_q3,
        },
    }
}

fn check(r: &Run, proof: &SameYProof, coms: &Vec<Vec<u8>>, evals: &Vec<Vec<Vec<u8>>>) -> bool {
    let mut t = FsTranscript::new(b"same y");
    verify_at_same_y(&r.vk, coms, &r.x_points, &r.beta, evals, proof, &mut t, &r.gamma).unwrap()
}

fn bump(x: &Vec<u8>) -> Vec<u8> {
    let v: Fr = ark_serialize::CanonicalDeserialize::deserialize_compressed(&x[..]).unwrap();
    enc(&(v + Fr::one()))
}

fn copy(p: &SameYProof) -> SameYProof {
    SameYProof {
        proof_q: p.proof_q.clone(),
        evals_eta_beta: p.evals_eta_beta.clone(),
        eval_q: p.eval_q.clone(),
        proof_q1_q2: p.proof_q1_q2.clone(),
        proof_q3: p.proof_q3.clone(),
    }
}

#[test]
fn distributed_proof_verifies() {
    let r = run();
    assert!(check(&r, &r.proof, &r.coms, &r.evals));
}

#[test]
fn tampered_claims_or_commitments_fail_verification() {
    let r = run();
    let mut p = copy(&r.proof);
    p.evals_eta_beta[1] = bump(&p.evals_eta_beta[1]);
    assert!(!check(&r, &p, &r.coms, &r.evals));
    let mut p = copy(&r.proof);
    p.eval_q = bump(&p.eval_q);
    assert!(!check(&r, &p, &r.coms, &r.evals));
    let mut evals = r.evals.clone();
    evals[1][0] = bump(&evals[1][0]);
    assert!(!check(&r, &r.proof, &r.coms, &evals));
    let mut coms = r.coms.clone();
    coms[0] = r.coms[1].clone();
    assert!(!check(&r, &r.proof, &coms, &r.evals));
    let mut p = copy(&r.proof);
    p.proof_q3 = r.proof.proof_q.clone();
    assert!(!check(&r, &p, &r.coms, &r.evals));
    let mut t = FsTranscript::new(b"same y");
    assert!(verify_at_same_y(&r.vk, &r.coms, &r.x_points, &r.beta, &vec![], &r.proof, &mut t, &r.gamma).is_err());
}

#[test]
fn univariate_kzg_opening_verifies() {
    let mut rng = test_rng();
    let g = G1Projective::generator();
    let h = G2Projective::generator();
    let tau = Fr::rand(&mut rng);
    let powers: Vec<G1Affine> = (0..8).map(|k| (g * tau.pow([k as u64])).into_affine()).collect();
    let c: Vec<Fr> = (0..8).map(|_| Fr::rand(&mut rng)).collect();
    let poly = DensePolynomial::from_coefficients_vec(c.clone());
    let z = Fr::from(5u64);
    let com = enc(&msm(&powers, &c));
    let proof = de_open_share(&enc_all(&powers), &enc_all(&c), &enc(&z)).unwrap();
    let vk = VerifierKey {
        g: enc(&g.into_affine()),
        h: enc(&h.into_affine()),
        h_alpha: enc(&(h * tau).into_affine()),
        h_beta: enc(&h.into_affine()),
    };
    let eval = enc(&poly.evaluate(&z));
    assert!(kzg_verify(&vk, &com, &enc(&z), &eval, &proof).unwrap());
    assert!(!kzg_verify(&vk, &com, &enc(&z), &bump(&eval), &proof).unwrap());
}

#[test]
fn quotient_at_a_domain_point_uses_the_inside_formula() {
    let l = 4;
    let domain = GeneralEvaluationDomain::<Fr>::new(l).unwrap();
    let z = domain.element(1);
    let evals: Vec<Fr> = (0..l).map(|i| Fr::from(i as u64 + 2)).collect();
    let got = get_quotient_eval_lagrange(&enc_all(&evals), &enc(&z), l).unwrap();
    let gen = domain.group_gen();
    let gp: Vec<Fr> = (0..l).map(|i| gen.pow([i as u64])).collect();
    let div: Vec<Fr> = gp.iter().map(|g| (z - g).inverse().unwrap_or(Fr::zero())).collect();
    let c = (z.pow([l as u64]) - Fr::one()) * domain.size_as_field_element().inverse().unwrap();
    let sum: Fr = (0..l).map(|i| evals[i] * gp[i] * div[i]).sum();
    let pz = c * sum;
    let want: Vec<Fr> = (0..l).map(|i| (pz - evals[i]) * div[i]).collect();
    assert_eq!(got, enc_all(&want));
}

#[test]
fn lagrange_setup_matches_direct_construction() {
    let mut rng = test_rng();
    let (l, w) = (4, 8);
    let g = G1Projective::generator();
    let h = G2Projective::generator();
    let alpha = Fr::rand(&mut rng);
    let beta = Fr::rand(&mut rng);
    let s = de_kzg::setup::setup_lagrange(
        &enc(&g.into_affine()),
        &enc(&h.into_affine()),
        &enc(&alpha),
        &enc(&beta),
        w - 1,
        l - 1,
        l,
    )
    .unwrap();
    let lag = GeneralEvaluationDomain::<Fr>::new(l).unwrap().evaluate_all_lagrange_coefficients(beta);
    let xy: Vec<G1Affine> = (0..l * w)
        .map(|t| (g * (lag[t / w] * alpha.pow([(t % w) as u64]))).into_affine())
        .collect();
    assert_eq!(s.xy_srs, enc_all(&xy));
    let xs: Vec<G1Affine> = (0..w).map(|k| (g * alpha.pow([k as u64])).into_affine()).collect();
    assert_eq!(s.x_srs, enc_all(&xs));
    let ys: Vec<G1Affine> = (0..l).map(|i| (g * lag[i]).into_affine()).collect();
    assert_eq!(s.y_srs, enc_all(&ys));
    assert_eq!(s.vk.h_alpha, enc(&(h * alpha).into_affine()));
    assert_eq!(s.vk.h_beta, enc(&(h * beta).into_affine()));
    assert!(de_kzg::setup::setup_lagrange(&s.vk.g, &s.vk.h, &enc(&alpha), &enc(&beta), 3, 2, 4).is_err());
}
