//! Verification of the openings, in one process: the evaluation identity of
//! an opening at a common `y`, the KZG pairing check of its quotient, and the
//! batched bivariate pairing check. A failed check is a `false` verdict; only
//! inputs that do not decode, or lists of the wrong length, are errors.

use vstd::prelude::*;
use vstd::string::StringSliceAdditionalSpecFns;

use crate::algebra::{
    encodings, fr_from_le_bytes_mod_order, fr_inverse, fr_inverse_of, fr_mul, fr_mul_of, fr_sub,
    fr_sub_of, g1_msm, g1_msm_of, g2_msm, g2_msm_of, multi_pairing, multi_pairing_of, poly_eval,
    poly_eval_of,
};
use crate::error::NetError;
use crate::kzg::{fr_zero, map_opt, lemma_map_opt_none, lemma_map_opt_ext};
use crate::algebra::{fr_sum, fr_sum_of};
use crate::opening::{distinct, distinct_points, powers_list, weighted_sum, rlc_scalars, SameYProof, history_for_eta, history_for_theta, label_eta, label_theta};
use crate::transcript::{FsTranscript, ProofTranscript, Absorbed, challenge_of, ops_fit};
use crate::poly::{fr_one, generate_powers, power_of};
use crate::protocol::grid;

verus! {

/// The verifier's part of the reference string: the G1 generator `g`, and in
/// G2 the generator `h` with `h_alpha = alpha * h`, `h_beta = beta * h`.
pub struct VerifierKey {
    pub g: Vec<u8>,
    pub h: Vec<u8>,
    pub h_alpha: Vec<u8>,
    pub h_beta: Vec<u8>,
}

fn one_scalar() -> (r: Vec<u8>)
    ensures
        r@ == fr_one(),
{
    let mut unit: Vec<u8> = Vec::new();
    unit.push(1u8);
    let one = fr_from_le_bytes_mod_order(&unit);
    assert(unit@ =~= seq![1u8]);
    one
}

fn zero_scalar() -> (r: Vec<u8>)
    ensures
        r@ == fr_zero(),
{
    let nothing: Vec<u8> = Vec::new();
    let zero = fr_from_le_bytes_mod_order(&nothing);
    assert(nothing@ =~= Seq::<u8>::empty());
    zero
}

fn pair_of(a: Vec<u8>, b: Vec<u8>) -> (r: Vec<Vec<u8>>)
    ensures
        encodings(r@) == seq![a@, b@],
        r@.len() == 2,
{
    let mut v: Vec<Vec<u8>> = Vec::new();
    v.push(a);
    v.push(b);
    assert(encodings(v@) =~= seq![a@, b@]);
    v
}

fn single(a: Vec<u8>) -> (r: Vec<Vec<u8>>)
    ensures
        encodings(r@) == seq![a@],
        r@.len() == 1,
{
    let mut v: Vec<Vec<u8>> = Vec::new();
    v.push(a);
    assert(encodings(v@) =~= seq![a@]);
    v
}

/// `base - h * s` in G2, as the MSM of `[base, h]` with `[1, -s]`.
pub open spec fn g2_shift(base: Seq<u8>, h: Seq<u8>, s: Seq<u8>) -> Option<Seq<u8>> {
    match fr_sub_of(fr_zero(), s) {
        Some(ns) => g2_msm_of(seq![base, h], seq![fr_one(), ns]),
        None => None,
    }
}

fn g2_shift_exec(base: &Vec<u8>, h: &Vec<u8>, s: &Vec<u8>) -> (r: Result<Vec<u8>, NetError>)
    ensures
        match r {
            Ok(v) => g2_shift(base@, h@, s@) == Some(v@),
            Err(e) => g2_shift(base@, h@, s@) is None && e == NetError::BadShare,
        },
{
    let zero = zero_scalar();
    let ns = match fr_sub(&zero, s) {
        Some(v) => v,
        None => {
            return Err(NetError::BadShare);
        },
    };
    let bases = pair_of(base.clone(), h.clone());
    let scalars = pair_of(one_scalar(), ns);
    match g2_msm(&bases, &scalars) {
        Some(v) => Ok(v),
        None => Err(NetError::BadShare),
    }
}

/// The KZG check of an opening of `com` at `point` to `eval` with `proof`:
/// `e(com - g * eval, h) == e(proof, h_alpha - h * point)`.
pub open spec fn kzg_check(
    g: Seq<u8>,
    h: Seq<u8>,
    h_alpha: Seq<u8>,
    com: Seq<u8>,
    point: Seq<u8>,
    eval: Seq<u8>,
    proof: Seq<u8>,
) -> Option<bool> {
    match fr_sub_of(fr_zero(), eval) {
        Some(ne) => match (g1_msm_of(seq![com, g], seq![fr_one(), ne]), g2_shift(h_alpha, h, point)) {
            (Some(lp), Some(rq)) => match (
                multi_pairing_of(seq![lp], seq![h]),
                multi_pairing_of(seq![proof], seq![rq]),
            ) {
                (Some(left), Some(right)) => Some(left == right),
                _ => None,
            },
            _ => None,
        },
        None => None,
    }
}

/// Checks a univariate KZG opening of `com` at `point` to `eval`.
pub fn kzg_verify(vk: &VerifierKey, com: &Vec<u8>, point: &Vec<u8>, eval: &Vec<u8>, proof: &Vec<u8>) -> (r:
    Result<bool, NetError>)
    ensures
        match r {
            Ok(b) => kzg_check(vk.g@, vk.h@, vk.h_alpha@, com@, point@, eval@, proof@) == Some(b),
            Err(e) => kzg_check(vk.g@, vk.h@, vk.h_alpha@, com@, point@, eval@, proof@) is None
                && e == NetError::BadShare,
        },
{
    let zero = zero_scalar();
    let ne = match fr_sub(&zero, eval) {
        Some(v) => v,
        None => {
            return Err(NetError::BadShare);
        },
    };
    let bases = pair_of(com.clone(), vk.g.clone());
    let scalars = pair_of(one_scalar(), ne);
    let lp = g1_msm(&bases, &scalars);
    let rq = g2_shift_exec(&vk.h_alpha, &vk.h, point);
    let (lp, rq) = match (lp, rq) {
        (Some(a), Ok(b)) => (a, b),
        _ => {
            return Err(NetError::BadShare);
        },
    };
    let left = multi_pairing(&single(lp), &single(vk.h.clone()));
    let right = multi_pairing(&single(proof.clone()), &single(rq));
    match (left, right) {
        (Some(l), Some(rr)) => Ok(bytes_eq(&l, &rr)),
        _ => Err(NetError::BadShare),
    }
}

/// The batched bivariate check of an opening of `coms` at `(x, y)` to
/// `evals` with `(witness_x, witness_y)`, batched with the powers of `challenge`:
/// `e(sum_i c^i coms[i] - g * sum_i c^i evals[i], h)
///   == e(witness_x, h_alpha - h * x) * e(witness_y, h_beta - h * y)`.
pub open spec fn biv_check(
    vk: (Seq<u8>, Seq<u8>, Seq<u8>, Seq<u8>),
    coms: Seq<Seq<u8>>,
    x: Seq<u8>,
    y: Seq<u8>,
    evals: Seq<Seq<u8>>,
    witness_x: Seq<u8>,
    witness_y: Seq<u8>,
    challenge: Seq<u8>,
) -> Option<bool> {
    let (g, h, h_alpha, h_beta) = vk;
    match powers_list(challenge, coms.len()) {
        Some(cv) => match weighted_sum(evals, cv) {
            Some(s) => match fr_sub_of(fr_zero(), s) {
                Some(extra) => match (
                    g1_msm_of(coms.push(g), cv.push(extra)),
                    g2_shift(h_alpha, h, x),
                    g2_shift(h_beta, h, y),
                ) {
                    (Some(lc), Some(r1), Some(r2)) => match (
                        multi_pairing_of(seq![lc], seq![h]),
                        multi_pairing_of(seq![witness_x, witness_y], seq![r1, r2]),
                    ) {
                        (Some(left), Some(right)) => Some(left == right),
                        _ => None,
                    },
                    _ => None,
                },
                None => None,
            },
            None => None,
        },
        None => None,
    }
}

pub open spec fn vk_of(vk: &VerifierKey) -> (Seq<u8>, Seq<u8>, Seq<u8>, Seq<u8>) {
    (vk.g@, vk.h@, vk.h_alpha@, vk.h_beta@)
}

/// Checks a batched bivariate opening of `coms` at `(x, y)` to `evals`.
pub fn biv_verify(
    vk: &VerifierKey,
    coms: &Vec<Vec<u8>>,
    x: &Vec<u8>,
    y: &Vec<u8>,
    evals: &Vec<Vec<u8>>,
    proof: &(Vec<u8>, Vec<u8>),
    challenge: &Vec<u8>,
) -> (r: Result<bool, NetError>)
    ensures
        evals@.len() != coms@.len() ==> r == Err::<bool, NetError>(NetError::WrongLength),
        evals@.len() == coms@.len() ==> match r {
            Ok(b) => biv_check(vk_of(vk), encodings(coms@), x@, y@, encodings(evals@), proof.0@, proof.1@, challenge@) == Some(b),
            Err(e) => biv_check(vk_of(vk), encodings(coms@), x@, y@, encodings(evals@), proof.0@, proof.1@, challenge@) is None
                && e == NetError::BadShare,
        },
{
    let n = coms.len();
    if evals.len() != n {
        return Err(NetError::WrongLength);
    }
    let ghost cs = encodings(coms@);
    assert(cs.len() == n);
    let cv = match generate_powers(challenge, n) {
        Ok(v) => v,
        Err(e) => {
            return Err(e);
        },
    };
    assert(Some(encodings(cv@)) == powers_list(challenge@, n as nat)) by {
        assert(encodings(cv@) =~= Seq::new(n as nat, |i: int| power_of(challenge@, i as nat)->Some_0));
    }
    let s = match rlc_scalars(evals, &cv) {
        Ok(v) => v,
        Err(e) => {
            return Err(e);
        },
    };
    let zero = zero_scalar();
    let extra = match fr_sub(&zero, &s) {
        Some(v) => v,
        None => {
            return Err(NetError::BadShare);
        },
    };
    let mut bases = coms.clone();
    assert(encodings(bases@) =~= cs);
    bases.push(vk.g.clone());
    assert(encodings(bases@) =~= cs.push(vk.g@));
    let mut scalars = cv;
    let ghost cve = encodings(scalars@);
    scalars.push(extra);
    assert(encodings(scalars@) =~= cve.push(extra@));
    let lc = g1_msm(&bases, &scalars);
    let r1 = g2_shift_exec(&vk.h_alpha, &vk.h, x);
    let r2 = g2_shift_exec(&vk.h_beta, &vk.h, y);
    let (lc, r1, r2) = match (lc, r1, r2) {
        (Some(a), Ok(b), Ok(c)) => (a, b, c),
        _ => {
            return Err(NetError::BadShare);
        },
    };
    let left = multi_pairing(&single(lc), &single(vk.h.clone()));
    let right = multi_pairing(&pair_of(proof.0.clone(), proof.1.clone()), &pair_of(r1, r2));
    match (left, right) {
        (Some(l), Some(rr)) => Ok(bytes_eq(&l, &rr)),
        _ => Err(NetError::BadShare),
    }
}

/// The product over `j < k`, `j != skip`, of `a - pts[j]`, from one.
pub open spec fn prod_diffs(a: Seq<u8>, pts: Seq<Seq<u8>>, skip: int, k: nat) -> Option<Seq<u8>>
    decreases k,
{
    if k == 0 {
        Some(fr_one())
    } else {
        match prod_diffs(a, pts, skip, (k - 1) as nat) {
            Some(acc) => if k - 1 == skip {
                Some(acc)
            } else {
                match fr_sub_of(a, pts[k - 1]) {
                    Some(d) => fr_mul_of(acc, d),
                    None => None,
                }
            },
            None => None,
        }
    }
}

fn prod_diffs_exec(a: &Vec<u8>, pts: &Vec<Vec<u8>>, skip: usize) -> (r: Result<Vec<u8>, NetError>)
    ensures
        match r {
            Ok(v) => prod_diffs(a@, encodings(pts@), skip as int, pts@.len()) == Some(v@),
            Err(e) => prod_diffs(a@, encodings(pts@), skip as int, pts@.len()) is None && e
                == NetError::BadShare,
        },
{
    let ghost ps = encodings(pts@);
    let mut acc = one_scalar();
    let mut k: usize = 0;
    while k < pts.len()
        invariant
            k <= pts@.len(),
            ps == encodings(pts@),
            prod_diffs(a@, ps, skip as int, k as nat) == Some(acc@),
        decreases pts@.len() - k,
    {
        if k != skip {
            let d = match fr_sub(a, &pts[k]) {
                Some(d) => d,
                None => {
                    proof {
                        lemma_prod_stays_none(a@, ps, skip as int, (k + 1) as nat, pts@.len());
                    }
                    return Err(NetError::BadShare);
                },
            };
            acc = match fr_mul(&acc, &d) {
                Some(v) => v,
                None => {
                    proof {
                        lemma_prod_stays_none(a@, ps, skip as int, (k + 1) as nat, pts@.len());
                    }
                    return Err(NetError::BadShare);
                },
            };
        }
        k = k + 1;
    }
    Ok(acc)
}

proof fn lemma_prod_stays_none(a: Seq<u8>, pts: Seq<Seq<u8>>, skip: int, k: nat, m: nat)
    requires
        k <= m,
        prod_diffs(a, pts, skip, k) is None,
    ensures
        prod_diffs(a, pts, skip, m) is None,
    decreases m - k,
{
    if k < m {
        assert(prod_diffs(a, pts, skip, k + 1) is None);
        lemma_prod_stays_none(a, pts, skip, k + 1, m);
    }
}

/// The term of point `i` in the value at `eta` of the polynomial through
/// `(points[i], evals[i])`: `evals[i] / prod_{j != i} (points[i] - points[j])
/// * prod_{j != i} (eta - points[j])`.
pub open spec fn interp_term(points: Seq<Seq<u8>>, evals: Seq<Seq<u8>>, eta: Seq<u8>, i: int) -> Option<
    Seq<u8>,
> {
    let n = points.len();
    match (prod_diffs(points[i], points, i, n), prod_diffs(eta, points, i, n)) {
        (Some(c), Some(q)) => match fr_inverse_of(c) {
            Some(ic) => match fr_mul_of(ic, evals[i]) {
                Some(t) => fr_mul_of(t, q),
                None => None,
            },
            None => None,
        },
        _ => None,
    }
}

/// The value at `eta` of the polynomial through `(points[i], evals[i])`; with
/// one point, of the polynomial whose coefficients are `evals`.
pub open spec fn interp_at(points: Seq<Seq<u8>>, evals: Seq<Seq<u8>>, eta: Seq<u8>) -> Option<Seq<u8>> {
    if points.len() == 0 {
        None
    } else if points.len() == 1 {
        poly_eval_of(evals, eta)
    } else {
        match map_opt(points.len(), |i: int| interp_term(points, evals, eta, i)) {
            Some(terms) => fr_sum_of(terms),
            None => None,
        }
    }
}

/// The value at `eta` of the polynomial through `(points[i], evals[i])`.
pub fn interpolate_at(points: &Vec<Vec<u8>>, evals: &Vec<Vec<u8>>, eta: &Vec<u8>) -> (r: Result<
    Vec<u8>,
    NetError,
>)
    ensures
        evals@.len() != points@.len() ==> r == Err::<Vec<u8>, NetError>(NetError::WrongLength),
        evals@.len() == points@.len() ==> match r {
            Ok(v) => interp_at(encodings(points@), encodings(evals@), eta@) == Some(v@),
            Err(e) => interp_at(encodings(points@), encodings(evals@), eta@) is None && e
                == NetError::BadShare,
        },
{
    let n = points.len();
    if evals.len() != n {
        return Err(NetError::WrongLength);
    }
    let ghost ps = encodings(points@);
    let ghost es = encodings(evals@);
    if n == 0 {
        return Err(NetError::BadShare);
    }
    if n == 1 {
        return match poly_eval(evals, eta) {
            Some(v) => Ok(v),
            None => Err(NetError::BadShare),
        };
    }
    let ghost f = |i: int| interp_term(ps, es, eta@, i);
    let mut terms: Vec<Vec<u8>> = Vec::new();
    let mut i: usize = 0;
    while i < n
        invariant
            i <= n == points@.len() == evals@.len(),
            n >= 2,
            ps == encodings(points@),
            es == encodings(evals@),
            f == (|i: int| interp_term(ps, es, eta@, i)),
            terms@.len() == i,
            forall|k: int| 0 <= k < i ==> f(k) == Some(#[trigger] terms@[k]@),
        decreases n - i,
    {
        assert(ps[i as int] == points@[i as int]@);
        assert(es[i as int] == evals@[i as int]@);
        let c = prod_diffs_exec(&points[i], points, i);
        let q = prod_diffs_exec(eta, points, i);
        let t = match (c, q) {
            (Ok(c), Ok(q)) => match fr_inverse(&c) {
                Some(ic) => match fr_mul(&ic, &evals[i]) {
                    Some(t) => fr_mul(&t, &q),
                    None => None,
                },
                None => None,
            },
            _ => None,
        };
        match t {
            Some(t) => terms.push(t),
            None => {
                proof {
                    assert(f(i as int) is None);
                    lemma_map_opt_none(n as nat, f, i as int);
                    lemma_map_opt_ext(
                        n as nat,
                        f,
                        |j: int| interp_term(encodings(points@), encodings(evals@), eta@, j),
                    );
                }
                return Err(NetError::BadShare);
            },
        }
        i = i + 1;
    }
    assert forall|k: int| 0 <= k < n implies (#[trigger] f(k)) is Some by {
        assert(f(k) == Some(terms@[k]@));
    }
    assert(encodings(terms@) =~= Seq::new(n as nat, |k: int| f(k)->Some_0));
    proof {
        lemma_map_opt_ext(
            n as nat,
            f,
            |j: int| interp_term(encodings(points@), encodings(evals@), eta@, j),
        );
    }
    match fr_sum(&terms) {
        Some(v) => Ok(v),
        None => Err(NetError::BadShare),
    }
}

/// The product over the distinct points of `pts` of `eta - p`.
pub open spec fn vanishing_at(eta: Seq<u8>, pts: Seq<Seq<u8>>) -> Option<Seq<u8>> {
    let d = distinct(pts);
    if d.len() == 0 {
        None
    } else {
        prod_diffs(eta, d, d.len() as int, d.len())
    }
}

fn vanishing_at_exec(eta: &Vec<u8>, pts: &Vec<Vec<u8>>) -> (r: Result<Vec<u8>, NetError>)
    ensures
        match r {
            Ok(v) => vanishing_at(eta@, encodings(pts@)) == Some(v@),
            Err(e) => vanishing_at(eta@, encodings(pts@)) is None && e == NetError::BadShare,
        },
{
    let d = distinct_points(pts);
    if d.len() == 0 {
        assert(encodings(d@).len() == 0);
        return Err(NetError::BadShare);
    }
    assert(encodings(d@).len() == d@.len());
    prod_diffs_exec(eta, &d, d.len())
}

/// The term of row `j` in the evaluation identity: `factor * (num / Z_j(eta))
/// * (claimed - r_j(eta))`, with `Z_j` vanishing on the row's points and `r_j`
/// the polynomial through its points and values.
pub open spec fn identity_term(
    points: Seq<Seq<u8>>,
    evals: Seq<Seq<u8>>,
    claimed: Seq<u8>,
    factor: Seq<u8>,
    num: Seq<u8>,
    eta: Seq<u8>,
) -> Option<Seq<u8>> {
    match (vanishing_at(eta, points), interp_at(points, evals, eta)) {
        (Some(nj), Some(rv)) => match (fr_inverse_of(nj), fr_sub_of(claimed, rv)) {
            (Some(inj), Some(diff)) => match fr_mul_of(num, inj) {
                Some(helper) => match fr_mul_of(factor, helper) {
                    Some(fh) => fr_mul_of(fh, diff),
                    None => None,
                },
                None => None,
            },
            _ => None,
        },
        _ => None,
    }
}

/// The evaluation identity of an opening at a common `y`:
/// `sum_j gamma^j * (Z(eta) / Z_j(eta)) * (claimed[j] - r_j(eta)) == Z(eta) * eval_q`,
/// with `Z` vanishing on all points.
pub open spec fn eval_identity(
    points: Seq<Seq<Seq<u8>>>,
    evals: Seq<Seq<Seq<u8>>>,
    claimed: Seq<Seq<u8>>,
    eval_q: Seq<u8>,
    gamma: Seq<u8>,
    eta: Seq<u8>,
) -> Option<bool> {
    let n = points.len();
    match (vanishing_at(eta, points.flatten_alt()), powers_list(gamma, n)) {
        (Some(num), Some(fs)) => match (
            fr_mul_of(num, eval_q),
            map_opt(n, |j: int| identity_term(points[j], evals[j], claimed[j], fs[j], num, eta)),
        ) {
            (Some(right), Some(terms)) => match fr_sum_of(terms) {
                Some(left) => Some(left == right),
                None => None,
            },
            _ => None,
        },
        _ => None,
    }
}

fn flatten_points(points: &Vec<Vec<Vec<u8>>>) -> (r: Vec<Vec<u8>>)
    ensures
        encodings(r@) == grid(points@).flatten_alt(),
{
    let mut out: Vec<Vec<u8>> = Vec::new();
    let mut i: usize = 0;
    while i < points.len()
        invariant
            i <= points@.len(),
            encodings(out@) == grid(points@).subrange(0, i as int).flatten_alt(),
        decreases points@.len() - i,
    {
        let ghost before = encodings(out@);
        let mut k: usize = 0;
        while k < points[i].len()
            invariant
                i < points@.len(),
                k <= points@[i as int]@.len(),
                encodings(out@) == before + encodings(points@[i as int]@).subrange(0, k as int),
            decreases points@[i as int]@.len() - k,
        {
            let ghost prev = out@;
            out.push(points[i][k].clone());
            assert(encodings(out@) =~= encodings(prev).push(points@[i as int]@[k as int]@));
            k = k + 1;
            assert(encodings(out@) =~= before + encodings(points@[i as int]@).subrange(0, k as int));
        }
        let ghost g = grid(points@);
        assert(g.subrange(0, i + 1).drop_last() =~= g.subrange(0, i as int));
        assert(encodings(points@[i as int]@).subrange(0, k as int) =~= g[i as int]);
        i = i + 1;
    }
    assert(grid(points@).subrange(0, i as int) =~= grid(points@));
    out
}

/// Checks the evaluation identity of an opening at a common `y` at `eta`.
pub fn check_eval_identity(
    x_points: &Vec<Vec<Vec<u8>>>,
    evals: &Vec<Vec<Vec<u8>>>,
    claimed: &Vec<Vec<u8>>,
    eval_q: &Vec<u8>,
    gamma: &Vec<u8>,
    eta: &Vec<u8>,
) -> (r: Result<bool, NetError>)
    requires
        evals@.len() == x_points@.len(),
        claimed@.len() == x_points@.len(),
        forall|j: int| 0 <= j < x_points@.len() ==> (#[trigger] evals@[j])@.len() == x_points@[j]@.len(),
    ensures
        match r {
            Ok(b) => eval_identity(grid(x_points@), grid(evals@), encodings(claimed@), eval_q@, gamma@, eta@) == Some(b),
            Err(e) => eval_identity(grid(x_points@), grid(evals@), encodings(claimed@), eval_q@, gamma@, eta@) is None
                && e == NetError::BadShare,
        },
{
    let n = x_points.len();
    let ghost ps = grid(x_points@);
    let ghost es = grid(evals@);
    let ghost cs = encodings(claimed@);
    let all = flatten_points(x_points);
    let num = match vanishing_at_exec(eta, &all) {
        Ok(v) => v,
        Err(e) => {
            return Err(e);
        },
    };
    let fs = match generate_powers(gamma, n) {
        Ok(v) => v,
        Err(e) => {
            return Err(e);
        },
    };
    let ghost fse = encodings(fs@);
    assert(Some(fse) == powers_list(gamma@, n as nat)) by {
        assert(fse =~= Seq::new(n as nat, |i: int| power_of(gamma@, i as nat)->Some_0));
    }
    let right = match fr_mul(&num, eval_q) {
        Some(v) => v,
        None => {
            return Err(NetError::BadShare);
        },
    };
    let ghost f = |j: int| identity_term(ps[j], es[j], cs[j], fse[j], num@, eta@);
    let mut terms: Vec<Vec<u8>> = Vec::new();
    let mut j: usize = 0;
    while j < n
        invariant
            j <= n == x_points@.len() == evals@.len() == claimed@.len(),
            fs@.len() == n,
            forall|q: int| 0 <= q < n ==> (#[trigger] evals@[q])@.len() == x_points@[q]@.len(),
            ps == grid(x_points@),
            es == grid(evals@),
            cs == encodings(claimed@),
            fse == encodings(fs@),
            Some(fse) == powers_list(gamma@, n as nat),
            vanishing_at(eta@, ps.flatten_alt()) == Some(num@),
            fr_mul_of(num@, eval_q@) == Some(right@),
            f == (|j: int| identity_term(ps[j], es[j], cs[j], fse[j], num@, eta@)),
            terms@.len() == j,
            forall|q: int| 0 <= q < j ==> f(q) == Some(#[trigger] terms@[q]@),
        decreases n - j,
    {
        assert(ps[j as int] == encodings(x_points@[j as int]@));
        assert(es[j as int] == encodings(evals@[j as int]@));
        let nj = vanishing_at_exec(eta, &x_points[j]);
        let rv = interpolate_at(&x_points[j], &evals[j], eta);
        let t = match (nj, rv) {
            (Ok(nj), Ok(rv)) => match (fr_inverse(&nj), fr_sub(&claimed[j], &rv)) {
                (Some(inj), Some(diff)) => match fr_mul(&num, &inj) {
                    Some(helper) => match fr_mul(&fs[j], &helper) {
                        Some(fh) => fr_mul(&fh, &diff),
                        None => None,
                    },
                    None => None,
                },
                _ => None,
            },
            _ => None,
        };
        match t {
            Some(t) => terms.push(t),
            None => {
                proof {
                    assert(f(j as int) is None);
                    lemma_map_opt_none(n as nat, f, j as int);
                    lemma_map_opt_ext(
                        n as nat,
                        f,
                        |q: int| identity_term(ps[q], es[q], cs[q], fse[q], num@, eta@),
                    );
                }
                return Err(NetError::BadShare);
            },
        }
        j = j + 1;
    }
    assert forall|q: int| 0 <= q < n implies (#[trigger] f(q)) is Some by {
        assert(f(q) == Some(terms@[q]@));
    }
    assert(encodings(terms@) =~= Seq::new(n as nat, |q: int| f(q)->Some_0));
    proof {
        lemma_map_opt_ext(n as nat, f, |q: int| identity_term(ps[q], es[q], cs[q], fse[q], num@, eta@));
    }
    match fr_sum(&terms) {
        Some(left) => Ok(bytes_eq(&left, &right)),
        None => Err(NetError::BadShare),
    }
}

/// The lists of a verification have matching lengths: one commitment, one
/// list of points, one list of values and one claimed value per polynomial,
/// and as many values as points in each row.
pub open spec fn shapes_match(
    coms: Seq<Vec<u8>>,
    x_points: Seq<Vec<Vec<u8>>>,
    evals: Seq<Vec<Vec<u8>>>,
    claimed: Seq<Vec<u8>>,
) -> bool {
    &&& evals.len() == coms.len()
    &&& x_points.len() == coms.len()
    &&& claimed.len() == coms.len()
    &&& forall|j: int| 0 <= j < x_points.len() ==> (#[trigger] evals[j])@.len() == x_points[j]@.len()
}

/// The verdict on an opening at a common `y` at the challenges `eta` and
/// `theta`: all three checks hold.
pub open spec fn same_y_verdict(
    vk: (Seq<u8>, Seq<u8>, Seq<u8>, Seq<u8>),
    coms: Seq<Seq<u8>>,
    x_points: Seq<Seq<Seq<u8>>>,
    y: Seq<u8>,
    evals: Seq<Seq<Seq<u8>>>,
    proof: (Seq<u8>, Seq<Seq<u8>>, Seq<u8>, Seq<u8>, Seq<u8>, Seq<u8>),
    gamma: Seq<u8>,
    eta: Seq<u8>,
    theta: Seq<u8>,
) -> Option<bool> {
    let (proof_q, claimed, eval_q, witness_x, witness_y, proof_q3) = proof;
    let (g, h, h_alpha, _) = vk;
    match (
        eval_identity(x_points, evals, claimed, eval_q, gamma, eta),
        kzg_check(g, h, h_alpha, proof_q, eta, eval_q, proof_q3),
        biv_check(vk, coms, eta, y, claimed, witness_x, witness_y, theta),
    ) {
        (Some(c2), Some(c1), Some(c3)) => Some(c1 && c2 && c3),
        _ => None,
    }
}

pub open spec fn proof_view(p: &SameYProof) -> (Seq<u8>, Seq<Seq<u8>>, Seq<u8>, Seq<u8>, Seq<u8>, Seq<u8>) {
    (p.proof_q@, encodings(p.evals_eta_beta@), p.eval_q@, p.proof_q1_q2.0@, p.proof_q1_q2.1@, p.proof_q3@)
}

/// Verifies an opening at a common `y` at given challenges `eta` and `theta`.
pub fn verify_at_same_y_with_challenges(
    vk: &VerifierKey,
    coms: &Vec<Vec<u8>>,
    x_points: &Vec<Vec<Vec<u8>>>,
    y_point: &Vec<u8>,
    evals: &Vec<Vec<Vec<u8>>>,
    proof: &SameYProof,
    challenge: &Vec<u8>,
    eta: &Vec<u8>,
    theta: &Vec<u8>,
) -> (r: Result<bool, NetError>)
    ensures
        !shapes_match(coms@, x_points@, evals@, proof.evals_eta_beta@) ==> r == Err::<bool, NetError>(
            NetError::WrongLength,
        ),
        shapes_match(coms@, x_points@, evals@, proof.evals_eta_beta@) ==> ({
            let v = same_y_verdict(vk_of(vk), encodings(coms@), grid(x_points@), y_point@, grid(evals@), proof_view(proof), challenge@, eta@, theta@);
            match r {
                Ok(b) => v == Some(b),
                Err(e) => v is None && e == NetError::BadShare,
            }
        }),
{
    let n = coms.len();
    if evals.len() != n || x_points.len() != n || proof.evals_eta_beta.len() != n {
        return Err(NetError::WrongLength);
    }
    let mut j: usize = 0;
    while j < n
        invariant
            j <= n == x_points@.len() == evals@.len(),
            forall|q: int| 0 <= q < j ==> (#[trigger] evals@[q])@.len() == x_points@[q]@.len(),
        decreases n - j,
    {
        if evals[j].len() != x_points[j].len() {
            return Err(NetError::WrongLength);
        }
        j = j + 1;
    }
    let c2 = check_eval_identity(x_points, evals, &proof.evals_eta_beta, &proof.eval_q, challenge, eta);
    let c1 = kzg_verify(vk, &proof.proof_q, eta, &proof.eval_q, &proof.proof_q3);
    let c3 = biv_verify(vk, coms, eta, y_point, &proof.evals_eta_beta, &proof.proof_q1_q2, theta);
    match (c2, c1, c3) {
        (Ok(c2), Ok(c1), Ok(c3)) => Ok(c1 && c2 && c3),
        _ => Err(NetError::BadShare),
    }
}

/// Verifies an opening at a common `y`, deriving `eta` and `theta` from
/// `transcript` as the master did: it absorbs `proof_q` and squeezes `eta`,
/// then absorbs the claimed values followed by `eval_q` and squeezes `theta`.
pub fn verify_at_same_y(
    vk: &VerifierKey,
    coms: &Vec<Vec<u8>>,
    x_points: &Vec<Vec<Vec<u8>>>,
    y_point: &Vec<u8>,
    evals: &Vec<Vec<Vec<u8>>>,
    proof: &SameYProof,
    transcript: &mut FsTranscript,
    challenge: &Vec<u8>,
) -> (r: Result<bool, NetError>)
    requires
        ops_fit(old(transcript).absorbed()),
        proof.proof_q@.len() <= u32::MAX,
        proof.eval_q@.len() <= u32::MAX,
        forall|i: int| 0 <= i < proof.evals_eta_beta@.len() ==> #[trigger] proof.evals_eta_beta@[i]@.len() <= u32::MAX,
    ensures
        final(transcript).domain() == old(transcript).domain(),
        !shapes_match(coms@, x_points@, evals@, proof.evals_eta_beta@) ==> r == Err::<bool, NetError>(
            NetError::WrongLength,
        ) && final(transcript).absorbed() == old(transcript).absorbed(),
        shapes_match(coms@, x_points@, evals@, proof.evals_eta_beta@) ==> ({
            let d = old(transcript).domain();
            let h_eta = history_for_eta(old(transcript).absorbed(), proof.proof_q@);
            let h_theta = history_for_theta(old(transcript).absorbed(), proof.proof_q@, encodings(proof.evals_eta_beta@), proof.eval_q@);
            let eta = challenge_of(d, h_eta, label_eta());
            let theta = challenge_of(d, h_theta, label_theta());
            let v = same_y_verdict(vk_of(vk), encodings(coms@), grid(x_points@), y_point@, grid(evals@), proof_view(proof), challenge@, eta, theta);
            &&& final(transcript).absorbed() == h_theta.push(Absorbed::Challenge(label_theta(), 64))
            &&& match r {
                Ok(b) => v == Some(b),
                Err(e) => v is None && e == NetError::BadShare,
            }
        }),
{
    let n = coms.len();
    if evals.len() != n || x_points.len() != n || proof.evals_eta_beta.len() != n {
        return Err(NetError::WrongLength);
    }
    let mut j: usize = 0;
    while j < n
        invariant
            j <= n == x_points@.len() == evals@.len(),
            forall|q: int| 0 <= q < j ==> (#[trigger] evals@[q])@.len() == x_points@[q]@.len(),
        decreases n - j,
    {
        if evals[j].len() != x_points[j].len() {
            return Err(NetError::WrongLength);
        }
        j = j + 1;
    }
    let ghost start = transcript.absorbed();
    transcript.append_point("combined_polynomial_x_beta".as_bytes(), &proof.proof_q);
    let eta = transcript.challenge_scalar("random_evaluate_point".as_bytes());
    let mut scalars: Vec<Vec<u8>> = Vec::new();
    let mut i: usize = 0;
    while i < proof.evals_eta_beta.len()
        invariant
            i <= proof.evals_eta_beta@.len(),
            scalars@.len() == i,
            forall|k: int| 0 <= k < i ==> (#[trigger] scalars@[k])@ == proof.evals_eta_beta@[k]@,
        decreases proof.evals_eta_beta@.len() - i,
    {
        scalars.push(proof.evals_eta_beta[i].clone());
        i = i + 1;
    }
    scalars.push(proof.eval_q.clone());
    assert(encodings(scalars@) =~= encodings(proof.evals_eta_beta@).push(proof.eval_q@));
    transcript.append_scalars("combined_polynomial_x_beta".as_bytes(), &scalars);
    let theta = transcript.challenge_scalar("batch_kzg_rlc_challenge".as_bytes());
    verify_at_same_y_with_challenges(vk, coms, x_points, y_point, evals, proof, challenge, &eta, &theta)
}

fn bytes_eq(a: &Vec<u8>, b: &Vec<u8>) -> (r: bool)
    ensures
        r == (a@ == b@),
{
    if a.len() != b.len() {
        return false;
    }
    let mut i: usize = 0;
    while i < a.len()
        invariant
            i <= a@.len() == b@.len(),
            forall|k: int| 0 <= k < i ==> a@[k] == b@[k],
        decreases a@.len() - i,
    {
        if a[i] != b[i] {
            return false;
        }
        i = i + 1;
    }
    assert(a@ =~= b@);
    true
}

} // verus!
