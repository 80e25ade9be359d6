//! The local and master steps of the distributed openings. Each party works
//! on its own rows and hands a share to the master, which sums the shares;
//! challenges come from the master alone (see `protocol::master_challenge`).

use vstd::prelude::*;
use vstd::string::StringSliceAdditionalSpecFns;

use crate::algebra::{
    encodings, fr_mul, fr_mul_of, fr_sum, fr_sum_of, g1_msm, g1_msm_of, g1_sum, g1_sum_of,
    lagrange_coefficients, lagrange_coefficients_of, opt_encoding, poly_eval, poly_eval_of,
};
use crate::error::NetError;
use crate::poly::{
    combination, combine_polys, divide_by_x_minus_k, generate_powers, power_of, quotient_of,
};
use crate::protocol::{column, column_of, grid};
use crate::kzg::{sub_from_each, get_quotient_eval_lagrange, quotient_evals, map_opt, lemma_map_opt_none, lemma_map_opt_ext};
use crate::algebra::{batch_inverse, batch_inverse_of, domain_elements, domain_elements_of, fr_sub, fr_sub_of, opt_encodings};
use crate::protocol::{chunk, srs_share};
use crate::transcript::{Absorbed, list_ops};

verus! {

/// The quotient of `c` by `X - p` for each point `p` of `points` in turn.
pub open spec fn quotient_by_points(c: Seq<Seq<u8>>, points: Seq<Seq<u8>>) -> Option<Seq<Seq<u8>>>
    decreases points.len(),
{
    if points.len() == 0 {
        Some(c)
    } else {
        match quotient_by_points(c, points.drop_last()) {
            Some(q) => quotient_of(q, points.last()),
            None => None,
        }
    }
}

/// The points of `points` without repeats, each kept at its first place.
pub open spec fn distinct(points: Seq<Seq<u8>>) -> Seq<Seq<u8>>
    decreases points.len(),
{
    if points.len() == 0 {
        points
    } else {
        let d = distinct(points.drop_last());
        if d.contains(points.last()) {
            d
        } else {
            d.push(points.last())
        }
    }
}

/// The points a row is divided by: all of them when there are at most three,
/// else each distinct one once.
pub open spec fn divisor_points(points: Seq<Seq<u8>>) -> Seq<Seq<u8>> {
    if points.len() <= 3 {
        points
    } else {
        distinct(points)
    }
}

/// The points of `points` without repeats.
pub fn distinct_points(points: &Vec<Vec<u8>>) -> (r: Vec<Vec<u8>>)
    ensures
        encodings(r@) == distinct(encodings(points@)),
{
    let mut out: Vec<Vec<u8>> = Vec::new();
    let mut i: usize = 0;
    while i < points.len()
        invariant
            i <= points@.len(),
            encodings(out@) == distinct(encodings(points@.subrange(0, i as int))),
        decreases points@.len() - i,
    {
        let ghost pre = encodings(points@.subrange(0, i as int));
        let ghost post = encodings(points@.subrange(0, i + 1));
        assert(post.drop_last() =~= pre);
        assert(post.last() == points@[i as int]@);
        let mut seen = false;
        let mut j: usize = 0;
        while j < out.len()
            invariant
                j <= out@.len(),
                i < points@.len(),
                seen == exists|q: int| 0 <= q < j && (#[trigger] out@[q])@ == points@[i as int]@,
            decreases out@.len() - j,
        {
            if bytes_eq(&out[j], &points[i]) {
                seen = true;
            }
            j = j + 1;
        }
        proof {
            let d = encodings(out@);
            if seen {
                let q = choose|q: int| 0 <= q < out@.len() && (#[trigger] out@[q])@ == points@[i as int]@;
                assert(d[q] == post.last());
            } else {
                assert(!d.contains(post.last())) by {
                    if d.contains(post.last()) {
                        let q = choose|q: int| 0 <= q < d.len() && d[q] == post.last();
                        assert(out@[q]@ == points@[i as int]@);
                    }
                }
            }
        }
        if !seen {
            let ghost before = out@;
            out.push(points[i].clone());
            assert(encodings(out@) =~= encodings(before).push(points@[i as int]@));
        }
        i = i + 1;
    }
    assert(points@.subrange(0, i as int) =~= points@);
    out
}

fn bytes_eq(a: &Vec<u8>, b: &Vec<u8>) -> (r: bool)
    ensures
        r == (a@ == b@),
{
    if a.len() != b.len() {
        return false;
    }
    let mut i: usize = 0;
    while i < a.len()
        invariant
            i <= a@.len() == b@.len(),
            forall|k: int| 0 <= k < i ==> a@[k] == b@[k],
        decreases a@.len() - i,
    {
        if a[i] != b[i] {
            return false;
        }
        i = i + 1;
    }
    assert(a@ =~= b@);
    true
}

/// The quotient of `poly` by the product of `X - p` over its divisor points.
pub fn divide_by_points(poly: &Vec<Vec<u8>>, points: &Vec<Vec<u8>>) -> (r: Result<
    Vec<Vec<u8>>,
    NetError,
>)
    ensures
        quotient_by_points(encodings(poly@), divisor_points(encodings(points@))) matches Some(q)
            ==> (r matches Ok(v) && encodings(v@) == q),
        quotient_by_points(encodings(poly@), divisor_points(encodings(points@))) is None ==> r
            == Err::<Vec<Vec<u8>>, NetError>(NetError::BadShare),
{
    let ps = if points.len() <= 3 {
        points.clone()
    } else {
        distinct_points(points)
    };
    assert(encodings(ps@) == divisor_points(encodings(points@))) by {
        if points@.len() <= 3 {
            assert(encodings(ps@) =~= encodings(points@));
        }
    }
    divide_by_each(poly, &ps)
}

/// The quotient of `poly` by `X - p` for each `p` of `ps` in turn.
pub fn divide_by_each(poly: &Vec<Vec<u8>>, ps: &Vec<Vec<u8>>) -> (r: Result<Vec<Vec<u8>>, NetError>)
    ensures
        quotient_by_points(encodings(poly@), encodings(ps@)) matches Some(q) ==> (r matches Ok(v)
            && encodings(v@) == q),
        quotient_by_points(encodings(poly@), encodings(ps@)) is None ==> r == Err::<
            Vec<Vec<u8>>,
            NetError,
        >(NetError::BadShare),
{
    let ghost dp = encodings(ps@);
    let mut q = poly.clone();
    assert(encodings(q@) =~= encodings(poly@));
    let mut i: usize = 0;
    assert(dp.subrange(0, 0).len() == 0);
    assert(quotient_by_points(encodings(poly@), dp.subrange(0, 0)) == Some(encodings(poly@)));
    while i < ps.len()
        invariant
            i <= ps@.len(),
            encodings(ps@) == dp,
            quotient_by_points(encodings(poly@), dp.subrange(0, i as int)) == Some(encodings(q@)),
        decreases ps@.len() - i,
    {
        let ghost sub = dp.subrange(0, i + 1);
        assert(sub.drop_last() =~= dp.subrange(0, i as int));
        assert(sub.last() == ps@[i as int]@);
        let ghost before = encodings(q@);
        match divide_by_x_minus_k(&mut q, &ps[i]) {
            Ok(()) => {},
            Err(e) => {
                proof {
                    assert(quotient_of(before, sub.last()) is None);
                    assert(quotient_by_points(encodings(poly@), sub) is None);
                    lemma_quotients_stay_none(encodings(poly@), dp, (i + 1) as nat);
                }
                return Err(e);
            },
        }
        i = i + 1;
    }
    assert(dp.subrange(0, i as int) =~= dp);
    Ok(q)
}

proof fn lemma_quotients_stay_none(c: Seq<Seq<u8>>, pts: Seq<Seq<u8>>, k: nat)
    requires
        k <= pts.len(),
        quotient_by_points(c, pts.subrange(0, k as int)) is None,
    ensures
        quotient_by_points(c, pts) is None,
    decreases pts.len() - k,
{
    if k < pts.len() {
        let s = pts.subrange(0, k + 1 as int);
        assert(s.drop_last() =~= pts.subrange(0, k as int));
        lemma_quotients_stay_none(c, pts, k + 1);
    } else {
        assert(pts.subrange(0, k as int) =~= pts);
    }
}

/// A party's share of a univariate opening at `point`: the MSM of its
/// reference string with the quotient of its polynomial by `X - point`.
pub fn de_open_share(powers: &Vec<Vec<u8>>, sub_polynomial: &Vec<Vec<u8>>, point: &Vec<u8>) -> (r:
    Result<Vec<u8>, NetError>)
    ensures
        ({
            let q = quotient_of(encodings(sub_polynomial@), point@);
            &&& (q is Some && g1_msm_of(encodings(powers@), q->Some_0) is Some) ==> (r matches Ok(
                v,
            ) && g1_msm_of(encodings(powers@), q->Some_0) == Some(v@))
            &&& !(q is Some && g1_msm_of(encodings(powers@), q->Some_0) is Some) ==> r == Err::<
                Vec<u8>,
                NetError,
            >(NetError::BadShare)
        }),
{
    let mut q = sub_polynomial.clone();
    assert(encodings(q@) =~= encodings(sub_polynomial@));
    divide_by_x_minus_k(&mut q, point)?;
    match g1_msm(powers, &q) {
        Some(v) => Ok(v),
        None => Err(NetError::BadShare),
    }
}

/// A party's share of a univariate evaluation: its polynomial's value at `point`.
pub fn de_evaluate_share(sub_polynomial: &Vec<Vec<u8>>, point: &Vec<u8>) -> (r: Result<
    Vec<u8>,
    NetError,
>)
    ensures
        poly_eval_of(encodings(sub_polynomial@), point@) matches Some(v) ==> (r matches Ok(w)
            && w@ == v),
        poly_eval_of(encodings(sub_polynomial@), point@) is None ==> r == Err::<Vec<u8>, NetError>(
            NetError::BadShare,
        ),
{
    match poly_eval(sub_polynomial, point) {
        Some(v) => Ok(v),
        None => Err(NetError::BadShare),
    }
}

/// The master's sum of the parties' point shares.
pub fn sum_points(shares: &Vec<Vec<u8>>) -> (r: Result<Vec<u8>, NetError>)
    ensures
        opt_encoding(r.ok()) == g1_sum_of(encodings(shares@)),
        r matches Err(e) ==> e == NetError::BadShare,
{
    match g1_sum(shares) {
        Some(v) => Ok(v),
        None => Err(NetError::BadShare),
    }
}

/// The master's sum of the parties' scalar shares.
pub fn sum_scalars(shares: &Vec<Vec<u8>>) -> (r: Result<Vec<u8>, NetError>)
    ensures
        opt_encoding(r.ok()) == fr_sum_of(encodings(shares@)),
        r matches Err(e) ==> e == NetError::BadShare,
{
    match fr_sum(shares) {
        Some(v) => Ok(v),
        None => Err(NetError::BadShare),
    }
}

/// Inputs of the first round of an opening at a common `y`, as encodings.
pub struct SameYInputs {
    pub id: nat,
    pub y_size: nat,
    pub x_srs: Seq<Seq<u8>>,
    pub polys: Seq<Seq<Seq<u8>>>,
    pub points: Seq<Seq<Seq<u8>>>,
    pub y: Seq<u8>,
    pub gamma: Seq<u8>,
}

impl SameYInputs {
    /// The value at `y` of the party's Lagrange basis polynomial.
    pub open spec fn eval_lagrange(self) -> Option<Seq<u8>> {
        match lagrange_coefficients_of(self.y_size, self.y) {
            Some(all) => if self.id < all.len() {
                Some(all[self.id as int])
            } else {
                None
            },
            None => None,
        }
    }

    /// Row `j` divided by its points.
    pub open spec fn quotient(self, j: int) -> Option<Seq<Seq<u8>>> {
        quotient_by_points(self.polys[j], divisor_points(self.points[j]))
    }

    /// The factor of row `j`: `gamma^j` times the Lagrange value.
    pub open spec fn factor(self, j: int) -> Option<Seq<u8>> {
        match power_of(self.gamma, j as nat) {
            Some(p) => fr_mul_of(p, self.eval_lagrange()->Some_0),
            None => None,
        }
    }

    /// The combined quotient of the party's rows.
    pub open spec fn combined(self) -> Option<Seq<Seq<u8>>> {
        let m = self.polys.len();
        combination(
            Seq::new(m, |j: int| self.quotient(j)->Some_0),
            Seq::new(m, |j: int| self.factor(j)->Some_0),
            m,
        )
    }

    /// Every step of the round is defined.
    pub open spec fn defined(self) -> bool {
        &&& self.eval_lagrange() is Some
        &&& forall|j: int| 0 <= j < self.polys.len() ==> (#[trigger] self.quotient(j)) is Some
        &&& forall|j: int| 0 <= j < self.polys.len() ==> (#[trigger] self.factor(j)) is Some
        &&& self.combined() is Some
        &&& g1_msm_of(self.x_srs, self.combined()->Some_0) is Some
    }
}

pub open spec fn same_y_inputs(
    sub_prover_id: usize,
    y_domain_size: usize,
    x_srs: &Vec<Vec<u8>>,
    sub_polynomials: &Vec<Vec<Vec<u8>>>,
    x_points: &Vec<Vec<Vec<u8>>>,
    y_point: &Vec<u8>,
    challenge: &Vec<u8>,
) -> SameYInputs {
    SameYInputs {
        id: sub_prover_id as nat,
        y_size: y_domain_size as nat,
        x_srs: encodings(x_srs@),
        polys: grid(sub_polynomials@),
        points: grid(x_points@),
        y: y_point@,
        gamma: challenge@,
    }
}

/// What a party sends after the first round, and keeps for the next.
pub struct SameYShare {
    /// The commitment share of the combined quotient.
    pub proof_q: Vec<u8>,
    /// The combined quotient.
    pub q_slice: Vec<Vec<u8>>,
    /// The value at `y` of the party's Lagrange basis polynomial.
    pub eval_lagrange: Vec<u8>,
}

/// First round of party `sub_prover_id` in an opening at a common `y`, the
/// `Y` domain being the evaluation domain for `y_domain_size` points: each of
/// its rows is divided by the row's points, the quotients combined with the powers of `challenge` times the party's Lagrange
/// value at `y_point`, and the result committed with `x_srs`.
pub fn same_y_quotient_share(
    sub_prover_id: usize,
    y_domain_size: usize,
    x_srs: &Vec<Vec<u8>>,
    sub_polynomials: &Vec<Vec<Vec<u8>>>,
    x_points: &Vec<Vec<Vec<u8>>>,
    y_point: &Vec<u8>,
    challenge: &Vec<u8>,
) -> (r: Result<SameYShare, NetError>)
    ensures
        ({
            let inp = same_y_inputs(sub_prover_id, y_domain_size, x_srs, sub_polynomials, x_points, y_point, challenge);
            &&& x_points@.len() != sub_polynomials@.len() ==> r == Err::<SameYShare, NetError>(
                NetError::WrongLength,
            )
            &&& x_points@.len() == sub_polynomials@.len() ==> (r is Ok <==> inp.defined())
            &&& r matches Ok(sh) ==> {
                &&& Some(sh.eval_lagrange@) == inp.eval_lagrange()
                &&& Some(encodings(sh.q_slice@)) == inp.combined()
                &&& Some(sh.proof_q@) == g1_msm_of(inp.x_srs, inp.combined()->Some_0)
            }
            &&& r matches Err(e) ==> e == NetError::WrongLength || e == NetError::BadShare
        }),
{
    let ghost inp = same_y_inputs(sub_prover_id, y_domain_size, x_srs, sub_polynomials, x_points, y_point, challenge);
    let m = sub_polynomials.len();
    if x_points.len() != m {
        return Err(NetError::WrongLength);
    }
    let all = match lagrange_coefficients(y_domain_size, y_point) {
        Some(v) => v,
        None => {
            return Err(NetError::BadShare);
        },
    };
    if sub_prover_id >= all.len() {
        return Err(NetError::BadShare);
    }
    let el = all[sub_prover_id].clone();
    let mut quotients: Vec<Vec<Vec<u8>>> = Vec::new();
    let mut j: usize = 0;
    while j < m
        invariant
            j <= m == sub_polynomials@.len() == x_points@.len(),
            inp == same_y_inputs(sub_prover_id, y_domain_size, x_srs, sub_polynomials, x_points, y_point, challenge),
            inp.eval_lagrange() == Some(el@),
            inp.polys == grid(sub_polynomials@),
            inp.points == grid(x_points@),
            quotients@.len() == j,
            forall|q: int| 0 <= q < j ==> inp.quotient(q) == Some(#[trigger] grid(quotients@)[q]),
        decreases m - j,
    {
        assert(inp.polys[j as int] == encodings(sub_polynomials@[j as int]@));
        assert(inp.points[j as int] == encodings(x_points@[j as int]@));
        let q = match divide_by_points(&sub_polynomials[j], &x_points[j]) {
            Ok(q) => q,
            Err(e) => {
                assert(inp.quotient(j as int) is None);
                assert(!inp.defined());
                return Err(NetError::BadShare);
            },
        };
        let ghost before = quotients@;
        quotients.push(q);
        assert forall|k: int| 0 <= k < j + 1 implies inp.quotient(k) == Some(
            #[trigger] grid(quotients@)[k],
        ) by {
            if k < j {
                assert(quotients@[k] == before[k]);
                assert(grid(before)[k] == encodings(before[k]@));
            }
        }
        j = j + 1;
    }
    let powers = match generate_powers(challenge, m) {
        Ok(p) => p,
        Err(e) => {
            proof {
                let i = choose|i: nat| i < m && !((#[trigger] power_of(challenge@, i)) is Some);
                assert(inp.factor(i as int) is None);
                assert(!inp.defined());
            }
            return Err(e);
        },
    };
    let mut factors: Vec<Vec<u8>> = Vec::new();
    let mut k: usize = 0;
    while k < m
        invariant
            k <= m,
            m == sub_polynomials@.len() == x_points@.len(),
            inp == same_y_inputs(sub_prover_id, y_domain_size, x_srs, sub_polynomials, x_points, y_point, challenge),
            inp.polys == grid(sub_polynomials@),
            quotients@.len() == m,
            forall|q: int| 0 <= q < m ==> inp.quotient(q) == Some(#[trigger] grid(quotients@)[q]),
            powers@.len() == m,
            forall|i: int| 0 <= i < m ==> power_of(challenge@, i as nat) == Some(#[trigger] powers@[i]@),
            inp.eval_lagrange() == Some(el@),
            inp.gamma == challenge@,
            factors@.len() == k,
            forall|q: int| 0 <= q < k ==> inp.factor(q) == Some(#[trigger] factors@[q]@),
        decreases m - k,
    {
        assert(power_of(challenge@, k as nat) == Some(powers@[k as int]@));
        match fr_mul(&powers[k], &el) {
            Some(f) => factors.push(f),
            None => {
                assert(inp.factor(k as int) is None);
                assert(!inp.defined());
                return Err(NetError::BadShare);
            },
        }
        k = k + 1;
    }
    assert(grid(quotients@) =~= Seq::new(m as nat, |j: int| inp.quotient(j)->Some_0));
    assert(encodings(factors@) =~= Seq::new(m as nat, |j: int| inp.factor(j)->Some_0));
    assert(grid(quotients@) == quotients@.map_values(|p: Vec<Vec<u8>>| encodings(p@)));
    assert forall|j: int| 0 <= j < inp.polys.len() implies (#[trigger] inp.quotient(j)) is Some by {
        assert(inp.quotient(j) == Some(grid(quotients@)[j]));
    }
    assert forall|j: int| 0 <= j < inp.polys.len() implies (#[trigger] inp.factor(j)) is Some by {
        assert(inp.factor(j) == Some(factors@[j]@));
    }
    let combined = match combine_polys(&quotients, &factors) {
        Ok(c) => c,
        Err(e) => {
            assert(inp.combined() is None);
            return Err(e);
        },
    };
    assert(inp.combined() == Some(encodings(combined@)));
    match g1_msm(x_srs, &combined) {
        Some(p) => Ok(SameYShare { proof_q: p, q_slice: combined, eval_lagrange: el }),
        None => {
            assert(!inp.defined());
            Err(NetError::BadShare)
        },
    }
}

/// The proof of an opening at a common `y`: the commitment to the combined
/// quotient, the claimed values at `(eta, y)`, the combined quotient's value at
/// `eta`, the two components of the batched bivariate opening at `(eta, y)`,
/// and the KZG opening of the combined quotient at `eta`.
pub struct SameYProof {
    pub proof_q: Vec<u8>,
    pub evals_eta_beta: Vec<Vec<u8>>,
    pub eval_q: Vec<u8>,
    pub proof_q1_q2: (Vec<u8>, Vec<u8>),
    pub proof_q3: Vec<u8>,
}

/// The label under which the combined quotient and the claimed values are absorbed.
pub open spec fn label_combined() -> Seq<u8> {
    "combined_polynomial_x_beta".spec_bytes()
}

/// The label under which `eta` is squeezed.
pub open spec fn label_eta() -> Seq<u8> {
    "random_evaluate_point".spec_bytes()
}

/// The label under which `theta` is squeezed.
pub open spec fn label_theta() -> Seq<u8> {
    "batch_kzg_rlc_challenge".spec_bytes()
}

/// The transcript history from which `eta` is squeezed: `start`, then the
/// commitment to the combined quotient.
pub open spec fn history_for_eta(start: Seq<Absorbed>, proof_q: Seq<u8>) -> Seq<Absorbed> {
    start.push(Absorbed::Message(label_combined(), proof_q))
}

/// The transcript history from which `theta` is squeezed: that of `eta`, the
/// squeeze of `eta`, then the claimed values followed by `eval_q` as one list.
pub open spec fn history_for_theta(start: Seq<Absorbed>, proof_q: Seq<u8>, claimed: Seq<Seq<u8>>, eval_q: Seq<u8>) -> Seq<Absorbed> {
    history_for_eta(start, proof_q).push(Absorbed::Challenge(label_eta(), 64)) + list_ops(
        label_combined(),
        claimed.push(eval_q),
    )
}

/// What a party computes in the second round, at the challenge `eta`.
pub struct SameYEvals {
    /// The value of each of its rows at `eta`.
    pub sub_evals_eta: Vec<Vec<u8>>,
    /// Each of those times the party's Lagrange value at `y`.
    pub evals_eta_beta: Vec<Vec<u8>>,
    /// The value of its combined quotient at `eta`.
    pub eval_q: Vec<u8>,
}

/// Second round of an opening at a common `y`: the party evaluates its rows
/// and its combined quotient at `eta`, and weights the row values with its
/// Lagrange value. The master sums `evals_eta_beta` index by index, and the
/// `eval_q` of all parties.
pub fn same_y_eval_share(
    sub_polynomials: &Vec<Vec<Vec<u8>>>,
    q_slice: &Vec<Vec<u8>>,
    eval_lagrange: &Vec<u8>,
    eta: &Vec<u8>,
) -> (r: Result<SameYEvals, NetError>)
    ensures
        ({
            let ps = grid(sub_polynomials@);
            let defined = (forall|j: int|
                0 <= j < ps.len() ==> (#[trigger] poly_eval_of(ps[j], eta@)) is Some && fr_mul_of(
                    poly_eval_of(ps[j], eta@)->Some_0,
                    eval_lagrange@,
                ) is Some) && poly_eval_of(encodings(q_slice@), eta@) is Some;
            &&& r is Ok <==> defined
            &&& r matches Ok(e) ==> {
                &&& e.sub_evals_eta@.len() == ps.len()
                &&& e.evals_eta_beta@.len() == ps.len()
                &&& forall|j: int|
                    0 <= j < ps.len() ==> poly_eval_of(ps[j], eta@) == Some(
                        #[trigger] e.sub_evals_eta@[j]@,
                    ) && fr_mul_of(e.sub_evals_eta@[j]@, eval_lagrange@) == Some(
                        e.evals_eta_beta@[j]@,
                    )
                &&& poly_eval_of(encodings(q_slice@), eta@) == Some(e.eval_q@)
            }
            &&& r matches Err(e) ==> e == NetError::BadShare
        }),
{
    let ghost ps = grid(sub_polynomials@);
    let mut sub_evals: Vec<Vec<u8>> = Vec::new();
    let mut weighted: Vec<Vec<u8>> = Vec::new();
    let mut j: usize = 0;
    while j < sub_polynomials.len()
        invariant
            j <= sub_polynomials@.len(),
            ps == grid(sub_polynomials@),
            sub_evals@.len() == j,
            weighted@.len() == j,
            forall|k: int|
                0 <= k < j ==> poly_eval_of(ps[k], eta@) == Some(#[trigger] sub_evals@[k]@)
                    && fr_mul_of(sub_evals@[k]@, eval_lagrange@) == Some(weighted@[k]@),
        decreases sub_polynomials@.len() - j,
    {
        assert(ps[j as int] == encodings(sub_polynomials@[j as int]@));
        let v = match poly_eval(&sub_polynomials[j], eta) {
            Some(v) => v,
            None => {
                assert(poly_eval_of(ps[j as int], eta@) is None);
                return Err(NetError::BadShare);
            },
        };
        let w = match fr_mul(&v, eval_lagrange) {
            Some(w) => w,
            None => {
                assert(poly_eval_of(ps[j as int], eta@) == Some(v@));
                return Err(NetError::BadShare);
            },
        };
        sub_evals.push(v);
        weighted.push(w);
        j = j + 1;
    }
    let q = match poly_eval(q_slice, eta) {
        Some(q) => q,
        None => {
            return Err(NetError::BadShare);
        },
    };
    assert forall|k: int| 0 <= k < ps.len() implies (#[trigger] poly_eval_of(ps[k], eta@)) is Some
        && fr_mul_of(poly_eval_of(ps[k], eta@)->Some_0, eval_lagrange@) is Some by {
        assert(poly_eval_of(ps[k], eta@) == Some(sub_evals@[k]@));
    }
    Ok(SameYEvals { sub_evals_eta: sub_evals, evals_eta_beta: weighted, eval_q: q })
}

/// The polynomial a party opens in the batched bivariate opening: its only
/// row as it is, or else its rows combined with the powers of `challenge`.
pub open spec fn batched_row(polys: Seq<Seq<Seq<u8>>>, challenge: Seq<u8>) -> Option<Seq<Seq<u8>>> {
    if polys.len() == 1 {
        Some(polys[0])
    } else if forall|i: nat| i < polys.len() ==> (#[trigger] power_of(challenge, i)) is Some {
        combination(polys, Seq::new(polys.len(), |i: int| power_of(challenge, i as nat)->Some_0), polys.len())
    } else {
        None
    }
}

/// A party's share of the first proof component of the batched bivariate
/// opening at `(x, _)`: its batched row divided by `X - x`, committed with its
/// chunk of the reference string.
pub fn lagrange_open_share(
    sub_powers: &Vec<Vec<u8>>,
    sub_polynomials: &Vec<Vec<Vec<u8>>>,
    x: &Vec<u8>,
    challenge: &Vec<u8>,
) -> (r: Result<Vec<u8>, NetError>)
    ensures
        ({
            let b = batched_row(grid(sub_polynomials@), challenge@);
            let q = match b {
                Some(p) => quotient_of(p, x@),
                None => None,
            };
            let v = match q {
                Some(q) => g1_msm_of(encodings(sub_powers@), q),
                None => None,
            };
            &&& v matches Some(c) ==> (r matches Ok(w) && w@ == c)
            &&& v is None ==> r == Err::<Vec<u8>, NetError>(NetError::BadShare)
        }),
{
    let ghost ps = grid(sub_polynomials@);
    let mut q1 = if sub_polynomials.len() == 1 {
        let p = sub_polynomials[0].clone();
        assert(encodings(p@) == ps[0]);
        p
    } else {
        let factors = generate_powers(challenge, sub_polynomials.len())?;
        assert(encodings(factors@) =~= Seq::new(ps.len(), |i: int| power_of(challenge@, i as nat)->Some_0));
        assert(ps == sub_polynomials@.map_values(|p: Vec<Vec<u8>>| encodings(p@)));
        combine_polys(sub_polynomials, &factors)?
    };
    divide_by_x_minus_k(&mut q1, x)?;
    match g1_msm(sub_powers, &q1) {
        Some(c) => Ok(c),
        None => Err(NetError::BadShare),
    }
}

/// `sum_k values[k] * factors[k]` for one party, from the products up.
pub open spec fn weighted_sum(values: Seq<Seq<u8>>, factors: Seq<Seq<u8>>) -> Option<Seq<u8>> {
    if forall|k: int| 0 <= k < values.len() ==> (#[trigger] fr_mul_of(values[k], factors[k])) is Some {
        fr_sum_of(Seq::new(values.len(), |k: int| fr_mul_of(values[k], factors[k])->Some_0))
    } else {
        None
    }
}

/// The random linear combination of one party's evaluations with `factors`,
/// which is at least as long.
pub fn rlc_scalars(values: &Vec<Vec<u8>>, factors: &Vec<Vec<u8>>) -> (r: Result<Vec<u8>, NetError>)
    requires
        factors@.len() >= values@.len(),
    ensures
        opt_encoding(r.ok()) == weighted_sum(encodings(values@), encodings(factors@)),
        r matches Ok(v) ==> v@.len() == 32,
        r matches Err(e) ==> e == NetError::BadShare,
{
    let ghost vs = encodings(values@);
    let ghost fs = encodings(factors@);
    let mut prods: Vec<Vec<u8>> = Vec::new();
    let mut k: usize = 0;
    while k < values.len()
        invariant
            k <= values@.len() <= factors@.len(),
            vs == encodings(values@),
            fs == encodings(factors@),
            prods@.len() == k,
            forall|q: int| 0 <= q < k ==> fr_mul_of(vs[q], fs[q]) == Some(#[trigger] prods@[q]@),
        decreases values@.len() - k,
    {
        match fr_mul(&values[k], &factors[k]) {
            Some(p) => prods.push(p),
            None => {
                assert(fr_mul_of(vs[k as int], fs[k as int]) is None);
                return Err(NetError::BadShare);
            },
        }
        k = k + 1;
    }
    assert forall|q: int| 0 <= q < vs.len() implies (#[trigger] fr_mul_of(vs[q], fs[q])) is Some by {
        assert(fr_mul_of(vs[q], fs[q]) == Some(prods@[q]@));
    }
    assert(encodings(prods@) =~= Seq::new(vs.len(), |q: int| fr_mul_of(vs[q], fs[q])->Some_0));
    match fr_sum(&prods) {
        Some(v) => Ok(v),
        None => Err(NetError::BadShare),
    }
}

/// The powers of `c` up to `count`, where all are defined.
pub open spec fn powers_list(c: Seq<u8>, count: nat) -> Option<Seq<Seq<u8>>> {
    if forall|i: nat| i < count ==> (#[trigger] power_of(c, i)) is Some {
        Some(Seq::new(count, |i: int| power_of(c, i as nat)->Some_0))
    } else {
        None
    }
}

/// What the master computes to end the batched bivariate opening: the sum of
/// the first-component shares, and the commitment with `y_srs` of the
/// quotient at `y` of the parties' evaluations, each party's combined with
/// the powers of `challenge`.
pub open spec fn lagrange_finish(
    sub_proofs: Seq<Seq<u8>>,
    evals: Seq<Seq<Seq<u8>>>,
    y: Seq<u8>,
    size: nat,
    y_srs: Seq<Seq<u8>>,
    challenge: Seq<u8>,
    count: nat,
) -> Option<(Seq<u8>, Seq<u8>)> {
    match (g1_sum_of(sub_proofs), powers_list(challenge, count)) {
        (Some(first), Some(fs)) => if exists|i: int| 0 <= i < evals.len() && #[trigger] evals[i].len() > count {
            None
        } else {
            match map_opt(evals.len(), |i: int| weighted_sum(evals[i], fs)) {
                Some(sums) => match quotient_evals(sums, y, size) {
                    Some(q) => match g1_msm_of(y_srs, q) {
                        Some(second) => Some((first, second)),
                        None => None,
                    },
                    None => None,
                },
                None => None,
            }
        },
        _ => None,
    }
}

/// The master's end of the batched bivariate opening at `(x, y)`: returns the
/// two proof components.
pub fn lagrange_open_finish(
    sub_proofs: &Vec<Vec<u8>>,
    evals: &Vec<Vec<Vec<u8>>>,
    y: &Vec<u8>,
    domain_size: usize,
    y_srs: &Vec<Vec<u8>>,
    challenge: &Vec<u8>,
    count: usize,
) -> (r: Result<(Vec<u8>, Vec<u8>), NetError>)
    ensures
        ({
            let spec_r = lagrange_finish(
                encodings(sub_proofs@),
                grid(evals@),
                y@,
                domain_size as nat,
                encodings(y_srs@),
                challenge@,
                count as nat,
            );
            &&& spec_r matches Some(p) ==> (r matches Ok(v) && v.0@ == p.0 && v.1@ == p.1)
            &&& spec_r is None ==> r == Err::<(Vec<u8>, Vec<u8>), NetError>(NetError::BadShare)
        }),
{
    let ghost ev = grid(evals@);
    let first = match g1_sum(sub_proofs) {
        Some(p) => p,
        None => {
            return Err(NetError::BadShare);
        },
    };
    let fs = match generate_powers(challenge, count) {
        Ok(f) => f,
        Err(e) => {
            return Err(e);
        },
    };
    let ghost fse = encodings(fs@);
    assert(Some(fse) == powers_list(challenge@, count as nat)) by {
        assert(fse =~= Seq::new(count as nat, |i: int| power_of(challenge@, i as nat)->Some_0));
    }
    let mut sums: Vec<Vec<u8>> = Vec::new();
    let mut i: usize = 0;
    while i < evals.len()
        invariant
            i <= evals@.len(),
            ev == grid(evals@),
            fs@.len() == count,
            fse == encodings(fs@),
            g1_sum_of(encodings(sub_proofs@)) == Some(first@),
            Some(fse) == powers_list(challenge@, count as nat),
            sums@.len() == i,
            forall|k: int| 0 <= k < i ==> #[trigger] ev[k].len() <= count,
            forall|k: int| 0 <= k < i ==> weighted_sum(ev[k], fse) == Some(#[trigger] sums@[k]@),
        decreases evals@.len() - i,
    {
        assert(ev[i as int] == encodings(evals@[i as int]@));
        if evals[i].len() > count {
            assert(ev[i as int].len() > count);
            return Err(NetError::BadShare);
        }
        match rlc_scalars(&evals[i], &fs) {
            Ok(v) => sums.push(v),
            Err(e) => {
                proof {
                    assert(weighted_sum(ev[i as int], fse) is None);
                    if !(exists|k: int| 0 <= k < ev.len() && #[trigger] ev[k].len() > count) {
                        lemma_map_opt_none(ev.len(), |k: int| weighted_sum(ev[k], fse), i as int);
                    }
                }
                return Err(e);
            },
        }
        i = i + 1;
    }
    assert(!(exists|k: int| 0 <= k < ev.len() && #[trigger] ev[k].len() > count));
    let ghost f = |k: int| weighted_sum(ev[k], fse);
    assert forall|k: int| 0 <= k < ev.len() implies (#[trigger] f(k)) is Some by {
        assert(f(k) == Some(sums@[k]@));
    }
    assert(encodings(sums@) =~= Seq::new(ev.len(), |k: int| f(k)->Some_0));
    let q = get_quotient_eval_lagrange(&sums, y, domain_size)?;
    match g1_msm(y_srs, &q) {
        Some(second) => Ok((first, second)),
        None => Err(NetError::BadShare),
    }
}

/// The values at `(x, y)` of the committed polynomials, from each party's
/// values at `x`: entry `i` is `sum_p evals[p][i] * lag[p]`, with `lag` the
/// Lagrange values at `y` of the domain for `domain_size` points.
pub open spec fn target_evals_of(evals: Seq<Seq<Seq<u8>>>, y: Seq<u8>, size: nat, count: nat) -> Option<
    Seq<Seq<u8>>,
> {
    match lagrange_coefficients_of(size, y) {
        Some(lag) => if lag.len() < evals.len() || exists|p: int|
            0 <= p < evals.len() && #[trigger] evals[p].len() < count {
            None
        } else {
            map_opt(count, |i: int| weighted_sum(column(evals, i), lag))
        },
        None => None,
    }
}

/// The master's values at `(x, y)` of the `count` committed polynomials.
pub fn target_evals(evals: &Vec<Vec<Vec<u8>>>, y: &Vec<u8>, domain_size: usize, count: usize) -> (r:
    Result<Vec<Vec<u8>>, NetError>)
    ensures
        opt_encodings(r.ok()) == target_evals_of(grid(evals@), y@, domain_size as nat, count as nat),
        r matches Err(e) ==> e == NetError::BadShare,
{
    let ghost g = grid(evals@);
    let lag = match lagrange_coefficients(domain_size, y) {
        Some(l) => l,
        None => {
            return Err(NetError::BadShare);
        },
    };
    assert(encodings(lag@).len() == lag@.len());
    if lag.len() < evals.len() {
        return Err(NetError::BadShare);
    }
    let mut p: usize = 0;
    while p < evals.len()
        invariant
            p <= evals@.len(),
            g == grid(evals@),
            forall|q: int| 0 <= q < p ==> #[trigger] evals@[q]@.len() >= count,
        decreases evals@.len() - p,
    {
        if evals[p].len() < count {
            assert(g[p as int].len() < count);
            return Err(NetError::BadShare);
        }
        p = p + 1;
    }
    assert forall|q: int| 0 <= q < g.len() implies !(#[trigger] g[q].len() < count) by {
        assert(g[q].len() == evals@[q]@.len());
    }
    let ghost le = encodings(lag@);
    let ghost f = |i: int| weighted_sum(column(g, i), le);
    let mut out: Vec<Vec<u8>> = Vec::new();
    let mut i: usize = 0;
    while i < count
        invariant
            i <= count,
            g == grid(evals@),
            le == encodings(lag@),
            lagrange_coefficients_of(domain_size as nat, y@) == Some(le),
            forall|q: int| 0 <= q < g.len() ==> !(#[trigger] g[q].len() < count),
            lag@.len() >= evals@.len(),
            forall|q: int| 0 <= q < evals@.len() ==> #[trigger] evals@[q]@.len() >= count,
            f == (|i: int| weighted_sum(column(g, i), le)),
            out@.len() == i,
            forall|q: int| 0 <= q < i ==> f(q) == Some(#[trigger] out@[q]@),
        decreases count - i,
    {
        let col = column_of(evals, i);
        assert(encodings(col@).len() == col@.len());
        assert(column(g, i as int).len() == g.len());
        match rlc_scalars(&col, &lag) {
            Ok(v) => out.push(v),
            Err(e) => {
                proof {
                    lemma_map_opt_none(count as nat, f, i as int);
                    lemma_map_opt_ext(count as nat, f, |q: int| weighted_sum(column(g, q), le));
                }
                return Err(e);
            },
        }
        i = i + 1;
    }
    assert forall|q: int| 0 <= q < count implies (#[trigger] f(q)) is Some by {
        assert(f(q) == Some(out@[q]@));
    }
    assert(encodings(out@) =~= Seq::new(count as nat, |q: int| f(q)->Some_0));
    proof {
        lemma_map_opt_ext(count as nat, f, |q: int| weighted_sum(column(g, q), le));
    }
    Ok(out)
}

/// The term of column `c` of the quotient in the doubly Lagrange opening:
/// `(sum_k (evals[k][c] - at_x[k]) * fs[k]) * inv[c]`.
pub open spec fn double_lagrange_column(
    evals: Seq<Seq<Seq<u8>>>,
    at_x: Seq<Seq<u8>>,
    fs: Seq<Seq<u8>>,
    inv: Seq<Seq<u8>>,
    c: int,
) -> Option<Seq<u8>> {
    match map_opt(
        evals.len(),
        |k: int| match fr_sub_of(evals[k][c], at_x[k]) {
            Some(d) => fr_mul_of(d, fs[k]),
            None => None,
        },
    ) {
        Some(ts) => match fr_sum_of(ts) {
            Some(sm) => fr_mul_of(sm, inv[c]),
            None => None,
        },
        None => None,
    }
}

/// A party's share of the doubly Lagrange opening at `(x, _)`, for the rows
/// given by their values `sub_evals` over the `X` domain for `x_domain_size`
/// points: the values of its rows at `x`, and the quotient of their combination
/// with the powers of `challenge`, committed with its chunk of `powers`.
pub open spec fn double_lagrange_share_of(
    id: nat,
    powers: Seq<Seq<u8>>,
    evals: Seq<Seq<Seq<u8>>>,
    x: Seq<u8>,
    size: nat,
    challenge: Seq<u8>,
) -> Option<(Seq<u8>, Seq<Seq<u8>>)> {
    match (
        powers_list(challenge, evals.len()),
        lagrange_coefficients_of(size, x),
        domain_elements_of(size),
    ) {
        (Some(fs), Some(lag), Some(elems)) => {
            let xs = elems.len();
            if lag.len() != xs || (id + 1) * xs > powers.len() || exists|k: int|
                0 <= k < evals.len() && #[trigger] evals[k].len() != xs {
                None
            } else {
                match (
                    map_opt(xs, |c: int| fr_sub_of(elems[c], x)),
                    map_opt(evals.len(), |k: int| weighted_sum(evals[k], lag)),
                ) {
                    (Some(divs), Some(at_x)) => match batch_inverse_of(divs) {
                        Some(inv) => if inv.len() != xs {
                            None
                        } else {
                            match map_opt(xs, |c: int| double_lagrange_column(evals, at_x, fs, inv, c)) {
                                Some(q1) => match g1_msm_of(chunk(powers, id as int, xs as int), q1) {
                                    Some(pf) => Some((pf, at_x)),
                                    None => None,
                                },
                                None => None,
                            }
                        },
                        None => None,
                    },
                    _ => None,
                }
            }
        },
        _ => None,
    }
}

fn double_lagrange_column_exec(
    sub_evals: &Vec<Vec<Vec<u8>>>,
    at_x: &Vec<Vec<u8>>,
    fs: &Vec<Vec<u8>>,
    inv: &Vec<Vec<u8>>,
    c: usize,
) -> (r: Result<Vec<u8>, NetError>)
    requires
        at_x@.len() == sub_evals@.len(),
        fs@.len() == sub_evals@.len(),
        c < inv@.len(),
        forall|k: int| 0 <= k < sub_evals@.len() ==> c < (#[trigger] sub_evals@[k])@.len(),
    ensures
        match r {
            Ok(v) => double_lagrange_column(grid(sub_evals@), encodings(at_x@), encodings(fs@), encodings(inv@), c as int) == Some(v@),
            Err(e) => double_lagrange_column(grid(sub_evals@), encodings(at_x@), encodings(fs@), encodings(inv@), c as int) is None
                && e == NetError::BadShare,
        },
{
    let ghost ev = grid(sub_evals@);
    let ghost ax = encodings(at_x@);
    let ghost fe = encodings(fs@);
    let m = sub_evals.len();
    let ghost f = |k: int| match fr_sub_of(ev[k][c as int], ax[k]) {
        Some(d) => fr_mul_of(d, fe[k]),
        None => None,
    };
    let mut ts: Vec<Vec<u8>> = Vec::new();
    let mut k: usize = 0;
    while k < m
        invariant
            k <= m == sub_evals@.len() == at_x@.len() == fs@.len(),
            forall|q: int| 0 <= q < m ==> c < (#[trigger] sub_evals@[q])@.len(),
            ev == grid(sub_evals@),
            ax == encodings(at_x@),
            fe == encodings(fs@),
            f == (|k: int| match fr_sub_of(ev[k][c as int], ax[k]) {
                Some(d) => fr_mul_of(d, fe[k]),
                None => None,
            }),
            ts@.len() == k,
            forall|q: int| 0 <= q < k ==> f(q) == Some(#[trigger] ts@[q]@),
        decreases m - k,
    {
        assert(ev[k as int][c as int] == sub_evals@[k as int]@[c as int]@);
        let t = match fr_sub(&sub_evals[k][c], &at_x[k]) {
            Some(d) => fr_mul(&d, &fs[k]),
            None => None,
        };
        match t {
            Some(t) => ts.push(t),
            None => {
                proof {
                    lemma_map_opt_none(m as nat, f, k as int);
                }
                return Err(NetError::BadShare);
            },
        }
        k = k + 1;
    }
    assert forall|q: int| 0 <= q < m implies (#[trigger] f(q)) is Some by {
        assert(f(q) == Some(ts@[q]@));
    }
    assert(encodings(ts@) =~= Seq::new(m as nat, |q: int| f(q)->Some_0));
    let sm = match fr_sum(&ts) {
        Some(v) => v,
        None => {
            return Err(NetError::BadShare);
        },
    };
    match fr_mul(&sm, &inv[c]) {
        Some(v) => Ok(v),
        None => Err(NetError::BadShare),
    }
}

/// A party's share of the doubly Lagrange opening at `(x, _)`: the
/// commitment share of its quotient, and the values of its rows at `x`, which
/// the master combines as in `lagrange_open_finish` and `target_evals`.
#[verifier::loop_isolation(false)]
pub fn double_lagrange_open_share(
    sub_prover_id: usize,
    powers: &Vec<Vec<u8>>,
    sub_evals: &Vec<Vec<Vec<u8>>>,
    x: &Vec<u8>,
    x_domain_size: usize,
    challenge: &Vec<u8>,
) -> (r: Result<(Vec<u8>, Vec<Vec<u8>>), NetError>)
    ensures
        match double_lagrange_share_of(
            sub_prover_id as nat,
            encodings(powers@),
            grid(sub_evals@),
            x@,
            x_domain_size as nat,
            challenge@,
        ) {
            Some(t) => r matches Ok(v) && v.0@ == t.0 && encodings(v.1@) == t.1,
            None => r is Err,
        },
{
    let ghost ev = grid(sub_evals@);
    let ghost pw = encodings(powers@);
    let m = sub_evals.len();
    let fs = match generate_powers(challenge, m) {
        Ok(v) => v,
        Err(e) => {
            return Err(e);
        },
    };
    let ghost fe = encodings(fs@);
    assert(Some(fe) == powers_list(challenge@, ev.len())) by {
        assert(fe =~= Seq::new(m as nat, |i: int| power_of(challenge@, i as nat)->Some_0));
    }
    let (lag, elems) = match (lagrange_coefficients(x_domain_size, x), domain_elements(x_domain_size)) {
        (Some(l), Some(e)) => (l, e),
        _ => {
            return Err(NetError::BadShare);
        },
    };
    let ghost le = encodings(lag@);
    let ghost ee = encodings(elems@);
    let xs = elems.len();
    assert(ee.len() == xs && le.len() == lag@.len());
    if lag.len() != xs {
        return Err(NetError::BadShare);
    }
    let sub_powers = match srs_share(powers, sub_prover_id, xs) {
        Ok(v) => v,
        Err(e) => {
            return Err(e);
        },
    };
    let mut k: usize = 0;
    while k < m
        invariant
            k <= m == sub_evals@.len(),
            ev == grid(sub_evals@),
            forall|q: int| 0 <= q < k ==> (#[trigger] sub_evals@[q])@.len() == xs,
        decreases m - k,
    {
        if sub_evals[k].len() != xs {
            assert(ev[k as int].len() != xs);
            return Err(NetError::BadShare);
        }
        k = k + 1;
    }
    assert forall|q: int| 0 <= q < ev.len() implies !(#[trigger] ev[q].len() != xs) by {
        assert(ev[q].len() == sub_evals@[q]@.len());
    }
    let divs = sub_from_each(&elems, x);
    proof {
        lemma_map_opt_ext(xs as nat, |c: int| fr_sub_of(elems@[c]@, x@), |c: int| fr_sub_of(ee[c], x@));
    }
    let divs = match divs {
        Ok(d) => d,
        Err(e) => {
            return Err(e);
        },
    };
    let ghost g = |q: int| weighted_sum(ev[q], le);
    let mut at_x: Vec<Vec<u8>> = Vec::new();
    let mut q: usize = 0;
    while q < m
        invariant
            q <= m == sub_evals@.len(),
            ev == grid(sub_evals@),
            le == encodings(lag@),
            lag@.len() == xs,
            forall|j: int| 0 <= j < m ==> (#[trigger] sub_evals@[j])@.len() == xs,
            g == (|q: int| weighted_sum(ev[q], le)),
            at_x@.len() == q,
            forall|j: int| 0 <= j < q ==> g(j) == Some(#[trigger] at_x@[j]@),
        decreases m - q,
    {
        assert(ev[q as int] == encodings(sub_evals@[q as int]@));
        match rlc_scalars(&sub_evals[q], &lag) {
            Ok(v) => at_x.push(v),
            Err(e) => {
                proof {
                    lemma_map_opt_none(m as nat, g, q as int);
                    lemma_map_opt_ext(m as nat, g, |j: int| weighted_sum(ev[j], le));
                }
                return Err(e);
            },
        }
        q = q + 1;
    }
    assert forall|j: int| 0 <= j < m implies (#[trigger] g(j)) is Some by {
        assert(g(j) == Some(at_x@[j]@));
    }
    assert(encodings(at_x@) =~= Seq::new(m as nat, |j: int| g(j)->Some_0));
    proof {
        lemma_map_opt_ext(m as nat, g, |j: int| weighted_sum(ev[j], le));
    }
    let ghost ax = encodings(at_x@);
    let inv = match batch_inverse(&divs) {
        Some(v) => v,
        None => {
            return Err(NetError::BadShare);
        },
    };
    let ghost iv = encodings(inv@);
    if inv.len() != xs {
        assert(iv.len() == inv@.len());
        return Err(NetError::BadShare);
    }
    let ghost h = |c: int| double_lagrange_column(ev, ax, fe, iv, c);
    let mut q1: Vec<Vec<u8>> = Vec::new();
    let mut c: usize = 0;
    while c < xs
        invariant
            c <= xs == inv@.len(),
            m == sub_evals@.len() == at_x@.len() == fs@.len(),
            forall|j: int| 0 <= j < m ==> (#[trigger] sub_evals@[j])@.len() == xs,
            ev == grid(sub_evals@),
            ax == encodings(at_x@),
            fe == encodings(fs@),
            iv == encodings(inv@),
            h == (|c: int| double_lagrange_column(ev, ax, fe, iv, c)),
            q1@.len() == c,
            forall|j: int| 0 <= j < c ==> h(j) == Some(#[trigger] q1@[j]@),
        decreases xs - c,
    {
        match double_lagrange_column_exec(sub_evals, &at_x, &fs, &inv, c) {
            Ok(v) => q1.push(v),
            Err(e) => {
                proof {
                    lemma_map_opt_none(xs as nat, h, c as int);
                }
                return Err(e);
            },
        }
        c = c + 1;
    }
    assert forall|j: int| 0 <= j < xs implies (#[trigger] h(j)) is Some by {
        assert(h(j) == Some(q1@[j]@));
    }
    assert(encodings(q1@) =~= Seq::new(xs as nat, |j: int| h(j)->Some_0));
    match g1_msm(&sub_powers, &q1) {
        Some(pf) => Ok((pf, at_x)),
        None => Err(NetError::BadShare),
    }
}

/// The master's proof of an opening at a common `y`, from what it gathered:
/// `sums` holds the summed claimed values followed by the summed `eval_q`,
/// and `q3_shares` the parties' shares of the quotient's KZG opening.
pub fn assemble_same_y_proof(
    proof_q: Vec<u8>,
    sums: Vec<Vec<u8>>,
    proof_q1_q2: (Vec<u8>, Vec<u8>),
    q3_shares: &Vec<Vec<u8>>,
) -> (r: Result<SameYProof, NetError>)
    ensures
        sums@.len() == 0 ==> r == Err::<SameYProof, NetError>(NetError::WrongLength),
        sums@.len() > 0 ==> match r {
            Ok(p) => {
                &&& p.proof_q == proof_q
                &&& p.evals_eta_beta@ == sums@.drop_last()
                &&& p.eval_q == sums@.last()
                &&& p.proof_q1_q2 == proof_q1_q2
                &&& g1_sum_of(encodings(q3_shares@)) == Some(p.proof_q3@)
            },
            Err(e) => g1_sum_of(encodings(q3_shares@)) is None && e == NetError::BadShare,
        },
{
    let mut sums = sums;
    let eval_q = match sums.pop() {
        Some(v) => v,
        None => {
            return Err(NetError::WrongLength);
        },
    };
    let proof_q3 = sum_points(q3_shares)?;
    Ok(SameYProof { proof_q, evals_eta_beta: sums, eval_q, proof_q1_q2, proof_q3 })
}

} // verus!
