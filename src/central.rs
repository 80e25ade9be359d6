//! The opening at a common `y` computed in one process over the whole
//! polynomials: the reference result that the distributed opening reproduces.

use vstd::prelude::*;

use crate::algebra::{
    encodings, fr_from_le_bytes_mod_order, g1_msm, g1_msm_of, lagrange_coefficients,
    lagrange_coefficients_of, poly_eval, poly_eval_of,
};
use crate::error::NetError;
use crate::kzg::{fr_zero, get_quotient_eval_lagrange, lemma_map_opt_ext, lemma_map_opt_none, map_opt, quotient_evals};
use crate::opening::{
    distinct, distinct_points, divide_by_each, history_for_eta, history_for_theta, label_eta,
    label_theta, powers_list, quotient_by_points, rlc_scalars, weighted_sum, SameYProof,
};
use crate::poly::{combination, combine_polys, divide_by_x_minus_k, generate_powers, power_of, quotient_of};
use crate::protocol::{column, column_sums, fr_sum_fn, grid, polys_of, same_width, summable};
use crate::algebra::{fr_mul_of, fr_sum_of};
use crate::transcript::{challenge_of, Absorbed, FsTranscript, ProofTranscript, ops_fit};

verus! {

/// The list `f(0), .., f(n - 1)` of polynomials where every entry is defined.
pub open spec fn map_opt_polys(n: nat, f: spec_fn(int) -> Option<Seq<Seq<u8>>>) -> Option<
    Seq<Seq<Seq<u8>>>,
> {
    if forall|i: int| 0 <= i < n ==> (#[trigger] f(i)) is Some {
        Some(Seq::new(n, |i: int| f(i)->Some_0))
    } else {
        None
    }
}

/// The value at `eta` of each row.
pub open spec fn row_values(rows: Seq<Seq<Seq<u8>>>, eta: Seq<u8>) -> Option<Seq<Seq<u8>>> {
    map_opt(rows.len(), |k: int| poly_eval_of(rows[k], eta))
}

/// `f(X, y) / Z(X)` for the polynomial with rows `rows`, `lag` the Lagrange
/// values at `y` and `Z` vanishing on the distinct `points`.
pub open spec fn central_slice(rows: Seq<Seq<Seq<u8>>>, points: Seq<Seq<u8>>, lag: Seq<Seq<u8>>) -> Option<
    Seq<Seq<u8>>,
> {
    match combination(rows, lag, rows.len()) {
        Some(f) => quotient_by_points(f, distinct(points)),
        None => None,
    }
}

/// The slices of all polynomials combined with the powers `gs`.
pub open spec fn central_combined(
    polys: Seq<Seq<Seq<Seq<u8>>>>,
    points: Seq<Seq<Seq<u8>>>,
    lag: Seq<Seq<u8>>,
    gs: Seq<Seq<u8>>,
) -> Option<Seq<Seq<u8>>> {
    match map_opt_polys(polys.len(), |j: int| central_slice(polys[j], points[j], lag)) {
        Some(sl) => combination(sl, gs, polys.len()),
        None => None,
    }
}

/// The value of each polynomial at `(eta, y)`: its row values at `eta`
/// weighted with the Lagrange values `lag`.
pub open spec fn central_claims(polys: Seq<Seq<Seq<Seq<u8>>>>, lag: Seq<Seq<u8>>, eta: Seq<u8>) -> Option<
    Seq<Seq<u8>>,
> {
    map_opt(
        polys.len(),
        |j: int| match row_values(polys[j], eta) {
            Some(vs) => weighted_sum(vs, lag),
            None => None,
        },
    )
}

/// Row `i` of every polynomial.
pub open spec fn column_polys(polys: Seq<Seq<Seq<Seq<u8>>>>, i: int) -> Seq<Seq<Seq<u8>>> {
    Seq::new(polys.len(), |j: int| polys[j][i])
}

/// `q` cut or filled with zeros to `w` coefficients.
pub open spec fn zero_padded(q: Seq<Seq<u8>>, w: nat) -> Seq<Seq<u8>> {
    Seq::new(w, |c: int| if c < q.len() { q[c] } else { fr_zero() })
}

/// The quotient of row `i` of the combination with `ts` by `X - eta`.
pub open spec fn row_quotient(polys: Seq<Seq<Seq<Seq<u8>>>>, ts: Seq<Seq<u8>>, eta: Seq<u8>, i: int) -> Option<
    Seq<Seq<u8>>,
> {
    match combination(column_polys(polys, i), ts, polys.len()) {
        Some(c) => quotient_of(c, eta),
        None => None,
    }
}

/// The coefficients committed in the first component: the row quotients,
/// each brought to `w` coefficients, one after another.
pub open spec fn central_q1(polys: Seq<Seq<Seq<Seq<u8>>>>, ts: Seq<Seq<u8>>, eta: Seq<u8>, r: nat, w: nat) -> Option<
    Seq<Seq<u8>>,
> {
    match map_opt_polys(r, |i: int| row_quotient(polys, ts, eta, i)) {
        Some(qs) => Some(Seq::new(r, |i: int| zero_padded(qs[i], w)).flatten_alt()),
        None => None,
    }
}

/// The values committed in the second component: the quotient at `y` of the
/// row values at `eta` combined over the polynomials with `ts`.
pub open spec fn central_q2(
    polys: Seq<Seq<Seq<Seq<u8>>>>,
    ts: Seq<Seq<u8>>,
    eta: Seq<u8>,
    y: Seq<u8>,
    y_size: nat,
) -> Option<Seq<Seq<u8>>> {
    match map_opt_polys(polys.len(), |j: int| row_values(polys[j], eta)) {
        Some(evs) => match combination(evs, ts, polys.len()) {
            Some(c) => quotient_evals(c, y, y_size),
            None => None,
        },
        None => None,
    }
}

/// The inputs fit: one list of points per polynomial, and each polynomial has
/// at most `lag_len` rows and at least `r` of them.
pub open spec fn central_shape(polys: Seq<Seq<Seq<Seq<u8>>>>, points: Seq<Seq<Seq<u8>>>, lag_len: nat, r: nat) -> bool {
    &&& points.len() == polys.len()
    &&& forall|j: int| 0 <= j < polys.len() ==> #[trigger] polys[j].len() <= lag_len && polys[j].len() >= r
}

/// The central opening at a common `y`, from a transcript started under
/// `domain` with history `start`: the commitment to the combined quotient,
/// the claimed values, the combined quotient at `eta`, the two batched
/// components at `(eta, y)` and the KZG opening of the combined quotient.
pub open spec fn central_same_y_of(
    powers: Seq<Seq<u8>>,
    x_srs: Seq<Seq<u8>>,
    y_srs: Seq<Seq<u8>>,
    polys: Seq<Seq<Seq<Seq<u8>>>>,
    points: Seq<Seq<Seq<u8>>>,
    y: Seq<u8>,
    x_width: nat,
    y_size: nat,
    gamma: Seq<u8>,
    domain: Seq<u8>,
    start: Seq<Absorbed>,
) -> Option<(Seq<u8>, Seq<Seq<u8>>, Seq<u8>, Seq<u8>, Seq<u8>, Seq<u8>)> {
    let m = polys.len();
    match (lagrange_coefficients_of(y_size, y), powers_list(gamma, m)) {
        (Some(lag), Some(gs)) => if !central_shape(polys, points, lag.len(), y_srs.len()) {
            None
        } else {
            match central_combined(polys, points, lag, gs) {
                Some(comb) => match g1_msm_of(x_srs, comb) {
                    Some(pq) => {
                        let eta = challenge_of(domain, history_for_eta(start, pq), label_eta());
                        match (central_claims(polys, lag, eta), poly_eval_of(comb, eta)) {
                            (Some(cl), Some(eq)) => {
                                let theta = challenge_of(
                                    domain,
                                    history_for_theta(start, pq, cl, eq),
                                    label_theta(),
                                );
                                match powers_list(theta, m) {
                                    Some(ts) => match (
                                        central_q1(polys, ts, eta, y_srs.len(), x_width),
                                        central_q2(polys, ts, eta, y, y_size),
                                        quotient_of(comb, eta),
                                    ) {
                                        (Some(c1), Some(c2), Some(q3)) => match (
                                            g1_msm_of(powers, c1),
                                            g1_msm_of(y_srs, c2),
                                            g1_msm_of(x_srs, q3),
                                        ) {
                                            (Some(w1), Some(w2), Some(w3)) => Some((pq, cl, eq, w1, w2, w3)),
                                            _ => None,
                                        },
                                        _ => None,
                                    },
                                    None => None,
                                }
                            },
                            _ => None,
                        }
                    },
                    None => None,
                },
                None => None,
            }
        },
        _ => None,
    }
}

pub proof fn lemma_map_opt_polys_none(n: nat, f: spec_fn(int) -> Option<Seq<Seq<u8>>>, i: int)
    requires
        0 <= i < n,
        f(i) is None,
    ensures
        map_opt_polys(n, f) is None,
{
}

pub proof fn lemma_map_opt_polys_ext(
    n: nat,
    f: spec_fn(int) -> Option<Seq<Seq<u8>>>,
    g: spec_fn(int) -> Option<Seq<Seq<u8>>>,
)
    requires
        forall|i: int| 0 <= i < n ==> #[trigger] f(i) == g(i),
    ensures
        map_opt_polys(n, f) == map_opt_polys(n, g),
{
    if forall|i: int| 0 <= i < n ==> (#[trigger] f(i)) is Some {
        assert forall|i: int| 0 <= i < n implies (#[trigger] g(i)) is Some by {
            assert(f(i) is Some);
        }
        assert(Seq::new(n, |i: int| f(i)->Some_0) =~= Seq::new(n, |i: int| g(i)->Some_0));
    } else {
        let i = choose|i: int| 0 <= i < n && !((#[trigger] f(i)) is Some);
        assert(!(g(i) is Some));
    }
}

/// The value at `eta` of each row of `rows`.
fn eval_rows(rows: &Vec<Vec<Vec<u8>>>, eta: &Vec<u8>) -> (r: Result<Vec<Vec<u8>>, NetError>)
    ensures
        match r {
            Ok(v) => row_values(grid(rows@), eta@) == Some(encodings(v@)),
            Err(e) => row_values(grid(rows@), eta@) is None && e == NetError::BadShare,
        },
{
    let ghost g = grid(rows@);
    let ghost f = |k: int| poly_eval_of(g[k], eta@);
    let mut out: Vec<Vec<u8>> = Vec::new();
    let mut k: usize = 0;
    while k < rows.len()
        invariant
            k <= rows@.len(),
            g == grid(rows@),
            f == (|k: int| poly_eval_of(g[k], eta@)),
            out@.len() == k,
            forall|q: int| 0 <= q < k ==> f(q) == Some(#[trigger] out@[q]@),
        decreases rows@.len() - k,
    {
        assert(g[k as int] == encodings(rows@[k as int]@));
        match poly_eval(&rows[k], eta) {
            Some(v) => out.push(v),
            None => {
                proof {
                    lemma_map_opt_none(rows@.len(), f, k as int);
                }
                return Err(NetError::BadShare);
            },
        }
        k = k + 1;
    }
    assert forall|q: int| 0 <= q < rows@.len() implies (#[trigger] f(q)) is Some by {
        assert(f(q) == Some(out@[q]@));
    }
    assert(encodings(out@) =~= Seq::new(rows@.len(), |q: int| f(q)->Some_0));
    Ok(out)
}

/// Row `i` of every polynomial.
fn rows_at(polys: &Vec<Vec<Vec<Vec<u8>>>>, i: usize) -> (r: Vec<Vec<Vec<u8>>>)
    requires
        forall|j: int| 0 <= j < polys@.len() ==> i < (#[trigger] polys@[j])@.len(),
    ensures
        grid(r@) == column_polys(polys_of(polys@), i as int),
{
    let ghost ps = polys_of(polys@);
    let mut out: Vec<Vec<Vec<u8>>> = Vec::new();
    let mut j: usize = 0;
    while j < polys.len()
        invariant
            j <= polys@.len(),
            ps == polys_of(polys@),
            forall|q: int| 0 <= q < polys@.len() ==> i < (#[trigger] polys@[q])@.len(),
            out@.len() == j,
            forall|q: int| 0 <= q < j ==> (#[trigger] grid(out@)[q]) == ps[q][i as int],
        decreases polys@.len() - j,
    {
        let row = polys[j][i].clone();
        assert(encodings(row@) =~= encodings(polys@[j as int]@[i as int]@));
        assert(ps[j as int] == grid(polys@[j as int]@));
        let ghost before = out@;
        out.push(row);
        assert forall|q: int| 0 <= q < j + 1 implies (#[trigger] grid(out@)[q]) == ps[q][i as int] by {
            if q < j {
                assert(out@[q] == before[q]);
                assert(grid(before)[q] == encodings(before[q]@));
            }
        }
        j = j + 1;
    }
    assert(grid(out@) =~= column_polys(ps, i as int));
    out
}

/// `q` cut or filled with zeros to `w` coefficients, appended to `out`.
fn append_padded(out: &mut Vec<Vec<u8>>, q: &Vec<Vec<u8>>, w: usize)
    ensures
        encodings(final(out)@) == encodings(old(out)@) + zero_padded(encodings(q@), w as nat),
{
    let nothing: Vec<u8> = Vec::new();
    let zero = fr_from_le_bytes_mod_order(&nothing);
    assert(nothing@ =~= Seq::<u8>::empty());
    let ghost before = encodings(out@);
    let ghost z = zero_padded(encodings(q@), w as nat);
    let mut c: usize = 0;
    while c < w
        invariant
            c <= w,
            zero@ == fr_zero(),
            z == zero_padded(encodings(q@), w as nat),
            encodings(out@) == before + z.subrange(0, c as int),
        decreases w - c,
    {
        let ghost prev = out@;
        if c < q.len() {
            out.push(q[c].clone());
        } else {
            out.push(zero.clone());
        }
        assert(encodings(out@) =~= encodings(prev).push(z[c as int]));
        c = c + 1;
        assert(encodings(out@) =~= before + z.subrange(0, c as int));
    }
    assert(z.subrange(0, w as int) =~= z);
}

#[verifier::loop_isolation(false)]
fn central_combined_exec(
    polys: &Vec<Vec<Vec<Vec<u8>>>>,
    points: &Vec<Vec<Vec<u8>>>,
    lag: &Vec<Vec<u8>>,
    gs: &Vec<Vec<u8>>,
) -> (r: Result<Vec<Vec<u8>>, NetError>)
    requires
        points@.len() == polys@.len(),
        gs@.len() >= polys@.len(),
        forall|j: int| 0 <= j < polys@.len() ==> (#[trigger] polys@[j])@.len() <= lag@.len(),
    ensures
        match r {
            Ok(v) => central_combined(polys_of(polys@), grid(points@), encodings(lag@), encodings(gs@))
                == Some(encodings(v@)),
            Err(e) => central_combined(polys_of(polys@), grid(points@), encodings(lag@), encodings(gs@))
                is None,
        },
{
    let ghost ps = polys_of(polys@);
    let ghost pt = grid(points@);
    let ghost le = encodings(lag@);
    let ghost f = |j: int| central_slice(ps[j], pt[j], le);
    let m = polys.len();
    let mut slices: Vec<Vec<Vec<u8>>> = Vec::new();
    let mut j: usize = 0;
    while j < m
        invariant
            j <= m,
            slices@.len() == j,
            forall|q: int| 0 <= q < j ==> f(q) == Some(#[trigger] grid(slices@)[q]),
        decreases m - j,
    {
        assert(ps[j as int] == grid(polys@[j as int]@));
        assert(pt[j as int] == encodings(points@[j as int]@));
        let fb = combine_polys(&polys[j], lag);
        let sl = match fb {
            Ok(fb) => {
                let dp = distinct_points(&points[j]);
                divide_by_each(&fb, &dp)
            },
            Err(e) => Err(e),
        };
        match sl {
            Ok(v) => {
                let ghost before = slices@;
                slices.push(v);
                assert forall|q: int| 0 <= q < j + 1 implies f(q) == Some(#[trigger] grid(slices@)[q]) by {
                    assert(grid(slices@)[q] == encodings(slices@[q]@));
                    if q < j {
                        assert(slices@[q] == before[q]);
                        assert(grid(before)[q] == encodings(before[q]@));
                    }
                }
            },
            Err(e) => {
                proof {
                    assert(f(j as int) is None);
                    lemma_map_opt_polys_none(m as nat, f, j as int);
                }
                return Err(NetError::BadShare);
            },
        }
        j = j + 1;
    }
    assert forall|q: int| 0 <= q < m implies (#[trigger] f(q)) is Some by {
        assert(f(q) == Some(grid(slices@)[q]));
    }
    assert(grid(slices@) =~= Seq::new(m as nat, |q: int| f(q)->Some_0));
    assert(grid(slices@) == slices@.map_values(|p: Vec<Vec<u8>>| encodings(p@)));
    combine_polys(&slices, gs)
}

#[verifier::loop_isolation(false)]
fn central_claims_exec(polys: &Vec<Vec<Vec<Vec<u8>>>>, lag: &Vec<Vec<u8>>, eta: &Vec<u8>) -> (r: Result<
    Vec<Vec<u8>>,
    NetError,
>)
    requires
        forall|j: int| 0 <= j < polys@.len() ==> (#[trigger] polys@[j])@.len() <= lag@.len(),
    ensures
        match r {
            Ok(v) => central_claims(polys_of(polys@), encodings(lag@), eta@) == Some(encodings(v@))
                && forall|i: int| 0 <= i < v@.len() ==> (#[trigger] v@[i])@.len() == 32,
            Err(e) => central_claims(polys_of(polys@), encodings(lag@), eta@) is None,
        },
{
    let ghost ps = polys_of(polys@);
    let ghost le = encodings(lag@);
    let ghost f = |j: int| match row_values(ps[j], eta@) {
        Some(vs) => weighted_sum(vs, le),
        None => None,
    };
    let m = polys.len();
    let mut out: Vec<Vec<u8>> = Vec::new();
    let mut j: usize = 0;
    while j < m
        invariant
            j <= m,
            out@.len() == j,
            forall|q: int| 0 <= q < j ==> (#[trigger] out@[q])@.len() == 32,
            forall|q: int| 0 <= q < j ==> f(q) == Some(#[trigger] out@[q]@),
        decreases m - j,
    {
        assert(ps[j as int] == grid(polys@[j as int]@));
        let c = match eval_rows(&polys[j], eta) {
            Ok(vs) => {
                assert(encodings(vs@).len() == vs@.len());
                rlc_scalars(&vs, lag)
            },
            Err(e) => Err(e),
        };
        match c {
            Ok(v) => out.push(v),
            Err(e) => {
                proof {
                    assert(f(j as int) is None);
                    lemma_map_opt_none(m as nat, f, j as int);
                    lemma_map_opt_ext(m as nat, f, |q: int| match row_values(ps[q], eta@) {
                        Some(vs) => weighted_sum(vs, le),
                        None => None,
                    });
                }
                return Err(NetError::BadShare);
            },
        }
        j = j + 1;
    }
    assert forall|q: int| 0 <= q < m implies (#[trigger] f(q)) is Some by {
        assert(f(q) == Some(out@[q]@));
    }
    assert(encodings(out@) =~= Seq::new(m as nat, |q: int| f(q)->Some_0));
    proof {
        lemma_map_opt_ext(m as nat, f, |q: int| match row_values(ps[q], eta@) {
            Some(vs) => weighted_sum(vs, le),
            None => None,
        });
    }
    Ok(out)
}

#[verifier::loop_isolation(false)]
fn central_q1_exec(
    polys: &Vec<Vec<Vec<Vec<u8>>>>,
    ts: &Vec<Vec<u8>>,
    eta: &Vec<u8>,
    r: usize,
    w: usize,
) -> (res: Result<Vec<Vec<u8>>, NetError>)
    requires
        ts@.len() >= polys@.len(),
        forall|j: int| 0 <= j < polys@.len() ==> (#[trigger] polys@[j])@.len() >= r,
    ensures
        match res {
            Ok(v) => central_q1(polys_of(polys@), encodings(ts@), eta@, r as nat, w as nat) == Some(encodings(v@)),
            Err(e) => central_q1(polys_of(polys@), encodings(ts@), eta@, r as nat, w as nat) is None,
        },
{
    let ghost ps = polys_of(polys@);
    let ghost te = encodings(ts@);
    let ghost f = |i: int| row_quotient(ps, te, eta@, i);
    let ghost qs: Seq<Seq<Seq<u8>>> = Seq::empty();
    let mut out: Vec<Vec<u8>> = Vec::new();
    let mut i: usize = 0;
    while i < r
        invariant
            i <= r,
            qs.len() == i,
            forall|q: int| 0 <= q < i ==> f(q) == Some(#[trigger] qs[q]),
            encodings(out@) == Seq::new(i as nat, |q: int| zero_padded(qs[q], w as nat)).flatten_alt(),
        decreases r - i,
    {
        assert forall|j: int| 0 <= j < polys@.len() implies i < (#[trigger] polys@[j])@.len() by {
            assert(polys@[j]@.len() >= r);
        }
        let rows = rows_at(polys, i);
        assert(grid(rows@) == rows@.map_values(|p: Vec<Vec<u8>>| encodings(p@)));
        let q = match combine_polys(&rows, ts) {
            Ok(c) => {
                let mut c = c;
                match divide_by_x_minus_k(&mut c, eta) {
                    Ok(()) => Ok(c),
                    Err(e) => Err(e),
                }
            },
            Err(e) => Err(e),
        };
        match q {
            Ok(q) => {
                let ghost prev = Seq::new(i as nat, |k: int| zero_padded(qs[k], w as nat));
                append_padded(&mut out, &q, w);
                proof {
                    qs = qs.push(encodings(q@));
                    let nxt = Seq::new((i + 1) as nat, |k: int| zero_padded(qs[k], w as nat));
                    assert(nxt.drop_last() =~= prev);
                    assert(nxt.last() == zero_padded(encodings(q@), w as nat));
                }
            },
            Err(e) => {
                proof {
                    assert(f(i as int) is None);
                    lemma_map_opt_polys_none(r as nat, f, i as int);
                }
                return Err(NetError::BadShare);
            },
        }
        i = i + 1;
    }
    assert forall|q: int| 0 <= q < r implies (#[trigger] f(q)) is Some by {
        assert(f(q) == Some(qs[q]));
    }
    assert(qs =~= Seq::new(r as nat, |q: int| f(q)->Some_0));
    Ok(out)
}

#[verifier::loop_isolation(false)]
fn central_q2_exec(
    polys: &Vec<Vec<Vec<Vec<u8>>>>,
    ts: &Vec<Vec<u8>>,
    eta: &Vec<u8>,
    y: &Vec<u8>,
    y_size: usize,
) -> (res: Result<Vec<Vec<u8>>, NetError>)
    requires
        ts@.len() >= polys@.len(),
    ensures
        match res {
            Ok(v) => central_q2(polys_of(polys@), encodings(ts@), eta@, y@, y_size as nat) == Some(encodings(v@)),
            Err(e) => central_q2(polys_of(polys@), encodings(ts@), eta@, y@, y_size as nat) is None,
        },
{
    let ghost ps = polys_of(polys@);
    let ghost f = |j: int| row_values(ps[j], eta@);
    let m = polys.len();
    let mut evs: Vec<Vec<Vec<u8>>> = Vec::new();
    let mut j: usize = 0;
    while j < m
        invariant
            j <= m,
            evs@.len() == j,
            forall|q: int| 0 <= q < j ==> f(q) == Some(#[trigger] grid(evs@)[q]),
        decreases m - j,
    {
        assert(ps[j as int] == grid(polys@[j as int]@));
        match eval_rows(&polys[j], eta) {
            Ok(v) => {
                let ghost before = evs@;
                evs.push(v);
                assert forall|q: int| 0 <= q < j + 1 implies f(q) == Some(#[trigger] grid(evs@)[q]) by {
                    assert(grid(evs@)[q] == encodings(evs@[q]@));
                    if q < j {
                        assert(evs@[q] == before[q]);
                        assert(grid(before)[q] == encodings(before[q]@));
                    }
                }
            },
            Err(e) => {
                proof {
                    lemma_map_opt_polys_none(m as nat, f, j as int);
                }
                return Err(NetError::BadShare);
            },
        }
        j = j + 1;
    }
    assert forall|q: int| 0 <= q < m implies (#[trigger] f(q)) is Some by {
        assert(f(q) == Some(grid(evs@)[q]));
    }
    assert(grid(evs@) =~= Seq::new(m as nat, |q: int| f(q)->Some_0));
    assert(grid(evs@) == evs@.map_values(|p: Vec<Vec<u8>>| encodings(p@)));
    let c = match combine_polys(&evs, ts) {
        Ok(c) => c,
        Err(e) => {
            return Err(e);
        },
    };
    get_quotient_eval_lagrange(&c, y, y_size)
}

pub open spec fn same_y_proof_view(p: SameYProof) -> (Seq<u8>, Seq<Seq<u8>>, Seq<u8>, Seq<u8>, Seq<u8>, Seq<u8>) {
    (p.proof_q@, encodings(p.evals_eta_beta@), p.eval_q@, p.proof_q1_q2.0@, p.proof_q1_q2.1@, p.proof_q3@)
}

/// The opening at a common `y_point` of the polynomials `polynomials` (each a
/// list of rows, row `i` paired with the Lagrange polynomial `i` of the `Y`
/// domain for `y_domain_size` points), polynomial `j` at the points
/// `x_points[j]`, combined with the powers of `challenge`. The challenges
/// `eta` and `theta` come from `transcript`, as in the distributed opening;
/// `x_width` is the number of coefficients per row in `xy_srs`.
#[verifier::loop_isolation(false)]
pub fn open_lagrange_at_same_y(
    xy_srs: &Vec<Vec<u8>>,
    x_srs: &Vec<Vec<u8>>,
    y_srs: &Vec<Vec<u8>>,
    polynomials: &Vec<Vec<Vec<Vec<u8>>>>,
    x_points: &Vec<Vec<Vec<u8>>>,
    y_point: &Vec<u8>,
    x_width: usize,
    y_domain_size: usize,
    transcript: &mut FsTranscript,
    challenge: &Vec<u8>,
) -> (r: Result<SameYProof, NetError>)
    requires
        ops_fit(old(transcript).absorbed()),
    ensures
        final(transcript).domain() == old(transcript).domain(),
        ({
            let spec_r = central_same_y_of(
                encodings(xy_srs@),
                encodings(x_srs@),
                encodings(y_srs@),
                polys_of(polynomials@),
                grid(x_points@),
                y_point@,
                x_width as nat,
                y_domain_size as nat,
                challenge@,
                old(transcript).domain(),
                old(transcript).absorbed(),
            );
            match r {
                Ok(p) => spec_r == Some(same_y_proof_view(p)) && final(transcript).absorbed()
                    == history_for_theta(
                    old(transcript).absorbed(),
                    p.proof_q@,
                    encodings(p.evals_eta_beta@),
                    p.eval_q@,
                ).push(Absorbed::Challenge(label_theta(), 64)),
                Err(_) => spec_r is None,
            }
        }),
{
    let ghost ps = polys_of(polynomials@);
    let ghost pt = grid(x_points@);
    let ghost d = transcript.domain();
    let ghost start = transcript.absorbed();
    let m = polynomials.len();
    let lag = match lagrange_coefficients(y_domain_size, y_point) {
        Some(l) => l,
        None => {
            return Err(NetError::BadShare);
        },
    };
    let gs = match generate_powers(challenge, m) {
        Ok(v) => v,
        Err(e) => {
            return Err(e);
        },
    };
    let ghost le = encodings(lag@);
    let ghost ge = encodings(gs@);
    assert(le.len() == lag@.len());
    assert(Some(ge) == powers_list(challenge@, m as nat)) by {
        assert(ge =~= Seq::new(m as nat, |i: int| power_of(challenge@, i as nat)->Some_0));
    }
    if x_points.len() != m {
        return Err(NetError::WrongLength);
    }
    let rr = y_srs.len();
    assert(encodings(y_srs@).len() == rr);
    let mut j: usize = 0;
    while j < m
        invariant
            j <= m,
            forall|q: int| 0 <= q < j ==> (#[trigger] polynomials@[q])@.len() <= lag@.len()
                && polynomials@[q]@.len() >= rr,
        decreases m - j,
    {
        if polynomials[j].len() > lag.len() || polynomials[j].len() < rr {
            assert(ps[j as int] == grid(polynomials@[j as int]@));
            return Err(NetError::WrongLength);
        }
        j = j + 1;
    }
    assert(central_shape(ps, pt, le.len(), rr as nat)) by {
        assert forall|q: int| 0 <= q < ps.len() implies #[trigger] ps[q].len() <= le.len() && ps[q].len() >= rr by {
            assert(ps[q] == grid(polynomials@[q]@));
        }
    }
    let combined = central_combined_exec(polynomials, x_points, &lag, &gs)?;
    let ghost ce = encodings(combined@);
    let proof_q = match g1_msm(x_srs, &combined) {
        Some(p) => p,
        None => {
            return Err(NetError::BadShare);
        },
    };
    transcript.append_point("combined_polynomial_x_beta".as_bytes(), &proof_q);
    let eta = transcript.challenge_scalar("random_evaluate_point".as_bytes());
    let claims = central_claims_exec(polynomials, &lag, &eta)?;
    let eval_q = match poly_eval(&combined, &eta) {
        Some(v) => v,
        None => {
            return Err(NetError::BadShare);
        },
    };
    let mut scalars = claims.clone();
    assert(encodings(scalars@) =~= encodings(claims@));
    scalars.push(eval_q.clone());
    assert(encodings(scalars@) =~= encodings(claims@).push(eval_q@));
    transcript.append_scalars("combined_polynomial_x_beta".as_bytes(), &scalars);
    let theta = transcript.challenge_scalar("batch_kzg_rlc_challenge".as_bytes());
    let ts = match generate_powers(&theta, m) {
        Ok(v) => v,
        Err(e) => {
            return Err(e);
        },
    };
    assert(Some(encodings(ts@)) == powers_list(theta@, m as nat)) by {
        assert(encodings(ts@) =~= Seq::new(m as nat, |i: int| power_of(theta@, i as nat)->Some_0));
    }
    let c1 = central_q1_exec(polynomials, &ts, &eta, rr, x_width)?;
    let c2 = central_q2_exec(polynomials, &ts, &eta, y_point, y_domain_size)?;
    let mut q3 = combined.clone();
    assert(encodings(q3@) =~= ce);
    divide_by_x_minus_k(&mut q3, &eta)?;
    let w1 = g1_msm(xy_srs, &c1);
    let w2 = g1_msm(y_srs, &c2);
    let w3 = g1_msm(x_srs, &q3);
    match (w1, w2, w3) {
        (Some(w1), Some(w2), Some(w3)) => Ok(SameYProof {
            proof_q,
            evals_eta_beta: claims,
            eval_q,
            proof_q1_q2: (w1, w2),
            proof_q3: w3,
        }),
        _ => Err(NetError::BadShare),
    }
}

/// Party `p`'s second-round values in the opening at a common `y`: row `p`
/// of each polynomial at `eta`, times the party's Lagrange value `lag[p]`.
pub open spec fn party_claims(polys: Seq<Seq<Seq<Seq<u8>>>>, lag: Seq<Seq<u8>>, eta: Seq<u8>, p: int) -> Seq<
    Seq<u8>,
> {
    Seq::new(
        polys.len(),
        |j: int| fr_mul_of(poly_eval_of(polys[j][p], eta)->Some_0, lag[p])->Some_0,
    )
}

/// The claimed values agree: at one `eta`, the master's sums over the `n`
/// parties of their second-round values are the central opening's claimed
/// values, where every row value and product is defined. (That both openings
/// squeeze the same `eta` rests on their first commitments being equal, which
/// is the linearity of the MSM and is not stated here.)
pub proof fn lemma_same_y_claims_match(polys: Seq<Seq<Seq<Seq<u8>>>>, lag: Seq<Seq<u8>>, eta: Seq<u8>)
    requires
        polys.len() > 0,
        polys[0].len() > 0,
        lag.len() >= polys[0].len(),
        forall|j: int| 0 <= j < polys.len() ==> (#[trigger] polys[j]).len() == polys[0].len(),
        forall|j: int, k: int|
            0 <= j < polys.len() && 0 <= k < polys[0].len() ==> (#[trigger] poly_eval_of(polys[j][k], eta))
                is Some && fr_mul_of(poly_eval_of(polys[j][k], eta)->Some_0, lag[k]) is Some,
    ensures
        ({
            let g = Seq::new(polys[0].len(), |p: int| party_claims(polys, lag, eta, p));
            &&& summable(g, fr_sum_fn()) ==> central_claims(polys, lag, eta) == Some(
                column_sums(g, fr_sum_fn()),
            )
            &&& !summable(g, fr_sum_fn()) ==> central_claims(polys, lag, eta) is None
        }),
{
    let n = polys[0].len();
    let m = polys.len();
    let g = Seq::new(n, |p: int| party_claims(polys, lag, eta, p));
    let f = |j: int| match row_values(polys[j], eta) {
        Some(vs) => weighted_sum(vs, lag),
        None => None,
    };
    assert forall|j: int| 0 <= j < m implies #[trigger] f(j) == fr_sum_of(column(g, j)) by {
        let rv = |k: int| poly_eval_of(polys[j][k], eta);
        assert forall|k: int| 0 <= k < polys[j].len() implies (#[trigger] rv(k)) is Some by {
            assert(poly_eval_of(polys[j][k], eta) is Some);
        }
        let vs = Seq::new(polys[j].len(), |k: int| rv(k)->Some_0);
        assert(row_values(polys[j], eta) == Some(vs));
        assert forall|k: int| 0 <= k < vs.len() implies (#[trigger] fr_mul_of(vs[k], lag[k])) is Some by {
            assert(poly_eval_of(polys[j][k], eta) is Some);
        }
        assert(Seq::new(vs.len(), |k: int| fr_mul_of(vs[k], lag[k])->Some_0) =~= column(g, j));
    }
    assert(same_width(g, g[0].len())) by {
        assert(g[0].len() == m);
    }
    if summable(g, fr_sum_fn()) {
        assert forall|j: int| 0 <= j < m implies (#[trigger] f(j)) is Some by {
            assert(fr_sum_fn()(column(g, j)) is Some);
        }
        assert(Seq::new(m, |j: int| f(j)->Some_0) =~= column_sums(g, fr_sum_fn()));
    } else {
        let j = choose|j: int| 0 <= j < g[0].len() && !((#[trigger] fr_sum_fn()(column(g, j))) is Some);
        lemma_map_opt_none(m, f, j);
    }
    lemma_map_opt_ext(m, f, |j: int| match row_values(polys[j], eta) {
        Some(vs) => weighted_sum(vs, lag),
        None => None,
    });
}

} // verus!
