//! The quotient step of a KZG opening of a polynomial given by its values
//! over an evaluation domain, as the master runs it on the parties' summed
//! evaluations.

use vstd::prelude::*;

use crate::algebra::{
    batch_inverse, batch_inverse_of, domain_elements, domain_elements_of, domain_generator,
    domain_generator_of, domain_size_scalar, domain_size_scalar_of, encodings, fr_from_le_bytes_mod_order,
    fr_from_le_of, fr_inverse, fr_inverse_of, fr_mul, fr_mul_of, fr_pow, fr_pow_of, fr_sub, fr_sub_of,
    fr_sum, fr_sum_of, lagrange_coefficients, lagrange_coefficients_of, opt_encodings, vanishing_eval,
    vanishing_eval_of,
};
use crate::error::NetError;
use crate::poly::{fr_one, generate_powers, power_of};

verus! {

/// The list `f(0), .., f(n - 1)` where every entry is defined.
pub open spec fn map_opt(n: nat, f: spec_fn(int) -> Option<Seq<u8>>) -> Option<Seq<Seq<u8>>> {
    if forall|i: int| 0 <= i < n ==> (#[trigger] f(i)) is Some {
        Some(Seq::new(n, |i: int| f(i)->Some_0))
    } else {
        None
    }
}

/// One undefined entry leaves the whole list undefined.
pub proof fn lemma_map_opt_none(n: nat, f: spec_fn(int) -> Option<Seq<u8>>, i: int)
    requires
        0 <= i < n,
        f(i) is None,
    ensures
        map_opt(n, f) is None,
{
}

pub proof fn lemma_map_opt_ext(n: nat, f: spec_fn(int) -> Option<Seq<u8>>, g: spec_fn(int) -> Option<Seq<u8>>)
    requires
        forall|i: int| 0 <= i < n ==> #[trigger] f(i) == g(i),
    ensures
        map_opt(n, f) == map_opt(n, g),
{
    if forall|i: int| 0 <= i < n ==> (#[trigger] f(i)) is Some {
        assert forall|i: int| 0 <= i < n implies (#[trigger] g(i)) is Some by {
            assert(f(i) is Some);
        }
        assert(Seq::new(n, |i: int| f(i)->Some_0) =~= Seq::new(n, |i: int| g(i)->Some_0));
    } else {
        let i = choose|i: int| 0 <= i < n && !((#[trigger] f(i)) is Some);
        assert(!(g(i) is Some));
    }
}

/// `x - c` for each entry `x` of `xs`.
pub(crate) fn sub_from_each(xs: &Vec<Vec<u8>>, c: &Vec<u8>) -> (r: Result<Vec<Vec<u8>>, NetError>)
    ensures
        opt_encodings(r.ok()) == map_opt(xs@.len(), |i: int| fr_sub_of(xs@[i]@, c@)),
        r matches Err(e) ==> e == NetError::BadShare,
{
    let ghost f = |i: int| fr_sub_of(xs@[i]@, c@);
    let mut out: Vec<Vec<u8>> = Vec::new();
    let mut i: usize = 0;
    while i < xs.len()
        invariant
            i <= xs@.len(),
            f == (|i: int| fr_sub_of(xs@[i]@, c@)),
            out@.len() == i,
            forall|k: int| 0 <= k < i ==> f(k) == Some(#[trigger] out@[k]@),
        decreases xs@.len() - i,
    {
        match fr_sub(&xs[i], c) {
            Some(v) => out.push(v),
            None => {
                assert(f(i as int) is None);
                return Err(NetError::BadShare);
            },
        }
        i = i + 1;
    }
    assert forall|k: int| 0 <= k < xs@.len() implies (#[trigger] f(k)) is Some by {
        assert(f(k) == Some(out@[k]@));
    }
    assert(encodings(out@) =~= Seq::new(xs@.len(), |k: int| f(k)->Some_0));
    Ok(out)
}

/// `c - x` for each entry `x` of `xs`.
fn sub_each_from(xs: &Vec<Vec<u8>>, c: &Vec<u8>) -> (r: Result<Vec<Vec<u8>>, NetError>)
    ensures
        opt_encodings(r.ok()) == map_opt(xs@.len(), |i: int| fr_sub_of(c@, xs@[i]@)),
        r matches Err(e) ==> e == NetError::BadShare,
{
    let ghost f = |i: int| fr_sub_of(c@, xs@[i]@);
    let mut out: Vec<Vec<u8>> = Vec::new();
    let mut i: usize = 0;
    while i < xs.len()
        invariant
            i <= xs@.len(),
            f == (|i: int| fr_sub_of(c@, xs@[i]@)),
            out@.len() == i,
            forall|k: int| 0 <= k < i ==> f(k) == Some(#[trigger] out@[k]@),
        decreases xs@.len() - i,
    {
        match fr_sub(c, &xs[i]) {
            Some(v) => out.push(v),
            None => {
                assert(f(i as int) is None);
                return Err(NetError::BadShare);
            },
        }
        i = i + 1;
    }
    assert forall|k: int| 0 <= k < xs@.len() implies (#[trigger] f(k)) is Some by {
        assert(f(k) == Some(out@[k]@));
    }
    assert(encodings(out@) =~= Seq::new(xs@.len(), |k: int| f(k)->Some_0));
    Ok(out)
}

/// `xs[i] * ys[i]` for each `i < xs.len()`.
fn mul_each(xs: &Vec<Vec<u8>>, ys: &Vec<Vec<u8>>) -> (r: Result<Vec<Vec<u8>>, NetError>)
    requires
        ys@.len() >= xs@.len(),
    ensures
        opt_encodings(r.ok()) == map_opt(xs@.len(), |i: int| fr_mul_of(xs@[i]@, ys@[i]@)),
        r matches Err(e) ==> e == NetError::BadShare,
{
    let ghost f = |i: int| fr_mul_of(xs@[i]@, ys@[i]@);
    let mut out: Vec<Vec<u8>> = Vec::new();
    let mut i: usize = 0;
    while i < xs.len()
        invariant
            i <= xs@.len() <= ys@.len(),
            f == (|i: int| fr_mul_of(xs@[i]@, ys@[i]@)),
            out@.len() == i,
            forall|k: int| 0 <= k < i ==> f(k) == Some(#[trigger] out@[k]@),
        decreases xs@.len() - i,
    {
        match fr_mul(&xs[i], &ys[i]) {
            Some(v) => out.push(v),
            None => {
                assert(f(i as int) is None);
                return Err(NetError::BadShare);
            },
        }
        i = i + 1;
    }
    assert forall|k: int| 0 <= k < xs@.len() implies (#[trigger] f(k)) is Some by {
        assert(f(k) == Some(out@[k]@));
    }
    assert(encodings(out@) =~= Seq::new(xs@.len(), |k: int| f(k)->Some_0));
    Ok(out)
}

/// The scalar zero: the empty number reduced into Fr.
pub open spec fn fr_zero() -> Seq<u8> {
    fr_from_le_of(Seq::empty())
}

/// The quotient values where the point lies outside the domain: with `v` the
/// value at the point interpolated through the Lagrange coefficients, entry
/// `i` is `(evals[i] - v) / (w_i - point)` for the domain element `w_i`.
pub open spec fn quotient_outside(evals: Seq<Seq<u8>>, point: Seq<u8>, size: nat) -> Option<
    Seq<Seq<u8>>,
> {
    let n = evals.len();
    match (lagrange_coefficients_of(size, point), domain_elements_of(size)) {
        (Some(lag), Some(elems)) => if lag.len() != n || elems.len() != n {
            None
        } else {
            match (
                map_opt(n, |i: int| fr_mul_of(evals[i], lag[i])),
                map_opt(n, |i: int| fr_sub_of(elems[i], point)),
            ) {
                (Some(prods), Some(diffs)) => match (fr_sum_of(prods), batch_inverse_of(diffs)) {
                    (Some(v), Some(inv)) => if inv.len() != n {
                        None
                    } else {
                        match map_opt(n, |i: int| fr_sub_of(evals[i], v)) {
                            Some(ups) => map_opt(n, |i: int| fr_mul_of(ups[i], inv[i])),
                            None => None,
                        }
                    },
                    _ => None,
                },
                _ => None,
            }
        },
        _ => None,
    }
}

/// The quotient values where the point is a domain element: with `g` the
/// generator, the value at the point is
/// `(point^|D| - 1) / |D| * sum_i evals[i] * g^i / (point - g^i)`, and entry
/// `i` is `(that - evals[i]) / (point - g^i)`.
pub open spec fn quotient_inside(evals: Seq<Seq<u8>>, point: Seq<u8>, size: nat) -> Option<
    Seq<Seq<u8>>,
> {
    let n = evals.len();
    match (domain_generator_of(size), domain_elements_of(size), domain_size_scalar_of(size)) {
        (Some(g), Some(elems), Some(sz)) => if !(forall|i: nat| i < n ==> (#[trigger] power_of(
            g,
            i,
        )) is Some) {
            None
        } else {
            let gp = Seq::new(n, |i: int| power_of(g, i as nat)->Some_0);
            match map_opt(n, |i: int| fr_sub_of(point, gp[i])) {
                Some(diffs) => match batch_inverse_of(diffs) {
                    Some(inv) => if inv.len() != n {
                        None
                    } else {
                        match (fr_pow_of(point, elems.len()), fr_inverse_of(sz)) {
                            (Some(pw), Some(isz)) => match fr_sub_of(pw, fr_one()) {
                                Some(c0) => match (
                                    fr_mul_of(c0, isz),
                                    map_opt(n, |i: int| fr_mul_of(evals[i], gp[i])),
                                ) {
                                    (Some(c), Some(eg)) => match map_opt(
                                        n,
                                        |i: int| fr_mul_of(eg[i], inv[i]),
                                    ) {
                                        Some(terms) => match fr_sum_of(terms) {
                                            Some(sum) => match fr_mul_of(c, sum) {
                                                Some(pz) => match map_opt(
                                                    n,
                                                    |i: int| fr_sub_of(pz, evals[i]),
                                                ) {
                                                    Some(ups) => map_opt(
                                                        n,
                                                        |i: int| fr_mul_of(ups[i], inv[i]),
                                                    ),
                                                    None => None,
                                                },
                                                None => None,
                                            },
                                            None => None,
                                        },
                                        None => None,
                                    },
                                    _ => None,
                                },
                                None => None,
                            },
                            _ => None,
                        }
                    },
                    None => None,
                },
                None => None,
            }
        },
        _ => None,
    }
}

/// The quotient values of a KZG opening at `point` of the polynomial whose
/// values over the domain for `size` points are `evals`.
pub open spec fn quotient_evals(evals: Seq<Seq<u8>>, point: Seq<u8>, size: nat) -> Option<
    Seq<Seq<u8>>,
> {
    match vanishing_eval_of(size, point) {
        Some(z) => if z == fr_zero() {
            quotient_inside(evals, point, size)
        } else {
            quotient_outside(evals, point, size)
        },
        None => None,
    }
}

/// `sum_i xs[i]`.
fn sum_all(xs: &Vec<Vec<u8>>) -> (r: Result<Vec<u8>, NetError>)
    ensures
        match r {
            Ok(v) => fr_sum_of(encodings(xs@)) == Some(v@),
            Err(e) => fr_sum_of(encodings(xs@)) is None && e == NetError::BadShare,
        },
{
    match fr_sum(xs) {
        Some(v) => Ok(v),
        None => Err(NetError::BadShare),
    }
}

/// The outside-the-domain case of `get_quotient_eval_lagrange`.
fn quotient_outside_exec(evals: &Vec<Vec<u8>>, point: &Vec<u8>, size: usize) -> (r: Result<
    Vec<Vec<u8>>,
    NetError,
>)
    ensures
        opt_encodings(r.ok()) == quotient_outside(encodings(evals@), point@, size as nat),
        r matches Err(e) ==> e == NetError::BadShare,
{
    let ghost ev = encodings(evals@);
    let n = evals.len();
    let lag = match lagrange_coefficients(size, point) {
        Some(l) => l,
        None => {
            return Err(NetError::BadShare);
        },
    };
    let elems = match domain_elements(size) {
        Some(e) => e,
        None => {
            return Err(NetError::BadShare);
        },
    };
    if lag.len() != n || elems.len() != n {
        return Err(NetError::BadShare);
    }
    let ghost l = encodings(lag@);
    let ghost el = encodings(elems@);
    let prods = mul_each(evals, &lag);
    proof {
        lemma_map_opt_ext(n as nat, |i: int| fr_mul_of(evals@[i]@, lag@[i]@), |i: int| fr_mul_of(ev[i], l[i]));
    }
    let diffs = sub_from_each(&elems, point);
    proof {
        lemma_map_opt_ext(
            n as nat,
            |i: int| fr_sub_of(elems@[i]@, point@),
            |i: int| fr_sub_of(el[i], point@),
        );
    }
    let (prods, diffs) = match (prods, diffs) {
        (Ok(p), Ok(d)) => (p, d),
        _ => {
            return Err(NetError::BadShare);
        },
    };
    assert(map_opt(n as nat, |i: int| fr_mul_of(ev[i], l[i])) == Some(encodings(prods@)));
    assert(map_opt(n as nat, |i: int| fr_sub_of(el[i], point@)) == Some(encodings(diffs@)));
    let v = sum_all(&prods);
    let inv = batch_inverse(&diffs);
    let (v, inv) = match (v, inv) {
        (Ok(v), Some(i)) => (v, i),
        _ => {
            return Err(NetError::BadShare);
        },
    };
    if inv.len() != n {
        return Err(NetError::BadShare);
    }
    let ups = match sub_from_each(evals, &v) {
        Ok(u) => u,
        Err(e) => {
            proof {
                lemma_map_opt_ext(
                    n as nat,
                    |i: int| fr_sub_of(evals@[i]@, v@),
                    |i: int| fr_sub_of(ev[i], v@),
                );
            }
            return Err(e);
        },
    };
    proof {
        lemma_map_opt_ext(
            n as nat,
            |i: int| fr_sub_of(evals@[i]@, v@),
            |i: int| fr_sub_of(ev[i], v@),
        );
    }
    assert(encodings(ups@).len() == ups@.len());
    assert(encodings(inv@).len() == inv@.len());
    assert(map_opt(n as nat, |i: int| fr_sub_of(ev[i], v@)) == Some(encodings(ups@)));
    let r = mul_each(&ups, &inv);
    proof {
        let iv = encodings(inv@);
        let u = encodings(ups@);
        lemma_map_opt_ext(n as nat, |i: int| fr_mul_of(ups@[i]@, inv@[i]@), |i: int| fr_mul_of(u[i], iv[i]));
    }
    r
}

/// The inside-the-domain case of `get_quotient_eval_lagrange`.
fn quotient_inside_exec(evals: &Vec<Vec<u8>>, point: &Vec<u8>, size: usize) -> (r: Result<
    Vec<Vec<u8>>,
    NetError,
>)
    ensures
        opt_encodings(r.ok()) == quotient_inside(encodings(evals@), point@, size as nat),
        r matches Err(e) ==> e == NetError::BadShare,
{
    let ghost ev = encodings(evals@);
    let n = evals.len();
    let (g, elems, sz) = match (domain_generator(size), domain_elements(size), domain_size_scalar(size)) {
        (Some(g), Some(e), Some(z)) => (g, e, z),
        _ => {
            return Err(NetError::BadShare);
        },
    };
    assert(encodings(elems@).len() == elems@.len());
    let gp = match generate_powers(&g, n) {
        Ok(p) => p,
        Err(e) => {
            return Err(e);
        },
    };
    let ghost gps = encodings(gp@);
    assert(gps =~= Seq::new(n as nat, |i: int| power_of(g@, i as nat)->Some_0));
    let diffs = match sub_each_from(&gp, point) {
        Ok(d) => d,
        Err(e) => {
            proof {
                lemma_map_opt_ext(n as nat, |i: int| fr_sub_of(point@, gp@[i]@), |i: int| fr_sub_of(point@, gps[i]));
            }
            return Err(e);
        },
    };
    proof {
        lemma_map_opt_ext(n as nat, |i: int| fr_sub_of(point@, gp@[i]@), |i: int| fr_sub_of(point@, gps[i]));
    }
    let inv = match batch_inverse(&diffs) {
        Some(i) => i,
        None => {
            return Err(NetError::BadShare);
        },
    };
    if inv.len() != n {
        assert(encodings(inv@).len() == inv@.len());
        return Err(NetError::BadShare);
    }
    let ghost iv = encodings(inv@);
    let (pw, isz) = match (fr_pow(point, elems.len() as u64), fr_inverse(&sz)) {
        (Some(p), Some(z)) => (p, z),
        _ => {
            return Err(NetError::BadShare);
        },
    };
    let mut unit: Vec<u8> = Vec::new();
    unit.push(1u8);
    let one = fr_from_le_bytes_mod_order(&unit);
    assert(one@ == fr_one()) by {
        assert(unit@ =~= seq![1u8]);
    }
    let c0 = match fr_sub(&pw, &one) {
        Some(c) => c,
        None => {
            return Err(NetError::BadShare);
        },
    };
    let c = fr_mul(&c0, &isz);
    let eg = mul_each(evals, &gp);
    proof {
        lemma_map_opt_ext(n as nat, |i: int| fr_mul_of(evals@[i]@, gp@[i]@), |i: int| fr_mul_of(ev[i], gps[i]));
    }
    let (c, eg) = match (c, eg) {
        (Some(c), Ok(e)) => (c, e),
        _ => {
            return Err(NetError::BadShare);
        },
    };
    let ghost egs = encodings(eg@);
    assert(egs.len() == n);
    let terms = mul_each(&eg, &inv);
    proof {
        lemma_map_opt_ext(n as nat, |i: int| fr_mul_of(eg@[i]@, inv@[i]@), |i: int| fr_mul_of(egs[i], iv[i]));
    }
    let terms = match terms {
        Ok(t) => t,
        Err(e) => {
            return Err(e);
        },
    };
    let sum = match sum_all(&terms) {
        Ok(v) => v,
        Err(e) => {
            return Err(e);
        },
    };
    let pz = match fr_mul(&c, &sum) {
        Some(p) => p,
        None => {
            return Err(NetError::BadShare);
        },
    };
    let ups = sub_each_from(evals, &pz);
    proof {
        lemma_map_opt_ext(n as nat, |i: int| fr_sub_of(pz@, evals@[i]@), |i: int| fr_sub_of(pz@, ev[i]));
    }
    let ups = match ups {
        Ok(u) => u,
        Err(e) => {
            return Err(e);
        },
    };
    let ghost us = encodings(ups@);
    assert(us.len() == ups@.len());
    let r = mul_each(&ups, &inv);
    proof {
        lemma_map_opt_ext(n as nat, |i: int| fr_mul_of(ups@[i]@, inv@[i]@), |i: int| fr_mul_of(us[i], iv[i]));
    }
    r
}

/// The quotient values of a KZG opening at `point` of the polynomial whose
/// values over the evaluation domain for `domain_size` points are `evals`.
pub fn get_quotient_eval_lagrange(evals: &Vec<Vec<u8>>, point: &Vec<u8>, domain_size: usize) -> (r:
    Result<Vec<Vec<u8>>, NetError>)
    ensures
        opt_encodings(r.ok()) == quotient_evals(encodings(evals@), point@, domain_size as nat),
        r matches Err(e) ==> e == NetError::BadShare,
{
    let z = match vanishing_eval(domain_size, point) {
        Some(z) => z,
        None => {
            return Err(NetError::BadShare);
        },
    };
    let nothing: Vec<u8> = Vec::new();
    let zero = fr_from_le_bytes_mod_order(&nothing);
    assert(zero@ == fr_zero()) by {
        assert(nothing@ =~= Seq::<u8>::empty());
    }
    if bytes_equal(&z, &zero) {
        quotient_inside_exec(evals, point, domain_size)
    } else {
        quotient_outside_exec(evals, point, domain_size)
    }
}

fn bytes_equal(a: &Vec<u8>, b: &Vec<u8>) -> (r: bool)
    ensures
        r == (a@ == b@),
{
    if a.len() != b.len() {
        return false;
    }
    let mut i: usize = 0;
    while i < a.len()
        invariant
            i <= a@.len() == b@.len(),
            forall|k: int| 0 <= k < i ==> a@[k] == b@[k],
        decreases a@.len() - i,
    {
        if a[i] != b[i] {
            return false;
        }
        i = i + 1;
    }
    assert(a@ =~= b@);
    true
}

} // verus!
