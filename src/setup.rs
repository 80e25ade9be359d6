//! The structured reference string of the Lagrange-in-`Y` bivariate scheme,
//! from the secret scalars `alpha` (for `X`) and `beta` (for `Y`), which the
//! caller draws.

use vstd::prelude::*;

use crate::algebra::{
    encodings, g1_scalar_muls, g1_scalar_muls_of, g2_msm, g2_msm_of, lagrange_coefficients,
    lagrange_coefficients_of,
};
use crate::error::NetError;
use crate::opening::powers_list;
use crate::poly::{generate_powers, power_of};
use crate::verify::VerifierKey;

verus! {

/// The reference string: `xy_srs` holds, row by row, `alpha^k * L_i(beta) * g`;
/// `x_srs` holds `alpha^k * g`; `y_srs` holds `L_i(beta) * g`.
pub struct LagrangeSetup {
    pub xy_srs: Vec<Vec<u8>>,
    pub x_srs: Vec<Vec<u8>>,
    pub y_srs: Vec<Vec<u8>>,
    pub vk: VerifierKey,
}

/// The chunks `scalar_muls(rows[i], pa)`, one after another.
pub open spec fn rows_of_powers(rows: Seq<Seq<u8>>, pa: Seq<Seq<u8>>) -> Option<Seq<Seq<u8>>>
    decreases rows.len(),
{
    if rows.len() == 0 {
        Some(Seq::empty())
    } else {
        match (rows_of_powers(rows.drop_last(), pa), g1_scalar_muls_of(rows.last(), pa)) {
            (Some(head), Some(tail)) => Some(head + tail),
            _ => None,
        }
    }
}

/// The reference string for polynomials of degree `x_degree` in `X` over the
/// evaluation domain for `domain_size` points in `Y`, which must have
/// `y_degree + 1` elements.
pub open spec fn lagrange_setup_of(
    g: Seq<u8>,
    h: Seq<u8>,
    alpha: Seq<u8>,
    beta: Seq<u8>,
    x_degree: nat,
    y_degree: nat,
    size: nat,
) -> Option<(Seq<Seq<u8>>, Seq<Seq<u8>>, Seq<Seq<u8>>, Seq<u8>, Seq<u8>)> {
    match (lagrange_coefficients_of(size, beta), powers_list(alpha, x_degree + 1)) {
        (Some(lag), Some(pa)) => if lag.len() != y_degree + 1 {
            None
        } else {
            match g1_scalar_muls_of(g, lag) {
                Some(y_srs) => match (
                    rows_of_powers(y_srs, pa),
                    g1_scalar_muls_of(g, pa),
                    g2_msm_of(seq![h], seq![alpha]),
                    g2_msm_of(seq![h], seq![beta]),
                ) {
                    (Some(xy), Some(x_srs), Some(ha), Some(hb)) => Some((xy, x_srs, y_srs, ha, hb)),
                    _ => None,
                },
                None => None,
            }
        },
        _ => None,
    }
}

fn single(a: &Vec<u8>) -> (r: Vec<Vec<u8>>)
    ensures
        encodings(r@) == seq![a@],
{
    let mut v: Vec<Vec<u8>> = Vec::new();
    v.push(a.clone());
    assert(encodings(v@) =~= seq![a@]);
    v
}

/// The reference string and verifier key of the Lagrange-in-`Y` scheme for
/// the generators `g` (G1) and `h` (G2) and the secrets `alpha` and `beta`.
pub fn setup_lagrange(
    g: &Vec<u8>,
    h: &Vec<u8>,
    alpha: &Vec<u8>,
    beta: &Vec<u8>,
    x_degree: usize,
    y_degree: usize,
    domain_size: usize,
) -> (r: Result<LagrangeSetup, NetError>)
    ensures
        x_degree == usize::MAX ==> r is Err,
        x_degree < usize::MAX ==> match lagrange_setup_of(
            g@,
            h@,
            alpha@,
            beta@,
            x_degree as nat,
            y_degree as nat,
            domain_size as nat,
        ) {
            Some(t) => r matches Ok(s) && {
                &&& encodings(s.xy_srs@) == t.0
                &&& encodings(s.x_srs@) == t.1
                &&& encodings(s.y_srs@) == t.2
                &&& s.vk.g@ == g@
                &&& s.vk.h@ == h@
                &&& s.vk.h_alpha@ == t.3
                &&& s.vk.h_beta@ == t.4
            },
            None => r is Err,
        },
{
    if x_degree == usize::MAX {
        return Err(NetError::WrongLength);
    }
    let lag = match lagrange_coefficients(domain_size, beta) {
        Some(l) => l,
        None => {
            return Err(NetError::BadShare);
        },
    };
    let pa = match generate_powers(alpha, x_degree + 1) {
        Ok(p) => p,
        Err(e) => {
            return Err(e);
        },
    };
    assert(Some(encodings(pa@)) == powers_list(alpha@, (x_degree + 1) as nat)) by {
        assert(encodings(pa@) =~= Seq::new((x_degree + 1) as nat, |i: int| power_of(alpha@, i as nat)->Some_0));
    }
    assert(encodings(lag@).len() == lag@.len());
    if lag.len() == 0 || lag.len() - 1 != y_degree {
        return Err(NetError::WrongLength);
    }
    let y_srs = match g1_scalar_muls(g, &lag) {
        Some(v) => v,
        None => {
            return Err(NetError::BadShare);
        },
    };
    let ghost ys = encodings(y_srs@);
    let ghost pae = encodings(pa@);
    let mut xy: Vec<Vec<u8>> = Vec::new();
    let mut i: usize = 0;
    while i < y_srs.len()
        invariant
            i <= y_srs@.len(),
            ys == encodings(y_srs@),
            pae == encodings(pa@),
            x_degree < usize::MAX,
            lagrange_coefficients_of(domain_size as nat, beta@) == Some(encodings(lag@)),
            encodings(lag@).len() == y_degree + 1,
            Some(pae) == powers_list(alpha@, (x_degree + 1) as nat),
            g1_scalar_muls_of(g@, encodings(lag@)) == Some(ys),
            rows_of_powers(ys.subrange(0, i as int), pae) == Some(encodings(xy@)),
        decreases y_srs@.len() - i,
    {
        let ghost pre = ys.subrange(0, i as int);
        let ghost post = ys.subrange(0, i + 1);
        assert(post.drop_last() =~= pre);
        assert(post.last() == y_srs@[i as int]@);
        let row = match g1_scalar_muls(&y_srs[i], &pa) {
            Some(v) => v,
            None => {
                proof {
                    lemma_rows_stay_none(ys, pae, (i + 1) as nat);
                    assert(ys.subrange(0, ys.len() as int) =~= ys);
                }
                return Err(NetError::BadShare);
            },
        };
        let ghost before = encodings(xy@);
        let mut k: usize = 0;
        while k < row.len()
            invariant
                k <= row@.len(),
                encodings(xy@) == before + encodings(row@).subrange(0, k as int),
            decreases row@.len() - k,
        {
            let ghost prev = xy@;
            xy.push(row[k].clone());
            assert(encodings(xy@) =~= encodings(prev).push(row@[k as int]@));
            assert(encodings(xy@) =~= before + encodings(row@).subrange(0, k + 1));
            k = k + 1;
        }
        assert(encodings(row@).subrange(0, k as int) =~= encodings(row@));
        i = i + 1;
    }
    assert(ys.subrange(0, i as int) =~= ys);
    let x_srs = g1_scalar_muls(g, &pa);
    let ha = g2_msm(&single(h), &single(alpha));
    let hb = g2_msm(&single(h), &single(beta));
    match (x_srs, ha, hb) {
        (Some(x_srs), Some(ha), Some(hb)) => Ok(LagrangeSetup {
            xy_srs: xy,
            x_srs,
            y_srs,
            vk: VerifierKey { g: g.clone(), h: h.clone(), h_alpha: ha, h_beta: hb },
        }),
        _ => Err(NetError::BadShare),
    }
}

proof fn lemma_rows_stay_none(rows: Seq<Seq<u8>>, pa: Seq<Seq<u8>>, k: nat)
    requires
        k <= rows.len(),
        rows_of_powers(rows.subrange(0, k as int), pa) is None,
    ensures
        rows_of_powers(rows, pa) is None,
    decreases rows.len() - k,
{
    if k < rows.len() {
        let s = rows.subrange(0, k + 1 as int);
        assert(s.drop_last() =~= rows.subrange(0, k as int));
        lemma_rows_stay_none(rows, pa, k + 1);
    } else {
        assert(rows.subrange(0, k as int) =~= rows);
    }
}

} // verus!
