//! Univariate polynomials over Fr, as lists of coefficient encodings, lowest
//! degree first: division by a linear factor, powers of a challenge, and
//! random linear combinations.

use vstd::prelude::*;

use crate::algebra::{
    encodings, fr_add, fr_add_of, fr_from_le_bytes_mod_order, fr_from_le_of, fr_mul, fr_mul_of,
    poly_add, poly_add_of, poly_scale, poly_scale_of,
};
use crate::error::NetError;

verus! {

/// The running value of synthetic division of `c` by `X - k`, from the top
/// coefficient down to index `i`: the top coefficient itself, then
/// `c[i] + carry(i + 1) * k`.
pub open spec fn carry(c: Seq<Seq<u8>>, k: Seq<u8>, i: int) -> Option<Seq<u8>>
    decreases c.len() - i,
{
    if i >= c.len() - 1 {
        Some(c[c.len() - 1])
    } else {
        match carry(c, k, i + 1) {
            Some(cur) => match fr_mul_of(cur, k) {
                Some(m) => fr_add_of(c[i], m),
                None => None,
            },
            None => None,
        }
    }
}

/// The quotient of `c` by `X - k`, the remainder dropped: coefficient `i` is
/// `carry(i + 1)`. An empty polynomial stays empty.
pub open spec fn quotient_of(c: Seq<Seq<u8>>, k: Seq<u8>) -> Option<Seq<Seq<u8>>> {
    if c.len() == 0 {
        Some(c)
    } else if forall|i: int| 1 <= i < c.len() ==> (#[trigger] carry(c, k, i)) is Some {
        Some(Seq::new((c.len() - 1) as nat, |i: int| carry(c, k, i + 1)->Some_0))
    } else {
        None
    }
}

/// Divides `poly` by `X - k` in place, dropping the remainder. Where some
/// coefficient does not decode, `poly` is left as it was.
pub fn divide_by_x_minus_k(poly: &mut Vec<Vec<u8>>, k: &Vec<u8>) -> (r: Result<(), NetError>)
    ensures
        quotient_of(encodings(old(poly)@), k@) matches Some(q) ==> r is Ok && encodings(
            final(poly)@,
        ) == q,
        quotient_of(encodings(old(poly)@), k@) is None ==> r == Err::<(), NetError>(
            NetError::BadShare,
        ) && final(poly)@ == old(poly)@,
{
    let ghost c = encodings(poly@);
    let n = poly.len();
    if n == 0 {
        return Ok(());
    }
    let mut q: Vec<Vec<u8>> = Vec::new();
    let mut z: usize = 0;
    while z + 1 < n
        invariant
            z < n,
            q@.len() == z,
        decreases n - z,
    {
        q.push(Vec::new());
        z = z + 1;
    }
    let mut cur = poly[n - 1].clone();
    let mut i: usize = n - 1;
    while i > 0
        invariant
            0 <= i < n,
            n == poly@.len(),
            c == encodings(poly@),
            q@.len() == n - 1,
            i > 0 ==> carry(c, k@, i as int) == Some(cur@),
            forall|j: int| i <= j < n - 1 ==> carry(c, k@, j + 1) == Some(#[trigger] q@[j]@),
        decreases i,
    {
        q.set(i - 1, cur.clone());
        if i > 1 {
            let m = match fr_mul(&cur, k) {
                Some(m) => m,
                None => {
                    assert(carry(c, k@, i - 1) is None);
                    assert(quotient_of(c, k@) is None) by {
                        assert(!((#[trigger] carry(c, k@, i - 1)) is Some));
                    }
                    return Err(NetError::BadShare);
                },
            };
            cur = match fr_add(&poly[i - 1], &m) {
                Some(v) => v,
                None => {
                    assert(carry(c, k@, i - 1) is None);
                    assert(quotient_of(c, k@) is None) by {
                        assert(!((#[trigger] carry(c, k@, i - 1)) is Some));
                    }
                    return Err(NetError::BadShare);
                },
            };
        }
        i = i - 1;
    }
    assert forall|j: int| 1 <= j < c.len() implies (#[trigger] carry(c, k@, j)) is Some by {
        assert(carry(c, k@, j) == Some(q@[j - 1]@));
    }
    assert(encodings(q@) =~= Seq::new((c.len() - 1) as nat, |j: int| carry(c, k@, j + 1)->Some_0));
    *poly = q;
    Ok(())
}

/// The encoding of the scalar one: the number 1 reduced into Fr.
pub open spec fn fr_one() -> Seq<u8> {
    fr_from_le_of(seq![1u8])
}

/// Entry `i` of the powers of `base`: one, then `base`, then each next one the
/// previous times `base`.
pub open spec fn power_of(base: Seq<u8>, i: nat) -> Option<Seq<u8>>
    decreases i,
{
    if i == 0 {
        Some(fr_one())
    } else if i == 1 {
        Some(base)
    } else {
        match power_of(base, (i - 1) as nat) {
            Some(p) => fr_mul_of(p, base),
            None => None,
        }
    }
}

/// The first `len` powers of `base`, where each is defined.
pub fn generate_powers(base: &Vec<u8>, len: usize) -> (r: Result<Vec<Vec<u8>>, NetError>)
    ensures
        r is Ok <==> forall|i: nat| i < len ==> (#[trigger] power_of(base@, i)) is Some,
        r matches Ok(v) ==> v@.len() == len && forall|i: int|
            0 <= i < len ==> power_of(base@, i as nat) == Some(#[trigger] v@[i]@),
        r matches Err(e) ==> e == NetError::BadShare,
{
    let mut out: Vec<Vec<u8>> = Vec::new();
    if len == 0 {
        return Ok(out);
    }
    let mut unit: Vec<u8> = Vec::new();
    unit.push(1u8);
    let one = fr_from_le_bytes_mod_order(&unit);
    assert(one@ == fr_one()) by {
        assert(unit@ =~= seq![1u8]);
    }
    out.push(one);
    let mut i: usize = 1;
    while i < len
        invariant
            1 <= i <= len,
            out@.len() == i,
            forall|j: int| 0 <= j < i ==> power_of(base@, j as nat) == Some(#[trigger] out@[j]@),
        decreases len - i,
    {
        if i == 1 {
            out.push(base.clone());
        } else {
            match fr_mul(&out[i - 1], base) {
                Some(p) => out.push(p),
                None => {
                    assert(power_of(base@, i as nat) is None);
                    return Err(NetError::BadShare);
                },
            }
        }
        i = i + 1;
    }
    assert forall|j: nat| j < len implies (#[trigger] power_of(base@, j)) is Some by {
        assert(power_of(base@, j) == Some(out@[j as int]@));
    }
    Ok(out)
}

/// The combination of the first `k` polynomials of `polys` with `factors`:
/// the first scaled, then each next one scaled and added.
pub open spec fn combination(polys: Seq<Seq<Seq<u8>>>, factors: Seq<Seq<u8>>, k: nat) -> Option<
    Seq<Seq<u8>>,
>
    decreases k,
{
    if k == 0 {
        Some(Seq::empty())
    } else if k == 1 {
        poly_scale_of(polys[0], factors[0])
    } else {
        match combination(polys, factors, (k - 1) as nat) {
            Some(acc) => match poly_scale_of(polys[k - 1], factors[k - 1]) {
                Some(t) => poly_add_of(acc, t),
                None => None,
            },
            None => None,
        }
    }
}

/// `sum_j factors[j] * polys[j]` over `j < polys.len()`, for `factors` at least as long.
pub fn combine_polys(polys: &Vec<Vec<Vec<u8>>>, factors: &Vec<Vec<u8>>) -> (r: Result<
    Vec<Vec<u8>>,
    NetError,
>)
    requires
        factors@.len() >= polys@.len(),
    ensures
        ({
            let ps = polys@.map_values(|p: Vec<Vec<u8>>| encodings(p@));
            &&& combination(ps, encodings(factors@), polys@.len()) matches Some(v) ==> (r matches Ok(
                w,
            ) && encodings(w@) == v)
            &&& combination(ps, encodings(factors@), polys@.len()) is None ==> r == Err::<
                Vec<Vec<u8>>,
                NetError,
            >(NetError::BadShare)
        }),
{
    let ghost ps = polys@.map_values(|p: Vec<Vec<u8>>| encodings(p@));
    let ghost fs = encodings(factors@);
    let mut acc: Vec<Vec<u8>> = Vec::new();
    let mut k: usize = 0;
    while k < polys.len()
        invariant
            k <= polys@.len() <= factors@.len(),
            ps == polys@.map_values(|p: Vec<Vec<u8>>| encodings(p@)),
            fs == encodings(factors@),
            combination(ps, fs, k as nat) == Some(encodings(acc@)),
        decreases polys@.len() - k,
    {
        assert(ps[k as int] == encodings(polys@[k as int]@));
        let t = match poly_scale(&polys[k], &factors[k]) {
            Some(t) => t,
            None => {
                proof {
                    lemma_combination_stays_none(ps, fs, (k + 1) as nat, polys@.len() as nat);
                }
                return Err(NetError::BadShare);
            },
        };
        if k == 0 {
            acc = t;
        } else {
            acc = match poly_add(&acc, &t) {
                Some(s) => s,
                None => {
                    proof {
                        lemma_combination_stays_none(ps, fs, (k + 1) as nat, polys@.len() as nat);
                    }
                    return Err(NetError::BadShare);
                },
            };
        }
        k = k + 1;
    }
    Ok(acc)
}

proof fn lemma_combination_stays_none(
    polys: Seq<Seq<Seq<u8>>>,
    factors: Seq<Seq<u8>>,
    k: nat,
    m: nat,
)
    requires
        k <= m,
        combination(polys, factors, k) is None,
    ensures
        combination(polys, factors, m) is None,
    decreases m - k,
{
    if k < m {
        assert(combination(polys, factors, k + 1) is None);
        lemma_combination_stays_none(polys, factors, k + 1, m);
    }
}

} // verus!
