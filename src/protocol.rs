//! The distributed commitment protocol over a row-partitioned bivariate
//! polynomial. Party `i` holds row `i` of every polynomial and the matching
//! chunk of the reference string; it commits to its rows, and the master sums
//! the shares of each polynomial over the parties. Each committed polynomial is
//! a list of rows, each row a list of coefficient encodings; the reference
//! string is a list of G1 point encodings, chunk `i` serving row `i`.

use vstd::prelude::*;

use crate::algebra::{encodings, g1_msm, g1_msm_of, g1_sum, g1_sum_of, fr_sum, fr_sum_of};
use crate::error::NetError;
use crate::frame::{decode_list, parse_list};
use crate::transcript::{FsTranscript, ProofTranscript, Absorbed, challenge_of, list_ops, ops_fit};

verus! {

/// What a collective step hands back: the master gets the aggregate, a worker
/// nothing.
pub enum MasterResult<T> {
    Master(T),
    Worker,
}

/// The encodings of a list of lists of byte strings.
pub open spec fn grid(v: Seq<Vec<Vec<u8>>>) -> Seq<Seq<Seq<u8>>> {
    v.map_values(|r: Vec<Vec<u8>>| encodings(r@))
}

/// Entry `j` of each row of `rows`.
pub open spec fn column(rows: Seq<Seq<Seq<u8>>>, j: int) -> Seq<Seq<u8>> {
    Seq::new(rows.len(), |i: int| rows[i][j])
}

/// Every row has `w` entries.
pub open spec fn same_width(rows: Seq<Seq<Seq<u8>>>, w: nat) -> bool {
    forall|i: int| 0 <= i < rows.len() ==> #[trigger] rows[i].len() == w
}

/// The shares can be summed column by column: at least one party, all of the
/// same width, and every column sum defined by `sum`.
pub open spec fn summable(
    rows: Seq<Seq<Seq<u8>>>,
    sum: spec_fn(Seq<Seq<u8>>) -> Option<Seq<u8>>,
) -> bool {
    &&& rows.len() > 0
    &&& same_width(rows, rows[0].len())
    &&& forall|j: int| 0 <= j < rows[0].len() ==> #[trigger] sum(column(rows, j)) is Some
}

/// The column sums, where `summable` holds.
pub open spec fn column_sums(
    rows: Seq<Seq<Seq<u8>>>,
    sum: spec_fn(Seq<Seq<u8>>) -> Option<Seq<u8>>,
) -> Seq<Seq<u8>> {
    Seq::new(rows[0].len(), |j: int| sum(column(rows, j))->Some_0)
}

pub open spec fn g1_sum_fn() -> spec_fn(Seq<Seq<u8>>) -> Option<Seq<u8>> {
    |s: Seq<Seq<u8>>| g1_sum_of(s)
}

pub open spec fn fr_sum_fn() -> spec_fn(Seq<Seq<u8>>) -> Option<Seq<u8>> {
    |s: Seq<Seq<u8>>| fr_sum_of(s)
}

/// Entry `j` of each of `gathered`'s lists, which all have more than `j` entries.
pub(crate) fn column_of(gathered: &Vec<Vec<Vec<u8>>>, j: usize) -> (r: Vec<Vec<u8>>)
    requires
        forall|i: int| 0 <= i < gathered@.len() ==> j < #[trigger] gathered@[i]@.len(),
    ensures
        encodings(r@) == column(grid(gathered@), j as int),
{
    let mut r: Vec<Vec<u8>> = Vec::new();
    let mut i: usize = 0;
    while i < gathered.len()
        invariant
            i <= gathered@.len(),
            forall|k: int| 0 <= k < gathered@.len() ==> j < #[trigger] gathered@[k]@.len(),
            r@.len() == i,
            forall|k: int| 0 <= k < i ==> #[trigger] r@[k]@ == gathered@[k]@[j as int]@,
        decreases gathered@.len() - i,
    {
        r.push(gathered[i][j].clone());
        i = i + 1;
    }
    assert(encodings(r@) =~= column(grid(gathered@), j as int));
    r
}

/// Whether every list of `gathered` has as many entries as the first.
fn check_width(gathered: &Vec<Vec<Vec<u8>>>) -> (r: bool)
    requires
        gathered@.len() > 0,
    ensures
        r == same_width(grid(gathered@), gathered@[0]@.len()),
{
    let w = gathered[0].len();
    let mut i: usize = 0;
    while i < gathered.len()
        invariant
            i <= gathered@.len(),
            w == gathered@[0]@.len(),
            forall|k: int| 0 <= k < i ==> #[trigger] gathered@[k]@.len() == w,
        decreases gathered@.len() - i,
    {
        if gathered[i].len() != w {
            assert(grid(gathered@)[i as int].len() != w);
            return false;
        }
        i = i + 1;
    }
    assert forall|k: int| 0 <= k < gathered@.len() implies #[trigger] grid(gathered@)[k].len()
        == w by {
        assert(gathered@[k]@.len() == w);
    }
    true
}

/// Commits, in one process, to a polynomial given by its values over both
/// domains: the MSM of `powers` with all of them.
pub fn commit_double_lagrange(powers: &Vec<Vec<u8>>, evals: &Vec<Vec<u8>>) -> (r: Result<Vec<u8>, NetError>)
    ensures
        match r {
            Ok(v) => g1_msm_of(encodings(powers@), encodings(evals@)) == Some(v@),
            Err(e) => g1_msm_of(encodings(powers@), encodings(evals@)) is None && e == NetError::BadShare,
        },
{
    match g1_msm(powers, evals) {
        Some(v) => Ok(v),
        None => Err(NetError::BadShare),
    }
}

/// A party's commitment shares in the doubly Lagrange setting: the party's
/// chunk of `powers`, of width `x_domain_size`, committed with each list of
/// values in `sub_evals`.
pub fn de_commit_double_lagrange_share(
    sub_prover_id: usize,
    powers: &Vec<Vec<u8>>,
    sub_evals: &Vec<Vec<Vec<u8>>>,
    x_domain_size: usize,
) -> (r: Result<Vec<Vec<u8>>, NetError>)
    ensures
        (sub_prover_id + 1) * x_domain_size > powers@.len() ==> r == Err::<Vec<Vec<u8>>, NetError>(
            NetError::BadShare,
        ),
        (sub_prover_id + 1) * x_domain_size <= powers@.len() ==> ({
            let sh = share_of(
                chunk(encodings(powers@), sub_prover_id as int, x_domain_size as int),
                grid(sub_evals@),
            );
            &&& r is Ok <==> all_some(sh)
            &&& r matches Ok(v) ==> encodings(v@) == unwrap_all(sh)
            &&& r matches Err(e) ==> e == NetError::BadShare
        }),
{
    let sub_powers = srs_share(powers, sub_prover_id, x_domain_size)?;
    de_commit_share(&sub_powers, sub_evals)
}

/// Master aggregation of commitment shares: `gathered[i][j]` is party `i`'s
/// share of polynomial `j`; the result holds, for each `j`, the sum of the
/// shares of `j` over all parties.
pub fn sum_commitments(gathered: &Vec<Vec<Vec<u8>>>) -> (r: Result<Vec<Vec<u8>>, NetError>)
    ensures
        r is Ok <==> summable(grid(gathered@), g1_sum_fn()),
        r matches Ok(v) ==> encodings(v@) == column_sums(grid(gathered@), g1_sum_fn()),
        r matches Err(e) ==> e == NetError::BadShare,
{
    if gathered.len() == 0 || !check_width(gathered) {
        return Err(NetError::BadShare);
    }
    let ghost g = grid(gathered@);
    assert(g[0].len() == gathered@[0]@.len());
    let w = gathered[0].len();
    let mut out: Vec<Vec<u8>> = Vec::new();
    let mut j: usize = 0;
    while j < w
        invariant
            j <= w,
            g == grid(gathered@),
            g.len() > 0,
            w == g[0].len(),
            same_width(g, w as nat),
            out@.len() == j,
            forall|k: int| 0 <= k < j ==> g1_sum_of(column(g, k)) == Some(#[trigger] out@[k]@),
        decreases w - j,
    {
        assert forall|i: int| 0 <= i < gathered@.len() implies j < #[trigger] gathered@[i]@.len() by {
            assert(g[i].len() == w);
        }
        let col = column_of(gathered, j);
        match g1_sum(&col) {
            Some(s) => out.push(s),
            None => {
                assert(g1_sum_fn()(column(g, j as int)) is None);
                return Err(NetError::BadShare);
            },
        }
        j = j + 1;
    }
    assert forall|k: int| 0 <= k < g[0].len() implies #[trigger] g1_sum_fn()(column(g, k)) is Some by {
        assert(g1_sum_of(column(g, k)) == Some(out@[k]@));
    }
    assert(encodings(out@) =~= column_sums(g, g1_sum_fn()));
    Ok(out)
}

/// Master aggregation of scalar shares: for each `j`, the sum over all parties
/// of `gathered[i][j]`.
pub fn sum_evaluations(gathered: &Vec<Vec<Vec<u8>>>) -> (r: Result<Vec<Vec<u8>>, NetError>)
    ensures
        r is Ok <==> summable(grid(gathered@), fr_sum_fn()),
        r matches Ok(v) ==> encodings(v@) == column_sums(grid(gathered@), fr_sum_fn()),
        r matches Err(e) ==> e == NetError::BadShare,
{
    if gathered.len() == 0 || !check_width(gathered) {
        return Err(NetError::BadShare);
    }
    let ghost g = grid(gathered@);
    assert(g[0].len() == gathered@[0]@.len());
    let w = gathered[0].len();
    let mut out: Vec<Vec<u8>> = Vec::new();
    let mut j: usize = 0;
    while j < w
        invariant
            j <= w,
            g == grid(gathered@),
            g.len() > 0,
            w == g[0].len(),
            same_width(g, w as nat),
            out@.len() == j,
            forall|k: int| 0 <= k < j ==> fr_sum_of(column(g, k)) == Some(#[trigger] out@[k]@),
        decreases w - j,
    {
        assert forall|i: int| 0 <= i < gathered@.len() implies j < #[trigger] gathered@[i]@.len() by {
            assert(g[i].len() == w);
        }
        let col = column_of(gathered, j);
        match fr_sum(&col) {
            Some(s) => out.push(s),
            None => {
                assert(fr_sum_fn()(column(g, j as int)) is None);
                return Err(NetError::BadShare);
            },
        }
        j = j + 1;
    }
    assert forall|k: int| 0 <= k < g[0].len() implies #[trigger] fr_sum_fn()(column(g, k)) is Some by {
        assert(fr_sum_of(column(g, k)) == Some(out@[k]@));
    }
    assert(encodings(out@) =~= column_sums(g, fr_sum_fn()));
    Ok(out)
}

/// The commitments of one party to its rows: the MSM of its reference-string
/// chunk with each row's coefficients, where all of them are defined.
pub open spec fn share_of(sub_powers: Seq<Seq<u8>>, rows: Seq<Seq<Seq<u8>>>) -> Seq<
    Option<Seq<u8>>,
> {
    Seq::new(rows.len(), |k: int| g1_msm_of(sub_powers, rows[k]))
}

/// Every entry is defined.
pub open spec fn all_some(s: Seq<Option<Seq<u8>>>) -> bool {
    forall|k: int| 0 <= k < s.len() ==> #[trigger] s[k] is Some
}

/// The values of a list of defined entries.
pub open spec fn unwrap_all(s: Seq<Option<Seq<u8>>>) -> Seq<Seq<u8>> {
    Seq::new(s.len(), |k: int| s[k]->Some_0)
}

/// A party's commitment shares: for each of its rows (one per committed
/// polynomial), the MSM with its chunk of the reference string.
pub fn de_commit_share(sub_powers: &Vec<Vec<u8>>, sub_polynomials: &Vec<Vec<Vec<u8>>>) -> (r:
    Result<Vec<Vec<u8>>, NetError>)
    ensures
        r is Ok <==> all_some(share_of(encodings(sub_powers@), grid(sub_polynomials@))),
        r matches Ok(v) ==> encodings(v@) == unwrap_all(
            share_of(encodings(sub_powers@), grid(sub_polynomials@)),
        ),
        r matches Err(e) ==> e == NetError::BadShare,
{
    let ghost sh = share_of(encodings(sub_powers@), grid(sub_polynomials@));
    let mut out: Vec<Vec<u8>> = Vec::new();
    let mut k: usize = 0;
    while k < sub_polynomials.len()
        invariant
            k <= sub_polynomials@.len(),
            sh == share_of(encodings(sub_powers@), grid(sub_polynomials@)),
            out@.len() == k,
            forall|q: int| 0 <= q < k ==> sh[q] == Some(#[trigger] out@[q]@),
        decreases sub_polynomials@.len() - k,
    {
        assert(grid(sub_polynomials@)[k as int] == encodings(sub_polynomials@[k as int]@));
        match g1_msm(sub_powers, &sub_polynomials[k]) {
            Some(c) => out.push(c),
            None => {
                assert(sh[k as int] is None);
                return Err(NetError::BadShare);
            },
        }
        k = k + 1;
    }
    assert forall|q: int| 0 <= q < sh.len() implies #[trigger] sh[q] is Some by {
        assert(sh[q] == Some(out@[q]@));
    }
    assert(encodings(out@) =~= unwrap_all(sh));
    Ok(out)
}

/// The master's end of a distributed commitment: `gathered` is what the gather
/// gave, each party's shares framed as a list, at the master, and nothing at a
/// worker.
pub fn de_commit_aggregate(gathered: Option<Vec<Vec<u8>>>) -> (r: Result<
    MasterResult<Vec<Vec<u8>>>,
    NetError,
>)
    ensures
        gathered is None ==> r matches Ok(MasterResult::Worker),
        gathered matches Some(g) ==> {
            let parsed = Seq::new(g@.len(), |i: int| parse_list(g@[i]@));
            &&& (exists|i: int| 0 <= i < g@.len() && parsed[i] is None) ==> r == Err::<
                MasterResult<Vec<Vec<u8>>>,
                NetError,
            >(NetError::BadFrame)
            &&& (forall|i: int| 0 <= i < g@.len() ==> parsed[i] is Some) ==> {
                let rows = Seq::new(g@.len(), |i: int| parsed[i]->Some_0);
                &&& summable(rows, g1_sum_fn()) ==> (r matches Ok(MasterResult::Master(v))
                    && encodings(v@) == column_sums(rows, g1_sum_fn()))
                &&& !summable(rows, g1_sum_fn()) ==> r == Err::<
                    MasterResult<Vec<Vec<u8>>>,
                    NetError,
                >(NetError::BadShare)
            }
        },
{
    let g = match gathered {
        Some(g) => g,
        None => {
            return Ok(MasterResult::Worker);
        },
    };
    let ghost parsed = Seq::new(g@.len(), |i: int| parse_list(g@[i]@));
    let mut rows: Vec<Vec<Vec<u8>>> = Vec::new();
    let mut i: usize = 0;
    while i < g.len()
        invariant
            i <= g@.len(),
            gathered == Some(g),
            parsed == Seq::new(g@.len(), |k: int| parse_list(g@[k]@)),
            rows@.len() == i,
            forall|k: int| 0 <= k < i ==> parsed[k] == Some(#[trigger] grid(rows@)[k]),
        decreases g@.len() - i,
    {
        match decode_list(&g[i]) {
            Some(items) => {
                let ghost before = rows@;
                assert(encodings(items@) =~= items@.map_values(|b: Vec<u8>| b@));
                rows.push(items);
                assert forall|k: int| 0 <= k < i + 1 implies parsed[k] == Some(
                    #[trigger] grid(rows@)[k],
                ) by {
                    assert(grid(rows@)[k] == encodings(rows@[k]@));
                    if k < i {
                        assert(rows@[k] == before[k]);
                        assert(grid(before)[k] == encodings(before[k]@));
                    }
                }
            },
            None => {
                assert(parsed[i as int] is None);
                return Err(NetError::BadFrame);
            },
        }
        i = i + 1;
    }
    assert(grid(rows@) =~= Seq::new(g@.len(), |k: int| parsed[k]->Some_0));
    assert forall|k: int| 0 <= k < g@.len() implies parsed[k] is Some by {
        assert(parsed[k] == Some(grid(rows@)[k]));
    }
    match sum_commitments(&rows) {
        Ok(v) => Ok(MasterResult::Master(v)),
        Err(e) => Err(e),
    }
}

/// Chunk `i` of width `w` of the reference string `powers`.
pub open spec fn chunk(powers: Seq<Seq<u8>>, i: int, w: int) -> Seq<Seq<u8>> {
    powers.subrange(i * w, (i + 1) * w)
}

/// The part of the reference string that serves row `party`: the chunk of
/// width `width` at that index, or `BadShare` where `powers` is too short.
pub fn srs_share(powers: &Vec<Vec<u8>>, party: usize, width: usize) -> (r: Result<
    Vec<Vec<u8>>,
    NetError,
>)
    ensures
        (party + 1) * width <= powers@.len() ==> (r matches Ok(v) && encodings(v@) == chunk(
            encodings(powers@),
            party as int,
            width as int,
        )),
        (party + 1) * width > powers@.len() ==> r == Err::<Vec<Vec<u8>>, NetError>(
            NetError::BadShare,
        ),
{
    if width == 0 {
        let v: Vec<Vec<u8>> = Vec::new();
        assert(party * 0 == 0 && (party + 1) * 0 == 0) by (nonlinear_arith);
        assert(encodings(v@) =~= chunk(encodings(powers@), party as int, 0));
        return Ok(v);
    }
    let n = powers.len();
    if party == usize::MAX {
        assert(n <= usize::MAX);
        assert((party + 1) * width >= party + 1) by (nonlinear_arith)
            requires
                width >= 1,
        ;
        return Err(NetError::BadShare);
    }
    let end = match (party + 1).checked_mul(width) {
        Some(e) => e,
        None => {
            assert(n <= usize::MAX);
            return Err(NetError::BadShare);
        },
    };
    if end > powers.len() {
        return Err(NetError::BadShare);
    }
    assert(party * width <= (party + 1) * width) by (nonlinear_arith);
    let start = party * width;
    let mut out: Vec<Vec<u8>> = Vec::new();
    let mut k: usize = start;
    while k < end
        invariant
            start <= k <= end <= powers@.len(),
            out@.len() == k - start,
            forall|q: int| 0 <= q < k - start ==> #[trigger] out@[q]@ == powers@[start + q]@,
        decreases end - k,
    {
        out.push(powers[k].clone());
        k = k + 1;
    }
    assert(encodings(out@) =~= chunk(encodings(powers@), party as int, width as int)) by {
        assert((party + 1) * width == party * width + width) by (nonlinear_arith);
    }
    Ok(out)
}

/// The commitment of each row of a polynomial: row `i` with chunk `i` of width `w`.
pub open spec fn row_commitments(powers: Seq<Seq<u8>>, rows: Seq<Seq<Seq<u8>>>, w: int) -> Seq<
    Option<Seq<u8>>,
> {
    Seq::new(rows.len(), |i: int| g1_msm_of(chunk(powers, i, w), rows[i]))
}

/// The commitment of a row-partitioned polynomial: the sum of its rows'.
pub open spec fn poly_commitment(powers: Seq<Seq<u8>>, rows: Seq<Seq<Seq<u8>>>, w: int) -> Option<
    Seq<u8>,
> {
    let rc = row_commitments(powers, rows, w);
    if all_some(rc) {
        g1_sum_of(unwrap_all(rc))
    } else {
        None
    }
}

/// The inputs of a commitment fit: at least one polynomial, the first row
/// of the first gives the width `w > 0`, and `powers` has a chunk for every row.
pub open spec fn commit_shape(powers: Seq<Seq<u8>>, polys: Seq<Seq<Seq<Seq<u8>>>>) -> bool {
    &&& polys.len() > 0
    &&& polys[0].len() > 0
    &&& polys[0][0].len() > 0
    &&& forall|j: int| 0 <= j < polys.len() ==> #[trigger] polys[j].len() * polys[0][0].len() <= powers.len()
}

/// The encodings of a list of polynomials.
pub open spec fn polys_of(v: Seq<Vec<Vec<Vec<u8>>>>) -> Seq<Seq<Seq<Seq<u8>>>> {
    v.map_values(|p: Vec<Vec<Vec<u8>>>| grid(p@))
}

/// Commits, in one process, to each polynomial of `polynomials`, each a list of
/// rows: row `i` is committed with chunk `i` of `powers`, whose width is the
/// length of the first row, and the row commitments are summed.
pub fn commit(powers: &Vec<Vec<u8>>, polynomials: &Vec<Vec<Vec<Vec<u8>>>>) -> (r: Result<
    Vec<Vec<u8>>,
    NetError,
>)
    ensures
        ({
            let ps = polys_of(polynomials@);
            let pw = encodings(powers@);
            &&& r is Ok <==> commit_shape(pw, ps) && forall|j: int|
                0 <= j < ps.len() ==> #[trigger] poly_commitment(pw, ps[j], ps[0][0].len() as int)
                    is Some
            &&& r matches Ok(v) ==> v@.len() == ps.len() && forall|j: int|
                0 <= j < ps.len() ==> poly_commitment(pw, ps[j], ps[0][0].len() as int) == Some(
                    #[trigger] v@[j]@,
                )
            &&& r matches Err(e) ==> e == NetError::BadShare
        }),
{
    let ghost ps = polys_of(polynomials@);
    let ghost pw = encodings(powers@);
    if polynomials.len() == 0 || polynomials[0].len() == 0 || polynomials[0][0].len() == 0 {
        proof {
            if polynomials@.len() > 0 {
                assert(ps[0] == grid(polynomials@[0]@));
                if polynomials@[0]@.len() > 0 {
                    assert(ps[0][0] == encodings(polynomials@[0]@[0]@));
                }
            }
        }
        return Err(NetError::BadShare);
    }
    let w = polynomials[0][0].len();
    assert(ps[0] == grid(polynomials@[0]@));
    assert(ps[0][0] == encodings(polynomials@[0]@[0]@));
    assert(ps[0][0].len() == w);
    let mut out: Vec<Vec<u8>> = Vec::new();
    let mut j: usize = 0;
    while j < polynomials.len()
        invariant
            j <= polynomials@.len(),
            ps == polys_of(polynomials@),
            pw == encodings(powers@),
            ps.len() > 0 && ps[0].len() > 0 && ps[0][0].len() == w && w > 0,
            out@.len() == j,
            forall|q: int| 0 <= q < j ==> #[trigger] ps[q].len() * w <= pw.len(),
            forall|q: int| 0 <= q < j ==> poly_commitment(pw, ps[q], w as int) == Some(
                #[trigger] out@[q]@,
            ),
        decreases polynomials@.len() - j,
    {
        let rows = &polynomials[j];
        assert(ps[j as int] == grid(rows@));
        let ghost rc = row_commitments(pw, ps[j as int], w as int);
        assert(0 * w == 0);
        let mut coms: Vec<Vec<u8>> = Vec::new();
        let mut i: usize = 0;
        while i < rows.len()
            invariant
                i <= rows@.len(),
                j < polynomials@.len(),
                ps == polys_of(polynomials@),
                ps.len() > 0 && ps[0].len() > 0 && ps[0][0].len() == w,
                rows == polynomials@[j as int],
                ps[j as int] == grid(rows@),
                pw == encodings(powers@),
                w > 0,
                rc == row_commitments(pw, ps[j as int], w as int),
                coms@.len() == i,
                i * w <= pw.len(),
                forall|q: int| 0 <= q < i ==> rc[q] == Some(#[trigger] coms@[q]@),
            decreases rows@.len() - i,
        {
            let part = match srs_share(powers, i, w) {
                Ok(p) => p,
                Err(e) => {
                    assert(ps[j as int].len() * w > pw.len()) by (nonlinear_arith)
                        requires
                            (i + 1) * w > pw.len(),
                            i < ps[j as int].len(),
                    ;
                    assert(ps[j as int].len() * ps[0][0].len() > pw.len());
                    assert(!commit_shape(pw, ps));
                    return Err(NetError::BadShare);
                },
            };
            assert(grid(rows@)[i as int] == encodings(rows@[i as int]@));
            match g1_msm(&part, &rows[i]) {
                Some(c) => coms.push(c),
                None => {
                    assert(rc[i as int] is None);
                    assert(poly_commitment(pw, ps[j as int], w as int) is None);
                    return Err(NetError::BadShare);
                },
            }
            i = i + 1;
        }
        assert(ps[j as int].len() == rows@.len());
        assert forall|q: int| 0 <= q < rc.len() implies #[trigger] rc[q] is Some by {
            assert(rc[q] == Some(coms@[q]@));
        }
        assert(encodings(coms@) =~= unwrap_all(rc));
        match g1_sum(&coms) {
            Some(c) => out.push(c),
            None => {
                assert(poly_commitment(pw, ps[j as int], w as int) is None);
                return Err(NetError::BadShare);
            },
        }
        j = j + 1;
    }
    assert forall|q: int| 0 <= q < ps.len() implies #[trigger] ps[q].len() * ps[0][0].len()
        <= pw.len() by {
        assert(ps[q].len() * w <= pw.len());
    }
    assert forall|q: int| 0 <= q < ps.len() implies #[trigger] poly_commitment(
        pw,
        ps[q],
        ps[0][0].len() as int,
    ) is Some by {
        assert(poly_commitment(pw, ps[q], w as int) == Some(out@[q]@));
    }
    Ok(out)
}

/// Row `i` of every polynomial: what party `i` holds.
pub open spec fn rows_of_party(polys: Seq<Seq<Seq<Seq<u8>>>>, i: int) -> Seq<Seq<Seq<u8>>> {
    Seq::new(polys.len(), |j: int| polys[j][i])
}

/// The shares of the `n` parties, party `i` committing to its rows with chunk
/// `i` of width `w`.
pub open spec fn party_shares(powers: Seq<Seq<u8>>, polys: Seq<Seq<Seq<Seq<u8>>>>, w: int, n: nat) -> Seq<
    Seq<Option<Seq<u8>>>,
> {
    Seq::new(n, |i: int| share_of(chunk(powers, i, w), rows_of_party(polys, i)))
}

/// The distributed commitment equals the centralized one: where every party
/// holds row `i` of each polynomial and commits with chunk `i` of the
/// reference string, every party's share is defined exactly when every row
/// commitment is; and then the master's column sums are defined exactly when
/// the centralized commitments are, and equal them.
pub proof fn lemma_distributed_commit_matches_central(
    powers: Seq<Seq<u8>>,
    polys: Seq<Seq<Seq<Seq<u8>>>>,
    w: int,
)
    requires
        polys.len() > 0,
        polys[0].len() > 0,
        forall|j: int| 0 <= j < polys.len() ==> #[trigger] polys[j].len() == polys[0].len(),
    ensures
        ({
            let n = polys[0].len();
            let shares = party_shares(powers, polys, w, n);
            let g = Seq::new(n, |i: int| unwrap_all(shares[i]));
            &&& (forall|i: int| 0 <= i < n ==> all_some(#[trigger] shares[i])) <==> (forall|j: int|
                0 <= j < polys.len() ==> all_some(#[trigger] row_commitments(powers, polys[j], w)))
            &&& (forall|i: int| 0 <= i < n ==> all_some(#[trigger] shares[i])) ==> {
                &&& summable(g, g1_sum_fn()) <==> (forall|j: int|
                    0 <= j < polys.len() ==> (#[trigger] poly_commitment(powers, polys[j], w)) is Some)
                &&& summable(g, g1_sum_fn()) ==> forall|j: int|
                    0 <= j < polys.len() ==> column_sums(g, g1_sum_fn())[j] == (
                    #[trigger] poly_commitment(powers, polys[j], w))->Some_0
            }
        }),
{
    let n = polys[0].len();
    let m = polys.len();
    let shares = party_shares(powers, polys, w, n);
    let g = Seq::new(n, |i: int| unwrap_all(shares[i]));
    assert forall|i: int, j: int| 0 <= i < n && 0 <= j < m implies #[trigger] shares[i][j]
        == row_commitments(powers, polys[j], w)[i] by {
        assert(rows_of_party(polys, i)[j] == polys[j][i]);
    }
    if forall|i: int| 0 <= i < n ==> all_some(#[trigger] shares[i]) {
        assert forall|j: int| 0 <= j < m implies all_some(
            #[trigger] row_commitments(powers, polys[j], w),
        ) by {
            let rc = row_commitments(powers, polys[j], w);
            assert forall|i: int| 0 <= i < rc.len() implies #[trigger] rc[i] is Some by {
                assert(shares[i][j] == rc[i]);
                assert(all_some(shares[i]));
            }
        }
        assert(same_width(g, g[0].len()));
        assert forall|j: int| 0 <= j < m implies column(g, j) == unwrap_all(
            #[trigger] row_commitments(powers, polys[j], w),
        ) by {
            let rc = row_commitments(powers, polys[j], w);
            assert forall|i: int| 0 <= i < n implies column(g, j)[i] == unwrap_all(rc)[i] by {
                assert(shares[i][j] == rc[i]);
            }
            assert(column(g, j) =~= unwrap_all(rc));
        }
        assert(g[0].len() == m);
        if summable(g, g1_sum_fn()) {
            assert forall|j: int| 0 <= j < m implies (#[trigger] poly_commitment(powers, polys[j], w))
                is Some by {
                assert(g1_sum_fn()(column(g, j)) is Some);
            }
        }
        if forall|j: int| 0 <= j < m ==> (#[trigger] poly_commitment(powers, polys[j], w)) is Some {
            assert forall|j: int| 0 <= j < g[0].len() implies #[trigger] g1_sum_fn()(column(g, j))
                is Some by {
                assert(poly_commitment(powers, polys[j], w) is Some);
            }
        }
    } else {
        let i = choose|i: int| 0 <= i < n && !all_some(#[trigger] shares[i]);
        let j = choose|j: int| 0 <= j < shares[i].len() && !(#[trigger] shares[i][j] is Some);
        assert(!all_some(row_commitments(powers, polys[j], w))) by {
            assert(row_commitments(powers, polys[j], w)[i] is None);
        }
    }
}

/// The master's challenge step of the opening: it alone absorbs the
/// aggregated `point` and squeezes the next challenge, then hands one copy of
/// it per party to the scatter, so that every party goes on with the same one.
pub fn master_challenge(
    t: &mut FsTranscript,
    point_label: &'static [u8],
    point: &Vec<u8>,
    challenge_label: &'static [u8],
    n: usize,
) -> (r: (Vec<u8>, Vec<Vec<u8>>))
    requires
        ops_fit(old(t).absorbed()),
        point@.len() <= u32::MAX,
    ensures
        final(t).domain() == old(t).domain(),
        final(t).absorbed() == old(t).absorbed().push(Absorbed::Message(point_label@, point@)).push(
            Absorbed::Challenge(challenge_label@, 64),
        ),
        ops_fit(final(t).absorbed()),
        r.0@ == challenge_of(
            old(t).domain(),
            old(t).absorbed().push(Absorbed::Message(point_label@, point@)),
            challenge_label@,
        ),
        r.1@.len() == n,
        forall|i: int| 0 <= i < n ==> (#[trigger] r.1@[i])@ == r.0@,
{
    t.append_point(point_label, point);
    let c = t.challenge_scalar(challenge_label);
    let mut copies: Vec<Vec<u8>> = Vec::new();
    let mut i: usize = 0;
    while i < n
        invariant
            i <= n,
            copies@.len() == i,
            forall|k: int| 0 <= k < i ==> (#[trigger] copies@[k])@ == c@,
        decreases n - i,
    {
        copies.push(c.clone());
        i = i + 1;
    }
    (c, copies)
}

/// The master's challenge step after a round of scalars: it alone absorbs
/// `scalars` as one list and squeezes the next challenge, with one copy per
/// party for the scatter.
pub fn master_scalars_challenge(
    t: &mut FsTranscript,
    label: &'static [u8],
    scalars: &Vec<Vec<u8>>,
    challenge_label: &'static [u8],
    n: usize,
) -> (r: (Vec<u8>, Vec<Vec<u8>>))
    requires
        ops_fit(old(t).absorbed()),
        forall|i: int| 0 <= i < scalars@.len() ==> #[trigger] scalars@[i]@.len() <= u32::MAX,
    ensures
        final(t).domain() == old(t).domain(),
        final(t).absorbed() == (old(t).absorbed() + list_ops(label@, encodings(scalars@))).push(
            Absorbed::Challenge(challenge_label@, 64),
        ),
        ops_fit(final(t).absorbed()),
        r.0@ == challenge_of(
            old(t).domain(),
            old(t).absorbed() + list_ops(label@, encodings(scalars@)),
            challenge_label@,
        ),
        r.1@.len() == n,
        forall|i: int| 0 <= i < n ==> (#[trigger] r.1@[i])@ == r.0@,
{
    t.append_scalars(label, scalars);
    let c = t.challenge_scalar(challenge_label);
    let mut copies: Vec<Vec<u8>> = Vec::new();
    let mut i: usize = 0;
    while i < n
        invariant
            i <= n,
            copies@.len() == i,
            forall|k: int| 0 <= k < i ==> (#[trigger] copies@[k])@ == c@,
        decreases n - i,
    {
        copies.push(c.clone());
        i = i + 1;
    }
    (c, copies)
}

/// The payload of the scatter that hands out a challenge: at the master, which
/// holds the aggregated point, one copy per party of the challenge squeezed
/// after absorbing it; at a worker, which holds nothing, nothing, and the
/// transcript is left alone.
pub fn point_challenge_payload(
    t: &mut FsTranscript,
    point_label: &'static [u8],
    aggregate: &Option<Vec<u8>>,
    challenge_label: &'static [u8],
    n: usize,
) -> (r: Option<Vec<Vec<u8>>>)
    requires
        ops_fit(old(t).absorbed()),
        aggregate matches Some(p) ==> p@.len() <= u32::MAX,
    ensures
        aggregate is None ==> r is None && final(t).absorbed() == old(t).absorbed(),
        final(t).domain() == old(t).domain(),
        ops_fit(final(t).absorbed()),
        aggregate matches Some(p) ==> {
            let h = old(t).absorbed().push(Absorbed::Message(point_label@, p@));
            &&& final(t).absorbed() == h.push(Absorbed::Challenge(challenge_label@, 64))
            &&& r matches Some(c) && c@.len() == n && forall|i: int|
                0 <= i < n ==> (#[trigger] c@[i])@ == challenge_of(old(t).domain(), h, challenge_label@)
        },
{
    match aggregate {
        Some(p) => {
            let (_, copies) = master_challenge(t, point_label, p, challenge_label, n);
            Some(copies)
        },
        None => None,
    }
}

/// The payload of the scatter that hands out a challenge after a list of
/// scalars: at the master, which holds the summed scalars, one copy per party
/// of the challenge squeezed after absorbing them; at a worker nothing.
pub fn scalars_challenge_payload(
    t: &mut FsTranscript,
    label: &'static [u8],
    aggregate: &Option<Vec<Vec<u8>>>,
    challenge_label: &'static [u8],
    n: usize,
) -> (r: Option<Vec<Vec<u8>>>)
    requires
        ops_fit(old(t).absorbed()),
        aggregate matches Some(s) ==> forall|i: int|
            0 <= i < s@.len() ==> #[trigger] s@[i]@.len() <= u32::MAX,
    ensures
        aggregate is None ==> r is None && final(t).absorbed() == old(t).absorbed(),
        final(t).domain() == old(t).domain(),
        ops_fit(final(t).absorbed()),
        aggregate matches Some(s) ==> {
            let h = old(t).absorbed() + list_ops(label@, encodings(s@));
            &&& final(t).absorbed() == h.push(Absorbed::Challenge(challenge_label@, 64))
            &&& r matches Some(c) && c@.len() == n && forall|i: int|
                0 <= i < n ==> (#[trigger] c@[i])@ == challenge_of(old(t).domain(), h, challenge_label@)
        },
{
    match aggregate {
        Some(s) => {
            let (_, copies) = master_scalars_challenge(t, label, s, challenge_label, n);
            Some(copies)
        },
        None => None,
    }
}

} // verus!
