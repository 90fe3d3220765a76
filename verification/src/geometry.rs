//! The grid geometry baker.
//!
//! Derives, once per solve session, the cached midpoint spacings and the
//! per-interior-vertex normalization coefficients that every relaxation sweep
//! consumes. For interior vertex `(x, y)` (with `1 <= x < nx`, `1 <= y < ny`)
//! the coefficient stored at `(x-1) + (y-1)*(nx-1)` combines the reciprocals
//! of the four neighboring spacings on both axes.

use vstd::prelude::*;
use crate::FieldError;
use crate::fixed::FX_ONE;
use crate::fixed::MAX_SPACING;
use crate::fixed::ints;
use crate::fixed::lemma_flat_index;
use crate::fixed::lemma_tdiv_bounds;
use crate::fixed::lemma_tdiv_lower;
use crate::fixed::tdiv;
use crate::fixed::tdiv128;

verus! {

/// The midpoint spacing between cells `i` and `i + 1`: the average of the two
/// adjacent spacings, truncated.
pub open spec fn mid_at(d: Seq<int>, i: int) -> int {
    tdiv(d[i] + d[i + 1], 2)
}

/// The fixed-point reciprocal of a spacing.
pub open spec fn recip_fx(d: int) -> int {
    tdiv(FX_ONE * FX_ONE, d)
}

/// One axis' contribution to a normalization coefficient: the sum of the two
/// neighboring reciprocals, divided by the midpoint spacing.
pub open spec fn axis_norm_at(d: Seq<int>, i: int) -> int {
    tdiv((recip_fx(d[i]) + recip_fx(d[i + 1])) * FX_ONE, mid_at(d, i))
}

/// The normalization coefficient of the interior vertex whose interior
/// coordinates are `(xm, ym)`.
pub open spec fn norm_at(dx: Seq<int>, dy: Seq<int>, xm: int, ym: int) -> int {
    axis_norm_at(dx, xm) + axis_norm_at(dy, ym)
}

/// Every spacing lies in the supported fixed-point range.
pub open spec fn spacing_ok(d: Seq<int>) -> bool {
    forall|i: int| 0 <= i < d.len() ==> 1 <= #[trigger] d[i] <= MAX_SPACING
}

/// Derives the midpoint spacings of one axis. Verified helper for
/// [`bake_geometry`].
fn bake_mids(d: &Vec<i64>) -> (mids: Vec<i64>)
    requires
        d@.len() >= 2,
        spacing_ok(ints(d@)),
    ensures
        mids@.len() == d@.len() - 1,
        forall|i: int|
            0 <= i < mids@.len() ==> #[trigger] (mids@[i] as int) == mid_at(ints(d@), i),
        forall|i: int| 0 <= i < mids@.len() ==> 1 <= #[trigger] mids@[i] <= MAX_SPACING,
{
    let n = d.len();
    let mut mids: Vec<i64> = Vec::new();
    let mut i: usize = 0;
    while i < n - 1
        invariant
            d@.len() == n,
            n >= 2,
            spacing_ok(ints(d@)),
            i <= n - 1,
            mids@.len() == i,
            forall|j: int|
                0 <= j < i ==> #[trigger] (mids@[j] as int) == mid_at(ints(d@), j),
            forall|j: int| 0 <= j < i ==> 1 <= #[trigger] mids@[j] <= MAX_SPACING,
        decreases n - 1 - i,
    {
        let sum: i128 = d[i] as i128 + d[i + 1] as i128;
        let m: i128 = tdiv128(sum, 2);
        proof {
            assert(1 <= ints(d@)[i as int] <= MAX_SPACING);
            assert(1 <= ints(d@)[i + 1] <= MAX_SPACING);
            lemma_tdiv_lower(sum as int, 2, 1);
            lemma_tdiv_bounds(sum as int, 2);
        }
        mids.push(m as i64);
        i = i + 1;
    }
    mids
}

/// Whether every entry of one axis is in range; used to report
/// `SpacingOutOfRange` exactly when one is not.
pub(crate) fn check_spacings(d: &Vec<i64>) -> (ok: bool)
    ensures
        ok == spacing_ok(ints(d@)),
{
    let n = d.len();
    let mut i: usize = 0;
    while i < n
        invariant
            d@.len() == n,
            i <= n,
            forall|j: int| 0 <= j < i ==> 1 <= #[trigger] (ints(d@)[j]) <= MAX_SPACING,
        decreases n - i,
    {
        if d[i] < 1 || d[i] > MAX_SPACING {
            proof {
                assert(!(1 <= ints(d@)[i as int] <= MAX_SPACING));
            }
            return false;
        }
        i = i + 1;
    }
    true
}

/// Bakes the derived grid geometry: the midpoint spacings of both axes and
/// the normalization field, one strictly positive coefficient per interior
/// vertex, laid out row-major with `nx - 1` columns.
///
/// Relies only on the raw axis spacings; call it once per grid-geometry
/// change, not per iteration.
pub fn bake_geometry(dx: &Vec<i64>, dy: &Vec<i64>) -> (r: Result<
    (Vec<i64>, Vec<i64>, Vec<i64>),
    FieldError,
>)
    ensures
        match r {
            Ok(baked) => {
                &&& dx@.len() >= 2 && dy@.len() >= 2
                &&& spacing_ok(ints(dx@)) && spacing_ok(ints(dy@))
                &&& baked.0@.len() == dx@.len() - 1
                &&& baked.1@.len() == dy@.len() - 1
                &&& baked.2@.len() == (dx@.len() - 1) * (dy@.len() - 1)
                &&& forall|i: int|
                    0 <= i < baked.0@.len() ==> #[trigger] (baked.0@[i] as int) == mid_at(
                        ints(dx@),
                        i,
                    )
                &&& forall|i: int|
                    0 <= i < baked.1@.len() ==> #[trigger] (baked.1@[i] as int) == mid_at(
                        ints(dy@),
                        i,
                    )
                &&& forall|j: int|
                    0 <= j < baked.2@.len() ==> #[trigger] (baked.2@[j] as int) == norm_at(
                        ints(dx@),
                        ints(dy@),
                        j % (dx@.len() - 1),
                        j / (dx@.len() - 1),
                    )
                &&& forall|i: int| 0 <= i < baked.0@.len() ==> #[trigger] baked.0@[i] >= 1
                &&& forall|i: int| 0 <= i < baked.1@.len() ==> #[trigger] baked.1@[i] >= 1
                &&& forall|j: int| 0 <= j < baked.2@.len() ==> #[trigger] baked.2@[j] >= 1
            },
            Err(FieldError::InvalidGridDimension) => dx@.len() < 2 || dy@.len() < 2,
            Err(FieldError::SpacingOutOfRange) => dx@.len() >= 2 && dy@.len() >= 2 && !(spacing_ok(
                ints(dx@),
            ) && spacing_ok(ints(dy@))),
            Err(_) => false,
        },
{
    let nx = dx.len();
    let ny = dy.len();
    if nx < 2 || ny < 2 {
        return Err(FieldError::InvalidGridDimension);
    }
    if !check_spacings(dx) || !check_spacings(dy) {
        return Err(FieldError::SpacingOutOfRange);
    }
    let dx_mid = bake_mids(dx);
    let dy_mid = bake_mids(dy);

    let nxm = nx - 1;
    let nym = ny - 1;
    let mut norm: Vec<i64> = Vec::new();
    let mut ym: usize = 0;
    while ym < nym
        invariant
            dx@.len() == nx,
            dy@.len() == ny,
            nx >= 2,
            ny >= 2,
            nxm == nx - 1,
            nym == ny - 1,
            spacing_ok(ints(dx@)),
            spacing_ok(ints(dy@)),
            dx_mid@.len() == nxm,
            dy_mid@.len() == nym,
            forall|i: int|
                0 <= i < nxm ==> #[trigger] (dx_mid@[i] as int) == mid_at(ints(dx@), i),
            forall|i: int|
                0 <= i < nym ==> #[trigger] (dy_mid@[i] as int) == mid_at(ints(dy@), i),
            ym <= nym,
            norm@.len() == ym * nxm,
            forall|j: int|
                0 <= j < norm@.len() ==> #[trigger] (norm@[j] as int) == norm_at(
                    ints(dx@),
                    ints(dy@),
                    j % (nxm as int),
                    j / (nxm as int),
                ),
            forall|j: int| 0 <= j < norm@.len() ==> #[trigger] norm@[j] >= 1,
        decreases nym - ym,
    {
        let ay = axis_norm_term(dy, &dy_mid, ym);
        let mut xm: usize = 0;
        while xm < nxm
            invariant
                dx@.len() == nx,
                dy@.len() == ny,
                nx >= 2,
                ny >= 2,
                nxm == nx - 1,
                nym == ny - 1,
                spacing_ok(ints(dx@)),
                spacing_ok(ints(dy@)),
                dx_mid@.len() == nxm,
                dy_mid@.len() == nym,
                forall|i: int|
                    0 <= i < nxm ==> #[trigger] (dx_mid@[i] as int) == mid_at(ints(dx@), i),
                forall|i: int|
                    0 <= i < nym ==> #[trigger] (dy_mid@[i] as int) == mid_at(ints(dy@), i),
                ym < nym,
                ay as int == axis_norm_at(ints(dy@), ym as int),
                1 <= ay <= 0x4000000000000,
                xm <= nxm,
                norm@.len() == ym * nxm + xm,
                forall|j: int|
                    0 <= j < norm@.len() ==> #[trigger] (norm@[j] as int) == norm_at(
                        ints(dx@),
                        ints(dy@),
                        j % (nxm as int),
                        j / (nxm as int),
                    ),
                forall|j: int| 0 <= j < norm@.len() ==> #[trigger] norm@[j] >= 1,
            decreases nxm - xm,
        {
            let ax = axis_norm_term(dx, &dx_mid, xm);
            let n = ax + ay;
            proof {
                lemma_flat_index(ym as int, nxm as int, xm as int);
                assert(norm@.len() + 1 == ym * nxm + (xm + 1));
            }
            norm.push(n);
            xm = xm + 1;
        }
        proof {
            assert((ym + 1) * nxm == ym * nxm + nxm) by (nonlinear_arith);
        }
        ym = ym + 1;
    }
    proof {
        assert(norm@.len() == (nx - 1) * (ny - 1)) by (nonlinear_arith)
            requires
                norm@.len() == nym * nxm,
                nxm == nx - 1,
                nym == ny - 1;
    }
    Ok((dx_mid, dy_mid, norm))
}

/// One axis' normalization term at interior coordinate `i`, proved strictly
/// positive and comfortably inside `i64`.
fn axis_norm_term(d: &Vec<i64>, mids: &Vec<i64>, i: usize) -> (t: i64)
    requires
        d@.len() >= 2,
        spacing_ok(ints(d@)),
        mids@.len() == d@.len() - 1,
        i < mids@.len(),
        mids@[i as int] as int == mid_at(ints(d@), i as int),
    ensures
        t as int == axis_norm_at(ints(d@), i as int),
        1 <= t <= 0x4000000000000,
{
    let n = d.len();
    proof {
        assert(i + 1 < n);
    }
    let fx_sq: i128 = FX_ONE as i128 * FX_ONE as i128;
    let r0: i128 = tdiv128(fx_sq, d[i] as i128);
    let r1: i128 = tdiv128(fx_sq, d[i + 1] as i128);
    let m: i128 = mids[i] as i128;
    proof {
        assert(1 <= ints(d@)[i as int] <= MAX_SPACING);
        assert(1 <= ints(d@)[i + 1] <= MAX_SPACING);
        // each reciprocal is at least 256 and at most 2^32
        lemma_tdiv_lower(fx_sq as int, ints(d@)[i as int], 256);
        lemma_tdiv_lower(fx_sq as int, ints(d@)[i + 1], 256);
        lemma_tdiv_bounds(fx_sq as int, ints(d@)[i as int]);
        lemma_tdiv_bounds(fx_sq as int, ints(d@)[i + 1]);
        // the midpoint spacing is in the supported range
        lemma_tdiv_lower(ints(d@)[i as int] + ints(d@)[i + 1], 2, 1);
        lemma_tdiv_bounds(ints(d@)[i as int] + ints(d@)[i + 1], 2);
        // the dividend dominates the divisor, so the term is at least 1
        lemma_tdiv_lower((r0 + r1) as int * FX_ONE, m as int, 1);
        lemma_tdiv_bounds((r0 + r1) as int * FX_ONE, m as int);
        assert((r0 + r1) as int * FX_ONE >= 1 * (m as int)) by (nonlinear_arith)
            requires
                r0 + r1 >= 512,
                FX_ONE == 65536,
                0 < m <= MAX_SPACING,
                MAX_SPACING == 16777216;
        assert((r0 + r1) as int * FX_ONE <= 0x4000000000000) by (nonlinear_arith)
            requires
                0 <= r0 + r1 <= 0x200000000,
                FX_ONE == 65536;
    }
    let t: i128 = tdiv128((r0 + r1) * FX_ONE as i128, m);
    t as i64
}

} // verus!
