//! The energy integrator.
//!
//! Total stored field energy over the `(nx-1) * (ny-1)` interior cells of a
//! field snapshot, using two-point-per-axis Gauss-Legendre quadrature: the
//! two field samples bracketing a cell on each axis are blended at the two
//! fixed quadrature offsets, the four node energy densities `ex^2 + ey^2` are
//! summed, and the sum is scaled by a quarter of the cell area. Unlike a
//! single midpoint sample, the rule is exact for fields that vary linearly
//! across a cell.
//!
//! The inhomogeneous variant weights each cell by a relative permittivity
//! resolved through the parameter codec, blending the baseline table entry
//! (index 0) with the indexed entry by the decoded level.

use vstd::prelude::*;
use crate::FieldError;
use crate::codec::word_beta;
use crate::codec::word_index;
use crate::fixed::BETA_ONE;
use crate::fixed::FIELD_LIMIT;
use crate::fixed::FX_ONE;
use crate::fixed::MAX_SPACING;
use crate::fixed::PERMITTIVITY_LIMIT;
use crate::fixed::QUAD_A0;
use crate::fixed::QUAD_A1;
use crate::fixed::in_i64;
use crate::fixed::ints;
use crate::fixed::lemma_cell_coords;
use crate::fixed::lemma_grid_index_bound;
use crate::fixed::lemma_tdiv_bounds;
use crate::fixed::lemma_tdiv_compose;
use crate::fixed::lemma_tdiv_exact;
use crate::fixed::lemma_tdiv_le_scale;
use crate::fixed::lemma_weighted_avg_bound;
use crate::fixed::tdiv;
use crate::fixed::tdiv128;
use crate::geometry::spacing_ok;
use crate::geometry::check_spacings;
use crate::solver::e_index;
use crate::solver::check_table_indices;
use crate::unpack_data;

verus! {

/// Fixed-point multiplication, truncated.
pub open spec fn fx_mul(a: int, b: int) -> int {
    tdiv(a * b, FX_ONE as int)
}

/// A field sample blended between two bracketing samples at one quadrature
/// offset; the weights always sum to exactly one.
pub open spec fn quad_blend(s0: int, s1: int, w0: int, w1: int) -> int {
    tdiv(s0 * w0 + s1 * w1, FX_ONE as int)
}

/// The quadrature energy of one cell, from the two field samples bracketing
/// it on each axis and its two spacings.
pub open spec fn quad_cell(ex0: int, ex1: int, ey0: int, ey1: int, dx: int, dy: int) -> int {
    let ex0s = quad_blend(ex0, ex1, QUAD_A1 as int, QUAD_A0 as int);
    let ex1s = quad_blend(ex0, ex1, QUAD_A0 as int, QUAD_A1 as int);
    let ey0s = quad_blend(ey0, ey1, QUAD_A1 as int, QUAD_A0 as int);
    let ey1s = quad_blend(ey0, ey1, QUAD_A0 as int, QUAD_A1 as int);
    let f00 = fx_mul(ex0s, ex0s) + fx_mul(ey0s, ey0s);
    let f01 = fx_mul(ex0s, ex0s) + fx_mul(ey1s, ey1s);
    let f10 = fx_mul(ex1s, ex1s) + fx_mul(ey0s, ey0s);
    let f11 = fx_mul(ex1s, ex1s) + fx_mul(ey1s, ey1s);
    let area = fx_mul(dx, dy);
    tdiv(tdiv((f00 + f01 + f10 + f11) * area, FX_ONE as int), 4)
}

/// Whether all six quadrature inputs are within the supported fixed-point
/// range.
pub open spec fn quad_inputs_ok(
    ex0: int,
    ex1: int,
    ey0: int,
    ey1: int,
    dx: int,
    dy: int,
) -> bool {
    &&& -FIELD_LIMIT <= ex0 <= FIELD_LIMIT
    &&& -FIELD_LIMIT <= ex1 <= FIELD_LIMIT
    &&& -FIELD_LIMIT <= ey0 <= FIELD_LIMIT
    &&& -FIELD_LIMIT <= ey1 <= FIELD_LIMIT
    &&& 1 <= dx <= MAX_SPACING
    &&& 1 <= dy <= MAX_SPACING
}

/// Every field sample is within the supported range.
pub open spec fn field_bounded(e: Seq<int>) -> bool {
    forall|k: int| 0 <= k < e.len() ==> -FIELD_LIMIT <= #[trigger] e[k] <= FIELD_LIMIT
}

/// Every table entry is within the supported permittivity range.
pub open spec fn table_bounded(t: Seq<int>) -> bool {
    forall|k: int| 0 <= k < t.len() ==> -PERMITTIVITY_LIMIT <= #[trigger] t[k]
        <= PERMITTIVITY_LIMIT
}

/// The quadrature energy of the interior cell with flat index `c` (row-major
/// with `nx - 1` columns).
pub open spec fn cell_energy(e: Seq<int>, dx: Seq<int>, dy: Seq<int>, c: int) -> int {
    let nx = dx.len() as int;
    let x = c % (nx - 1);
    let y = c / (nx - 1);
    quad_cell(
        e[e_index(nx, x, y, 0)],
        e[e_index(nx, x, y + 1, 0)],
        e[e_index(nx, x, y, 1)],
        e[e_index(nx, x + 1, y, 1)],
        dx[x],
        dy[y],
    )
}

/// The homogeneous energy summed over the first `c` interior cells.
pub open spec fn hom_energy(e: Seq<int>, dx: Seq<int>, dy: Seq<int>, c: nat) -> int
    decreases c,
{
    if c == 0 {
        0
    } else {
        hom_energy(e, dx, dy, (c - 1) as nat) + cell_energy(e, dx, dy, c - 1)
    }
}

/// Whether every partial homogeneous sum up to `c` cells is representable.
pub open spec fn hom_ok(e: Seq<int>, dx: Seq<int>, dy: Seq<int>, c: nat) -> bool {
    forall|j: nat| j <= c ==> in_i64(#[trigger] hom_energy(e, dx, dy, j))
}

/// The relative permittivity resolved from one packed word: the baseline
/// entry blended toward the indexed entry by the decoded level.
pub open spec fn permittivity_at(er_table: Seq<int>, w: int) -> int {
    tdiv(
        (BETA_ONE - word_beta(w)) * er_table[0] + word_beta(w) * er_table[word_index(w)],
        BETA_ONE as int,
    )
}

/// The permittivity-weighted energy of the interior cell with flat index `c`.
pub open spec fn inhom_cell(
    e: Seq<int>,
    er_table: Seq<int>,
    er_map: Seq<u32>,
    dx: Seq<int>,
    dy: Seq<int>,
    c: int,
) -> int {
    let nx = dx.len() as int;
    let x = c % (nx - 1);
    let y = c / (nx - 1);
    fx_mul(permittivity_at(er_table, er_map[x + y * nx] as int), cell_energy(e, dx, dy, c))
}

/// The inhomogeneous energy summed over the first `c` interior cells.
pub open spec fn inhom_energy(
    e: Seq<int>,
    er_table: Seq<int>,
    er_map: Seq<u32>,
    dx: Seq<int>,
    dy: Seq<int>,
    c: nat,
) -> int
    decreases c,
{
    if c == 0 {
        0
    } else {
        inhom_energy(e, er_table, er_map, dx, dy, (c - 1) as nat) + inhom_cell(
            e,
            er_table,
            er_map,
            dx,
            dy,
            c - 1,
        )
    }
}

/// Whether every partial inhomogeneous sum up to `c` cells is representable.
pub open spec fn inhom_ok(
    e: Seq<int>,
    er_table: Seq<int>,
    er_map: Seq<u32>,
    dx: Seq<int>,
    dy: Seq<int>,
    c: nat,
) -> bool {
    forall|j: nat| j <= c ==> in_i64(#[trigger] inhom_energy(e, er_table, er_map, dx, dy, j))
}

/// One blended field sample, bounded by its operands. Verified helper for
/// [`quad_cell_fx`].
fn blend_fx(s0: i64, s1: i64, w0: i64, w1: i64) -> (b: i128)
    requires
        -FIELD_LIMIT <= s0 <= FIELD_LIMIT,
        -FIELD_LIMIT <= s1 <= FIELD_LIMIT,
        0 <= w0,
        0 <= w1,
        w0 + w1 == FX_ONE,
    ensures
        b as int == quad_blend(s0 as int, s1 as int, w0 as int, w1 as int),
        -FIELD_LIMIT <= b <= FIELD_LIMIT,
{
    proof {
        assert(-0x10000000000000000 <= (s0 as i128) * (w0 as i128) <= 0x10000000000000000
            && -0x10000000000000000 <= (s1 as i128) * (w1 as i128) <= 0x10000000000000000)
            by (nonlinear_arith)
            requires
                -0x1000000000000 <= s0 <= 0x1000000000000,
                -0x1000000000000 <= s1 <= 0x1000000000000,
                0 <= w0 <= 0x10000,
                0 <= w1 <= 0x10000;
        lemma_weighted_avg_bound(
            s0 as int,
            s1 as int,
            w0 as int,
            w1 as int,
            FX_ONE as int,
            FIELD_LIMIT as int,
        );
        assert(w0 as int * (s0 as int) + w1 as int * (s1 as int) == s0 as int * (w0 as int)
            + s1 as int * (w1 as int)) by (nonlinear_arith);
    }
    tdiv128(s0 as i128 * w0 as i128 + s1 as i128 * w1 as i128, FX_ONE as i128)
}

/// The quadrature energy of one cell, computed exactly; the `i128` result
/// never overflows for inputs in the supported range.
fn quad_cell_fx(ex0: i64, ex1: i64, ey0: i64, ey1: i64, dxc: i64, dyc: i64) -> (q: i128)
    requires
        quad_inputs_ok(ex0 as int, ex1 as int, ey0 as int, ey1 as int, dxc as int, dyc as int),
    ensures
        q as int == quad_cell(ex0 as int, ex1 as int, ey0 as int, ey1 as int, dxc as int,
        dyc as int),
        -0x2000000000000000000000000 <= q <= 0x2000000000000000000000000,
{
    let sx0: i128 = blend_fx(ex0, ex1, QUAD_A1, QUAD_A0);
    let sx1: i128 = blend_fx(ex0, ex1, QUAD_A0, QUAD_A1);
    let sy0: i128 = blend_fx(ey0, ey1, QUAD_A1, QUAD_A0);
    let sy1: i128 = blend_fx(ey0, ey1, QUAD_A0, QUAD_A1);
    proof {
        assert(0 <= sx0 * sx0 <= 0x1000000000000000000000000 && 0 <= sx1 * sx1
            <= 0x1000000000000000000000000 && 0 <= sy0 * sy0 <= 0x1000000000000000000000000 && 0
            <= sy1 * sy1 <= 0x1000000000000000000000000) by (nonlinear_arith)
            requires
                -0x1000000000000 <= sx0 <= 0x1000000000000,
                -0x1000000000000 <= sx1 <= 0x1000000000000,
                -0x1000000000000 <= sy0 <= 0x1000000000000,
                -0x1000000000000 <= sy1 <= 0x1000000000000;
        lemma_tdiv_le_scale((sx0 * sx0) as int, FX_ONE as int, 0x100000000000000000000);
        lemma_tdiv_le_scale((sx1 * sx1) as int, FX_ONE as int, 0x100000000000000000000);
        lemma_tdiv_le_scale((sy0 * sy0) as int, FX_ONE as int, 0x100000000000000000000);
        lemma_tdiv_le_scale((sy1 * sy1) as int, FX_ONE as int, 0x100000000000000000000);
    }
    let qx0: i128 = tdiv128(sx0 * sx0, FX_ONE as i128);
    let qx1: i128 = tdiv128(sx1 * sx1, FX_ONE as i128);
    let qy0: i128 = tdiv128(sy0 * sy0, FX_ONE as i128);
    let qy1: i128 = tdiv128(sy1 * sy1, FX_ONE as i128);
    let f00 = qx0 + qy0;
    let f01 = qx0 + qy1;
    let f10 = qx1 + qy0;
    let f11 = qx1 + qy1;
    proof {
        assert(1 <= (dxc as i128) * (dyc as i128) <= 0x1000000000000) by (nonlinear_arith)
            requires
                1 <= dxc <= 0x1000000,
                1 <= dyc <= 0x1000000;
        lemma_tdiv_le_scale((dxc as i128 * dyc as i128) as int, FX_ONE as int, 0x100000000);
        lemma_tdiv_bounds((dxc as i128 * dyc as i128) as int, FX_ONE as int);
    }
    let area: i128 = tdiv128(dxc as i128 * dyc as i128, FX_ONE as i128);
    let sum4 = f00 + f01 + f10 + f11;
    proof {
        assert(-0x80000000000000000000000000000 <= sum4 * area
            <= 0x80000000000000000000000000000) by (nonlinear_arith)
            requires
                -0x800000000000000000000 <= sum4 <= 0x800000000000000000000,
                0 <= area <= 0x100000000;
        lemma_tdiv_le_scale((sum4 * area) as int, FX_ONE as int, 0x8000000000000000000000000);
    }
    let scaled = tdiv128(sum4 * area, FX_ONE as i128);
    proof {
        lemma_tdiv_le_scale(scaled as int, 4, 0x2000000000000000000000000);
    }
    let q = tdiv128(scaled, 4);
    q
}

/// The Gauss-Legendre quadrature energy of one cell. Returns `None` exactly
/// when an input lies outside the supported fixed-point range or the energy
/// itself is not representable.
pub fn get_gauss_legendre_integral(ex0: i64, ex1: i64, ey0: i64, ey1: i64, dx: i64, dy: i64) -> (r:
    Option<i64>)
    ensures
        ({
            let q = quad_cell(ex0 as int, ex1 as int, ey0 as int, ey1 as int, dx as int, dy as int);
            let ok = quad_inputs_ok(
                ex0 as int,
                ex1 as int,
                ey0 as int,
                ey1 as int,
                dx as int,
                dy as int,
            );
            match r {
                Some(v) => ok && in_i64(q) && v as int == q,
                None => !ok || !in_i64(q),
            }
        }),
{
    if ex0 < -FIELD_LIMIT || ex0 > FIELD_LIMIT || ex1 < -FIELD_LIMIT || ex1 > FIELD_LIMIT || ey0
        < -FIELD_LIMIT || ey0 > FIELD_LIMIT || ey1 < -FIELD_LIMIT || ey1 > FIELD_LIMIT || dx < 1
        || dx > MAX_SPACING || dy < 1 || dy > MAX_SPACING {
        return None;
    }
    let q = quad_cell_fx(ex0, ex1, ey0, ey1, dx, dy);
    if q < i64::MIN as i128 || q > i64::MAX as i128 {
        return None;
    }
    Some(q as i64)
}

/// Whether every field sample is in the supported range.
fn check_field_limit(e: &Vec<i64>) -> (ok: bool)
    ensures
        ok == field_bounded(ints(e@)),
{
    let n = e.len();
    let mut i: usize = 0;
    while i < n
        invariant
            e@.len() == n,
            i <= n,
            forall|j: int| 0 <= j < i ==> -FIELD_LIMIT <= #[trigger] (ints(e@)[j]) <= FIELD_LIMIT,
        decreases n - i,
    {
        if e[i] < -FIELD_LIMIT || e[i] > FIELD_LIMIT {
            proof {
                assert(!(-FIELD_LIMIT <= ints(e@)[i as int] <= FIELD_LIMIT));
            }
            return false;
        }
        i = i + 1;
    }
    true
}

/// Whether every permittivity-table entry is in the supported range.
fn check_table_limit(t: &Vec<i64>) -> (ok: bool)
    ensures
        ok == table_bounded(ints(t@)),
{
    let n = t.len();
    let mut i: usize = 0;
    while i < n
        invariant
            t@.len() == n,
            i <= n,
            forall|j: int|
                0 <= j < i ==> -PERMITTIVITY_LIMIT <= #[trigger] (ints(t@)[j])
                    <= PERMITTIVITY_LIMIT,
        decreases n - i,
    {
        if t[i] < -PERMITTIVITY_LIMIT || t[i] > PERMITTIVITY_LIMIT {
            proof {
                assert(!(-PERMITTIVITY_LIMIT <= ints(t@)[i as int] <= PERMITTIVITY_LIMIT));
            }
            return false;
        }
        i = i + 1;
    }
    true
}

/// Total stored field energy of a snapshot, by Gauss-Legendre quadrature over
/// every interior cell. Pure: reads the buffers and mutates nothing.
pub fn calculate_homogenous_energy_2d(e: &Vec<i64>, dx: &Vec<i64>, dy: &Vec<i64>) -> (r: Result<
    i64,
    FieldError,
>)
    ensures
        ({
            let ei = ints(e@);
            let dxi = ints(dx@);
            let dyi = ints(dy@);
            let ncells = ((dx@.len() - 1) * (dy@.len() - 1)) as nat;
            match r {
                Ok(t) => {
                    &&& dx@.len() >= 2 && dy@.len() >= 2
                    &&& e@.len() == 2 * dx@.len() * dy@.len()
                    &&& spacing_ok(dxi) && spacing_ok(dyi)
                    &&& field_bounded(ei)
                    &&& hom_ok(ei, dxi, dyi, ncells)
                    &&& t as int == hom_energy(ei, dxi, dyi, ncells)
                },
                Err(FieldError::InvalidGridDimension) => dx@.len() < 2 || dy@.len() < 2,
                Err(FieldError::LengthMismatch) => dx@.len() >= 2 && dy@.len() >= 2 && e@.len()
                    != 2 * dx@.len() * dy@.len(),
                Err(FieldError::SpacingOutOfRange) => dx@.len() >= 2 && dy@.len() >= 2 && e@.len()
                    == 2 * dx@.len() * dy@.len() && !(spacing_ok(dxi) && spacing_ok(dyi)),
                Err(FieldError::ValueOutOfRange) => dx@.len() >= 2 && dy@.len() >= 2 && e@.len()
                    == 2 * dx@.len() * dy@.len() && spacing_ok(dxi) && spacing_ok(dyi)
                    && !field_bounded(ei),
                Err(FieldError::ValueOverflow) => dx@.len() >= 2 && dy@.len() >= 2 && e@.len() == 2
                    * dx@.len() * dy@.len() && spacing_ok(dxi) && spacing_ok(dyi) && field_bounded(
                    ei,
                ) && !hom_ok(ei, dxi, dyi, ncells),
                Err(_) => false,
            }
        }),
{
    let ghost ei = ints(e@);
    let ghost dxi = ints(dx@);
    let ghost dyi = ints(dy@);
    let nx = dx.len();
    let ny = dy.len();
    let ne = e.len();
    if nx < 2 || ny < 2 {
        return Err(FieldError::InvalidGridDimension);
    }
    let nxy = match nx.checked_mul(ny) {
        Some(t) => t,
        None => {
            proof {
                assert(2 * nx as int * ny as int >= nx as int * ny as int) by (nonlinear_arith)
                    requires
                        nx >= 2,
                        ny >= 2;
            }
            return Err(FieldError::LengthMismatch);
        },
    };
    proof {
        assert(2 * nx as int * ny as int == nxy as int * 2) by (nonlinear_arith)
            requires
                nxy == nx as int * ny as int;
    }
    if !crate::solver::mul_matches(ne, nxy, 2) {
        return Err(FieldError::LengthMismatch);
    }
    if !(check_spacings(dx) && check_spacings(dy)) {
        return Err(FieldError::SpacingOutOfRange);
    }
    if !check_field_limit(e) {
        return Err(FieldError::ValueOutOfRange);
    }
    let nxm = nx - 1;
    let nym = ny - 1;
    proof {
        assert(nxm as int * nym as int <= nx as int * ny as int) by (nonlinear_arith)
            requires
                nxm == nx as int - 1,
                nym == ny as int - 1,
                nx >= 2,
                ny >= 2;
    }
    let ncells = nxm * nym;
    let mut acc: i64 = 0;
    let mut c: usize = 0;
    while c < ncells
        invariant
            dx@.len() == nx,
            dy@.len() == ny,
            e@.len() == ne,
            nx >= 2,
            ny >= 2,
            ei == ints(e@),
            dxi == ints(dx@),
            dyi == ints(dy@),
            ne == 2 * nx * ny,
            spacing_ok(dxi),
            spacing_ok(dyi),
            field_bounded(ei),
            nxm == nx - 1,
            nym == ny - 1,
            ncells == nxm * nym,
            c <= ncells,
            acc as int == hom_energy(ei, dxi, dyi, c as nat),
            forall|j: nat| j <= c ==> in_i64(#[trigger] hom_energy(ei, dxi, dyi, j)),
        decreases ncells - c,
    {
        let x = c % nxm;
        let y = c / nxm;
        proof {
            lemma_cell_coords(nxm as int, nym as int, c as int);
            lemma_grid_index_bound(nx as int, ny as int, x as int, y as int);
            lemma_grid_index_bound(nx as int, ny as int, x as int, y as int + 1);
            lemma_grid_index_bound(nx as int, ny as int, x as int + 1, y as int);
            assert((2 * nx as int) * ny as int == 2 * (nx as int * ny as int))
                by (nonlinear_arith);
        }
        let i00 = 2 * (x + y * nx);
        let i01 = 2 * ((x + 1) + y * nx);
        let i10 = 2 * (x + (y + 1) * nx);
        proof {
            assert(-FIELD_LIMIT <= ei[i00 as int] <= FIELD_LIMIT);
            assert(-FIELD_LIMIT <= ei[i00 + 1] <= FIELD_LIMIT);
            assert(-FIELD_LIMIT <= ei[i10 as int] <= FIELD_LIMIT);
            assert(-FIELD_LIMIT <= ei[i01 + 1] <= FIELD_LIMIT);
            assert(1 <= dxi[x as int] <= MAX_SPACING);
            assert(1 <= dyi[y as int] <= MAX_SPACING);
        }
        let q = quad_cell_fx(e[i00], e[i10], e[i00 + 1], e[i01 + 1], dx[x], dy[y]);
        proof {
            assert(q as int == cell_energy(ei, dxi, dyi, c as int));
        }
        let t = acc as i128 + q;
        proof {
            assert(hom_energy(ei, dxi, dyi, (c + 1) as nat) == acc + q);
        }
        if t < i64::MIN as i128 || t > i64::MAX as i128 {
            proof {
                assert(!in_i64(hom_energy(ei, dxi, dyi, (c + 1) as nat)));
            }
            return Err(FieldError::ValueOverflow);
        }
        acc = t as i64;
        c = c + 1;
    }
    Ok(acc)
}

/// Total stored field energy weighted per cell by a relative permittivity
/// resolved through the parameter codec: the baseline table entry (index 0)
/// blended toward the indexed entry by the decoded level. Pure.
#[verifier::rlimit(30)]
pub fn calculate_inhomogenous_energy_2d(
    e: &Vec<i64>,
    er_table: &Vec<i64>,
    er_index_beta: &Vec<u32>,
    dx: &Vec<i64>,
    dy: &Vec<i64>,
) -> (r: Result<i64, FieldError>)
    ensures
        ({
            let ei = ints(e@);
            let ert = ints(er_table@);
            let dxi = ints(dx@);
            let dyi = ints(dy@);
            let ncells = ((dx@.len() - 1) * (dy@.len() - 1)) as nat;
            let dims = dx@.len() >= 2 && dy@.len() >= 2;
            let lens = e@.len() == 2 * dx@.len() * dy@.len() && er_index_beta@.len() == dx@.len()
                * dy@.len() && er_table@.len() >= 1;
            let spaces = spacing_ok(dxi) && spacing_ok(dyi);
            let indices = forall|i: int|
                0 <= i < er_index_beta@.len() ==> word_index(#[trigger] er_index_beta@[i] as int)
                    < er_table@.len();
            let bounds = field_bounded(ei) && table_bounded(ert);
            match r {
                Ok(t) => {
                    &&& dims && lens && spaces && indices && bounds
                    &&& inhom_ok(ei, ert, er_index_beta@, dxi, dyi, ncells)
                    &&& t as int == inhom_energy(ei, ert, er_index_beta@, dxi, dyi, ncells)
                },
                Err(FieldError::InvalidGridDimension) => !dims,
                Err(FieldError::LengthMismatch) => dims && !lens,
                Err(FieldError::SpacingOutOfRange) => dims && lens && !spaces,
                Err(FieldError::TableIndexOutOfRange) => dims && lens && spaces && !indices,
                Err(FieldError::ValueOutOfRange) => dims && lens && spaces && indices && !bounds,
                Err(FieldError::ValueOverflow) => dims && lens && spaces && indices && bounds
                    && !inhom_ok(ei, ert, er_index_beta@, dxi, dyi, ncells),
                Err(_) => false,
            }
        }),
{
    let ghost ei = ints(e@);
    let ghost ert = ints(er_table@);
    let ghost dxi = ints(dx@);
    let ghost dyi = ints(dy@);
    let nx = dx.len();
    let ny = dy.len();
    let ne = e.len();
    if nx < 2 || ny < 2 {
        return Err(FieldError::InvalidGridDimension);
    }
    let nxy = match nx.checked_mul(ny) {
        Some(t) => t,
        None => {
            proof {
                assert(2 * nx as int * ny as int >= nx as int * ny as int) by (nonlinear_arith)
                    requires
                        nx >= 2,
                        ny >= 2;
            }
            return Err(FieldError::LengthMismatch);
        },
    };
    proof {
        assert(2 * nx as int * ny as int == nxy as int * 2) by (nonlinear_arith)
            requires
                nxy == nx as int * ny as int;
    }
    if !(crate::solver::mul_matches(ne, nxy, 2) && er_index_beta.len() == nxy && er_table.len()
        >= 1) {
        return Err(FieldError::LengthMismatch);
    }
    if !(check_spacings(dx) && check_spacings(dy)) {
        return Err(FieldError::SpacingOutOfRange);
    }
    if !check_table_indices(er_index_beta, er_table.len()) {
        return Err(FieldError::TableIndexOutOfRange);
    }
    if !(check_field_limit(e) && check_table_limit(er_table)) {
        return Err(FieldError::ValueOutOfRange);
    }
    let nxm = nx - 1;
    let nym = ny - 1;
    proof {
        assert(nxm as int * nym as int <= nx as int * ny as int) by (nonlinear_arith)
            requires
                nxm == nx as int - 1,
                nym == ny as int - 1,
                nx >= 2,
                ny >= 2;
    }
    let ncells = nxm * nym;
    let mut acc: i64 = 0;
    let mut c: usize = 0;
    while c < ncells
        invariant
            dx@.len() == nx,
            dy@.len() == ny,
            e@.len() == ne,
            er_index_beta@.len() == nxy,
            er_table@.len() >= 1,
            nx >= 2,
            ny >= 2,
            ei == ints(e@),
            ert == ints(er_table@),
            dxi == ints(dx@),
            dyi == ints(dy@),
            ne == 2 * nx * ny,
            nxy == nx * ny,
            spacing_ok(dxi),
            spacing_ok(dyi),
            field_bounded(ei),
            table_bounded(ert),
            forall|i: int|
                0 <= i < er_index_beta@.len() ==> word_index(#[trigger] er_index_beta@[i] as int)
                    < er_table@.len(),
            nxm == nx - 1,
            nym == ny - 1,
            ncells == nxm * nym,
            c <= ncells,
            acc as int == inhom_energy(ei, ert, er_index_beta@, dxi, dyi, c as nat),
            forall|j: nat|
                j <= c ==> in_i64(#[trigger] inhom_energy(ei, ert, er_index_beta@, dxi, dyi, j)),
        decreases ncells - c,
    {
        let x = c % nxm;
        let y = c / nxm;
        proof {
            lemma_cell_coords(nxm as int, nym as int, c as int);
            lemma_grid_index_bound(nx as int, ny as int, x as int, y as int);
            lemma_grid_index_bound(nx as int, ny as int, x as int, y as int + 1);
            lemma_grid_index_bound(nx as int, ny as int, x as int + 1, y as int);
            assert((2 * nx as int) * ny as int == 2 * (nx as int * ny as int))
                by (nonlinear_arith);
        }
        let i00 = 2 * (x + y * nx);
        let i01 = 2 * ((x + 1) + y * nx);
        let i10 = 2 * (x + (y + 1) * nx);
        proof {
            assert(-FIELD_LIMIT <= ei[i00 as int] <= FIELD_LIMIT);
            assert(-FIELD_LIMIT <= ei[i00 + 1] <= FIELD_LIMIT);
            assert(-FIELD_LIMIT <= ei[i10 as int] <= FIELD_LIMIT);
            assert(-FIELD_LIMIT <= ei[i01 + 1] <= FIELD_LIMIT);
            assert(1 <= dxi[x as int] <= MAX_SPACING);
            assert(1 <= dyi[y as int] <= MAX_SPACING);
        }
        let q = quad_cell_fx(e[i00], e[i10], e[i00 + 1], e[i01 + 1], dx[x], dy[y]);
        let wcell = er_index_beta[x + y * nx];
        let decoded = unpack_data(wcell);
        let er0 = er_table[0];
        let eri = er_table[decoded.0];
        let level: i128 = decoded.1 as i128;
        proof {
            assert(-PERMITTIVITY_LIMIT <= ert[0] <= PERMITTIVITY_LIMIT);
            assert(-PERMITTIVITY_LIMIT <= ert[decoded.0 as int] <= PERMITTIVITY_LIMIT);
            assert(-0x20000000000 <= (BETA_ONE as i128 - level) * (er0 as i128)
                <= 0x20000000000 && -0x20000000000 <= level * (eri as i128) <= 0x20000000000)
                by (nonlinear_arith)
                requires
                    0 <= level < 0x10000,
                    BETA_ONE == 0xFFFF,
                    -0x1000000 <= er0 <= 0x1000000,
                    -0x1000000 <= eri <= 0x1000000;
        }
        let er_num: i128 = (BETA_ONE as i128 - level) * er0 as i128 + level * eri as i128;
        let er_cell = tdiv128(er_num, BETA_ONE as i128);
        proof {
            lemma_weighted_avg_bound(
                er0 as int,
                eri as int,
                BETA_ONE - level as int,
                level as int,
                BETA_ONE as int,
                PERMITTIVITY_LIMIT as int,
            );
            assert(-0x40000000000000000000000000000000 <= er_cell * q
                <= 0x40000000000000000000000000000000) by (nonlinear_arith)
                requires
                    -0x1000000 <= er_cell <= 0x1000000,
                    -0x2000000000000000000000000 <= q <= 0x2000000000000000000000000;
        }
        let weighted = tdiv128(er_cell * q, FX_ONE as i128);
        proof {
            lemma_tdiv_bounds((er_cell * q) as int, FX_ONE as int);
            assert(er_cell as int == permittivity_at(ert, wcell as int));
            assert(weighted as int == inhom_cell(ei, ert, er_index_beta@, dxi, dyi, c as int));
        }
        let t = acc as i128 + weighted;
        proof {
            assert(inhom_energy(ei, ert, er_index_beta@, dxi, dyi, (c + 1) as nat) == acc
                + weighted);
        }
        if t < i64::MIN as i128 || t > i64::MAX as i128 {
            proof {
                assert(!in_i64(inhom_energy(ei, ert, er_index_beta@, dxi, dyi, (c + 1) as nat)));
            }
            return Err(FieldError::ValueOverflow);
        }
        acc = t as i64;
        c = c + 1;
    }
    Ok(acc)
}

/// Law: the quadrature rule is exact for a field that is constant across a
/// cell. The cell energy equals the energy density `ex^2 + ey^2` times the
/// cell area, with no quadrature residue, because the two blend weights sum
/// to exactly one and the quarter cancels the four equal node densities.
pub proof fn lemma_quadrature_exact_for_constant_field(ex: int, ey: int, dx: int, dy: int)
    ensures
        quad_cell(ex, ex, ey, ey, dx, dy) == fx_mul(fx_mul(ex, ex) + fx_mul(ey, ey), fx_mul(
            dx,
            dy,
        )),
{
    assert(ex * (QUAD_A1 as int) + ex * (QUAD_A0 as int) == ex * (FX_ONE as int) && ex * (
    QUAD_A0 as int) + ex * (QUAD_A1 as int) == ex * (FX_ONE as int) && ey * (QUAD_A1 as int) + ey
        * (QUAD_A0 as int) == ey * (FX_ONE as int) && ey * (QUAD_A0 as int) + ey * (QUAD_A1 as int)
        == ey * (FX_ONE as int)) by (nonlinear_arith)
        requires
            QUAD_A0 == 13849,
            QUAD_A1 == 51687,
            FX_ONE == 65536;
    lemma_tdiv_exact(ex, FX_ONE as int);
    lemma_tdiv_exact(ey, FX_ONE as int);
    assert(quad_blend(ex, ex, QUAD_A1 as int, QUAD_A0 as int) == ex);
    assert(quad_blend(ex, ex, QUAD_A0 as int, QUAD_A1 as int) == ex);
    assert(quad_blend(ey, ey, QUAD_A1 as int, QUAD_A0 as int) == ey);
    assert(quad_blend(ey, ey, QUAD_A0 as int, QUAD_A1 as int) == ey);
    let d = fx_mul(ex, ex) + fx_mul(ey, ey);
    let area = fx_mul(dx, dy);
    lemma_tdiv_compose((4 * d) * area, FX_ONE as int, 4);
    assert((4 * d) * area == 4 * (d * area) && 4 * (d * area) == (d * area) * 4)
        by (nonlinear_arith);
    lemma_tdiv_exact(d * area, 4);
    lemma_tdiv_compose(4 * (d * area), 4, FX_ONE as int);
}

/// Law: with every cell's blend level zero and a baseline permittivity that
/// is an exact integer multiple `k` of one, the inhomogeneous energy over any
/// cell prefix is exactly `k` times the homogeneous energy: the blend
/// collapses to the baseline entry and the fixed-point weighting loses
/// nothing on an integer weight.
pub proof fn lemma_uniform_permittivity_scales_energy(
    e: Seq<int>,
    er_table: Seq<int>,
    er_map: Seq<u32>,
    dx: Seq<int>,
    dy: Seq<int>,
    k: int,
    c: nat,
)
    requires
        dx.len() >= 2,
        dy.len() >= 2,
        er_map.len() == dx.len() * dy.len(),
        er_table.len() >= 1,
        er_table[0] == k * FX_ONE,
        forall|i: int| 0 <= i < er_map.len() ==> word_beta(#[trigger] er_map[i] as int) == 0,
        c <= (dx.len() - 1) * (dy.len() - 1),
    ensures
        inhom_energy(e, er_table, er_map, dx, dy, c) == k * hom_energy(e, dx, dy, c),
    decreases c,
{
    if c == 0 {
        assert(k * 0 == 0) by (nonlinear_arith);
    } else {
        lemma_uniform_permittivity_scales_energy(e, er_table, er_map, dx, dy, k, (c - 1) as nat);
        let nx = dx.len() as int;
        let ny = dy.len() as int;
        let cc = c - 1;
        lemma_cell_coords(nx - 1, ny - 1, cc);
        let x = cc % (nx - 1);
        let y = cc / (nx - 1);
        lemma_grid_index_bound(nx, ny, x, y);
        let w = er_map[x + y * nx] as int;
        assert(word_beta(w) == 0);
        assert((BETA_ONE - 0) * er_table[0] + 0 * er_table[word_index(w)] == er_table[0] * (
        BETA_ONE as int)) by (nonlinear_arith);
        lemma_tdiv_exact(er_table[0], BETA_ONE as int);
        assert(permittivity_at(er_table, w) == k * FX_ONE);
        let q = cell_energy(e, dx, dy, cc);
        assert((k * FX_ONE) * q == (k * q) * FX_ONE) by (nonlinear_arith);
        lemma_tdiv_exact(k * q, FX_ONE as int);
        assert(inhom_cell(e, er_table, er_map, dx, dy, cc) == k * q);
        assert(k * (hom_energy(e, dx, dy, (c - 1) as nat) + q) == k * hom_energy(
            e,
            dx,
            dy,
            (c - 1) as nat,
        ) + k * q) by (nonlinear_arith);
    }
}

} // verus!



