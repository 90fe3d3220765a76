//! Q16.16 fixed-point scalars and truncating division.
//!
//! A real number `x` is represented by the integer `x * FX_ONE`, truncated
//! toward zero. Every division in the solver truncates toward zero, exactly
//! as `i128` division does; the spec function [`tdiv`] gives that operation a
//! mathematical definition that all contracts in this crate are written over.

use vstd::prelude::*;
use vstd::arithmetic::div_mod::lemma_div_is_ordered;
use vstd::arithmetic::div_mod::lemma_div_multiples_vanish;
use vstd::arithmetic::div_mod::lemma_div_nonincreasing;
use vstd::arithmetic::div_mod::lemma_div_of0;
use vstd::arithmetic::div_mod::lemma_div_pos_is_pos;
use vstd::arithmetic::div_mod::lemma_div_denominator;
use vstd::arithmetic::div_mod::lemma_fundamental_div_mod_converse;

verus! {

/// The fixed-point representation of 1.
pub const FX_ONE: i64 = 65536;

/// The denominator of the blend factor `beta`: a raw 16-bit level `b` stands
/// for the fraction `b / 65535`, so level 65535 is exactly 1.
pub const BETA_ONE: i64 = 65535;

/// The lower Gauss-Legendre quadrature offset, the image of `-1/sqrt(3)`
/// mapped from `[-1, 1]` into `[0, 1]`, in fixed point. Chosen together with
/// [`QUAD_A1`] so that the two offsets sum to exactly [`FX_ONE`].
pub const QUAD_A0: i64 = 13849;

/// The upper Gauss-Legendre quadrature offset, `FX_ONE - QUAD_A0`.
pub const QUAD_A1: i64 = 51687;

/// The largest supported axis spacing (256.0 in fixed point). The bound keeps
/// every reciprocal strictly positive after truncation, which in turn keeps
/// every baked normalization coefficient strictly positive.
pub const MAX_SPACING: i64 = 16777216;

/// The largest field-sample magnitude the energy quadrature accepts (2^32 in
/// real units): squares and cell products of bounded samples stay inside
/// `i128` intermediates.
pub const FIELD_LIMIT: i64 = 281474976710656;

/// The largest permittivity-table magnitude the inhomogeneous energy
/// integrator accepts (256.0 in fixed point).
pub const PERMITTIVITY_LIMIT: i64 = 16777216;

/// Division truncating toward zero, the semantics of `/` on machine integers.
/// Meaningful for `b > 0`; spec `/` is Euclidean, which floors instead.
pub open spec fn tdiv(a: int, b: int) -> int {
    if a >= 0 {
        a / b
    } else {
        -((-a) / b)
    }
}

/// Whether a mathematical integer is representable as an `i64`.
pub open spec fn in_i64(x: int) -> bool {
    i64::MIN <= x <= i64::MAX
}

/// The integer views of a sequence of fixed-point scalars.
pub open spec fn ints(s: Seq<i64>) -> Seq<int> {
    Seq::new(s.len(), |i: int| s[i] as int)
}

/// Dividing zero gives zero.
pub proof fn lemma_tdiv_zero(b: int)
    requires
        b > 0,
    ensures
        tdiv(0, b) == 0,
{
    lemma_div_of0(b);
}

/// Truncating division undoes an exact multiple: `(a * b) / b == a`.
pub proof fn lemma_tdiv_exact(a: int, b: int)
    requires
        b > 0,
    ensures
        tdiv(a * b, b) == a,
{
    if a >= 0 {
        assert(a * b >= 0) by (nonlinear_arith)
            requires
                a >= 0,
                b > 0;
        lemma_div_multiples_vanish(a, b);
        assert(a * b == b * a) by (nonlinear_arith);
    } else {
        assert(a * b < 0) by (nonlinear_arith)
            requires
                a < 0,
                b > 0;
        lemma_div_multiples_vanish(-a, b);
        assert(-(a * b) == b * (-a)) by (nonlinear_arith);
    }
}

/// Two truncating divisions by positive divisors compose into one.
pub proof fn lemma_tdiv_compose(a: int, b: int, c: int)
    requires
        b > 0,
        c > 0,
    ensures
        tdiv(tdiv(a, b), c) == tdiv(a, b * c),
{
    assert(b * c > 0) by (nonlinear_arith)
        requires
            b > 0,
            c > 0;
    if a >= 0 {
        lemma_div_pos_is_pos(a, b);
        lemma_div_denominator(a, b, c);
    } else {
        lemma_div_pos_is_pos(-a, b);
        lemma_div_denominator(-a, b, c);
    }
}

/// A truncating quotient keeps the dividend's sign and never grows in
/// magnitude.
pub proof fn lemma_tdiv_bounds(a: int, b: int)
    requires
        b >= 1,
    ensures
        a >= 0 ==> 0 <= tdiv(a, b) <= a,
        a < 0 ==> a <= tdiv(a, b) <= 0,
{
    if a >= 0 {
        lemma_div_pos_is_pos(a, b);
        lemma_div_nonincreasing(a, b);
    } else {
        lemma_div_pos_is_pos(-a, b);
        lemma_div_nonincreasing(-a, b);
    }
}

/// A quotient is at least `c` whenever the dividend is at least `c * b`.
pub proof fn lemma_tdiv_lower(a: int, b: int, c: int)
    requires
        b >= 1,
        c >= 0,
        a >= c * b,
    ensures
        tdiv(a, b) >= c,
{
    assert(c * b >= 0) by (nonlinear_arith)
        requires
            c >= 0,
            b >= 1;
    lemma_div_is_ordered(c * b, a, b);
    lemma_div_multiples_vanish(c, b);
    assert(c * b == b * c) by (nonlinear_arith);
}

/// A dividend bounded by `den * m` in magnitude has a quotient bounded by `m`.
pub proof fn lemma_tdiv_le_scale(n: int, den: int, m: int)
    requires
        den >= 1,
        m >= 0,
        -(den * m) <= n <= den * m,
    ensures
        -m <= tdiv(n, den) <= m,
{
    lemma_div_multiples_vanish(m, den);
    assert(den * m == m * den) by (nonlinear_arith);
    if n >= 0 {
        lemma_div_is_ordered(n, den * m, den);
        lemma_div_pos_is_pos(n, den);
    } else {
        lemma_div_is_ordered(-n, den * m, den);
        lemma_div_pos_is_pos(-n, den);
    }
}

/// A weighted average with nonnegative weights summing to the denominator
/// stays within the bounds of its two operands.
pub proof fn lemma_weighted_avg_bound(x: int, y: int, w0: int, w1: int, den: int, m: int)
    requires
        0 <= w0,
        0 <= w1,
        w0 + w1 == den,
        den >= 1,
        0 <= m,
        -m <= x <= m,
        -m <= y <= m,
    ensures
        -m <= tdiv(w0 * x + w1 * y, den) <= m,
{
    assert(-(den * m) <= w0 * x + w1 * y <= den * m) by (nonlinear_arith)
        requires
            0 <= w0,
            0 <= w1,
            w0 + w1 == den,
            -m <= x <= m,
            -m <= y <= m;
    lemma_tdiv_le_scale(w0 * x + w1 * y, den, m);
}

/// Recovers the coordinates packed into a flat row-major index.
pub proof fn lemma_flat_index(q: int, d: int, r: int)
    requires
        d >= 1,
        0 <= r < d,
    ensures
        (q * d + r) % d == r,
        (q * d + r) / d == q,
{
    lemma_fundamental_div_mod_converse(q * d + r, d, q, r);
}

/// A flat row-major cell index decomposes into in-range coordinates.
pub proof fn lemma_cell_coords(w: int, h: int, c: int)
    requires
        w >= 1,
        h >= 1,
        0 <= c < w * h,
    ensures
        0 <= c % w < w,
        0 <= c / w < h,
{
    vstd::arithmetic::div_mod::lemma_mod_division_less_than_divisor(c, w);
    lemma_div_pos_is_pos(c, w);
    vstd::arithmetic::div_mod::lemma_multiply_divide_lt(c, w, h);
}

/// A row-major grid index lies below the grid's total size.
pub proof fn lemma_grid_index_bound(w: int, h: int, x: int, y: int)
    by (nonlinear_arith)
    requires
        1 <= w,
        0 <= x < w,
        0 <= y < h,
    ensures
        0 <= x + y * w,
        x + y * w < w * h,
{
}

/// Truncating division on `i128`, proved never to fail for a positive
/// divisor.
pub fn tdiv128(a: i128, b: i128) -> (q: i128)
    requires
        b > 0,
    ensures
        q as int == tdiv(a as int, b as int),
{
    proof {
        if a >= 0 {
            lemma_div_pos_is_pos(a as int, b as int);
            lemma_div_nonincreasing(a as int, b as int);
        } else {
            lemma_div_pos_is_pos(-(a as int), b as int);
            lemma_div_nonincreasing(-(a as int), b as int);
        }
    }
    a.checked_div(b).unwrap()
}

} // verus!
