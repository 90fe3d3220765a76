//! The potential relaxation solver.
//!
//! The voltage field `V` holds one scalar per vertex of the
//! boundary-inclusive grid, `(nx+1) * (ny+1)` values in row-major order; the
//! electric field `E` holds two components per cell, `2 * nx * ny` values.
//! Each iteration performs three phases in order: soft forcing of every
//! vertex toward its table-supplied source, derivation of the field from the
//! voltage gradient, and a Jacobi-style relaxation of every interior vertex
//! toward a divergence-free field, masked by `1 - beta` so a fully forced
//! vertex is never perturbed. Phase three reads only the field derived in
//! phase two and each vertex's own voltage, so the sweep's result does not
//! depend on the order the vertices are visited in.
//!
//! The spec functions here give the exact integer value of every phase; the
//! solver's contract says that `steps` sweeps of that definition were applied
//! or, when an intermediate value left the representable range, exactly which
//! failure is reported.

use vstd::prelude::*;
use crate::FieldError;
use crate::codec::word_beta;
use crate::codec::word_index;
use crate::fixed::BETA_ONE;
use crate::fixed::FX_ONE;
use crate::fixed::in_i64;
use crate::fixed::ints;
use crate::fixed::lemma_flat_index;
use crate::fixed::lemma_cell_coords;
use crate::fixed::lemma_grid_index_bound;
use crate::fixed::lemma_tdiv_bounds;
use crate::fixed::lemma_tdiv_exact;
use crate::fixed::tdiv;
use crate::fixed::tdiv128;
use crate::unpack_data;

verus! {

/// The flat index of vertex `(x, y)` in the boundary-inclusive voltage field.
pub open spec fn vertex_index(nx: int, x: int, y: int) -> int {
    x + y * (nx + 1)
}

/// The flat index of component `c` (0 for x, 1 for y) of the field at cell
/// `(x, y)`.
pub open spec fn e_index(nx: int, x: int, y: int, c: int) -> int {
    2 * (x + y * nx) + c
}

/// Phase one at one vertex: the voltage pulled toward its source value,
/// proportionally to the blend level decoded from its packed parameter word.
pub open spec fn force_at(v: Seq<int>, v_table: Seq<int>, beta_map: Seq<u32>, i: int) -> int {
    let w = beta_map[i] as int;
    v[i] + tdiv(word_beta(w) * (v_table[word_index(w)] - v[i]), BETA_ONE as int)
}

/// Phase one over the whole voltage field.
pub open spec fn forced(v: Seq<int>, v_table: Seq<int>, beta_map: Seq<u32>) -> Seq<int> {
    Seq::new(v.len(), |i: int| force_at(v, v_table, beta_map, i))
}

/// Whether every phase-one result is representable.
pub open spec fn force_ok(v: Seq<int>, v_table: Seq<int>, beta_map: Seq<u32>) -> bool {
    forall|i: int| 0 <= i < v.len() ==> in_i64(#[trigger] force_at(v, v_table, beta_map, i))
}

/// Phase two at one flat field position `k`: the voltage gradient across one
/// cell, along the axis selected by `k`'s parity.
pub open spec fn field_at(v: Seq<int>, dx: Seq<int>, dy: Seq<int>, k: int) -> int {
    let nx = dx.len() as int;
    let cell = k / 2;
    let x = cell % nx;
    let y = cell / nx;
    if k % 2 == 0 {
        tdiv((v[vertex_index(nx, x, y)] - v[vertex_index(nx, x + 1, y)]) * FX_ONE, dx[x])
    } else {
        tdiv((v[vertex_index(nx, x, y)] - v[vertex_index(nx, x, y + 1)]) * FX_ONE, dy[y])
    }
}

/// Phase two over the whole field.
pub open spec fn field(v: Seq<int>, dx: Seq<int>, dy: Seq<int>) -> Seq<int> {
    Seq::new((2 * dx.len() * dy.len()) as nat, |k: int| field_at(v, dx, dy, k))
}

/// Whether every phase-two result is representable.
pub open spec fn field_ok(v: Seq<int>, dx: Seq<int>, dy: Seq<int>) -> bool {
    forall|k: int|
        0 <= k < 2 * dx.len() * dy.len() ==> in_i64(#[trigger] field_at(v, dx, dy, k))
}

/// Phase three at one vertex: an interior vertex receives the local
/// divergence of the field, normalized by its baked coefficient and masked by
/// `1 - beta`; a boundary vertex is left alone.
pub open spec fn relax_at(
    v: Seq<int>,
    e: Seq<int>,
    dx_mid: Seq<int>,
    dy_mid: Seq<int>,
    dxy_norm: Seq<int>,
    beta_map: Seq<u32>,
    nx: int,
    ny: int,
    i: int,
) -> int {
    let x = i % (nx + 1);
    let y = i / (nx + 1);
    if 1 <= x && x < nx && 1 <= y && y < ny {
        let dex = e[e_index(nx, x - 1, y, 0)] - e[e_index(nx, x, y, 0)];
        let dey = e[e_index(nx, x, y - 1, 1)] - e[e_index(nx, x, y, 1)];
        let div_e = tdiv(dex * FX_ONE, dx_mid[x - 1]) + tdiv(dey * FX_ONE, dy_mid[y - 1]);
        let dv = tdiv(div_e * FX_ONE, dxy_norm[(x - 1) + (y - 1) * (nx - 1)]);
        v[i] + tdiv((BETA_ONE - word_beta(beta_map[i] as int)) * dv, BETA_ONE as int)
    } else {
        v[i]
    }
}

/// Phase three over the whole voltage field.
pub open spec fn relaxed(
    v: Seq<int>,
    e: Seq<int>,
    dx_mid: Seq<int>,
    dy_mid: Seq<int>,
    dxy_norm: Seq<int>,
    beta_map: Seq<u32>,
    nx: int,
    ny: int,
) -> Seq<int> {
    Seq::new(v.len(), |i: int| relax_at(v, e, dx_mid, dy_mid, dxy_norm, beta_map, nx, ny, i))
}

/// Whether every phase-three result is representable.
pub open spec fn relax_ok(
    v: Seq<int>,
    e: Seq<int>,
    dx_mid: Seq<int>,
    dy_mid: Seq<int>,
    dxy_norm: Seq<int>,
    beta_map: Seq<u32>,
    nx: int,
    ny: int,
) -> bool {
    forall|i: int|
        0 <= i < v.len() ==> in_i64(
            #[trigger] relax_at(v, e, dx_mid, dy_mid, dxy_norm, beta_map, nx, ny, i),
        )
}

/// Every entry is strictly positive (a usable divisor).
pub open spec fn all_positive(s: Seq<int>) -> bool {
    forall|i: int| 0 <= i < s.len() ==> #[trigger] s[i] >= 1
}

/// The mathematical model of one solve session: the integer views of the
/// static inputs that every sweep reads.
pub struct GridModel {
    /// Axis spacings, `nx` cell widths.
    pub dx: Seq<int>,
    /// Axis spacings, `ny` cell heights.
    pub dy: Seq<int>,
    /// Baked midpoint spacings of the x axis.
    pub dx_mid: Seq<int>,
    /// Baked midpoint spacings of the y axis.
    pub dy_mid: Seq<int>,
    /// Baked normalization coefficients, one per interior vertex.
    pub dxy_norm: Seq<int>,
    /// Source voltages indexed by the packed words.
    pub v_table: Seq<int>,
    /// One packed parameter word per vertex.
    pub beta_map: Seq<u32>,
}

impl GridModel {
    /// Cell count along x.
    pub open spec fn nx(self) -> int {
        self.dx.len() as int
    }

    /// Cell count along y.
    pub open spec fn ny(self) -> int {
        self.dy.len() as int
    }

    /// Vertices of the boundary-inclusive voltage field.
    pub open spec fn n_vertices(self) -> int {
        (self.nx() + 1) * (self.ny() + 1)
    }

    /// Entries of the flat two-component field buffer.
    pub open spec fn n_field(self) -> int {
        2 * self.nx() * self.ny()
    }

    /// At least two spacings per axis.
    pub open spec fn dims_ok(self) -> bool {
        self.nx() >= 2 && self.ny() >= 2
    }

    /// Every derived array has the exact length the dimensions dictate.
    pub open spec fn lengths_ok(self) -> bool {
        &&& self.beta_map.len() == self.n_vertices()
        &&& self.dx_mid.len() == self.nx() - 1
        &&& self.dy_mid.len() == self.ny() - 1
        &&& self.dxy_norm.len() == (self.nx() - 1) * (self.ny() - 1)
    }

    /// Every divisor the sweep uses is strictly positive.
    pub open spec fn spacings_ok(self) -> bool {
        &&& all_positive(self.dx)
        &&& all_positive(self.dy)
        &&& all_positive(self.dx_mid)
        &&& all_positive(self.dy_mid)
        &&& all_positive(self.dxy_norm)
    }

    /// Every packed word names an existing source-table entry.
    pub open spec fn table_ok(self) -> bool {
        forall|i: int|
            0 <= i < self.beta_map.len() ==> word_index(#[trigger] self.beta_map[i] as int)
                < self.v_table.len()
    }

    /// A well-formed solve session.
    pub open spec fn wf(self) -> bool {
        self.dims_ok() && self.lengths_ok() && self.spacings_ok() && self.table_ok()
    }

    /// One full sweep: forcing, field derivation, relaxation.
    pub open spec fn sweep(self, v: Seq<int>) -> Seq<int> {
        let v1 = forced(v, self.v_table, self.beta_map);
        relaxed(
            v1,
            field(v1, self.dx, self.dy),
            self.dx_mid,
            self.dy_mid,
            self.dxy_norm,
            self.beta_map,
            self.nx(),
            self.ny(),
        )
    }

    /// Whether one full sweep stays representable throughout.
    pub open spec fn sweep_ok(self, v: Seq<int>) -> bool {
        let v1 = forced(v, self.v_table, self.beta_map);
        &&& force_ok(v, self.v_table, self.beta_map)
        &&& field_ok(v1, self.dx, self.dy)
        &&& relax_ok(
            v1,
            field(v1, self.dx, self.dy),
            self.dx_mid,
            self.dy_mid,
            self.dxy_norm,
            self.beta_map,
            self.nx(),
            self.ny(),
        )
    }

    /// The voltage field after `k` sweeps.
    pub open spec fn solve(self, v: Seq<int>, k: nat) -> Seq<int>
        decreases k,
    {
        if k == 0 {
            v
        } else {
            self.sweep(self.solve(v, (k - 1) as nat))
        }
    }

    /// Whether `k` sweeps stay representable throughout.
    pub open spec fn solve_ok(self, v: Seq<int>, k: nat) -> bool
        decreases k,
    {
        k > 0 ==> (self.solve_ok(v, (k - 1) as nat) && self.sweep_ok(self.solve(v, (k - 1) as nat)))
    }

    /// The electric field left behind after `k >= 1` sweeps: the gradient of
    /// the last sweep's forced voltage field.
    pub open spec fn solved_field(self, v: Seq<int>, k: nat) -> Seq<int> {
        field(forced(self.solve(v, (k - 1) as nat), self.v_table, self.beta_map), self.dx, self.dy)
    }
}

/// The model built from the solver's borrowed buffers.
pub open spec fn model(
    dx: Seq<i64>,
    dy: Seq<i64>,
    dx_mid: Seq<i64>,
    dy_mid: Seq<i64>,
    dxy_norm: Seq<i64>,
    v_table: Seq<i64>,
    beta_map: Seq<u32>,
) -> GridModel {
    GridModel {
        dx: ints(dx),
        dy: ints(dy),
        dx_mid: ints(dx_mid),
        dy_mid: ints(dy_mid),
        dxy_norm: ints(dxy_norm),
        v_table: ints(v_table),
        beta_map: beta_map,
    }
}

/// Once one sweep fails to stay representable, no larger sweep count is
/// representable either.
proof fn lemma_solve_not_ok(g: GridModel, v0: Seq<int>, j: nat, k: nat)
    requires
        j < k,
        g.solve_ok(v0, j),
        !g.sweep_ok(g.solve(v0, j)),
    ensures
        !g.solve_ok(v0, k),
    decreases k,
{
    if k > j + 1 {
        lemma_solve_not_ok(g, v0, j, (k - 1) as nat);
    }
}

/// Phase one in place: pulls every voltage toward its source. Returns false,
/// leaving the buffer partially updated, exactly when some result is not
/// representable.
fn force_phase(v: &mut Vec<i64>, v_table: &Vec<i64>, beta_map: &Vec<u32>) -> (ok: bool)
    requires
        beta_map@.len() == old(v)@.len(),
        forall|i: int|
            0 <= i < beta_map@.len() ==> word_index(#[trigger] beta_map@[i] as int)
                < v_table@.len(),
    ensures
        final(v)@.len() == old(v)@.len(),
        ok == force_ok(ints(old(v)@), ints(v_table@), beta_map@),
        ok ==> ints(final(v)@) == forced(ints(old(v)@), ints(v_table@), beta_map@),
{
    let ghost v0 = ints(v@);
    let ghost vt = ints(v_table@);
    let n = v.len();
    let mut i: usize = 0;
    while i < n
        invariant
            v@.len() == n,
            beta_map@.len() == n,
            v0 == ints(old(v)@),
            vt == ints(v_table@),
            v0.len() == n,
            forall|j: int|
                0 <= j < beta_map@.len() ==> word_index(#[trigger] beta_map@[j] as int)
                    < v_table@.len(),
            i <= n,
            forall|j: int|
                0 <= j < i ==> (#[trigger] v@[j]) as int == force_at(v0, vt, beta_map@, j),
            forall|j: int| i <= j < n ==> (#[trigger] v@[j]) as int == v0[j],
        decreases n - i,
    {
        let w = beta_map[i];
        let decoded = unpack_data(w);
        let voltage = v_table[decoded.0];
        let cur = v[i];
        let diff: i128 = voltage as i128 - cur as i128;
        let level: i128 = decoded.1 as i128;
        proof {
            assert(level * diff <= 0x200000000000000000000 && level * diff
                >= -0x200000000000000000000) by (nonlinear_arith)
                requires
                    0 <= level < 0x10000,
                    -0x20000000000000000 <= diff <= 0x20000000000000000;
        }
        let corr = tdiv128(level * diff, BETA_ONE as i128);
        proof {
            lemma_tdiv_bounds((level * diff) as int, BETA_ONE as int);
        }
        let nv = cur as i128 + corr;
        proof {
            assert(nv as int == force_at(v0, vt, beta_map@, i as int));
        }
        if nv < i64::MIN as i128 || nv > i64::MAX as i128 {
            proof {
                assert(!in_i64(force_at(v0, vt, beta_map@, i as int)));
            }
            return false;
        }
        v[i] = nv as i64;
        i = i + 1;
    }
    proof {
        assert forall|j: int| 0 <= j < v0.len() implies in_i64(
            #[trigger] force_at(v0, vt, beta_map@, j),
        ) by {
            assert(v@[j] as int == force_at(v0, vt, beta_map@, j));
        }
        assert(ints(v@) =~= forced(v0, vt, beta_map@));
    }
    true
}

/// Phase two: recomputes the whole electric field from the voltage gradient.
/// Returns false, leaving the buffer partially updated, exactly when some
/// component is not representable.
fn field_phase(e: &mut Vec<i64>, v: &Vec<i64>, dx: &Vec<i64>, dy: &Vec<i64>) -> (ok: bool)
    requires
        dx@.len() >= 2,
        dy@.len() >= 2,
        all_positive(ints(dx@)),
        all_positive(ints(dy@)),
        v@.len() == (dx@.len() + 1) * (dy@.len() + 1),
        old(e)@.len() == 2 * dx@.len() * dy@.len(),
    ensures
        final(e)@.len() == old(e)@.len(),
        ok == field_ok(ints(v@), ints(dx@), ints(dy@)),
        ok ==> ints(final(e)@) == field(ints(v@), ints(dx@), ints(dy@)),
{
    let ghost vi = ints(v@);
    let ghost dxi = ints(dx@);
    let ghost dyi = ints(dy@);
    let nx = dx.len();
    let ny = dy.len();
    let nv = v.len();
    let ne = e.len();
    let mut y: usize = 0;
    while y < ny
        invariant
            dx@.len() == nx,
            dy@.len() == ny,
            v@.len() == nv,
            e@.len() == ne,
            nx >= 2,
            ny >= 2,
            all_positive(dxi),
            all_positive(dyi),
            vi == ints(v@),
            dxi == ints(dx@),
            dyi == ints(dy@),
            nv == (nx + 1) * (ny + 1),
            ne == 2 * nx * ny,
            old(e)@.len() == ne,
            y <= ny,
            forall|k: int|
                0 <= k < 2 * (y * nx) ==> (#[trigger] e@[k]) as int == field_at(vi, dxi, dyi, k),
        decreases ny - y,
    {
        let mut x: usize = 0;
        while x < nx
            invariant
                dx@.len() == nx,
                dy@.len() == ny,
                v@.len() == nv,
                e@.len() == ne,
                nx >= 2,
                ny >= 2,
                all_positive(dxi),
                all_positive(dyi),
                vi == ints(v@),
                dxi == ints(dx@),
                dyi == ints(dy@),
                nv == (nx + 1) * (ny + 1),
                ne == 2 * nx * ny,
                old(e)@.len() == ne,
                y < ny,
                x <= nx,
                forall|k: int|
                    0 <= k < 2 * (y * nx + x) ==> (#[trigger] e@[k]) as int == field_at(
                        vi,
                        dxi,
                        dyi,
                        k,
                    ),
            decreases nx - x,
        {
            proof {
                lemma_grid_index_bound(nx as int + 1, ny as int + 1, nx as int, ny as int);
                lemma_grid_index_bound(nx as int + 1, ny as int + 1, x as int, y as int);
                lemma_grid_index_bound(nx as int + 1, ny as int + 1, x as int + 1, y as int);
                lemma_grid_index_bound(nx as int + 1, ny as int + 1, x as int, y as int + 1);
                lemma_grid_index_bound(nx as int, ny as int, x as int, y as int);
                assert((2 * nx as int) * ny as int == 2 * (nx as int * ny as int))
                    by (nonlinear_arith);
            }
            let iv = x + y * (nx + 1);
            let iv_dx = (x + 1) + y * (nx + 1);
            let iv_dy = x + (y + 1) * (nx + 1);
            let ie = 2 * (x + y * nx);
            proof {
                // the flat field index decomposes back into this cell
                lemma_flat_index(x as int + y as int * nx as int, 2, 0);
                lemma_flat_index(x as int + y as int * nx as int, 2, 1);
                lemma_flat_index(y as int, nx as int, x as int);
                assert(1 <= dxi[x as int]);
                assert(1 <= dyi[y as int]);
            }
            let gx: i128 = v[iv] as i128 - v[iv_dx] as i128;
            proof {
                assert(-0x200000000000000000000 <= gx * (FX_ONE as i128)
                    <= 0x200000000000000000000) by (nonlinear_arith)
                    requires
                        -0x20000000000000000 <= gx <= 0x20000000000000000,
                        FX_ONE == 65536;
            }
            let ex_num: i128 = gx * (FX_ONE as i128);
            let exq = tdiv128(ex_num, dx[x] as i128);
            proof {
                lemma_tdiv_bounds(ex_num as int, dxi[x as int]);
                assert(exq as int == field_at(vi, dxi, dyi, ie as int));
            }
            if exq < i64::MIN as i128 || exq > i64::MAX as i128 {
                proof {
                    assert(!in_i64(field_at(vi, dxi, dyi, ie as int)));
                }
                return false;
            }
            let gy: i128 = v[iv] as i128 - v[iv_dy] as i128;
            proof {
                assert(-0x200000000000000000000 <= gy * (FX_ONE as i128)
                    <= 0x200000000000000000000) by (nonlinear_arith)
                    requires
                        -0x20000000000000000 <= gy <= 0x20000000000000000,
                        FX_ONE == 65536;
            }
            let ey_num: i128 = gy * (FX_ONE as i128);
            let eyq = tdiv128(ey_num, dy[y] as i128);
            proof {
                lemma_tdiv_bounds(ey_num as int, dyi[y as int]);
                assert(eyq as int == field_at(vi, dxi, dyi, ie as int + 1));
            }
            if eyq < i64::MIN as i128 || eyq > i64::MAX as i128 {
                proof {
                    assert(!in_i64(field_at(vi, dxi, dyi, ie as int + 1)));
                }
                return false;
            }
            e[ie] = exq as i64;
            e[ie + 1] = eyq as i64;
            x = x + 1;
        }
        proof {
            assert((y + 1) * nx == y * nx + nx) by (nonlinear_arith);
        }
        y = y + 1;
    }
    proof {
        assert(2 * (ny as int * nx as int) == (2 * nx as int) * ny as int) by (nonlinear_arith);
        assert forall|k: int| 0 <= k < 2 * dxi.len() * dyi.len() implies in_i64(
            #[trigger] field_at(vi, dxi, dyi, k),
        ) by {
            assert(e@[k] as int == field_at(vi, dxi, dyi, k));
        }
        assert(ints(e@) =~= field(vi, dxi, dyi));
    }
    true
}

/// Phase three in place: adds the masked, normalized divergence correction to
/// every interior vertex, leaving the boundary alone. Returns false, leaving
/// the buffer partially updated, exactly when some result is not
/// representable.
fn relax_phase(
    v: &mut Vec<i64>,
    e: &Vec<i64>,
    dx_mid: &Vec<i64>,
    dy_mid: &Vec<i64>,
    dxy_norm: &Vec<i64>,
    beta_map: &Vec<u32>,
    nx: usize,
    ny: usize,
) -> (ok: bool)
    requires
        nx >= 2,
        ny >= 2,
        old(v)@.len() == (nx + 1) * (ny + 1),
        e@.len() == 2 * nx * ny,
        beta_map@.len() == old(v)@.len(),
        dx_mid@.len() == nx - 1,
        dy_mid@.len() == ny - 1,
        dxy_norm@.len() == (nx - 1) * (ny - 1),
        all_positive(ints(dx_mid@)),
        all_positive(ints(dy_mid@)),
        all_positive(ints(dxy_norm@)),
    ensures
        final(v)@.len() == old(v)@.len(),
        ok == relax_ok(
            ints(old(v)@),
            ints(e@),
            ints(dx_mid@),
            ints(dy_mid@),
            ints(dxy_norm@),
            beta_map@,
            nx as int,
            ny as int,
        ),
        ok ==> ints(final(v)@) == relaxed(
            ints(old(v)@),
            ints(e@),
            ints(dx_mid@),
            ints(dy_mid@),
            ints(dxy_norm@),
            beta_map@,
            nx as int,
            ny as int,
        ),
{
    let ghost v1 = ints(v@);
    let ghost ei = ints(e@);
    let ghost dxm = ints(dx_mid@);
    let ghost dym = ints(dy_mid@);
    let ghost nrm = ints(dxy_norm@);
    let ghost nxi = nx as int;
    let ghost nyi = ny as int;
    let nv = v.len();
    let ne = e.len();
    let nn = dxy_norm.len();
    proof {
        lemma_grid_index_bound(nxi + 1, nyi + 1, 1, 1);
        // every vertex of the bottom row and the first vertex of row one lie
        // on the boundary
        assert forall|i: int| 0 <= i < 1 + 1 * (nxi + 1) implies relax_at(
            v1,
            ei,
            dxm,
            dym,
            nrm,
            beta_map@,
            nxi,
            nyi,
            i,
        ) == v1[i] by {
            if i <= nxi {
                lemma_flat_index(0, nxi + 1, i);
            } else {
                lemma_flat_index(1, nxi + 1, 0);
            }
        }
    }
    let mut y: usize = 1;
    while y < ny
        invariant
            v@.len() == nv,
            old(v)@.len() == nv,
            nx >= 2,
            ny >= 2,
            nxi == nx as int,
            nyi == ny as int,
            nv == (nx + 1) * (ny + 1),
            e@.len() == ne,
            ne == 2 * nx * ny,
            beta_map@.len() == nv,
            dx_mid@.len() == nx - 1,
            dy_mid@.len() == ny - 1,
            dxy_norm@.len() == nn,
            nn == (nx - 1) * (ny - 1),
            all_positive(dxm),
            all_positive(dym),
            all_positive(nrm),
            v1 == ints(old(v)@),
            ei == ints(e@),
            dxm == ints(dx_mid@),
            dym == ints(dy_mid@),
            nrm == ints(dxy_norm@),
            1 <= y <= ny,
            forall|i: int|
                0 <= i < 1 + y * (nxi + 1) ==> (#[trigger] v@[i]) as int == relax_at(
                    v1,
                    ei,
                    dxm,
                    dym,
                    nrm,
                    beta_map@,
                    nxi,
                    nyi,
                    i,
                ),
            forall|i: int| 1 + y * (nxi + 1) <= i < nv ==> (#[trigger] v@[i]) as int == v1[i],
        decreases ny - y,
    {
        let mut x: usize = 1;
        while x < nx
            invariant
                v@.len() == nv,
                old(v)@.len() == nv,
                nx >= 2,
                ny >= 2,
                nxi == nx as int,
                nyi == ny as int,
                nv == (nx + 1) * (ny + 1),
                e@.len() == ne,
                ne == 2 * nx * ny,
                beta_map@.len() == nv,
                dx_mid@.len() == nx - 1,
                dy_mid@.len() == ny - 1,
                dxy_norm@.len() == nn,
                nn == (nx - 1) * (ny - 1),
                all_positive(dxm),
                all_positive(dym),
                all_positive(nrm),
                v1 == ints(old(v)@),
                ei == ints(e@),
                dxm == ints(dx_mid@),
                dym == ints(dy_mid@),
                nrm == ints(dxy_norm@),
                1 <= y < ny,
                1 <= x <= nx,
                forall|i: int|
                    0 <= i < x + y * (nxi + 1) ==> (#[trigger] v@[i]) as int == relax_at(
                        v1,
                        ei,
                        dxm,
                        dym,
                        nrm,
                        beta_map@,
                        nxi,
                        nyi,
                        i,
                    ),
                forall|i: int| x + y * (nxi + 1) <= i < nv ==> (#[trigger] v@[i]) as int == v1[i],
            decreases nx - x,
        {
            proof {
                lemma_grid_index_bound(nxi + 1, nyi + 1, nxi, nyi);
                lemma_grid_index_bound(nxi + 1, nyi + 1, x as int, y as int);
                lemma_grid_index_bound(nxi, nyi, x as int, y as int);
                lemma_grid_index_bound(nxi, nyi, x as int - 1, y as int);
                lemma_grid_index_bound(nxi, nyi, x as int, y as int - 1);
                lemma_grid_index_bound(nxi - 1, nyi - 1, x as int - 1, y as int - 1);
                assert((2 * nxi) * nyi == 2 * (nxi * nyi)) by (nonlinear_arith);
                lemma_flat_index(y as int, nxi + 1, x as int);
            }
            let iv = x + y * (nx + 1);
            let ie = 2 * (x + y * nx);
            let ie_dx = 2 * ((x - 1) + y * nx);
            let ie_dy = 2 * (x + (y - 1) * nx);
            let dex: i128 = e[ie_dx] as i128 - e[ie] as i128;
            let dey: i128 = e[ie_dy + 1] as i128 - e[ie + 1] as i128;
            proof {
                assert(-0x200000000000000000000 <= dex * (FX_ONE as i128)
                    <= 0x200000000000000000000 && -0x200000000000000000000 <= dey * (
                FX_ONE as i128) <= 0x200000000000000000000) by (nonlinear_arith)
                    requires
                        -0x20000000000000000 <= dex <= 0x20000000000000000,
                        -0x20000000000000000 <= dey <= 0x20000000000000000,
                        FX_ONE == 65536;
                assert(1 <= dxm[x as int - 1]);
                assert(1 <= dym[y as int - 1]);
            }
            let t1 = tdiv128(dex * FX_ONE as i128, dx_mid[x - 1] as i128);
            let t2 = tdiv128(dey * FX_ONE as i128, dy_mid[y - 1] as i128);
            proof {
                lemma_tdiv_bounds((dex * FX_ONE) as int, dxm[x as int - 1]);
                lemma_tdiv_bounds((dey * FX_ONE) as int, dym[y as int - 1]);
            }
            let div_e = t1 + t2;
            let inorm = (x - 1) + (y - 1) * (nx - 1);
            proof {
                assert(-0x10000000000000000000000000 <= div_e * (FX_ONE as i128)
                    <= 0x10000000000000000000000000) by (nonlinear_arith)
                    requires
                        -0x400000000000000000000 <= div_e <= 0x400000000000000000000,
                        FX_ONE == 65536;
                assert(1 <= nrm[inorm as int]);
            }
            let dv = tdiv128(div_e * FX_ONE as i128, dxy_norm[inorm] as i128);
            proof {
                lemma_tdiv_bounds((div_e * FX_ONE) as int, nrm[inorm as int]);
            }
            let w = beta_map[iv];
            let decoded = unpack_data(w);
            let mask: i128 = BETA_ONE as i128 - decoded.1 as i128;
            proof {
                assert(-0x100000000000000000000000000000 <= mask * dv
                    <= 0x100000000000000000000000000000) by (nonlinear_arith)
                    requires
                        0 <= mask < 0x10000,
                        -0x10000000000000000000000000 <= dv <= 0x10000000000000000000000000;
            }
            let corr = tdiv128(mask * dv, BETA_ONE as i128);
            proof {
                lemma_tdiv_bounds((mask * dv) as int, BETA_ONE as int);
            }
            let cur = v[iv];
            let nv128 = cur as i128 + corr;
            proof {
                assert(nv128 as int == relax_at(
                    v1,
                    ei,
                    dxm,
                    dym,
                    nrm,
                    beta_map@,
                    nxi,
                    nyi,
                    iv as int,
                ));
            }
            if nv128 < i64::MIN as i128 || nv128 > i64::MAX as i128 {
                proof {
                    assert(!in_i64(
                        relax_at(v1, ei, dxm, dym, nrm, beta_map@, nxi, nyi, iv as int),
                    ));
                }
                return false;
            }
            v[iv] = nv128 as i64;
            x = x + 1;
        }
        proof {
            // the two vertices between the end of this interior row and the
            // start of the next are boundary vertices
            assert((y as int + 1) * (nxi + 1) == y as int * (nxi + 1) + (nxi + 1))
                by (nonlinear_arith);
            lemma_grid_index_bound(nxi + 1, nyi + 1, 0, y as int + 1);
            lemma_flat_index(y as int, nxi + 1, nxi);
            lemma_flat_index(y as int + 1, nxi + 1, 0);
            assert forall|i: int| nxi + y * (nxi + 1) <= i < 1 + (y + 1) * (nxi + 1) implies (
            #[trigger] v@[i]) as int == relax_at(
                v1,
                ei,
                dxm,
                dym,
                nrm,
                beta_map@,
                nxi,
                nyi,
                i,
            ) by {
                assert(v@[i] as int == v1[i]);
            }
        }
        y = y + 1;
    }
    proof {
        // every vertex of the top row is a boundary vertex
        assert((nxi + 1) * (nyi + 1) == nyi * (nxi + 1) + (nxi + 1)) by (nonlinear_arith);
        assert forall|i: int| 1 + nyi * (nxi + 1) <= i < nv implies (#[trigger] v@[i]) as int
            == relax_at(v1, ei, dxm, dym, nrm, beta_map@, nxi, nyi, i) by {
            lemma_flat_index(nyi, nxi + 1, i - nyi * (nxi + 1));
            assert(v@[i] as int == v1[i]);
        }
        assert forall|i: int| 0 <= i < nv implies in_i64(
            #[trigger] relax_at(v1, ei, dxm, dym, nrm, beta_map@, nxi, nyi, i),
        ) by {
            assert(v@[i] as int == relax_at(v1, ei, dxm, dym, nrm, beta_map@, nxi, nyi, i));
        }
        assert(ints(v@) =~= relaxed(v1, ei, dxm, dym, nrm, beta_map@, nxi, nyi));
    }
    true
}

/// Whether a buffer's length equals the product of two counts, without ever
/// computing an overflowing product.
pub(crate) fn mul_matches(len: usize, a: usize, b: usize) -> (r: bool)
    ensures
        r == (len as int == a as int * b as int),
{
    match a.checked_mul(b) {
        Some(t) => len == t,
        None => false,
    }
}

/// Whether every entry of a buffer is strictly positive.
fn check_positive(d: &Vec<i64>) -> (ok: bool)
    ensures
        ok == all_positive(ints(d@)),
{
    let n = d.len();
    let mut i: usize = 0;
    while i < n
        invariant
            d@.len() == n,
            i <= n,
            forall|j: int| 0 <= j < i ==> #[trigger] (ints(d@)[j]) >= 1,
        decreases n - i,
    {
        if d[i] < 1 {
            proof {
                assert(!(ints(d@)[i as int] >= 1));
            }
            return false;
        }
        i = i + 1;
    }
    true
}

/// Whether every packed word's table index falls inside the lookup table.
pub(crate) fn check_table_indices(beta_map: &Vec<u32>, table_len: usize) -> (ok: bool)
    ensures
        ok == (forall|i: int|
            0 <= i < beta_map@.len() ==> word_index(#[trigger] beta_map@[i] as int) < table_len),
{
    let n = beta_map.len();
    let mut i: usize = 0;
    while i < n
        invariant
            beta_map@.len() == n,
            i <= n,
            forall|j: int|
                0 <= j < i ==> word_index(#[trigger] beta_map@[j] as int) < table_len,
        decreases n - i,
    {
        let decoded = unpack_data(beta_map[i]);
        if decoded.0 >= table_len {
            proof {
                assert(!(word_index(beta_map@[i as int] as int) < table_len));
            }
            return false;
        }
        i = i + 1;
    }
    true
}

/// Runs `total_steps` relaxation sweeps over the voltage field `v`, deriving
/// the electric field `e` from it on every sweep. Mutates both buffers in
/// place. The grid geometry (`dx`, `dy` and the baked arrays from
/// [`crate::bake_geometry`]), the source table and the packed parameter map
/// are read-only for the whole session.
///
/// Every precondition violation is reported as an explicit error before
/// anything is mutated; a fixed-point overflow during the sweeps is reported
/// as `ValueOverflow`.
#[verifier::rlimit(60)]
pub fn iterate_solver_2d(
    v: &mut Vec<i64>,
    e: &mut Vec<i64>,
    dx: &Vec<i64>,
    dy: &Vec<i64>,
    dx_mid: &Vec<i64>,
    dy_mid: &Vec<i64>,
    dxy_norm: &Vec<i64>,
    v_table: &Vec<i64>,
    v_index_beta: &Vec<u32>,
    total_steps: usize,
) -> (r: Result<(), FieldError>)
    ensures
        final(v)@.len() == old(v)@.len(),
        final(e)@.len() == old(e)@.len(),
        ({
            let g = model(dx@, dy@, dx_mid@, dy_mid@, dxy_norm@, v_table@, v_index_beta@);
            let v0 = ints(old(v)@);
            let buffers_ok = old(v)@.len() == g.n_vertices() && old(e)@.len() == g.n_field();
            match r {
                Ok(()) => {
                    &&& g.wf() && buffers_ok
                    &&& g.solve_ok(v0, total_steps as nat)
                    &&& ints(final(v)@) == g.solve(v0, total_steps as nat)
                    &&& total_steps > 0 ==> ints(final(e)@) == g.solved_field(
                        v0,
                        total_steps as nat,
                    )
                    &&& total_steps == 0 ==> final(v)@ == old(v)@ && final(e)@ == old(e)@
                },
                Err(FieldError::InvalidGridDimension) => !g.dims_ok() && final(v)@ == old(v)@
                    && final(e)@ == old(e)@,
                Err(FieldError::LengthMismatch) => g.dims_ok() && !(g.lengths_ok() && buffers_ok)
                    && final(v)@ == old(v)@ && final(e)@ == old(e)@,
                Err(FieldError::SpacingOutOfRange) => g.dims_ok() && g.lengths_ok() && buffers_ok
                    && !g.spacings_ok() && final(v)@ == old(v)@ && final(e)@ == old(e)@,
                Err(FieldError::TableIndexOutOfRange) => g.dims_ok() && g.lengths_ok()
                    && buffers_ok && g.spacings_ok() && !g.table_ok() && final(v)@ == old(v)@
                    && final(e)@ == old(e)@,
                Err(FieldError::ValueOverflow) => g.wf() && buffers_ok && !g.solve_ok(
                    v0,
                    total_steps as nat,
                ),
                Err(_) => false,
            }
        }),
{
    let ghost g = model(dx@, dy@, dx_mid@, dy_mid@, dxy_norm@, v_table@, v_index_beta@);
    let nx = dx.len();
    let ny = dy.len();
    let nv = v.len();
    let ne = e.len();
    if nx < 2 || ny < 2 {
        return Err(FieldError::InvalidGridDimension);
    }
    // buffer lengths must be the exact functions of nx and ny
    let nxp = match nx.checked_add(1) {
        Some(t) => t,
        None => {
            proof {
                assert((nx as int + 1) * (ny as int + 1) > usize::MAX) by (nonlinear_arith)
                    requires
                        nx as int + 1 > usize::MAX,
                        ny >= 2;
            }
            return Err(FieldError::LengthMismatch);
        },
    };
    let nyp = match ny.checked_add(1) {
        Some(t) => t,
        None => {
            proof {
                assert((nx as int + 1) * (ny as int + 1) > usize::MAX) by (nonlinear_arith)
                    requires
                        ny as int + 1 > usize::MAX,
                        nx >= 2;
            }
            return Err(FieldError::LengthMismatch);
        },
    };
    let nxy = match nx.checked_mul(ny) {
        Some(t) => t,
        None => {
            proof {
                assert(2 * nx as int * ny as int >= nx as int * ny as int) by (nonlinear_arith)
                    requires
                        nx >= 2,
                        ny >= 2;
            }
            return Err(FieldError::LengthMismatch);
        },
    };
    proof {
        assert(2 * nx as int * ny as int == nxy as int * 2) by (nonlinear_arith)
            requires
                nxy == nx as int * ny as int;
    }
    if !(mul_matches(nv, nxp, nyp) && v_index_beta.len() == nv && mul_matches(
        ne,
        nxy,
        2,
    ) && dx_mid.len() == nx - 1 && dy_mid.len() == ny - 1 && mul_matches(
        dxy_norm.len(),
        nx - 1,
        ny - 1,
    )) {
        return Err(FieldError::LengthMismatch);
    }
    if !(check_positive(dx) && check_positive(dy) && check_positive(dx_mid) && check_positive(
        dy_mid,
    ) && check_positive(dxy_norm)) {
        return Err(FieldError::SpacingOutOfRange);
    }
    if !check_table_indices(v_index_beta, v_table.len()) {
        proof {
            assert(g.dims_ok() && g.lengths_ok() && g.spacings_ok());
            assert(!g.table_ok());
            assert(v@ == old(v)@ && e@ == old(e)@);
        }
        return Err(FieldError::TableIndexOutOfRange);
    }

    let ghost v0 = ints(v@);
    let ghost ventry = v@;
    let ghost eentry = e@;
    let mut s: usize = 0;
    while s < total_steps
        invariant
            nx == dx@.len(),
            ny == dy@.len(),
            nx >= 2,
            ny >= 2,
            g == model(dx@, dy@, dx_mid@, dy_mid@, dxy_norm@, v_table@, v_index_beta@),
            g.wf(),
            v@.len() == nv,
            e@.len() == ne,
            old(v)@.len() == nv,
            old(e)@.len() == ne,
            nv == (nx + 1) * (ny + 1),
            ne == 2 * nx * ny,
            v_index_beta@.len() == nv,
            dx_mid@.len() == nx - 1,
            dy_mid@.len() == ny - 1,
            dxy_norm@.len() == (nx - 1) * (ny - 1),
            all_positive(ints(dx@)),
            all_positive(ints(dy@)),
            all_positive(ints(dx_mid@)),
            all_positive(ints(dy_mid@)),
            all_positive(ints(dxy_norm@)),
            forall|i: int|
                0 <= i < v_index_beta@.len() ==> word_index(#[trigger] v_index_beta@[i] as int)
                    < v_table@.len(),
            v0 == ints(old(v)@),
            ventry == old(v)@,
            eentry == old(e)@,
            s <= total_steps,
            g.solve_ok(v0, s as nat),
            ints(v@) == g.solve(v0, s as nat),
            s > 0 ==> ints(e@) == g.solved_field(v0, s as nat),
            s == 0 ==> v@ == ventry && e@ == eentry,
        decreases total_steps - s,
    {
        let ghost vs = ints(v@);
        let ok1 = force_phase(v, v_table, v_index_beta);
        if !ok1 {
            proof {
                lemma_solve_not_ok(g, v0, s as nat, total_steps as nat);
            }
            return Err(FieldError::ValueOverflow);
        }
        let ok2 = field_phase(e, v, dx, dy);
        if !ok2 {
            proof {
                lemma_solve_not_ok(g, v0, s as nat, total_steps as nat);
            }
            return Err(FieldError::ValueOverflow);
        }
        let ok3 = relax_phase(v, e, dx_mid, dy_mid, dxy_norm, v_index_beta, nx, ny);
        if !ok3 {
            proof {
                lemma_solve_not_ok(g, v0, s as nat, total_steps as nat);
            }
            return Err(FieldError::ValueOverflow);
        }
        proof {
            assert(g.sweep_ok(vs));
            assert(ints(v@) == g.solve(v0, (s + 1) as nat));
            assert(ints(e@) == g.solved_field(v0, (s + 1) as nat));
        }
        s = s + 1;
    }
    Ok(())
}

/// A solve session whose voltage field is an exact linear ramp on a
/// unit-spaced grid, with every vertex either fully free (blend level zero)
/// or forced to exactly its own ramp value.
pub open spec fn ramp_session(g: GridModel, v: Seq<int>, c0: int, sx: int, sy: int) -> bool {
    &&& g.wf()
    &&& v.len() == g.n_vertices()
    &&& forall|i: int| 0 <= i < g.dx.len() ==> #[trigger] g.dx[i] == FX_ONE
    &&& forall|i: int| 0 <= i < g.dy.len() ==> #[trigger] g.dy[i] == FX_ONE
    &&& forall|x: int, y: int|
        0 <= x <= g.nx() && 0 <= y <= g.ny() ==> v[#[trigger] vertex_index(g.nx(), x, y)] == c0
            + sx * x + sy * y
    &&& forall|i: int|
        0 <= i < v.len() ==> word_beta(#[trigger] g.beta_map[i] as int) == 0 || g.v_table[
            word_index(g.beta_map[i] as int)] == v[i]
}

/// Law: a linear ramp already satisfies the divergence-free condition, so one
/// full sweep leaves it exactly unchanged: the forcing phase returns every
/// vertex to its own value, the derived field is constant, and every interior
/// correction is exactly zero.
pub proof fn lemma_ramp_is_sweep_fixed_point(
    g: GridModel,
    v: Seq<int>,
    c0: int,
    sx: int,
    sy: int,
)
    requires
        ramp_session(g, v, c0, sx, sy),
    ensures
        g.sweep(v) == v,
{
    let nx = g.nx();
    let ny = g.ny();
    let vt = g.v_table;
    let pk = g.beta_map;

    // phase one: every vertex is pulled toward its own value or not at all
    assert forall|i: int| 0 <= i < v.len() implies #[trigger] force_at(v, vt, pk, i) == v[i] by {
        let w = pk[i] as int;
        if word_beta(w) == 0 {
            assert(word_beta(w) * (vt[word_index(w)] - v[i]) == 0) by (nonlinear_arith)
                requires
                    word_beta(w) == 0;
        } else {
            assert(word_beta(w) * (vt[word_index(w)] - v[i]) == 0) by (nonlinear_arith)
                requires
                    vt[word_index(w)] == v[i];
        }
        crate::fixed::lemma_tdiv_zero(BETA_ONE as int);
    }
    assert(forced(v, vt, pk) =~= v);

    // phase two: the derived field is the constant (-sx, -sy)
    let e = field(v, g.dx, g.dy);
    assert forall|k: int| 0 <= k < 2 * nx * ny implies #[trigger] field_at(v, g.dx, g.dy, k) == (
    if k % 2 == 0 {
        -sx
    } else {
        -sy
    }) by {
        assert((2 * nx) * ny == 2 * (nx * ny)) by (nonlinear_arith);
        vstd::arithmetic::div_mod::lemma_multiply_divide_lt(k, 2, nx * ny);
        vstd::arithmetic::div_mod::lemma_div_pos_is_pos(k, 2);
        let cell = k / 2;
        lemma_cell_coords(nx, ny, cell);
        let x = cell % nx;
        let y = cell / nx;
        assert(v[vertex_index(nx, x, y)] == c0 + sx * x + sy * y);
        assert(v[vertex_index(nx, x + 1, y)] == c0 + sx * (x + 1) + sy * y);
        assert(v[vertex_index(nx, x, y + 1)] == c0 + sx * x + sy * (y + 1));
        assert(sx * (x + 1) == sx * x + sx && sy * (y + 1) == sy * y + sy) by (nonlinear_arith);
        lemma_tdiv_exact(-sx, FX_ONE as int);
        lemma_tdiv_exact(-sy, FX_ONE as int);
        assert(g.dx[x] == FX_ONE);
        assert(g.dy[y] == FX_ONE);
        assert((-sx) * FX_ONE == -(sx * FX_ONE)) by (nonlinear_arith);
        assert((-sy) * FX_ONE == -(sy * FX_ONE)) by (nonlinear_arith);
    }

    // phase three: the field differences vanish, so every correction is zero
    assert forall|i: int| 0 <= i < v.len() implies #[trigger] relax_at(
        v,
        e,
        g.dx_mid,
        g.dy_mid,
        g.dxy_norm,
        pk,
        nx,
        ny,
        i,
    ) == v[i] by {
        lemma_cell_coords(nx + 1, ny + 1, i);
        let x = i % (nx + 1);
        let y = i / (nx + 1);
        if 1 <= x && x < nx && 1 <= y && y < ny {
            assert((2 * nx) * ny == 2 * (nx * ny)) by (nonlinear_arith);
            lemma_grid_index_bound(nx, ny, x, y);
            lemma_grid_index_bound(nx, ny, x - 1, y);
            lemma_grid_index_bound(nx, ny, x, y - 1);
            lemma_flat_index(x + y * nx, 2, 0);
            lemma_flat_index((x - 1) + y * nx, 2, 0);
            lemma_flat_index(x + (y - 1) * nx, 2, 1);
            lemma_flat_index(x + y * nx, 2, 1);
            assert(e[e_index(nx, x - 1, y, 0)] == -sx);
            assert(e[e_index(nx, x, y, 0)] == -sx);
            assert(e[e_index(nx, x, y - 1, 1)] == -sy);
            assert(e[e_index(nx, x, y, 1)] == -sy);
            assert(0 * FX_ONE == 0) by (nonlinear_arith);
            assert(1 <= g.dx_mid[x - 1]);
            assert(1 <= g.dy_mid[y - 1]);
            lemma_grid_index_bound(nx - 1, ny - 1, x - 1, y - 1);
            assert(1 <= g.dxy_norm[(x - 1) + (y - 1) * (nx - 1)]);
            crate::fixed::lemma_tdiv_zero(g.dx_mid[x - 1]);
            crate::fixed::lemma_tdiv_zero(g.dy_mid[y - 1]);
            crate::fixed::lemma_tdiv_zero(g.dxy_norm[(x - 1) + (y - 1) * (nx - 1)]);
            assert((BETA_ONE - word_beta(pk[i] as int)) * 0 == 0) by (nonlinear_arith);
            crate::fixed::lemma_tdiv_zero(BETA_ONE as int);
        }
    }
    assert(g.sweep(v) =~= v);
}

/// Law: a linear ramp under its own boundary forcing is a fixed point of the
/// whole solve: any number of relaxation iterations leaves the voltage field
/// exactly unchanged.
pub proof fn lemma_ramp_is_solve_fixed_point(
    g: GridModel,
    v: Seq<int>,
    c0: int,
    sx: int,
    sy: int,
    k: nat,
)
    requires
        ramp_session(g, v, c0, sx, sy),
    ensures
        g.solve(v, k) == v,
    decreases k,
{
    if k > 0 {
        lemma_ramp_is_solve_fixed_point(g, v, c0, sx, sy, (k - 1) as nat);
        lemma_ramp_is_sweep_fixed_point(g, v, c0, sx, sy);
    }
}

} // verus!

