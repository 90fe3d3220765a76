//! A discrete electrostatic field solver on a non-uniform 2D rectilinear grid.
//!
//! The solver iteratively relaxes a scalar voltage field toward a
//! divergence-free state under soft (blended) source constraints, derives the
//! electric field from the voltage gradient, and integrates stored field
//! energy with a two-point-per-axis Gauss-Legendre quadrature rule.
//!
//! All scalar quantities (spacings, voltages, field components, table
//! entries) are Q16.16 fixed-point values held in `i64`: the real number `x`
//! is represented by the integer `x * 65536`, and every arithmetic step
//! truncates toward zero. The contracts in this crate pin down the exact
//! integer value of every result.

use vstd::prelude::*;

pub mod codec;
pub mod energy;
pub mod fixed;
pub mod geometry;
pub mod solver;
pub mod utility;

pub use codec::pack_data;
pub use codec::unpack_data;
pub use energy::calculate_homogenous_energy_2d;
pub use energy::calculate_inhomogenous_energy_2d;
pub use energy::get_gauss_legendre_integral;
pub use geometry::bake_geometry;
pub use solver::iterate_solver_2d;
pub use utility::convert_f32_to_f16;

verus! {

/// Failure modes of the solver and the energy integrators. The first five are
/// precondition violations by the caller, reported before anything is
/// mutated; `ValueOverflow` abandons a computation whose intermediate values
/// left the representable range, leaving any mutable buffers mid-update (only
/// their lengths are preserved).
#[derive(Clone, Copy, Debug, PartialEq, Eq, Structural)]
pub enum FieldError {
    /// A grid needs at least two spacings per axis.
    InvalidGridDimension,
    /// A buffer's length is not the exact function of `nx`, `ny` it must be.
    LengthMismatch,
    /// A spacing or a baked coefficient lies outside the supported
    /// fixed-point range.
    SpacingOutOfRange,
    /// A packed parameter word names a lookup-table entry that does not exist.
    TableIndexOutOfRange,
    /// A field sample or table entry is too large for the energy quadrature.
    ValueOutOfRange,
    /// An intermediate or final value left the representable `i64` range.
    ValueOverflow,
}

} // verus!
