use electrostatic_2d::calculate_homogenous_energy_2d;
use electrostatic_2d::calculate_inhomogenous_energy_2d;
use electrostatic_2d::fixed::FIELD_LIMIT;
use electrostatic_2d::fixed::FX_ONE;
use electrostatic_2d::fixed::MAX_SPACING;
use electrostatic_2d::get_gauss_legendre_integral;
use electrostatic_2d::pack_data;
use electrostatic_2d::FieldError;

/// A single-interior-cell grid (two unit spacings per axis) whose field is
/// the constant (ex, ey) everywhere.
fn constant_field(ex: i64, ey: i64) -> (Vec<i64>, Vec<i64>, Vec<i64>) {
    let dx = vec![FX_ONE, FX_ONE];
    let dy = vec![FX_ONE, FX_ONE];
    let mut e = Vec::new();
    for _ in 0..4 {
        e.push(ex);
        e.push(ey);
    }
    (e, dx, dy)
}

#[test]
fn quadrature_is_exact_for_constant_field() {
    // Ex = 2.0, Ey = 1.0 across a 1.0 x 1.0 cell: energy is exactly
    // (4.0 + 1.0) * 1.0 = 5.0
    let q = get_gauss_legendre_integral(
        2 * FX_ONE,
        2 * FX_ONE,
        FX_ONE,
        FX_ONE,
        FX_ONE,
        FX_ONE,
    );
    assert_eq!(q, Some(5 * FX_ONE));
    // and over a 2.0 x 3.0 cell: 5.0 * 6.0 = 30.0
    let q = get_gauss_legendre_integral(
        2 * FX_ONE,
        2 * FX_ONE,
        FX_ONE,
        FX_ONE,
        2 * FX_ONE,
        3 * FX_ONE,
    );
    assert_eq!(q, Some(30 * FX_ONE));
}

#[test]
fn quadrature_of_zero_field_is_zero() {
    assert_eq!(
        get_gauss_legendre_integral(0, 0, 0, 0, FX_ONE, FX_ONE),
        Some(0)
    );
}

#[test]
fn quadrature_rejects_out_of_range_inputs() {
    assert_eq!(
        get_gauss_legendre_integral(FIELD_LIMIT + 1, 0, 0, 0, FX_ONE, FX_ONE),
        None
    );
    assert_eq!(get_gauss_legendre_integral(0, 0, 0, 0, 0, FX_ONE), None);
    assert_eq!(
        get_gauss_legendre_integral(0, 0, 0, 0, FX_ONE, MAX_SPACING + 1),
        None
    );
}

#[test]
fn quadrature_reports_unrepresentable_energy() {
    // the largest samples over the largest cell overflow the result
    assert_eq!(
        get_gauss_legendre_integral(
            FIELD_LIMIT,
            FIELD_LIMIT,
            FIELD_LIMIT,
            FIELD_LIMIT,
            MAX_SPACING,
            MAX_SPACING
        ),
        None
    );
}

#[test]
fn homogenous_energy_of_constant_field() {
    let (e, dx, dy) = constant_field(2 * FX_ONE, FX_ONE);
    assert_eq!(calculate_homogenous_energy_2d(&e, &dx, &dy), Ok(5 * FX_ONE));
}

#[test]
fn homogenous_energy_sums_all_interior_cells() {
    // three unit cells per axis, constant field 1.0 on x only: four interior
    // cells of energy 1.0 each
    let dx = vec![FX_ONE, FX_ONE, FX_ONE];
    let dy = vec![FX_ONE, FX_ONE, FX_ONE];
    let mut e = Vec::new();
    for _ in 0..9 {
        e.push(FX_ONE);
        e.push(0);
    }
    assert_eq!(calculate_homogenous_energy_2d(&e, &dx, &dy), Ok(4 * FX_ONE));
}

#[test]
fn uniform_unit_permittivity_matches_homogenous() {
    let (e, dx, dy) = constant_field(2 * FX_ONE, FX_ONE);
    let er_table = vec![FX_ONE];
    let er_map = vec![0u32; 4];
    let hom = calculate_homogenous_energy_2d(&e, &dx, &dy).unwrap();
    let inhom = calculate_inhomogenous_energy_2d(&e, &er_table, &er_map, &dx, &dy).unwrap();
    assert_eq!(inhom, hom);
}

#[test]
fn uniform_doubled_permittivity_doubles_energy() {
    let (e, dx, dy) = constant_field(2 * FX_ONE, FX_ONE);
    let er_table = vec![2 * FX_ONE];
    let er_map = vec![0u32; 4];
    let hom = calculate_homogenous_energy_2d(&e, &dx, &dy).unwrap();
    let inhom = calculate_inhomogenous_energy_2d(&e, &er_table, &er_map, &dx, &dy).unwrap();
    assert_eq!(inhom, 2 * hom);
}

#[test]
fn fully_blended_cell_uses_indexed_entry() {
    // beta = 1 selects table entry 1 (3.0) over the baseline 1.0
    let (e, dx, dy) = constant_field(2 * FX_ONE, FX_ONE);
    let er_table = vec![FX_ONE, 3 * FX_ONE];
    let er_map = vec![pack_data(1, 0xFFFF); 4];
    let inhom = calculate_inhomogenous_energy_2d(&e, &er_table, &er_map, &dx, &dy).unwrap();
    assert_eq!(inhom, 15 * FX_ONE);
}

#[test]
fn energy_rejects_degenerate_grid() {
    let e = vec![0i64; 2];
    let one = vec![FX_ONE];
    let two = vec![FX_ONE, FX_ONE];
    assert_eq!(
        calculate_homogenous_energy_2d(&e, &one, &two).unwrap_err(),
        FieldError::InvalidGridDimension
    );
}

#[test]
fn energy_rejects_mismatched_field_buffer() {
    let dx = vec![FX_ONE, FX_ONE];
    let dy = vec![FX_ONE, FX_ONE];
    let e = vec![0i64; 7];
    assert_eq!(
        calculate_homogenous_energy_2d(&e, &dx, &dy).unwrap_err(),
        FieldError::LengthMismatch
    );
}

#[test]
fn energy_rejects_out_of_range_spacing() {
    let dx = vec![FX_ONE, 0];
    let dy = vec![FX_ONE, FX_ONE];
    let e = vec![0i64; 8];
    assert_eq!(
        calculate_homogenous_energy_2d(&e, &dx, &dy).unwrap_err(),
        FieldError::SpacingOutOfRange
    );
}

#[test]
fn energy_rejects_oversized_field_sample() {
    let (mut e, dx, dy) = constant_field(0, 0);
    e[0] = FIELD_LIMIT + 1;
    assert_eq!(
        calculate_homogenous_energy_2d(&e, &dx, &dy).unwrap_err(),
        FieldError::ValueOutOfRange
    );
}

#[test]
fn inhomogenous_energy_rejects_missing_table_entry() {
    let (e, dx, dy) = constant_field(0, 0);
    let er_table = vec![FX_ONE];
    let er_map = vec![pack_data(2, 0); 4];
    assert_eq!(
        calculate_inhomogenous_energy_2d(&e, &er_table, &er_map, &dx, &dy).unwrap_err(),
        FieldError::TableIndexOutOfRange
    );
}

#[test]
fn energy_reports_unrepresentable_sum() {
    // one cell of near-maximal samples over the largest cell overflows i64
    let dx = vec![MAX_SPACING, MAX_SPACING];
    let dy = vec![MAX_SPACING, MAX_SPACING];
    let mut e = Vec::new();
    for _ in 0..4 {
        e.push(FIELD_LIMIT);
        e.push(FIELD_LIMIT);
    }
    assert_eq!(
        calculate_homogenous_energy_2d(&e, &dx, &dy).unwrap_err(),
        FieldError::ValueOverflow
    );
}
