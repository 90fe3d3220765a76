use electrostatic_2d::bake_geometry;
use electrostatic_2d::calculate_homogenous_energy_2d;
use electrostatic_2d::fixed::FX_ONE;
use electrostatic_2d::iterate_solver_2d;
use electrostatic_2d::pack_data;
use electrostatic_2d::FieldError;

/// A fully free vertex: table index 0, blend level 0.
const FREE: u32 = 0;

/// A word that pins a vertex fully (level 65535) to table entry `index`.
fn pinned(index: u16) -> u32 {
    pack_data(index, 0xFFFF)
}

/// Builds the square unit-spaced session used by several tests: `n` cells per
/// axis, every boundary vertex pinned to 0.0 except the center vertex pinned
/// to 10.0, interior free.
fn center_source_session(n: usize) -> (Vec<i64>, Vec<i64>, Vec<i64>, Vec<i64>, Vec<i64>, Vec<i64>, Vec<i64>, Vec<u32>) {
    let dx = vec![FX_ONE; n];
    let dy = vec![FX_ONE; n];
    let (dx_mid, dy_mid, dxy_norm) = bake_geometry(&dx, &dy).unwrap();
    let v = vec![0i64; (n + 1) * (n + 1)];
    let e = vec![0i64; 2 * n * n];
    let v_table = vec![0i64, 10 * FX_ONE];
    let mut beta_map = vec![FREE; (n + 1) * (n + 1)];
    for y in 0..=n {
        for x in 0..=n {
            if x == 0 || x == n || y == 0 || y == n {
                beta_map[x + y * (n + 1)] = pinned(0);
            }
        }
    }
    let c = n / 2;
    beta_map[c + c * (n + 1)] = pinned(1);
    (dx, dy, dx_mid, dy_mid, dxy_norm, v, e, beta_map)
}

#[test]
fn linear_ramp_is_left_unchanged() {
    // a 3x3-cell unit grid; V is the exact ramp 1.0 + 1.0*x + 2.0*y and every
    // boundary vertex is fully forced to its own ramp value
    let n = 3usize;
    let dx = vec![FX_ONE; n];
    let dy = vec![FX_ONE; n];
    let (dx_mid, dy_mid, dxy_norm) = bake_geometry(&dx, &dy).unwrap();
    let mut v = vec![0i64; (n + 1) * (n + 1)];
    let mut v_table = vec![0i64; (n + 1) * (n + 1)];
    let mut beta_map = vec![FREE; (n + 1) * (n + 1)];
    for y in 0..=n {
        for x in 0..=n {
            let i = x + y * (n + 1);
            v[i] = FX_ONE + (x as i64) * FX_ONE + 2 * (y as i64) * FX_ONE;
            v_table[i] = v[i];
            if x == 0 || x == n || y == 0 || y == n {
                beta_map[i] = pinned(i as u16);
            }
        }
    }
    let snapshot = v.clone();
    let mut e = vec![0i64; 2 * n * n];
    iterate_solver_2d(
        &mut v, &mut e, &dx, &dy, &dx_mid, &dy_mid, &dxy_norm, &v_table, &beta_map, 7,
    )
    .unwrap();
    assert_eq!(v, snapshot);
    // the derived field is the constant gradient (-1.0, -2.0)
    for cell in 0..(n * n) {
        assert_eq!(e[2 * cell], -FX_ONE);
        assert_eq!(e[2 * cell + 1], -2 * FX_ONE);
    }
}

#[test]
fn fully_pinned_vertex_holds_its_source_exactly() {
    let n = 4usize;
    let (dx, dy, dx_mid, dy_mid, dxy_norm, mut v, mut e, beta_map) = center_source_session(n);
    let v_table = vec![0i64, 10 * FX_ONE];
    iterate_solver_2d(
        &mut v, &mut e, &dx, &dy, &dx_mid, &dy_mid, &dxy_norm, &v_table, &beta_map, 25,
    )
    .unwrap();
    let c = n / 2;
    assert_eq!(v[c + c * (n + 1)], 10 * FX_ONE);
    assert_eq!(v[0], 0);
    assert_eq!(v[n], 0);
    assert_eq!(v[(n + 1) * (n + 1) - 1], 0);
    // the free interior moved off its initial value
    assert!(v[1 + 1 * (n + 1)] != 0);
}

#[test]
fn zero_steps_changes_nothing() {
    let n = 4usize;
    let (dx, dy, dx_mid, dy_mid, dxy_norm, mut v, mut e, beta_map) = center_source_session(n);
    let v_table = vec![0i64, 10 * FX_ONE];
    let v0 = v.clone();
    let e0 = e.clone();
    iterate_solver_2d(
        &mut v, &mut e, &dx, &dy, &dx_mid, &dy_mid, &dxy_norm, &v_table, &beta_map, 0,
    )
    .unwrap();
    assert_eq!(v, v0);
    assert_eq!(e, e0);
}

#[test]
fn energy_converges_with_more_steps() {
    // the same configuration solved with growing step counts must give
    // energies that settle rather than diverge
    let n = 4usize;
    let v_table = vec![0i64, 10 * FX_ONE];
    let mut energies = Vec::new();
    for steps in [1usize, 10, 100] {
        let (dx, dy, dx_mid, dy_mid, dxy_norm, mut v, mut e, beta_map) = center_source_session(n);
        iterate_solver_2d(
            &mut v, &mut e, &dx, &dy, &dx_mid, &dy_mid, &dxy_norm, &v_table, &beta_map, steps,
        )
        .unwrap();
        energies.push(calculate_homogenous_energy_2d(&e, &dx, &dy).unwrap());
    }
    let d_early = (energies[0] - energies[1]).abs();
    let d_late = (energies[1] - energies[2]).abs();
    assert!(d_late <= d_early);
}

#[test]
fn solver_rejects_degenerate_grid() {
    let dx = vec![FX_ONE];
    let dy = vec![FX_ONE, FX_ONE];
    let mut v = vec![0i64; 6];
    let mut e = vec![0i64; 4];
    let r = iterate_solver_2d(
        &mut v,
        &mut e,
        &dx,
        &dy,
        &vec![],
        &vec![FX_ONE],
        &vec![],
        &vec![0i64],
        &vec![0u32; 6],
        1,
    );
    assert_eq!(r.unwrap_err(), FieldError::InvalidGridDimension);
}

#[test]
fn solver_rejects_mismatched_buffers() {
    let n = 2usize;
    let dx = vec![FX_ONE; n];
    let dy = vec![FX_ONE; n];
    let (dx_mid, dy_mid, dxy_norm) = bake_geometry(&dx, &dy).unwrap();
    let mut v = vec![0i64; (n + 1) * (n + 1) - 1]; // one vertex short
    let mut e = vec![0i64; 2 * n * n];
    let r = iterate_solver_2d(
        &mut v,
        &mut e,
        &dx,
        &dy,
        &dx_mid,
        &dy_mid,
        &dxy_norm,
        &vec![0i64],
        &vec![0u32; (n + 1) * (n + 1) - 1],
        1,
    );
    assert_eq!(r.unwrap_err(), FieldError::LengthMismatch);
}

#[test]
fn solver_rejects_nonpositive_spacing() {
    let n = 2usize;
    let dx = vec![FX_ONE, 0];
    let dy = vec![FX_ONE; n];
    let mut v = vec![0i64; (n + 1) * (n + 1)];
    let mut e = vec![0i64; 2 * n * n];
    let r = iterate_solver_2d(
        &mut v,
        &mut e,
        &dx,
        &dy,
        &vec![FX_ONE],
        &vec![FX_ONE],
        &vec![FX_ONE],
        &vec![0i64],
        &vec![0u32; (n + 1) * (n + 1)],
        1,
    );
    assert_eq!(r.unwrap_err(), FieldError::SpacingOutOfRange);
}

#[test]
fn solver_rejects_missing_table_entry() {
    let n = 2usize;
    let dx = vec![FX_ONE; n];
    let dy = vec![FX_ONE; n];
    let (dx_mid, dy_mid, dxy_norm) = bake_geometry(&dx, &dy).unwrap();
    let mut v = vec![0i64; (n + 1) * (n + 1)];
    let mut e = vec![0i64; 2 * n * n];
    let mut beta_map = vec![0u32; (n + 1) * (n + 1)];
    beta_map[3] = pack_data(7, 0xFFFF); // table has a single entry
    let r = iterate_solver_2d(
        &mut v,
        &mut e,
        &dx,
        &dy,
        &dx_mid,
        &dy_mid,
        &dxy_norm,
        &vec![0i64],
        &beta_map,
        1,
    );
    assert_eq!(r.unwrap_err(), FieldError::TableIndexOutOfRange);
}

#[test]
fn solver_reports_fixed_point_overflow() {
    // adjacent voltages 2^62 apart over the smallest spacing: the derived
    // field leaves the representable range
    let n = 2usize;
    let dx = vec![1i64, 1];
    let dy = vec![1i64, 1];
    let mut v = vec![0i64; (n + 1) * (n + 1)];
    v[0] = 1 << 62;
    v[1] = -(1 << 62);
    let mut e = vec![0i64; 2 * n * n];
    let r = iterate_solver_2d(
        &mut v,
        &mut e,
        &dx,
        &dy,
        &vec![1i64],
        &vec![1i64],
        &vec![1i64],
        &vec![0i64],
        &vec![0u32; (n + 1) * (n + 1)],
        1,
    );
    assert_eq!(r.unwrap_err(), FieldError::ValueOverflow);
}
