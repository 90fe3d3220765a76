use electrostatic_2d::bake_geometry;
use electrostatic_2d::fixed::FX_ONE;
use electrostatic_2d::fixed::MAX_SPACING;
use electrostatic_2d::FieldError;

#[test]
fn uniform_spacing_gives_unit_midpoints() {
    // dx = dy = [1, 1, 1] in fixed point
    let dx = vec![FX_ONE, FX_ONE, FX_ONE];
    let dy = vec![FX_ONE, FX_ONE, FX_ONE];
    let (dx_mid, dy_mid, dxy_norm) = bake_geometry(&dx, &dy).unwrap();
    assert_eq!(dx_mid, vec![FX_ONE, FX_ONE]);
    assert_eq!(dy_mid, vec![FX_ONE, FX_ONE]);
    // the normalization field is strictly positive everywhere
    assert_eq!(dxy_norm.len(), 4);
    for n in &dxy_norm {
        assert!(*n > 0);
    }
    // for unit spacing each coefficient is exactly (1/1 + 1/1)/1 + (1/1 + 1/1)/1 = 4
    for n in &dxy_norm {
        assert_eq!(*n, 4 * FX_ONE);
    }
}

#[test]
fn midpoints_average_adjacent_spacings() {
    // spacings 1.0 and 3.0 average to 2.0
    let dx = vec![FX_ONE, 3 * FX_ONE];
    let dy = vec![2 * FX_ONE, 2 * FX_ONE];
    let (dx_mid, dy_mid, _) = bake_geometry(&dx, &dy).unwrap();
    assert_eq!(dx_mid, vec![2 * FX_ONE]);
    assert_eq!(dy_mid, vec![2 * FX_ONE]);
}

#[test]
fn norms_stay_positive_for_extreme_spacings() {
    // the largest supported spacing against the smallest
    let dx = vec![1, MAX_SPACING, 1];
    let dy = vec![MAX_SPACING, MAX_SPACING];
    let (_, _, dxy_norm) = bake_geometry(&dx, &dy).unwrap();
    for n in &dxy_norm {
        assert!(*n > 0);
    }
}

#[test]
fn single_spacing_axis_is_rejected() {
    let dx = vec![FX_ONE];
    let dy = vec![FX_ONE, FX_ONE];
    assert_eq!(
        bake_geometry(&dx, &dy).unwrap_err(),
        FieldError::InvalidGridDimension
    );
    assert_eq!(
        bake_geometry(&dy, &dx).unwrap_err(),
        FieldError::InvalidGridDimension
    );
}

#[test]
fn nonpositive_or_oversized_spacing_is_rejected() {
    let good = vec![FX_ONE, FX_ONE];
    let zero = vec![FX_ONE, 0];
    let huge = vec![FX_ONE, MAX_SPACING + 1];
    assert_eq!(
        bake_geometry(&zero, &good).unwrap_err(),
        FieldError::SpacingOutOfRange
    );
    assert_eq!(
        bake_geometry(&good, &huge).unwrap_err(),
        FieldError::SpacingOutOfRange
    );
}
