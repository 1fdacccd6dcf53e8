use rotations_rs::unit_quaternion::{UnitQuaternion, COMP_MAX, NORM_EPS, ONE};

fn norm_sq(q: UnitQuaternion) -> i128 {
    let (w, x, y, z) = (q.w as i128, q.x as i128, q.y as i128, q.z as i128);
    w * w + x * x + y * y + z * z
}

#[test]
fn identity_components_and_norm() {
    let q = UnitQuaternion::identity();
    assert_eq!(q.w, ONE);
    assert_eq!(q.x, 0);
    assert_eq!(q.y, 0);
    assert_eq!(q.z, 0);
    assert_eq!(norm_sq(q), (ONE as i128) * (ONE as i128));
}

#[test]
fn real_part_of_identity_is_one() {
    assert_eq!(UnitQuaternion::identity().real_part(), ONE);
}

#[test]
fn real_part_of_unit_imaginary_is_zero() {
    // (0, 1, 0, 0) is already unit norm: it passes through unchanged.
    let q = UnitQuaternion::new(0, ONE, 0, 0);
    assert_eq!(q.real_part(), 0);
    assert_eq!(q, UnitQuaternion { w: 0, x: ONE, y: 0, z: 0 });
}

#[test]
fn all_zero_input_yields_identity() {
    assert_eq!(UnitQuaternion::new(0, 0, 0, 0), UnitQuaternion::identity());
}

#[test]
fn below_threshold_yields_identity() {
    // Norm 99 lies just below the threshold of 100 units.
    assert_eq!(UnitQuaternion::new(99, 0, 0, 0), UnitQuaternion::identity());
    // Norm 2 (all components 1): also below.
    assert_eq!(UnitQuaternion::new(1, 1, 1, 1), UnitQuaternion::identity());
}

#[test]
fn at_threshold_normalizes() {
    // Norm exactly 100 units: no fallback, the components are scaled.
    let q = UnitQuaternion::new(NORM_EPS, 0, 0, 0);
    assert_eq!(q, UnitQuaternion { w: ONE, x: 0, y: 0, z: 0 });
    // All components 50: the norm is exactly 100 as well.
    let q = UnitQuaternion::new(50, 50, 50, 50);
    let half = ONE / 2;
    assert_eq!(q, UnitQuaternion { w: half, x: half, y: half, z: half });
    assert_eq!(norm_sq(q), (ONE as i128) * (ONE as i128));
}

#[test]
fn exact_three_four_five_normalization() {
    // (3, 4, 0, 0) scaled to norm 5e9: exact unit result (0.6, 0.8, 0, 0).
    let q = UnitQuaternion::new(3 * ONE, 4 * ONE, 0, 0);
    assert_eq!(q, UnitQuaternion { w: 600_000_000, x: 800_000_000, y: 0, z: 0 });
    assert_eq!(norm_sq(q), (ONE as i128) * (ONE as i128));
}

#[test]
fn rounded_normalization_components() {
    // The scaled norm of (100, 100, 0, 0) is isqrt(20000 * ONE²) =
    // 141421356237; each component becomes 100 * ONE² divided by that,
    // rounded toward zero: 707106781, the fixed-point rendering of
    // 1/sqrt(2).
    let q = UnitQuaternion::new(100, 100, 0, 0);
    let expect = 100 * (ONE as i128) * (ONE as i128) / 141_421_356_237;
    assert_eq!(expect, 707_106_781);
    assert_eq!(q.w as i128, expect);
    assert_eq!(q.x as i128, expect);
    assert_eq!(q.y, 0);
    assert_eq!(q.z, 0);
    // The squared norm of the result stays within the proved band
    // around ONE squared.
    let one = ONE as i128;
    let s2 = norm_sq(q);
    assert!(s2 > one * one - 8 * one - 4);
    assert!(s2 < one * one + 8 * one + 4);
}

#[test]
fn renormalizing_near_unit_moves_components_little() {
    // Re-constructing a rounded result from its own components moves
    // every component by at most 6 units; on this input it moves none.
    let q = UnitQuaternion::new(100, 100, 0, 0);
    let again = UnitQuaternion::new(q.w, q.x, q.y, q.z);
    assert!((again.w - q.w).abs() <= 6);
    assert!((again.x - q.x).abs() <= 6);
    assert!((again.y - q.y).abs() <= 6);
    assert!((again.z - q.z).abs() <= 6);
    assert_eq!(again, q);
}

#[test]
fn scaling_near_threshold_is_invariant() {
    // The same direction entering at and well above the threshold:
    // the finely scaled norm rounds both to the same quaternion.
    let a = UnitQuaternion::new(100, 100, 0, 0);
    let b = UnitQuaternion::new(1_000, 1_000, 0, 0);
    assert_eq!(a, b);
}

#[test]
fn renormalizing_exact_unit_is_identity_operation() {
    let q = UnitQuaternion::new(3 * ONE, 4 * ONE, 0, 0);
    assert_eq!(norm_sq(q), (ONE as i128) * (ONE as i128));
    let again = UnitQuaternion::new(q.w, q.x, q.y, q.z);
    assert_eq!(again, q);
    let id = UnitQuaternion::identity();
    let id_again = UnitQuaternion::new(id.w, id.x, id.y, id.z);
    assert_eq!(id_again, id);
}

#[test]
fn scaling_by_positive_factor_is_invariant() {
    // (300, 400, 0, 0) has exact norm 500; scaling all components by the
    // same positive factor does not change the constructed quaternion.
    let q = UnitQuaternion::new(300, 400, 0, 0);
    let q10 = UnitQuaternion::new(3_000, 4_000, 0, 0);
    let q1000 = UnitQuaternion::new(300_000, 400_000, 0, 0);
    assert_eq!(q10, q);
    assert_eq!(q1000, q);
    assert_eq!(q, UnitQuaternion { w: 600_000_000, x: 800_000_000, y: 0, z: 0 });
}

#[test]
fn negating_input_negates_every_component() {
    let q = UnitQuaternion::new(300, 400, 0, 0);
    let neg = UnitQuaternion::new(-300, -400, 0, 0);
    assert_eq!(neg, UnitQuaternion { w: -q.w, x: -q.x, y: -q.y, z: -q.z });
}

#[test]
fn largest_inputs_normalize_exactly() {
    // All components at the bound 2^62: the squared norm is 2^126, whose
    // integer square root is 2^63, so each component becomes exactly
    // 2^62 * ONE / 2^63 = ONE / 2.
    let q = UnitQuaternion::new(COMP_MAX, COMP_MAX, COMP_MAX, COMP_MAX);
    let half = ONE / 2;
    assert_eq!(q, UnitQuaternion { w: half, x: half, y: half, z: half });
    let q = UnitQuaternion::new(-COMP_MAX, COMP_MAX, -COMP_MAX, COMP_MAX);
    assert_eq!(q, UnitQuaternion { w: -half, x: half, y: -half, z: half });
}

#[test]
fn mixed_signs_normalize_componentwise() {
    let q = UnitQuaternion::new(-3 * ONE, 0, 4 * ONE, 0);
    assert_eq!(q, UnitQuaternion { w: -600_000_000, x: 0, y: 800_000_000, z: 0 });
    assert_eq!(q.real_part(), -600_000_000);
}
