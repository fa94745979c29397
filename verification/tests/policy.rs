use rotor_field::math::{check_intersection, classify, GeometryError, Reading, INFINITY_BITS, SIGN_BIT};

/// The half-chord radicand of two circles of radii `r1` and `r2` whose
/// centres lie `d` apart.
fn radicand(r1: f64, r2: f64, d: f64) -> f64 {
    let d2 = d * d;
    let d4 = d2 * d2;
    let diff = r1 * r1 - r2 * r2;
    2.0 * (r1 * r1 + r2 * r2) / d2 - (diff * diff) / d4 - 1.0
}

#[test]
fn classify_reads_both_zeros_as_zero() {
    assert_eq!(classify(0.0f64.to_bits()), Reading::Zero);
    assert_eq!(classify((-0.0f64).to_bits()), Reading::Zero);
    assert_eq!(classify(0), Reading::Zero);
    assert_eq!(classify(SIGN_BIT), Reading::Zero);
}

#[test]
fn classify_reads_finite_numbers_by_sign() {
    assert_eq!(classify(1.0f64.to_bits()), Reading::Positive);
    assert_eq!(classify(f64::MAX.to_bits()), Reading::Positive);
    assert_eq!(classify(f64::MIN_POSITIVE.to_bits()), Reading::Positive);
    assert_eq!(classify((-1.0f64).to_bits()), Reading::Negative);
    assert_eq!(classify(f64::MIN.to_bits()), Reading::Negative);
    assert_eq!(classify((-2.5e-300f64).to_bits()), Reading::Negative);
}

#[test]
fn classify_reads_the_smallest_subnormals() {
    assert_eq!(classify(1), Reading::Positive);
    assert_eq!(classify(SIGN_BIT + 1), Reading::Negative);
    assert_eq!(classify(INFINITY_BITS - 1), Reading::Positive);
}

#[test]
fn classify_reads_infinities_and_nan() {
    assert_eq!(classify(f64::INFINITY.to_bits()), Reading::Infinite);
    assert_eq!(classify(f64::NEG_INFINITY.to_bits()), Reading::Infinite);
    assert_eq!(classify(INFINITY_BITS), Reading::Infinite);
    assert_eq!(classify(f64::NAN.to_bits()), Reading::NotANumber);
    assert_eq!(classify(INFINITY_BITS + 1), Reading::NotANumber);
    assert_eq!(classify(u64::MAX), Reading::NotANumber);
}

#[test]
fn crossing_circles_are_accepted() {
    // Radii 5 and 5, centres 6 apart: the circles cross at (3, 4) and (3, -4).
    let value = radicand(5.0, 5.0, 6.0);
    assert!(value > 0.0);
    assert_eq!(check_intersection(36.0f64.to_bits(), value.to_bits()), Ok(()));
}

#[test]
fn touching_circles_are_accepted() {
    assert_eq!(check_intersection(4.0f64.to_bits(), 0.0f64.to_bits()), Ok(()));
    assert_eq!(check_intersection(4.0f64.to_bits(), (-0.0f64).to_bits()), Ok(()));
}

#[test]
fn coincident_centres_are_degenerate() {
    assert_eq!(
        check_intersection(0.0f64.to_bits(), 1.0f64.to_bits()),
        Err(GeometryError::DegenerateCenters)
    );
    assert_eq!(
        check_intersection((-0.0f64).to_bits(), f64::NAN.to_bits()),
        Err(GeometryError::DegenerateCenters)
    );
    assert_eq!(
        check_intersection(0.0f64.to_bits(), f64::INFINITY.to_bits()),
        Err(GeometryError::DegenerateCenters)
    );
}

#[test]
fn distant_circles_do_not_intersect() {
    // Radii 1 and 1, centres 3 apart.
    let value = radicand(1.0, 1.0, 3.0);
    assert!(value < 0.0);
    assert_eq!(
        check_intersection(9.0f64.to_bits(), value.to_bits()),
        Err(GeometryError::NoIntersection)
    );
}

#[test]
fn nested_circles_do_not_intersect() {
    // Radii 10 and 1, centres 2 apart: the small circle lies inside the large one.
    let value = radicand(10.0, 1.0, 2.0);
    assert!(value < 0.0);
    assert_eq!(
        check_intersection(4.0f64.to_bits(), value.to_bits()),
        Err(GeometryError::NoIntersection)
    );
}

#[test]
fn quantities_that_are_not_finite_numbers_do_not_intersect() {
    let one = 1.0f64.to_bits();
    assert_eq!(
        check_intersection(one, f64::NAN.to_bits()),
        Err(GeometryError::NoIntersection)
    );
    assert_eq!(
        check_intersection(one, f64::INFINITY.to_bits()),
        Err(GeometryError::NoIntersection)
    );
    assert_eq!(
        check_intersection(f64::NAN.to_bits(), one),
        Err(GeometryError::NoIntersection)
    );
    assert_eq!(
        check_intersection(f64::INFINITY.to_bits(), one),
        Err(GeometryError::NoIntersection)
    );
    assert_eq!(
        check_intersection((-4.0f64).to_bits(), one),
        Err(GeometryError::NoIntersection)
    );
}

#[test]
fn identical_static_rotors_raise_degenerate_centres() {
    // Two rotors with r = 100, theta = 0, no centre orbit and no offset stand
    // on the same point.
    let (cx, cy) = (1550.0f64, 1550.0f64);
    let (x1, y1) = (cx + 0.0f64.cos() * 100.0, cy + 0.0f64.sin() * 100.0);
    let (x2, y2) = (cx + 0.0f64.cos() * 100.0, cy + 0.0f64.sin() * 100.0);
    let d = ((x1 - x2) * (x1 - x2) + (y1 - y2) * (y1 - y2)).sqrt();
    let d2 = d * d;
    let value = radicand(500.0, 500.0, d);
    assert!(value.is_nan());
    assert_eq!(
        check_intersection(d2.to_bits(), value.to_bits()),
        Err(GeometryError::DegenerateCenters)
    );
}
