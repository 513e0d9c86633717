use ray_tracing::algebra_models::cross_product;
use ray_tracing::algebra_models::dot_wide;
use ray_tracing::algebra_models::Vec3;
use ray_tracing::scalar::Scalar;
use ray_tracing::scalar::LIMIT;
use ray_tracing::scalar::ONE;

fn raw_vec(x: i64, y: i64, z: i64) -> Vec3 {
    Vec3::new(Scalar::from_raw(x), Scalar::from_raw(y), Scalar::from_raw(z))
}

#[test]
fn default_vector_is_zero() {
    assert_eq!(Vec3::default(), Vec3::from_ints(0, 0, 0));
}

#[test]
fn ones_has_all_components_one() {
    assert_eq!(Vec3::ones(), Vec3::from_ints(1, 1, 1));
}

#[test]
fn new_keeps_the_components() {
    let v = Vec3::new(Scalar::from_int(1), Scalar::from_int(-2), Scalar::from_raw(3));
    assert_eq!(v.x, Scalar::from_int(1));
    assert_eq!(v.y, Scalar::from_int(-2));
    assert_eq!(v.z, Scalar::from_raw(3));
}

#[test]
fn vectors_add_and_subtract_by_component() {
    let a = Vec3::from_ints(1, 2, 3);
    let b = Vec3::from_ints(10, -20, 30);
    assert_eq!(a.add(b), Vec3::from_ints(11, -18, 33));
    assert_eq!(a.sub(b), Vec3::from_ints(-9, 22, -27));
    assert_eq!(b.sub(a), Vec3::from_ints(9, -22, 27));
    assert_eq!(a.neg(), Vec3::from_ints(-1, -2, -3));
}

#[test]
fn vector_sums_saturate_by_component() {
    let a = raw_vec(LIMIT, -LIMIT, 5);
    let b = raw_vec(1, -1, 5);
    assert_eq!(a.add(b), raw_vec(LIMIT, -LIMIT, 10));
    assert_eq!(b.sub(a), raw_vec(1 - LIMIT, LIMIT - 1, 0));
}

#[test]
fn dot_product_sums_the_products() {
    let a = Vec3::from_ints(1, 2, 3);
    let b = Vec3::from_ints(4, 5, 6);
    assert_eq!(a.dot(b), Scalar::from_int(32));
    assert_eq!(b.dot(a), Scalar::from_int(32));
    assert_eq!(a.dot(a.neg()), Scalar::from_int(-14));
    assert_eq!(dot_wide(&a, &b), Some(32 * (ONE as i128) * (ONE as i128)));
}

#[test]
fn dot_product_rounds_once() {
    // Three products of half a step each: their sum is one and a half steps.
    let a = raw_vec(1, 1, 1);
    let b = raw_vec(ONE / 2, ONE / 2, ONE / 2);
    assert_eq!(a.dot(b).raw(), 1);
    assert_eq!(a.neg().dot(b).raw(), -2);
}

#[test]
fn dot_product_saturates() {
    let a = raw_vec(LIMIT, LIMIT, LIMIT);
    assert_eq!(a.dot(a).raw(), LIMIT);
    assert_eq!(a.dot(a.neg()).raw(), -LIMIT);
    assert_eq!(dot_wide(&a, &a), Some(3 * (LIMIT as i128) * (LIMIT as i128)));
}

#[test]
fn scaling_multiplies_every_component() {
    let a = Vec3::from_ints(1, -2, 3);
    assert_eq!(a.scale(Scalar::from_int(3)), Vec3::from_ints(3, -6, 9));
    assert_eq!(a.scale(Scalar::from_raw(ONE / 2)), raw_vec(ONE / 2, -ONE, 3 * ONE / 2));
    assert_eq!(a.scale(Scalar::zero()), Vec3::default());
}

#[test]
fn cross_product_follows_the_right_hand_rule() {
    let x = Vec3::from_ints(1, 0, 0);
    let y = Vec3::from_ints(0, 1, 0);
    let z = Vec3::from_ints(0, 0, 1);
    assert_eq!(cross_product(&x, &y), z);
    assert_eq!(cross_product(&y, &z), x);
    assert_eq!(cross_product(&z, &x), y);
    assert_eq!(cross_product(&y, &x), z.neg());
    assert_eq!(cross_product(&x, &x), Vec3::default());
}

#[test]
fn cross_product_of_general_vectors() {
    let a = Vec3::from_ints(1, 2, 3);
    let b = Vec3::from_ints(4, 5, 6);
    assert_eq!(cross_product(&a, &b), Vec3::from_ints(-3, 6, -3));
    assert_eq!(cross_product(&b, &a), Vec3::from_ints(3, -6, 3));
}

#[test]
fn norm_is_the_euclidean_length() {
    assert_eq!(Vec3::from_ints(3, 4, 0).norm(), Scalar::from_int(5));
    assert_eq!(Vec3::from_ints(0, 0, -7).norm(), Scalar::from_int(7));
    assert_eq!(Vec3::from_ints(2, 3, 6).norm(), Scalar::from_int(7));
    assert_eq!(Vec3::default().norm(), Scalar::zero());
    // floor(sqrt(3) * 2^50)
    assert_eq!(Vec3::from_ints(1, 1, 1).norm().raw(), 1950115842888490);
}

#[test]
fn norm_keeps_full_precision_for_short_vectors() {
    // Lengths of a few steps: the squares are summed exactly before the root.
    assert_eq!(raw_vec(3, 4, 0).norm().raw(), 5);
    assert_eq!(raw_vec(1, 1, 1).norm().raw(), 1);
    assert_eq!(raw_vec(1, 0, 0).norm().raw(), 1);
}

#[test]
fn norm_saturates() {
    assert_eq!(raw_vec(LIMIT, LIMIT, LIMIT).norm().raw(), LIMIT);
}

#[test]
fn normalized_divides_by_the_length() {
    assert_eq!(Vec3::from_ints(0, 0, -7).normalized(), Vec3::from_ints(0, 0, -1));
    assert_eq!(Vec3::from_ints(2, 0, 0).normalized(), Vec3::from_ints(1, 0, 0));
    // (0.6, 0.8, 0), each rounded down
    assert_eq!(Vec3::from_ints(3, 4, 0).normalized(), raw_vec(675539944105574, 900719925474099, 0));
    assert_eq!(
        Vec3::from_ints(1, 1, 1).normalized(),
        raw_vec(650038614296163, 650038614296163, 650038614296163)
    );
}

#[test]
fn normalized_components_are_exact_to_the_last_step() {
    // (3, 0, 4) / 5 = (0.6, 0, 0.8)
    let v = Vec3::from_ints(3, 0, 4).normalized();
    let got = [v.x, v.y, v.z].map(|s| s.raw() as f64 / ONE as f64);
    assert!((got[0] - 0.6).abs() < 1e-15);
    assert_eq!(got[1], 0.0);
    assert!((got[2] - 0.8).abs() < 1e-15);
    // Less than one step, 2^-50, from the exact quotient, whatever the signs.
    for (x, y, z) in [(1, 1, 1), (-1, 2, -3), (7, -100, 25), (-4000, 1, 1), (1, 0, 0)] {
        let v = Vec3::from_ints(x, y, z).normalized();
        let len = ((x * x + y * y + z * z) as f64).sqrt();
        let got = [v.x, v.y, v.z].map(|s| s.raw() as f64 / ONE as f64);
        let exact = [x as f64 / len, y as f64 / len, z as f64 / len];
        for c in 0..3 {
            assert!((got[c] - exact[c]).abs() < 1e-15);
        }
    }
}

#[test]
fn normalizing_leaves_the_vector_itself_alone() {
    let v = Vec3::from_ints(3, 0, 4);
    let _ = v.normalized();
    assert_eq!(v, Vec3::from_ints(3, 0, 4));
}

#[test]
fn normalized_vector_has_length_one() {
    let v = Vec3::from_ints(3, -7, 11).normalized();
    let n = v.norm().raw() as f64 / ONE as f64;
    assert!((n - 1.0).abs() < 1e-8);
}

#[test]
fn normalized_vector_is_within_steps_of_unit_length() {
    // Vectors from half a unit long upward.
    for v in [
        raw_vec(ONE / 2, 0, 0),
        raw_vec(ONE / 2, 1, -1),
        raw_vec(ONE, ONE, ONE),
        raw_vec(-123456789012345678, 987654321, 5),
        raw_vec(LIMIT / 2, -LIMIT / 2, LIMIT / 2),
        Vec3::from_ints(1000, -2000, 3000),
    ] {
        let n = v.normalized().norm().raw();
        assert!(ONE - 4 <= n && n <= ONE + 6);
    }
}

#[test]
fn short_vectors_normalize_coarsely() {
    // A vector of a few steps has no room for a direction.
    assert_eq!(raw_vec(1, 1, 1).normalized(), Vec3::from_ints(1, 1, 1));
    assert_eq!(raw_vec(3, 4, 0).normalized(), raw_vec(675539944105574, 900719925474099, 0));
    assert_eq!(
        raw_vec(1, 2, 2).normalized(),
        raw_vec(375299968947541, 750599937895082, 750599937895082)
    );
}

#[test]
fn zero_vector_normalizes_to_no_numbers() {
    let nan = Vec3::new(Scalar::nan(), Scalar::nan(), Scalar::nan());
    assert_eq!(Vec3::default().normalized(), nan);
    let mut v = Vec3::default();
    v.normalize();
    assert_eq!(v, nan);
    assert!(v.has_nan());
    assert!(v.x.is_nan() && v.y.is_nan() && v.z.is_nan());
}

#[test]
fn normalize_in_place_matches_normalized() {
    let mut v = Vec3::from_ints(3, 4, 0);
    let expected = v.normalized();
    v.normalize();
    assert_eq!(v, expected);
    let mut w = raw_vec(-123456789, 987654321, 5);
    let expected = w.normalized();
    w.normalize();
    assert_eq!(w, expected);
}
