use ray_tracing::algebra_models::Vec3;
use ray_tracing::algebra_models::Vec4;
use ray_tracing::physical_models::Light;
use ray_tracing::physical_models::Material;
use ray_tracing::physical_models::Sphere;
use ray_tracing::scalar::Scalar;
use ray_tracing::scalar::LIMIT;
use ray_tracing::scalar::ONE;

fn ball(center: Vec3, radius: Scalar) -> Sphere {
    Sphere { center, radius, material: Material::default() }
}

#[test]
fn default_material_is_pure_diffuse() {
    let m = Material::default();
    assert_eq!(m.diffuse_color, Vec3::default());
    assert_eq!(
        m.albedo,
        Vec4 { x: Scalar::one(), y: Scalar::zero(), z: Scalar::zero(), w: Scalar::zero() }
    );
    assert_eq!(m.specular_exponent, 0);
    assert_eq!(m.refractive_index, Scalar::one());
}

#[test]
fn scene_values_compare_by_their_fields() {
    let a = Light { position: Vec3::from_ints(1, 2, 3), intensity: Scalar::one() };
    let b = Light { position: Vec3::from_ints(1, 2, 3), intensity: Scalar::one() };
    let c = Light { position: Vec3::from_ints(1, 2, 3), intensity: Scalar::from_int(2) };
    assert_eq!(a, b);
    assert_ne!(a, c);
    let s = ball(Vec3::from_ints(0, 0, -5), Scalar::from_int(2));
    assert_eq!(s, s.clone());
}

#[test]
fn ray_from_the_center_meets_the_sphere_at_its_radius() {
    let along_z = Vec3::from_ints(0, 0, 1);
    for raw in [0, 1, 12345, ONE / 3, ONE, 3 * ONE / 2, 1000 * ONE, LIMIT] {
        let radius = Scalar::from_raw(raw);
        for center in [Vec3::from_ints(0, 0, 0), Vec3::from_ints(7, -3, 100)] {
            let t = ball(center, radius).ray_intersect(&center, &along_z);
            assert_eq!(t, Some(radius));
        }
    }
}

#[test]
fn ray_from_the_center_meets_the_sphere_at_its_radius_in_any_direction() {
    let center = Vec3::from_ints(7, -3, 100);
    let radius = Scalar::from_raw(5 * ONE / 3);
    for dir in [
        Vec3::from_ints(0, 0, -1),
        Vec3::from_ints(1, 0, 0),
        Vec3::from_ints(1, 2, 3).normalized(),
        Vec3::from_ints(-5, 50, 500),
        Vec3::default(),
    ] {
        assert_eq!(ball(center, radius).ray_intersect(&center, &dir), Some(radius));
    }
}

#[test]
fn ray_along_the_center_line_meets_the_sphere_before_the_center() {
    let origin = Vec3::from_ints(1, 2, 3);
    for dir in [
        Vec3::from_ints(0, 0, 1),
        Vec3::from_ints(0, 0, -1),
        Vec3::from_ints(1, 0, 0),
        Vec3::from_ints(-1, 0, 0),
        Vec3::from_ints(0, 1, 0),
        Vec3::from_ints(0, -1, 0),
    ] {
        for (d, r) in
            [(5 * ONE, 2 * ONE), (ONE, 0), (ONE + 1, ONE), (7 * ONE / 3, 12345), (LIMIT / 2, 1)]
        {
            let center = origin.add(dir.scale(Scalar::from_raw(d)));
            let t = ball(center, Scalar::from_raw(r)).ray_intersect(&origin, &dir);
            assert_eq!(t, Some(Scalar::from_raw(d - r)));
        }
    }
}

#[test]
fn ray_that_passes_beyond_the_radius_misses() {
    let origin = Vec3::default();
    let sphere = ball(Vec3::from_ints(0, 3, -5), Scalar::from_int(2));
    for dir in [
        Vec3::from_ints(0, 0, -1),
        Vec3::from_ints(0, 0, 1),
        Vec3::from_ints(1, 0, 0),
        Vec3::from_ints(0, -1, 0),
        Vec3::from_ints(1, 1, 1).normalized(),
    ] {
        assert_eq!(sphere.ray_intersect(&origin, &dir), None);
    }
}

#[test]
fn ray_that_grazes_the_sphere_touches_it() {
    // The line passes the center at exactly the radius.
    let sphere = ball(Vec3::from_ints(0, 2, -5), Scalar::from_int(2));
    let t = sphere.ray_intersect(&Vec3::default(), &Vec3::from_ints(0, 0, -1));
    assert_eq!(t, Some(Scalar::from_int(5)));
    // One step further out it misses.
    let further = ball(
        Vec3::new(Scalar::zero(), Scalar::from_raw(2 * ONE + 1), Scalar::from_int(-5)),
        Scalar::from_int(2),
    );
    assert_eq!(further.ray_intersect(&Vec3::default(), &Vec3::from_ints(0, 0, -1)), None);
}

#[test]
fn sphere_behind_the_origin_is_not_met() {
    let sphere = ball(Vec3::from_ints(0, 0, -5), Scalar::one());
    assert_eq!(sphere.ray_intersect(&Vec3::default(), &Vec3::from_ints(0, 0, 1)), None);
}

#[test]
fn ray_from_inside_meets_the_far_side() {
    let sphere = ball(Vec3::default(), Scalar::from_int(2));
    let t = sphere.ray_intersect(&Vec3::from_ints(0, 0, 1), &Vec3::from_ints(0, 0, 1));
    assert_eq!(t, Some(Scalar::one()));
    let back = sphere.ray_intersect(&Vec3::from_ints(0, 0, 1), &Vec3::from_ints(0, 0, -1));
    assert_eq!(back, Some(Scalar::from_int(3)));
}

#[test]
fn ray_from_outside_meets_the_near_side() {
    let sphere = ball(Vec3::from_ints(0, 0, -5), Scalar::from_int(2));
    let t = sphere.ray_intersect(&Vec3::default(), &Vec3::from_ints(0, 0, -1));
    assert_eq!(t, Some(Scalar::from_int(3)));
}

#[test]
fn ray_from_the_surface_starts_at_distance_zero() {
    let sphere = ball(Vec3::from_ints(0, 0, -5), Scalar::from_int(2));
    let t = sphere.ray_intersect(&Vec3::from_ints(0, 0, -3), &Vec3::from_ints(0, 0, -1));
    assert_eq!(t, Some(Scalar::zero()));
}

#[test]
fn ray_off_the_center_line_meets_the_sphere_later() {
    // The line passes the center at distance 1: the hit is at 5 - sqrt(3).
    let sphere = ball(Vec3::from_ints(0, 1, -5), Scalar::from_int(2));
    let t = sphere.ray_intersect(&Vec3::default(), &Vec3::from_ints(0, 0, -1));
    assert_eq!(t, Some(Scalar::from_raw(3679383691324630)));
    let t = t.map(|s| s.raw() as f64 / ONE as f64);
    assert!((t.unwrap_or(0.0) - (5.0 - 3.0f64.sqrt())).abs() < 1e-14);
}

#[test]
fn negative_radius_counts_by_its_magnitude() {
    let sphere = ball(Vec3::from_ints(0, 0, -5), Scalar::from_int(-2));
    // The half chord is sqrt(4) = 2, as for the radius 2.
    let t = sphere.ray_intersect(&Vec3::default(), &Vec3::from_ints(0, 0, -1));
    assert_eq!(t, Some(Scalar::from_int(3)));
}
