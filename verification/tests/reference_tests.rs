//! The fixed-point tracer against the same formulas evaluated in floating
//! point, ray by ray, on a scene of four spheres and three lights.
use ray_tracing::algebra_models::Vec3;
use ray_tracing::algebra_models::Vec4;
use ray_tracing::camera::camera_ray;
use ray_tracing::physical_models::Light;
use ray_tracing::physical_models::Material;
use ray_tracing::physical_models::Sphere;
use ray_tracing::raycasting::cast_ray;
use ray_tracing::raycasting::scene_intersect;
use ray_tracing::scalar::Scalar;
use ray_tracing::scalar::ONE;

type F3 = [f64; 3];

#[derive(Clone, Copy)]
struct FloatMaterial {
    color: F3,
    albedo: [f64; 4],
    exponent: u32,
    index: f64,
}

#[derive(Clone, Copy)]
struct FloatSphere {
    center: F3,
    radius: f64,
    material: FloatMaterial,
}

#[derive(Clone, Copy)]
struct FloatLight {
    position: F3,
    intensity: f64,
}

#[derive(Clone, Copy)]
struct FloatHit {
    point: F3,
    normal: F3,
    material: FloatMaterial,
}

fn f_add(a: F3, b: F3) -> F3 {
    [a[0] + b[0], a[1] + b[1], a[2] + b[2]]
}

fn f_sub(a: F3, b: F3) -> F3 {
    [a[0] - b[0], a[1] - b[1], a[2] - b[2]]
}

fn f_scale(a: F3, k: f64) -> F3 {
    [a[0] * k, a[1] * k, a[2] * k]
}

fn f_dot(a: F3, b: F3) -> f64 {
    a[0] * b[0] + a[1] * b[1] + a[2] * b[2]
}

fn f_norm(a: F3) -> f64 {
    f_dot(a, a).sqrt()
}

fn f_unit(a: F3) -> F3 {
    f_scale(a, 1.0 / f_norm(a))
}

fn f_ray_hit(s: &FloatSphere, o: F3, d: F3) -> Option<f64> {
    let l = f_sub(s.center, o);
    let tca = f_dot(l, d);
    let d2 = f_dot(l, l) - tca * tca;
    let r2 = s.radius * s.radius;
    if d2 > r2 {
        return None;
    }
    let thc = (r2 - d2).sqrt();
    if tca - thc >= 0.0 {
        Some(tca - thc)
    } else if tca + thc >= 0.0 {
        Some(tca + thc)
    } else {
        None
    }
}

fn f_reflect(v: F3, n: F3) -> F3 {
    f_sub(v, f_scale(f_scale(n, 2.0), f_dot(v, n)))
}

fn f_refract(i: F3, n: F3, eta_t: f64, eta_i: f64) -> F3 {
    let cosi = -f_dot(i, n).clamp(-1.0, 1.0);
    if cosi < 0.0 {
        return f_refract(i, f_scale(n, -1.0), eta_i, eta_t);
    }
    let eta = eta_i / eta_t;
    let k = 1.0 - eta * eta * (1.0 - cosi * cosi);
    if k < 0.0 {
        [1.0, 0.0, 0.0]
    } else {
        f_add(f_scale(i, eta), f_scale(n, eta * cosi - k.sqrt()))
    }
}

fn f_offset(p: F3, d: F3, n: F3) -> F3 {
    if f_dot(d, n) < 0.0 {
        f_sub(p, f_scale(n, 1e-3))
    } else {
        f_add(p, f_scale(n, 1e-3))
    }
}

fn f_scene_hit(o: F3, d: F3, spheres: &[FloatSphere]) -> Option<FloatHit> {
    let mut best: Option<(f64, FloatSphere)> = None;
    for s in spheres {
        if let Some(t) = f_ray_hit(s, o, d) {
            if best.map_or(true, |(b, _)| t < b) {
                best = Some((t, *s));
            }
        }
    }
    if d[1].abs() > 1e-3 {
        let gd = -(o[1] + 4.0) / d[1];
        let gp = f_add(o, f_scale(d, gd));
        let on_board = gd > 0.0 && gp[0].abs() < 10.0 && gp[2] < -10.0 && gp[2] > -30.0;
        if on_board && best.map_or(true, |(b, _)| gd < b) {
            if gd >= 1000.0 {
                return None;
            }
            let cell = (0.5 * gp[0] + 1000.0).floor() + (0.5 * gp[2]).floor();
            let color = if cell.rem_euclid(2.0) == 0.0 { [0.3, 0.3, 0.3] } else { [0.3, 0.2, 0.1] };
            let base = best.map_or(
                FloatMaterial { color, albedo: [1.0, 0.0, 0.0, 0.0], exponent: 0, index: 1.0 },
                |(_, s)| s.material,
            );
            return Some(FloatHit {
                point: gp,
                normal: [0.0, 1.0, 0.0],
                material: FloatMaterial { color, ..base },
            });
        }
    }
    match best {
        Some((t, s)) if t < 1000.0 => {
            let point = f_add(o, f_scale(d, t));
            Some(FloatHit { point, normal: f_unit(f_sub(point, s.center)), material: s.material })
        }
        _ => None,
    }
}

fn f_on_tile_border(o: F3, d: F3, spheres: &[FloatSphere]) -> bool {
    match f_scene_hit(o, d, spheres) {
        Some(hit) if hit.normal == [0.0, 1.0, 0.0] => {
            let x = 0.5 * hit.point[0];
            let z = 0.5 * hit.point[2];
            (x - x.round()).abs() < 1e-9 || (z - z.round()).abs() < 1e-9
        }
        _ => false,
    }
}

fn f_shade(o: F3, d: F3, spheres: &[FloatSphere], lights: &[FloatLight], depth: usize) -> F3 {
    let background = [0.2, 0.7, 0.8];
    if depth > 4 {
        return background;
    }
    let hit = match f_scene_hit(o, d, spheres) {
        Some(hit) => hit,
        None => return background,
    };
    let m = hit.material;
    let rd = f_unit(f_reflect(d, hit.normal));
    let rc = f_shade(f_offset(hit.point, rd, hit.normal), rd, spheres, lights, depth + 1);
    let fd = f_unit(f_refract(d, hit.normal, m.index, 1.0));
    let fc = f_shade(f_offset(hit.point, fd, hit.normal), fd, spheres, lights, depth + 1);
    let mut diffuse = 0.0;
    let mut specular = 0.0;
    for l in lights {
        let to_light = f_sub(l.position, hit.point);
        let ld = f_unit(to_light);
        let so = f_offset(hit.point, ld, hit.normal);
        if let Some(sh) = f_scene_hit(so, ld, spheres) {
            if f_norm(f_sub(sh.point, so)) < f_norm(to_light) {
                continue;
            }
        }
        let facing = f_dot(ld, hit.normal);
        if facing > 0.0 {
            diffuse += l.intensity * facing;
        }
        let gloss = f_dot(f_reflect(ld, hit.normal), d);
        if gloss > 0.0 {
            specular += gloss.powi(m.exponent as i32) * l.intensity;
        }
    }
    f_add(
        f_add(
            f_add(
                f_scale(f_scale(m.color, diffuse), m.albedo[0]),
                f_scale(f_scale([1.0, 1.0, 1.0], specular), m.albedo[1]),
            ),
            f_scale(rc, m.albedo[2]),
        ),
        f_scale(fc, m.albedo[3]),
    )
}

fn fixed(x: f64) -> Scalar {
    Scalar::from_raw((x * ONE as f64).round() as i64)
}

fn float(s: Scalar) -> f64 {
    s.raw() as f64 / ONE as f64
}

fn fixed3(v: F3) -> Vec3 {
    Vec3::new(fixed(v[0]), fixed(v[1]), fixed(v[2]))
}

fn float3(v: Vec3) -> F3 {
    [float(v.x), float(v.y), float(v.z)]
}

fn float_scene() -> (Vec<FloatSphere>, Vec<FloatLight>) {
    let ivory =
        FloatMaterial { color: [0.4, 0.4, 0.3], albedo: [0.6, 0.3, 0.1, 0.0], exponent: 50, index: 1.0 };
    let glass =
        FloatMaterial { color: [0.6, 0.7, 0.8], albedo: [0.0, 0.5, 0.1, 0.8], exponent: 125, index: 1.5 };
    let rubber =
        FloatMaterial { color: [0.3, 0.1, 0.1], albedo: [0.9, 0.1, 0.0, 0.0], exponent: 10, index: 1.0 };
    let mirror = FloatMaterial {
        color: [1.0, 1.0, 1.0],
        albedo: [0.0, 10.0, 0.8, 0.0],
        exponent: 1425,
        index: 1.0,
    };
    let spheres = vec![
        FloatSphere { center: [-3.0, 0.0, -16.0], radius: 2.0, material: ivory },
        FloatSphere { center: [-1.0, -1.5, -12.0], radius: 2.0, material: glass },
        FloatSphere { center: [1.5, -0.5, -18.0], radius: 3.0, material: rubber },
        FloatSphere { center: [7.0, 5.0, -18.0], radius: 4.0, material: mirror },
    ];
    let lights = vec![
        FloatLight { position: [-20.0, 20.0, 20.0], intensity: 1.5 },
        FloatLight { position: [30.0, 50.0, -25.0], intensity: 1.8 },
        FloatLight { position: [30.0, 20.0, 30.0], intensity: 1.7 },
    ];
    (spheres, lights)
}

fn fixed_scene(spheres: &[FloatSphere], lights: &[FloatLight]) -> (Vec<Sphere>, Vec<Light>) {
    let spheres = spheres
        .iter()
        .map(|s| Sphere {
            center: fixed3(s.center),
            radius: fixed(s.radius),
            material: Material {
                diffuse_color: fixed3(s.material.color),
                albedo: Vec4 {
                    x: fixed(s.material.albedo[0]),
                    y: fixed(s.material.albedo[1]),
                    z: fixed(s.material.albedo[2]),
                    w: fixed(s.material.albedo[3]),
                },
                specular_exponent: s.material.exponent,
                refractive_index: fixed(s.material.index),
            },
        })
        .collect();
    let lights = lights
        .iter()
        .map(|l| Light { position: fixed3(l.position), intensity: fixed(l.intensity) })
        .collect();
    (spheres, lights)
}

#[test]
fn colors_match_floating_point_on_every_ray_of_an_image() {
    let (float_spheres, float_lights) = float_scene();
    let (spheres, lights) = fixed_scene(&float_spheres, &float_lights);
    let tan = fixed((std::f64::consts::PI / 6.0).tan());
    let (width, height) = (61, 47);
    let mut lit = 0;
    let mut borders = 0;
    for j in 0..height {
        for i in 0..width {
            let dir = camera_ray(i, j, width, height, tan);
            // On the border between two tiles the last bit decides the color.
            if f_on_tile_border([0.0; 3], float3(dir), &float_spheres) {
                borders += 1;
                continue;
            }
            let got = float3(cast_ray(&Vec3::default(), &dir, &spheres, &lights, 0));
            let expected = f_shade([0.0; 3], float3(dir), &float_spheres, &float_lights, 0);
            for c in 0..3 {
                assert!(
                    (got[c] - expected[c]).abs() < 1e-6,
                    "pixel ({i}, {j}) channel {c}: {} against {}",
                    got[c],
                    expected[c]
                );
            }
            if expected != [0.2, 0.7, 0.8] {
                lit += 1;
            }
        }
    }
    // A good part of the image shows the spheres and the ground, and few
    // rays meet the ground on a border.
    assert!(lit > width * height / 4);
    assert!(borders < width * height / 10);
}

#[test]
fn hits_match_floating_point_on_every_ray_of_an_image() {
    let (float_spheres, _) = float_scene();
    let (spheres, _) = fixed_scene(&float_spheres, &[]);
    let tan = fixed((std::f64::consts::PI / 6.0).tan());
    let (width, height) = (61, 47);
    for j in 0..height {
        for i in 0..width {
            let dir = camera_ray(i, j, width, height, tan);
            let got = scene_intersect(&Vec3::default(), &dir, &spheres);
            let expected = f_scene_hit([0.0; 3], float3(dir), &float_spheres);
            assert_eq!(got.is_some(), expected.is_some(), "pixel ({i}, {j})");
            if let (Some(got), Some(expected)) = (got, expected) {
                let point = float3(got.point);
                let normal = float3(got.normal);
                for c in 0..3 {
                    assert!((point[c] - expected.point[c]).abs() < 1e-7);
                    assert!((normal[c] - expected.normal[c]).abs() < 1e-7);
                }
                assert_eq!(got.material.specular_exponent, expected.material.exponent);
                assert!((float(got.normal.norm()) - 1.0).abs() < 1e-8);
            }
        }
    }
}
