//! Ray-scene intersection and recursive shading.
//!
//! The scene is a sequence of spheres above the ground. A ray is shaded from
//! the nearest surface it meets: local diffuse and specular light with hard
//! shadows, plus a reflected and a refracted ray, each traced one level
//! deeper up to a fixed depth.
use crate::algebra_models::is_unit;
use crate::algebra_models::lemma_unit_is_axis;
use crate::algebra_models::v3_add;
use crate::algebra_models::v3_dot_wide;
use crate::algebra_models::v3_neg;
use crate::algebra_models::v3_valid;
use crate::algebra_models::v3_dot;
use crate::algebra_models::v3_has_nan;
use crate::algebra_models::v3_norm;
use crate::algebra_models::v3_normalized;
use crate::algebra_models::v3_ones;
use crate::algebra_models::v3_scale;
use crate::algebra_models::v3_sub;
use crate::algebra_models::Vec3;
use crate::algebra_models::V3;
use crate::colors::background;
use crate::colors::background_color;
use crate::ground::tile_color;
use crate::ground::checkerboard_color;
use crate::ground::ground_hit;
use crate::ground::ground_intersect;
use crate::ground::ground_point;
use crate::optics::cos_incidence;
use crate::optics::get_orig;
use crate::optics::refract_oriented;
use crate::optics::offset_origin;
use crate::optics::reflect;
use crate::optics::reflect_spec;
use crate::optics::refract;
use crate::optics::refract_spec;
use crate::optics::EPS;
use crate::physical_models::default_material;
use crate::physical_models::lemma_hit_along_center_line;
use crate::physical_models::lemma_root_of_square;
use crate::physical_models::lemma_scaled_axis;
use crate::physical_models::ray_hit;
use crate::physical_models::Light;
use crate::physical_models::LightModel;
use crate::physical_models::Material;
use crate::physical_models::MaterialModel;
use crate::physical_models::Sphere;
use crate::physical_models::SphereModel;
use crate::scalar::fx_abs;
use crate::scalar::fx_add;
use crate::scalar::fx_div;
use crate::scalar::fx_neg;
use crate::scalar::fx_sqrt;
use crate::scalar::fx_sub;
use crate::scalar::in_range;
use crate::scalar::LIMIT;
use crate::scalar::fx_gt;
use crate::scalar::fx_lt;
use crate::scalar::fx_mul;
use crate::scalar::fx_pow;
use crate::scalar::Scalar;
use crate::scalar::ONE;
use vstd::arithmetic::div_mod::lemma_div_multiples_vanish;
use vstd::prelude::*;

verus! {

/// Surfaces at this distance or beyond are not seen: one thousand.
pub const FAR_CUTOFF: i64 = 1125899906842624000;

/// Rays are traced through depths `0` to `MAX_DEPTH`.
pub const MAX_DEPTH: usize = 4;

/// Model of an intersection: where the ray meets the surface, the normal
/// there, of unit length up to rounding, and the material of the surface.
pub struct HitModel {
    pub point: V3,
    pub normal: V3,
    pub material: MaterialModel,
}

/// The models of a sequence of spheres.
pub open spec fn sphere_models(spheres: Seq<Sphere>) -> Seq<SphereModel> {
    spheres.map_values(|s: Sphere| s@)
}

/// Index of the sphere nearest along the ray among the first `n`: a later
/// sphere replaces an earlier one only where it is strictly closer.
pub open spec fn nearest_sphere(spheres: Seq<SphereModel>, orig: V3, dir: V3, n: nat) -> Option<int>
    decreases n,
{
    if n == 0 {
        None
    } else {
        let prev = nearest_sphere(spheres, orig, dir, (n - 1) as nat);
        match ray_hit(spheres[n - 1], orig, dir) {
            Some(t) => match sphere_distance(spheres, orig, dir, prev) {
                Some(best) => if fx_lt(t, best) {
                    Some(n - 1)
                } else {
                    prev
                },
                None => Some(n - 1),
            },
            None => prev,
        }
    }
}

/// Distance to the sphere with index `near`, if there is one.
pub open spec fn sphere_distance(
    spheres: Seq<SphereModel>,
    orig: V3,
    dir: V3,
    near: Option<int>,
) -> Option<int> {
    match near {
        Some(i) => ray_hit(spheres[i], orig, dir),
        None => None,
    }
}

/// What a ray sees of the sphere `s` at distance `t`: the point
/// `orig + dir * t`, the outward unit normal there, the sphere's material.
pub open spec fn sphere_record(s: SphereModel, orig: V3, dir: V3, t: int) -> HitModel {
    let point = v3_add(orig, v3_scale(dir, t));
    HitModel { point, normal: v3_normalized(v3_sub(point, s.center)), material: s.material }
}

/// What a ray sees of the ground: the point on the plane, the normal
/// `(0, 1, 0)`, and `base` recolored by the tile under the point.
pub open spec fn ground_record(orig: V3, dir: V3, base: MaterialModel) -> HitModel {
    let point = ground_point(orig, dir);
    HitModel {
        point,
        normal: V3 { x: 0, y: ONE as int, z: 0 },
        material: MaterialModel { diffuse_color: tile_color(point.x, point.z), ..base },
    }
}

/// `record`, where the distance `t` to it is short of the far cutoff.
pub open spec fn within_cutoff(t: int, record: HitModel) -> Option<HitModel> {
    if fx_lt(t, FAR_CUTOFF as int) {
        Some(record)
    } else {
        None
    }
}

/// The nearest surface along the ray, if it is nearer than the far cutoff.
/// The ground wins only where it is strictly nearer than every sphere; its
/// material keeps the weights of the nearest sphere along the ray, or of the
/// default material where the ray meets no sphere.
pub open spec fn scene_hit(orig: V3, dir: V3, spheres: Seq<SphereModel>) -> Option<HitModel> {
    let near = nearest_sphere(spheres, orig, dir, spheres.len());
    match (ground_hit(orig, dir), near) {
        (Some(d), Some(i)) => {
            let t = ray_hit(spheres[i], orig, dir)->Some_0;
            if fx_lt(d, t) {
                within_cutoff(d, ground_record(orig, dir, spheres[i].material))
            } else {
                within_cutoff(t, sphere_record(spheres[i], orig, dir, t))
            }
        },
        (Some(d), None) => within_cutoff(d, ground_record(orig, dir, default_material())),
        (None, Some(i)) => {
            let t = ray_hit(spheres[i], orig, dir)->Some_0;
            within_cutoff(t, sphere_record(spheres[i], orig, dir, t))
        },
        (None, None) => None,
    }
}

/// The models of a sequence of lights.
pub open spec fn light_models(lights: Seq<Light>) -> Seq<LightModel> {
    lights.map_values(|l: Light| l@)
}

/// Unit direction from `point` to the light.
pub open spec fn light_direction(point: V3, light: LightModel) -> V3 {
    v3_normalized(v3_sub(light.position, point))
}

/// Whether something stands between `point` and the light: a ray from just
/// off the surface toward the light meets the scene strictly nearer than the
/// light. Any surface shadows fully, whatever its material.
pub open spec fn in_shadow(
    point: V3,
    normal: V3,
    light: LightModel,
    spheres: Seq<SphereModel>,
) -> bool {
    let light_dir = light_direction(point, light);
    let shadow_orig = offset_origin(point, light_dir, normal);
    match scene_hit(shadow_orig, light_dir, spheres) {
        Some(h) => fx_lt(
            v3_norm(v3_sub(h.point, shadow_orig)),
            v3_norm(v3_sub(light.position, point)),
        ),
        None => false,
    }
}

/// Diffuse and specular light gathered at a surface point.
pub struct Illumination {
    pub diffuse: int,
    pub specular: int,
}

/// Light that the first `n` lights shed on `hit`, seen along `dir`. A light
/// in shadow adds nothing. Another adds `intensity * (light_dir . normal)` to
/// the diffuse part where that is positive, and
/// `(reflect(light_dir, normal) . dir) ^ exponent * intensity` to the specular
/// part where the base is positive.
pub open spec fn illumination(
    hit: HitModel,
    dir: V3,
    spheres: Seq<SphereModel>,
    lights: Seq<LightModel>,
    n: nat,
) -> Illumination
    decreases n,
{
    if n == 0 {
        Illumination { diffuse: 0, specular: 0 }
    } else {
        let prev = illumination(hit, dir, spheres, lights, (n - 1) as nat);
        let light = lights[n - 1];
        if in_shadow(hit.point, hit.normal, light, spheres) {
            prev
        } else {
            let light_dir = light_direction(hit.point, light);
            let facing = v3_dot(light_dir, hit.normal);
            let gloss = v3_dot(reflect_spec(light_dir, hit.normal), dir);
            Illumination {
                diffuse: if fx_gt(facing, 0) {
                    fx_add(prev.diffuse, fx_mul(light.intensity, facing))
                } else {
                    prev.diffuse
                },
                specular: if fx_gt(gloss, 0) {
                    fx_add(
                        prev.specular,
                        fx_mul(fx_pow(gloss, hit.material.specular_exponent), light.intensity),
                    )
                } else {
                    prev.specular
                },
            }
        }
    }
}

/// The four contributions weighted by the material's albedo:
/// `color * diffuse * k0 + white * specular * k1 + reflected * k2 + refracted * k3`.
pub open spec fn composite(
    material: MaterialModel,
    light: Illumination,
    reflected: V3,
    refracted: V3,
) -> V3 {
    v3_add(
        v3_add(
            v3_add(
                v3_scale(v3_scale(material.diffuse_color, light.diffuse), material.albedo.x),
                v3_scale(v3_scale(v3_ones(), light.specular), material.albedo.y),
            ),
            v3_scale(reflected, material.albedo.z),
        ),
        v3_scale(refracted, material.albedo.w),
    )
}

/// Direction of the reflected ray at `hit`.
pub open spec fn reflected_direction(dir: V3, hit: HitModel) -> V3 {
    v3_normalized(reflect_spec(dir, hit.normal))
}

/// Direction of the refracted ray at `hit`; the medium outside has index one.
pub open spec fn refracted_direction(dir: V3, hit: HitModel) -> V3 {
    v3_normalized(refract_spec(dir, hit.normal, hit.material.refractive_index, ONE as int))
}

/// Color seen along the ray from `orig` in direction `dir`. Beyond the depth
/// limit, or where the ray meets nothing, it is the background color. Else it
/// is the composite of the light at the hit and of the colors seen along the
/// reflected and the refracted ray, each traced one level deeper.
pub open spec fn shade(
    orig: V3,
    dir: V3,
    spheres: Seq<SphereModel>,
    lights: Seq<LightModel>,
    depth: nat,
) -> V3
    decreases MAX_DEPTH + 1 - depth,
{
    if depth > MAX_DEPTH {
        background_color()
    } else {
        match scene_hit(orig, dir, spheres) {
            None => background_color(),
            Some(hit) => {
                let reflect_dir = reflected_direction(dir, hit);
                let refract_dir = refracted_direction(dir, hit);
                composite(
                    hit.material,
                    illumination(hit, dir, spheres, lights, lights.len()),
                    shade(
                        offset_origin(hit.point, reflect_dir, hit.normal),
                        reflect_dir,
                        spheres,
                        lights,
                        depth + 1,
                    ),
                    shade(
                        offset_origin(hit.point, refract_dir, hit.normal),
                        refract_dir,
                        spheres,
                        lights,
                        depth + 1,
                    ),
                )
            },
        }
    }
}

/// The model of an optional intersection.
pub open spec fn opt_hit(o: Option<HitRecord>) -> Option<HitModel> {
    match o {
        Some(h) => Some(h@),
        None => None,
    }
}

/// An intersection of a ray with the scene.
#[derive(Clone, Copy, Debug, PartialEq, Eq, Structural)]
pub struct HitRecord {
    pub point: Vec3,
    pub normal: Vec3,
    pub material: Material,
}

impl View for HitRecord {
    type V = HitModel;

    open spec fn view(&self) -> HitModel {
        HitModel { point: self.point@, normal: self.normal@, material: self.material@ }
    }
}

/// Index of, and distance to, the sphere that the ray meets first.
fn nearest_sphere_hit(orig: &Vec3, dir: &Vec3, spheres: &[Sphere]) -> (r: Option<(usize, Scalar)>)
    ensures
        match r {
            Some((i, t)) => {
                &&& i < spheres@.len()
                &&& nearest_sphere(sphere_models(spheres@), orig@, dir@, spheres@.len()) == Some(
                    i as int,
                )
                &&& ray_hit(spheres@[i as int]@, orig@, dir@) == Some(t@)
            },
            None => nearest_sphere(sphere_models(spheres@), orig@, dir@, spheres@.len()) is None,
        },
{
    let ghost models = sphere_models(spheres@);
    let mut best: Option<(usize, Scalar)> = None;
    let mut i: usize = 0;
    while i < spheres.len()
        invariant
            i <= spheres@.len(),
            models == sphere_models(spheres@),
            match best {
                Some((j, t)) => {
                    &&& j < i
                    &&& nearest_sphere(models, orig@, dir@, i as nat) == Some(j as int)
                    &&& ray_hit(models[j as int], orig@, dir@) == Some(t@)
                },
                None => nearest_sphere(models, orig@, dir@, i as nat) is None,
            },
        decreases spheres@.len() - i,
    {
        match spheres[i].ray_intersect(orig, dir) {
            Some(t) => {
                let closer = match best {
                    Some((_, b)) => t.lt(b),
                    None => true,
                };
                if closer {
                    best = Some((i, t));
                }
            },
            None => {},
        }
        i += 1;
    }
    best
}

/// The ground as a ray sees it at distance `d` and `point`, short of the
/// far cutoff.
fn ground_seen(d: Scalar, point: Vec3, base: &Material) -> (hit: Option<HitRecord>)
    ensures
        opt_hit(hit) == within_cutoff(
            d@,
            HitModel {
                point: point@,
                normal: V3 { x: 0, y: ONE as int, z: 0 },
                material: MaterialModel {
                    diffuse_color: tile_color(point@.x, point@.z),
                    ..base@
                },
            },
        ),
{
    if d.lt(Scalar::from_raw(FAR_CUTOFF)) {
        Some(
            HitRecord {
                point,
                normal: Vec3 { x: Scalar::zero(), y: Scalar::one(), z: Scalar::zero() },
                material: Material {
                    diffuse_color: checkerboard_color(point.x, point.z),
                    albedo: base.albedo,
                    specular_exponent: base.specular_exponent,
                    refractive_index: base.refractive_index,
                },
            },
        )
    } else {
        None
    }
}

/// The sphere as a ray sees it at distance `t`, short of the far cutoff.
fn sphere_seen(sphere: &Sphere, orig: &Vec3, dir: &Vec3, t: Scalar) -> (hit: Option<HitRecord>)
    ensures
        opt_hit(hit) == within_cutoff(t@, sphere_record(sphere@, orig@, dir@, t@)),
{
    if t.lt(Scalar::from_raw(FAR_CUTOFF)) {
        let point = orig.add(dir.scale(t));
        Some(
            HitRecord {
                point,
                normal: point.sub(sphere.center).normalized(),
                material: sphere.material,
            },
        )
    } else {
        None
    }
}

/// The nearest surface that the ray from `orig` along `dir` meets, if any
/// lies nearer than the far cutoff.
pub fn scene_intersect(orig: &Vec3, dir: &Vec3, spheres: &[Sphere]) -> (hit: Option<HitRecord>)
    ensures
        opt_hit(hit) == scene_hit(orig@, dir@, sphere_models(spheres@)),
        spheres@.len() == 0 && !fx_gt(fx_abs(dir@.y), EPS as int) ==> hit is None,
        v3_has_nan(dir@) ==> hit is None,
{
    let near = nearest_sphere_hit(orig, dir, spheres);
    match (ground_intersect(orig, dir), near) {
        (Some((d, point)), Some((i, t))) => {
            if d.lt(t) {
                ground_seen(d, point, &spheres[i].material)
            } else {
                sphere_seen(&spheres[i], orig, dir, t)
            }
        },
        (Some((d, point)), None) => ground_seen(d, point, &Material::default()),
        (None, Some((i, t))) => sphere_seen(&spheres[i], orig, dir, t),
        (None, None) => None,
    }
}

/// Diffuse and specular light that `lights` shed on `hit`, seen along `dir`.
pub fn gather_light(hit: &HitRecord, dir: &Vec3, spheres: &[Sphere], lights: &[Light]) -> (r: (
    Scalar,
    Scalar,
))
    ensures
        (Illumination { diffuse: r.0@, specular: r.1@ }) == illumination(
            hit@,
            dir@,
            sphere_models(spheres@),
            light_models(lights@),
            lights@.len(),
        ),
{
    let mut diffuse = Scalar::zero();
    let mut specular = Scalar::zero();
    let mut i: usize = 0;
    while i < lights.len()
        invariant
            i <= lights@.len(),
            (Illumination { diffuse: diffuse@, specular: specular@ }) == illumination(
                hit@,
                dir@,
                sphere_models(spheres@),
                light_models(lights@),
                i as nat,
            ),
        decreases lights@.len() - i,
    {
        let light = &lights[i];
        let to_light = light.position.sub(hit.point);
        let light_dir = to_light.normalized();
        let shadow_orig = get_orig(&hit.point, &light_dir, &hit.normal);
        let shadowed = match scene_intersect(&shadow_orig, &light_dir, spheres) {
            Some(h) => h.point.sub(shadow_orig).norm().lt(to_light.norm()),
            None => false,
        };
        if !shadowed {
            let facing = light_dir.dot(hit.normal);
            if facing.gt(Scalar::zero()) {
                diffuse = diffuse.add(light.intensity.mul(facing));
            }
            let gloss = reflect(&light_dir, &hit.normal).dot(*dir);
            if gloss.gt(Scalar::zero()) {
                specular = specular.add(
                    gloss.pow(hit.material.specular_exponent).mul(light.intensity),
                );
            }
        }
        i += 1;
    }
    (diffuse, specular)
}

/// Color seen along the ray from `orig` in direction `dir`, which the caller
/// has normalized. `depth` counts the bounces behind the ray: zero for a
/// camera ray.
pub fn cast_ray(orig: &Vec3, dir: &Vec3, spheres: &[Sphere], lights: &[Light], depth: usize) -> (color:
    Vec3)
    ensures
        color@ == shade(
            orig@,
            dir@,
            sphere_models(spheres@),
            light_models(lights@),
            depth as nat,
        ),
        depth > MAX_DEPTH ==> color@ == background_color(),
    decreases MAX_DEPTH + 1 - depth,
{
    if depth > MAX_DEPTH {
        return background();
    }
    let hit = match scene_intersect(orig, dir, spheres) {
        Some(hit) => hit,
        None => {
            return background();
        },
    };
    let reflect_dir = reflect(dir, &hit.normal).normalized();
    let reflect_orig = get_orig(&hit.point, &reflect_dir, &hit.normal);
    let reflect_color = cast_ray(&reflect_orig, &reflect_dir, spheres, lights, depth + 1);

    let refract_dir = refract(
        dir,
        &hit.normal,
        hit.material.refractive_index,
        Scalar::one(),
    ).normalized();
    let refract_orig = get_orig(&hit.point, &refract_dir, &hit.normal);
    let refract_color = cast_ray(&refract_orig, &refract_dir, spheres, lights, depth + 1);

    let (diffuse, specular) = gather_light(&hit, dir, spheres, lights);
    hit.material.diffuse_color.scale(diffuse).scale(hit.material.albedo.x).add(
        Vec3::ones().scale(specular).scale(hit.material.albedo.y),
    ).add(reflect_color.scale(hit.material.albedo.z)).add(
        refract_color.scale(hit.material.albedo.w),
    )
}

/// The nearest sphere is hit, no sphere is hit at a smaller distance, and
/// none before it in the sequence is hit at the same distance.
pub proof fn lemma_nearest_sphere_is_first_minimum(
    spheres: Seq<SphereModel>,
    orig: V3,
    dir: V3,
    n: nat,
)
    requires
        n <= spheres.len(),
    ensures
        match nearest_sphere(spheres, orig, dir, n) {
            Some(i) => {
                &&& 0 <= i < n
                &&& ray_hit(spheres[i], orig, dir) is Some
                &&& forall|j: int|
                    0 <= j < n && (#[trigger] ray_hit(spheres[j], orig, dir)) is Some ==> {
                        let t = ray_hit(spheres[i], orig, dir)->Some_0;
                        let u = ray_hit(spheres[j], orig, dir)->Some_0;
                        t <= u && (j < i ==> t < u)
                    }
            },
            None => forall|j: int| 0 <= j < n ==> (#[trigger] ray_hit(spheres[j], orig, dir)) is None,
        },
    decreases n,
{
    if n > 0 {
        lemma_nearest_sphere_is_first_minimum(spheres, orig, dir, (n - 1) as nat);
    }
}

/// One coordinate of a ray that runs along an axis at the center of a
/// sphere: `c` and `o` are the coordinates of the center and the origin, `s`
/// that of the direction, `d` the distance to the center, `r` the radius and
/// `eta` the ratio of the refractive indices.
proof fn lemma_at_center_coordinate(c: int, o: int, s: int, d: int, r: int, eta: int)
    requires
        s == ONE || s == -ONE || s == 0,
        in_range(c),
        in_range(o),
        fx_sub(c, o) == fx_mul(s, d),
        0 < r < d < LIMIT,
        0 <= eta <= LIMIT,
    ensures
        fx_sub(fx_add(o, fx_mul(s, d - r)), c) == fx_mul(fx_neg(s), r),
        fx_mul(fx_neg(s), r) == (if s == ONE {
            -r
        } else if s == 0 {
            0
        } else {
            r
        }),
        in_range(fx_add(o, fx_mul(s, d - r))),
        fx_add(fx_mul(s, eta), fx_mul(fx_neg(s), fx_sub(fx_mul(eta, ONE as int), ONE as int))) == s,
        fx_sub(fx_add(o, fx_mul(s, d - r)), fx_mul(fx_neg(s), EPS as int)) == fx_add(
            fx_add(o, fx_mul(s, d - r)),
            fx_mul(s, EPS as int),
        ),
{
    let one = ONE as int;
    lemma_scaled_axis(s, d);
    lemma_scaled_axis(s, d - r);
    lemma_scaled_axis(fx_neg(s), r);
    lemma_scaled_axis(s, eta);
    lemma_scaled_axis(s, EPS as int);
    lemma_scaled_axis(fx_neg(s), EPS as int);
    assert(eta * one == one * eta) by (nonlinear_arith);
    lemma_div_multiples_vanish(eta, one);
    assert(fx_mul(eta, one) == eta);
    lemma_scaled_axis(fx_neg(s), eta - one);
}

/// A ray along an axis at the center of a lone sphere, from outside and
/// nearer than the far cutoff, where the ground is not in the way: it meets
/// the sphere on the center line, the normal there faces the ray, and the
/// refracted ray goes straight on, whatever the refractive index. The color
/// seen is the composite of the light at that point, of the color along the
/// reflected ray, and of the color along the ray that starts a thousandth
/// inside the surface, each of the two one level deeper.
pub proof fn lemma_ray_at_center(
    s: SphereModel,
    orig: V3,
    dir: V3,
    d: int,
    lights: Seq<LightModel>,
    depth: nat,
)
    requires
        depth <= MAX_DEPTH,
        is_unit(dir),
        v3_valid(s.center),
        v3_valid(orig),
        v3_sub(s.center, orig) == v3_scale(dir, d),
        0 < s.radius < d < LIMIT,
        d - s.radius < FAR_CUTOFF,
        ground_hit(orig, dir) is None,
        0 < s.material.refractive_index <= LIMIT,
    ensures
        ({
            let hit = HitModel {
                point: v3_add(orig, v3_scale(dir, d - s.radius)),
                normal: v3_neg(dir),
                material: s.material,
            };
            let inside = v3_add(hit.point, v3_scale(dir, EPS as int));
            let mirrored = reflected_direction(dir, hit);
            &&& scene_hit(orig, dir, seq![s]) == Some(hit)
            &&& refracted_direction(dir, hit) == dir
            &&& offset_origin(hit.point, dir, hit.normal) == inside
            &&& shade(orig, dir, seq![s], lights, depth) == composite(
                s.material,
                illumination(hit, dir, seq![s], lights, lights.len()),
                shade(
                    offset_origin(hit.point, mirrored, hit.normal),
                    mirrored,
                    seq![s],
                    lights,
                    depth + 1,
                ),
                shade(inside, dir, seq![s], lights, depth + 1),
            )
        }),
{
    let one = ONE as int;
    let r = s.radius;
    let t = d - r;
    let spheres = seq![s];
    lemma_unit_is_axis(dir);
    lemma_hit_along_center_line(s, orig, dir, d);
    assert(ray_hit(s, orig, dir) == Some(t));
    // The sphere is the nearest surface.
    assert(spheres.len() == 1 && spheres[0] == s);
    assert(nearest_sphere(spheres, orig, dir, 1) == Some(0int)) by {
        assert(nearest_sphere(spheres, orig, dir, 0) is None);
        reveal_with_fuel(nearest_sphere, 2);
    }
    let ri = s.material.refractive_index;
    let eta = fx_div(one, ri);
    assert(0 <= eta <= LIMIT) by {
        assert(0 <= (one * one) / ri) by (nonlinear_arith)
            requires
                ri > 0,
                one > 0,
        ;
    }
    lemma_at_center_coordinate(s.center.x, orig.x, dir.x, d, r, eta);
    lemma_at_center_coordinate(s.center.y, orig.y, dir.y, d, r, eta);
    lemma_at_center_coordinate(s.center.z, orig.z, dir.z, d, r, eta);
    let point = v3_add(orig, v3_scale(dir, t));
    let out = v3_sub(point, s.center);
    // The normal faces the ray.
    lemma_root_of_square(r);
    assert(v3_dot_wide(out, out) == r * r) by (nonlinear_arith)
        requires
            v3_dot_wide(out, out) == out.x * out.x + out.y * out.y + out.z * out.z,
            (out.x == r || out.x == -r) && out.y == 0 && out.z == 0 || out.x == 0 && (out.y == r
                || out.y == -r) && out.z == 0 || out.x == 0 && out.y == 0 && (out.z == r || out.z
                == -r),
    ;
    assert(v3_norm(out) == r);
    assert((r * one) / r == one && (0 * one) / r == 0) by {
        lemma_div_multiples_vanish(one, r);
        lemma_div_multiples_vanish(0, r);
        assert(r * 0 == 0 * one && r * one == r * ONE) by (nonlinear_arith)
            requires
                ONE == one,
        ;
    }
    assert(v3_normalized(out) == v3_neg(dir));
    let hit = HitModel { point, normal: v3_neg(dir), material: s.material };
    assert(sphere_record(s, orig, dir, t) == hit);
    assert(scene_hit(orig, dir, spheres) == Some(hit));
    // The refracted ray goes straight on.
    let n = v3_neg(dir);
    assert(v3_dot_wide(dir, n) == -(one * one)) by (nonlinear_arith)
        requires
            v3_dot_wide(dir, n) == dir.x * n.x + dir.y * n.y + dir.z * n.z,
            n.x == -dir.x,
            n.y == -dir.y,
            n.z == -dir.z,
            dir.x * dir.x + dir.y * dir.y + dir.z * dir.z == one * one,
    ;
    assert((-(one * one)) / one == -one) by {
        lemma_div_multiples_vanish(-one, one);
        assert(one * (-one) == -(one * one)) by (nonlinear_arith);
    }
    assert(v3_dot(dir, n) == -one);
    assert(cos_incidence(dir, n) == one);
    assert(fx_mul(one, one) == one) by {
        lemma_div_multiples_vanish(one, one);
    }
    assert(fx_mul(fx_mul(eta, eta), 0) == 0) by {
        let e2 = fx_mul(eta, eta);
        assert(e2 * 0 == 0) by (nonlinear_arith);
    }
    lemma_root_of_square(one);
    assert(fx_sqrt(one) == one);
    assert(refract_oriented(dir, n, ri, one) == dir);
    assert(refract_spec(dir, n, ri, one) == dir);
    assert(v3_dot_wide(dir, dir) == one * one);
    assert(v3_norm(dir) == one);
    assert((one * one) / one == one && (0 * one) / one == 0) by {
        lemma_div_multiples_vanish(one, one);
        lemma_div_multiples_vanish(0, one);
        assert(one * 0 == 0 * one) by (nonlinear_arith);
    }
    assert(v3_normalized(dir) == dir);
    assert(refracted_direction(dir, hit) == dir);
    assert(offset_origin(point, dir, n) == v3_add(point, v3_scale(dir, EPS as int)));
}

} // verus!
