//! Materials, spheres and lights, and the ray-sphere intersection test.
use crate::algebra_models::dot_wide;
use crate::algebra_models::is_near_unit;
use crate::algebra_models::is_unit;
use crate::algebra_models::lemma_unit_is_axis;
use crate::algebra_models::v3_dot;
use crate::algebra_models::v3_dot_wide;
use crate::algebra_models::v3_has_nan;
use crate::algebra_models::v3_scale;
use crate::algebra_models::v3_sub;
use crate::algebra_models::v3_valid;
use crate::algebra_models::v3_zero;
use crate::algebra_models::Vec3;
use crate::algebra_models::Vec4;
use crate::algebra_models::V3;
use crate::algebra_models::V4;
use crate::scalar::fx_add;
use crate::scalar::fx_mul;
use crate::scalar::fx_sub;
use crate::scalar::in_range;
use crate::scalar::is_floor_sqrt;
use crate::scalar::is_nan;
use crate::scalar::lemma_isqrt_bounds;
use crate::scalar::lemma_isqrt_unique;
use crate::scalar::lemma_product_bound;
use crate::scalar::wide_sqrt;
use crate::scalar::Scalar;
use crate::scalar::LIMIT;
use crate::scalar::ONE;
use crate::optics::lemma_near_unit_within;
use crate::optics::lemma_product_within;
use crate::optics::lemma_round_down;
use vstd::arithmetic::div_mod::lemma_div_multiples_vanish;
use vstd::arithmetic::div_mod::lemma_hoist_over_denominator;
use vstd::prelude::*;

verus! {

/// Model of a material.
pub struct MaterialModel {
    pub diffuse_color: V3,
    pub albedo: V4,
    pub specular_exponent: nat,
    pub refractive_index: int,
}

/// Model of a sphere.
pub struct SphereModel {
    pub center: V3,
    pub radius: int,
    pub material: MaterialModel,
}

/// Model of a point light.
pub struct LightModel {
    pub position: V3,
    pub intensity: int,
}

/// The pure-diffuse material: black, albedo `(1, 0, 0, 0)`, exponent zero
/// and refractive index one.
pub open spec fn default_material() -> MaterialModel {
    MaterialModel {
        diffuse_color: v3_zero(),
        albedo: V4 { x: ONE as int, y: 0, z: 0, w: 0 },
        specular_exponent: 0,
        refractive_index: ONE as int,
    }
}

/// Squared distance from the sphere's center to the line of the ray, at
/// double scale: `L.L - tca^2` with `L = center - origin` and `tca = L.dir`.
pub open spec fn closest_approach_sq(s: SphereModel, orig: V3, dir: V3) -> int {
    let l = v3_sub(s.center, orig);
    let tca = v3_dot(l, dir);
    v3_dot_wide(l, l) - tca * tca
}

/// Squared radius, at double scale.
pub open spec fn radius_sq(s: SphereModel) -> int {
    s.radius * s.radius
}

/// Whether the center or the radius of the sphere is no number.
pub open spec fn sphere_has_nan(s: SphereModel) -> bool {
    v3_has_nan(s.center) || is_nan(s.radius)
}

/// Distance along `dir` from `orig` to the sphere's surface: the near root
/// where it is not behind the origin, else the far root, else nothing. A ray
/// or a sphere with a component that is no number meets nothing.
pub open spec fn ray_hit(s: SphereModel, orig: V3, dir: V3) -> Option<int> {
    let tca = v3_dot(v3_sub(s.center, orig), dir);
    let d2 = closest_approach_sq(s, orig, dir);
    if sphere_has_nan(s) || v3_has_nan(orig) || v3_has_nan(dir) {
        None
    } else if d2 > radius_sq(s) {
        None
    } else {
        let thc = wide_sqrt(radius_sq(s) - d2);
        let t0 = fx_sub(tca, thc);
        let t1 = fx_add(tca, thc);
        if t0 >= 0 {
            Some(t0)
        } else if t1 >= 0 {
            Some(t1)
        } else {
            None
        }
    }
}

/// The raw value of an optional scalar.
pub open spec fn opt_raw(o: Option<Scalar>) -> Option<int> {
    match o {
        Some(s) => Some(s@),
        None => None,
    }
}

/// Optical properties of a surface. The four albedo weights scale the
/// diffuse, specular, reflected and refracted contributions.
#[derive(Clone, Copy, Debug, PartialEq, Eq, Structural)]
pub struct Material {
    pub diffuse_color: Vec3,
    pub albedo: Vec4,
    pub specular_exponent: u32,
    pub refractive_index: Scalar,
}

/// A sphere with its material.
#[derive(Clone, Copy, Debug, PartialEq, Eq, Structural)]
pub struct Sphere {
    pub center: Vec3,
    pub radius: Scalar,
    pub material: Material,
}

/// A point light.
#[derive(Clone, Copy, Debug, PartialEq, Eq, Structural)]
pub struct Light {
    pub position: Vec3,
    pub intensity: Scalar,
}

impl View for Material {
    type V = MaterialModel;

    open spec fn view(&self) -> MaterialModel {
        MaterialModel {
            diffuse_color: self.diffuse_color@,
            albedo: self.albedo@,
            specular_exponent: self.specular_exponent as nat,
            refractive_index: self.refractive_index@,
        }
    }
}

impl View for Sphere {
    type V = SphereModel;

    open spec fn view(&self) -> SphereModel {
        SphereModel { center: self.center@, radius: self.radius@, material: self.material@ }
    }
}

impl View for Light {
    type V = LightModel;

    open spec fn view(&self) -> LightModel {
        LightModel { position: self.position@, intensity: self.intensity@ }
    }
}

impl Default for Material {
    /// The pure-diffuse material.
    fn default() -> (m: Material)
        ensures
            m@ == default_material(),
    {
        Material {
            diffuse_color: Vec3::default(),
            albedo: Vec4 {
                x: Scalar::one(),
                y: Scalar::zero(),
                z: Scalar::zero(),
                w: Scalar::zero(),
            },
            specular_exponent: 0,
            refractive_index: Scalar::one(),
        }
    }
}

impl Sphere {
    /// Distance along `dir` at which the ray from `orig` meets this sphere.
    pub fn ray_intersect(&self, orig: &Vec3, dir: &Vec3) -> (t: Option<Scalar>)
        ensures
            opt_raw(t) == ray_hit(self@, orig@, dir@),
            closest_approach_sq(self@, orig@, dir@) > radius_sq(self@) ==> t is None,
    {
        if self.center.has_nan() || self.radius.is_nan() || orig.has_nan() || dir.has_nan() {
            return None;
        }
        let l = self.center.sub(*orig);
        let tca = l.dot(*dir);
        let tw: i128 = tca.wide();
        let rw: i128 = self.radius.wide();
        proof {
            lemma_product_bound(tw as int, tw as int);
            lemma_product_bound(rw as int, rw as int);
        }
        let ll: i128 = match dot_wide(&l, &l) {
            Some(w) => w,
            None => {
                return None;
            },
        };
        let d2: i128 = ll - tw * tw;
        let radius_squared: i128 = rw * rw;
        if d2 > radius_squared {
            return None;
        }
        let thc = Scalar::sqrt_wide(radius_squared - d2);
        let t0 = tca.sub(thc);
        if t0.raw() >= 0 {
            return Some(t0);
        }
        let t1 = tca.add(thc);
        if t1.raw() >= 0 {
            Some(t1)
        } else {
            None
        }
    }
}

/// A ray that starts at the center of a sphere meets the sphere at the
/// distance of its radius, whatever its direction.
pub proof fn lemma_hit_from_center(s: SphereModel, dir: V3)
    requires
        !v3_has_nan(s.center),
        !v3_has_nan(dir),
        0 <= s.radius <= LIMIT,
    ensures
        ray_hit(s, s.center, dir) == Some(s.radius),
{
    let r = s.radius;
    let l = v3_sub(s.center, s.center);
    assert(l == v3_zero());
    assert(v3_dot_wide(l, dir) == 0 && v3_dot_wide(l, l) == 0) by (nonlinear_arith)
        requires
            l == (V3 { x: 0, y: 0, z: 0 }),
            v3_dot_wide(l, dir) == l.x * dir.x + l.y * dir.y + l.z * dir.z,
            v3_dot_wide(l, l) == l.x * l.x + l.y * l.y + l.z * l.z,
    ;
    assert(v3_dot(l, dir) == 0);
    lemma_root_of_square(r);
}

/// A ray of unit direction that starts on the center line of a sphere, at a
/// distance `d` before the center that exceeds the radius, meets the sphere
/// at the distance `d - radius`.
pub proof fn lemma_hit_along_center_line(s: SphereModel, orig: V3, dir: V3, d: int)
    requires
        is_unit(dir),
        v3_sub(s.center, orig) == v3_scale(dir, d),
        0 <= s.radius < d <= LIMIT,
    ensures
        ray_hit(s, orig, dir) == Some(d - s.radius),
{
    let r = s.radius;
    let l = v3_sub(s.center, orig);
    let one = ONE as int;
    lemma_unit_is_axis(dir);
    lemma_scaled_axis(dir.x, d);
    lemma_scaled_axis(dir.y, d);
    lemma_scaled_axis(dir.z, d);
    assert(v3_dot_wide(l, dir) == d * one && v3_dot_wide(l, l) == d * d) by (nonlinear_arith)
        requires
            v3_dot_wide(l, dir) == l.x * dir.x + l.y * dir.y + l.z * dir.z,
            v3_dot_wide(l, l) == l.x * l.x + l.y * l.y + l.z * l.z,
            (dir.x == one && l.x == d || dir.x == -one && l.x == -d) && dir.y == 0 && l.y == 0
                && dir.z == 0 && l.z == 0 || (dir.y == one && l.y == d || dir.y == -one && l.y
                == -d) && dir.x == 0 && l.x == 0 && dir.z == 0 && l.z == 0 || (dir.z == one && l.z
                == d || dir.z == -one && l.z == -d) && dir.x == 0 && l.x == 0 && dir.y == 0 && l.y
                == 0,
    ;
    assert(d * one == one * d) by (nonlinear_arith);
    lemma_div_multiples_vanish(d, one);
    assert(v3_dot(l, dir) == d);
    assert(closest_approach_sq(s, orig, dir) == 0);
    lemma_root_of_square(r);
}

/// One component of the line from the origin to the center: the component
/// `m` of a nearly unit direction times the distance `d`, rounded down, with
/// what the rounding leaves.
proof fn lemma_line_part(m: int, d: int, k: int) -> (g: int)
    requires
        1 <= k <= 1000,
        -(ONE + 8) <= m <= ONE + 8,
        0 <= d <= k * ONE,
    ensures
        0 <= g < ONE,
        m * d == ONE * fx_mul(m, d) + g,
        in_range(fx_mul(m, d)),
        -(ONE * (ONE + 8)) <= g * m <= ONE * (ONE + 8),
        ONE * (fx_mul(m, d) * m) == d * (m * m) - g * m,
        (ONE * ONE) * (fx_mul(m, d) * fx_mul(m, d)) == (d * d) * (m * m) - 2 * (d * (g * m)) + g
            * g,
{
    let one = ONE as int;
    let e = m * d;
    let ko = k * one;
    lemma_product_within(m, d, one + 8, ko);
    assert((one + 8) * ko < (2 * ko) * one && (-(2 * ko)) * one == -((2 * ko) * one) && 2 * ko
        <= LIMIT) by (nonlinear_arith)
        requires
            one == 0x4_0000_0000_0000,
            LIMIT == 0x4000_0000_0000_0000,
            ko == k * one,
            1 <= k <= 1000,
    ;
    lemma_round_down(e, -(2 * ko), 2 * ko);
    let g = e % one;
    let q = e / one;
    assert(fx_mul(m, d) == q);
    lemma_product_within(g, m, one, one + 8);
    let gm = g * m;
    assert(one * (q * m) == d * (m * m) - gm) by (nonlinear_arith)
        requires
            e == one * q + g,
            e == m * d,
            gm == g * m,
    ;
    let oq = one * q;
    assert(oq * oq == (one * one) * (q * q)) by (nonlinear_arith)
        requires
            oq == one * q,
    ;
    assert(oq * oq == e * e - 2 * (e * g) + g * g) by (nonlinear_arith)
        requires
            oq == e - g,
    ;
    assert(e * e == (d * d) * (m * m) && e * g == d * gm) by (nonlinear_arith)
        requires
            e == m * d,
            gm == g * m,
    ;
    g
}

/// A ray of nearly unit direction that starts on the center line of a
/// sphere, at a distance `d` of at most `k` units before the center, meets
/// the sphere at the distance `d - radius` up to rounding: within
/// `130 * k * k` steps, for a radius of at least one and an origin that far
/// outside.
pub proof fn lemma_hit_near_center_line(s: SphereModel, orig: V3, dir: V3, d: int, k: int)
    requires
        1 <= k <= 1000,
        is_near_unit(dir),
        v3_sub(s.center, orig) == v3_scale(dir, d),
        !v3_has_nan(s.center),
        !v3_has_nan(orig),
        !is_nan(s.radius),
        ONE <= s.radius,
        s.radius + 130 * k * k <= d <= k * ONE,
    ensures
        ray_hit(s, orig, dir) matches Some(t) && -130 * k * k <= t - (d - s.radius) <= 130 * k * k,
{
    let one = ONE as int;
    let r = s.radius;
    let kk = k * k;
    let oo = one * one;
    assert(1 <= kk <= 1000000 && k <= kk && 130 * k * k == 130 * kk && -130 * k * k == -130 * kk)
        by (nonlinear_arith)
        requires
            kk == k * k,
            1 <= k <= 1000,
    ;
    lemma_near_unit_within(dir);
    let l = v3_sub(s.center, orig);
    let gx = lemma_line_part(dir.x, d, k);
    let gy = lemma_line_part(dir.y, d, k);
    let gz = lemma_line_part(dir.z, d, k);
    assert(l == v3_scale(dir, d));
    assert(l.x == fx_mul(dir.x, d) && l.y == fx_mul(dir.y, d) && l.z == fx_mul(dir.z, d));
    assert(v3_valid(l) && v3_valid(dir));
    let nn = v3_dot_wide(dir, dir);
    let delta = nn - oo;
    let rx = gx * dir.x;
    let ry = gy * dir.y;
    let rz = gz * dir.z;
    let rest = rx + ry + rz;
    let squares = gx * gx + gy * gy + gz * gz;
    assert(0 <= squares < 3 * oo) by (nonlinear_arith)
        requires
            squares == gx * gx + gy * gy + gz * gz,
            0 <= gx < one,
            0 <= gy < one,
            0 <= gz < one,
            oo == one * one,
    ;
    assert(one * (one + 8) < 2 * oo) by (nonlinear_arith)
        requires
            one == 0x4_0000_0000_0000,
            oo == one * one,
    ;
    assert(-6 * oo <= rest <= 6 * oo);
    // The line projected on the direction: tca.
    let big = v3_dot_wide(l, dir);
    let px = l.x * dir.x;
    let py = l.y * dir.y;
    let pz = l.z * dir.z;
    assert(big == px + py + pz);
    assert(one * big == one * px + one * py + one * pz) by (nonlinear_arith)
        requires
            big == px + py + pz,
    ;
    let sx = dir.x * dir.x;
    let sy = dir.y * dir.y;
    let sz = dir.z * dir.z;
    assert(nn == sx + sy + sz);
    assert(d * nn == d * sx + d * sy + d * sz) by (nonlinear_arith)
        requires
            nn == sx + sy + sz,
    ;
    assert(one * big == d * nn - rest);
    let dd = d * delta;
    let kone = k * one;
    assert(-16 * (kone * one) <= dd <= 16 * (kone * one)) by (nonlinear_arith)
        requires
            dd == d * delta,
            0 <= d <= kone,
            -16 * one <= delta <= 16 * one,
            one > 0,
    ;
    assert(oo <= kone * one) by (nonlinear_arith)
        requires
            kone == k * one,
            k >= 1,
            oo == one * one,
    ;
    let shift = big - one * d;
    assert(d * nn == d * oo + dd) by (nonlinear_arith)
        requires
            nn == oo + delta,
            dd == d * delta,
    ;
    assert(d * oo == one * (one * d)) by (nonlinear_arith)
        requires
            oo == one * one,
    ;
    assert(one * shift == one * big - one * (one * d)) by (nonlinear_arith)
        requires
            shift == big - one * d,
    ;
    assert(one * shift == dd - rest);
    let bound = 23 * kone;
    assert(-bound < shift < bound) by (nonlinear_arith)
        requires
            -(22 * (kone * one)) <= one * shift <= 22 * (kone * one),
            bound == 23 * kone,
            kone >= 1,
            one > 0,
    ;
    assert((-23 * k) * ONE == -bound && (23 * k) * ONE == bound) by (nonlinear_arith)
        requires
            bound == 23 * kone,
            kone == k * one,
            ONE == one,
    ;
    lemma_round_down(shift, -23 * k, 23 * k);
    lemma_hoist_over_denominator(shift, d, one as nat);
    assert(d * one == one * d) by (nonlinear_arith);
    let tca = v3_dot(l, dir);
    assert(big / one == shift / one + d);
    assert(d + 23 * k <= LIMIT) by (nonlinear_arith)
        requires
            d <= k * one,
            1 <= k <= 1000,
            one == 0x4_0000_0000_0000,
            LIMIT == 0x4000_0000_0000_0000,
    ;
    assert(tca == big / one);
    let e1 = tca - d;
    assert(-23 * k <= e1 <= 23 * k);
    // The squared length of the line.
    let ll = v3_dot_wide(l, l);
    let qx = l.x * l.x;
    let qy = l.y * l.y;
    let qz = l.z * l.z;
    assert(ll == qx + qy + qz);
    assert(oo * ll == oo * qx + oo * qy + oo * qz) by (nonlinear_arith)
        requires
            ll == qx + qy + qz,
    ;
    let dsq = d * d;
    assert(dsq * nn == dsq * sx + dsq * sy + dsq * sz) by (nonlinear_arith)
        requires
            nn == sx + sy + sz,
    ;
    let dr = d * rest;
    assert(dr == d * rx + d * ry + d * rz) by (nonlinear_arith)
        requires
            dr == d * rest,
            rest == rx + ry + rz,
    ;
    assert(oo * ll == dsq * nn - 2 * dr + squares);
    let kd = k * d;
    let ddd = dsq * delta;
    let kdo = kd * oo;
    assert(-16 * kdo <= ddd <= 16 * kdo) by (nonlinear_arith)
        requires
            ddd == (d * d) * delta,
            0 <= d <= k * one,
            -16 * one <= delta <= 16 * one,
            kdo == (k * d) * (one * one),
            k >= 1,
            one > 0,
    ;
    assert(-6 * kdo <= dr <= 6 * kdo && 3 * oo <= 3 * kdo) by (nonlinear_arith)
        requires
            dr == d * rest,
            -6 * oo <= rest <= 6 * oo,
            kdo == (k * d) * oo,
            k >= 1,
            d >= 1,
            0 <= oo,
    ;
    let gap = ll - dsq;
    assert(dsq * nn == dsq * oo + ddd) by (nonlinear_arith)
        requires
            nn == oo + delta,
            ddd == dsq * delta,
    ;
    assert(oo * gap == oo * ll - dsq * oo) by (nonlinear_arith)
        requires
            gap == ll - dsq,
    ;
    assert(oo * gap == ddd - 2 * dr + squares);
    assert(-31 * kd <= gap <= 31 * kd) by (nonlinear_arith)
        requires
            -31 * kdo <= oo * gap <= 31 * kdo,
            kdo == kd * oo,
            oo > 0,
    ;
    // The square of tca.
    let tsq = tca * tca;
    assert(d >= 23 * k);
    assert(-69 * kd <= tsq - dsq <= 69 * kd) by (nonlinear_arith)
        requires
            tsq == tca * tca,
            dsq == d * d,
            tca == d + e1,
            -23 * k <= e1 <= 23 * k,
            kd == k * d,
            d >= 23 * k,
            k >= 1,
    ;
    let d2 = closest_approach_sq(s, orig, dir);
    assert(d2 == ll - tsq);
    let c = 100 * kk;
    assert(100 * kd <= c * one) by (nonlinear_arith)
        requires
            kd == k * d,
            d <= k * one,
            c == 100 * (k * k),
            k >= 1,
    ;
    assert(-(c * one) <= d2 <= c * one);
    // The half chord is the radius, give or take.
    let rr = r * r;
    assert(radius_sq(s) == rr);
    let under = rr - d2;
    assert((r - c) * (r - c) <= under && under < (r + c + 1) * (r + c + 1) && 0 <= r - c && d2
        <= rr) by (nonlinear_arith)
        requires
            under == rr - d2,
            rr == r * r,
            -(c * one) <= d2 <= c * one,
            one <= r,
            0 <= c <= 100000000,
            one == 0x4_0000_0000_0000,
    ;
    lemma_isqrt_bounds(under, r - c, r + c + 1);
    assert(r + c <= LIMIT && -LIMIT <= tca - (r + c)) by (nonlinear_arith)
        requires
            r < d <= k * one,
            tca == d + e1,
            -23 * k <= e1,
            0 <= c <= 100000000,
            1 <= k <= 1000,
            one == 0x4_0000_0000_0000,
            LIMIT == 0x4000_0000_0000_0000,
    ;
    let thc = wide_sqrt(under);
    assert(r - c <= thc <= r + c);
    let t0 = fx_sub(tca, thc);
    assert(t0 == tca - thc);
    assert(t0 >= 0);
}

/// The product of a component `s` of an axis vector with the distance `d`.
pub proof fn lemma_scaled_axis(s: int, d: int)
    requires
        s == ONE || s == -ONE || s == 0,
        in_range(d),
    ensures
        fx_mul(s, d) == (if s == ONE {
            d
        } else if s == 0 {
            0
        } else {
            -d
        }),
{
    let one = ONE as int;
    if s == ONE {
        assert(s * d == one * d) by (nonlinear_arith)
            requires
                s == one,
        ;
        lemma_div_multiples_vanish(d, one);
    } else if s == 0 {
        assert(s * d == 0) by (nonlinear_arith)
            requires
                s == 0,
        ;
    } else {
        assert(s * d == one * (-d)) by (nonlinear_arith)
            requires
                s == -one,
        ;
        lemma_div_multiples_vanish(-d, one);
    }
}

/// The square root of the square of a radius is the radius.
pub proof fn lemma_root_of_square(r: int)
    requires
        0 <= r <= LIMIT,
    ensures
        wide_sqrt(r * r) == r,
        r * r >= 0,
{
    assert(is_floor_sqrt(r * r, r)) by (nonlinear_arith)
        requires
            0 <= r,
    ;
    lemma_isqrt_unique(r * r, r);
    assert(r * r <= 0 ==> r == 0) by (nonlinear_arith)
        requires
            0 <= r,
    ;
}

} // verus!
