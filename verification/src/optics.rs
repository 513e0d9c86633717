//! Reflection and refraction of a ray at a surface.
use crate::algebra_models::is_near_unit;
use crate::algebra_models::is_unit;
use crate::algebra_models::lemma_unit_is_axis;
use crate::algebra_models::v3_add;
use crate::algebra_models::v3_dot;
use crate::algebra_models::v3_dot_wide;
use crate::algebra_models::v3_neg;
use crate::algebra_models::v3_scale;
use crate::algebra_models::v3_sub;
use crate::algebra_models::v3_valid;
use crate::algebra_models::Vec3;
use crate::algebra_models::V3;
use crate::scalar::clamp;
use crate::scalar::fx_div;
use crate::scalar::fx_gt;
use crate::scalar::fx_lt;
use crate::scalar::fx_mul;
use crate::scalar::fx_neg;
use crate::scalar::fx_sqrt;
use crate::scalar::fx_sub;
use crate::scalar::in_range;
use crate::scalar::is_nan;
use crate::scalar::Scalar;
use crate::scalar::NAN;
use crate::scalar::ONE;
use vstd::arithmetic::div_mod::lemma_div_multiples_vanish;
use vstd::arithmetic::div_mod::lemma_fundamental_div_mod;
use vstd::arithmetic::div_mod::lemma_hoist_over_denominator;
use vstd::arithmetic::div_mod::lemma_mod_bound;
use vstd::prelude::*;

verus! {

/// One thousandth, rounded down: the offset that lifts a secondary ray off
/// its surface, and the least slope at which a ray can meet the ground.
pub const EPS: i64 = 1125899906842;

/// Mirror image of `v` in the plane with normal `n`: `v - n * 2 * (v . n)`.
pub open spec fn reflect_spec(v: V3, n: V3) -> V3 {
    v3_sub(v, v3_scale(v3_scale(n, 2 * ONE), v3_dot(v, n)))
}

/// `a` limited to `[-1, 1]`; no number stays none.
pub open spec fn clamp_unit(a: int) -> int {
    if is_nan(a) {
        NAN as int
    } else if a < -ONE {
        -(ONE as int)
    } else if a > ONE {
        ONE as int
    } else {
        a
    }
}

/// Cosine of the angle of incidence: minus the dot product, limited to
/// `[-1, 1]`. It is negative where the ray leaves the medium.
pub open spec fn cos_incidence(i: V3, n: V3) -> int {
    fx_neg(clamp_unit(v3_dot(i, n)))
}

/// Snell's law for a ray `i` that enters through a surface with normal `n`,
/// from index `eta_i` into index `eta_t`. With `eta = eta_i / eta_t` and
/// `k = 1 - eta^2 * (1 - cos^2)`, the result is `i * eta + n * (eta * cos - sqrt(k))`;
/// under total internal reflection (`k < 0`) it is the fixed direction `(1, 0, 0)`.
pub open spec fn refract_oriented(i: V3, n: V3, eta_t: int, eta_i: int) -> V3 {
    let cosi = cos_incidence(i, n);
    let eta = fx_div(eta_i, eta_t);
    let k = fx_sub(ONE as int, fx_mul(fx_mul(eta, eta), fx_sub(ONE as int, fx_mul(cosi, cosi))));
    if fx_lt(k, 0) {
        V3 { x: ONE as int, y: 0, z: 0 }
    } else {
        v3_add(v3_scale(i, eta), v3_scale(n, fx_sub(fx_mul(eta, cosi), fx_sqrt(k))))
    }
}

/// Refracted direction. A ray that leaves the medium sees the normal flipped
/// and the two indices swapped.
pub open spec fn refract_spec(i: V3, n: V3, eta_t: int, eta_i: int) -> V3 {
    if fx_lt(cos_incidence(i, n), 0) {
        refract_oriented(i, v3_neg(n), eta_i, eta_t)
    } else {
        refract_oriented(i, n, eta_t, eta_i)
    }
}

/// Origin of a secondary ray: `point` moved by `EPS` along the normal, to the
/// side that `dir` points to.
pub open spec fn offset_origin(point: V3, dir: V3, normal: V3) -> V3 {
    if fx_lt(v3_dot(dir, normal), 0) {
        v3_sub(point, v3_scale(normal, EPS as int))
    } else {
        v3_add(point, v3_scale(normal, EPS as int))
    }
}

/// Whether every component of `v` is at most `bound` in magnitude.
pub open spec fn v3_within(v: V3, bound: int) -> bool {
    -bound <= v.x <= bound && -bound <= v.y <= bound && -bound <= v.z <= bound
}

/// Mirror image of `v` in the plane with normal `n`.
pub fn reflect(v: &Vec3, n: &Vec3) -> (r: Vec3)
    ensures
        r@ == reflect_spec(v@, n@),
{
    v.sub(n.scale(Scalar::from_int(2)).scale(v.dot(*n)))
}

fn limit_unit(a: Scalar) -> (r: Scalar)
    ensures
        r@ == clamp_unit(a@),
{
    if a.is_nan() {
        a
    } else if a.raw() < -ONE {
        Scalar::one().neg()
    } else if a.raw() > ONE {
        Scalar::one()
    } else {
        a
    }
}

fn refract_facing(i: &Vec3, n: &Vec3, cosi: Scalar, eta_t: Scalar, eta_i: Scalar) -> (r: Vec3)
    requires
        cosi@ == cos_incidence(i@, n@),
    ensures
        r@ == refract_oriented(i@, n@, eta_t@, eta_i@),
{
    let eta = eta_i.div(eta_t);
    let k = Scalar::one().sub(eta.mul(eta).mul(Scalar::one().sub(cosi.mul(cosi))));
    if k.lt(Scalar::zero()) {
        Vec3 { x: Scalar::one(), y: Scalar::zero(), z: Scalar::zero() }
    } else {
        i.scale(eta).add(n.scale(eta.mul(cosi).sub(k.sqrt())))
    }
}

/// Direction of the ray `i` after it crosses a surface with normal `n`
/// between a medium of index `eta_i` and one of index `eta_t`.
pub fn refract(i: &Vec3, n: &Vec3, eta_t: Scalar, eta_i: Scalar) -> (r: Vec3)
    ensures
        r@ == refract_spec(i@, n@, eta_t@, eta_i@),
{
    let cosi = limit_unit(i.dot(*n)).neg();
    if cosi.lt(Scalar::zero()) {
        let flipped = n.neg();
        let cos_flipped = limit_unit(i.dot(flipped)).neg();
        refract_facing(i, &flipped, cos_flipped, eta_i, eta_t)
    } else {
        refract_facing(i, n, cosi, eta_t, eta_i)
    }
}

/// Origin of a secondary ray that leaves `point` along `dir`.
pub fn get_orig(point: &Vec3, dir: &Vec3, normal: &Vec3) -> (o: Vec3)
    ensures
        o@ == offset_origin(point@, dir@, normal@),
{
    if dir.dot(*normal).lt(Scalar::zero()) {
        point.sub(normal.scale(Scalar::from_raw(EPS)))
    } else {
        point.add(normal.scale(Scalar::from_raw(EPS)))
    }
}

/// The offset is one thousandth, rounded down to the grid.
pub proof fn lemma_eps()
    ensures
        EPS == ONE / 1000,
{
}

/// A ray that leaves the medium enters it with respect to the flipped
/// normal: flipping once is enough.
pub proof fn lemma_flipped_normal_faces_ray(i: V3, n: V3)
    requires
        v3_valid(i),
        v3_valid(n),
        fx_lt(cos_incidence(i, n), 0),
    ensures
        fx_gt(cos_incidence(i, v3_neg(n)), 0),
{
    let s = v3_dot_wide(i, n);
    let one = ONE as int;
    assert(v3_dot_wide(i, v3_neg(n)) == -s) by (nonlinear_arith)
        requires
            s == i.x * n.x + i.y * n.y + i.z * n.z,
            v3_dot_wide(i, v3_neg(n)) == i.x * (-n.x) + i.y * (-n.y) + i.z * (-n.z),
    ;
    assert(s / one >= 1);
    assert(s >= one);
    assert((-s) / one <= -1);
}

/// One component of a reflection in a normal that lies along an axis. The
/// component `a` of the vector has the normal's component `s`, and `b`, `c`
/// with `t`, `u` are the other two. Along the normal the component is
/// negated, as long as twice it is a raw value; across, it stays.
proof fn lemma_reflect_in_axis(a: int, b: int, c: int, s: int, t: int, u: int)
    requires
        in_range(a),
        (s == ONE || s == -ONE) && t == 0 && u == 0 || s == 0 && (t * t + u * u == ONE * ONE),
    ensures
        s != 0 ==> clamp((a * s + b * t + c * u) / (ONE as int)) == (if s == ONE {
            a
        } else {
            -a
        }),
        s != 0 && in_range(2 * a) ==> fx_sub(
            a,
            fx_mul(fx_mul(s, 2 * ONE), clamp((a * s + b * t + c * u) / (ONE as int))),
        ) == -a,
        s == 0 ==> fx_sub(
            a,
            fx_mul(fx_mul(s, 2 * ONE), clamp((a * s + b * t + c * u) / (ONE as int))),
        ) == a,
{
    let one = ONE as int;
    let d = clamp((a * s + b * t + c * u) / one);
    if s == 0 {
        assert(s * (2 * ONE) == 0) by (nonlinear_arith)
            requires
                s == 0,
        ;
        assert(fx_mul(s, 2 * ONE) == 0);
        assert(0 * d == 0) by (nonlinear_arith);
    } else {
        assert(b * t == 0) by (nonlinear_arith)
            requires
                t == 0,
        ;
        assert(c * u == 0) by (nonlinear_arith)
            requires
                u == 0,
        ;
        if s == ONE {
            assert(a * s == one * a) by (nonlinear_arith)
                requires
                    s == one,
            ;
            lemma_div_multiples_vanish(a, one);
            assert(d == a);
            assert(s * (2 * ONE) == one * (2 * one)) by (nonlinear_arith)
                requires
                    s == one,
                    ONE == one,
            ;
            lemma_div_multiples_vanish(2 * one, one);
            assert(fx_mul(s, 2 * ONE) == 2 * one);
            assert((2 * one) * a == one * (2 * a)) by (nonlinear_arith);
            lemma_div_multiples_vanish(2 * a, one);
        } else {
            assert(a * s == one * (-a)) by (nonlinear_arith)
                requires
                    s == -one,
            ;
            lemma_div_multiples_vanish(-a, one);
            assert(d == -a);
            assert(s * (2 * ONE) == one * (-2 * one)) by (nonlinear_arith)
                requires
                    s == -one,
                    ONE == one,
            ;
            lemma_div_multiples_vanish(-2 * one, one);
            assert(fx_mul(s, 2 * ONE) == -2 * one);
            assert((-2 * one) * (-a) == one * (2 * a)) by (nonlinear_arith);
            lemma_div_multiples_vanish(2 * a, one);
        }
    }
}

/// Reflection is an involution: with a normal of length exactly one, the
/// mirror image of the mirror image of `v` is `v`. This needs twice the
/// projection of `v` on the normal to be a raw value; beyond that the
/// first reflection saturates.
pub proof fn lemma_reflect_involution(v: V3, n: V3)
    requires
        v3_valid(v),
        is_unit(n),
        in_range(2 * v3_dot(v, n)),
    ensures
        reflect_spec(reflect_spec(v, n), n) == v,
{
    lemma_unit_is_axis(n);
    let w = reflect_spec(v, n);
    lemma_reflect_in_axis(v.x, v.y, v.z, n.x, n.y, n.z);
    lemma_reflect_in_axis(v.y, v.z, v.x, n.y, n.z, n.x);
    lemma_reflect_in_axis(v.z, v.x, v.y, n.z, n.x, n.y);
    lemma_reflect_in_axis(w.x, w.y, w.z, n.x, n.y, n.z);
    lemma_reflect_in_axis(w.y, w.z, w.x, n.y, n.z, n.x);
    lemma_reflect_in_axis(w.z, w.x, w.y, n.z, n.x, n.y);
}

/// The components of a vector of nearly unit length are hardly beyond one.
pub proof fn lemma_near_unit_within(n: V3)
    requires
        is_near_unit(n),
    ensures
        v3_within(n, ONE + 8),
{
    lemma_square_within(n.x, n.y, n.z);
    lemma_square_within(n.y, n.z, n.x);
    lemma_square_within(n.z, n.x, n.y);
}

proof fn lemma_square_within(a: int, b: int, c: int)
    requires
        a * a + b * b + c * c <= ONE * ONE + 16 * ONE,
    ensures
        -(ONE + 8) <= a <= ONE + 8,
{
    let one = ONE as int;
    assert(b * b >= 0 && c * c >= 0) by (nonlinear_arith);
    if a > one + 8 {
        assert(a * a >= (one + 9) * (one + 9)) by (nonlinear_arith)
            requires
                a >= one + 9,
                one > 0,
        ;
    }
    if a < -(one + 8) {
        assert(a * a >= (one + 9) * (one + 9)) by (nonlinear_arith)
            requires
                a <= -(one + 9),
                one > 0,
        ;
    }
}

/// A product of two bounded numbers is bounded by the product of the bounds.
pub proof fn lemma_product_within(a: int, b: int, x: int, y: int)
    requires
        -x <= a <= x,
        -y <= b <= y,
    ensures
        -(x * y) <= a * b <= x * y,
{
    assert(-(x * y) <= a * b <= x * y) by (nonlinear_arith)
        requires
            -x <= a <= x,
            -y <= b <= y,
    ;
}

/// Rounding a number down to a multiple of one: `x == ONE * (x / ONE) + r`
/// with `0 <= r < ONE`, and bounds on `x` in multiples of one carry over.
pub proof fn lemma_round_down(x: int, lo: int, hi: int)
    requires
        lo * ONE <= x < hi * ONE,
    ensures
        x == ONE * (x / (ONE as int)) + x % (ONE as int),
        0 <= x % (ONE as int) < ONE,
        lo <= x / (ONE as int) < hi,
{
    let one = ONE as int;
    lemma_fundamental_div_mod(x, one);
    lemma_mod_bound(x, one);
}

/// The parts of one reflection, for a vector within ten times the bound `u`
/// and a normal of nearly unit length: nothing saturates, so each component
/// is `a - floor(2 * m * d / ONE)` with `d = floor(v . n / ONE)`.
proof fn lemma_reflect_parts(v: V3, n: V3, u: int)
    requires
        ONE <= u <= 50 * ONE,
        v3_within(v, 10 * u),
        v3_within(n, ONE + 8),
    ensures
        v3_dot(v, n) == v3_dot_wide(v, n) / (ONE as int),
        -31 * u <= v3_dot(v, n) <= 31 * u,
        reflect_spec(v, n) == (V3 {
            x: v.x - (2 * n.x * v3_dot(v, n)) / (ONE as int),
            y: v.y - (2 * n.y * v3_dot(v, n)) / (ONE as int),
            z: v.z - (2 * n.z * v3_dot(v, n)) / (ONE as int),
        }),
{
    let one = ONE as int;
    let big = v3_dot_wide(v, n);
    lemma_product_within(v.x, n.x, 10 * u, one + 8);
    lemma_product_within(v.y, n.y, 10 * u, one + 8);
    lemma_product_within(v.z, n.z, 10 * u, one + 8);
    assert(3 * ((10 * u) * (one + 8)) < (31 * u) * one && (-31 * u) * one == -((31 * u) * one))
        by (nonlinear_arith)
        requires
            one == 0x4_0000_0000_0000,
            u > 0,
    ;
    lemma_round_down(big, -31 * u, 31 * u);
    let d = v3_dot(v, n);
    assert(d == big / one);
    lemma_reflect_part(v.x, n.x, d, u);
    lemma_reflect_part(v.y, n.y, d, u);
    lemma_reflect_part(v.z, n.z, d, u);
}

/// One component of a reflection without saturation.
proof fn lemma_reflect_part(a: int, m: int, d: int, u: int)
    requires
        ONE <= u <= 50 * ONE,
        -10 * u <= a <= 10 * u,
        -(ONE + 8) <= m <= ONE + 8,
        -31 * u <= d <= 31 * u,
    ensures
        fx_sub(a, fx_mul(fx_mul(m, 2 * ONE), d)) == a - (2 * m * d) / (ONE as int),
        -63 * u <= (2 * m * d) / (ONE as int) <= 63 * u,
{
    let one = ONE as int;
    assert(m * (2 * ONE) == one * (2 * m)) by (nonlinear_arith)
        requires
            ONE == one,
    ;
    lemma_div_multiples_vanish(2 * m, one);
    assert(fx_mul(m, 2 * ONE) == 2 * m);
    let e = 2 * m * d;
    lemma_product_within(2 * m, d, 2 * (one + 8), 31 * u);
    assert((2 * (one + 8)) * (31 * u) < (63 * u) * one && (-63 * u) * one == -((63 * u) * one))
        by (nonlinear_arith)
        requires
            one == 0x4_0000_0000_0000,
            u > 0,
    ;
    lemma_round_down(e, -63 * u, 63 * u);
}

/// What rounding loses in one component of a reflection: with
/// `p = floor(2 * m * d / ONE)`, the product `ONE * p * m` is
/// `2 * m * m * d` less a remainder times `m`.
proof fn lemma_reflect_remainder(m: int, d: int) -> (g: int)
    requires
        -(ONE + 8) <= m <= ONE + 8,
    ensures
        0 <= g < ONE,
        2 * m * d == ONE * ((2 * m * d) / (ONE as int)) + g,
        ONE * (((2 * m * d) / (ONE as int)) * m) == 2 * (m * m) * d - g * m,
        -(ONE * (ONE + 8)) <= g * m <= ONE * (ONE + 8),
{
    let one = ONE as int;
    let e = 2 * m * d;
    let p = e / one;
    let g = e % one;
    lemma_fundamental_div_mod(e, one);
    lemma_mod_bound(e, one);
    assert(one * (p * m) == 2 * (m * m) * d - g * m) by (nonlinear_arith)
        requires
            e == one * p + g,
            e == 2 * m * d,
    ;
    lemma_product_within(g, m, one, one + 8);
    g
}

/// Reflection is an involution up to rounding, for every normal of nearly
/// unit length: where no component of `v` is beyond `k` units, no component
/// of the mirror image of the mirror image is further than `300 * k` steps
/// from where it started.
pub proof fn lemma_reflect_twice_is_near(v: V3, n: V3, k: int)
    requires
        1 <= k <= 50,
        v3_within(v, k * ONE),
        is_near_unit(n),
    ensures
        v3_within(v3_sub(reflect_spec(reflect_spec(v, n), n), v), 300 * k),
{
    let one = ONE as int;
    let u = k * one;
    assert(one <= u <= 50 * one) by (nonlinear_arith)
        requires
            u == k * one,
            1 <= k <= 50,
            one > 0,
    ;
    lemma_near_unit_within(n);
    lemma_reflect_parts(v, n, u);
    let big = v3_dot_wide(v, n);
    let d = v3_dot(v, n);
    let f = big % one;
    lemma_fundamental_div_mod(big, one);
    lemma_mod_bound(big, one);
    // The dot product is within four times the bound.
    lemma_product_within(v.x, n.x, u, one + 8);
    lemma_product_within(v.y, n.y, u, one + 8);
    lemma_product_within(v.z, n.z, u, one + 8);
    assert(3 * (u * (one + 8)) < (4 * u) * one && (-4 * u) * one == -((4 * u) * one))
        by (nonlinear_arith)
        requires
            one == 0x4_0000_0000_0000,
            u > 0,
    ;
    lemma_round_down(big, -4 * u, 4 * u);
    assert(-4 * u <= d < 4 * u);

    let w = reflect_spec(v, n);
    let px = (2 * n.x * d) / one;
    let py = (2 * n.y * d) / one;
    let pz = (2 * n.z * d) / one;
    assert(w == V3 { x: v.x - px, y: v.y - py, z: v.z - pz });
    lemma_reflect_part(v.x, n.x, d, u);
    lemma_reflect_part(v.y, n.y, d, u);
    lemma_reflect_part(v.z, n.z, d, u);
    assert(v3_within(w, 10 * u)) by {
        lemma_small_reflection(n.x, d, u);
        lemma_small_reflection(n.y, d, u);
        lemma_small_reflection(n.z, d, u);
    }
    let gx = lemma_reflect_remainder(n.x, d);
    let gy = lemma_reflect_remainder(n.y, d);
    let gz = lemma_reflect_remainder(n.z, d);

    // The second dot product is the negative of the first, up to rounding.
    let big2 = v3_dot_wide(w, n);
    let nn = v3_dot_wide(n, n);
    let delta = nn - one * one;
    let rest = gx * n.x + gy * n.y + gz * n.z;
    assert(big2 == big - (px * n.x + py * n.y + pz * n.z)) by (nonlinear_arith)
        requires
            big2 == (v.x - px) * n.x + (v.y - py) * n.y + (v.z - pz) * n.z,
            big == v.x * n.x + v.y * n.y + v.z * n.z,
    ;
    assert(one * (px * n.x + py * n.y + pz * n.z) == 2 * nn * d - rest) by (nonlinear_arith)
        requires
            one * (px * n.x) == 2 * (n.x * n.x) * d - gx * n.x,
            one * (py * n.y) == 2 * (n.y * n.y) * d - gy * n.y,
            one * (pz * n.z) == 2 * (n.z * n.z) * d - gz * n.z,
            nn == n.x * n.x + n.y * n.y + n.z * n.z,
            rest == gx * n.x + gy * n.y + gz * n.z,
    ;
    let dd = d * delta;
    assert(one * big2 == -((one * one) * d) + one * f - 2 * dd + rest) by (nonlinear_arith)
        requires
            big2 == big - (px * n.x + py * n.y + pz * n.z),
            one * (px * n.x + py * n.y + pz * n.z) == 2 * nn * d - rest,
            big == one * d + f,
            nn == one * one + delta,
            dd == d * delta,
    ;
    lemma_product_within(d, delta, 4 * u, 16 * one);
    let uo = u * one;
    assert((4 * u) * (16 * one) == 64 * uo) by (nonlinear_arith)
        requires
            uo == u * one,
    ;
    let shift = big2 + one * d;
    assert(one * shift == one * f - 2 * dd + rest) by (nonlinear_arith)
        requires
            one * big2 == -((one * one) * d) + one * f - 2 * dd + rest,
            shift == big2 + one * d,
    ;
    assert(one * (one + 8) < 2 * uo && one * one <= uo) by (nonlinear_arith)
        requires
            one == 0x4_0000_0000_0000,
            uo == u * one,
            one <= u,
    ;
    assert(0 <= one * f < one * one) by (nonlinear_arith)
        requires
            0 <= f < one,
            one > 0,
    ;
    assert(-(135 * uo) < one * shift < 135 * uo);
    assert(-135 * u < shift < 135 * u) by (nonlinear_arith)
        requires
            -(135 * uo) < one * shift < 135 * uo,
            uo == u * one,
            one > 0,
    ;
    lemma_reflect_parts(w, n, u);
    let d2 = v3_dot(w, n);
    assert(d2 == big2 / one);
    let eps = d2 + d;
    assert(-136 * k <= eps <= 136 * k) by {
        lemma_hoist_over_denominator(big2, d, one as nat);
        assert(d * one == one * d) by (nonlinear_arith);
        assert((-136 * k) * ONE <= shift < (136 * k) * ONE) by (nonlinear_arith)
            requires
                -135 * u < shift < 135 * u,
                u == k * one,
                ONE == one,
                k >= 1,
                one > 0,
        ;
        lemma_round_down(shift, -136 * k, 136 * k);
    }

    // So the second reflection undoes the first, up to rounding.
    lemma_undo_part(n.x, d, d2, k);
    lemma_undo_part(n.y, d, d2, k);
    lemma_undo_part(n.z, d, d2, k);
}

/// One component of a reflection of a vector within the bound `u`.
proof fn lemma_small_reflection(m: int, d: int, u: int)
    requires
        ONE <= u,
        -(ONE + 8) <= m <= ONE + 8,
        -4 * u <= d <= 4 * u,
    ensures
        -9 * u <= (2 * m * d) / (ONE as int) <= 9 * u,
{
    let one = ONE as int;
    lemma_product_within(2 * m, d, 2 * (one + 8), 4 * u);
    assert((2 * (one + 8)) * (4 * u) < (9 * u) * one && (-9 * u) * one == -((9 * u) * one))
        by (nonlinear_arith)
        requires
            one == 0x4_0000_0000_0000,
            u > 0,
    ;
    lemma_round_down(2 * m * d, -9 * u, 9 * u);
}

/// The parts that two successive reflections take from one component
/// cancel up to rounding, where the two dot products are nearly opposite.
proof fn lemma_undo_part(m: int, d: int, d2: int, k: int)
    requires
        1 <= k,
        -(ONE + 8) <= m <= ONE + 8,
        -136 * k <= d + d2 <= 136 * k,
    ensures
        -300 * k <= (2 * m * d) / (ONE as int) + (2 * m * d2) / (ONE as int) <= 300 * k,
{
    let one = ONE as int;
    let e = 2 * m * d;
    let e2 = 2 * m * d2;
    lemma_fundamental_div_mod(e, one);
    lemma_mod_bound(e, one);
    lemma_fundamental_div_mod(e2, one);
    lemma_mod_bound(e2, one);
    let sum = e + e2;
    assert(sum == (2 * m) * (d + d2)) by (nonlinear_arith)
        requires
            sum == 2 * m * d + 2 * m * d2,
    ;
    lemma_product_within(2 * m, d + d2, 2 * (one + 8), 136 * k);
    assert((2 * (one + 8)) * (136 * k) < (273 * k) * one) by (nonlinear_arith)
        requires
            one == 0x4_0000_0000_0000,
            k >= 1,
    ;
    let p = e / one;
    let p2 = e2 / one;
    assert(-300 * k <= p + p2 <= 300 * k) by (nonlinear_arith)
        requires
            e == one * p + e % one,
            e2 == one * p2 + e2 % one,
            0 <= e % one < one,
            0 <= e2 % one < one,
            -((273 * k) * one) < e + e2 < (273 * k) * one,
            k >= 1,
            one > 0,
    ;
}

} // verus!
