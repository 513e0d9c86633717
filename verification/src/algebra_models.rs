//! Three- and four-component vectors of fixed-point scalars.
//!
//! The mathematical model of a vector is a record of raw values; every
//! operation is specified on that model. Products are summed exactly and
//! rounded once.
use crate::scalar::clamp;
use crate::scalar::fx_add;
use crate::scalar::fx_div;
use crate::scalar::fx_int;
use crate::scalar::fx_mul;
use crate::scalar::fx_neg;
use crate::scalar::fx_sub;
use crate::scalar::fx_abs;
use crate::scalar::in_range;
use crate::scalar::is_nan;
use crate::scalar::isqrt;
use crate::scalar::lemma_isqrt;
use crate::scalar::lemma_isqrt_bounds;
use crate::scalar::lemma_product_bound;
use crate::scalar::floor_div;
use crate::scalar::wide_sqrt;
use crate::scalar::Scalar;
use crate::scalar::LIMIT;
use crate::scalar::NAN;
use crate::scalar::ONE;
use vstd::arithmetic::div_mod::lemma_fundamental_div_mod;
use vstd::arithmetic::div_mod::lemma_mod_bound;
use vstd::prelude::*;

verus! {

/// Model of a three-component vector: its raw components.
pub struct V3 {
    pub x: int,
    pub y: int,
    pub z: int,
}

/// Model of a four-component vector: its raw components.
pub struct V4 {
    pub x: int,
    pub y: int,
    pub z: int,
    pub w: int,
}

/// Whether every component is the raw value of a number.
pub open spec fn v3_valid(v: V3) -> bool {
    in_range(v.x) && in_range(v.y) && in_range(v.z)
}

/// Whether some component is no number.
pub open spec fn v3_has_nan(v: V3) -> bool {
    is_nan(v.x) || is_nan(v.y) || is_nan(v.z)
}

/// The vector whose components are no numbers.
pub open spec fn v3_nan() -> V3 {
    V3 { x: NAN as int, y: NAN as int, z: NAN as int }
}

/// The zero vector.
pub open spec fn v3_zero() -> V3 {
    V3 { x: 0, y: 0, z: 0 }
}

/// The vector whose components are all one.
pub open spec fn v3_ones() -> V3 {
    V3 { x: ONE as int, y: ONE as int, z: ONE as int }
}

/// Component-wise sum.
pub open spec fn v3_add(a: V3, b: V3) -> V3 {
    V3 { x: fx_add(a.x, b.x), y: fx_add(a.y, b.y), z: fx_add(a.z, b.z) }
}

/// Component-wise difference.
pub open spec fn v3_sub(a: V3, b: V3) -> V3 {
    V3 { x: fx_sub(a.x, b.x), y: fx_sub(a.y, b.y), z: fx_sub(a.z, b.z) }
}

/// Every component multiplied by the scalar `k`.
pub open spec fn v3_scale(a: V3, k: int) -> V3 {
    V3 { x: fx_mul(a.x, k), y: fx_mul(a.y, k), z: fx_mul(a.z, k) }
}

/// Component-wise negation.
pub open spec fn v3_neg(a: V3) -> V3 {
    V3 { x: fx_neg(a.x), y: fx_neg(a.y), z: fx_neg(a.z) }
}

/// Exact sum of the component products, at double scale.
pub open spec fn v3_dot_wide(a: V3, b: V3) -> int {
    a.x * b.x + a.y * b.y + a.z * b.z
}

/// Dot product: the exact sum of products, rounded down once; no number
/// where a component is none.
pub open spec fn v3_dot(a: V3, b: V3) -> int {
    if v3_has_nan(a) || v3_has_nan(b) {
        NAN as int
    } else {
        clamp(v3_dot_wide(a, b) / (ONE as int))
    }
}

/// One component of a cross product: `p * q - r * s`, rounded down once.
pub open spec fn cross_part(p: int, q: int, r: int, s: int) -> int {
    if is_nan(p) || is_nan(q) || is_nan(r) || is_nan(s) {
        NAN as int
    } else {
        clamp((p * q - r * s) / (ONE as int))
    }
}

/// Cross product by the right-hand rule; each component is an exact
/// difference of products, rounded down once.
pub open spec fn v3_cross(a: V3, b: V3) -> V3 {
    V3 {
        x: cross_part(a.y, b.z, a.z, b.y),
        y: cross_part(a.z, b.x, a.x, b.z),
        z: cross_part(a.x, b.y, a.y, b.x),
    }
}

/// Euclidean length: the square root of the exact sum of squares; no number
/// where a component is none.
pub open spec fn v3_norm(a: V3) -> int {
    if v3_has_nan(a) {
        NAN as int
    } else {
        wide_sqrt(v3_dot_wide(a, a))
    }
}

/// Every component divided by the length. The zero vector has no direction:
/// its components become no numbers.
pub open spec fn v3_normalized(a: V3) -> V3 {
    let n = v3_norm(a);
    V3 { x: fx_div(a.x, n), y: fx_div(a.y, n), z: fx_div(a.z, n) }
}

/// Whether the raw value `q` is less than one step away from `a / sqrt(s)`:
/// it has the sign of `a`, and `|q| - 1 < |a| * ONE / sqrt(s) < |q| + 1`,
/// stated on the squares. One step is `2^-50`, less than `10^-15`.
pub open spec fn within_step(a: int, q: int, s: int) -> bool {
    let m = fx_abs(a);
    let p = fx_abs(q);
    &&& in_range(q)
    &&& q == 0 || (q > 0) == (a > 0)
    &&& (m * m) * (ONE * ONE) < ((p + 1) * (p + 1)) * s
    &&& p >= 1 ==> ((p - 1) * (p - 1)) * s < (m * m) * (ONE * ONE)
}

/// Whether `n` has length exactly one: its squares sum to one at double scale.
pub open spec fn is_unit(n: V3) -> bool {
    v3_dot_wide(n, n) == ONE * ONE
}

/// Whether the length of `n` is one up to rounding: its squares sum to one
/// at double scale, give or take sixteen steps of the single scale.
/// Normalized vectors are such.
pub open spec fn is_near_unit(n: V3) -> bool {
    -16 * ONE <= v3_dot_wide(n, n) - ONE * ONE <= 16 * ONE
}

/// `2^k`.
pub open spec fn two_to(k: nat) -> int
    decreases k,
{
    if k == 0 {
        1
    } else {
        2 * two_to((k - 1) as nat)
    }
}

/// A vector of three scalars.
#[derive(Clone, Copy, Debug, PartialEq, Eq, Structural)]
pub struct Vec3 {
    pub x: Scalar,
    pub y: Scalar,
    pub z: Scalar,
}

/// A vector of four scalars.
#[derive(Clone, Copy, Debug, PartialEq, Eq, Structural)]
pub struct Vec4 {
    pub x: Scalar,
    pub y: Scalar,
    pub z: Scalar,
    pub w: Scalar,
}

impl View for Vec3 {
    type V = V3;

    open spec fn view(&self) -> V3 {
        V3 { x: self.x@, y: self.y@, z: self.z@ }
    }
}

impl View for Vec4 {
    type V = V4;

    open spec fn view(&self) -> V4 {
        V4 { x: self.x@, y: self.y@, z: self.z@, w: self.w@ }
    }
}

impl Default for Vec3 {
    /// The zero vector.
    fn default() -> (v: Vec3)
        ensures
            v@ == v3_zero(),
    {
        Vec3 { x: Scalar::zero(), y: Scalar::zero(), z: Scalar::zero() }
    }
}

/// Exact sum of the component products of two vectors of numbers; nothing
/// where a component is no number.
pub fn dot_wide(a: &Vec3, b: &Vec3) -> (w: Option<i128>)
    ensures
        w is None <==> v3_has_nan(a@) || v3_has_nan(b@),
        w matches Some(x) ==> x == v3_dot_wide(a@, b@)
            && -0x3000_0000_0000_0000_0000_0000_0000_0000 <= x
            <= 0x3000_0000_0000_0000_0000_0000_0000_0000,
{
    if a.has_nan() || b.has_nan() {
        return None;
    }
    let ax: i128 = a.x.wide();
    let ay: i128 = a.y.wide();
    let az: i128 = a.z.wide();
    let bx: i128 = b.x.wide();
    let by: i128 = b.y.wide();
    let bz: i128 = b.z.wide();
    proof {
        lemma_product_bound(ax as int, bx as int);
        lemma_product_bound(ay as int, by as int);
        lemma_product_bound(az as int, bz as int);
    }
    Some(ax * bx + ay * by + az * bz)
}

/// One component of the cross product: `(p * q - r * s)`, rounded down.
fn cross_term(p: Scalar, q: Scalar, r: Scalar, s: Scalar) -> (t: Scalar)
    ensures
        t@ == cross_part(p@, q@, r@, s@),
{
    if p.is_nan() || q.is_nan() || r.is_nan() || s.is_nan() {
        return Scalar::nan();
    }
    let pw: i128 = p.wide();
    let qw: i128 = q.wide();
    let rw: i128 = r.wide();
    let sw: i128 = s.wide();
    proof {
        lemma_product_bound(pw as int, qw as int);
        lemma_product_bound(rw as int, sw as int);
    }
    Scalar::saturate(floor_div(pw * qw - rw * sw, 0x4_0000_0000_0000))
}

/// Cross product of `lhs` and `rhs`.
pub fn cross_product(lhs: &Vec3, rhs: &Vec3) -> (v: Vec3)
    ensures
        v@ == v3_cross(lhs@, rhs@),
{
    Vec3 {
        x: cross_term(lhs.y, rhs.z, lhs.z, rhs.y),
        y: cross_term(lhs.z, rhs.x, lhs.x, rhs.z),
        z: cross_term(lhs.x, rhs.y, lhs.y, rhs.x),
    }
}

impl Vec3 {
    /// The vector with the components `x`, `y` and `z`.
    pub fn new(x: Scalar, y: Scalar, z: Scalar) -> (v: Vec3)
        ensures
            v.x == x,
            v.y == y,
            v.z == z,
    {
        Vec3 { x, y, z }
    }

    /// The vector of the integers `x`, `y` and `z`.
    pub fn from_ints(x: i32, y: i32, z: i32) -> (v: Vec3)
        ensures
            v@ == (V3 {
                x: fx_int(x as int),
                y: fx_int(y as int),
                z: fx_int(z as int),
            }),
    {
        Vec3 { x: Scalar::from_int(x), y: Scalar::from_int(y), z: Scalar::from_int(z) }
    }

    /// The vector whose components are all one.
    pub fn ones() -> (v: Vec3)
        ensures
            v@ == v3_ones(),
    {
        Vec3 { x: Scalar::one(), y: Scalar::one(), z: Scalar::one() }
    }

    /// Component-wise sum.
    pub fn add(self, rhs: Vec3) -> (v: Vec3)
        ensures
            v@ == v3_add(self@, rhs@),
    {
        Vec3 { x: self.x.add(rhs.x), y: self.y.add(rhs.y), z: self.z.add(rhs.z) }
    }

    /// Component-wise difference.
    pub fn sub(self, rhs: Vec3) -> (v: Vec3)
        ensures
            v@ == v3_sub(self@, rhs@),
    {
        Vec3 { x: self.x.sub(rhs.x), y: self.y.sub(rhs.y), z: self.z.sub(rhs.z) }
    }

    /// Whether some component is no number.
    pub fn has_nan(&self) -> (b: bool)
        ensures
            b == v3_has_nan(self@),
    {
        self.x.is_nan() || self.y.is_nan() || self.z.is_nan()
    }

    /// Component-wise negation.
    pub fn neg(self) -> (v: Vec3)
        ensures
            v@ == v3_neg(self@),
    {
        Vec3 { x: self.x.neg(), y: self.y.neg(), z: self.z.neg() }
    }

    /// Dot product with `rhs`.
    pub fn dot(self, rhs: Vec3) -> (d: Scalar)
        ensures
            d@ == v3_dot(self@, rhs@),
    {
        match dot_wide(&self, &rhs) {
            Some(w) => Scalar::saturate(floor_div(w, 0x4_0000_0000_0000)),
            None => Scalar::nan(),
        }
    }

    /// This vector multiplied by the scalar `k`.
    pub fn scale(self, k: Scalar) -> (v: Vec3)
        ensures
            v@ == v3_scale(self@, k@),
    {
        Vec3 { x: self.x.mul(k), y: self.y.mul(k), z: self.z.mul(k) }
    }

    /// Euclidean length.
    pub fn norm(&self) -> (n: Scalar)
        ensures
            n@ == v3_norm(self@),
    {
        match dot_wide(self, self) {
            Some(w) => Scalar::sqrt_wide(w),
            None => Scalar::nan(),
        }
    }

    /// Scales this vector to unit length in place.
    pub fn normalize(&mut self)
        ensures
            final(self)@ == v3_normalized(old(self)@),
    {
        let n = self.norm();
        self.x = self.x.div(n);
        self.y = self.y.div(n);
        self.z = self.z.div(n);
    }

    /// This vector scaled to unit length.
    pub fn normalized(&self) -> (v: Vec3)
        ensures
            v@ == v3_normalized(self@),
    {
        let n = self.norm();
        Vec3 { x: self.x.div(n), y: self.y.div(n), z: self.z.div(n) }
    }
}

/// A square leaves the remainder zero or one modulo four, by its parity.
proof fn lemma_square_mod_four(a: int)
    ensures
        a % 2 == 0 ==> (a * a) % 4 == 0 && a * a == 4 * ((a / 2) * (a / 2)),
        a % 2 == 1 ==> (a * a) % 4 == 1,
{
    let q = a / 2;
    if a % 2 == 0 {
        assert(a * a == 4 * (q * q)) by (nonlinear_arith)
            requires
                a == 2 * q,
        ;
    } else {
        assert(a * a == 4 * (q * q + q) + 1) by (nonlinear_arith)
            requires
                a == 2 * q + 1,
        ;
    }
}

/// Three squares that sum to the square of a power of two: one of them is
/// that square and the other two are zero.
proof fn lemma_three_squares(a: int, b: int, c: int, k: nat)
    requires
        a * a + b * b + c * c == two_to(k) * two_to(k),
    ensures
        (a * a == two_to(k) * two_to(k) && b == 0 && c == 0) || (a == 0 && b * b == two_to(k)
            * two_to(k) && c == 0) || (a == 0 && b == 0 && c * c == two_to(k) * two_to(k)),
    decreases k,
{
    let m = two_to(k);
    assert(a * a >= 0 && (a != 0 ==> a * a >= 1)) by (nonlinear_arith);
    assert(b * b >= 0 && (b != 0 ==> b * b >= 1)) by (nonlinear_arith);
    assert(c * c >= 0 && (c != 0 ==> c * c >= 1)) by (nonlinear_arith);
    if k == 0 {
        assert(m * m == 1);
    } else {
        let h = two_to((k - 1) as nat);
        assert(m * m == 4 * (h * h)) by (nonlinear_arith)
            requires
                m == 2 * h,
        ;
        lemma_square_mod_four(a);
        lemma_square_mod_four(b);
        lemma_square_mod_four(c);
        assert(a % 2 == 0 && b % 2 == 0 && c % 2 == 0);
        lemma_three_squares(a / 2, b / 2, c / 2, (k - 1) as nat);
    }
}

/// Only one and minus one square to one.
proof fn lemma_square_root_of_one(a: int)
    ensures
        a * a == ONE * ONE ==> a == ONE || a == -ONE,
{
    assert(a * a == ONE * ONE ==> a == ONE || a == -ONE) by (nonlinear_arith)
        requires
            ONE == 0x4_0000_0000_0000,
    ;
}

/// A vector of length exactly one lies along an axis: on a binary grid no
/// other point is at that distance from the origin.
pub proof fn lemma_unit_is_axis(n: V3)
    requires
        is_unit(n),
    ensures
        (n.x == ONE || n.x == -ONE) && n.y == 0 && n.z == 0 || n.x == 0 && (n.y == ONE || n.y
            == -ONE) && n.z == 0 || n.x == 0 && n.y == 0 && (n.z == ONE || n.z == -ONE),
{
    assert(two_to(50) == ONE) by {
        reveal_with_fuel(two_to, 51);
    }
    lemma_three_squares(n.x, n.y, n.z, 50);
    lemma_square_root_of_one(n.x);
    lemma_square_root_of_one(n.y);
    lemma_square_root_of_one(n.z);
}

/// One component of a normalized vector, for a component `a` no longer
/// than the length `n`: the quotient lies within `[-1, 1]`, and its square
/// times `n^2` differs from `a^2 * ONE^2` by at most `2 * ONE * n^2 + n^2`.
proof fn lemma_normalized_component(a: int, n: int)
    requires
        0 < n <= LIMIT,
        -n <= a <= n,
    ensures
        -ONE <= fx_div(a, n) <= ONE,
        fx_abs(fx_div(a, n)) == (fx_abs(a) * ONE) / n,
        (n * n) * (fx_div(a, n) * fx_div(a, n)) >= (a * a) * (ONE * ONE) - (2 * ONE) * (n * n),
        (n * n) * (fx_div(a, n) * fx_div(a, n)) <= (a * a) * (ONE * ONE) + (2 * ONE) * (n * n) + n
            * n,
{
    let m = fx_abs(a);
    lemma_quotient_square(m, n);
    let q = (m * ONE) / n;
    let d = fx_div(a, n);
    assert(d == q || d == -q);
    assert(d * d == q * q) by (nonlinear_arith)
        requires
            d == q || d == -q,
    ;
    assert(a * a == m * m) by (nonlinear_arith)
        requires
            m == a || m == -a,
    ;
}

/// The quotient `q = floor(a * ONE / n)` of a number by one not smaller.
proof fn lemma_quotient_square(a: int, n: int)
    requires
        0 < n,
        0 <= a <= n,
    ensures
        0 <= (a * ONE) / n <= ONE,
        (n * n) * (((a * ONE) / n) * ((a * ONE) / n)) >= (a * a) * (ONE * ONE) - (2 * ONE) * (n
            * n),
        (n * n) * (((a * ONE) / n) * ((a * ONE) / n)) <= (a * a) * (ONE * ONE) + (2 * ONE) * (n
            * n) + n * n,
{
    let one = ONE as int;
    let p = a * one;
    let q = p / n;
    let r = p % n;
    lemma_fundamental_div_mod(p, n);
    lemma_mod_bound(p, n);
    assert(p == n * q + r);
    assert(0 <= p <= one * n) by (nonlinear_arith)
        requires
            p == a * one,
            0 <= a <= n,
            0 < one,
    ;
    assert(0 <= q <= one) by (nonlinear_arith)
        requires
            p == n * q + r,
            0 <= r < n,
            0 <= p <= one * n,
            0 < n,
    ;
    let nn = n * n;
    let nq2 = nn * (q * q);
    let pr = p * r;
    let rr = r * r;
    let pp = (a * a) * (one * one);
    let m = n * q;
    assert(nq2 == m * m) by (nonlinear_arith)
        requires
            m == n * q,
            nq2 == (n * n) * (q * q),
    ;
    assert(m * m == p * p - 2 * pr + rr) by (nonlinear_arith)
        requires
            m == p - r,
            pr == p * r,
            rr == r * r,
    ;
    assert(p * p == pp) by (nonlinear_arith)
        requires
            p == a * one,
            pp == (a * a) * (one * one),
    ;
    let bound = one * nn;
    assert(-bound <= pr <= bound) by (nonlinear_arith)
        requires
            0 <= p <= one * n,
            0 <= r < n,
            0 < one,
            pr == p * r,
            bound == one * (n * n),
    ;
    assert(0 <= rr <= nn) by (nonlinear_arith)
        requires
            0 <= r < n,
            rr == r * r,
            nn == n * n,
    ;
    assert((2 * ONE) * (n * n) == 2 * bound) by (nonlinear_arith)
        requires
            bound == one * (n * n),
            ONE == one,
    ;
}

/// A component is no longer than the vector.
proof fn lemma_component_within_norm(a: int, b: int, c: int, n: int)
    requires
        0 <= n,
        a * a + b * b + c * c < (n + 1) * (n + 1),
    ensures
        -n <= a <= n,
{
    assert(b * b >= 0 && c * c >= 0) by (nonlinear_arith);
    if a > n {
        assert(a * a >= (n + 1) * (n + 1)) by (nonlinear_arith)
            requires
                a >= n + 1,
                n >= 0,
        ;
    }
    if a < -n {
        assert(a * a >= (n + 1) * (n + 1)) by (nonlinear_arith)
            requires
                a <= -(n + 1),
                n >= 0,
        ;
    }
}

/// The quotient `p = floor(m * ONE / n)` of a component by the rounded
/// length `n` of a vector at least one long, against the exact length.
proof fn lemma_quotient_within_step(m: int, n: int, s: int)
    requires
        0 <= m <= n,
        ONE <= n,
        n * n <= s < (n + 1) * (n + 1),
    ensures
        (m * m) * (ONE * ONE) < (((m * ONE) / n + 1) * ((m * ONE) / n + 1)) * s,
        (m * ONE) / n >= 1 ==> (((m * ONE) / n - 1) * ((m * ONE) / n - 1)) * s < (m * m) * (ONE
            * ONE),
{
    let one = ONE as int;
    let x = m * one;
    let p = x / n;
    lemma_fundamental_div_mod(x, n);
    lemma_mod_bound(x, n);
    let r = x % n;
    assert(x == n * p + r);
    assert(0 <= x <= one * n) by (nonlinear_arith)
        requires
            x == m * one,
            0 <= m <= n,
            0 < one,
    ;
    assert(0 <= p <= one) by (nonlinear_arith)
        requires
            x == n * p + r,
            0 <= r < n,
            0 <= x <= one * n,
            0 < n,
    ;
    let xx = (m * m) * (one * one);
    assert(xx == x * x) by (nonlinear_arith)
        requires
            x == m * one,
            xx == (m * m) * (one * one),
    ;
    // Above: x < (p + 1) * n, and n^2 <= s.
    let hi = (p + 1) * n;
    assert(x < hi) by (nonlinear_arith)
        requires
            x == n * p + r,
            r < n,
            hi == (p + 1) * n,
    ;
    assert(x * x < hi * hi) by (nonlinear_arith)
        requires
            0 <= x < hi,
    ;
    assert(hi * hi == ((p + 1) * (p + 1)) * (n * n)) by (nonlinear_arith)
        requires
            hi == (p + 1) * n,
    ;
    assert(((p + 1) * (p + 1)) * (n * n) <= ((p + 1) * (p + 1)) * s) by (nonlinear_arith)
        requires
            n * n <= s,
            p >= 0,
    ;
    // Below: (p - 1) * (n + 1) <= x, and s < (n + 1)^2.
    if p >= 1 {
        let lo = (p - 1) * (n + 1);
        assert(0 <= lo <= x) by (nonlinear_arith)
            requires
                lo == (p - 1) * (n + 1),
                x == n * p + r,
                0 <= r,
                1 <= p <= one,
                one <= n,
        ;
        assert(lo * lo <= x * x) by (nonlinear_arith)
            requires
                0 <= lo <= x,
        ;
        assert(lo * lo == ((p - 1) * (p - 1)) * ((n + 1) * (n + 1))) by (nonlinear_arith)
            requires
                lo == (p - 1) * (n + 1),
        ;
        if p == 1 {
            assert(((p - 1) * (p - 1)) * s == 0) by (nonlinear_arith)
                requires
                    p == 1,
            ;
            assert(x >= n) by (nonlinear_arith)
                requires
                    x == n * p + r,
                    p == 1,
                    r >= 0,
            ;
            assert(x * x > 0) by (nonlinear_arith)
                requires
                    x >= n,
                    n >= 1,
            ;
        } else {
            assert(((p - 1) * (p - 1)) * s < ((p - 1) * (p - 1)) * ((n + 1) * (n + 1)))
                by (nonlinear_arith)
                requires
                    s < (n + 1) * (n + 1),
                    p >= 2,
            ;
        }
    }
}

/// Normalizing is exact up to the last step: each component of the
/// normalized vector is less than one step away from the component divided
/// by the exact length, for a vector at least one long whose length is a
/// raw value.
pub proof fn lemma_normalized_within_step(v: V3)
    requires
        ONE <= isqrt(v3_dot_wide(v, v)) <= LIMIT,
    ensures
        within_step(v.x, v3_normalized(v).x, v3_dot_wide(v, v)),
        within_step(v.y, v3_normalized(v).y, v3_dot_wide(v, v)),
        within_step(v.z, v3_normalized(v).z, v3_dot_wide(v, v)),
{
    let s = v3_dot_wide(v, v);
    assert(0 <= s) by (nonlinear_arith)
        requires
            s == v.x * v.x + v.y * v.y + v.z * v.z,
    ;
    lemma_isqrt(s);
    let n = isqrt(s);
    lemma_component_within_norm(v.x, v.y, v.z, n);
    lemma_component_within_norm(v.y, v.z, v.x, n);
    lemma_component_within_norm(v.z, v.x, v.y, n);
    assert(v3_valid(v));
    assert(v3_norm(v) == n);
    lemma_normalized_component(v.x, n);
    lemma_normalized_component(v.y, n);
    lemma_normalized_component(v.z, n);
    lemma_quotient_within_step(fx_abs(v.x), n, s);
    lemma_quotient_within_step(fx_abs(v.y), n, s);
    lemma_quotient_within_step(fx_abs(v.z), n, s);
    lemma_same_square(v.x);
    lemma_same_square(v.y);
    lemma_same_square(v.z);
}

/// A number and its magnitude have the same square.
proof fn lemma_same_square(a: int)
    requires
        in_range(a),
    ensures
        fx_abs(a) * fx_abs(a) == a * a,
{
    assert(fx_abs(a) * fx_abs(a) == a * a) by (nonlinear_arith)
        requires
            fx_abs(a) == a || fx_abs(a) == -a,
    ;
}

/// Normalizing gives unit length up to rounding: a vector at least half a
/// unit long, whose length is a raw value, normalizes to a vector whose
/// length is within six steps of one.
pub proof fn lemma_normalized_is_unit(v: V3)
    requires
        ONE <= 2 * isqrt(v3_dot_wide(v, v)),
        isqrt(v3_dot_wide(v, v)) <= LIMIT,
    ensures
        ONE - 4 <= v3_norm(v3_normalized(v)) <= ONE + 6,
        is_near_unit(v3_normalized(v)),
{
    let one = ONE as int;
    let s = v3_dot_wide(v, v);
    assert(0 <= s) by (nonlinear_arith)
        requires
            s == v.x * v.x + v.y * v.y + v.z * v.z,
    ;
    lemma_isqrt(s);
    let n = isqrt(s);
    let nn = n * n;
    assert(nn >= 1) by (nonlinear_arith)
        requires
            n >= 1,
            nn == n * n,
    ;
    lemma_component_within_norm(v.x, v.y, v.z, n);
    lemma_component_within_norm(v.y, v.z, v.x, n);
    lemma_component_within_norm(v.z, v.x, v.y, n);
    assert(v3_valid(v));
    assert(v3_norm(v) == n);
    lemma_normalized_component(v.x, n);
    lemma_normalized_component(v.y, n);
    lemma_normalized_component(v.z, n);
    let u = v3_normalized(v);
    let t = v3_dot_wide(u, u);
    let oo = one * one;
    let tx = nn * (u.x * u.x);
    let ty = nn * (u.y * u.y);
    let tz = nn * (u.z * u.z);
    let nt = nn * t;
    assert(nt == tx + ty + tz) by (nonlinear_arith)
        requires
            t == u.x * u.x + u.y * u.y + u.z * u.z,
            nt == nn * t,
            tx == nn * (u.x * u.x),
            ty == nn * (u.y * u.y),
            tz == nn * (u.z * u.z),
    ;
    let so = s * oo;
    assert(so == (v.x * v.x) * oo + (v.y * v.y) * oo + (v.z * v.z) * oo) by (nonlinear_arith)
        requires
            s == v.x * v.x + v.y * v.y + v.z * v.z,
            so == s * oo,
    ;
    let no = nn * oo;
    let on = one * nn;
    assert(no <= so) by (nonlinear_arith)
        requires
            nn <= s,
            0 < oo,
            no == nn * oo,
            so == s * oo,
    ;
    assert(so <= no + 6 * on) by (nonlinear_arith)
        requires
            s < (n + 1) * (n + 1),
            nn == n * n,
            one <= 2 * n,
            0 < one,
            oo == one * one,
            no == nn * oo,
            so == s * oo,
            on == one * nn,
    ;
    assert((2 * ONE) * (n * n) == 2 * on) by (nonlinear_arith)
        requires
            on == one * (n * n),
            ONE == one,
    ;
    assert(no - 6 * on <= nt <= no + 12 * on + 3 * nn);
    assert(oo - 6 * one <= t <= oo + 12 * one + 3) by (nonlinear_arith)
        requires
            no - 6 * on <= nt <= no + 12 * on + 3 * nn,
            no == nn * oo,
            on == one * nn,
            nt == nn * t,
            0 < nn,
    ;
    assert((one - 4) * (one - 4) <= oo - 6 * one && oo + 12 * one + 3 < (one + 7) * (one + 7))
        by (nonlinear_arith)
        requires
            oo == one * one,
            one == 0x4_0000_0000_0000,
    ;
    lemma_isqrt_bounds(t, one - 4, one + 7);
}

} // verus!
