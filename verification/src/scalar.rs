//! Saturating signed fixed-point numbers with 50 fractional bits.
//!
//! A scalar stores the integer `raw`, which stands for the number
//! `raw / 2^50`. Raw values stay within `[-2^62, 2^62]`; every operation
//! rounds its exact result to the grid and then saturates to that range:
//! products and roots round down, quotients round toward zero.
//!
//! One more value, [`NAN`], stands for no number at all. It is the result of
//! zero divided by zero and of the square root of a negative number; every
//! operation on it gives it back, and no comparison with it holds. Nothing
//! traps: division of another number by zero saturates by its sign.
use vstd::arithmetic::div_mod::lemma_fundamental_div_mod;
use vstd::arithmetic::div_mod::lemma_fundamental_div_mod_converse;
use vstd::arithmetic::div_mod::lemma_mod_bound;
use vstd::arithmetic::power::lemma_pow0;
use vstd::arithmetic::power::lemma_pow1;
use vstd::arithmetic::power::lemma_pow_adds;
use vstd::arithmetic::power::pow;
use vstd::prelude::*;

verus! {

/// Raw value of the number one.
pub const ONE: i64 = 0x4_0000_0000_0000;

/// Largest magnitude a raw value can have.
pub const LIMIT: i64 = 0x4000_0000_0000_0000;

/// Raw value that stands for no number; it lies just below the range.
pub const NAN: i64 = -0x4000_0000_0000_0001;

/// Whether `v` is the raw value of a number.
pub open spec fn in_range(v: int) -> bool {
    -LIMIT <= v <= LIMIT
}

/// Whether `v` stands for no number.
pub open spec fn is_nan(v: int) -> bool {
    v == NAN
}

/// Whether `v` is a raw value that a scalar can hold: a number or none.
pub open spec fn is_scalar(v: int) -> bool {
    in_range(v) || is_nan(v)
}

/// Whether `a` is less than `b`; false where either is no number.
pub open spec fn fx_lt(a: int, b: int) -> bool {
    !is_nan(a) && !is_nan(b) && a < b
}

/// Whether `a` is greater than `b`; false where either is no number.
pub open spec fn fx_gt(a: int, b: int) -> bool {
    !is_nan(a) && !is_nan(b) && a > b
}

/// Saturation of `v` to the range of raw values.
pub open spec fn clamp(v: int) -> int {
    if v < -LIMIT {
        -(LIMIT as int)
    } else if v > LIMIT {
        LIMIT as int
    } else {
        v
    }
}

/// Raw value of the integer `n`.
pub open spec fn fx_int(n: int) -> int {
    clamp(n * ONE)
}

/// Sum of two raw values.
pub open spec fn fx_add(a: int, b: int) -> int {
    if is_nan(a) || is_nan(b) {
        NAN as int
    } else {
        clamp(a + b)
    }
}

/// Difference of two raw values.
pub open spec fn fx_sub(a: int, b: int) -> int {
    if is_nan(a) || is_nan(b) {
        NAN as int
    } else {
        clamp(a - b)
    }
}

/// Negation of a raw value; exact, since the range is symmetric.
pub open spec fn fx_neg(a: int) -> int {
    if is_nan(a) {
        NAN as int
    } else {
        -a
    }
}

/// Magnitude of a raw value.
pub open spec fn fx_abs(a: int) -> int {
    if is_nan(a) {
        NAN as int
    } else if a < 0 {
        -a
    } else {
        a
    }
}

/// Product of two raw values, rounded down.
pub open spec fn fx_mul(a: int, b: int) -> int {
    if is_nan(a) || is_nan(b) {
        NAN as int
    } else {
        clamp((a * b) / (ONE as int))
    }
}

/// Magnitude of the quotient of two numbers, rounded down.
pub open spec fn quotient_magnitude(a: int, b: int) -> int {
    (fx_abs(a) * ONE) / fx_abs(b)
}

/// Quotient of two raw values, rounded toward zero. A zero divisor saturates
/// by the sign of the numerator, and zero over zero is no number.
pub open spec fn fx_div(a: int, b: int) -> int {
    if is_nan(a) || is_nan(b) {
        NAN as int
    } else if b == 0 {
        if a > 0 {
            LIMIT as int
        } else if a < 0 {
            -(LIMIT as int)
        } else {
            NAN as int
        }
    } else if (a < 0) != (b < 0) {
        clamp(-quotient_magnitude(a, b))
    } else {
        clamp(quotient_magnitude(a, b))
    }
}

/// Whether `r` is the integer square root of `n`, rounded down.
pub open spec fn is_floor_sqrt(n: int, r: int) -> bool {
    0 <= r && r * r <= n < (r + 1) * (r + 1)
}

/// The integer square root of `n`, rounded down.
pub open spec fn isqrt(n: int) -> int {
    choose|r: int| is_floor_sqrt(n, r)
}

/// Square root of a value held at double scale (`2^100` stands for one),
/// as a raw value: rounded down and saturated; no number below zero.
pub open spec fn wide_sqrt(n: int) -> int {
    if n < 0 {
        NAN as int
    } else {
        clamp(isqrt(n))
    }
}

/// Square root of a raw value, rounded down; no number for a negative one.
pub open spec fn fx_sqrt(a: int) -> int {
    if is_nan(a) {
        NAN as int
    } else {
        wide_sqrt(a * ONE)
    }
}

/// `b` raised to the power `e` by repeated squaring, each product rounded.
pub open spec fn fx_pow(b: int, e: nat) -> int
    decreases e,
{
    if e == 0 {
        ONE as int
    } else {
        let h = fx_pow(b, e / 2);
        let s = fx_mul(h, h);
        if e % 2 == 1 {
            fx_mul(s, b)
        } else {
            s
        }
    }
}

/// Quotient of `a` by a positive `b`, rounded down.
pub fn floor_div(a: i128, b: i128) -> (q: i128)
    requires
        b > 0,
        a > i128::MIN,
    ensures
        q == (a as int) / (b as int),
{
    if a >= 0 {
        a / b
    } else {
        let m: i128 = -a;
        let q0: i128 = m / b;
        let r0: i128 = m % b;
        proof {
            lemma_fundamental_div_mod(m as int, b as int);
            assert(b * q0 == q0 * b) by (nonlinear_arith);
        }
        if r0 == 0 {
            proof {
                assert((-q0) * b == -(q0 * b)) by (nonlinear_arith);
                lemma_fundamental_div_mod_converse(a as int, b as int, -(q0 as int), 0);
            }
            -q0
        } else {
            proof {
                assert((-q0 - 1) * b == -(q0 * b) - b) by (nonlinear_arith);
                lemma_fundamental_div_mod_converse(
                    a as int,
                    b as int,
                    -(q0 as int) - 1,
                    b - r0,
                );
            }
            -q0 - 1
        }
    }
}

/// Integer square root of `n`, rounded down, by bisection.
pub fn isqrt_u128(n: u128) -> (r: u128)
    ensures
        is_floor_sqrt(n as int, r as int),
        r as int == isqrt(n as int),
        r < 0x1_0000_0000_0000_0000,
{
    let mut lo: u128 = 0;
    let mut hi: u128 = 0x1_0000_0000_0000_0000;
    while hi - lo > 1
        invariant
            lo < hi <= 0x1_0000_0000_0000_0000,
            lo * lo <= n,
            n < hi * hi,
        decreases hi - lo,
    {
        let mid: u128 = lo + (hi - lo) / 2;
        assert(mid * mid <= u128::MAX) by (nonlinear_arith)
            requires
                mid <= 0xFFFF_FFFF_FFFF_FFFF,
        ;
        if mid * mid <= n {
            lo = mid;
        } else {
            hi = mid;
        }
    }
    proof {
        lemma_isqrt_unique(n as int, lo as int);
    }
    lo
}

/// A fixed-point number; `self@` is its raw value.
#[derive(Clone, Copy, Debug, PartialEq, Eq, Structural)]
pub struct Scalar {
    raw: i64,
}

impl View for Scalar {
    type V = int;

    closed spec fn view(&self) -> int {
        self.raw as int
    }
}

impl Scalar {
    #[verifier::type_invariant]
    spec fn inv(self) -> bool {
        is_scalar(self.raw as int)
    }

    /// The value that stands for no number.
    pub fn nan() -> (s: Scalar)
        ensures
            is_nan(s@),
    {
        Scalar { raw: NAN }
    }

    /// Whether this stands for no number.
    pub fn is_nan(self) -> (b: bool)
        ensures
            b == is_nan(self@),
    {
        self.raw == NAN
    }

    /// Scalars with the same raw value are the same scalar.
    pub proof fn lemma_view_injective(a: Scalar, b: Scalar)
        requires
            a@ == b@,
        ensures
            a == b,
    {
    }

    /// The scalar with raw value `raw`, saturated.
    pub fn from_raw(raw: i64) -> (s: Scalar)
        ensures
            s@ == clamp(raw as int),
    {
        if raw < -LIMIT {
            Scalar { raw: -LIMIT }
        } else if raw > LIMIT {
            Scalar { raw: LIMIT }
        } else {
            Scalar { raw }
        }
    }

    /// The scalar with raw value `v`, saturated.
    pub fn saturate(v: i128) -> (s: Scalar)
        ensures
            s@ == clamp(v as int),
    {
        if v < -(LIMIT as i128) {
            Scalar { raw: -LIMIT }
        } else if v > LIMIT as i128 {
            Scalar { raw: LIMIT }
        } else {
            Scalar { raw: v as i64 }
        }
    }

    /// The scalar that stands for the integer `n`.
    pub fn from_int(n: i32) -> (s: Scalar)
        ensures
            s@ == fx_int(n as int),
    {
        Scalar::saturate((n as i128) * 0x4_0000_0000_0000)
    }

    /// The raw value: within the range, or [`NAN`].
    pub fn raw(self) -> (r: i64)
        ensures
            r == self@,
            is_scalar(self@),
    {
        proof {
            use_type_invariant(&self);
        }
        self.raw
    }

    /// The raw value as a wide integer, for exact intermediate products.
    pub fn wide(self) -> (r: i128)
        ensures
            r == self@,
            is_scalar(self@),
    {
        self.raw() as i128
    }

    /// Zero.
    pub fn zero() -> (s: Scalar)
        ensures
            s@ == 0,
    {
        Scalar { raw: 0 }
    }

    /// One.
    pub fn one() -> (s: Scalar)
        ensures
            s@ == ONE,
    {
        Scalar { raw: ONE }
    }

    /// Sum, saturated.
    pub fn add(self, rhs: Scalar) -> (s: Scalar)
        ensures
            s@ == fx_add(self@, rhs@),
    {
        if self.is_nan() || rhs.is_nan() {
            return Scalar::nan();
        }
        Scalar::saturate(self.wide() + rhs.wide())
    }

    /// Difference, saturated.
    pub fn sub(self, rhs: Scalar) -> (s: Scalar)
        ensures
            s@ == fx_sub(self@, rhs@),
    {
        if self.is_nan() || rhs.is_nan() {
            return Scalar::nan();
        }
        Scalar::saturate(self.wide() - rhs.wide())
    }

    /// Negation, which is exact.
    pub fn neg(self) -> (s: Scalar)
        ensures
            s@ == fx_neg(self@),
    {
        if self.is_nan() {
            return self;
        }
        Scalar { raw: -self.raw() }
    }

    /// Magnitude.
    pub fn abs(self) -> (s: Scalar)
        ensures
            s@ == fx_abs(self@),
    {
        if !self.is_nan() && self.raw() < 0 {
            self.neg()
        } else {
            self
        }
    }

    /// Product, rounded down and saturated.
    pub fn mul(self, rhs: Scalar) -> (s: Scalar)
        ensures
            s@ == fx_mul(self@, rhs@),
    {
        if self.is_nan() || rhs.is_nan() {
            return Scalar::nan();
        }
        let a: i128 = self.wide();
        let b: i128 = rhs.wide();
        proof {
            lemma_product_bound(a as int, b as int);
        }
        Scalar::saturate(floor_div(a * b, ONE as i128))
    }

    /// Quotient, rounded toward zero and saturated. Division by zero
    /// saturates by the sign of `self`; zero by zero is no number.
    pub fn div(self, rhs: Scalar) -> (s: Scalar)
        ensures
            s@ == fx_div(self@, rhs@),
    {
        if self.is_nan() || rhs.is_nan() {
            return Scalar::nan();
        }
        let a: i128 = self.wide();
        let b: i128 = rhs.wide();
        if b == 0 {
            return if a > 0 {
                Scalar { raw: LIMIT }
            } else if a < 0 {
                Scalar { raw: -LIMIT }
            } else {
                Scalar::nan()
            };
        }
        let num: i128 = if a < 0 {
            -a
        } else {
            a
        };
        let den: i128 = if b < 0 {
            -b
        } else {
            b
        };
        let q: i128 = (num * 0x4_0000_0000_0000) / den;
        if (a < 0) != (b < 0) {
            Scalar::saturate(-q)
        } else {
            Scalar::saturate(q)
        }
    }

    /// Square root of a value at double scale; see [`wide_sqrt`].
    pub fn sqrt_wide(n: i128) -> (s: Scalar)
        ensures
            s@ == wide_sqrt(n as int),
    {
        if n < 0 {
            Scalar::nan()
        } else {
            let r: u128 = isqrt_u128(n as u128);
            Scalar::saturate(r as i128)
        }
    }

    /// Square root, rounded down; no number for a negative one.
    pub fn sqrt(self) -> (s: Scalar)
        ensures
            s@ == fx_sqrt(self@),
    {
        if self.is_nan() {
            return self;
        }
        Scalar::sqrt_wide(self.wide() * 0x4_0000_0000_0000)
    }

    /// `self` raised to the power `e`, by repeated squaring.
    pub fn pow(self, e: u32) -> (s: Scalar)
        ensures
            s@ == fx_pow(self@, e as nat),
        decreases e,
    {
        if e == 0 {
            Scalar::one()
        } else {
            let h = self.pow(e / 2);
            let sq = h.mul(h);
            if e % 2 == 1 {
                sq.mul(self)
            } else {
                sq
            }
        }
    }

    /// Whether `self` is less than `rhs`; false where either is no number.
    pub fn lt(self, rhs: Scalar) -> (b: bool)
        ensures
            b == fx_lt(self@, rhs@),
    {
        !self.is_nan() && !rhs.is_nan() && self.raw() < rhs.raw()
    }

    /// Whether `self` is greater than `rhs`; false where either is no number.
    pub fn gt(self, rhs: Scalar) -> (b: bool)
        ensures
            b == fx_gt(self@, rhs@),
    {
        !self.is_nan() && !rhs.is_nan() && self.raw() > rhs.raw()
    }
}

/// The floor square root is unique, so any witness is `isqrt(n)`.
pub proof fn lemma_isqrt_unique(n: int, r: int)
    requires
        is_floor_sqrt(n, r),
    ensures
        isqrt(n) == r,
{
    let s = isqrt(n);
    assert(is_floor_sqrt(n, s));
    if s < r {
        assert((s + 1) * (s + 1) <= r * r) by (nonlinear_arith)
            requires
                0 <= s,
                s + 1 <= r,
        ;
    } else if r < s {
        assert((r + 1) * (r + 1) <= s * s) by (nonlinear_arith)
            requires
                0 <= r,
                r + 1 <= s,
        ;
    }
}

/// Every number from zero on has a floor square root, which `isqrt` names.
pub proof fn lemma_isqrt(n: int)
    requires
        0 <= n,
    ensures
        is_floor_sqrt(n, isqrt(n)),
    decreases n,
{
    if n == 0 {
        assert(is_floor_sqrt(0, 0));
    } else {
        lemma_isqrt(n - 1);
        let r = isqrt(n - 1);
        assert((r + 2) * (r + 2) > (r + 1) * (r + 1)) by (nonlinear_arith)
            requires
                0 <= r,
        ;
        if (r + 1) * (r + 1) <= n {
            assert(is_floor_sqrt(n, r + 1));
        } else {
            assert(is_floor_sqrt(n, r));
        }
    }
}

/// The floor square root grows with its argument.
pub proof fn lemma_isqrt_bounds(n: int, lo: int, hi: int)
    requires
        0 <= lo,
        lo * lo <= n < hi * hi,
        0 <= hi,
    ensures
        lo <= isqrt(n) < hi,
{
    assert(0 <= n) by (nonlinear_arith)
        requires
            lo * lo <= n,
    ;
    lemma_isqrt(n);
    let r = isqrt(n);
    if r < lo {
        assert((r + 1) * (r + 1) <= lo * lo) by (nonlinear_arith)
            requires
                0 <= r,
                r + 1 <= lo,
        ;
    }
    if r >= hi {
        assert(hi * hi <= r * r) by (nonlinear_arith)
            requires
                0 <= hi,
                hi <= r,
        ;
    }
}

/// Most steps by which the rounded power with exponent `e` can fall short of
/// the exact one: one for each product, doubled by each squaring after it.
pub open spec fn pow_slack(e: nat) -> int {
    if e == 0 {
        0
    } else {
        3 * e - 1
    }
}

/// The rounded power against the exact one, for a base between zero and
/// one: with `pow` the power of whole numbers, `fx_pow(b, e)` stands for
/// `b^e / ONE^(e - 1)`. It is never above it, and below it by at most
/// `pow_slack(e)` steps; it lies between zero and one.
pub proof fn lemma_pow_bounds(b: int, e: nat)
    requires
        0 <= b <= ONE,
    ensures
        0 <= fx_pow(b, e) <= ONE,
        0 <= pow(b, e) <= pow(ONE as int, e),
        0 < pow(ONE as int, e),
        fx_pow(b, e) * pow(ONE as int, e) <= ONE * pow(b, e),
        ONE * pow(b, e) <= (fx_pow(b, e) + pow_slack(e)) * pow(ONE as int, e),
    decreases e,
{
    let one = ONE as int;
    if e == 0 {
        lemma_pow0(b);
        lemma_pow0(one);
    } else {
        let k: nat = e / 2;
        lemma_pow_bounds(b, k);
        let h = fx_pow(b, k);
        let ok = pow(one, k);
        let xk = pow(b, k);
        let slack = pow_slack(k);
        lemma_pow_adds(b, k, k);
        lemma_pow_adds(one, k, k);
        let o2 = pow(one, k + k);
        let x2 = pow(b, k + k);
        assert(o2 == ok * ok && x2 == xk * xk);
        assert(0 < o2 && 0 <= x2 <= o2) by (nonlinear_arith)
            requires
                o2 == ok * ok,
                x2 == xk * xk,
                0 <= xk <= ok,
                0 < ok,
        ;
        // The square, rounded down.
        let hh = h * h;
        assert(0 <= hh <= one * one) by (nonlinear_arith)
            requires
                hh == h * h,
                0 <= h <= one,
        ;
        lemma_fundamental_div_mod(hh, one);
        lemma_mod_bound(hh, one);
        let s = hh / one;
        let r = hh % one;
        assert(hh == one * s + r);
        assert(0 <= s <= one) by (nonlinear_arith)
            requires
                hh == one * s + r,
                0 <= r < one,
                0 <= hh <= one * one,
        ;
        assert(fx_mul(h, h) == s);
        let a = h * ok;
        let c = one * xk;
        assert(a * a == hh * o2 && c * c == (one * one) * x2) by (nonlinear_arith)
            requires
                a == h * ok,
                c == one * xk,
                hh == h * h,
                o2 == ok * ok,
                x2 == xk * xk,
        ;
        assert(0 <= a <= one * ok && 0 <= c <= one * ok) by (nonlinear_arith)
            requires
                a == h * ok,
                c == one * xk,
                0 <= h <= one,
                0 <= xk <= ok,
                0 < ok,
                0 < one,
        ;
        // Not above.
        assert(a * a <= c * c) by (nonlinear_arith)
            requires
                0 <= a <= c,
        ;
        let so = s * o2;
        assert(one * so <= hh * o2) by (nonlinear_arith)
            requires
                so == s * o2,
                hh == one * s + r,
                0 <= r,
                0 < o2,
        ;
        let ox = one * x2;
        assert(c * c == one * ox) by (nonlinear_arith)
            requires
                c * c == (one * one) * x2,
                ox == one * x2,
        ;
        assert(so <= ox) by (nonlinear_arith)
            requires
                one * so <= one * ox,
                0 < one,
        ;
        // Not far below.
        let gap = slack * ok;
        assert(c - a <= gap) by (nonlinear_arith)
            requires
                c <= (h + slack) * ok,
                a == h * ok,
                gap == slack * ok,
        ;
        let wide = (2 * slack) * (one * o2);
        assert(c * c - a * a <= wide) by (nonlinear_arith)
            requires
                0 <= a <= c,
                c - a <= gap,
                gap == slack * ok,
                a <= one * ok,
                c <= one * ok,
                0 <= slack,
                0 < ok,
                o2 == ok * ok,
                wide == (2 * slack) * (one * o2),
        ;
        let top = (s + 1 + 2 * slack) * o2;
        assert(hh * o2 + wide <= one * top) by (nonlinear_arith)
            requires
                hh == one * s + r,
                r < one,
                0 < o2,
                wide == (2 * slack) * (one * o2),
                top == (s + 1 + 2 * slack) * o2,
        ;
        assert(ox <= top) by (nonlinear_arith)
            requires
                one * ox <= one * top,
                0 < one,
        ;
        if e % 2 == 0 {
            assert(e == k + k);
            assert(fx_pow(b, e) == s);
        } else {
            assert(e == k + k + 1);
            lemma_pow_adds(b, k + k, 1);
            lemma_pow_adds(one, k + k, 1);
            lemma_pow1(b);
            lemma_pow1(one);
            let o = pow(one, e);
            let x = pow(b, e);
            assert(o == o2 * one && x == x2 * b);
            assert(0 < o && 0 <= x <= o) by (nonlinear_arith)
                requires
                    o == o2 * one,
                    x == x2 * b,
                    0 <= x2 <= o2,
                    0 < o2,
                    0 <= b <= one,
                    0 < one,
            ;
            let sb = s * b;
            assert(0 <= sb <= one * one) by (nonlinear_arith)
                requires
                    sb == s * b,
                    0 <= s <= one,
                    0 <= b <= one,
            ;
            lemma_fundamental_div_mod(sb, one);
            lemma_mod_bound(sb, one);
            let t = sb / one;
            let r2 = sb % one;
            assert(sb == one * t + r2);
            assert(0 <= t <= one) by (nonlinear_arith)
                requires
                    sb == one * t + r2,
                    0 <= r2 < one,
                    0 <= sb <= one * one,
            ;
            assert(fx_mul(s, b) == t);
            assert(fx_pow(b, e) == t);
            assert(t * o <= one * x) by (nonlinear_arith)
                requires
                    o == o2 * one,
                    x == x2 * b,
                    sb == one * t + r2,
                    sb == s * b,
                    0 <= r2,
                    so == s * o2,
                    ox == one * x2,
                    so <= ox,
                    0 <= b,
                    0 < o2,
            ;
            assert(one * x <= (t + 2 + 2 * slack) * o) by (nonlinear_arith)
                requires
                    o == o2 * one,
                    x == x2 * b,
                    sb == one * t + r2,
                    sb == s * b,
                    r2 < one,
                    ox == one * x2,
                    ox <= top,
                    top == (s + 1 + 2 * slack) * o2,
                    0 <= b <= one,
                    0 <= slack,
                    0 < o2,
            ;
            assert((t + 2 + 2 * slack) * o <= (t + pow_slack(e)) * o) by (nonlinear_arith)
                requires
                    2 + 2 * slack <= pow_slack(e),
                    0 < o,
            ;
        }
    }
}

/// The product of two raw values fits a wide integer with room to add four.
pub proof fn lemma_product_bound(a: int, b: int)
    requires
        in_range(a),
        in_range(b),
    ensures
        -0x1000_0000_0000_0000_0000_0000_0000_0000 <= a * b
            <= 0x1000_0000_0000_0000_0000_0000_0000_0000,
{
    assert(-0x1000_0000_0000_0000_0000_0000_0000_0000 <= a * b
        <= 0x1000_0000_0000_0000_0000_0000_0000_0000) by (nonlinear_arith)
        requires
            -0x4000_0000_0000_0000 <= a <= 0x4000_0000_0000_0000,
            -0x4000_0000_0000_0000 <= b <= 0x4000_0000_0000_0000,
    ;
}

} // verus!
