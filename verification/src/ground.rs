//! The ground: a bounded checkerboard on the plane `y = -4`.
//!
//! The board covers `|x| < 10` and `-30 < z < -10`. Its tiles are two units
//! wide and alternate between light gray and brown.
use crate::algebra_models::v3_add;
use crate::algebra_models::v3_scale;
use crate::algebra_models::Vec3;
use crate::algebra_models::V3;
use crate::colors::brown;
use crate::colors::light_gray;
use crate::colors::TENTH;
use crate::colors::THREE_TENTHS;
use crate::colors::TWO_TENTHS;
use crate::optics::EPS;
use crate::scalar::floor_div;
use crate::scalar::fx_abs;
use crate::scalar::fx_add;
use crate::scalar::fx_div;
use crate::scalar::fx_gt;
use crate::scalar::fx_lt;
use crate::scalar::in_range;
use crate::scalar::is_nan;
use crate::scalar::fx_neg;
use crate::scalar::Scalar;
use crate::scalar::ONE;
use vstd::arithmetic::div_mod::lemma_hoist_over_denominator;
use vstd::prelude::*;

verus! {

/// The ground plane lies at height `-GROUND_DEPTH`: four below the origin.
pub const GROUND_DEPTH: i64 = 4503599627370496;

/// The ground extends over `|x| < GROUND_HALF_WIDTH`: ten.
pub const GROUND_HALF_WIDTH: i64 = 11258999068426240;

/// The ground extends over `-GROUND_FAR < z < -GROUND_NEAR`; the near border
/// is at ten.
pub const GROUND_NEAR: i64 = 11258999068426240;

/// The far border of the ground: thirty.
pub const GROUND_FAR: i64 = 33776997205278720;

/// Number of the tile under `(x, z)`: `floor(x / 2 + 1000) + floor(z / 2)`.
/// Tiles are two units wide.
pub open spec fn tile_number(x: int, z: int) -> int {
    (number_or_zero(x) + 2000 * ONE) / (2 * ONE) + number_or_zero(z) / (2 * ONE)
}

/// `a`, or zero where it is no number.
pub open spec fn number_or_zero(a: int) -> int {
    if is_nan(a) {
        0
    } else {
        a
    }
}

/// Color of the ground under `(x, z)`: light gray on even tiles, brown on odd.
pub open spec fn tile_color(x: int, z: int) -> V3 {
    if tile_number(x, z) % 2 == 0 {
        light_gray()
    } else {
        brown()
    }
}

/// Distance along the ray to the ground plane: `-(orig.y + 4) / dir.y`.
pub open spec fn ground_distance(orig: V3, dir: V3) -> int {
    fx_div(fx_neg(fx_add(orig.y, GROUND_DEPTH as int)), dir.y)
}

/// Where the ray meets the ground plane.
pub open spec fn ground_point(orig: V3, dir: V3) -> V3 {
    v3_add(orig, v3_scale(dir, ground_distance(orig, dir)))
}

/// Distance to the checkerboard, where the ray meets it: the ray is not
/// nearly level, the plane lies ahead, and the point is on the board.
pub open spec fn ground_hit(orig: V3, dir: V3) -> Option<int> {
    let d = ground_distance(orig, dir);
    let pt = ground_point(orig, dir);
    if fx_gt(fx_abs(dir.y), EPS as int) && fx_gt(d, 0) && fx_lt(
        fx_abs(pt.x),
        GROUND_HALF_WIDTH as int,
    ) && fx_lt(pt.z, -GROUND_NEAR) && fx_gt(pt.z, -GROUND_FAR) {
        Some(d)
    } else {
        None
    }
}

/// Color of the ground under the point `(x, z)`.
pub fn checkerboard_color(x: Scalar, z: Scalar) -> (c: Vec3)
    ensures
        c@ == tile_color(x@, z@),
{
    let xw: i128 = if x.is_nan() {
        0
    } else {
        x.wide()
    };
    let zw: i128 = if z.is_nan() {
        0
    } else {
        z.wide()
    };
    let xi: i128 = floor_div(xw + 2000 * 0x4_0000_0000_0000, 2 * 0x4_0000_0000_0000);
    let zi: i128 = floor_div(zw, 2 * 0x4_0000_0000_0000);
    let cell: i128 = xi + zi;
    let half: i128 = floor_div(cell, 2);
    let three = Scalar::from_raw(THREE_TENTHS);
    if cell - 2 * half == 0 {
        Vec3 { x: three, y: three, z: three }
    } else {
        Vec3 { x: three, y: Scalar::from_raw(TWO_TENTHS), z: Scalar::from_raw(TENTH) }
    }
}

/// Distance to the checkerboard along the ray, and the point where the ray
/// meets it.
pub fn ground_intersect(orig: &Vec3, dir: &Vec3) -> (r: Option<(Scalar, Vec3)>)
    ensures
        match r {
            Some((d, point)) => ground_hit(orig@, dir@) == Some(d@) && point@ == ground_point(
                orig@,
                dir@,
            ),
            None => ground_hit(orig@, dir@) is None,
        },
{
    if dir.y.abs().gt(Scalar::from_raw(EPS)) {
        let d = orig.y.add(Scalar::from_raw(GROUND_DEPTH)).neg().div(dir.y);
        let point = orig.add(dir.scale(d));
        if d.gt(Scalar::zero()) && point.x.abs().lt(Scalar::from_raw(GROUND_HALF_WIDTH))
            && point.z.lt(Scalar::from_raw(-GROUND_NEAR)) && point.z.gt(
            Scalar::from_raw(-GROUND_FAR),
        ) {
            return Some((d, point));
        }
    }
    None
}

/// The named extents are whole numbers of units.
pub proof fn lemma_ground_extents()
    ensures
        GROUND_DEPTH == 4 * ONE,
        GROUND_HALF_WIDTH == 10 * ONE,
        GROUND_NEAR == 10 * ONE,
        GROUND_FAR == 30 * ONE,
{
}

/// The ground's pattern repeats every four units along `x` and along `z`.
pub proof fn lemma_tile_period(x: int, z: int)
    requires
        in_range(x),
        in_range(z),
    ensures
        tile_color(x + 4 * ONE, z) == tile_color(x, z),
        tile_color(x, z + 4 * ONE) == tile_color(x, z),
{
    let tile: nat = (2 * ONE) as nat;
    lemma_hoist_over_denominator(x + 2000 * ONE, 2, tile);
    lemma_hoist_over_denominator(z, 2, tile);
    assert(tile_number(x + 4 * ONE, z) == tile_number(x, z) + 2);
    assert(tile_number(x, z + 4 * ONE) == tile_number(x, z) + 2);
}

} // verus!
