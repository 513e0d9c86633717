//! The fixed colors of the scene.
use crate::algebra_models::Vec3;
use crate::algebra_models::V3;
use crate::scalar::Scalar;
use crate::scalar::ONE;
use vstd::prelude::*;

verus! {

/// One tenth. The tenths, from which the fixed colors are made, are rounded
/// up to the grid: scaled to a byte they then reach the whole number that the
/// decimal stands for.
pub const TENTH: i64 = 112589990684263;

/// Two tenths.
pub const TWO_TENTHS: i64 = 225179981368525;

/// Three tenths.
pub const THREE_TENTHS: i64 = 337769972052788;

/// Seven tenths.
pub const SEVEN_TENTHS: i64 = 788129934789837;

/// Eight tenths.
pub const EIGHT_TENTHS: i64 = 900719925474100;

/// Color of a ray that meets nothing: `(0.2, 0.7, 0.8)`.
pub open spec fn background_color() -> V3 {
    V3 { x: TWO_TENTHS as int, y: SEVEN_TENTHS as int, z: EIGHT_TENTHS as int }
}

/// Light gray, `(0.3, 0.3, 0.3)`: the even tiles of the ground.
pub open spec fn light_gray() -> V3 {
    V3 { x: THREE_TENTHS as int, y: THREE_TENTHS as int, z: THREE_TENTHS as int }
}

/// Brown, `(0.3, 0.2, 0.1)`: the odd tiles of the ground.
pub open spec fn brown() -> V3 {
    V3 { x: THREE_TENTHS as int, y: TWO_TENTHS as int, z: TENTH as int }
}

/// The color of a ray that meets nothing.
pub fn background() -> (c: Vec3)
    ensures
        c@ == background_color(),
{
    Vec3 {
        x: Scalar::from_raw(TWO_TENTHS),
        y: Scalar::from_raw(SEVEN_TENTHS),
        z: Scalar::from_raw(EIGHT_TENTHS),
    }
}

/// The tenths are the least raw values that are not below their decimal
/// numbers.
pub proof fn lemma_tenths()
    ensures
        TENTH == (ONE + 9) / 10,
        TWO_TENTHS == (2 * ONE + 9) / 10,
        THREE_TENTHS == (3 * ONE + 9) / 10,
        SEVEN_TENTHS == (7 * ONE + 9) / 10,
        EIGHT_TENTHS == (8 * ONE + 9) / 10,
{
}

} // verus!
