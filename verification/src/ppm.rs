//! Encoding of an image as a binary portable pixmap (`P6`).
//!
//! The file is the ASCII header `P6`, width and height, and the maximum
//! channel value, each line ended by a newline, followed by three bytes for
//! each pixel. A channel is the color component times the maximum value,
//! rounded down and limited to `0..=255`: components are not clamped before,
//! so values below zero and beyond the byte range saturate here, and a
//! component that is no number gives zero.
use crate::algebra_models::Vec3;
use crate::algebra_models::V3;
use crate::scalar::floor_div;
use crate::scalar::is_nan;
use crate::scalar::Scalar;
use crate::scalar::ONE;
use vstd::prelude::*;

verus! {

/// The ASCII digit for `d`.
pub open spec fn digit(d: nat) -> u8 {
    (48 + d) as u8
}

/// `n` in decimal, without leading zeros.
pub open spec fn decimal(n: nat) -> Seq<u8>
    decreases n,
{
    if n < 10 {
        seq![digit(n)]
    } else {
        decimal(n / 10).push(digit(n % 10))
    }
}

/// The header `"P6\n{width} {height}\n{max_val}\n"`.
pub open spec fn ppm_header(width: nat, height: nat, max_val: nat) -> Seq<u8> {
    seq![80u8, 54u8, 10u8] + decimal(width) + seq![32u8] + decimal(height) + seq![10u8] + decimal(
        max_val,
    ) + seq![10u8]
}

/// The byte for a color component with raw value `val`:
/// `floor(max_val * val)`, limited to `0..=255`; zero for no number.
pub open spec fn channel_byte(val: int, max_val: nat) -> u8 {
    let scaled = (max_val * val) / (ONE as int);
    if is_nan(val) || scaled < 0 {
        0u8
    } else if scaled > 255 {
        255u8
    } else {
        scaled as u8
    }
}

/// The three bytes of a color.
pub open spec fn pixel_of(color: V3, max_val: nat) -> Pixel {
    Pixel {
        x: channel_byte(color.x, max_val),
        y: channel_byte(color.y, max_val),
        z: channel_byte(color.z, max_val),
    }
}

/// The bytes of all pixels, in order: red, green and blue of each.
pub open spec fn pixel_data(colors: Seq<V3>, max_val: nat) -> Seq<u8>
    decreases colors.len(),
{
    if colors.len() == 0 {
        Seq::<u8>::empty()
    } else {
        let p = pixel_of(colors.last(), max_val);
        pixel_data(colors.drop_last(), max_val).push(p.x).push(p.y).push(p.z)
    }
}

/// The whole file: the header, then the pixel data.
pub open spec fn ppm_image(width: nat, height: nat, colors: Seq<V3>, max_val: nat) -> Seq<u8> {
    ppm_header(width, height, max_val) + pixel_data(colors, max_val)
}

/// The models of a sequence of colors.
pub open spec fn color_models(colors: Seq<Vec3>) -> Seq<V3> {
    colors.map_values(|c: Vec3| c@)
}

/// One pixel of the output: a byte for each of red, green and blue.
#[derive(Clone, Copy, Debug, PartialEq, Eq, Structural)]
pub struct Pixel {
    pub x: u8,
    pub y: u8,
    pub z: u8,
}

/// The byte for the color component `val` under the maximum value `max_val`.
pub fn scalar_to_u8(val: Scalar, max_val: usize) -> (b: u8)
    ensures
        b == channel_byte(val@, max_val as nat),
{
    if val.is_nan() {
        return 0;
    }
    let v: i128 = val.wide();
    let m: i128 = max_val as i128;
    assert(-0x4000_0000_0000_0000_0000_0000_0000_0000 <= m * v
        <= 0x4000_0000_0000_0000_0000_0000_0000_0000) by (nonlinear_arith)
        requires
            0 <= m <= 0xFFFF_FFFF_FFFF_FFFF,
            -0x4000_0000_0000_0000 <= v <= 0x4000_0000_0000_0000,
    ;
    let scaled: i128 = floor_div(m * v, 0x4_0000_0000_0000);
    if scaled < 0 {
        0
    } else if scaled > 255 {
        255
    } else {
        scaled as u8
    }
}

impl Pixel {
    /// The pixel for `color` under the maximum value `max_val`.
    pub fn from_vec3(color: &Vec3, max_val: usize) -> (p: Pixel)
        ensures
            p == pixel_of(color@, max_val as nat),
    {
        Pixel {
            x: scalar_to_u8(color.x, max_val),
            y: scalar_to_u8(color.y, max_val),
            z: scalar_to_u8(color.z, max_val),
        }
    }
}

/// Appends `n` in decimal to `out`.
fn push_decimal(out: &mut Vec<u8>, n: usize)
    ensures
        final(out)@ == old(out)@ + decimal(n as nat),
    decreases n,
{
    if n >= 10 {
        push_decimal(out, n / 10);
    }
    out.push(48 + (n % 10) as u8);
}

/// The bytes of the `P6` file for an image of the given size and colors.
pub fn encode_ppm(width: usize, height: usize, pixel_buffer: &[Vec3], max_val: usize) -> (bytes:
    Vec<u8>)
    ensures
        bytes@ == ppm_image(
            width as nat,
            height as nat,
            color_models(pixel_buffer@),
            max_val as nat,
        ),
{
    let mut bytes: Vec<u8> = Vec::new();
    bytes.push(80);
    bytes.push(54);
    bytes.push(10);
    push_decimal(&mut bytes, width);
    bytes.push(32);
    push_decimal(&mut bytes, height);
    bytes.push(10);
    push_decimal(&mut bytes, max_val);
    bytes.push(10);
    let ghost header = bytes@;
    let ghost colors = color_models(pixel_buffer@);
    assert(header == ppm_header(width as nat, height as nat, max_val as nat));
    let mut i: usize = 0;
    assert(colors.take(0) == Seq::<V3>::empty());
    while i < pixel_buffer.len()
        invariant
            i <= pixel_buffer@.len(),
            colors == color_models(pixel_buffer@),
            bytes@ == header + pixel_data(colors.take(i as int), max_val as nat),
        decreases pixel_buffer@.len() - i,
    {
        let p = Pixel::from_vec3(&pixel_buffer[i], max_val);
        proof {
            let next = colors.take(i + 1);
            assert(next.drop_last() == colors.take(i as int));
            assert(next.last() == pixel_buffer@[i as int]@);
        }
        bytes.push(p.x);
        bytes.push(p.y);
        bytes.push(p.z);
        i += 1;
    }
    assert(colors.take(i as int) == colors);
    bytes
}

/// The pixel data holds three bytes for each color, and the bytes of the
/// color with index `i` start at `3 * i`.
pub proof fn lemma_pixel_data_layout(colors: Seq<V3>, max_val: nat)
    ensures
        pixel_data(colors, max_val).len() == 3 * colors.len(),
        forall|i: int|
            0 <= i < colors.len() ==> {
                let p = pixel_of(#[trigger] colors[i], max_val);
                &&& pixel_data(colors, max_val)[3 * i] == p.x
                &&& pixel_data(colors, max_val)[3 * i + 1] == p.y
                &&& pixel_data(colors, max_val)[3 * i + 2] == p.z
            },
    decreases colors.len(),
{
    if colors.len() > 0 {
        lemma_pixel_data_layout(colors.drop_last(), max_val);
        assert forall|i: int| 0 <= i < colors.len() implies {
            let p = pixel_of(#[trigger] colors[i], max_val);
            &&& pixel_data(colors, max_val)[3 * i] == p.x
            &&& pixel_data(colors, max_val)[3 * i + 1] == p.y
            &&& pixel_data(colors, max_val)[3 * i + 2] == p.z
        } by {
            if i < colors.len() - 1 {
                assert(colors.drop_last()[i] == colors[i]);
            }
        }
    }
}

} // verus!
