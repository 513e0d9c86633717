//! Camera rays and the rendering of a whole image.
//!
//! The camera stands at the origin and looks along `-z`. The image plane
//! lies at distance one; its half height is the tangent of half the field of
//! view, and its half width is wider by the ratio of width to height. One ray
//! goes through the center of each pixel.
use crate::algebra_models::v3_normalized;
use crate::algebra_models::v3_zero;
use crate::algebra_models::Vec3;
use crate::algebra_models::V3;
use crate::physical_models::Light;
use crate::physical_models::LightModel;
use crate::physical_models::Sphere;
use crate::physical_models::SphereModel;
use crate::raycasting::cast_ray;
use crate::raycasting::light_models;
use crate::raycasting::shade;
use crate::raycasting::sphere_models;
use crate::scalar::clamp;
use crate::scalar::floor_div;
use crate::scalar::is_nan;
use crate::scalar::Scalar;
use crate::scalar::NAN;
use crate::scalar::ONE;
use vstd::arithmetic::div_mod::lemma_fundamental_div_mod_converse;
use vstd::prelude::*;

verus! {

/// Direction of the ray through the center of pixel `(i, j)` of an image of
/// `width` by `height` pixels, before it is scaled to unit length:
/// `x = (2 (i + 1/2) / width - 1) * tan * width / height`,
/// `y = -(2 (j + 1/2) / height - 1) * tan`, `z = -1`,
/// each evaluated exactly and rounded down once.
pub open spec fn pixel_direction(i: nat, j: nat, width: nat, height: nat, tan_half_fov: int) -> V3 {
    V3 {
        x: plane_part(2 * i + 1 - width, tan_half_fov, height),
        y: plane_part(height - 2 * j - 1, tan_half_fov, height),
        z: -(ONE as int),
    }
}

/// `k * tan / height`, rounded down; no number where the tangent is none.
pub open spec fn plane_part(k: int, tan_half_fov: int, height: nat) -> int {
    if is_nan(tan_half_fov) {
        NAN as int
    } else {
        clamp((k * tan_half_fov) / (height as int))
    }
}

/// Unit direction of the ray through the center of pixel `(i, j)`.
pub open spec fn camera_direction(
    i: nat,
    j: nat,
    width: nat,
    height: nat,
    tan_half_fov: int,
) -> V3 {
    v3_normalized(pixel_direction(i, j, width, height, tan_half_fov))
}

/// Color of pixel `(i, j)`: what the camera ray through it sees.
pub open spec fn pixel_color(
    i: int,
    j: int,
    width: nat,
    height: nat,
    tan_half_fov: int,
    spheres: Seq<SphereModel>,
    lights: Seq<LightModel>,
) -> V3 {
    shade(
        v3_zero(),
        camera_direction(i as nat, j as nat, width, height, tan_half_fov),
        spheres,
        lights,
        0,
    )
}

/// Whether each of `pixels` is the color of the pixel at its place in an
/// image stored row by row.
pub open spec fn rendered(
    pixels: Seq<Vec3>,
    width: nat,
    height: nat,
    tan_half_fov: int,
    spheres: Seq<SphereModel>,
    lights: Seq<LightModel>,
) -> bool {
    forall|k: int|
        0 <= k < pixels.len() ==> (#[trigger] pixels[k])@ == pixel_color(
            k % (width as int),
            k / (width as int),
            width,
            height,
            tan_half_fov,
            spheres,
            lights,
        )
}

/// Place of pixel `(i, j)` in an image stored row by row.
pub open spec fn pixel_index(i: int, j: int, width: int) -> int {
    i + j * width
}

/// `(k * tan) / height`, rounded down and saturated, for a pixel offset `k`.
fn plane_coordinate(k: i128, tan_half_fov: Scalar, height: usize) -> (c: Scalar)
    requires
        height > 0,
        -0x1_0000_0000_0000_0000 <= k <= 0x1_0000_0000_0000_0000,
    ensures
        c@ == plane_part(k as int, tan_half_fov@, height as nat),
{
    if tan_half_fov.is_nan() {
        return tan_half_fov;
    }
    let t: i128 = tan_half_fov.wide();
    assert(-0x4000_0000_0000_0000_0000_0000_0000_0000 <= k * t
        <= 0x4000_0000_0000_0000_0000_0000_0000_0000) by (nonlinear_arith)
        requires
            -0x1_0000_0000_0000_0000 <= k <= 0x1_0000_0000_0000_0000,
            -0x4000_0000_0000_0000 <= t <= 0x4000_0000_0000_0000,
    ;
    Scalar::saturate(floor_div(k * t, height as i128))
}

/// Unit direction of the camera ray through the center of pixel `(i, j)`.
/// `tan_half_fov` is the tangent of half the vertical field of view.
pub fn camera_ray(i: usize, j: usize, width: usize, height: usize, tan_half_fov: Scalar) -> (dir:
    Vec3)
    requires
        i < width,
        j < height,
    ensures
        dir@ == camera_direction(i as nat, j as nat, width as nat, height as nat, tan_half_fov@),
{
    let x = plane_coordinate(2 * (i as i128) + 1 - (width as i128), tan_half_fov, height);
    let y = plane_coordinate((height as i128) - 2 * (j as i128) - 1, tan_half_fov, height);
    let v = Vec3 { x, y, z: Scalar::one().neg() };
    v.normalized()
}

/// Renders the scene: the color seen from the origin through each pixel,
/// stored row by row from the top left.
pub fn render(
    width: usize,
    height: usize,
    tan_half_fov: Scalar,
    spheres: &[Sphere],
    lights: &[Light],
) -> (pixels: Vec<Vec3>)
    requires
        width * height <= usize::MAX,
    ensures
        pixels@.len() == width * height,
        forall|i: int, j: int|
            0 <= i < width && 0 <= j < height ==> (#[trigger] pixels@[pixel_index(
                i,
                j,
                width as int,
            )])@ == pixel_color(
                i,
                j,
                width as nat,
                height as nat,
                tan_half_fov@,
                sphere_models(spheres@),
                light_models(lights@),
            ),
{
    let origin = Vec3::default();
    let mut pixels: Vec<Vec3> = Vec::new();
    let mut j: usize = 0;
    while j < height
        invariant
            j <= height,
            origin@ == v3_zero(),
            pixels@.len() == j * width,
            rendered(
                pixels@,
                width as nat,
                height as nat,
                tan_half_fov@,
                sphere_models(spheres@),
                light_models(lights@),
            ),
        decreases height - j,
    {
        let mut i: usize = 0;
        while i < width
            invariant
                i <= width,
                j < height,
                origin@ == v3_zero(),
                pixels@.len() == j * width + i,
                rendered(
                    pixels@,
                    width as nat,
                    height as nat,
                    tan_half_fov@,
                    sphere_models(spheres@),
                    light_models(lights@),
                ),
            decreases width - i,
        {
            let dir = camera_ray(i, j, width, height, tan_half_fov);
            let color = cast_ray(&origin, &dir, spheres, lights, 0);
            proof {
                lemma_row_major(i as int, j as int, width as int, height as int);
            }
            pixels.push(color);
            i += 1;
        }
        proof {
            assert((j + 1) * width == j * width + width) by (nonlinear_arith);
        }
        j += 1;
    }
    proof {
        assert(height * width == width * height) by (nonlinear_arith);
        assert forall|i: int, j: int| 0 <= i < width && 0 <= j < height implies (
        #[trigger] pixels@[pixel_index(i, j, width as int)])@ == pixel_color(
            i,
            j,
            width as nat,
            height as nat,
            tan_half_fov@,
            sphere_models(spheres@),
            light_models(lights@),
        ) by {
            lemma_row_major(i, j, width as int, height as int);
        }
    }
    pixels
}

/// Pixel `(i, j)` of an image stored row by row has its place within the
/// image, in row `j` and column `i`.
pub proof fn lemma_row_major(i: int, j: int, width: int, height: int)
    requires
        0 <= i < width,
        0 <= j < height,
    ensures
        0 <= pixel_index(i, j, width) < width * height,
        pixel_index(i, j, width) % width == i,
        pixel_index(i, j, width) / width == j,
{
    assert(0 <= j * width && (j + 1) * width == j * width + width && (j + 1) * width <= height
        * width && height * width == width * height) by (nonlinear_arith)
        requires
            0 <= j,
            j + 1 <= height,
            0 < width,
    ;
    lemma_fundamental_div_mod_converse(pixel_index(i, j, width), width, j, i);
}

} // verus!
