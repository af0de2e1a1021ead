//! The render loop: for each pixel a ray is cast from a pinhole camera at
//! the origin looking down the negative z axis; where the scene reports a
//! hit the cell gets a fixed hit color, everywhere else the background
//! gradient `(j/height, i/width, 0)` of the pixel's coordinate fractions.

use vstd::prelude::*;
use crate::fixed::tdiv;
use crate::fixed::sqrt_floor;
use crate::fixed::is_isqrt;
use crate::fixed::lemma_isqrt_unique;
use crate::fixed::lemma_isqrt_at_least;
use crate::fixed::lemma_abs_mul_bound;
use crate::fixed::lemma_square_nonneg;
use crate::fixed::lemma_tdiv_bound;
use crate::fixed::div_fix;
use crate::fixed::isqrt;
use crate::vec3::Vec3;
use crate::geometry::Ray;
use crate::geometry::Sphere;
use crate::geometry::spec_scene_hit;
use crate::geometry::scene_hit;
use crate::framebuffer::Framebuffer;

verus! {

/// Largest accepted tangent of the half field of view, 4.0 in fixed point
/// (a field of view just under 152 degrees).
pub const MAX_HALF_FOV_TAN: i64 = 262144;

/// Horizontal view-space coordinate of the pixel center, scaled by the
/// half-fov tangent and the aspect ratio `width/height`.
pub open spec fn spec_px(i: int, w: int, h: int, tan: int) -> int {
    let px0 = tdiv((2 * i + 1) * 65536, w) - 65536;
    let aspect = tdiv(w * 65536, h);
    tdiv(tdiv(px0 * tan, 65536) * aspect, 65536)
}

/// Vertical view-space coordinate of the pixel center, scaled by the
/// half-fov tangent; rows count downward, so row 0 looks up.
pub open spec fn spec_py(j: int, h: int, tan: int) -> int {
    let py0 = 65536 - tdiv((2 * j + 1) * 65536, h);
    tdiv(py0 * tan, 65536)
}

/// Length of the unnormalized direction `(px, py, -1)`, in fixed point.
pub open spec fn spec_dir_norm(i: int, j: int, w: int, h: int, tan: int) -> int {
    let px = spec_px(i, w, h, tan);
    let py = spec_py(j, h, tan);
    sqrt_floor(px * px + py * py + 4294967296)
}

/// The camera ray of pixel `(i, j)`: origin at zero, direction
/// `(px, py, -1)` normalized to length `SCALE`.
pub open spec fn spec_primary_ray(i: int, j: int, w: int, h: int, tan: int) -> Ray {
    let px = spec_px(i, w, h, tan);
    let py = spec_py(j, h, tan);
    let n = spec_dir_norm(i, j, w, h, tan);
    Ray {
        origin: Vec3 { x: 0, y: 0, z: 0 },
        direction: Vec3 {
            x: tdiv(px * 65536, n) as i64,
            y: tdiv(py * 65536, n) as i64,
            z: tdiv(-4294967296, n) as i64,
        },
    }
}

/// The background gradient: the row fraction `j/height` in the first
/// channel, the column fraction `i/width` in the second, zero in the third.
pub open spec fn spec_background(i: int, j: int, w: int, h: int) -> Vec3 {
    Vec3 { x: tdiv(j * 65536, h) as i64, y: tdiv(i * 65536, w) as i64, z: 0 }
}

/// The fixed color written where a ray hits a primitive.
pub open spec fn hit_color() -> Vec3 {
    Vec3 { x: 26214, y: 26214, z: 19661 }
}

/// What the finished framebuffer holds at `(i, j)`: the hit color where
/// the pixel's camera ray meets the scene, the background gradient where
/// it misses.
pub open spec fn spec_render_pixel(
    scene: Seq<Sphere>,
    i: int,
    j: int,
    w: int,
    h: int,
    tan: int,
) -> Vec3 {
    if spec_scene_hit(scene, spec_primary_ray(i, j, w, h, tan), 0) is Some {
        hit_color()
    } else {
        spec_background(i, j, w, h)
    }
}

/// The floor square root of `n` dominates the magnitude of anything whose
/// square is at most `n`.
proof fn lemma_norm_dominates(n: int, c: int, v: int)
    requires
        is_isqrt(n, c),
        v * v <= n,
    ensures
        -c <= v <= c,
{
    if v >= 0 {
        lemma_isqrt_at_least(n, c, v);
    } else {
        assert((-v) * (-v) == v * v) by (nonlinear_arith);
        lemma_isqrt_at_least(n, c, -v);
    }
}

/// The camera ray of pixel `(i, j)` for a `width` by `height` image:
/// origin at zero, direction normalized to fixed-point length `SCALE`.
pub fn primary_ray(i: usize, j: usize, width: usize, height: usize, half_fov_tan: i64) -> (r: Ray)
    requires
        i < width <= 4096,
        j < height <= 4096,
        0 < half_fov_tan <= 262144,
    ensures
        r == spec_primary_ray(
            i as int,
            j as int,
            width as int,
            height as int,
            half_fov_tan as int,
        ),
        r.wf(),
{
    let w = width as i64;
    let h = height as i64;
    let a1 = (2 * i + 1) as i64 * 65536;
    proof {
        lemma_tdiv_bound(a1 as int, w as int, 131072);
        vstd::arithmetic::div_mod::lemma_multiply_divide_lt(a1 as int, w as int, 131072);
    }
    let q1 = div_fix(a1, w);
    let px0 = q1 - 65536;
    proof {
        lemma_abs_mul_bound(px0 as int, half_fov_tan as int, 65536, 262144);
    }
    let t1raw = px0 * half_fov_tan;
    proof {
        lemma_tdiv_bound(t1raw as int, 65536, 262144);
    }
    let t1 = div_fix(t1raw, 65536);
    let aspraw = w * 65536;
    proof {
        lemma_tdiv_bound(aspraw as int, h as int, 268435456);
    }
    let aspect = div_fix(aspraw, h);
    proof {
        lemma_abs_mul_bound(t1 as int, aspect as int, 262144, 268435456);
    }
    let pxraw = t1 * aspect;
    proof {
        lemma_tdiv_bound(pxraw as int, 65536, 1073741824);
    }
    let px = div_fix(pxraw, 65536);
    let a2 = (2 * j + 1) as i64 * 65536;
    proof {
        lemma_tdiv_bound(a2 as int, h as int, 131072);
        vstd::arithmetic::div_mod::lemma_multiply_divide_lt(a2 as int, h as int, 131072);
    }
    let q2 = div_fix(a2, h);
    let py0 = 65536 - q2;
    proof {
        lemma_abs_mul_bound(py0 as int, half_fov_tan as int, 65536, 262144);
    }
    let pyraw = py0 * half_fov_tan;
    proof {
        lemma_tdiv_bound(pyraw as int, 65536, 262144);
    }
    let py = div_fix(pyraw, 65536);
    proof {
        lemma_abs_mul_bound(px as int, px as int, 1073741824, 1073741824);
        lemma_abs_mul_bound(py as int, py as int, 262144, 262144);
        lemma_square_nonneg(px as int);
        lemma_square_nonneg(py as int);
    }
    let len2 = px * px + py * py + 4294967296;
    let norm_wide = isqrt(len2 as u64);
    proof {
        lemma_isqrt_unique(len2 as int, norm_wide as int);
        lemma_isqrt_at_least(len2 as int, norm_wide as int, 65536);
        lemma_norm_dominates(len2 as int, norm_wide as int, px as int);
        lemma_norm_dominates(len2 as int, norm_wide as int, py as int);
    }
    let norm = norm_wide as i64;
    let dxraw = px * 65536;
    proof {
        lemma_tdiv_bound(dxraw as int, norm as int, 65536);
    }
    let dx = div_fix(dxraw, norm);
    let dyraw = py * 65536;
    proof {
        lemma_tdiv_bound(dyraw as int, norm as int, 65536);
    }
    let dy = div_fix(dyraw, norm);
    proof {
        lemma_tdiv_bound(-4294967296, norm as int, 65536);
    }
    let dz = div_fix(-4294967296, norm);
    Ray { origin: Vec3 { x: 0, y: 0, z: 0 }, direction: Vec3 { x: dx, y: dy, z: dz } }
}

/// Render the scene into a fresh framebuffer: every cell is written
/// exactly once, with the hit color where the pixel's camera ray meets a
/// primitive and the background gradient where it misses.
pub fn render(scene: &Vec<Sphere>, width: usize, height: usize, half_fov_tan: i64) -> (fb:
    Framebuffer)
    requires
        0 < width <= 4096,
        0 < height <= 4096,
        0 < half_fov_tan <= 262144,
        forall|k: int| 0 <= k < scene@.len() ==> (#[trigger] scene@[k]).wf(),
    ensures
        fb.wf(),
        fb.width == width,
        fb.height == height,
        forall|i: int, j: int|
            0 <= i < width && 0 <= j < height ==> fb.pixel(i, j) == spec_render_pixel(
                scene@,
                i,
                j,
                width as int,
                height as int,
                half_fov_tan as int,
            ),
{
    let ghost w_s = width as int;
    let ghost h_s = height as int;
    let ghost tan_s = half_fov_tan as int;
    let mut fb = Framebuffer::new(width, height);
    let mut j: usize = 0;
    while j < height
        invariant
            0 < width <= 4096,
            0 < height <= 4096,
            0 < half_fov_tan <= 262144,
            forall|k: int| 0 <= k < scene@.len() ==> (#[trigger] scene@[k]).wf(),
            j <= height,
            fb.wf(),
            fb.width == width,
            fb.height == height,
            w_s == width as int && h_s == height as int && tan_s == half_fov_tan as int,
            forall|i2: int, j2: int|
                0 <= i2 < width && 0 <= j2 < j ==> fb.pixel(i2, j2) == spec_render_pixel(
                    scene@,
                    i2,
                    j2,
                    w_s,
                    h_s,
                    tan_s,
                ),
        decreases height - j,
    {
        let mut i: usize = 0;
        while i < width
            invariant
                0 < width <= 4096,
                0 < height <= 4096,
                0 < half_fov_tan <= 262144,
                forall|k: int| 0 <= k < scene@.len() ==> (#[trigger] scene@[k]).wf(),
                j < height,
                i <= width,
                fb.wf(),
                fb.width == width,
                fb.height == height,
                w_s == width as int && h_s == height as int && tan_s == half_fov_tan as int,
                forall|i2: int, j2: int|
                    0 <= i2 < width && 0 <= j2 < j ==> fb.pixel(i2, j2) == spec_render_pixel(
                        scene@,
                        i2,
                        j2,
                        w_s,
                        h_s,
                        tan_s,
                    ),
                forall|i2: int|
                    0 <= i2 < i ==> fb.pixel(i2, j as int) == spec_render_pixel(
                        scene@,
                        i2,
                        j as int,
                        w_s,
                        h_s,
                        tan_s,
                    ),
            decreases width - i,
        {
            let ray = primary_ray(i, j, width, height, half_fov_tan);
            let hit = scene_hit(scene, &ray, 0);
            let color = match hit {
                Some(_) => Vec3 { x: 26214, y: 26214, z: 19661 },
                None => {
                    let bx = div_fix((j as i64) * 65536, height as i64);
                    let by = div_fix((i as i64) * 65536, width as i64);
                    Vec3 { x: bx, y: by, z: 0 }
                },
            };
            assert(color == spec_render_pixel(scene@, i as int, j as int, w_s, h_s, tan_s));
            fb.set(i, j, color);
            i = i + 1;
        }
        j = j + 1;
    }
    fb
}

} // verus!
