use vstd::prelude::*;

use crate::fixed::{clamp_spec, saturatef32, COORD_MAX, ONE};
use crate::image::{lemma_cell_index, lemma_cell_index_distinct, unit_pixel, Backbuffer, Pixel};
use crate::scene::{Camera, Scene, Sphere};
use crate::trace::{minus, radiance, trace_radiance};
use crate::vec3::{bounded, length_sq, normalized, Ray, Vec3};

verus! {

/// Absolute value.
pub open spec fn abs(a: int) -> int {
    if a < 0 {
        -a
    } else {
        a
    }
}

/// A coordinate `o + x * u + y * v` stays within the coordinate range for
/// every `x` up to `x_max` and every `y` up to `y_max`.
pub open spec fn coordinate_fits(o: int, u: int, v: int, x_max: int, y_max: int) -> bool {
    abs(o) + x_max * abs(u) + y_max * abs(v) <= COORD_MAX
}

/// The eye and the point of pixel `(x_max, y_max)`, and of every pixel
/// before it, lie within the coordinate range.
pub open spec fn pixel_fits(c: Camera, x_max: int, y_max: int) -> bool {
    let p = c.projection_plane;
    &&& bounded(c.eye, COORD_MAX as int)
    &&& coordinate_fits(p.origin.x as int, p.u.x as int, p.v.x as int, x_max, y_max)
    &&& coordinate_fits(p.origin.y as int, p.u.y as int, p.v.y as int, x_max, y_max)
    &&& coordinate_fits(p.origin.z as int, p.u.z as int, p.v.z as int, x_max, y_max)
}

/// Every pixel of a `width` by `height` frame, and the eye, lie within the
/// coordinate range.
pub open spec fn frame_fits(c: Camera, width: int, height: int) -> bool {
    pixel_fits(c, width - 1, height - 1)
}

/// The point of pixel `(x, y)` on the projection plane.
pub open spec fn pixel_point(c: Camera, x: int, y: int) -> Vec3 {
    let p = c.projection_plane;
    Vec3 {
        x: (p.origin.x + x * p.u.x + y * p.v.x) as i64,
        y: (p.origin.y + x * p.u.y + y * p.v.y) as i64,
        z: (p.origin.z + x * p.u.z + y * p.v.z) as i64,
    }
}

/// The ray of pixel `(x, y)`: from the pixel's point, away from the eye.
pub open spec fn camera_ray(c: Camera, x: int, y: int) -> Ray {
    let origin = pixel_point(c, x, y);
    Ray { origin, direction: normalized(minus(origin, c.eye)) }
}

/// Each channel held within the unit range.
pub open spec fn saturated(c: Vec3) -> Vec3 {
    Vec3 {
        x: clamp_spec(0, ONE as int, c.x as int) as i64,
        y: clamp_spec(0, ONE as int, c.y as int) as i64,
        z: clamp_spec(0, ONE as int, c.z as int) as i64,
    }
}

/// The pixel that `render` writes at `(x, y)`: the saturated radiance along
/// the pixel's ray, or black where the pixel's point is the eye itself and
/// the ray has no direction.
pub open spec fn pixel_color(c: Camera, s: Seq<Sphere>, x: int, y: int) -> Pixel {
    let ray = camera_ray(c, x, y);
    if 2 * length_sq(ray.direction) >= ONE * ONE {
        unit_pixel(saturated(radiance(s, ray)))
    } else {
        Pixel(0, 0, 0)
    }
}

proof fn lemma_coordinate_fits_below(o: int, u: int, v: int, x: int, y: int, x_max: int, y_max: int)
    requires
        coordinate_fits(o, u, v, x_max, y_max),
        0 <= x <= x_max,
        0 <= y <= y_max,
    ensures
        coordinate_fits(o, u, v, x, y),
        -COORD_MAX <= o + x * u + y * v <= COORD_MAX,
{
    assert(x * abs(u) <= x_max * abs(u) && y * abs(v) <= y_max * abs(v)) by (nonlinear_arith)
        requires
            0 <= x <= x_max,
            0 <= y <= y_max,
            abs(u) >= 0,
            abs(v) >= 0,
    ;
    assert(-(x * abs(u)) <= x * u <= x * abs(u)) by (nonlinear_arith)
        requires
            0 <= x,
            abs(u) == u || abs(u) == -u,
            abs(u) >= 0,
    ;
    assert(-(y * abs(v)) <= y * v <= y * abs(v)) by (nonlinear_arith)
        requires
            0 <= y,
            abs(v) == v || abs(v) == -v,
            abs(v) >= 0,
    ;
}

fn pixel_coordinate(o: i64, u: i64, v: i64, x: u32, y: u32) -> (r: i64)
    requires
        coordinate_fits(o as int, u as int, v as int, x as int, y as int),
    ensures
        r == o + x * u + y * v,
{
    proof {
        lemma_coordinate_fits_below(o as int, u as int, v as int, x as int, y as int, x as int, y as int);
        assert(-0x1_0000_0000_0000_0000_0000_0000 <= x * u <= 0x1_0000_0000_0000_0000_0000_0000) by (nonlinear_arith)
            requires
                0 <= x <= u32::MAX,
                i64::MIN <= u <= i64::MAX,
        ;
        assert(-0x1_0000_0000_0000_0000_0000_0000 <= y * v <= 0x1_0000_0000_0000_0000_0000_0000) by (nonlinear_arith)
            requires
                0 <= y <= u32::MAX,
                i64::MIN <= v <= i64::MAX,
        ;
    }
    (o as i128 + x as i128 * u as i128 + y as i128 * v as i128) as i64
}

/// The ray of pixel `(x, y)`.
pub fn primary_ray(camera: &Camera, x: u32, y: u32) -> (r: Ray)
    requires
        pixel_fits(*camera, x as int, y as int),
    ensures
        r == camera_ray(*camera, x as int, y as int),
        bounded(r.origin, COORD_MAX as int),
        bounded(r.direction, ONE as int),
{
    let p = camera.projection_plane;
    let origin = Vec3 {
        x: pixel_coordinate(p.origin.x, p.u.x, p.v.x, x, y),
        y: pixel_coordinate(p.origin.y, p.u.y, p.v.y, x, y),
        z: pixel_coordinate(p.origin.z, p.u.z, p.v.z, x, y),
    };
    proof {
        lemma_coordinate_fits_below(p.origin.x as int, p.u.x as int, p.v.x as int, x as int, y as int, x as int, y as int);
        lemma_coordinate_fits_below(p.origin.y as int, p.u.y as int, p.v.y as int, x as int, y as int, x as int, y as int);
        lemma_coordinate_fits_below(p.origin.z as int, p.u.z as int, p.v.z as int, x as int, y as int, x as int, y as int);
    }
    let direction = origin.sub(camera.eye).normalize();
    Ray { origin, direction }
}

/// Renders the scene into the backbuffer: every pixel `(x, y)` of the grid
/// receives `pixel_color` of the camera and the scene, row by row.
pub fn render(backbuffer: &mut Backbuffer, camera: &Camera, scene: &Scene)
    requires
        old(backbuffer).wf(),
        scene.wf(),
        frame_fits(*camera, old(backbuffer).width as int, old(backbuffer).height as int),
    ensures
        final(backbuffer).wf(),
        final(backbuffer).width == old(backbuffer).width,
        final(backbuffer).height == old(backbuffer).height,
        forall|x: int, y: int|
            0 <= x < final(backbuffer).width && 0 <= y < final(backbuffer).height
                ==> final(backbuffer).pixels@[y * final(backbuffer).width + x]
                == #[trigger] pixel_color(*camera, scene.spheres@, x, y),
{
    let width = backbuffer.width;
    let height = backbuffer.height;
    let mut y: u32 = 0;
    while y < height
        invariant
            backbuffer.wf(),
            backbuffer.width == width,
            backbuffer.height == height,
            scene.wf(),
            frame_fits(*camera, width as int, height as int),
            y <= height,
            forall|xx: int, yy: int|
                0 <= xx < width && 0 <= yy < y ==> backbuffer.pixels@[yy * width + xx]
                    == #[trigger] pixel_color(*camera, scene.spheres@, xx, yy),
        decreases height - y,
    {
        let mut x: u32 = 0;
        while x < width
            invariant
                backbuffer.wf(),
                backbuffer.width == width,
                backbuffer.height == height,
                scene.wf(),
                frame_fits(*camera, width as int, height as int),
                y < height,
                x <= width,
                forall|xx: int, yy: int|
                    0 <= xx < width && 0 <= yy < y ==> backbuffer.pixels@[yy * width + xx]
                        == #[trigger] pixel_color(*camera, scene.spheres@, xx, yy),
                forall|xx: int|
                    0 <= xx < x ==> backbuffer.pixels@[y * width + xx]
                        == #[trigger] pixel_color(*camera, scene.spheres@, xx, y as int),
            decreases width - x,
        {
            proof {
                let p = camera.projection_plane;
                let (w1, h1) = (width - 1, height - 1);
                lemma_coordinate_fits_below(p.origin.x as int, p.u.x as int, p.v.x as int, x as int, y as int, w1, h1);
                lemma_coordinate_fits_below(p.origin.y as int, p.u.y as int, p.v.y as int, x as int, y as int, w1, h1);
                lemma_coordinate_fits_below(p.origin.z as int, p.u.z as int, p.v.z as int, x as int, y as int, w1, h1);
            }
            let ray = primary_ray(camera, x, y);
            proof {
                crate::vec3::lemma_length_sq_bound(ray.direction, ONE as int);
            }
            let one = ONE as i128;
            let pixel = if ray.direction.dot(ray.direction) * 2 >= one * one {
                let light = trace_radiance(&ray, scene);
                Pixel::from_unit(Vec3 { x: saturatef32(light.x), y: saturatef32(light.y), z: saturatef32(light.z) })
            } else {
                Pixel(0, 0, 0)
            };
            assert(pixel == pixel_color(*camera, scene.spheres@, x as int, y as int));
            let ghost before = backbuffer.pixels@;
            backbuffer.set(x, y, pixel);
            proof {
                lemma_cell_index(width as int, height as int, x as int, y as int);
                assert forall|xx: int, yy: int|
                    0 <= xx < width && 0 <= yy < y implies backbuffer.pixels@[yy * width + xx]
                    == #[trigger] pixel_color(*camera, scene.spheres@, xx, yy) by {
                    lemma_cell_index_distinct(width as int, xx, yy, x as int, y as int);
                    lemma_cell_index(width as int, height as int, xx, yy);
                    assert(backbuffer.pixels@[yy * width + xx] == before[yy * width + xx]);
                }
                assert forall|xx: int|
                    0 <= xx < x + 1 implies backbuffer.pixels@[y * width + xx]
                    == #[trigger] pixel_color(*camera, scene.spheres@, xx, y as int) by {
                    if xx < x {
                        lemma_cell_index_distinct(width as int, xx, y as int, x as int, y as int);
                        lemma_cell_index(width as int, height as int, xx, y as int);
                        assert(backbuffer.pixels@[y * width + xx] == before[y * width + xx]);
                    }
                }
            }
            x = x + 1;
        }
        y = y + 1;
    }
}

} // verus!
