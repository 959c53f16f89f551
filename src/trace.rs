use vstd::prelude::*;

use crate::fixed::{
    div_toward_zero, div_toward_zero_i128, sqrt_floor, sqrt_floor_u128, COORD_MAX, ONE,
};
use crate::scene::{material_color, Material, Scene, Sphere};
use crate::vec3::{
    bounded, dot, length_sq, lemma_dot_bound, lemma_length_sq_bound, lemma_product_bound, normalized,
    Ray, Vec3,
};

verus! {

/// Where a ray meets a sphere.
#[derive(Clone, Copy, Debug, PartialEq, Eq, Structural)]
pub struct Hit {
    /// The hit lies at `origin + parameter * direction / ONE`: for a
    /// direction of length `ONE`, its distance from the ray's origin.
    pub parameter: i64,
    pub position: Vec3,
    /// The outward surface normal, in fixed point: its squared length lies
    /// in `[(ONE - 2)^2, (ONE + 1)^2)` (see `Vec3::normalize`).
    pub normal: Vec3,
    pub material: Material,
}

/// `a - b`, coordinate-wise.
pub open spec fn minus(a: Vec3, b: Vec3) -> Vec3 {
    Vec3 { x: (a.x - b.x) as i64, y: (a.y - b.y) as i64, z: (a.z - b.z) as i64 }
}

/// From the ray's origin to the sphere's centre.
pub open spec fn to_center(s: Sphere, r: Ray) -> Vec3 {
    minus(s.origin, r.origin)
}

/// Length of the centre's projection onto the ray, times the direction's length.
pub open spec fn projection(s: Sphere, r: Ray) -> int {
    dot(r.direction, to_center(s, r))
}

/// Squared distance from the centre to the ray's line, times the squared
/// length of the direction.
pub open spec fn scaled_distance_sq(s: Sphere, r: Ray) -> int {
    length_sq(to_center(s, r)) * length_sq(r.direction) - projection(s, r) * projection(s, r)
}

/// Squared radius, times the squared length of the direction.
pub open spec fn scaled_radius_sq(s: Sphere, r: Ray) -> int {
    s.radius * s.radius * length_sq(r.direction)
}

/// The ray meets the sphere: the centre does not lie behind the origin, and
/// its distance to the ray's line is at most the radius.
pub open spec fn meets(s: Sphere, r: Ray) -> bool {
    projection(s, r) >= 0 && scaled_distance_sq(s, r) <= scaled_radius_sq(s, r)
}

/// Half the chord that the ray's line cuts from the sphere, times the
/// direction's length, rounded down.
pub open spec fn half_chord(s: Sphere, r: Ray) -> int {
    sqrt_floor(scaled_radius_sq(s, r) - scaled_distance_sq(s, r))
}

/// Parameter of the point where the ray enters the sphere (the smaller root).
pub open spec fn entry_parameter(s: Sphere, r: Ray) -> int {
    div_toward_zero((projection(s, r) - half_chord(s, r)) * ONE, length_sq(r.direction))
}

/// Parameter of the point where the ray leaves the sphere (the larger root).
pub open spec fn exit_parameter(s: Sphere, r: Ray) -> int {
    div_toward_zero((projection(s, r) + half_chord(s, r)) * ONE, length_sq(r.direction))
}

/// The point at parameter `t`: `origin + t * direction / ONE`.
pub open spec fn point_at(r: Ray, t: int) -> Vec3 {
    Vec3 {
        x: (r.origin.x + div_toward_zero(t * r.direction.x, ONE as int)) as i64,
        y: (r.origin.y + div_toward_zero(t * r.direction.y, ONE as int)) as i64,
        z: (r.origin.z + div_toward_zero(t * r.direction.z, ONE as int)) as i64,
    }
}

/// The hit at the entry point.
pub open spec fn entry_hit(s: Sphere, r: Ray) -> Hit {
    let t = entry_parameter(s, r);
    let position = point_at(r, t);
    Hit {
        parameter: t as i64,
        position,
        normal: normalized(minus(position, s.origin)),
        material: s.material,
    }
}

/// What `intersect` returns.
pub open spec fn intersection(s: Sphere, r: Ray) -> Option<Hit> {
    if meets(s, r) {
        Some(entry_hit(s, r))
    } else {
        None
    }
}

proof fn lemma_div_toward_zero_bound(n: int, d: int, k: int)
    requires
        d > 0,
        k >= 0,
        -(k * d) <= n <= k * d,
    ensures
        -k <= div_toward_zero(n, d) <= k,
{
    if n >= 0 {
        assert(0 <= n / d <= k) by (nonlinear_arith)
            requires
                0 <= n <= k * d,
                d > 0,
        ;
    } else {
        let m = -n;
        assert(0 <= m / d <= k) by (nonlinear_arith)
            requires
                0 <= m <= k * d,
                d > 0,
        ;
    }
}

impl Ray {
    /// The point at parameter `t`.
    pub fn point_at(&self, t: i64) -> (r: Vec3)
        requires
            self.wf(),
            -0x400_0000 <= t <= 0x400_0000,
        ensures
            r == point_at(*self, t as int),
            bounded(r, COORD_MAX + 0x400_0000),
    {
        let d = self.direction;
        let o = self.origin;
        proof {
            lemma_product_bound(t as int, d.x as int, 0x400_0000, ONE as int);
            lemma_product_bound(t as int, d.y as int, 0x400_0000, ONE as int);
            lemma_product_bound(t as int, d.z as int, 0x400_0000, ONE as int);
            lemma_div_toward_zero_bound(t * d.x, ONE as int, 0x400_0000);
            lemma_div_toward_zero_bound(t * d.y, ONE as int, 0x400_0000);
            lemma_div_toward_zero_bound(t * d.z, ONE as int, 0x400_0000);
        }
        let dx = div_toward_zero_i128(t as i128 * d.x as i128, ONE as i128);
        let dy = div_toward_zero_i128(t as i128 * d.y as i128, ONE as i128);
        let dz = div_toward_zero_i128(t as i128 * d.z as i128, ONE as i128);
        Vec3 { x: o.x + dx as i64, y: o.y + dy as i64, z: o.z + dz as i64 }
    }
}

/// Where the ray first meets the sphere: `None` when the centre lies behind
/// the origin or the ray's line passes farther from the centre than the
/// radius; otherwise the hit at the entry point, with the sphere's material.
pub fn intersect(sphere: &Sphere, ray: &Ray) -> (r: Option<Hit>)
    requires
        sphere.wf(),
        ray.wf(),
    ensures
        r == intersection(*sphere, *ray),
        r is Some ==> r->0.parameter == entry_parameter(*sphere, *ray),
        r is Some && r->0.position != sphere.origin ==> (ONE - 2) * (ONE - 2) <= length_sq(
            r->0.normal,
        ) < (ONE + 1) * (ONE + 1),
{
    let offset = sphere.origin.sub(ray.origin);
    assert(offset == to_center(*sphere, *ray));
    assert(bounded(offset, 2 * COORD_MAX));
    let projection = ray.direction.dot(offset);
    if projection < 0 {
        return None;
    }
    let q = ray.direction.dot(ray.direction);
    let vv = offset.dot(offset);
    let radius = sphere.radius as i128;
    proof {
        lemma_dot_bound(ray.direction, offset, ONE as int, 2 * COORD_MAX);
        lemma_length_sq_bound(ray.direction, ONE as int);
        lemma_length_sq_bound(offset, 2 * COORD_MAX);
        lemma_product_bound(radius as int, radius as int, COORD_MAX as int, COORD_MAX as int);
        lemma_product_bound(vv as int, q as int, 0x3_0000_0000_0000, 0x300_0000);
        lemma_product_bound(projection as int, projection as int, 0x6_0000_0000, 0x6_0000_0000);
        lemma_product_bound(radius * radius, q as int, 0x100_0000_0000, 0x300_0000);
        assert(vv * q >= 0) by (nonlinear_arith)
            requires
                vv >= 0,
                q >= 0,
        ;
    }
    let rr = radius * radius;
    let distance_sq = vv * q - projection * projection;
    let radius_sq = rr * q;
    if distance_sq > radius_sq {
        return None;
    }
    let disc = radius_sq - distance_sq;
    assert(disc < 0x100_0000_0000_0000_0000);
    let half = sqrt_floor_u128(disc as u128) as i128;
    proof {
        if half >= 0x10_0000_0000 {
            assert(half * half >= 0x10_0000_0000 * 0x10_0000_0000) by (nonlinear_arith)
                requires
                    half >= 0x10_0000_0000,
            ;
        }
        lemma_div_toward_zero_bound((projection - half) * ONE, q as int, 0x400_0000);
    }
    let parameter = div_toward_zero_i128((projection - half) * (ONE as i128), q) as i64;
    let position = ray.point_at(parameter);
    let offset_from_center = position.sub(sphere.origin);
    proof {
        if position != sphere.origin {
            let w = offset_from_center;
            if length_sq(w) == 0 {
                assert(w.x * w.x >= 0 && w.y * w.y >= 0 && w.z * w.z >= 0) by (nonlinear_arith);
                assert(w.x * w.x == 0 ==> w.x == 0) by (nonlinear_arith);
                assert(w.y * w.y == 0 ==> w.y == 0) by (nonlinear_arith);
                assert(w.z * w.z == 0 ==> w.z == 0) by (nonlinear_arith);
            }
        }
    }
    let normal = offset_from_center.normalize();
    Some(Hit { parameter, position, normal, material: sphere.material })
}

/// Sphere `i` holds the nearest hit among the first `n` spheres: the ray
/// meets it, meets none of them at a smaller parameter, and none before it at
/// an equal one.
pub open spec fn is_nearest_among(s: Seq<Sphere>, r: Ray, n: int, i: int) -> bool {
    &&& 0 <= i < n <= s.len()
    &&& meets(s[i], r)
    &&& forall|j: int|
        0 <= j < n && #[trigger] meets(s[j], r) ==> entry_parameter(s[i], r) <= entry_parameter(
            s[j],
            r,
        )
    &&& forall|j: int|
        0 <= j < i && #[trigger] meets(s[j], r) ==> entry_parameter(s[i], r) < entry_parameter(
            s[j],
            r,
        )
}

/// Sphere `i` holds the nearest hit of the whole scene, the first on a tie.
pub open spec fn is_nearest(s: Seq<Sphere>, r: Ray, i: int) -> bool {
    is_nearest_among(s, r, s.len() as int, i)
}

/// What a ray sees: the colour of the nearest sphere that it meets, or black.
pub open spec fn radiance(s: Seq<Sphere>, r: Ray) -> Vec3 {
    if exists|i: int| is_nearest(s, r, i) {
        material_color(s[choose|i: int| is_nearest(s, r, i)].material)
    } else {
        Vec3 { x: 0, y: 0, z: 0 }
    }
}

/// At most one sphere holds the nearest hit.
pub proof fn lemma_nearest_unique(s: Seq<Sphere>, r: Ray, n: int, i: int, k: int)
    requires
        is_nearest_among(s, r, n, i),
        is_nearest_among(s, r, n, k),
    ensures
        i == k,
{
    if i < k {
        assert(meets(s[i], r));
    } else if k < i {
        assert(meets(s[k], r));
    }
}

/// The colour seen by the ray: the material colour of the sphere whose entry
/// point has the smallest parameter, the first in scan order on a tie, or
/// black when the ray meets no sphere.
pub fn trace_radiance(ray: &Ray, scene: &Scene) -> (r: Vec3)
    requires
        ray.wf(),
        scene.wf(),
    ensures
        r == radiance(scene.spheres@, *ray),
        (forall|j: int| 0 <= j < scene.spheres@.len() ==> !#[trigger] meets(scene.spheres@[j], *ray))
            ==> r == Vec3::zero_spec(),
{
    let ghost s = scene.spheres@;
    let mut nearest: Option<Hit> = None;
    let mut nearest_index: usize = 0;
    let mut k: usize = 0;
    while k < scene.spheres.len()
        invariant
            s == scene.spheres@,
            scene.wf(),
            ray.wf(),
            k <= s.len(),
            nearest is None <==> forall|j: int| 0 <= j < k ==> !#[trigger] meets(s[j], *ray),
            nearest is Some ==> {
                &&& is_nearest_among(s, *ray, k as int, nearest_index as int)
                &&& nearest->0.parameter == entry_parameter(s[nearest_index as int], *ray)
                &&& nearest->0.material == s[nearest_index as int].material
            },
        decreases s.len() - k,
    {
        let sphere = &scene.spheres[k];
        assert(s[k as int].wf());
        let found = intersect(sphere, ray);
        match found {
            Some(hit) => {
                let closer = match nearest {
                    Some(best) => hit.parameter < best.parameter,
                    None => true,
                };
                if closer {
                    proof {
                        assert forall|j: int|
                            0 <= j < k + 1 && #[trigger] meets(s[j], *ray) implies entry_parameter(
                            s[k as int],
                            *ray,
                        ) <= entry_parameter(s[j], *ray) by {
                            if j < k {
                                assert(nearest is Some);
                            }
                        }
                        assert forall|j: int|
                            0 <= j < k && #[trigger] meets(s[j], *ray) implies entry_parameter(
                            s[k as int],
                            *ray,
                        ) < entry_parameter(s[j], *ray) by {
                            assert(nearest is Some);
                        }
                    }
                    nearest = Some(hit);
                    nearest_index = k;
                } else {
                    proof {
                        assert forall|j: int|
                            0 <= j < k + 1 && #[trigger] meets(s[j], *ray) implies entry_parameter(
                            s[nearest_index as int],
                            *ray,
                        ) <= entry_parameter(s[j], *ray) by {}
                    }
                }
            },
            None => {},
        }
        k = k + 1;
    }
    proof {
        if nearest is Some {
            assert(is_nearest(s, *ray, nearest_index as int));
            let i = choose|i: int| is_nearest(s, *ray, i);
            lemma_nearest_unique(s, *ray, s.len() as int, i, nearest_index as int);
        } else {
            if exists|i: int| is_nearest(s, *ray, i) {
                let i = choose|i: int| is_nearest(s, *ray, i);
                assert(meets(s[i], *ray));
            }
        }
    }
    match nearest {
        Some(hit) => hit.material.color(),
        None => Vec3::zero(),
    }
}

} // verus!
