use vstd::prelude::*;

use crate::fixed::{div_toward_zero, lemma_sqrt_floor_of_square, ONE};
use crate::scene::{material_color, Sphere};
use crate::trace::{
    entry_parameter, exit_parameter, half_chord, intersection, is_nearest, lemma_nearest_unique,
    meets, minus, point_at, projection, radiance, scaled_distance_sq, scaled_radius_sq, to_center,
};
use crate::vec3::{length_sq, normalized, Ray, Vec3};

verus! {

/// A ray that points away from a sphere's centre does not meet the sphere.
pub proof fn lemma_pointing_away_misses(s: Sphere, r: Ray)
    requires
        projection(s, r) < 0,
    ensures
        intersection(s, r) is None,
{
}

/// A ray that touches a sphere, its line passing exactly one radius from the
/// centre, meets it at a single point: the entry and exit parameters agree.
/// The centre must not lie behind the origin, which the intersection never
/// accepts.
pub proof fn lemma_tangent_single_root(s: Sphere, r: Ray)
    requires
        s.wf(),
        r.wf(),
        projection(s, r) >= 0,
        scaled_distance_sq(s, r) == scaled_radius_sq(s, r),
    ensures
        intersection(s, r) is Some,
        half_chord(s, r) == 0,
        entry_parameter(s, r) == exit_parameter(s, r),
{
    lemma_sqrt_floor_of_square(0);
}

/// A ray of unit direction aimed straight at the centre of a sphere, from a
/// distance `k` greater than the radius, enters at parameter `k - radius`.
pub proof fn lemma_aimed_at_center(s: Sphere, r: Ray, k: int)
    requires
        s.wf(),
        r.wf(),
        length_sq(r.direction) == ONE * ONE,
        ONE * to_center(s, r).x == k * r.direction.x,
        ONE * to_center(s, r).y == k * r.direction.y,
        ONE * to_center(s, r).z == k * r.direction.z,
        k > s.radius,
    ensures
        length_sq(to_center(s, r)) == k * k,
        intersection(s, r) is Some,
        entry_parameter(s, r) == k - s.radius,
{
    let v = to_center(s, r);
    let d = r.direction;
    let q = length_sq(d);
    let p = projection(s, r);
    let o = ONE as int;
    assert(o * (d.x * v.x) == k * (d.x * d.x)) by (nonlinear_arith)
        requires
            o * v.x == k * d.x,
    ;
    assert(o * (d.y * v.y) == k * (d.y * d.y)) by (nonlinear_arith)
        requires
            o * v.y == k * d.y,
    ;
    assert(o * (d.z * v.z) == k * (d.z * d.z)) by (nonlinear_arith)
        requires
            o * v.z == k * d.z,
    ;
    assert(o * p == k * q) by (nonlinear_arith)
        requires
            o * (d.x * v.x) == k * (d.x * d.x),
            o * (d.y * v.y) == k * (d.y * d.y),
            o * (d.z * v.z) == k * (d.z * d.z),
            p == d.x * v.x + d.y * v.y + d.z * v.z,
            q == d.x * d.x + d.y * d.y + d.z * d.z,
    ;
    assert(p == k * o) by (nonlinear_arith)
        requires
            o * p == k * q,
            q == o * o,
            o > 0,
    ;
    assert(o * o * (v.x * v.x) == k * k * (d.x * d.x)) by (nonlinear_arith)
        requires
            o * v.x == k * d.x,
    ;
    assert(o * o * (v.y * v.y) == k * k * (d.y * d.y)) by (nonlinear_arith)
        requires
            o * v.y == k * d.y,
    ;
    assert(o * o * (v.z * v.z) == k * k * (d.z * d.z)) by (nonlinear_arith)
        requires
            o * v.z == k * d.z,
    ;
    assert(o * o * length_sq(v) == k * k * q) by (nonlinear_arith)
        requires
            o * o * (v.x * v.x) == k * k * (d.x * d.x),
            o * o * (v.y * v.y) == k * k * (d.y * d.y),
            o * o * (v.z * v.z) == k * k * (d.z * d.z),
            q == d.x * d.x + d.y * d.y + d.z * d.z,
            length_sq(v) == v.x * v.x + v.y * v.y + v.z * v.z,
    ;
    assert(length_sq(v) == k * k) by (nonlinear_arith)
        requires
            o * o * length_sq(v) == k * k * q,
            q == o * o,
            o > 0,
    ;
    let rad = s.radius as int;
    assert(scaled_distance_sq(s, r) == 0) by (nonlinear_arith)
        requires
            scaled_distance_sq(s, r) == length_sq(v) * q - p * p,
            length_sq(v) == k * k,
            p == k * o,
            q == o * o,
    ;
    assert(scaled_radius_sq(s, r) == (rad * o) * (rad * o)) by (nonlinear_arith)
        requires
            scaled_radius_sq(s, r) == rad * rad * q,
            q == o * o,
    ;
    assert(0 <= scaled_radius_sq(s, r)) by (nonlinear_arith)
        requires
            scaled_radius_sq(s, r) == (rad * o) * (rad * o),
    ;
    lemma_sqrt_floor_of_square(rad * o);
    assert(half_chord(s, r) == rad * o);
    assert((p - rad * o) * o == (k - rad) * q) by (nonlinear_arith)
        requires
            p == k * o,
            q == o * o,
    ;
    assert(((k - rad) * q) / q == k - rad) by (nonlinear_arith)
        requires
            q > 0,
    ;
}

proof fn lemma_exact_division(a: int, d: int)
    requires
        d > 0,
    ensures
        div_toward_zero(a * d, d) == a,
{
    if a >= 0 {
        assert((a * d) / d == a) by (nonlinear_arith)
            requires
                d > 0,
        ;
    } else {
        assert(-(a * d) == (-a) * d) by (nonlinear_arith);
        assert(((-a) * d) / d == -a) by (nonlinear_arith)
            requires
                d > 0,
        ;
    }
}

/// For the ray of `lemma_aimed_at_center`, where the radius times each
/// direction coordinate is a whole multiple of `ONE` (so that no rounding
/// occurs), the hit's normal is the direction reversed: it is parallel to the
/// ray and faces back toward its origin.
pub proof fn lemma_aimed_at_center_normal(s: Sphere, r: Ray, k: int)
    requires
        s.wf(),
        r.wf(),
        length_sq(r.direction) == ONE * ONE,
        ONE * to_center(s, r).x == k * r.direction.x,
        ONE * to_center(s, r).y == k * r.direction.y,
        ONE * to_center(s, r).z == k * r.direction.z,
        k > s.radius,
        (s.radius * r.direction.x) % (ONE as int) == 0,
        (s.radius * r.direction.y) % (ONE as int) == 0,
        (s.radius * r.direction.z) % (ONE as int) == 0,
    ensures
        intersection(s, r) is Some,
        intersection(s, r)->0.normal == (Vec3 {
            x: -r.direction.x as i64,
            y: -r.direction.y as i64,
            z: -r.direction.z as i64,
        }),
{
    lemma_aimed_at_center(s, r, k);
    let o = ONE as int;
    let rad = s.radius as int;
    let d = r.direction;
    let v = to_center(s, r);
    let t = k - rad;
    let mx = (rad * d.x) / o;
    let my = (rad * d.y) / o;
    let mz = (rad * d.z) / o;
    assert(o * mx == rad * d.x && o * my == rad * d.y && o * mz == rad * d.z) by {
        vstd::arithmetic::div_mod::lemma_fundamental_div_mod(rad * d.x, o);
        vstd::arithmetic::div_mod::lemma_fundamental_div_mod(rad * d.y, o);
        vstd::arithmetic::div_mod::lemma_fundamental_div_mod(rad * d.z, o);
    }
    assert(t * d.x == (v.x - mx) * o && t * d.y == (v.y - my) * o && t * d.z == (v.z - mz) * o)
        by (nonlinear_arith)
        requires
            o * mx == rad * d.x,
            o * my == rad * d.y,
            o * mz == rad * d.z,
            o * v.x == k * d.x,
            o * v.y == k * d.y,
            o * v.z == k * d.z,
            t == k - rad,
    ;
    lemma_exact_division(v.x - mx, o);
    lemma_exact_division(v.y - my, o);
    lemma_exact_division(v.z - mz, o);
    assert(-rad <= mx <= rad && -rad <= my <= rad && -rad <= mz <= rad) by (nonlinear_arith)
        requires
            o * mx == rad * d.x,
            o * my == rad * d.y,
            o * mz == rad * d.z,
            -o <= d.x <= o,
            -o <= d.y <= o,
            -o <= d.z <= o,
            o > 0,
            rad > 0,
    ;
    let position = point_at(r, t);
    let w = minus(position, s.origin);
    assert(w.x == -mx && w.y == -my && w.z == -mz);
    assert(w.x * w.x == mx * mx && w.y * w.y == my * my && w.z * w.z == mz * mz) by (nonlinear_arith)
        requires
            w.x == -mx,
            w.y == -my,
            w.z == -mz,
    ;
    assert(o * o * (mx * mx) == rad * rad * (d.x * d.x)) by (nonlinear_arith)
        requires
            o * mx == rad * d.x,
    ;
    assert(o * o * (my * my) == rad * rad * (d.y * d.y)) by (nonlinear_arith)
        requires
            o * my == rad * d.y,
    ;
    assert(o * o * (mz * mz) == rad * rad * (d.z * d.z)) by (nonlinear_arith)
        requires
            o * mz == rad * d.z,
    ;
    assert(o * o * length_sq(w) == rad * rad * (o * o)) by (nonlinear_arith)
        requires
            o * o * (mx * mx) == rad * rad * (d.x * d.x),
            o * o * (my * my) == rad * rad * (d.y * d.y),
            o * o * (mz * mz) == rad * rad * (d.z * d.z),
            length_sq(w) == mx * mx + my * my + mz * mz,
            d.x * d.x + d.y * d.y + d.z * d.z == o * o,
    ;
    assert(length_sq(w) == rad * rad) by (nonlinear_arith)
        requires
            o * o * length_sq(w) == rad * rad * (o * o),
            o > 0,
    ;
    assert(rad * rad > 0) by (nonlinear_arith)
        requires
            rad > 0,
    ;
    let len = rad * o;
    assert(len * len == length_sq(w) * (o * o)) by (nonlinear_arith)
        requires
            len == rad * o,
            length_sq(w) == rad * rad,
    ;
    assert(len > 0) by (nonlinear_arith)
        requires
            len == rad * o,
            rad > 0,
            o > 0,
    ;
    lemma_sqrt_floor_of_square(len);
    assert(w.x * (o * o) == -d.x * len && w.y * (o * o) == -d.y * len && w.z * (o * o) == -d.z
        * len) by (nonlinear_arith)
        requires
            o * mx == rad * d.x,
            o * my == rad * d.y,
            o * mz == rad * d.z,
            w.x == -mx,
            w.y == -my,
            w.z == -mz,
            len == rad * o,
    ;
    lemma_exact_division(-d.x, len);
    lemma_exact_division(-d.y, len);
    lemma_exact_division(-d.z, len);
    assert(normalized(w) == (Vec3 {
        x: -r.direction.x as i64,
        y: -r.direction.y as i64,
        z: -r.direction.z as i64,
    }));
}

/// Of two spheres that a ray meets, it sees the one it enters first, in
/// either scan order; on an equal entry parameter it sees the first listed.
pub proof fn lemma_nearest_of_two(a: Sphere, b: Sphere, r: Ray)
    requires
        meets(a, r),
        meets(b, r),
    ensures
        entry_parameter(a, r) < entry_parameter(b, r) ==> radiance(seq![a, b], r) == material_color(
            a.material,
        ) && radiance(seq![b, a], r) == material_color(a.material),
        entry_parameter(a, r) == entry_parameter(b, r) ==> radiance(seq![a, b], r)
            == material_color(a.material) && radiance(seq![b, a], r) == material_color(b.material),
{
    let ab = seq![a, b];
    let ba = seq![b, a];
    assert(ab[0] == a && ab[1] == b && ba[0] == b && ba[1] == a);
    if entry_parameter(a, r) < entry_parameter(b, r) {
        assert(is_nearest(ab, r, 0));
        assert(is_nearest(ba, r, 1));
        let i = choose|i: int| is_nearest(ab, r, i);
        lemma_nearest_unique(ab, r, 2, i, 0);
        let j = choose|j: int| is_nearest(ba, r, j);
        lemma_nearest_unique(ba, r, 2, j, 1);
    } else if entry_parameter(a, r) == entry_parameter(b, r) {
        assert(is_nearest(ab, r, 0));
        assert(is_nearest(ba, r, 0));
        let i = choose|i: int| is_nearest(ab, r, i);
        lemma_nearest_unique(ab, r, 2, i, 0);
        let j = choose|j: int| is_nearest(ba, r, j);
        lemma_nearest_unique(ba, r, 2, j, 0);
    }
}

/// Where sphere `j` of `s.insert(k, m)` came from in `s`.
pub open spec fn index_before_insert(k: int, j: int) -> int {
    if j < k {
        j
    } else {
        j - 1
    }
}

/// Where sphere `i` of `s` stands in `s.insert(k, m)`.
pub open spec fn index_after_insert(k: int, i: int) -> int {
    if i < k {
        i
    } else {
        i + 1
    }
}

proof fn lemma_insert_index(s: Seq<Sphere>, m: Sphere, k: int, j: int)
    requires
        0 <= k <= s.len(),
        0 <= j < s.len() + 1,
        j != k,
    ensures
        0 <= index_before_insert(k, j) < s.len(),
        s.insert(k, m)[j] == s[index_before_insert(k, j)],
{
    s.insert_ensures(k, m);
    if j > k {
        let i = j - 1;
        assert(s.insert(k, m)[i + 1] == s[i]);
    }
}

/// A sphere that the ray misses, inserted anywhere in the scene, does not
/// change what the ray sees.
pub proof fn lemma_missed_sphere_changes_nothing(s: Seq<Sphere>, m: Sphere, k: int, r: Ray)
    requires
        0 <= k <= s.len(),
        !meets(m, r),
    ensures
        radiance(s.insert(k, m), r) == radiance(s, r),
{
    let t = s.insert(k, m);
    s.insert_ensures(k, m);
    if exists|i: int| is_nearest(s, r, i) {
        let i = choose|i: int| is_nearest(s, r, i);
        let fi = index_after_insert(k, i);
        if i < k {
            assert(t[fi] == s[i]);
        } else {
            assert(t[i + 1] == s[i]);
        }
        assert forall|j: int| 0 <= j < t.len() && #[trigger] meets(t[j], r) implies entry_parameter(
            t[fi],
            r,
        ) <= entry_parameter(t[j], r) by {
            lemma_insert_index(s, m, k, j);
            assert(meets(s[index_before_insert(k, j)], r));
        }
        assert forall|j: int| 0 <= j < fi && #[trigger] meets(t[j], r) implies entry_parameter(
            t[fi],
            r,
        ) < entry_parameter(t[j], r) by {
            lemma_insert_index(s, m, k, j);
            assert(meets(s[index_before_insert(k, j)], r));
        }
        assert(is_nearest(t, r, fi));
        let c = choose|c: int| is_nearest(t, r, c);
        lemma_nearest_unique(t, r, t.len() as int, c, fi);
    } else if exists|j: int| is_nearest(t, r, j) {
        let j = choose|j: int| is_nearest(t, r, j);
        assert(j != k) by {
            if j == k {
                assert(t[k] == m);
            }
        }
        let gj = index_before_insert(k, j);
        lemma_insert_index(s, m, k, j);
        assert forall|i: int| 0 <= i < s.len() && #[trigger] meets(s[i], r) implies entry_parameter(
            s[gj],
            r,
        ) <= entry_parameter(s[i], r) by {
            let fi = index_after_insert(k, i);
            if i < k {
                assert(t[fi] == s[i]);
            } else {
                assert(t[i + 1] == s[i]);
            }
            assert(meets(t[fi], r));
        }
        assert forall|i: int| 0 <= i < gj && #[trigger] meets(s[i], r) implies entry_parameter(
            s[gj],
            r,
        ) < entry_parameter(s[i], r) by {
            let fi = index_after_insert(k, i);
            if i < k {
                assert(t[fi] == s[i]);
            } else {
                assert(t[i + 1] == s[i]);
            }
            assert(meets(t[fi], r));
        }
        assert(is_nearest(s, r, gj));
    }
}

/// A ray over an empty scene sees black.
pub proof fn lemma_empty_scene_black(r: Ray)
    ensures
        radiance(Seq::<Sphere>::empty(), r) == Vec3::zero_spec(),
{
}

} // verus!
