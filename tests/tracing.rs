use pathtracer::fixed::{clampf32, saturatef32, ONE};
use pathtracer::image::{Backbuffer, Pixel};
use pathtracer::random::{random32, xorshift32};
use pathtracer::render::{primary_ray, render};
use pathtracer::scene::{Camera, Material, Plane, Scene, Sphere};
use pathtracer::trace::{intersect, trace_radiance};
use pathtracer::vec3::{Ray, Vec3};

fn red() -> Material {
    Material::Color(Vec3::new(ONE, 0, 0))
}

fn green() -> Material {
    Material::Color(Vec3::new(0, ONE, 0))
}

fn forward_ray() -> Ray {
    Ray::new(Vec3::zero(), Vec3::new(0, 0, ONE))
}

#[test]
fn from_unit_black_and_white() {
    assert_eq!(Pixel::from_unit(Vec3::new(0, 0, 0)), Pixel(0, 0, 0));
    assert_eq!(Pixel::from_unit(Vec3::new(ONE, ONE, ONE)), Pixel(255, 255, 255));
}

#[test]
fn from_unit_rounds_down() {
    assert_eq!(Pixel::from_unit(Vec3::new(ONE / 2, 1, ONE - 1)), Pixel(127, 0, 254));
}

#[test]
fn from_signed_unit_maps_range() {
    assert_eq!(Pixel::from_signed_unit(Vec3::new(-ONE, 0, ONE)), Pixel(0, 127, 255));
}

#[test]
fn intersect_aimed_at_center() {
    let sphere = Sphere::new(Vec3::new(0, 0, 0), 5, red());
    let ray = Ray::new(Vec3::new(0, 0, -10), Vec3::new(0, 0, ONE));
    let hit = intersect(&sphere, &ray).expect("hit");
    assert_eq!(hit.parameter, 5);
    assert_eq!(hit.position, Vec3::new(0, 0, -5));
    assert_eq!(hit.normal, Vec3::new(0, 0, -ONE));
    assert_eq!(hit.material, red());
}

#[test]
fn intersect_pointing_away_misses() {
    let sphere = Sphere::new(Vec3::new(0, 0, 0), 5, red());
    let ray = Ray::new(Vec3::new(0, 0, -10), Vec3::new(0, 0, -ONE));
    assert!(intersect(&sphere, &ray).is_none());
}

#[test]
fn intersect_passing_beside_misses() {
    let sphere = Sphere::new(Vec3::new(0, 0, 0), 5, red());
    let ray = Ray::new(Vec3::new(6, 0, -10), Vec3::new(0, 0, ONE));
    assert!(intersect(&sphere, &ray).is_none());
}

#[test]
fn intersect_tangent_touches_once() {
    let sphere = Sphere::new(Vec3::new(0, 0, 0), 5, red());
    let ray = Ray::new(Vec3::new(5, 0, -10), Vec3::new(0, 0, ONE));
    let hit = intersect(&sphere, &ray).expect("tangent hit");
    assert_eq!(hit.parameter, 10);
    assert_eq!(hit.position, Vec3::new(5, 0, 0));
    assert_eq!(hit.normal, Vec3::new(ONE, 0, 0));
}

#[test]
fn intersect_center_behind_origin_inside_misses() {
    let sphere = Sphere::new(Vec3::new(0, 0, 0), 5, red());
    let ray = Ray::new(Vec3::new(0, 0, 1), Vec3::new(0, 0, ONE));
    assert!(intersect(&sphere, &ray).is_none());
}

#[test]
fn trace_empty_scene_is_black() {
    let scene = Scene::new(Vec::new());
    assert_eq!(trace_radiance(&forward_ray(), &scene), Vec3::zero());
    let other = Ray::new(Vec3::new(3, -4, 7), Vec3::new(ONE, 0, 0));
    assert_eq!(trace_radiance(&other, &scene), Vec3::zero());
}

#[test]
fn trace_nearest_wins_in_either_order() {
    let far = Sphere::new(Vec3::new(0, 0, 20), 5, red());
    let near = Sphere::new(Vec3::new(0, 0, 22), 10, green());
    let ray = forward_ray();
    let a = Scene::new(vec![far, near]);
    let b = Scene::new(vec![near, far]);
    assert_eq!(trace_radiance(&ray, &a), Vec3::new(0, ONE, 0));
    assert_eq!(trace_radiance(&ray, &b), Vec3::new(0, ONE, 0));
}

#[test]
fn trace_tie_goes_to_first_listed() {
    let first = Sphere::new(Vec3::new(0, 0, 20), 5, red());
    let second = Sphere::new(Vec3::new(0, 0, 20), 5, green());
    let ray = forward_ray();
    assert_eq!(trace_radiance(&ray, &Scene::new(vec![first, second])), Vec3::new(ONE, 0, 0));
    assert_eq!(trace_radiance(&ray, &Scene::new(vec![second, first])), Vec3::new(0, ONE, 0));
}

#[test]
fn trace_misses_everything_is_black() {
    let sphere = Sphere::new(Vec3::new(0, 0, -20), 5, red());
    assert_eq!(trace_radiance(&forward_ray(), &Scene::new(vec![sphere])), Vec3::zero());
}

#[test]
fn render_two_by_two_all_red() {
    let mut backbuffer = Backbuffer::new(2, 2);
    let plane = Plane::new(Vec3::new(-1, -1, -5), Vec3::new(1, 0, 0), Vec3::new(0, 1, 0));
    let camera = Camera::new(plane, Vec3::new(0, 0, -10));
    let scene = Scene::new(vec![Sphere::new(
        Vec3::new(0, 0, 0),
        5,
        Material::Color(Vec3::new(ONE, 0, 0)),
    )]);
    render(&mut backbuffer, &camera, &scene);
    assert_eq!(backbuffer.pixels.len(), 4);
    for p in &backbuffer.pixels {
        assert_eq!(*p, Pixel(255, 0, 0));
    }
}

#[test]
fn render_background_and_saturation() {
    let mut backbuffer = Backbuffer::new(3, 1);
    let plane = Plane::new(Vec3::new(-100, 0, -5), Vec3::new(100, 0, 0), Vec3::new(0, 1, 0));
    let camera = Camera::new(plane, Vec3::new(0, 0, -10));
    let scene = Scene::new(vec![Sphere::new(
        Vec3::new(0, 0, 0),
        5,
        Material::Color(Vec3::new(2 * ONE, -ONE, ONE / 2)),
    )]);
    render(&mut backbuffer, &camera, &scene);
    assert_eq!(backbuffer.pixels[0], Pixel(0, 0, 0));
    assert_eq!(backbuffer.pixels[1], Pixel(255, 0, 127));
    assert_eq!(backbuffer.pixels[2], Pixel(0, 0, 0));
}

#[test]
fn primary_ray_through_pixel() {
    let plane = Plane::new(Vec3::new(-1, -1, -5), Vec3::new(1, 0, 0), Vec3::new(0, 1, 0));
    let camera = Camera::new(plane, Vec3::new(1, 0, -10));
    let ray = primary_ray(&camera, 2, 1);
    assert_eq!(ray.origin, Vec3::new(1, 0, -5));
    assert_eq!(ray.direction, Vec3::new(0, 0, ONE));
}

#[test]
fn backbuffer_new_and_set() {
    let mut backbuffer = Backbuffer::new(3, 2);
    assert_eq!(backbuffer.pixels.len(), 6);
    assert!(backbuffer.pixels.iter().all(|p| *p == Pixel(0, 0, 0)));
    backbuffer.set(2, 1, Pixel(1, 2, 3));
    assert_eq!(backbuffer.pixels[5], Pixel(1, 2, 3));
    backbuffer.set(0, 1, Pixel(4, 5, 6));
    assert_eq!(backbuffer.pixels[3], Pixel(4, 5, 6));
    assert_eq!(backbuffer.pixels[0], Pixel(0, 0, 0));
}

#[test]
fn vector_normalize() {
    assert_eq!(Vec3::new(0, 3, 4).normalize(), Vec3::new(0, 2457, 3276));
    assert_eq!(Vec3::new(-7, 0, 0).normalize(), Vec3::new(-ONE, 0, 0));
    assert_eq!(Vec3::zero().normalize(), Vec3::zero());
    assert_eq!(Vec3::new(1, 1, 1).normalize(), Vec3::new(2364, 2364, 2364));
}

#[test]
fn clamp_and_saturate() {
    assert_eq!(clampf32(-2, 3, 7), 3);
    assert_eq!(clampf32(-2, 3, -9), -2);
    assert_eq!(clampf32(-2, 3, 1), 1);
    assert_eq!(saturatef32(-1), 0);
    assert_eq!(saturatef32(ONE + 1), ONE);
    assert_eq!(saturatef32(100), 100);
}

#[test]
fn xorshift_sequence() {
    assert_eq!(xorshift32(1), 270369);
    assert_eq!(xorshift32(314159265), 2971524119);
    let mut state: u32 = 314159265;
    let r = random32(&mut state);
    assert_eq!(state, 2971524119);
    assert_eq!(r, 2834);
}

#[test]
fn random_positive_from_nonzero_state() {
    let mut state: u32 = 4071982377;
    let r = random32(&mut state);
    assert_eq!(state, 1);
    assert_eq!(r, 1);
}

#[test]
fn intersect_normal_is_unit_for_short_offset() {
    let sphere = Sphere::new(Vec3::new(0, 0, 0), 2, red());
    let ray = Ray::new(Vec3::new(-1, -1, -10), Vec3::new(0, 0, ONE));
    let hit = intersect(&sphere, &ray).expect("hit");
    assert_eq!(hit.parameter, 8);
    assert_eq!(hit.position, Vec3::new(-1, -1, -2));
    assert_eq!(hit.normal, Vec3::new(-1672, -1672, -3344));
    let n = hit.normal;
    let len_sq = n.x * n.x + n.y * n.y + n.z * n.z;
    assert!((ONE - 2) * (ONE - 2) <= len_sq && len_sq < (ONE + 1) * (ONE + 1));
}

#[test]
fn vector_arithmetic() {
    let a = Vec3::new(1, -2, 3);
    let b = Vec3::new(4, 5, -6);
    assert_eq!(a.add(b), Vec3::new(5, 3, -3));
    assert_eq!(a.sub(b), Vec3::new(-3, -7, 9));
    assert_eq!(a.scale(-3), Vec3::new(-3, 6, -9));
    assert_eq!(a.dot(b), 4 - 10 - 18);
    assert_eq!(Vec3::new(2, 3, 6).length(), 7);
    assert_eq!(Vec3::new(1, 1, 1).length(), 1);
}

#[test]
fn xorshift_never_reaches_zero() {
    let mut state: u32 = 1;
    for _ in 0..1000 {
        state = xorshift32(state);
        assert_ne!(state, 0);
    }
}

#[test]
fn trace_ignores_inserted_missed_sphere() {
    let far = Sphere::new(Vec3::new(0, 0, 20), 5, red());
    let near = Sphere::new(Vec3::new(0, 0, 22), 10, green());
    let missed = Sphere::new(Vec3::new(0, 50, 10), 5, red());
    let ray = forward_ray();
    let base = trace_radiance(&ray, &Scene::new(vec![far, near]));
    assert_eq!(trace_radiance(&ray, &Scene::new(vec![missed, far, near])), base);
    assert_eq!(trace_radiance(&ray, &Scene::new(vec![far, missed, near])), base);
    assert_eq!(trace_radiance(&ray, &Scene::new(vec![far, near, missed])), base);
}
