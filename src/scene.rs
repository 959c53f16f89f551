use vstd::prelude::*;

use crate::fixed::COORD_MAX;
use crate::vec3::{bounded, Vec3};

verus! {

/// How a surface answers a ray.
#[derive(Clone, Copy, Debug, PartialEq, Eq, Structural)]
pub enum Material {
    /// A flat colour, each channel in fixed point (`ONE` is full intensity).
    Color(Vec3),
}

/// The colour that a material gives to a ray that meets it.
pub open spec fn material_color(m: Material) -> Vec3 {
    match m {
        Material::Color(c) => c,
    }
}

impl Material {
    /// The colour that this material gives to a ray that meets it.
    pub fn color(&self) -> (r: Vec3)
        ensures
            r == material_color(*self),
    {
        match self {
            Material::Color(c) => *c,
        }
    }
}

#[derive(Clone, Copy, Debug, PartialEq, Eq, Structural)]
pub struct Sphere {
    pub origin: Vec3,
    pub radius: i64,
    pub material: Material,
}

impl Sphere {
    pub fn new(origin: Vec3, radius: i64, material: Material) -> (r: Sphere)
        ensures
            r == (Sphere { origin, radius, material }),
    {
        Sphere { origin, radius, material }
    }

    /// The centre lies within the coordinate range and the radius is positive.
    pub open spec fn wf(self) -> bool {
        &&& bounded(self.origin, COORD_MAX as int)
        &&& 0 < self.radius <= COORD_MAX
    }
}

/// The spheres of one frame, in scan order.
#[derive(Clone, Debug)]
pub struct Scene {
    pub spheres: Vec<Sphere>,
}

impl Scene {
    pub fn new(spheres: Vec<Sphere>) -> (r: Scene)
        ensures
            r.spheres@ == spheres@,
    {
        Scene { spheres }
    }

    /// Every sphere is well formed.
    pub open spec fn wf(&self) -> bool {
        forall|i: int| 0 <= i < self.spheres@.len() ==> (#[trigger] self.spheres@[i]).wf()
    }
}

/// The projection plane: pixel `(x, y)` lies at `origin + x * u + y * v`.
#[derive(Clone, Copy, Debug, PartialEq, Eq, Structural)]
pub struct Plane {
    pub origin: Vec3,
    pub u: Vec3,
    pub v: Vec3,
}

impl Plane {
    pub fn new(origin: Vec3, u: Vec3, v: Vec3) -> (r: Plane)
        ensures
            r == (Plane { origin, u, v }),
    {
        Plane { origin, u, v }
    }
}

/// A pinhole camera: rays leave the eye through the points of the plane.
#[derive(Clone, Copy, Debug, PartialEq, Eq, Structural)]
pub struct Camera {
    pub projection_plane: Plane,
    pub eye: Vec3,
}

impl Camera {
    pub fn new(projection_plane: Plane, eye: Vec3) -> (r: Camera)
        ensures
            r == (Camera { projection_plane, eye }),
    {
        Camera { projection_plane, eye }
    }
}

} // verus!
