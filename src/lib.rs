//! A small ray-casting core over analytic spheres, in fixed-point integer
//! arithmetic: geometric sphere intersection, nearest-hit resolution, a
//! pinhole camera and a per-frame render loop into an RGB backbuffer.
//!
//! Points and radii are integers in a length unit of the caller's choosing.
//! Directions and colours are fixed point, with `fixed::ONE` standing for
//! one: a unit direction has length about `ONE`, a full colour channel is
//! `ONE`. Each function states its result exactly, rounding included.
//!
//! Rendering saturates each colour channel to the unit range before it
//! becomes a byte, and leaves black a pixel whose point on the projection
//! plane coincides with the eye, where the ray has no direction.
pub mod fixed;
pub mod vec3;
pub mod scene;
pub mod trace;
pub mod image;
pub mod render;
pub mod random;
pub mod laws;
