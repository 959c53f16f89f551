use vstd::prelude::*;

use crate::fixed::ONE;
use crate::vec3::{bounded, Vec3};

verus! {

/// One RGB pixel, a byte per channel.
#[derive(Clone, Copy, Debug, PartialEq, Eq, Structural)]
pub struct Pixel(pub u8, pub u8, pub u8);

/// A unit-range channel (`0..=ONE`) scaled to `0..=255`, rounded down.
pub open spec fn channel_byte(c: int) -> int {
    c * 255 / (ONE as int)
}

/// The pixel of a colour whose channels lie in the unit range.
pub open spec fn unit_pixel(c: Vec3) -> Pixel {
    Pixel(channel_byte(c.x as int) as u8, channel_byte(c.y as int) as u8, channel_byte(c.z as int) as u8)
}

/// A channel in `[-ONE, ONE]` moved to the unit range: `(ONE + c) / 2`.
pub open spec fn signed_to_unit(c: int) -> int {
    (ONE + c) / 2
}

/// Each channel lies in the unit range.
pub open spec fn is_unit_color(c: Vec3) -> bool {
    &&& 0 <= c.x <= ONE
    &&& 0 <= c.y <= ONE
    &&& 0 <= c.z <= ONE
}

fn channel_to_byte(c: i64) -> (r: u8)
    requires
        0 <= c <= ONE,
    ensures
        r as int == channel_byte(c as int),
{
    assert(0 <= c * 255 / (ONE as int) <= 255) by (nonlinear_arith)
        requires
            0 <= c <= ONE,
    ;
    ((c * 255) / ONE) as u8
}

impl Pixel {
    /// Scales each unit-range channel by 255, rounding down.
    pub fn from_unit(color: Vec3) -> (r: Pixel)
        requires
            is_unit_color(color),
        ensures
            r == unit_pixel(color),
    {
        Pixel(channel_to_byte(color.x), channel_to_byte(color.y), channel_to_byte(color.z))
    }

    /// Maps each channel from `[-ONE, ONE]` to the unit range, then scales it
    /// as `from_unit` does.
    pub fn from_signed_unit(color: Vec3) -> (r: Pixel)
        requires
            bounded(color, ONE as int),
        ensures
            r == unit_pixel(
                Vec3 {
                    x: signed_to_unit(color.x as int) as i64,
                    y: signed_to_unit(color.y as int) as i64,
                    z: signed_to_unit(color.z as int) as i64,
                },
            ),
    {
        let shifted = Vec3 {
            x: (ONE + color.x) / 2,
            y: (ONE + color.y) / 2,
            z: (ONE + color.z) / 2,
        };
        Pixel::from_unit(shifted)
    }
}

/// A `width` by `height` grid of pixels, row-major: pixel `(x, y)` is at
/// index `y * width + x`.
#[derive(Clone, Debug)]
pub struct Backbuffer {
    pub width: u32,
    pub height: u32,
    pub pixels: Vec<Pixel>,
}

impl Backbuffer {
    /// The grid holds one pixel per cell.
    pub open spec fn wf(&self) -> bool {
        self.pixels@.len() == self.width * self.height
    }

    /// A black grid of the given size.
    pub fn new(width: u32, height: u32) -> (r: Backbuffer)
        requires
            width * height <= u32::MAX,
        ensures
            r.wf(),
            r.width == width,
            r.height == height,
            forall|i: int| 0 <= i < r.pixels@.len() ==> r.pixels@[i] == Pixel(0, 0, 0),
    {
        let num_pixels = (width * height) as usize;
        let mut pixels: Vec<Pixel> = Vec::new();
        let mut i: usize = 0;
        while i < num_pixels
            invariant
                i <= num_pixels,
                num_pixels == width * height,
                pixels@.len() == i,
                forall|j: int| 0 <= j < i ==> pixels@[j] == Pixel(0, 0, 0),
            decreases num_pixels - i,
        {
            pixels.push(Pixel(0, 0, 0));
            i = i + 1;
        }
        Backbuffer { width, height, pixels }
    }

    /// Writes the pixel at column `x` of row `y`.
    pub fn set(&mut self, x: u32, y: u32, pixel: Pixel)
        requires
            old(self).wf(),
            x < old(self).width,
            y < old(self).height,
        ensures
            final(self).wf(),
            final(self).width == old(self).width,
            final(self).height == old(self).height,
            final(self).pixels@ == old(self).pixels@.update(y * old(self).width + x, pixel),
    {
        proof {
            lemma_cell_index(self.width as int, self.height as int, x as int, y as int);
        }
        let len = self.pixels.len();
        assert(y * self.width + x < len);
        let index = y as usize * self.width as usize + x as usize;
        self.pixels.set(index, pixel);
    }
}

/// Cell `(x, y)` of a `width` by `height` grid has an index inside it.
pub proof fn lemma_cell_index(width: int, height: int, x: int, y: int)
    requires
        0 <= x < width,
        0 <= y < height,
    ensures
        0 <= y * width + x < width * height,
{
    assert(0 <= y * width + x < width * height) by (nonlinear_arith)
        requires
            0 <= x < width,
            0 <= y < height,
    ;
}

/// Two distinct cells of a grid have distinct indices.
pub proof fn lemma_cell_index_distinct(width: int, x1: int, y1: int, x2: int, y2: int)
    requires
        0 <= x1 < width,
        0 <= x2 < width,
        0 <= y1,
        0 <= y2,
        x1 != x2 || y1 != y2,
    ensures
        y1 * width + x1 != y2 * width + x2,
{
    if y1 < y2 {
        assert(y1 * width + x1 < y2 * width + x2) by (nonlinear_arith)
            requires
                0 <= x1 < width,
                0 <= x2,
                y1 + 1 <= y2,
        ;
    } else if y2 < y1 {
        assert(y2 * width + x2 < y1 * width + x1) by (nonlinear_arith)
            requires
                0 <= x2 < width,
                0 <= x1,
                y2 + 1 <= y1,
        ;
    }
}

} // verus!
