//! A dense row-major grid of color samples, one `Vec3` per pixel, with
//! `width * height` cells indexed by `x + y * width`. The render step owns
//! it exclusively, writes every cell, and hands it to the PPM encoder.

use vstd::prelude::*;
use vstd::pervasive::VecAdditionalExecFns;
use crate::vec3::Vec3;

verus! {

/// Largest width or height a framebuffer may have: keeps `width * height`
/// and every byte count of the encoder inside a `usize`.
pub const MAX_DIM: usize = 4096;

/// A row-major grid of `width * height` color samples.
pub struct Framebuffer {
    pub width: usize,
    pub height: usize,
    pub pixels: Vec<Vec3>,
}

/// A row-major index stays inside the grid.
pub proof fn lemma_row_major_in_range(w: int, h: int, i: int, j: int)
    by (nonlinear_arith)
    requires
        0 <= i < w,
        0 <= j < h,
    ensures
        0 <= j * w + i < w * h,
{
}

/// Distinct pixel coordinates give distinct row-major indices.
pub proof fn lemma_row_major_unique(w: int, i1: int, j1: int, i2: int, j2: int)
    by (nonlinear_arith)
    requires
        0 <= i1 < w,
        0 <= i2 < w,
        j1 * w + i1 == j2 * w + i2,
    ensures
        i1 == i2 && j1 == j2,
{
}

impl Framebuffer {
    /// Dimensions in range and exactly one sample per cell.
    pub open spec fn wf(self) -> bool {
        &&& 0 < self.width <= 4096
        &&& 0 < self.height <= 4096
        &&& self.pixels@.len() == self.width * self.height
    }

    /// The color sample of the cell at column `i`, row `j`.
    pub open spec fn pixel(self, i: int, j: int) -> Vec3 {
        self.pixels@[j * self.width + i]
    }

    /// A framebuffer of the given dimensions with every cell zero.
    pub fn new(width: usize, height: usize) -> (r: Framebuffer)
        requires
            0 < width <= 4096,
            0 < height <= 4096,
        ensures
            r.wf(),
            r.width == width,
            r.height == height,
            forall|i: int, j: int|
                0 <= i < width && 0 <= j < height ==> r.pixel(i, j) == (Vec3 {
                    x: 0,
                    y: 0,
                    z: 0,
                }),
    {
        assert(width * height <= 16777216) by (nonlinear_arith)
            requires
                width <= 4096,
                height <= 4096,
        ;
        let n = width * height;
        let mut pixels: Vec<Vec3> = Vec::new();
        let mut k: usize = 0;
        while k < n
            invariant
                k <= n,
                pixels@.len() == k,
                forall|m: int|
                    0 <= m < k ==> pixels@[m] == (Vec3 { x: 0, y: 0, z: 0 }),
            decreases n - k,
        {
            pixels.push(Vec3 { x: 0, y: 0, z: 0 });
            k = k + 1;
        }
        let r = Framebuffer { width, height, pixels };
        proof {
            assert forall|i: int, j: int| 0 <= i < width && 0 <= j < height implies r.pixel(i, j)
                == (Vec3 { x: 0, y: 0, z: 0 }) by {
                lemma_row_major_in_range(width as int, height as int, i, j);
            }
        }
        r
    }

    /// Write the color of one cell, leaving every other cell unchanged.
    pub fn set(&mut self, i: usize, j: usize, c: Vec3)
        requires
            old(self).wf(),
            i < old(self).width,
            j < old(self).height,
        ensures
            final(self).wf(),
            final(self).width == old(self).width,
            final(self).height == old(self).height,
            final(self).pixel(i as int, j as int) == c,
            forall|i2: int, j2: int|
                0 <= i2 < old(self).width && 0 <= j2 < old(self).height && !(i2 == i && j2 == j)
                    ==> final(self).pixel(i2, j2) == old(self).pixel(i2, j2),
    {
        proof {
            lemma_row_major_in_range(self.width as int, self.height as int, i as int, j as int);
            assert(self.width * self.height <= 16777216) by (nonlinear_arith)
                requires
                    self.width <= 4096,
                    self.height <= 4096,
            ;
        }
        let idx = j * self.width + i;
        self.pixels.set(idx, c);
        proof {
            assert forall|i2: int, j2: int|
                0 <= i2 < old(self).width && 0 <= j2 < old(self).height && !(i2 == i && j2 == j)
                    implies final(self).pixel(i2, j2) == old(self).pixel(i2, j2) by {
                lemma_row_major_in_range(
                    old(self).width as int,
                    old(self).height as int,
                    i2,
                    j2,
                );
                if j2 * old(self).width + i2 == j * old(self).width + i {
                    lemma_row_major_unique(old(self).width as int, i2, j2, i as int, j as int);
                }
            }
        }
    }

    /// Read the color of one cell.
    pub fn get(&self, i: usize, j: usize) -> (r: Vec3)
        requires
            self.wf(),
            i < self.width,
            j < self.height,
        ensures
            r == self.pixel(i as int, j as int),
    {
        proof {
            lemma_row_major_in_range(self.width as int, self.height as int, i as int, j as int);
            assert(self.width * self.height <= 16777216) by (nonlinear_arith)
                requires
                    self.width <= 4096,
                    self.height <= 4096,
            ;
        }
        self.pixels[j * self.width + i]
    }
}

} // verus!
