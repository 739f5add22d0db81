//! A picture as a texture: which three bytes hold the colour of a pixel.

use vstd::prelude::*;

verus! {

/// A picture of `width` by `height` pixels, row after row from the top,
/// each pixel three bytes: red, green, blue.
pub struct ImageTexture {
    pub data: Vec<u8>,
    pub width: usize,
    pub height: usize,
}

/// The smaller of two numbers.
pub open spec fn at_most(a: int, b: int) -> int {
    if a <= b {
        a
    } else {
        b
    }
}

impl ImageTexture {
    /// Whether the picture has a pixel and `data` holds all pixels.
    pub open spec fn wf(self) -> bool {
        &&& self.width >= 1
        &&& self.height >= 1
        &&& self.data@.len() >= 3 * self.width * self.height
    }

    /// The position in `data` of the first byte of the pixel in column `i`
    /// of row `j`, where a column or row past the last one counts as the
    /// last one.
    pub open spec fn offset(self, i: int, j: int) -> int {
        3 * at_most(i, self.width - 1) + 3 * self.width * at_most(j, self.height - 1)
    }

    /// Makes a picture of the given bytes and size.
    pub fn new(data: Vec<u8>, width: usize, height: usize) -> (picture: ImageTexture)
        ensures
            picture.data == data,
            picture.width == width,
            picture.height == height,
    {
        ImageTexture { data, width, height }
    }

    /// Tells whether the picture has a pixel and `data` holds all pixels.
    pub fn is_complete(&self) -> (ok: bool)
        ensures
            ok == self.wf(),
    {
        let held = self.data.len();
        if self.width == 0 || self.height == 0 {
            return false;
        }
        let ghost row = 3 * self.width;
        assert(row * self.height >= row) by (nonlinear_arith)
            requires
                self.height >= 1,
                row >= 0,
        ;
        let per_row = match self.width.checked_mul(3) {
            Some(per_row) => per_row,
            None => {
                return false;
            },
        };
        match per_row.checked_mul(self.height) {
            Some(all) => held >= all,
            None => false,
        }
    }

    /// Returns the red, green and blue bytes of the pixel in column `i`
    /// of row `j`, where a column or row past the last one counts as the
    /// last one.
    pub fn get_color(&self, i: usize, j: usize) -> (rgb: (u8, u8, u8))
        requires
            self.wf(),
        ensures
            self.offset(i as int, j as int) + 2 < self.data@.len(),
            rgb.0 == self.data@[self.offset(i as int, j as int)],
            rgb.1 == self.data@[self.offset(i as int, j as int) + 1],
            rgb.2 == self.data@[self.offset(i as int, j as int) + 2],
    {
        let held = self.data.len();
        let i = if i < self.width - 1 {
            i
        } else {
            self.width - 1
        };
        let j = if j < self.height - 1 {
            j
        } else {
            self.height - 1
        };
        let ghost row = 3 * self.width;
        assert(row * j + row <= row * self.height) by (nonlinear_arith)
            requires
                0 <= j < self.height,
                row >= 0,
        ;
        assert(0 <= row * j) by (nonlinear_arith)
            requires
                0 <= j,
                row >= 0,
        ;
        let idx = 3 * i + 3 * self.width * j;
        (self.data[idx], self.data[idx + 1], self.data[idx + 2])
    }
}

} // verus!
