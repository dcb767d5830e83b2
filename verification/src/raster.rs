//! The library's own raster types.
//!
//! Decoding, scaling and encoding of image files stay outside the library;
//! the routing logic only ever reads and writes plain pixel grids, so those
//! grids are modelled here as vectors of color values in row-major order.

use vstd::prelude::*;

verus! {

/// An RGB color value.
#[derive(Debug, PartialEq, Eq, Structural, Hash, Copy, Clone)]
pub struct Color {
    pub r: u8,
    pub g: u8,
    pub b: u8,
}

impl Color {
    pub fn new(r: u8, g: u8, b: u8) -> (c: Color)
        ensures
            c == (Color { r, g, b }),
    {
        Color { r, g, b }
    }
}

/// A fully colored pixel grid in row-major order: the pixel at `(x, y)`
/// sits at index `y * width + x`.
pub struct Raster {
    pub width: u32,
    pub height: u32,
    pub pixels: Vec<Color>,
}

impl Raster {
    /// Row-major index of the pixel at `(x, y)`.
    pub open spec fn spec_idx(&self, x: int, y: int) -> int {
        y * (self.width as int) + x
    }

    pub open spec fn wf(&self) -> bool {
        self.pixels@.len() == (self.width as int) * (self.height as int)
    }

    pub fn new(width: u32, height: u32, fill: Color) -> (r: Raster)
        requires
            (width as int) * (height as int) <= usize::MAX,
        ensures
            r.wf(),
            r.width == width,
            r.height == height,
            forall|i: int| 0 <= i < r.pixels@.len() ==> r.pixels@[i] == fill,
    {
        let n: usize = (width as usize) * (height as usize);
        let mut pixels: Vec<Color> = Vec::new();
        let mut i: usize = 0;
        while i < n
            invariant
                i <= n,
                pixels@.len() == i,
                forall|j: int| 0 <= j < i ==> pixels@[j] == fill,
            decreases n - i,
        {
            pixels.push(fill);
            i = i + 1;
        }
        Raster { width, height, pixels }
    }

    pub fn get(&self, x: u32, y: u32) -> (c: Color)
        requires
            self.wf(),
            x < self.width,
            y < self.height,
        ensures
            c == self.pixels@[self.spec_idx(x as int, y as int)],
    {
        let _len: usize = self.pixels.len();
        proof {
            lemma_row_major_in_range(x as int, y as int, self.width as int, self.height as int);
        }
        let i: usize = (y as usize) * (self.width as usize) + (x as usize);
        self.pixels[i]
    }

    pub fn set(&mut self, x: u32, y: u32, c: Color)
        requires
            old(self).wf(),
            x < old(self).width,
            y < old(self).height,
        ensures
            final(self).wf(),
            final(self).width == old(self).width,
            final(self).height == old(self).height,
            final(self).pixels@ == old(self).pixels@.update(
                old(self).spec_idx(x as int, y as int),
                c,
            ),
    {
        let _len: usize = self.pixels.len();
        proof {
            lemma_row_major_in_range(x as int, y as int, self.width as int, self.height as int);
        }
        let i: usize = (y as usize) * (self.width as usize) + (x as usize);
        self.pixels.set(i, c);
    }
}

/// A row-major index formed from coordinates inside a `w` by `h` grid lies
/// inside the grid's cell vector.
pub proof fn lemma_row_major_in_range(x: int, y: int, w: int, h: int)
    requires
        0 <= x < w,
        0 <= y < h,
    ensures
        0 <= y * w + x < w * h,
{
    assert(y * w + x < w * h) by (nonlinear_arith)
        requires
            0 <= x < w,
            0 <= y < h,
    ;
    assert(y * w + x >= 0) by (nonlinear_arith)
        requires
            0 <= x,
            0 <= y,
            0 < w,
    ;
}

/// An output canvas: each cell is either unpainted or holds the palette
/// index of the first strand that crossed it.
pub struct Canvas {
    pub width: u32,
    pub height: u32,
    pub cells: Vec<Option<usize>>,
}

impl Canvas {
    pub open spec fn spec_idx(&self, x: int, y: int) -> int {
        y * (self.width as int) + x
    }

    pub open spec fn wf(&self) -> bool {
        self.cells@.len() == (self.width as int) * (self.height as int)
    }

    /// A fresh canvas with every cell unpainted.
    pub fn new(width: u32, height: u32) -> (r: Canvas)
        requires
            (width as int) * (height as int) <= usize::MAX,
        ensures
            r.wf(),
            r.width == width,
            r.height == height,
            forall|i: int| 0 <= i < r.cells@.len() ==> r.cells@[i] is None,
    {
        let n: usize = (width as usize) * (height as usize);
        let mut cells: Vec<Option<usize>> = Vec::new();
        let mut i: usize = 0;
        while i < n
            invariant
                i <= n,
                cells@.len() == i,
                forall|j: int| 0 <= j < i ==> cells@[j] is None,
            decreases n - i,
        {
            cells.push(None);
            i = i + 1;
        }
        Canvas { width, height, cells }
    }

    pub fn get(&self, x: u32, y: u32) -> (c: Option<usize>)
        requires
            self.wf(),
            x < self.width,
            y < self.height,
        ensures
            c == self.cells@[self.spec_idx(x as int, y as int)],
    {
        let _len: usize = self.cells.len();
        proof {
            lemma_row_major_in_range(x as int, y as int, self.width as int, self.height as int);
        }
        let i: usize = (y as usize) * (self.width as usize) + (x as usize);
        self.cells[i]
    }
}

} // verus!
