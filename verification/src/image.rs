use vstd::prelude::*;

use crate::color::Color;

verus! {

/// The mathematical view of an image: its bounds and its pixels in
/// row-major order (index = x + y * width).
pub ghost struct ImageV {
    pub width: int,
    pub height: int,
    pub pixels: Seq<Color>,
}

impl ImageV {
    /// Bounds fit the header's 32-bit fields and the pixel sequence fills
    /// the grid exactly.
    pub open spec fn wf(self) -> bool {
        &&& 0 <= self.width <= u32::MAX
        &&& 0 <= self.height <= u32::MAX
        &&& self.pixels.len() == self.width * self.height
    }
}

/// An in-memory pixel grid: the codec's input and output. Constructors
/// establish `wf` of the view and every method keeps it.
#[derive(Debug, PartialEq, Eq)]
pub struct Image {
    pub width: u32,
    pub height: u32,
    pub pixels: Vec<Color>,
}

impl View for Image {
    type V = ImageV;

    open spec fn view(&self) -> ImageV {
        ImageV { width: self.width as int, height: self.height as int, pixels: self.pixels@ }
    }
}

impl Image {
    /// Builds an image from its bounds and row-major pixels; `None` when the
    /// pixel count does not match the bounds.
    pub fn new(width: u32, height: u32, pixels: Vec<Color>) -> (r: Option<Image>)
        ensures
            match r {
                Some(img) => img@.wf() && img@ == (ImageV {
                    width: width as int,
                    height: height as int,
                    pixels: pixels@,
                }),
                None => pixels@.len() != width as int * height as int,
            },
    {
        proof {
            assert((width as u64) * (height as u64) <= u64::MAX) by (nonlinear_arith)
                requires
                    width <= u32::MAX && height <= u32::MAX,
            ;
        }
        let need: u64 = (width as u64) * (height as u64);
        if pixels.len() as u64 != need {
            return None;
        }
        Some(Image { width, height, pixels })
    }

    /// A uniform image: every pixel is `fill`.
    pub fn filled(width: u32, height: u32, fill: Color) -> (r: Image)
        ensures
            r@.wf(),
            r@.width == width as int,
            r@.height == height as int,
            forall|i: int| 0 <= i < r@.pixels.len() ==> r@.pixels[i] == fill,
    {
        proof {
            assert((width as u64) * (height as u64) <= u64::MAX) by (nonlinear_arith)
                requires
                    width <= u32::MAX && height <= u32::MAX,
            ;
        }
        let need: u64 = (width as u64) * (height as u64);
        let mut pixels: Vec<Color> = Vec::new();
        let mut k: u64 = 0;
        while k < need
            invariant
                k <= need,
                pixels@.len() == k,
                forall|i: int| 0 <= i < k ==> pixels@[i] == fill,
            decreases need - k,
        {
            pixels.push(fill);
            k += 1;
        }
        Image { width, height, pixels }
    }

    pub fn width(&self) -> (w: u32)
        ensures
            w as int == self@.width,
    {
        self.width
    }

    pub fn height(&self) -> (h: u32)
        ensures
            h as int == self@.height,
    {
        self.height
    }

    /// The pixel at column x, row y.
    pub fn get(&self, x: u32, y: u32) -> (c: Color)
        requires
            self@.wf(),
            x < self@.width,
            y < self@.height,
        ensures
            c == self@.pixels[x + y * self@.width],
    {
        proof {
            lemma_row_major_in_bounds(x as int, y as int, self@.width, self@.height);
        }
        let idx: u64 = (x as u64) + (y as u64) * (self.width as u64);
        proof {
            assert(self.pixels.len() == self.pixels@.len());
            assert(idx < self.pixels@.len());
        }
        self.pixels[idx as usize]
    }

    /// Overwrites the pixel at column x, row y.
    pub fn set(&mut self, x: u32, y: u32, c: Color)
        requires
            old(self)@.wf(),
            x < old(self)@.width,
            y < old(self)@.height,
        ensures
            final(self)@.wf(),
            final(self)@.width == old(self)@.width,
            final(self)@.height == old(self)@.height,
            final(self)@.pixels == old(self)@.pixels.update(x + y * old(self)@.width, c),
    {
        proof {
            lemma_row_major_in_bounds(x as int, y as int, self@.width, self@.height);
        }
        let idx: u64 = (x as u64) + (y as u64) * (self.width as u64);
        proof {
            assert(self.pixels.len() == self.pixels@.len());
            assert(idx < self.pixels@.len());
        }
        self.pixels[idx as usize] = c;
    }

    /// The pixels in row-major order.
    pub fn pixels(&self) -> (p: &Vec<Color>)
        ensures
            p@ == self@.pixels,
    {
        &self.pixels
    }
}

/// A row-major index is inside the grid, and the grid fits in 64 bits.
proof fn lemma_row_major_in_bounds(x: int, y: int, w: int, h: int)
    requires
        0 <= x < w,
        0 <= y < h,
        w <= u32::MAX,
        h <= u32::MAX,
    ensures
        0 <= y * w,
        x + y * w < w * h,
        w * h <= u64::MAX,
{
    assert(0 <= y * w && x + y * w < w * h && w * h <= 0xffffffff * 0xffffffff) by (nonlinear_arith)
        requires
            0 <= x < w && 0 <= y < h && w <= 0xffffffff && h <= 0xffffffff,
    ;
}

} // verus!
