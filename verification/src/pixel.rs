//! Pixels and pixel grids.

use vstd::prelude::*;

verus! {

/// Side length, in pixels, of a tile.
pub const TILE: u32 = 16;

/// Alpha value of a fully opaque pixel.
pub const OPAQUE: u8 = 255;

/// One pixel: red, green, blue and alpha, eight bits each.
#[derive(Clone, Copy, Debug, PartialEq, Eq, Structural)]
pub struct Rgba {
    pub r: u8,
    pub g: u8,
    pub b: u8,
    pub a: u8,
}

impl Rgba {
    /// The pixel that a blank canvas is made of.
    pub open spec fn clear() -> Rgba {
        Rgba { r: 0, g: 0, b: 0, a: 0 }
    }

    /// This pixel's colour under another alpha.
    pub open spec fn with_alpha(self, a: u8) -> Rgba {
        Rgba { r: self.r, g: self.g, b: self.b, a }
    }
}

/// No pixel lets anything show through.
pub open spec fn all_opaque(pixels: Seq<Rgba>) -> bool {
    forall|i: int| 0 <= i < pixels.len() ==> (#[trigger] pixels[i]).a == OPAQUE
}

/// Every pixel is fully transparent.
pub open spec fn all_clear(pixels: Seq<Rgba>) -> bool {
    forall|i: int| 0 <= i < pixels.len() ==> (#[trigger] pixels[i]).a == 0
}

/// A grid of pixels, stored row by row from the top left corner.
#[derive(Clone, Debug, PartialEq, Eq)]
pub struct Image {
    pub width: u32,
    pub height: u32,
    pub pixels: Vec<Rgba>,
}

/// What an [`Image`] holds: its sides and its pixels, row by row.
pub struct ImageView {
    pub width: nat,
    pub height: nat,
    pub pixels: Seq<Rgba>,
}

impl View for Image {
    type V = ImageView;

    open spec fn view(&self) -> ImageView {
        ImageView {
            width: self.width as nat,
            height: self.height as nat,
            pixels: self.pixels@,
        }
    }
}

impl Image {
    /// There is exactly one stored pixel per grid cell.
    pub open spec fn wf(&self) -> bool {
        self.pixels@.len() == self.width * self.height
    }

    /// The pixel in column `x` of row `y`.
    pub open spec fn at(&self, x: int, y: int) -> Rgba {
        self.pixels@[y * self.width + x]
    }

    /// The grid has the shape of a tile.
    pub open spec fn is_tile(&self) -> bool {
        self.width == TILE && self.height == TILE
    }

    /// No pixel lets anything show through.
    pub open spec fn is_opaque(&self) -> bool {
        all_opaque(self@.pixels)
    }

    /// Every pixel is fully transparent.
    pub open spec fn is_blank(&self) -> bool {
        all_clear(self@.pixels)
    }

    /// Builds an image from its rows laid end to end; `None` when the number
    /// of pixels does not match the dimensions.
    pub fn new(width: u32, height: u32, pixels: Vec<Rgba>) -> (image: Option<Image>)
        ensures
            image.is_some() <==> pixels@.len() == width * height,
            image matches Some(img) ==> img.wf() && img@ == (ImageView {
                width: width as nat,
                height: height as nat,
                pixels: pixels@,
            }),
    {
        assert(width * height <= u32::MAX * u32::MAX) by (nonlinear_arith)
            requires
                0 <= width <= u32::MAX,
                0 <= height <= u32::MAX,
        ;
        let cells: u64 = (width as u64) * (height as u64);
        if pixels.len() as u64 == cells {
            Some(Image { width, height, pixels })
        } else {
            None
        }
    }

    /// A copy of this image.
    pub fn duplicate(&self) -> (copy: Image)
        ensures
            copy@ == self@,
    {
        let mut pixels: Vec<Rgba> = Vec::new();
        let mut i: usize = 0;
        while i < self.pixels.len()
            invariant
                i <= self.pixels@.len(),
                pixels@ == self.pixels@.take(i as int),
            decreases self.pixels@.len() - i,
        {
            pixels.push(self.pixels[i]);
            i += 1;
            assert(pixels@ =~= self.pixels@.take(i as int));
        }
        assert(self.pixels@.take(self.pixels@.len() as int) =~= self.pixels@);
        Image { width: self.width, height: self.height, pixels }
    }

    /// The pixel in column `x` of row `y`.
    pub fn pixel(&self, x: u32, y: u32) -> (p: Rgba)
        requires
            self.wf(),
            x < self.width,
            y < self.height,
        ensures
            p == self.at(x as int, y as int),
    {
        proof {
            lemma_cell_in_grid(x as int, y as int, self.width as int, self.height as int);
            assert(self.pixels.len() == self.pixels@.len());
        }
        let row: usize = (y as usize) * (self.width as usize);
        self.pixels[row + x as usize]
    }
}

/// A cell of a `w` by `h` grid has its place among the `w * h` stored pixels.
pub proof fn lemma_cell_in_grid(x: int, y: int, w: int, h: int)
    requires
        0 <= x < w,
        0 <= y < h,
    ensures
        0 <= y * w <= y * w + x < w * h,
{
    assert(0 <= y * w) by (nonlinear_arith)
        requires
            0 <= y,
            0 <= w,
    ;
    assert(y * w + w <= w * h) by (nonlinear_arith)
        requires
            y + 1 <= h,
            0 <= w,
    ;
}

} // verus!
