//! Rendering a picture as a mosaic of tiles.
//!
//! Each pixel of the picture becomes a square of 16×16 pixels: a copy of the
//! tile that matches the pixel's colour best, under the pixel's own alpha. A
//! fully transparent pixel leaves its square blank.

use vstd::prelude::*;
use crate::color::{get_lab, pixel_lab};
use crate::pixel::{lemma_cell_in_grid, Image, Rgba, TILE};
use crate::resolver::{closest_index, winner_of};
use crate::signature::{
    candidate_views,
    get_average_colors,
    lemma_palette_nonempty,
    palette_of,
    some_eligible,
    Candidate,
    Palette,
    PaletteView,
};

verus! {

/// The pixel in column `x` of row `y` of the mosaic of a picture that is
/// `width` pixels wide.
pub open spec fn mosaic_pixel(
    pixels: Seq<Rgba>,
    width: int,
    palette: PaletteView,
    x: int,
    y: int,
) -> Rgba {
    let source = pixels[(y / 16) * width + x / 16];
    if source.a == 0 {
        Rgba::clear()
    } else {
        let tile = palette.tiles[winner_of(pixel_lab(source), palette.signatures) as int];
        tile[(y % 16) * 16 + x % 16].with_alpha(source.a)
    }
}

/// The pixel in column `x` of row `y` of a mosaic put together from chosen
/// tiles: `choices[m]` is the place in `tiles` of the tile for the pixel
/// stored at place `m` of a picture that is `width` pixels wide.
pub open spec fn composed_pixel(
    pixels: Seq<Rgba>,
    width: int,
    tiles: Seq<Seq<Rgba>>,
    choices: Seq<usize>,
    x: int,
    y: int,
) -> Rgba {
    let cell = (y / 16) * width + x / 16;
    let source = pixels[cell];
    if source.a == 0 {
        Rgba::clear()
    } else {
        tiles[choices[cell] as int][(y % 16) * 16 + x % 16].with_alpha(source.a)
    }
}

/// A side of a picture, scaled up for its mosaic.
pub open spec fn scaled(side: nat) -> nat {
    side * 16
}

/// `out` is the mosaic of `image` out of the tiles of `palette`: 16 times as
/// wide and as high, and made of the pixels that [`mosaic_pixel`] gives.
pub open spec fn is_mosaic(out: &Image, image: &Image, palette: PaletteView) -> bool {
    &&& out.wf()
    &&& out.width == scaled(image.width as nat)
    &&& out.height == scaled(image.height as nat)
    &&& forall|x: int, y: int|
        0 <= x < out.width && 0 <= y < out.height ==> #[trigger] out.at(x, y) == mosaic_pixel(
            image@.pixels,
            image.width as int,
            palette,
            x,
            y,
        )
}

/// The picture is well formed, and the sides of its mosaic fit the type of
/// a side.
pub open spec fn fits(image: &Image) -> bool {
    &&& image.wf()
    &&& scaled(image.width as nat) <= u32::MAX
    &&& scaled(image.height as nat) <= u32::MAX
}

/// The picture can be rendered with the palette: it fits, and there is a
/// tile to choose unless nothing of the picture shows.
pub open spec fn can_render(image: &Image, palette: PaletteView) -> bool {
    fits(image) && (palette.signatures.len() > 0 || image.is_blank())
}

/// The number of pixels in the mosaics of some pictures.
pub open spec fn output_pixels(images: Seq<Image>) -> nat
    decreases images.len(),
{
    if images.len() == 0 {
        0
    } else {
        output_pixels(images.drop_last()) + scaled(images.last().width as nat) * scaled(
            images.last().height as nat,
        )
    }
}

/// Tells whether the picture can be rendered with the palette.
pub fn renderable(image: &Image, palette: &Palette) -> (yes: bool)
    ensures
        yes == can_render(image, palette@),
{
    assert(image.width * image.height <= u32::MAX * u32::MAX) by (nonlinear_arith)
        requires
            0 <= image.width <= u32::MAX,
            0 <= image.height <= u32::MAX,
    ;
    let cells: u64 = (image.width as u64) * (image.height as u64);
    if image.pixels.len() as u64 != cells {
        return false;
    }
    if image.width > u32::MAX / TILE || image.height > u32::MAX / TILE {
        return false;
    }
    if palette.signatures.len() > 0 {
        return true;
    }
    let mut i: usize = 0;
    while i < image.pixels.len()
        invariant
            palette.signatures@.len() == 0,
            i <= image@.pixels.len(),
            forall|j: int| 0 <= j < i ==> (#[trigger] image@.pixels[j]).a == 0,
        decreases image@.pixels.len() - i,
    {
        if image.pixels[i].a != 0 {
            assert(image@.pixels[i as int].a != 0);
            assert(palette@.signatures.len() == 0);
            return false;
        }
        i += 1;
    }
    true
}

/// For every pixel that shows, the place in the palette of the tile that
/// matches it best.
fn choose_tiles(image: &Image, palette: &Palette) -> (choices: Vec<usize>)
    requires
        palette.wf(),
        palette@.signatures.len() > 0 || image.is_blank(),
    ensures
        choices@.len() == image@.pixels.len(),
        forall|m: int|
            0 <= m < image@.pixels.len() && image@.pixels[m].a != 0 ==> #[trigger] choices@[m]
                == winner_of(
                pixel_lab(image@.pixels[m]),
                palette@.signatures,
            ) && choices@[m] < palette@.tiles.len(),
{
    let mut choices: Vec<usize> = Vec::new();
    let mut m: usize = 0;
    while m < image.pixels.len()
        invariant
            palette.wf(),
            palette@.signatures.len() > 0 || image.is_blank(),
            m <= image@.pixels.len(),
            choices@.len() == m,
            forall|j: int|
                0 <= j < m && image@.pixels[j].a != 0 ==> #[trigger] choices@[j] == winner_of(
                    pixel_lab(image@.pixels[j]),
                    palette@.signatures,
                ) && choices@[j] < palette@.tiles.len(),
        decreases image@.pixels.len() - m,
    {
        let source: Rgba = image.pixels[m];
        let choice: usize = if source.a == 0 {
            0
        } else {
            let lab = get_lab(source);
            closest_index(&lab, &palette.signatures)
        };
        choices.push(choice);
        m += 1;
    }
    choices
}

/// Puts a mosaic together from tiles that have been chosen: `choices[m]` is
/// the place in `tiles` of the tile for the pixel stored at place `m`.
///
/// The square that stands for a pixel is blank where the pixel is fully
/// transparent; elsewhere it shows the chosen tile, with the pixel's alpha in
/// place of the tile's.
pub fn compose(image: &Image, tiles: &Vec<Image>, choices: &Vec<usize>) -> (out: Image)
    requires
        fits(image),
        choices@.len() == image@.pixels.len(),
        forall|i: int|
            0 <= i < tiles@.len() ==> (#[trigger] tiles@[i]).wf() && tiles@[i].is_tile(),
        forall|m: int|
            0 <= m < image@.pixels.len() && image@.pixels[m].a != 0 ==> (#[trigger] choices@[m])
                < tiles@.len(),
    ensures
        out.wf(),
        out.width == scaled(image.width as nat),
        out.height == scaled(image.height as nat),
        forall|x: int, y: int|
            0 <= x < out.width && 0 <= y < out.height ==> #[trigger] out.at(x, y)
                == composed_pixel(
                image@.pixels,
                image.width as int,
                tiles@.map_values(|t: Image| t@.pixels),
                choices@,
                x,
                y,
            ),
{
    let ghost views = tiles@.map_values(|t: Image| t@.pixels);
    let width: u32 = image.width * TILE;
    let height: u32 = image.height * TILE;
    let mut pixels: Vec<Rgba> = Vec::new();
    let mut y: u32 = 0;
    while y < height
        invariant
            image.wf(),
            views == tiles@.map_values(|t: Image| t@.pixels),
            width == image.width * TILE,
            height == image.height * TILE,
            choices@.len() == image@.pixels.len(),
            forall|i: int|
                0 <= i < tiles@.len() ==> (#[trigger] tiles@[i]).wf() && tiles@[i].is_tile(),
            forall|m: int|
                0 <= m < image@.pixels.len() && image@.pixels[m].a != 0 ==> (#[trigger] choices@[m])
                    < tiles@.len(),
            y <= height,
            pixels@.len() == y * width,
            forall|i: int, j: int|
                0 <= i < width && 0 <= j < y ==> pixels@[j * width + i]
                    == #[trigger] composed_pixel(
                    image@.pixels,
                    image.width as int,
                    views,
                    choices@,
                    i,
                    j,
                ),
        decreases height - y,
    {
        let ghost base = pixels@;
        let mut x: u32 = 0;
        while x < width
            invariant
                image.wf(),
                views == tiles@.map_values(|t: Image| t@.pixels),
                width == image.width * TILE,
                height == image.height * TILE,
                choices@.len() == image@.pixels.len(),
                forall|i: int|
                    0 <= i < tiles@.len() ==> (#[trigger] tiles@[i]).wf() && tiles@[i].is_tile(),
                forall|m: int|
                    0 <= m < image@.pixels.len() && image@.pixels[m].a != 0 ==> (
                    #[trigger] choices@[m]) < tiles@.len(),
                y < height,
                x <= width,
                pixels@.len() == base.len() + x,
                forall|m: int| 0 <= m < base.len() ==> pixels@[m] == base[m],
                forall|i: int|
                    0 <= i < x ==> pixels@[base.len() + i] == #[trigger] composed_pixel(
                        image@.pixels,
                        image.width as int,
                        views,
                        choices@,
                        i,
                        y as int,
                    ),
            decreases width - x,
        {
            proof {
                lemma_cell_in_grid(
                    (x / 16) as int,
                    (y / 16) as int,
                    image.width as int,
                    image.height as int,
                );
                assert(image.pixels.len() == image@.pixels.len());
            }
            let cell: usize = (y / TILE) as usize * image.width as usize + (x / TILE) as usize;
            let source: Rgba = image.pixels[cell];
            let pixel = if source.a == 0 {
                Rgba { r: 0, g: 0, b: 0, a: 0 }
            } else {
                let tile = &tiles[choices[cell]];
                assert(tile.pixels@.len() == 256) by {
                    assert(tile.wf() && tile.is_tile());
                    assert(tile.width * tile.height == 256) by (nonlinear_arith)
                        requires
                            tile.width == 16,
                            tile.height == 16,
                    ;
                }
                let spot: usize = ((y % TILE) * TILE + x % TILE) as usize;
                let colour: Rgba = tile.pixels[spot];
                Rgba { r: colour.r, g: colour.g, b: colour.b, a: source.a }
            };
            assert(pixel == composed_pixel(
                image@.pixels,
                image.width as int,
                views,
                choices@,
                x as int,
                y as int,
            ));
            pixels.push(pixel);
            x += 1;
        }
        proof {
            assert(y * width + width == (y + 1) * width) by (nonlinear_arith);
            assert forall|i: int, j: int| 0 <= i < width && 0 <= j < y + 1 implies pixels@[j
                * width + i] == #[trigger] composed_pixel(
                image@.pixels,
                image.width as int,
                views,
                choices@,
                i,
                j,
            ) by {
                if j < y {
                    lemma_cell_in_grid(i, j, width as int, y as int);
                    assert(pixels@[j * width + i] == base[j * width + i]);
                } else {
                    assert(pixels@[base.len() + i] == composed_pixel(
                        image@.pixels,
                        image.width as int,
                        views,
                        choices@,
                        i,
                        y as int,
                    ));
                }
            }
        }
        y += 1;
    }
    proof {
        assert(height * width == width * height) by (nonlinear_arith);
    }
    Image { width, height, pixels }
}

/// Renders `image` as a mosaic of tiles from `palette`.
///
/// The mosaic is 16 times as wide and as high as the picture. The square
/// that stands for a pixel is blank where the pixel is fully transparent;
/// elsewhere it shows the best matching tile, with the pixel's alpha in place
/// of the tile's.
pub fn blockify_image(image: &Image, palette: &Palette) -> (out: Image)
    requires
        palette.wf(),
        can_render(image, palette@),
    ensures
        is_mosaic(&out, image, palette@),
{
    let choices = choose_tiles(image, palette);
    let out = compose(image, &palette.tiles, &choices);
    proof {
        assert forall|x: int, y: int|
            0 <= x < out.width && 0 <= y < out.height implies composed_pixel(
            image@.pixels,
            image.width as int,
            palette@.tiles,
            choices@,
            x,
            y,
        ) == mosaic_pixel(image@.pixels, image.width as int, palette@, x, y) by {
            lemma_cell_in_grid(x / 16, y / 16, image.width as int, image.height as int);
        }
    }
    out
}

/// How many pixels of mosaic have been written since the run began.
#[derive(Clone, Copy, Debug, PartialEq, Eq, Structural)]
pub struct RunningPixelCounter {
    pub total: u128,
}

impl RunningPixelCounter {
    /// A counter for a new run.
    pub fn new() -> (counter: RunningPixelCounter)
        ensures
            counter.total == 0,
    {
        RunningPixelCounter { total: 0 }
    }

    /// Counts the pixels of a finished mosaic.
    pub fn record(&mut self, mosaic: &Image)
        requires
            old(self).total + mosaic.width * mosaic.height <= u128::MAX,
        ensures
            final(self).total == old(self).total + mosaic.width * mosaic.height,
    {
        assert(mosaic.width * mosaic.height <= u32::MAX * u32::MAX) by (nonlinear_arith)
            requires
                0 <= mosaic.width <= u32::MAX,
                0 <= mosaic.height <= u32::MAX,
        ;
        let written: u64 = (mosaic.width as u64) * (mosaic.height as u64);
        self.total = self.total + written as u128;
    }
}

/// Renders every picture as a mosaic of tiles from `palette` and counts the
/// pixels written.
pub fn blockify_images(
    images: &Vec<Image>,
    palette: &Palette,
    counter: &mut RunningPixelCounter,
) -> (mosaics: Vec<Image>)
    requires
        palette.wf(),
        forall|i: int| 0 <= i < images@.len() ==> can_render(#[trigger] &images@[i], palette@),
        old(counter).total + output_pixels(images@) <= u128::MAX,
    ensures
        mosaics@.len() == images@.len(),
        forall|i: int|
            0 <= i < images@.len() ==> is_mosaic(#[trigger] &mosaics@[i], &images@[i], palette@),
        final(counter).total == old(counter).total + output_pixels(images@),
{
    let mut mosaics: Vec<Image> = Vec::new();
    let mut i: usize = 0;
    assert(images@.take(0) =~= Seq::empty());
    while i < images.len()
        invariant
            palette.wf(),
            forall|j: int| 0 <= j < images@.len() ==> can_render(#[trigger] &images@[j], palette@),
            old(counter).total + output_pixels(images@) <= u128::MAX,
            i <= images@.len(),
            mosaics@.len() == i,
            forall|j: int|
                0 <= j < i ==> is_mosaic(#[trigger] &mosaics@[j], &images@[j], palette@),
            counter.total == old(counter).total + output_pixels(images@.take(i as int)),
        decreases images@.len() - i,
    {
        proof {
            assert(images@.take(i + 1).drop_last() =~= images@.take(i as int));
            lemma_output_pixels_grow(images@, i + 1);
        }
        let mosaic = blockify_image(&images[i], palette);
        counter.record(&mosaic);
        mosaics.push(mosaic);
        i += 1;
    }
    assert(images@.take(images@.len() as int) =~= images@);
    mosaics
}

/// The mosaics of more pictures have no fewer pixels.
pub proof fn lemma_output_pixels_grow(images: Seq<Image>, n: int)
    requires
        0 <= n <= images.len(),
    ensures
        output_pixels(images.take(n)) <= output_pixels(images),
    decreases images.len() - n,
{
    if n < images.len() {
        assert(images.take(n + 1).drop_last() =~= images.take(n));
        lemma_output_pixels_grow(images, n + 1);
    } else {
        assert(images.take(n) =~= images);
    }
}

/// The mosaic of a picture that fits has fewer than `2^64` pixels, so the
/// mosaics of some such pictures have fewer than `2^64` pixels apiece.
pub proof fn lemma_output_pixels_bounded(images: Seq<Image>)
    requires
        forall|i: int| 0 <= i < images.len() ==> fits(#[trigger] &images[i]),
    ensures
        output_pixels(images) <= images.len() * 0xffff_fffe_0000_0001,
    decreases images.len(),
{
    if images.len() > 0 {
        let front = images.drop_last();
        assert forall|i: int| 0 <= i < front.len() implies fits(#[trigger] &front[i]) by {
            assert(front[i] == images[i]);
        }
        lemma_output_pixels_bounded(front);
        let last = images.last();
        assert(fits(&images[images.len() - 1]));
        let w = scaled(last.width as nat);
        let h = scaled(last.height as nat);
        assert(w * h <= 0xffff_fffe_0000_0001) by (nonlinear_arith)
            requires
                w <= 0xffff_ffff,
                h <= 0xffff_ffff,
        ;
        assert(front.len() * 0xffff_fffe_0000_0001 + 0xffff_fffe_0000_0001 == images.len()
            * 0xffff_fffe_0000_0001) by (nonlinear_arith)
            requires
                front.len() + 1 == images.len(),
        ;
    }
}

/// One run: builds the palette from the candidates, then renders every
/// picture as a mosaic of its tiles. Returns the mosaics, in the pictures'
/// order, and the number of pixels written.
pub fn blockify(blocks: &Vec<Candidate>, textures: &Vec<Image>) -> (out: (
    Vec<Image>,
    RunningPixelCounter,
))
    requires
        forall|i: int| 0 <= i < blocks@.len() ==> (#[trigger] blocks@[i]).image.wf(),
        forall|i: int| 0 <= i < textures@.len() ==> fits(#[trigger] &textures@[i]),
        some_eligible(candidate_views(blocks@)) || forall|i: int|
            0 <= i < textures@.len() ==> (#[trigger] textures@[i]).is_blank(),
    ensures
        out.0@.len() == textures@.len(),
        forall|i: int|
            0 <= i < textures@.len() ==> is_mosaic(
                #[trigger] &out.0@[i],
                &textures@[i],
                palette_of(candidate_views(blocks@)),
            ),
        out.1.total == output_pixels(textures@),
{
    let palette = get_average_colors(blocks);
    proof {
        lemma_palette_nonempty(candidate_views(blocks@));
        lemma_output_pixels_bounded(textures@);
        assert(textures.len() == textures@.len());
        assert(textures@.len() * 0xffff_fffe_0000_0001 <= u128::MAX) by (nonlinear_arith)
            requires
                textures@.len() <= 0xffff_ffff_ffff_ffff,
        ;
    }
    let mut counter = RunningPixelCounter::new();
    let mosaics = blockify_images(textures, &palette, &mut counter);
    (mosaics, counter)
}

/// Where a pixel is fully transparent, its square of the mosaic is blank.
pub proof fn lemma_transparent_square(
    pixels: Seq<Rgba>,
    width: int,
    palette: PaletteView,
    column: int,
    row: int,
    x: int,
    y: int,
)
    requires
        0 <= column,
        0 <= row,
        pixels[row * width + column].a == 0,
        16 * column <= x < 16 * column + 16,
        16 * row <= y < 16 * row + 16,
    ensures
        mosaic_pixel(pixels, width, palette, x, y) == Rgba::clear(),
{
}

/// Where a pixel shows, its square of the mosaic has the colours of the
/// tile that matches the pixel best, place by place, and the pixel's alpha;
/// so a fully opaque pixel gives a fully opaque square.
pub proof fn lemma_showing_square(
    pixels: Seq<Rgba>,
    width: int,
    palette: PaletteView,
    column: int,
    row: int,
    i: int,
    j: int,
)
    requires
        0 <= column,
        0 <= row,
        pixels[row * width + column].a != 0,
        0 <= i < 16,
        0 <= j < 16,
    ensures
        ({
            let source = pixels[row * width + column];
            let tile = palette.tiles[winner_of(pixel_lab(source), palette.signatures) as int];
            let pixel = mosaic_pixel(pixels, width, palette, 16 * column + i, 16 * row + j);
            &&& pixel.r == tile[j * 16 + i].r
            &&& pixel.g == tile[j * 16 + i].g
            &&& pixel.b == tile[j * 16 + i].b
            &&& pixel.a == source.a
        }),
{
}

/// The mosaic of a mosaic is 256 times as wide and as high as the picture.
pub proof fn lemma_scaled_twice(side: nat)
    ensures
        scaled(scaled(side)) == 256 * side,
{
}

} // verus!
