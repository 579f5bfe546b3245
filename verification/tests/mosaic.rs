use blockify::mosaic::renderable;
use blockify::{
    block_signature, blockify, blockify_image, blockify_images, compose, get_average_colors,
    Candidate, Image, Palette, Rgba, RunningPixelCounter,
};

const CLEAR: Rgba = Rgba { r: 0, g: 0, b: 0, a: 0 };
const RED: Rgba = Rgba { r: 255, g: 0, b: 0, a: 255 };
const BLUE: Rgba = Rgba { r: 0, g: 0, b: 255, a: 255 };

fn solid(width: u32, height: u32, pixel: Rgba) -> Image {
    Image { width, height, pixels: vec![pixel; (width * height) as usize] }
}

fn candidate(path: &str, image: Image) -> Candidate {
    Candidate { path: path.to_string(), image }
}

/// A tile in shades of one colour, different at every place.
fn shaded(red: bool) -> Image {
    let mut pixels = Vec::new();
    for i in 0..256u32 {
        let shade = (100 + i / 2) as u8;
        let low = (i % 16) as u8;
        pixels.push(if red {
            Rgba { r: shade, g: low, b: 0, a: 255 }
        } else {
            Rgba { r: 0, g: low, b: shade, a: 255 }
        });
    }
    Image { width: 16, height: 16, pixels }
}

fn red_and_blue() -> Palette {
    get_average_colors(&vec![candidate("red.png", shaded(true)), candidate("blue.png", shaded(false))])
}

#[test]
fn one_blue_pixel_becomes_one_blue_tile() {
    let blue = Rgba { r: 0, g: 0, b: 255, a: 255 };
    let blocks = vec![candidate("blue.png", solid(16, 16, blue))];
    let target = solid(1, 1, Rgba { r: 0, g: 0, b: 255, a: 200 });
    let (mosaics, counter) = blockify(&blocks, &vec![target]);
    assert_eq!(mosaics.len(), 1);
    assert_eq!(mosaics[0].width, 16);
    assert_eq!(mosaics[0].height, 16);
    assert_eq!(mosaics[0].pixels.len(), 256);
    for p in mosaics[0].pixels.iter() {
        assert_eq!(*p, Rgba { r: 0, g: 0, b: 255, a: 200 });
    }
    assert_eq!(counter.total, 256);
}

#[test]
fn a_transparent_pixel_leaves_its_square_blank() {
    let palette = red_and_blue();
    let target = Image { width: 2, height: 1, pixels: vec![Rgba { r: 255, g: 0, b: 0, a: 0 }, RED] };
    let mosaic = blockify_image(&target, &palette);
    assert_eq!((mosaic.width, mosaic.height), (32, 16));
    for y in 0..16 {
        for x in 0..16 {
            assert_eq!(mosaic.pixel(x, y), CLEAR);
        }
        for x in 16..32 {
            assert_ne!(mosaic.pixel(x, y), CLEAR);
        }
    }
}

#[test]
fn an_opaque_pixel_shows_its_tile() {
    let palette = red_and_blue();
    let target = Image { width: 2, height: 2, pixels: vec![RED, BLUE, BLUE, RED] };
    let mosaic = blockify_image(&target, &palette);
    assert_eq!((mosaic.width, mosaic.height), (32, 32));
    let red = shaded(true);
    let blue = shaded(false);
    for y in 0..16 {
        for x in 0..16 {
            assert_eq!(mosaic.pixel(x, y), red.pixel(x, y));
            assert_eq!(mosaic.pixel(16 + x, y), blue.pixel(x, y));
            assert_eq!(mosaic.pixel(x, 16 + y), blue.pixel(x, y));
            assert_eq!(mosaic.pixel(16 + x, 16 + y), red.pixel(x, y));
        }
    }
}

#[test]
fn a_faint_pixel_shows_its_tile_faintly() {
    let palette = red_and_blue();
    let target = solid(1, 1, Rgba { r: 250, g: 10, b: 10, a: 1 });
    let mosaic = blockify_image(&target, &palette);
    let red = shaded(true);
    for y in 0..16 {
        for x in 0..16 {
            let t = red.pixel(x, y);
            assert_eq!(mosaic.pixel(x, y), Rgba { r: t.r, g: t.g, b: t.b, a: 1 });
        }
    }
}

#[test]
fn the_tile_supplies_colour_and_the_pixel_alpha() {
    let palette = red_and_blue();
    let target = Image {
        width: 3,
        height: 1,
        pixels: vec![
            Rgba { r: 0, g: 0, b: 250, a: 77 },
            Rgba { r: 9, g: 9, b: 9, a: 0 },
            Rgba { r: 240, g: 0, b: 0, a: 255 },
        ],
    };
    let mosaic = blockify_image(&target, &palette);
    assert_eq!(mosaic.pixels.len(), 48 * 16);
    let red = shaded(true);
    let blue = shaded(false);
    for y in 0..16 {
        for x in 0..16 {
            let b = blue.pixel(x, y);
            let r = red.pixel(x, y);
            assert_eq!(mosaic.pixel(x, y), Rgba { r: b.r, g: b.g, b: b.b, a: 77 });
            assert_eq!(mosaic.pixel(16 + x, y), CLEAR);
            assert_eq!(mosaic.pixel(32 + x, y), Rgba { r: r.r, g: r.g, b: r.b, a: 255 });
        }
    }
}

#[test]
fn a_mosaic_of_a_mosaic_is_256_times_as_wide_and_high() {
    let palette = red_and_blue();
    let target = Image { width: 2, height: 1, pixels: vec![RED, BLUE] };
    let once = blockify_image(&target, &palette);
    assert_eq!((once.width, once.height), (32, 16));
    let twice = blockify_image(&once, &palette);
    assert_eq!((twice.width, twice.height), (512, 256));
    assert_eq!(twice.pixels.len(), 512 * 256);
}

#[test]
fn an_empty_picture_gives_an_empty_mosaic() {
    let palette = red_and_blue();
    let mosaic = blockify_image(&solid(0, 0, CLEAR), &palette);
    assert_eq!((mosaic.width, mosaic.height), (0, 0));
    assert!(mosaic.pixels.is_empty());
    let flat = blockify_image(&solid(3, 0, CLEAR), &palette);
    assert_eq!((flat.width, flat.height), (48, 0));
    assert!(flat.pixels.is_empty());
}

#[test]
fn a_blank_picture_needs_no_palette() {
    let empty = get_average_colors(&Vec::new());
    let mosaic = blockify_image(&solid(2, 3, CLEAR), &empty);
    assert_eq!((mosaic.width, mosaic.height), (32, 48));
    assert_eq!(mosaic.pixels, vec![CLEAR; 32 * 48]);
}

#[test]
fn the_counter_adds_up_the_pixels_written() {
    let palette = red_and_blue();
    let images = vec![solid(1, 1, RED), solid(2, 3, BLUE), solid(0, 5, RED), solid(4, 1, CLEAR)];
    let mut counter = RunningPixelCounter::new();
    assert_eq!(counter.total, 0);
    let mosaics = blockify_images(&images, &palette, &mut counter);
    assert_eq!(mosaics.len(), 4);
    assert_eq!(counter.total, 256 + 6 * 256 + 0 + 4 * 256);
    for i in 0..4 {
        assert_eq!(mosaics[i], blockify_image(&images[i], &palette));
    }
    let again = blockify_images(&images, &palette, &mut counter);
    assert_eq!(again, mosaics);
    assert_eq!(counter.total, 2 * (256 + 6 * 256 + 4 * 256));
}

#[test]
fn the_counter_records_one_mosaic() {
    let mut counter = RunningPixelCounter { total: 10 };
    counter.record(&solid(32, 16, RED));
    assert_eq!(counter.total, 10 + 512);
    counter.record(&solid(0, 16, RED));
    assert_eq!(counter.total, 10 + 512);
}

#[test]
fn a_run_leaves_out_what_cannot_be_a_tile() {
    let clear_tile = solid(16, 16, Rgba { r: 255, g: 0, b: 0, a: 128 });
    let blocks = vec![
        candidate("faint_red.png", clear_tile),
        candidate("big_red.png", solid(32, 32, RED)),
        candidate("blue.png", shaded(false)),
    ];
    // Red would match the first two best, but neither can serve as a tile.
    let (mosaics, counter) = blockify(&blocks, &vec![solid(1, 1, RED)]);
    assert_eq!(mosaics[0].pixels, shaded(false).pixels);
    assert_eq!(counter.total, 256);
}

#[test]
fn a_run_renders_every_picture() {
    let blocks = vec![candidate("red.png", shaded(true)), candidate("blue.png", shaded(false))];
    let textures = vec![solid(1, 2, BLUE), solid(2, 1, RED)];
    let (mosaics, counter) = blockify(&blocks, &textures);
    assert_eq!(mosaics.len(), 2);
    assert_eq!((mosaics[0].width, mosaics[0].height), (16, 32));
    assert_eq!((mosaics[1].width, mosaics[1].height), (32, 16));
    assert_eq!(counter.total, 1024);
    let palette = get_average_colors(&blocks);
    assert_eq!(mosaics[0], blockify_image(&textures[0], &palette));
    assert_eq!(mosaics[1], blockify_image(&textures[1], &palette));
}

#[test]
fn compose_copies_the_chosen_tiles() {
    let tiles = vec![shaded(true), shaded(false)];
    let target = Image {
        width: 2,
        height: 2,
        pixels: vec![RED, Rgba { r: 1, g: 2, b: 3, a: 9 }, CLEAR, BLUE],
    };
    // The choice for a pixel that does not show is never looked at.
    let mosaic = compose(&target, &tiles, &vec![1, 0, 77, 1]);
    assert_eq!((mosaic.width, mosaic.height), (32, 32));
    for y in 0..16 {
        for x in 0..16 {
            let red = tiles[0].pixel(x, y);
            let blue = tiles[1].pixel(x, y);
            assert_eq!(mosaic.pixel(x, y), blue);
            assert_eq!(mosaic.pixel(16 + x, y), Rgba { r: red.r, g: red.g, b: red.b, a: 9 });
            assert_eq!(mosaic.pixel(x, 16 + y), CLEAR);
            assert_eq!(mosaic.pixel(16 + x, 16 + y), blue);
        }
    }
}

#[test]
fn renderable_asks_for_a_tile_where_something_shows() {
    let empty = get_average_colors(&Vec::new());
    let palette = red_and_blue();
    assert!(renderable(&solid(2, 2, RED), &palette));
    assert!(renderable(&solid(2, 2, CLEAR), &palette));
    assert!(renderable(&solid(2, 2, CLEAR), &empty));
    assert!(!renderable(&solid(2, 2, RED), &empty));
    let faint = Image { width: 2, height: 1, pixels: vec![CLEAR, Rgba { r: 0, g: 0, b: 0, a: 1 }] };
    assert!(!renderable(&faint, &empty));
    assert!(renderable(&faint, &palette));
}

#[test]
fn renderable_asks_for_a_well_formed_picture_that_can_be_scaled() {
    let palette = red_and_blue();
    let short = Image { width: 2, height: 2, pixels: vec![RED; 3] };
    assert!(!renderable(&short, &palette));
    let wide = Image { width: 0x1000_0000, height: 0, pixels: Vec::new() };
    assert!(!renderable(&wide, &palette));
    let high = Image { width: 0, height: 0x1000_0000, pixels: Vec::new() };
    assert!(!renderable(&high, &palette));
    let widest = Image { width: 0x0fff_ffff, height: 0, pixels: Vec::new() };
    assert!(renderable(&widest, &palette));
    let mosaic = blockify_image(&widest, &palette);
    assert_eq!((mosaic.width, mosaic.height), (0xffff_fff0, 0));
}

#[test]
fn palette_new_checks_its_parts() {
    let red = block_signature(&candidate("red.png", shaded(true))).unwrap();
    let blue = block_signature(&candidate("blue.png", shaded(false))).unwrap();
    let built = Palette::new(vec![red.clone(), blue.clone()], vec![shaded(true), shaded(false)]);
    assert!(built.is_some());
    let built = built.unwrap();
    assert_eq!(built.signatures.len(), 2);
    assert_eq!(built.signatures[1].path, "blue.png");
    assert_eq!(built.tiles[0], shaded(true));
    assert!(Palette::new(Vec::new(), Vec::new()).is_some());
    assert!(Palette::new(vec![red.clone()], Vec::new()).is_none());
    assert!(Palette::new(vec![red.clone()], vec![solid(8, 8, RED)]).is_none());
    assert!(Palette::new(vec![red.clone()], vec![solid(16, 15, RED)]).is_none());
    let torn = Image { width: 16, height: 16, pixels: vec![RED; 255] };
    assert!(Palette::new(vec![red.clone()], vec![torn]).is_none());
    let mut bare = blue.clone();
    bare.entries.clear();
    assert!(Palette::new(vec![red, bare], vec![shaded(true), shaded(false)]).is_none());
}
