use blockify::{
    block_signature, dedup, get_average_colors, get_lab, mean_of_distances, rank, Candidate,
    DistinctColorEntry, Image, Rgba,
};
use deltae::{DEMethod, DeltaE, LabValue};

fn rgb(r: u8, g: u8, b: u8) -> Rgba {
    Rgba { r, g, b, a: 255 }
}

fn solid(width: u32, height: u32, pixel: Rgba) -> Image {
    Image { width, height, pixels: vec![pixel; (width * height) as usize] }
}

fn candidate(path: &str, image: Image) -> Candidate {
    Candidate { path: path.to_string(), image }
}

/// A tile whose pixel at place `i` is `pick(i)`.
fn tile(pick: fn(usize) -> Rgba) -> Image {
    let mut pixels = Vec::new();
    for i in 0..256 {
        pixels.push(pick(i));
    }
    Image { width: 16, height: 16, pixels }
}

fn lab_of(p: Rgba) -> LabValue {
    let lab = lab::rgbs_to_labs(&[[p.r, p.g, p.b]])[0];
    LabValue { l: lab.l, a: lab.a, b: lab.b }
}

/// The signature worked out with the machine's own arithmetic: score, pixel.
fn by_hand(image: &Image) -> Vec<(f64, Rgba)> {
    let count = image.pixels.len() as f64;
    let mut entries: Vec<(f64, Rgba)> = Vec::new();
    for &p in image.pixels.iter() {
        let mut total: f64 = 0.0;
        for &q in image.pixels.iter() {
            let delta: f64 = (*DeltaE::new(lab_of(p), lab_of(q), DEMethod::DE2000).value()).into();
            total += delta;
        }
        entries.push((total / count, p));
    }
    entries.sort_by(|a, b| a.0.partial_cmp(&b.0).unwrap());
    let mut distinct: Vec<(f64, Rgba)> = Vec::new();
    for e in entries {
        if !distinct.contains(&e) {
            distinct.push(e);
        }
    }
    distinct
}

fn as_pairs(entries: &Vec<DistinctColorEntry>) -> Vec<(f64, Rgba)> {
    entries.iter().map(|e| (f64::from_bits(e.score), e.color)).collect()
}

fn two_tone(i: usize) -> Rgba {
    if i % 16 < 4 {
        rgb(200, 30, 30)
    } else {
        rgb(20, 40, 220)
    }
}

fn chessboard(i: usize) -> Rgba {
    if (i / 16 + i % 16) % 2 == 0 {
        rgb(250, 250, 250)
    } else {
        rgb(5, 5, 5)
    }
}

fn gradient(i: usize) -> Rgba {
    rgb(i as u8, (255 - i) as u8, ((i * 7) % 256) as u8)
}

fn few(i: usize) -> Rgba {
    match i % 5 {
        0 => rgb(120, 80, 40),
        1 => rgb(125, 85, 45),
        2 => rgb(30, 160, 60),
        3 => rgb(120, 80, 40),
        _ => rgb(240, 240, 10),
    }
}

fn striped(i: usize) -> Rgba {
    if i % 2 == 0 {
        rgb(0, 0, 0)
    } else {
        rgb(255, 255, 255)
    }
}

fn one_clear_pixel(i: usize) -> Rgba {
    if i == 200 {
        Rgba { r: 9, g: 9, b: 9, a: 254 }
    } else {
        rgb(9, 9, 9)
    }
}

#[test]
fn signature_of_a_solid_tile_is_its_one_colour() {
    let blue = rgb(0, 0, 255);
    let sig = block_signature(&candidate("blue.png", solid(16, 16, blue))).unwrap();
    assert_eq!(sig.path, "blue.png");
    assert_eq!(sig.entries.len(), 1);
    assert_eq!(sig.entries[0].score, 0);
    assert_eq!(sig.entries[0].color, blue);
    assert_eq!(sig.entries[0].lab, lab_of(blue));
}

#[test]
fn signature_of_a_two_tone_tile() {
    let image = tile(two_tone);
    let sig = block_signature(&candidate("two.png", image.clone())).unwrap();
    // The colour of three quarters of the pixels stands best for the tile.
    assert_eq!(sig.entries.len(), 2);
    assert_eq!(sig.entries[0].color, rgb(20, 40, 220));
    assert_eq!(sig.entries[1].color, rgb(200, 30, 30));
    assert!(sig.entries[0].score < sig.entries[1].score);
    assert_eq!(as_pairs(&sig.entries), by_hand(&image));
}

#[test]
fn score_is_the_mean_distance() {
    let image = tile(two_tone);
    let sig = block_signature(&candidate("two.png", image)).unwrap();
    let red = lab_of(rgb(200, 30, 30));
    let blue = lab_of(rgb(20, 40, 220));
    // 64 pixels are red: blue's distances add up to 64 times the distance
    // from blue to red.
    let d: f64 = (*DeltaE::new(blue, red, DEMethod::DE2000).value()).into();
    let mut total = 0.0;
    for i in 0..256 {
        if i % 16 < 4 {
            total += d;
        }
    }
    assert_eq!(f64::from_bits(sig.entries[0].score), total / 256.0);
}

#[test]
fn signature_agrees_with_the_machine_on_a_chessboard_tile() {
    let image = tile(chessboard);
    let sig = block_signature(&candidate("c.png", image.clone())).unwrap();
    assert_eq!(as_pairs(&sig.entries), by_hand(&image));
}

#[test]
fn signature_agrees_with_the_machine_on_a_gradient() {
    let image = tile(gradient);
    let sig = block_signature(&candidate("g.png", image.clone())).unwrap();
    assert_eq!(sig.entries.len(), 256);
    assert_eq!(as_pairs(&sig.entries), by_hand(&image));
}

#[test]
fn signature_agrees_with_the_machine_on_a_few_colours() {
    let image = tile(few);
    let sig = block_signature(&candidate("f.png", image.clone())).unwrap();
    assert_eq!(as_pairs(&sig.entries), by_hand(&image));
}

#[test]
fn signature_scores_rise() {
    for image in [tile(gradient), tile(few), tile(chessboard), tile(two_tone)] {
        let sig = block_signature(&candidate("t.png", image)).unwrap();
        for i in 1..sig.entries.len() {
            assert!(sig.entries[i - 1].score <= sig.entries[i].score);
        }
        for e in sig.entries.iter() {
            assert_eq!(e.lab, lab_of(e.color));
        }
    }
}

#[test]
fn signature_of_a_chessboard_has_one_entry_per_colour() {
    let image = tile(chessboard);
    let sig = block_signature(&candidate("c.png", image.clone())).unwrap();
    assert_eq!(sig.entries.len(), 2);
    assert_ne!(sig.entries[0].color, sig.entries[1].color);
    assert_eq!(as_pairs(&sig.entries), by_hand(&image));
}

#[test]
fn signature_of_a_striped_tile_has_two_entries() {
    // Even columns black, odd columns white: black and white are equally
    // far from each other both ways, so the two score alike and the colour
    // of the first pixel comes first.
    let image = tile(striped);
    let sig = block_signature(&candidate("x.png", image.clone())).unwrap();
    assert_eq!(sig.entries.len(), 2);
    assert_eq!(sig.entries[0].color, rgb(0, 0, 0));
    assert_eq!(sig.entries[1].color, rgb(255, 255, 255));
    assert_eq!(sig.entries[0].score, sig.entries[1].score);
    assert_eq!(as_pairs(&sig.entries), by_hand(&image));
    let palette = get_average_colors(&vec![candidate("x.png", image)]);
    assert_eq!(palette.signatures.len(), 1);
    assert_eq!(palette.signatures[0].entries.len(), 2);
}

#[test]
fn signature_has_no_two_equal_entries() {
    for image in [tile(gradient), tile(few), tile(chessboard), tile(two_tone), tile(striped)] {
        let sig = block_signature(&candidate("t.png", image.clone())).unwrap();
        for i in 0..sig.entries.len() {
            for j in 0..i {
                assert!(
                    sig.entries[i].score != sig.entries[j].score
                        || sig.entries[i].color != sig.entries[j].color
                );
            }
        }
        // Every colour of the tile has its entry.
        for p in image.pixels.iter() {
            assert!(sig.entries.iter().any(|e| e.color == *p));
        }
    }
}

#[test]
fn signature_of_few_colours_has_one_entry_per_colour() {
    let sig = block_signature(&candidate("f.png", tile(few))).unwrap();
    assert_eq!(sig.entries.len(), 4);
}

#[test]
fn no_signature_for_a_tile_with_a_pixel_that_is_not_opaque() {
    assert!(block_signature(&candidate("x.png", tile(one_clear_pixel))).is_none());
    let clear = Rgba { r: 0, g: 0, b: 0, a: 0 };
    assert!(block_signature(&candidate("x.png", solid(16, 16, clear))).is_none());
}

#[test]
fn no_signature_for_a_picture_of_another_size() {
    let red = rgb(255, 0, 0);
    assert!(block_signature(&candidate("x.png", solid(15, 16, red))).is_none());
    assert!(block_signature(&candidate("x.png", solid(16, 17, red))).is_none());
    assert!(block_signature(&candidate("x.png", solid(32, 32, red))).is_none());
    assert!(block_signature(&candidate("x.png", solid(1, 1, red))).is_none());
    assert!(block_signature(&candidate("x.png", solid(0, 0, red))).is_none());
    assert!(block_signature(&candidate("x.png", solid(256, 1, red))).is_none());
}

#[test]
fn palette_leaves_out_a_candidate_with_a_pixel_that_is_not_opaque() {
    let blocks = vec![
        candidate("a.png", solid(16, 16, rgb(255, 0, 0))),
        candidate("b.png", tile(one_clear_pixel)),
        candidate("c.png", solid(16, 16, rgb(0, 0, 255))),
    ];
    let palette = get_average_colors(&blocks);
    let paths: Vec<&str> = palette.signatures.iter().map(|s| s.path.as_str()).collect();
    assert_eq!(paths, vec!["a.png", "c.png"]);
    assert_eq!(palette.tiles.len(), 2);
    assert_eq!(palette.tiles[0], blocks[0].image);
    assert_eq!(palette.tiles[1], blocks[2].image);
}

#[test]
fn palette_leaves_out_a_candidate_of_another_size() {
    let blocks = vec![
        candidate("a.png", solid(32, 32, rgb(255, 0, 0))),
        candidate("b.png", solid(16, 16, rgb(0, 255, 0))),
        candidate("c.png", solid(16, 8, rgb(0, 0, 255))),
    ];
    let palette = get_average_colors(&blocks);
    assert_eq!(palette.signatures.len(), 1);
    assert_eq!(palette.signatures[0].path, "b.png");
    assert_eq!(palette.tiles[0], blocks[1].image);
}

#[test]
fn palette_of_no_candidates_is_empty() {
    let palette = get_average_colors(&Vec::new());
    assert!(palette.signatures.is_empty());
    assert!(palette.tiles.is_empty());
}

#[test]
fn palette_keeps_the_order_of_the_candidates() {
    let blocks = vec![
        candidate("z.png", solid(16, 16, rgb(1, 2, 3))),
        candidate("a.png", tile(two_tone)),
        candidate("m.png", tile(few)),
    ];
    let palette = get_average_colors(&blocks);
    let paths: Vec<&str> = palette.signatures.iter().map(|s| s.path.as_str()).collect();
    assert_eq!(paths, vec!["z.png", "a.png", "m.png"]);
    for i in 0..3 {
        let alone = block_signature(&blocks[i]).unwrap();
        assert_eq!(as_pairs(&palette.signatures[i].entries), as_pairs(&alone.entries));
        assert_eq!(palette.tiles[i], blocks[i].image);
    }
}

#[test]
fn image_new_checks_the_number_of_pixels() {
    let red = rgb(255, 0, 0);
    assert!(Image::new(2, 3, vec![red; 6]).is_some());
    assert!(Image::new(2, 3, vec![red; 5]).is_none());
    assert!(Image::new(0, 3, vec![]).is_some());
    assert!(Image::new(0, 3, vec![red]).is_none());
    let image = Image::new(2, 3, vec![red; 6]).unwrap();
    assert_eq!(image.width, 2);
    assert_eq!(image.height, 3);
    assert_eq!(image.pixels, vec![red; 6]);
}

#[test]
fn image_pixel_reads_row_by_row() {
    let mut pixels = Vec::new();
    for i in 0..6u8 {
        pixels.push(rgb(i, 0, 0));
    }
    let image = Image::new(3, 2, pixels).unwrap();
    assert_eq!(image.pixel(0, 0), rgb(0, 0, 0));
    assert_eq!(image.pixel(2, 0), rgb(2, 0, 0));
    assert_eq!(image.pixel(0, 1), rgb(3, 0, 0));
    assert_eq!(image.pixel(2, 1), rgb(5, 0, 0));
    assert_eq!(image.duplicate(), image);
}

fn entry(score: u64, shade: u8) -> DistinctColorEntry {
    let color = rgb(shade, shade, shade);
    DistinctColorEntry { score, color, lab: get_lab(color) }
}

fn keys(entries: &Vec<DistinctColorEntry>) -> Vec<(u64, u8)> {
    entries.iter().map(|e| (e.score, e.color.r)).collect()
}

#[test]
fn rank_orders_by_score_and_keeps_ties_in_order() {
    let entries = vec![entry(5, 1), entry(3, 2), entry(5, 3), entry(1, 4), entry(3, 5), entry(5, 6)];
    assert_eq!(keys(&rank(&entries)), vec![(1, 4), (3, 2), (3, 5), (5, 1), (5, 3), (5, 6)]);
    assert_eq!(keys(&rank(&Vec::new())), vec![]);
    assert_eq!(keys(&rank(&vec![entry(9, 9)])), vec![(9, 9)]);
}

#[test]
fn rank_agrees_with_a_stable_sort() {
    let mut entries = Vec::new();
    let mut x: u64 = 12345;
    for i in 0..200u32 {
        x = x.wrapping_mul(6364136223846793005).wrapping_add(1442695040888963407);
        entries.push(entry((x >> 60) % 7, i as u8));
    }
    let mut expected = keys(&entries);
    expected.sort_by_key(|k| k.0);
    assert_eq!(keys(&rank(&entries)), expected);
}

#[test]
fn dedup_keeps_the_first_of_equal_entries() {
    let entries = vec![entry(1, 1), entry(1, 1), entry(1, 2), entry(1, 1), entry(2, 1), entry(2, 1), entry(2, 1)];
    assert_eq!(keys(&dedup(&entries)), vec![(1, 1), (1, 2), (2, 1)]);
    assert_eq!(keys(&dedup(&Vec::new())), vec![]);
    assert_eq!(keys(&dedup(&vec![entry(4, 4)])), vec![(4, 4)]);
}

#[test]
fn dedup_drops_repeats_that_are_apart() {
    let black = 0;
    let white = 255;
    let entries = vec![entry(7, black), entry(7, white), entry(7, black), entry(7, white)];
    assert_eq!(keys(&dedup(&rank(&entries))), vec![(7, black), (7, white)]);
    let spread = vec![entry(3, 9), entry(1, 2), entry(3, 8), entry(1, 2), entry(3, 9), entry(2, 2)];
    assert_eq!(keys(&dedup(&rank(&spread))), vec![(1, 2), (2, 2), (3, 9), (3, 8)]);
}

#[test]
fn dedup_tells_scores_and_colours_apart() {
    let entries = vec![entry(1, 1), entry(2, 1), entry(1, 2), entry(2, 2)];
    assert_eq!(keys(&dedup(&entries)), vec![(1, 1), (2, 1), (1, 2), (2, 2)]);
}

#[test]
fn mean_of_equal_distances_is_that_distance() {
    let two = 2.0f32.to_bits();
    assert_eq!(mean_of_distances(&vec![two; 256]), 2.0f64.to_bits());
    assert_eq!(mean_of_distances(&vec![0; 256]), 0);
    assert_eq!(mean_of_distances(&vec![0x7f80_0000; 256]), 0x7ff0_0000_0000_0000);
}

#[test]
fn mean_of_distances_is_the_total_over_256() {
    let mut dists = vec![0u32; 256];
    dists[7] = 256.0f32.to_bits();
    assert_eq!(mean_of_distances(&dists), 1.0f64.to_bits());
    dists[200] = 128.0f32.to_bits();
    assert_eq!(mean_of_distances(&dists), 1.5f64.to_bits());
}

#[test]
fn mean_of_distances_adds_in_order_as_the_hardware_does() {
    let mut dists = Vec::new();
    let mut x: u64 = 99;
    for _ in 0..256 {
        x = x.wrapping_mul(6364136223846793005).wrapping_add(1442695040888963407);
        let value = ((x >> 40) as f32) / 3.0e5 + 1.0e-7 * ((x >> 20) & 0xff) as f32;
        dists.push(value.to_bits());
    }
    let mut total: f64 = 0.0;
    for &d in dists.iter() {
        total += f64::from(f32::from_bits(d));
    }
    assert_eq!(mean_of_distances(&dists), (total / 256.0).to_bits());
    dists.reverse();
    let mut back: f64 = 0.0;
    for &d in dists.iter() {
        back += f64::from(f32::from_bits(d));
    }
    assert_eq!(mean_of_distances(&dists), (back / 256.0).to_bits());
}
