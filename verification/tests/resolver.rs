use blockify::{
    block_signature, closest_index, distance, get_closest_match, get_lab, select_nearest,
    BlockSignature, Candidate, DistinctColorEntry, Image, Rgba,
};

fn rgb(r: u8, g: u8, b: u8) -> Rgba {
    Rgba { r, g, b, a: 255 }
}

const RED: Rgba = Rgba { r: 255, g: 0, b: 0, a: 255 };
const DARK_RED: Rgba = Rgba { r: 180, g: 0, b: 0, a: 255 };
const GREEN: Rgba = Rgba { r: 0, g: 255, b: 0, a: 255 };
const BLUE: Rgba = Rgba { r: 0, g: 0, b: 255, a: 255 };
const WHITE: Rgba = Rgba { r: 255, g: 255, b: 255, a: 255 };

fn solid(pixel: Rgba) -> Image {
    Image { width: 16, height: 16, pixels: vec![pixel; 256] }
}

fn signature_of(path: &str, image: Image) -> BlockSignature {
    block_signature(&Candidate { path: path.to_string(), image }).unwrap()
}

/// A signature with the given colours in the given order.
fn listed(path: &str, colours: &[Rgba]) -> BlockSignature {
    let mut entries = Vec::new();
    let mut score: u64 = 0;
    for &c in colours {
        entries.push(DistinctColorEntry { score, color: c, lab: get_lab(c) });
        score += 1;
    }
    BlockSignature { path: path.to_string(), entries }
}

#[test]
fn one_candidate_always_wins() {
    let blocks = vec![signature_of("only.png", solid(BLUE))];
    for query in [RED, GREEN, BLUE, WHITE] {
        assert_eq!(get_closest_match(&get_lab(query), &blocks), "only.png");
        assert_eq!(closest_index(&get_lab(query), &blocks), 0);
    }
}

#[test]
fn the_closest_candidate_wins() {
    let blocks = vec![
        signature_of("blue.png", solid(BLUE)),
        signature_of("red.png", solid(RED)),
        signature_of("green.png", solid(GREEN)),
    ];
    assert_eq!(get_closest_match(&get_lab(RED), &blocks), "red.png");
    assert_eq!(get_closest_match(&get_lab(DARK_RED), &blocks), "red.png");
    assert_eq!(get_closest_match(&get_lab(rgb(10, 10, 200)), &blocks), "blue.png");
    assert_eq!(get_closest_match(&get_lab(rgb(30, 220, 30)), &blocks), "green.png");
    assert_eq!(closest_index(&get_lab(RED), &blocks), 1);
}

#[test]
fn the_closest_candidate_wins_in_any_order() {
    let names = [("blue.png", BLUE), ("red.png", RED), ("green.png", GREEN)];
    let orders = [[0, 1, 2], [0, 2, 1], [1, 0, 2], [1, 2, 0], [2, 0, 1], [2, 1, 0]];
    for order in orders.iter() {
        let blocks: Vec<BlockSignature> =
            order.iter().map(|&i| signature_of(names[i].0, solid(names[i].1))).collect();
        for _ in 0..3 {
            assert_eq!(get_closest_match(&get_lab(DARK_RED), &blocks), "red.png");
        }
    }
}

#[test]
fn the_winner_is_the_one_at_the_least_distance() {
    let colours = [RED, GREEN, BLUE, WHITE, DARK_RED, rgb(10, 200, 200), rgb(90, 90, 90)];
    let blocks: Vec<BlockSignature> = colours
        .iter()
        .enumerate()
        .map(|(i, &c)| listed(&format!("{}.png", i), &[c]))
        .collect();
    for r in [0u8, 60, 130, 250] {
        for g in [0u8, 100, 255] {
            for b in [5u8, 128, 240] {
                let query = get_lab(rgb(r, g, b));
                let winner = closest_index(&query, &blocks);
                let least = colours.iter().map(|&c| distance(&query, &get_lab(c))).min().unwrap();
                assert_eq!(distance(&query, &blocks[winner].entries[0].lab), least);
            }
        }
    }
}

#[test]
fn twins_are_told_apart_by_path() {
    let a = signature_of("A.png", solid(RED));
    let b = signature_of("B.png", solid(RED));
    let query = get_lab(RED);
    for _ in 0..5 {
        assert_eq!(get_closest_match(&query, &vec![a.clone(), b.clone()]), "A.png");
        assert_eq!(get_closest_match(&query, &vec![b.clone(), a.clone()]), "A.png");
    }
    assert_eq!(closest_index(&query, &vec![a.clone(), b.clone()]), 0);
    assert_eq!(closest_index(&query, &vec![b.clone(), a.clone()]), 1);
}

#[test]
fn twins_are_told_apart_by_path_whatever_the_query() {
    let blocks = vec![
        signature_of("tiles/z.png", solid(RED)),
        signature_of("tiles/m.png", solid(RED)),
        signature_of("tiles/a.png", solid(RED)),
        signature_of("tiles/q.png", solid(RED)),
    ];
    for query in [RED, GREEN, BLUE, WHITE] {
        assert_eq!(get_closest_match(&get_lab(query), &blocks), "tiles/a.png");
    }
}

#[test]
fn of_twins_with_one_path_the_first_wins() {
    let blocks = vec![
        signature_of("same.png", solid(RED)),
        signature_of("same.png", solid(RED)),
    ];
    assert_eq!(closest_index(&get_lab(RED), &blocks), 0);
    assert_eq!(get_closest_match(&get_lab(RED), &blocks), "same.png");
}

#[test]
fn a_tie_is_not_decided_by_path_while_a_candidate_is_closer() {
    let blocks = vec![
        signature_of("a.png", solid(BLUE)),
        signature_of("b.png", solid(BLUE)),
        signature_of("z.png", solid(RED)),
    ];
    assert_eq!(get_closest_match(&get_lab(RED), &blocks), "z.png");
    assert_eq!(get_closest_match(&get_lab(BLUE), &blocks), "a.png");
}

#[test]
fn a_tie_is_decided_by_the_next_colour() {
    let blocks = vec![
        listed("a.png", &[RED, BLUE]),
        listed("b.png", &[RED, DARK_RED]),
        listed("c.png", &[GREEN, RED]),
    ];
    // Both a and b start with red; b goes on with the colour nearer to red.
    assert_eq!(get_closest_match(&get_lab(RED), &blocks), "b.png");
    assert_eq!(closest_index(&get_lab(RED), &blocks), 1);
    // For a green query the first colour decides at once.
    assert_eq!(get_closest_match(&get_lab(GREEN), &blocks), "c.png");
}

#[test]
fn a_tie_goes_on_rank_by_rank() {
    let blocks = vec![
        listed("a.png", &[RED, WHITE, GREEN]),
        listed("b.png", &[RED, WHITE, BLUE]),
        listed("c.png", &[RED, WHITE, DARK_RED]),
        listed("d.png", &[RED, GREEN, RED]),
    ];
    // d leaves at the second rank; the third rank decides among a, b and c.
    let query = get_lab(rgb(250, 200, 200));
    let white = distance(&query, &get_lab(WHITE));
    let green = distance(&query, &get_lab(GREEN));
    assert!(white < green);
    let thirds = [GREEN, BLUE, DARK_RED];
    let mut best = 0;
    for i in 1..3 {
        if distance(&query, &get_lab(thirds[i])) < distance(&query, &get_lab(thirds[best])) {
            best = i;
        }
    }
    assert_eq!(closest_index(&query, &blocks), best);
}

#[test]
fn a_full_tie_down_to_the_last_colour_is_decided_by_path() {
    let blocks = vec![
        listed("m.png", &[RED, BLUE]),
        listed("c.png", &[RED, BLUE]),
        listed("x.png", &[RED, BLUE]),
    ];
    assert_eq!(get_closest_match(&get_lab(RED), &blocks), "c.png");
    assert_eq!(get_closest_match(&get_lab(GREEN), &blocks), "c.png");
}

#[test]
fn a_candidate_without_a_further_colour_leaves_the_tie() {
    let blocks = vec![
        listed("a.png", &[RED]),
        listed("b.png", &[RED, BLUE]),
        listed("c.png", &[RED, GREEN]),
    ];
    // All three tie on red; a has nothing more to show, b and c go on.
    let query = get_lab(RED);
    let expected = if distance(&query, &get_lab(BLUE)) < distance(&query, &get_lab(GREEN)) {
        "b.png"
    } else {
        "c.png"
    };
    assert_eq!(get_closest_match(&query, &blocks), expected);
}

#[test]
fn the_last_candidate_with_a_further_colour_wins_the_tie() {
    let blocks = vec![
        listed("a.png", &[RED]),
        listed("b.png", &[RED, BLUE]),
        listed("c.png", &[RED]),
    ];
    assert_eq!(get_closest_match(&get_lab(RED), &blocks), "b.png");
}

#[test]
fn resolving_twice_gives_the_same_answer() {
    let blocks = vec![
        listed("a.png", &[RED, BLUE, WHITE]),
        listed("b.png", &[RED, BLUE, GREEN]),
        listed("c.png", &[DARK_RED]),
        listed("d.png", &[WHITE, RED]),
    ];
    for r in [0u8, 128, 255] {
        for g in [0u8, 128, 255] {
            for b in [0u8, 128, 255] {
                let query = get_lab(rgb(r, g, b));
                let first = get_closest_match(&query, &blocks);
                assert_eq!(get_closest_match(&query, &blocks), first);
                assert_eq!(blocks[closest_index(&query, &blocks)].path, first);
            }
        }
    }
}

#[test]
fn select_nearest_picks_the_items_at_the_least_distance() {
    assert_eq!(select_nearest(&vec![5, 6, 7], &vec![2, 1, 1]), vec![6, 7]);
    assert_eq!(select_nearest(&vec![5, 6, 7], &vec![0, 1, 1]), vec![5]);
    assert_eq!(select_nearest(&vec![5, 6, 7], &vec![3, 3, 3]), vec![5, 6, 7]);
    assert_eq!(select_nearest(&vec![9], &vec![0x7f80_0000]), vec![9]);
    assert_eq!(select_nearest(&vec![4, 4, 2], &vec![7, 9, 7]), vec![4, 2]);
}

#[test]
fn select_nearest_of_nothing_is_nothing() {
    assert_eq!(select_nearest(&Vec::new(), &Vec::new()), Vec::<usize>::new());
}

fn permutations(n: usize) -> Vec<Vec<usize>> {
    if n == 0 {
        return vec![Vec::new()];
    }
    let mut all = Vec::new();
    for shorter in permutations(n - 1) {
        for at in 0..n {
            let mut longer = shorter.clone();
            longer.insert(at, n - 1);
            all.push(longer);
        }
    }
    all
}

#[test]
fn the_order_of_the_candidates_does_not_matter() {
    let blocks = vec![
        listed("e.png", &[RED, BLUE, WHITE]),
        listed("d.png", &[RED, BLUE, GREEN]),
        listed("c.png", &[RED]),
        listed("b.png", &[RED, BLUE]),
        listed("a.png", &[WHITE, RED]),
    ];
    let queries = [RED, DARK_RED, GREEN, BLUE, WHITE, rgb(200, 200, 255), rgb(40, 90, 10)];
    for query in queries.iter() {
        let lab = get_lab(*query);
        let expected = get_closest_match(&lab, &blocks);
        for order in permutations(5) {
            let shuffled: Vec<BlockSignature> = order.iter().map(|&i| blocks[i].clone()).collect();
            assert_eq!(get_closest_match(&lab, &shuffled), expected);
        }
    }
}

#[test]
fn twins_in_colour_are_told_apart_by_path_in_any_order() {
    let blocks = vec![
        listed("q.png", &[RED, BLUE]),
        listed("k.png", &[RED, BLUE]),
        listed("z.png", &[RED, BLUE]),
        listed("m.png", &[GREEN]),
    ];
    for order in permutations(4) {
        let shuffled: Vec<BlockSignature> = order.iter().map(|&i| blocks[i].clone()).collect();
        assert_eq!(get_closest_match(&get_lab(RED), &shuffled), "k.png");
        assert_eq!(get_closest_match(&get_lab(GREEN), &shuffled), "m.png");
    }
}
