use blockify::order::exceeds;
use blockify::{compare, path_before};
use std::cmp::Ordering;

#[test]
fn compare_tells_less_equal_greater() {
    assert_eq!(compare(1, 2), Ordering::Less);
    assert_eq!(compare(2, 2), Ordering::Equal);
    assert_eq!(compare(3, 2), Ordering::Greater);
    assert_eq!(compare(0, u64::MAX), Ordering::Less);
    assert_eq!(compare(u64::MAX, 0), Ordering::Greater);
}

#[test]
fn exceeds_is_strict() {
    assert!(exceeds(3, 2));
    assert!(!exceeds(2, 2));
    assert!(!exceeds(1, 2));
}

#[test]
fn path_before_follows_the_dictionary() {
    assert!(path_before("a.png", "b.png"));
    assert!(!path_before("b.png", "a.png"));
    assert!(path_before("blocks/dirt.png", "blocks/stone.png"));
    assert!(path_before("B.png", "a.png"));
    assert!(path_before("a10.png", "a9.png"));
}

#[test]
fn path_before_puts_a_prefix_first() {
    assert!(path_before("", "a"));
    assert!(path_before("stone", "stone_bricks"));
    assert!(!path_before("stone_bricks", "stone"));
    assert!(!path_before("a", ""));
}

#[test]
fn path_before_is_strict() {
    assert!(!path_before("", ""));
    assert!(!path_before("same.png", "same.png"));
}

#[test]
fn path_before_agrees_with_string_order() {
    let paths = ["", "a", "ab", "abc", "abd", "b", "z", "é", "ée", "日本", "日本語", "~", "A", "a/b", "a-b"];
    for a in paths.iter() {
        for b in paths.iter() {
            assert_eq!(path_before(a, b), a < b, "{:?} {:?}", a, b);
        }
    }
}
