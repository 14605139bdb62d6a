use core::cmp::Ordering;
use pixel_sort::pixel::{apply_threshold, calculate_luminosity, sort_by_luminosity, Pixel};

fn gray(c: u8) -> Pixel {
    Pixel { r: c, g: c, b: c, a: 255 }
}

#[test]
fn luminosity_of_primaries_is_exact() {
    let red = Pixel { r: 255, g: 0, b: 0, a: 255 };
    let green = Pixel { r: 0, g: 255, b: 0, a: 255 };
    let blue = Pixel { r: 0, g: 0, b: 255, a: 255 };
    assert_eq!(calculate_luminosity(&red), 2126 * 255);
    assert_eq!(calculate_luminosity(&green), 7152 * 255);
    assert_eq!(calculate_luminosity(&blue), 722 * 255);
}

#[test]
fn luminosity_of_gray_is_channel_scaled() {
    // for r == g == b == c the luminosity is c/255, scaled to 10_000 * c
    assert_eq!(calculate_luminosity(&gray(0)), 0);
    assert_eq!(calculate_luminosity(&gray(100)), 1_000_000);
    assert_eq!(calculate_luminosity(&gray(255)), 2_550_000);
}

#[test]
fn threshold_boundaries() {
    // luminosity 0.25 scaled is 637_500; 0.8 scaled is 2_040_000
    assert_eq!(apply_threshold(0), None);
    assert_eq!(apply_threshold(637_500), None);
    assert_eq!(apply_threshold(637_501), Some(637_501));
    assert_eq!(apply_threshold(2_039_999), Some(2_039_999));
    assert_eq!(apply_threshold(2_040_000), None);
    assert_eq!(apply_threshold(2_550_000), None);
}

#[test]
fn gray_classification_boundaries() {
    // 10_000 * c is sortable exactly when 63.75 < c < 204
    assert_eq!(apply_threshold(calculate_luminosity(&gray(63))), None);
    assert!(apply_threshold(calculate_luminosity(&gray(64))).is_some());
    assert!(apply_threshold(calculate_luminosity(&gray(203))).is_some());
    assert_eq!(apply_threshold(calculate_luminosity(&gray(204))), None);
}

#[test]
fn classification_is_idempotent() {
    for c in [0u8, 63, 64, 128, 203, 204, 255] {
        let p = gray(c);
        let first = apply_threshold(calculate_luminosity(&p));
        let second = apply_threshold(calculate_luminosity(&p));
        assert_eq!(first, second);
    }
}

#[test]
fn comparator_orders_by_luminosity() {
    let dark = gray(80);
    let bright = gray(180);
    assert_eq!(sort_by_luminosity(&dark, &bright), Ordering::Less);
    assert_eq!(sort_by_luminosity(&bright, &dark), Ordering::Greater);
    assert_eq!(sort_by_luminosity(&dark, &dark), Ordering::Equal);
}

#[test]
fn comparator_treats_barriers_as_smallest() {
    let barrier = gray(250);
    let sortable = gray(100);
    assert_eq!(sort_by_luminosity(&barrier, &sortable), Ordering::Less);
    assert_eq!(sort_by_luminosity(&sortable, &barrier), Ordering::Greater);
    assert_eq!(sort_by_luminosity(&barrier, &gray(10)), Ordering::Equal);
}
