//! Pixels, luminosity and the sortable/barrier classification.
//!
//! A pixel's luminosity is `0.2126*R + 0.7152*G + 0.0722*B` with the channels
//! normalised to `[0, 1]`.  Scaling that value by `2_550_000` (that is, by
//! `255 * 10_000`) turns the weights into the integers 2126, 7152 and 722 and
//! both classification thresholds into the integers below, so luminosity can
//! be held exactly, with no rounding anywhere.

use vstd::prelude::*;

verus! {

use core::cmp::Ordering;

/// Luminosity 0.25, scaled by 2_550_000: at or below it a pixel is a barrier.
pub const SORTABLE_MIN: u32 = 637_500;

/// Luminosity 0.8, scaled by 2_550_000: at or above it a pixel is a barrier.
pub const SORTABLE_MAX: u32 = 2_040_000;

/// One RGBA pixel: four 8-bit channels.
#[derive(Clone, Copy, PartialEq, Eq, Structural, Debug)]
pub struct Pixel {
    pub r: u8,
    pub g: u8,
    pub b: u8,
    pub a: u8,
}

/// The luminosity of a pixel, scaled by 2_550_000.  Alpha is ignored.
pub open spec fn luminosity(p: Pixel) -> int {
    2126 * (p.r as int) + 7152 * (p.g as int) + 722 * (p.b as int)
}

/// A pixel may be reordered exactly when its luminosity lies strictly
/// between the two thresholds; all other pixels are barriers.
pub open spec fn is_sortable(p: Pixel) -> bool {
    (SORTABLE_MIN as int) < luminosity(p) < (SORTABLE_MAX as int)
}

/// Computes the scaled luminosity of a pixel.
pub fn calculate_luminosity(pixel: &Pixel) -> (lum: u32)
    ensures
        lum == luminosity(*pixel),
{
    2126 * (pixel.r as u32) + 7152 * (pixel.g as u32) + 722 * (pixel.b as u32)
}

/// Classifies a scaled luminosity: `Some` for a sortable value, `None` for a
/// barrier.
pub fn apply_threshold(lum: u32) -> (r: Option<u32>)
    ensures
        r == if SORTABLE_MIN < lum < SORTABLE_MAX {
            Some(lum)
        } else {
            None::<u32>
        },
{
    if lum >= SORTABLE_MAX || lum <= SORTABLE_MIN {
        None
    } else {
        Some(lum)
    }
}

/// Compares two pixels by their thresholded luminosity.  Barriers order
/// below every sortable pixel and equal to each other, so that sorting a
/// run of sortable pixels with this comparator orders them by luminosity
/// alone.
pub fn sort_by_luminosity(a: &Pixel, b: &Pixel) -> (ord: Ordering)
    ensures
        match ord {
            Ordering::Less => (!is_sortable(*a) && is_sortable(*b)) || (is_sortable(*a)
                && is_sortable(*b) && luminosity(*a) < luminosity(*b)),
            Ordering::Equal => (!is_sortable(*a) && !is_sortable(*b)) || (is_sortable(*a)
                && is_sortable(*b) && luminosity(*a) == luminosity(*b)),
            Ordering::Greater => (is_sortable(*a) && !is_sortable(*b)) || (is_sortable(*a)
                && is_sortable(*b) && luminosity(*a) > luminosity(*b)),
        },
{
    let lum_a = apply_threshold(calculate_luminosity(a));
    let lum_b = apply_threshold(calculate_luminosity(b));
    match (lum_a, lum_b) {
        (None, None) => Ordering::Equal,
        (None, Some(_)) => Ordering::Less,
        (Some(_), None) => Ordering::Greater,
        (Some(x), Some(y)) => if x < y {
            Ordering::Less
        } else if x == y {
            Ordering::Equal
        } else {
            Ordering::Greater
        },
    }
}

/// Classification is a pure function of the channel values: classifying one
/// and the same pixel any number of times always yields the same category.
pub proof fn lemma_classification_deterministic(p: Pixel, q: Pixel)
    requires
        p == q,
    ensures
        is_sortable(p) == is_sortable(q),
        luminosity(p) == luminosity(q),
{
}

} // verus!
