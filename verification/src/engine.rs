//! The pixel-sort engine: a column pass, then a row pass over a fresh grid.
//!
//! The output grid is allocated blank and the column pass sorts the runs of
//! its own columns — deliberately so: the grid is still blank at that point,
//! blank pixels are barriers, and the pass leaves the grid unchanged.  The
//! row pass then reads every row from the untouched source image and
//! overwrites the whole output, so the final image is determined by the row
//! pass over the source alone.  Both passes are kept, each with its full
//! contract, and the overall result is pinned down exactly by
//! [`spec_pixel_sorting`].

use vstd::prelude::*;
use vstd::arithmetic::mul::lemma_mul_inequality;
use vstd::arithmetic::div_mod::lemma_fundamental_div_mod;
use vstd::arithmetic::div_mod::lemma_fundamental_div_mod_converse;
use vstd::arithmetic::div_mod::lemma_mod_bound;
use crate::pixel::Pixel;
use crate::image::{Image, copy_bytes};
use crate::runs::{sorted_runs, sort_chunk, lemma_sorted_runs_barriers_fixed};

verus! {

/// Row `y` of a row-major grid of width `w`.
pub open spec fn grid_row(g: Seq<Pixel>, w: int, y: int) -> Seq<Pixel> {
    g.subrange(y * w, y * w + w)
}

/// Column `x` of a row-major grid of width `w` and height `h`, top to
/// bottom.
pub open spec fn grid_column(g: Seq<Pixel>, w: int, h: int, x: int) -> Seq<Pixel> {
    Seq::new(h as nat, |y: int| g[y * w + x])
}

/// What the engine produces for a `w` by `h` source grid: a grid of the
/// same size in which every row is the run-sorted image of the matching
/// source row.
pub open spec fn spec_pixel_sorting(src: Seq<Pixel>, w: int, h: int) -> Seq<Pixel> {
    Seq::new((w * h) as nat, |i: int| sorted_runs(grid_row(src, w, i / w))[i % w])
}

/// Row `y` occupies the index range `[y*w, y*w + w)`, inside the grid.
proof fn lemma_row_bounds(w: int, h: int, y: int)
    requires
        0 <= w,
        0 <= y < h,
    ensures
        0 <= y * w,
        y * w + w <= w * h,
{
    lemma_mul_inequality(y + 1, h, w);
    assert((y + 1) * w == y * w + w) by (nonlinear_arith);
    assert(h * w == w * h) by (nonlinear_arith);
    assert(y * w >= 0) by (nonlinear_arith)
        requires
            0 <= y,
            0 <= w,
    ;
}

/// An earlier row ends before a later row begins.
proof fn lemma_row_disjoint(w: int, y: int, yy: int)
    requires
        0 <= w,
        0 <= yy < y,
    ensures
        0 <= yy * w,
        yy * w + w <= y * w,
{
    lemma_mul_inequality(yy + 1, y, w);
    assert((yy + 1) * w == yy * w + w) by (nonlinear_arith);
    assert(yy * w >= 0) by (nonlinear_arith)
        requires
            0 <= yy,
            0 <= w,
    ;
}

/// The flat index of column `x`, row `y` lies inside the grid, and dividing
/// it by the width recovers the coordinates.
proof fn lemma_grid_index(w: int, h: int, x: int, y: int)
    requires
        0 <= x < w,
        0 <= y < h,
    ensures
        0 <= y * w + x < w * h,
        (y * w + x) / w == y,
        (y * w + x) % w == x,
{
    assert(0 <= y * w + x < w * h) by (nonlinear_arith)
        requires
            0 <= x < w,
            0 <= y < h,
    ;
    lemma_fundamental_div_mod_converse(y * w + x, w, y, x);
}

/// Any flat index of the grid decomposes into a row and a column.
proof fn lemma_position_decompose(w: int, h: int, k: int)
    requires
        w >= 0,
        h >= 0,
        0 <= k < w * h,
    ensures
        0 < w,
        0 <= k % w < w,
        0 <= k / w < h,
        k == (k / w) * w + (k % w),
{
    assert(0 < w && 0 < h) by (nonlinear_arith)
        requires
            w >= 0,
            h >= 0,
            0 <= k < w * h,
    ;
    lemma_fundamental_div_mod(k, w);
    lemma_mod_bound(k, w);
    assert((k / w) * w == w * (k / w)) by (nonlinear_arith);
    assert(0 <= k / w < h) by (nonlinear_arith)
        requires
            0 < w,
            0 <= k < w * h,
            k == w * (k / w) + (k % w),
            0 <= k % w < w,
    ;
}

/// Copies row `y` of the grid into a fresh vector.
fn extract_row(g: &Vec<Pixel>, w: usize, h: usize, y: usize) -> (row: Vec<Pixel>)
    requires
        g@.len() == (w as int) * (h as int),
        y < h,
    ensures
        row@ == grid_row(g@, w as int, y as int),
{
    let n = g.len();
    proof {
        lemma_row_bounds(w as int, h as int, y as int);
    }
    let base: usize = y * w;
    let mut row: Vec<Pixel> = Vec::new();
    let mut x: usize = 0;
    while x < w
        invariant
            x <= w,
            base == (y as int) * (w as int),
            n == g@.len(),
            base + w <= n,
            row@.len() == x,
            forall|t: int| 0 <= t < x ==> row@[t] == g@[base + t],
        decreases w - x,
    {
        row.push(g[base + x]);
        x = x + 1;
    }
    proof {
        assert(row@ =~= grid_row(g@, w as int, y as int));
    }
    row
}

/// Writes `row` over row `y` of the grid; every other position keeps its
/// pixel.
fn write_row(g: &mut Vec<Pixel>, w: usize, h: usize, y: usize, row: &Vec<Pixel>)
    requires
        old(g)@.len() == (w as int) * (h as int),
        y < h,
        row@.len() == w,
    ensures
        final(g)@.len() == old(g)@.len(),
        forall|t: int| 0 <= t < w ==> final(g)@[(y as int) * (w as int) + t] == row@[t],
        forall|k: int|
            0 <= k < old(g)@.len() && !((y as int) * (w as int) <= k < (y as int) * (w as int)
                + (w as int)) ==> final(g)@[k] == old(g)@[k],
{
    let n = g.len();
    proof {
        lemma_row_bounds(w as int, h as int, y as int);
    }
    let base: usize = y * w;
    let mut x: usize = 0;
    while x < w
        invariant
            x <= w,
            base == (y as int) * (w as int),
            n == g@.len(),
            base + w <= n,
            g@.len() == old(g)@.len(),
            row@.len() == w,
            forall|t: int| 0 <= t < x ==> g@[base + t] == row@[t],
            forall|k: int| 0 <= k < g@.len() && !(base <= k < base + w) ==> g@[k] == old(g)@[k],
            forall|k: int| base + x <= k < base + w ==> g@[k] == old(g)@[k],
        decreases w - x,
    {
        let p = row[x];
        g[base + x] = p;
        x = x + 1;
    }
}

/// Copies column `x` of the grid into a fresh vector.
fn extract_column(g: &Vec<Pixel>, w: usize, h: usize, x: usize) -> (col: Vec<Pixel>)
    requires
        g@.len() == (w as int) * (h as int),
        x < w,
    ensures
        col@ == grid_column(g@, w as int, h as int, x as int),
{
    let n = g.len();
    let mut col: Vec<Pixel> = Vec::new();
    let mut y: usize = 0;
    while y < h
        invariant
            y <= h,
            x < w,
            n == g@.len(),
            g@.len() == (w as int) * (h as int),
            col@.len() == y,
            forall|t: int| 0 <= t < y ==> col@[t] == g@[t * (w as int) + (x as int)],
        decreases h - y,
    {
        proof {
            lemma_grid_index(w as int, h as int, x as int, y as int);
        }
        let idx: usize = y * w + x;
        col.push(g[idx]);
        y = y + 1;
    }
    proof {
        assert(col@ =~= grid_column(g@, w as int, h as int, x as int));
    }
    col
}

/// Writes `col` down column `x` of the grid; every position of any other
/// column keeps its pixel.
fn write_column(g: &mut Vec<Pixel>, w: usize, h: usize, x: usize, col: &Vec<Pixel>)
    requires
        old(g)@.len() == (w as int) * (h as int),
        x < w,
        col@.len() == h,
    ensures
        final(g)@.len() == old(g)@.len(),
        forall|t: int| 0 <= t < h ==> final(g)@[t * (w as int) + (x as int)] == col@[t],
        forall|k: int|
            0 <= k < old(g)@.len() && k % (w as int) != x as int ==> final(g)@[k] == old(g)@[k],
{
    let n = g.len();
    let mut y: usize = 0;
    while y < h
        invariant
            y <= h,
            x < w,
            col@.len() == h,
            n == g@.len(),
            g@.len() == old(g)@.len() == (w as int) * (h as int),
            forall|t: int| 0 <= t < y ==> g@[t * (w as int) + (x as int)] == col@[t],
            forall|k: int|
                0 <= k < g@.len() && k % (w as int) != x as int ==> g@[k] == old(g)@[k],
            forall|t: int|
                y <= t < h ==> g@[#[trigger] (t * (w as int)) + (x as int)] == old(g)@[t * (
                w as int) + (x as int)],
        decreases h - y,
    {
        proof {
            lemma_grid_index(w as int, h as int, x as int, y as int);
            assert forall|t: int| 0 <= t < h && t != y implies #[trigger] (t * (w as int)) + (
            x as int) != (y as int) * (w as int) + (x as int) by {
                lemma_grid_index(w as int, h as int, x as int, t);
            }
        }
        let ghost prev = g@;
        let p = col[y];
        let idx: usize = y * w + x;
        g[idx] = p;
        proof {
            assert(g@ == prev.update((y as int) * (w as int) + (x as int), col@[y as int]));
            assert forall|t: int| 0 <= t < y + 1 implies g@[#[trigger] (t * (w as int)) + (
            x as int)] == col@[t] by {
                if t < y {
                    lemma_grid_index(w as int, h as int, x as int, t);
                    assert(g@[t * (w as int) + (x as int)] == prev[t * (w as int) + (x as int)]);
                }
            }
            assert forall|k: int|
                0 <= k < g@.len() && k % (w as int) != x as int implies g@[k] == old(g)@[k] by {
                assert(k != (y as int) * (w as int) + (x as int));
                assert(g@[k] == prev[k]);
            }
            assert forall|t: int| y + 1 <= t < h implies g@[#[trigger] (t * (w as int)) + (
            x as int)] == old(g)@[t * (w as int) + (x as int)] by {
                lemma_grid_index(w as int, h as int, x as int, t);
                assert(g@[t * (w as int) + (x as int)] == prev[t * (w as int) + (x as int)]);
            }
        }
        y = y + 1;
    }
}

/// Sorts the runs of every column of the grid in place, top to bottom.
pub fn column_pass(g: &mut Vec<Pixel>, w: usize, h: usize)
    requires
        old(g)@.len() == (w as int) * (h as int),
    ensures
        final(g)@.len() == old(g)@.len(),
        forall|xx: int|
            0 <= xx < w ==> grid_column(final(g)@, w as int, h as int, xx) == sorted_runs(
                grid_column(old(g)@, w as int, h as int, xx),
            ),
{
    let mut x: usize = 0;
    while x < w
        invariant
            x <= w,
            g@.len() == old(g)@.len() == (w as int) * (h as int),
            forall|xx: int|
                0 <= xx < x ==> grid_column(g@, w as int, h as int, xx) == sorted_runs(
                    grid_column(old(g)@, w as int, h as int, xx),
                ),
            forall|xx: int|
                x <= xx < w ==> grid_column(g@, w as int, h as int, xx) == grid_column(
                    old(g)@,
                    w as int,
                    h as int,
                    xx,
                ),
        decreases w - x,
    {
        let ghost before = g@;
        let mut col = extract_column(g, w, h, x);
        sort_chunk(&mut col);
        write_column(g, w, h, x, &col);
        proof {
            assert forall|xx: int| 0 <= xx < w && xx != x as int implies grid_column(
                g@,
                w as int,
                h as int,
                xx,
            ) =~= grid_column(before, w as int, h as int, xx) by {
                assert forall|t: int|
                    0 <= t < h implies #[trigger] grid_column(g@, w as int, h as int, xx)[t]
                    == grid_column(before, w as int, h as int, xx)[t] by {
                    lemma_grid_index(w as int, h as int, xx, t);
                    assert(grid_column(g@, w as int, h as int, xx)[t] == g@[t * (w as int) + xx]);
                    assert(g@[t * (w as int) + xx] == before[t * (w as int) + xx]);
                }
            }
            assert forall|t: int|
                0 <= t < h implies #[trigger] grid_column(g@, w as int, h as int, x as int)[t]
                == col@[t] by {
                lemma_grid_index(w as int, h as int, x as int, t);
            }
            assert(grid_column(g@, w as int, h as int, x as int) =~= col@);
            assert forall|xx: int| 0 <= xx < x + 1 implies grid_column(g@, w as int, h as int, xx)
                == sorted_runs(grid_column(old(g)@, w as int, h as int, xx)) by {
                if xx < x {
                    assert(grid_column(g@, w as int, h as int, xx) == grid_column(
                        before,
                        w as int,
                        h as int,
                        xx,
                    ));
                    assert(grid_column(before, w as int, h as int, xx) == sorted_runs(
                        grid_column(old(g)@, w as int, h as int, xx),
                    ));
                } else {
                    assert(grid_column(g@, w as int, h as int, xx) == col@);
                    assert(col@ == sorted_runs(grid_column(before, w as int, h as int, x as int)));
                    assert(grid_column(before, w as int, h as int, x as int) == grid_column(
                        old(g)@,
                        w as int,
                        h as int,
                        x as int,
                    ));
                }
            }
            assert forall|xx: int| x + 1 <= xx < w implies grid_column(g@, w as int, h as int, xx)
                == grid_column(old(g)@, w as int, h as int, xx) by {
                assert(grid_column(g@, w as int, h as int, xx) == grid_column(
                    before,
                    w as int,
                    h as int,
                    xx,
                ));
            }
        }
        x = x + 1;
    }
}

/// Sorts the runs of every row of `src` and writes them over the matching
/// rows of the grid, overwriting it completely.
pub fn row_pass(src: &Vec<Pixel>, g: &mut Vec<Pixel>, w: usize, h: usize)
    requires
        src@.len() == (w as int) * (h as int),
        old(g)@.len() == (w as int) * (h as int),
    ensures
        final(g)@.len() == old(g)@.len(),
        forall|yy: int|
            0 <= yy < h ==> grid_row(final(g)@, w as int, yy) == sorted_runs(
                grid_row(src@, w as int, yy),
            ),
{
    let mut y: usize = 0;
    while y < h
        invariant
            y <= h,
            src@.len() == (w as int) * (h as int),
            g@.len() == old(g)@.len() == (w as int) * (h as int),
            forall|yy: int|
                0 <= yy < y ==> grid_row(g@, w as int, yy) == sorted_runs(
                    grid_row(src@, w as int, yy),
                ),
        decreases h - y,
    {
        let ghost before = g@;
        proof {
            lemma_row_bounds(w as int, h as int, y as int);
        }
        let mut row = extract_row(src, w, h, y);
        sort_chunk(&mut row);
        write_row(g, w, h, y, &row);
        proof {
            assert forall|yy: int| 0 <= yy < y implies grid_row(g@, w as int, yy) =~= grid_row(
                before,
                w as int,
                yy,
            ) by {
                lemma_row_disjoint(w as int, y as int, yy);
                lemma_row_bounds(w as int, h as int, yy);
                assert forall|t: int|
                    0 <= t < w implies #[trigger] grid_row(g@, w as int, yy)[t] == grid_row(
                        before,
                        w as int,
                        yy,
                    )[t] by {
                    assert(grid_row(g@, w as int, yy)[t] == g@[yy * (w as int) + t]);
                    assert(g@[yy * (w as int) + t] == before[yy * (w as int) + t]);
                }
            }
            assert forall|t: int|
                0 <= t < w implies #[trigger] grid_row(g@, w as int, y as int)[t] == row@[t] by {
                assert(grid_row(g@, w as int, y as int)[t] == g@[(y as int) * (w as int) + t]);
            }
            assert(grid_row(g@, w as int, y as int) =~= row@);
            assert forall|yy: int| 0 <= yy < y + 1 implies grid_row(g@, w as int, yy)
                == sorted_runs(grid_row(src@, w as int, yy)) by {
                if yy < y {
                    assert(grid_row(g@, w as int, yy) == grid_row(before, w as int, yy));
                    assert(grid_row(before, w as int, yy) == sorted_runs(
                        grid_row(src@, w as int, yy),
                    ));
                } else {
                    assert(grid_row(g@, w as int, y as int) == row@);
                    assert(row@ == sorted_runs(grid_row(src@, w as int, y as int)));
                }
            }
        }
        y = y + 1;
    }
}

/// A grid whose rows are the run-sorted rows of `src` is exactly the
/// engine's specified output.
proof fn lemma_rows_pin(g: Seq<Pixel>, src: Seq<Pixel>, w: int, h: int)
    requires
        w >= 0,
        h >= 0,
        g.len() == w * h,
        forall|yy: int| 0 <= yy < h ==> grid_row(g, w, yy) == sorted_runs(grid_row(src, w, yy)),
    ensures
        g == spec_pixel_sorting(src, w, h),
{
    assert forall|k: int| 0 <= k < w * h implies g[k] == spec_pixel_sorting(src, w, h)[k] by {
        lemma_position_decompose(w, h, k);
        let y = k / w;
        let x = k % w;
        assert(grid_row(g, w, y) == sorted_runs(grid_row(src, w, y)));
        lemma_row_bounds(w, h, y);
        assert(grid_row(g, w, y)[x] == g[y * w + x]);
        assert(g[k] == sorted_runs(grid_row(src, w, y))[x]);
    }
    assert(g =~= spec_pixel_sorting(src, w, h));
}

/// Each output row of the engine is the run-sorted image of the matching
/// source row.
pub proof fn lemma_output_row(src: Seq<Pixel>, w: int, h: int, y: int)
    requires
        w >= 0,
        src.len() == w * h,
        0 <= y < h,
    ensures
        grid_row(spec_pixel_sorting(src, w, h), w, y) == sorted_runs(grid_row(src, w, y)),
{
    lemma_sorted_runs_barriers_fixed(grid_row(src, w, y));
    lemma_row_bounds(w, h, y);
    assert forall|t: int| 0 <= t < w implies grid_row(spec_pixel_sorting(src, w, h), w, y)[t]
        == sorted_runs(grid_row(src, w, y))[t] by {
        lemma_grid_index(w, h, t, y);
        assert(grid_row(spec_pixel_sorting(src, w, h), w, y)[t] == spec_pixel_sorting(src, w, h)[y
            * w + t]);
    }
    assert(grid_row(spec_pixel_sorting(src, w, h), w, y) =~= sorted_runs(grid_row(src, w, y)));
}

/// Running the engine twice over identical source grids yields identical
/// output grids: the output is a function of the pixels and the dimensions
/// alone, with no hidden state.
pub proof fn lemma_pixel_sorting_deterministic(a: Seq<Pixel>, b: Seq<Pixel>, w: int, h: int)
    requires
        a == b,
    ensures
        spec_pixel_sorting(a, w, h) == spec_pixel_sorting(b, w, h),
{
}

/// Produces the sorted image: a fresh blank grid of the source's size is
/// run through the column pass (a no-op on the blank grid, kept by design)
/// and then through the row pass, which rewrites every row with the
/// run-sorted image of the matching source row.  Name and extension are
/// carried over unchanged.
pub fn pixel_sorting(image: &Image) -> (out: Image)
    requires
        image.wf(),
    ensures
        out.wf(),
        out.dimensions == image.dimensions,
        out.image_name@ == image.image_name@,
        out.image_extension@ == image.image_extension@,
        out.pixels@ == spec_pixel_sorting(
            image.pixels@,
            image.dimensions.width as int,
            image.dimensions.height as int,
        ),
{
    let w: usize = image.dimensions.width as usize;
    let h: usize = image.dimensions.height as usize;
    let total: usize = image.pixels.len();
    let mut pixels: Vec<Pixel> = Vec::new();
    while pixels.len() < total
        invariant
            pixels@.len() <= total,
        decreases total - pixels@.len(),
    {
        pixels.push(Pixel { r: 0, g: 0, b: 0, a: 255 });
    }
    column_pass(&mut pixels, w, h);
    row_pass(&image.pixels, &mut pixels, w, h);
    proof {
        lemma_rows_pin(pixels@, image.pixels@, w as int, h as int);
    }
    let image_name = copy_bytes(&image.image_name);
    let image_extension = copy_bytes(&image.image_extension);
    Image { pixels, dimensions: image.dimensions, image_name, image_extension }
}

} // verus!
