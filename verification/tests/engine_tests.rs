use pixel_sort::engine::{column_pass, pixel_sorting, row_pass};
use pixel_sort::image::Image;
use pixel_sort::pixel::Pixel;

fn gray(c: u8) -> Pixel {
    Pixel { r: c, g: c, b: c, a: 255 }
}

fn grays(cs: &[u8]) -> Vec<Pixel> {
    cs.iter().map(|&c| gray(c)).collect()
}

fn channels(v: &[Pixel]) -> Vec<u8> {
    v.iter().map(|p| p.r).collect()
}

fn make_image(width: u32, height: u32, cs: &[u8]) -> Image {
    Image::read_image(width, height, grays(cs), b"input.png".to_vec())
}

#[test]
fn single_column_with_barriers_is_unchanged() {
    // luminosities 0.9, 0.5, 0.1: barrier, a run of one, barrier
    let img = make_image(1, 3, &[230, 128, 26]);
    let out = pixel_sorting(&img);
    assert_eq!(channels(&out.pixels), vec![230, 128, 26]);
}

#[test]
fn column_of_five_sorts_runs_between_barriers() {
    // luminosities 0.5, 0.6, 0.4 | 0.9 | 0.3: one run of three, a barrier,
    // and a run of one
    let mut column = grays(&[128, 153, 102, 230, 77]);
    column_pass(&mut column, 1, 5);
    assert_eq!(channels(&column), vec![102, 128, 153, 230, 77]);
}

#[test]
fn all_barrier_image_is_unchanged() {
    // every luminosity at or above 0.8
    let img = make_image(2, 2, &[210, 255, 230, 204]);
    let out = pixel_sorting(&img);
    assert_eq!(channels(&out.pixels), vec![210, 255, 230, 204]);
}

#[test]
fn all_sortable_row_is_fully_sorted() {
    let img = make_image(6, 1, &[150, 80, 120, 200, 64, 100]);
    let out = pixel_sorting(&img);
    assert_eq!(channels(&out.pixels), vec![64, 80, 100, 120, 150, 200]);
}

#[test]
fn rows_are_sorted_independently() {
    let img = make_image(3, 2, &[150, 80, 100, 90, 250, 70]);
    let out = pixel_sorting(&img);
    // first row is one run; in the second the barrier 250 splits two
    // single-pixel runs
    assert_eq!(channels(&out.pixels), vec![80, 100, 150, 90, 250, 70]);
}

#[test]
fn row_pass_reads_the_source_not_the_target() {
    let src = grays(&[150, 80]);
    let mut target = grays(&[255, 255]);
    row_pass(&src, &mut target, 2, 1);
    assert_eq!(channels(&target), vec![80, 150]);
}

#[test]
fn barrier_pixels_keep_their_position_and_value() {
    let img = make_image(4, 1, &[20, 180, 100, 250]);
    let out = pixel_sorting(&img);
    assert_eq!(out.pixels[0], gray(20));
    assert_eq!(out.pixels[3], gray(250));
    assert_eq!(channels(&out.pixels), vec![20, 100, 180, 250]);
}

#[test]
fn output_rows_are_permutations_of_input_rows() {
    let img = make_image(4, 2, &[150, 64, 203, 100, 90, 80, 70, 65]);
    let out = pixel_sorting(&img);
    for row in 0..2usize {
        let mut before = channels(&img.pixels[row * 4..(row + 1) * 4]);
        let mut after = channels(&out.pixels[row * 4..(row + 1) * 4]);
        before.sort();
        after.sort();
        assert_eq!(before, after);
    }
}

#[test]
fn engine_is_deterministic() {
    let cs = [150, 80, 120, 250, 64, 100, 20, 90, 130];
    let a = pixel_sorting(&make_image(3, 3, &cs));
    let b = pixel_sorting(&make_image(3, 3, &cs));
    assert_eq!(a.pixels, b.pixels);
    assert_eq!(a.dimensions, b.dimensions);
}

#[test]
fn output_carries_name_dimensions_and_extension() {
    let img = make_image(2, 1, &[100, 90]);
    let out = pixel_sorting(&img);
    assert_eq!(out.dimensions, img.dimensions);
    assert_eq!(out.image_name, b"input".to_vec());
    assert_eq!(out.image_extension, b"png".to_vec());
}

#[test]
fn empty_image_yields_empty_output() {
    let img = make_image(0, 0, &[]);
    let out = pixel_sorting(&img);
    assert_eq!(out.pixels.len(), 0);
}
