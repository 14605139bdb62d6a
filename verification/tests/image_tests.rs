use pixel_sort::image::{Image, ImageDimensions};
use pixel_sort::pixel::Pixel;

fn gray(c: u8) -> Pixel {
    Pixel { r: c, g: c, b: c, a: 255 }
}

#[test]
fn read_image_splits_name_and_extension() {
    let pixels = vec![gray(10), gray(20), gray(30), gray(40)];
    let img = Image::read_image(2, 2, pixels, b"/some/dir/photo.png".to_vec());
    assert_eq!(img.dimensions, ImageDimensions { width: 2, height: 2 });
    assert_eq!(img.image_name, b"photo".to_vec());
    assert_eq!(img.image_extension, b"png".to_vec());
    assert_eq!(img.pixels, vec![gray(10), gray(20), gray(30), gray(40)]);
}

#[test]
fn read_image_without_directories() {
    let img = Image::read_image(1, 1, vec![gray(5)], b"photo.jpeg".to_vec());
    assert_eq!(img.image_name, b"photo".to_vec());
    assert_eq!(img.image_extension, b"jpeg".to_vec());
}

#[test]
fn read_image_name_stops_at_first_dot_extension_after_last() {
    let img = Image::read_image(1, 1, vec![gray(5)], b"dir/a.b.c.png".to_vec());
    assert_eq!(img.image_name, b"a".to_vec());
    assert_eq!(img.image_extension, b"png".to_vec());
}

#[test]
fn sorted_file_name_appends_suffix_and_extension() {
    let img = Image::read_image(1, 1, vec![gray(5)], b"/p/photo.png".to_vec());
    assert_eq!(img.sorted_file_name(), b"photo_sorted.png".to_vec());
}

#[test]
fn sorted_file_name_for_dotted_name() {
    let img = Image::read_image(1, 1, vec![gray(5)], b"shot.of.day.tiff".to_vec());
    assert_eq!(img.sorted_file_name(), b"shot_sorted.tiff".to_vec());
}
