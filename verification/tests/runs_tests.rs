use pixel_sort::pixel::Pixel;
use pixel_sort::runs::{sort_chunk, sort_interval, sort_pixels};

fn gray(c: u8) -> Pixel {
    Pixel { r: c, g: c, b: c, a: 255 }
}

fn grays(cs: &[u8]) -> Vec<Pixel> {
    cs.iter().map(|&c| gray(c)).collect()
}

fn channels(v: &[Pixel]) -> Vec<u8> {
    v.iter().map(|p| p.r).collect()
}

#[test]
fn sort_pixels_orders_by_ascending_luminosity() {
    let run = grays(&[150, 80, 120, 200, 64, 100]);
    let sorted = sort_pixels(&run);
    assert_eq!(channels(&sorted), vec![64, 80, 100, 120, 150, 200]);
}

#[test]
fn sort_pixels_is_a_permutation() {
    let run = grays(&[90, 70, 90, 65, 70, 70]);
    let sorted = sort_pixels(&run);
    let mut input_channels = channels(&run);
    let mut output_channels = channels(&sorted);
    input_channels.sort();
    output_channels.sort();
    assert_eq!(input_channels, output_channels);
    assert_eq!(channels(&sorted), vec![65, 70, 70, 70, 90, 90]);
}

#[test]
fn sort_pixels_of_empty_run_is_empty() {
    let run: Vec<Pixel> = Vec::new();
    assert_eq!(sort_pixels(&run).len(), 0);
}

#[test]
fn sort_interval_stops_at_barrier_and_sorts_in_place() {
    // luminosities 0.5, 0.6, 0.4 are sortable, 0.9 is a barrier, 0.3 sortable
    let mut chunk = grays(&[128, 153, 102, 230, 77]);
    let end = sort_interval(&mut chunk, 0);
    assert_eq!(end, 3);
    assert_eq!(channels(&chunk), vec![102, 128, 153, 230, 77]);
}

#[test]
fn sort_interval_on_barrier_returns_start() {
    let mut chunk = grays(&[128, 153, 102, 230, 77]);
    let end = sort_interval(&mut chunk, 3);
    assert_eq!(end, 3);
    assert_eq!(channels(&chunk), vec![128, 153, 102, 230, 77]);
}

#[test]
fn sort_interval_runs_to_the_end() {
    let mut chunk = grays(&[128, 153, 102, 230, 77]);
    let end = sort_interval(&mut chunk, 4);
    assert_eq!(end, 5);
    assert_eq!(channels(&chunk), vec![128, 153, 102, 230, 77]);
}

#[test]
fn sort_chunk_sorts_each_run_between_barriers() {
    let mut chunk = grays(&[128, 153, 102, 230, 77]);
    sort_chunk(&mut chunk);
    assert_eq!(channels(&chunk), vec![102, 128, 153, 230, 77]);
}

#[test]
fn sort_chunk_of_all_barriers_is_identity() {
    let mut chunk = grays(&[210, 255, 230, 220]);
    sort_chunk(&mut chunk);
    assert_eq!(channels(&chunk), vec![210, 255, 230, 220]);
}

#[test]
fn sort_chunk_keeps_barriers_in_place() {
    let mut chunk = grays(&[20, 180, 100, 250, 90, 65, 0]);
    sort_chunk(&mut chunk);
    assert_eq!(channels(&chunk), vec![20, 100, 180, 250, 65, 90, 0]);
}

#[test]
fn sort_chunk_carries_the_other_channels_along() {
    // two sortable pixels with distinct colour casts swap as whole pixels
    let bright = Pixel { r: 200, g: 160, b: 150, a: 7 };
    let dim = Pixel { r: 90, g: 100, b: 110, a: 9 };
    let mut chunk = vec![bright, dim];
    sort_chunk(&mut chunk);
    assert_eq!(chunk, vec![dim, bright]);
}
