use binviz::histogram::calculate_histogram;
use binviz::raster::{generate_color_image, generate_image, rasterize, Raster, MAX_CHANNEL, PRESENCE};
use binviz::ranking::{get_most_frequent_bytes, get_top_frequent_bytes};

fn counts(entries: &Vec<(Vec<u8>, usize)>) -> usize {
    entries.iter().map(|e| e.1).sum()
}

fn lit_cells(raster: &Raster) -> usize {
    raster.pixels().iter().filter(|p| **p != (0, 0, 0)).count()
}

#[test]
fn counts_sum_to_number_of_windows() {
    let buffers: Vec<Vec<u8>> = vec![
        vec![],
        vec![9],
        vec![1, 2],
        vec![0, 0, 1, 1, 2, 2],
        (0..=255u8).chain(0..=255u8).collect(),
        vec![5; 40],
    ];
    for b in &buffers {
        for n in 1..=5usize {
            let h = calculate_histogram(b, n);
            let expected = if b.len() >= n { b.len() - n + 1 } else { 0 };
            assert_eq!(counts(h.entries()), expected);
            assert_eq!(h.total(), expected);
            assert_eq!(h.dimension(), n);
        }
    }
}

#[test]
fn short_buffer_gives_empty_histogram() {
    let h = calculate_histogram(&[1, 2], 3);
    assert!(h.is_empty());
    assert_eq!(h.len(), 0);
    let h = calculate_histogram(&[], 1);
    assert!(h.is_empty());
}

#[test]
fn keys_are_in_ascending_order() {
    let h = calculate_histogram(&[3, 1, 2, 1, 3, 0], 2);
    let keys: Vec<Vec<u8>> = h.entries().iter().map(|e| e.0.clone()).collect();
    assert_eq!(keys, vec![vec![0x01, 0x02], vec![0x01, 0x03], vec![0x02, 0x01], vec![0x03, 0x00], vec![0x03, 0x01]]);
}

#[test]
fn three_pairs_scenario() {
    let buf = [0u8, 0, 1, 1, 2, 2];
    let h1 = calculate_histogram(&buf, 1);
    assert_eq!(h1.entries(), &vec![(vec![0u8], 2usize), (vec![1], 2), (vec![2], 2)]);
    let h2 = calculate_histogram(&buf, 2);
    assert_eq!(
        h2.entries(),
        &vec![(vec![0u8, 0], 1usize), (vec![0, 1], 1), (vec![1, 1], 1), (vec![1, 2], 1), (vec![2, 2], 1)]
    );
    let (raster, total, observed) = generate_image(&h2);
    assert_eq!(total, 5);
    assert_eq!(observed, 5);
    assert_eq!(raster.channels(), 1);
    assert_eq!(raster.pixel(0, 0), (MAX_CHANNEL, 0, 0));
    for (x, y) in [(0u8, 0u8), (0, 1), (1, 1), (1, 2), (2, 2)] {
        assert_eq!(raster.pixel(x, y), raster.pixel(0, 0));
    }
    assert_eq!(lit_cells(&raster), 5);
    assert_eq!(raster.pixel(1, 0), (0, 0, 0));
}

#[test]
fn repeated_byte_scenario() {
    let h = calculate_histogram(&[7, 7, 7, 7, 7], 1);
    assert_eq!(h.entries(), &vec![(vec![7u8], 5usize)]);
    assert_eq!(h.len(), 1);
    let ranking = get_most_frequent_bytes(&h);
    assert_eq!(ranking, vec![(&vec![7u8], &5usize)]);
}

#[test]
fn ranking_orders_by_count_then_byte() {
    let buf = [0x42u8, 0x41, 0x10, 0x42, 0x41, 0x42, 0x41, 0x10, 0x99, 0x10, 0x10];
    let h = calculate_histogram(&buf, 1);
    let ranking = get_most_frequent_bytes(&h);
    assert_eq!(
        ranking,
        vec![(&vec![0x10u8], &4usize), (&vec![0x41u8], &3usize), (&vec![0x42u8], &3usize), (&vec![0x99u8], &1usize)]
    );
    assert_eq!(get_most_frequent_bytes(&h), ranking);
}

#[test]
fn ranking_ties_keep_ascending_bytes() {
    let h = calculate_histogram(&[0x42, 0x42, 0x42, 0x41, 0x41, 0x41], 1);
    let ranking = get_most_frequent_bytes(&h);
    assert_eq!(ranking, vec![(&vec![0x41u8], &3usize), (&vec![0x42u8], &3usize)]);
}

#[test]
fn top_k_truncates_ranking() {
    let h = calculate_histogram(&[1, 2, 2, 3, 3, 3], 1);
    let top = get_top_frequent_bytes(&h, 2);
    assert_eq!(top, vec![(&vec![3u8], &3usize), (&vec![2u8], &2usize)]);
    assert!(get_top_frequent_bytes(&h, 0).is_empty());
}

#[test]
fn top_k_beyond_distinct_returns_all() {
    let h = calculate_histogram(&[1, 2, 2, 3, 3, 3], 1);
    let top = get_top_frequent_bytes(&h, 300);
    assert_eq!(top.len(), 3);
    assert_eq!(top, get_most_frequent_bytes(&h));
}

#[test]
fn empty_histogram_rasters_black() {
    let h = calculate_histogram(&[4], 2);
    let (raster, total, observed) = generate_image(&h);
    assert_eq!(total, 0);
    assert_eq!(observed, 0);
    assert_eq!(raster.pixels().len(), 256 * 256);
    assert_eq!(lit_cells(&raster), 0);
    let h3 = calculate_histogram(&[], 3);
    let (raster, total, observed) = generate_color_image(&h3);
    assert_eq!((total, observed), (0, 0));
    assert_eq!(lit_cells(&raster), 0);
}

#[test]
fn brightness_rounds_and_clips() {
    // pairs (0,1) once and (1,1) three times: average count 2
    let h = calculate_histogram(&[0, 1, 1, 1, 1], 2);
    let (raster, total, observed) = generate_image(&h);
    assert_eq!((total, observed), (4, 2));
    assert_eq!(raster.pixel(0, 1), (32768, 0, 0));
    assert_eq!(raster.pixel(1, 1), (MAX_CHANNEL, 0, 0));
    assert_eq!(raster.pixel(1, 0), (0, 0, 0));
    assert_eq!(raster.pixels()[256], (32768, 0, 0));
}

#[test]
fn brightness_below_average() {
    // pairs (0,0) nine times, (0,1) once, (1,2) once, (2,3) once: average 3
    let h = calculate_histogram(&[0, 0, 0, 0, 0, 0, 0, 0, 0, 0, 1, 2, 3], 2);
    let (raster, total, observed) = generate_image(&h);
    assert_eq!((total, observed), (12, 4));
    assert_eq!(raster.pixel(0, 1), (21845, 0, 0));
    assert_eq!(raster.pixel(0, 0), (MAX_CHANNEL, 0, 0));
}

#[test]
fn color_raster_channels() {
    let h = calculate_histogram(&[1, 2, 3, 1, 2, 4], 3);
    assert_eq!(h.len(), 4);
    let (raster, total, observed) = generate_color_image(&h);
    assert_eq!((total, observed), (4, 4));
    assert_eq!(raster.channels(), 3);
    assert_eq!(raster.pixel(1, 2), (4 * 257, PRESENCE, MAX_CHANNEL));
    assert_eq!(raster.pixel(2, 3), (257, PRESENCE, MAX_CHANNEL));
    assert_eq!(raster.pixel(3, 1), (2 * 257, PRESENCE, MAX_CHANNEL));
    assert_eq!(lit_cells(&raster), 3);
}

#[test]
fn rasterize_matches_generators() {
    let buf: Vec<u8> = (0..200u8).map(|i| i.wrapping_mul(37) ^ 5).collect();
    let h2 = calculate_histogram(&buf, 2);
    assert_eq!(rasterize(&h2).pixels(), generate_image(&h2).0.pixels());
    let h3 = calculate_histogram(&buf, 3);
    assert_eq!(rasterize(&h3).pixels(), generate_color_image(&h3).0.pixels());
    assert_eq!(rasterize(&h3).channels(), 3);
}
