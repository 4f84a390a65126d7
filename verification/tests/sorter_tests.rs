use porter::metric::{key, SortBy};
use porter::sorter::{sort_image, sort_row};
use porter::Pixel;

fn gray(v: u8) -> Pixel {
    Pixel { r: v, g: v, b: v, a: 255 }
}

fn px(r: u8, g: u8, b: u8) -> Pixel {
    Pixel { r, g, b, a: 255 }
}

/// A 1-by-5 row whose luminance keys are [10, 200, 50, 220, 5]: gray pixels
/// have luminance equal to their channel value.
fn sample_row() -> Vec<Pixel> {
    vec![gray(10), gray(200), gray(50), gray(220), gray(5)]
}

#[test]
fn narrow_threshold_leaves_singleton_runs_unchanged() {
    // Threshold [0, 100] picks out indices 0, 2 and 4 as three singleton
    // runs; the out-of-range pixels at indices 1 and 3 stay untouched, and a
    // single in-range pixel is trivially sorted, so nothing moves.
    let mut row = sample_row();
    sort_row(&mut row, &SortBy::Luminance, 0, 100);
    assert_eq!(row, sample_row());
}

#[test]
fn full_threshold_sorts_the_whole_row() {
    // Threshold [0, 255] takes everything into one run [0, 5), reordered to
    // ascending luminance [5, 10, 50, 200, 220].
    let mut row = sample_row();
    sort_row(&mut row, &SortBy::Luminance, 0, 255);
    assert_eq!(row, vec![gray(5), gray(10), gray(50), gray(200), gray(220)]);
}

#[test]
fn keys_ascend_within_a_run() {
    let mut row = vec![px(200, 0, 0), px(0, 200, 0), px(0, 0, 200), px(100, 100, 0)];
    sort_row(&mut row, &SortBy::Luminance, 0, 255);
    for w in row.windows(2) {
        assert!(key(&SortBy::Luminance, &w[0]) <= key(&SortBy::Luminance, &w[1]));
    }
    assert_eq!(
        row,
        vec![px(0, 0, 200), px(200, 0, 0), px(100, 100, 0), px(0, 200, 0)]
    );
}

#[test]
fn sorting_permutes_and_keeps_out_of_range_pixels() {
    // Luminance keys: 42, 143, 14, 92. Threshold [0, 100] leaves the green
    // pixel (key 143) fixed in place and splits the rest into the runs
    // [0, 1) and [2, 4), each of which is a permutation of what stood there.
    let mut row = vec![px(200, 0, 0), px(0, 200, 0), px(0, 0, 200), px(100, 100, 0)];
    let before = row.clone();
    sort_row(&mut row, &SortBy::Luminance, 0, 100);
    // Out-of-range pixel is byte-identical in place.
    assert_eq!(row[1], before[1]);
    // The row as a whole is a permutation of its old self.
    let mut sorted_before = before.clone();
    let mut sorted_after = row.clone();
    sorted_before.sort_by_key(|p| (p.r, p.g, p.b, p.a));
    sorted_after.sort_by_key(|p| (p.r, p.g, p.b, p.a));
    assert_eq!(sorted_before, sorted_after);
}

#[test]
fn equal_keys_keep_their_relative_order() {
    // Two distinct pixels with the same luminance key 2: the sort is stable,
    // so their relative order is reproducible across runs.
    let a = px(10, 0, 0);
    let b = px(0, 0, 30);
    assert_eq!(key(&SortBy::Luminance, &a), 2);
    assert_eq!(key(&SortBy::Luminance, &b), 2);
    let mut row = vec![gray(5), a, b, gray(0)];
    sort_row(&mut row, &SortBy::Luminance, 0, 255);
    assert_eq!(row, vec![gray(0), a, b, gray(5)]);
}

#[test]
fn sorting_a_row_twice_changes_nothing_more() {
    let mut once = sample_row();
    sort_row(&mut once, &SortBy::Luminance, 0, 255);
    let mut twice = once.clone();
    sort_row(&mut twice, &SortBy::Luminance, 0, 255);
    assert_eq!(twice, once);

    let mut once = vec![px(255, 0, 128), px(255, 128, 0), px(0, 255, 0), px(9, 9, 9)];
    sort_row(&mut once, &SortBy::Hue, 10, 360);
    let mut twice = once.clone();
    sort_row(&mut twice, &SortBy::Hue, 10, 360);
    assert_eq!(twice, once);
}

#[test]
fn rows_are_sorted_independently() {
    // Row 1 lies wholly outside the threshold range and keeps every pixel;
    // row 0 is reordered without reading anything from row 1.
    let mut grid = vec![
        vec![gray(90), gray(10), gray(50)],
        vec![gray(200), gray(255), gray(210)],
    ];
    sort_image(&mut grid, &SortBy::Luminance, 0, 100);
    assert_eq!(grid[0], vec![gray(10), gray(50), gray(90)]);
    assert_eq!(grid[1], vec![gray(200), gray(255), gray(210)]);
}

#[test]
fn image_dimensions_are_preserved() {
    let mut grid = vec![
        vec![px(1, 2, 3), px(4, 5, 6)],
        vec![px(7, 8, 9), px(10, 11, 12)],
        vec![px(13, 14, 15), px(16, 17, 18)],
    ];
    sort_image(&mut grid, &SortBy::Saturation, 0, 255);
    assert_eq!(grid.len(), 3);
    for row in &grid {
        assert_eq!(row.len(), 2);
    }
}

#[test]
fn hue_sorting_uses_the_wheel_order() {
    // Hue keys: red 0, yellow 60, green 120, blue 240, rose 329.
    let mut row = vec![px(255, 0, 128), px(0, 0, 255), px(0, 255, 0), px(255, 255, 0)];
    sort_row(&mut row, &SortBy::Hue, 0, 360);
    assert_eq!(
        row,
        vec![px(255, 255, 0), px(0, 255, 0), px(0, 0, 255), px(255, 0, 128)]
    );
}

#[test]
fn empty_row_and_empty_image_are_fine() {
    let mut row: Vec<Pixel> = vec![];
    sort_row(&mut row, &SortBy::Luminance, 0, 255);
    assert_eq!(row, vec![]);
    let mut grid: Vec<Vec<Pixel>> = vec![];
    sort_image(&mut grid, &SortBy::Hue, 0, 360);
    assert_eq!(grid.len(), 0);
}

#[test]
fn saturation_sorting_on_a_band() {
    // Saturation keys: (255,0,0) -> 255, (150,100,50) -> 127, (40,40,40) -> 0.
    // Threshold [100, 255] takes the two colourful pixels as one run.
    let mut row = vec![px(255, 0, 0), px(150, 100, 50), px(40, 40, 40)];
    sort_row(&mut row, &SortBy::Saturation, 100, 255);
    assert_eq!(row, vec![px(150, 100, 50), px(255, 0, 0), px(40, 40, 40)]);
}

#[test]
fn sorting_is_reproducible_across_calls() {
    // The contract pins the result to one arrangement, so two calls on equal
    // rows agree, equal-key pixels included.
    let a = px(10, 0, 0);
    let b = px(0, 0, 30);
    let first = {
        let mut row = vec![gray(200), b, gray(1), a];
        sort_row(&mut row, &SortBy::Luminance, 0, 255);
        row
    };
    let second = {
        let mut row = vec![gray(200), b, gray(1), a];
        sort_row(&mut row, &SortBy::Luminance, 0, 255);
        row
    };
    assert_eq!(first, second);
}
