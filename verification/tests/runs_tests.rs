use porter::runs::into_intervals;

#[test]
fn empty_bitmap_yields_no_intervals() {
    assert_eq!(into_intervals(vec![]), vec![]);
}

#[test]
fn all_false_yields_no_intervals() {
    assert_eq!(into_intervals(vec![false, false, false]), vec![]);
}

#[test]
fn all_true_yields_one_full_interval() {
    assert_eq!(into_intervals(vec![true, true, true]), vec![(0, 3)]);
}

#[test]
fn run_open_at_the_end_is_closed_at_the_length() {
    assert_eq!(into_intervals(vec![false, true, true]), vec![(1, 3)]);
}

#[test]
fn alternating_bits_yield_singleton_intervals() {
    assert_eq!(
        into_intervals(vec![true, false, true, false, true]),
        vec![(0, 1), (2, 3), (4, 5)]
    );
}

#[test]
fn intervals_cover_exactly_the_true_positions() {
    let bits = vec![false, true, true, false, false, true, false, true, true, true];
    let intervals = into_intervals(bits.clone());
    assert_eq!(intervals, vec![(1, 3), (5, 6), (7, 10)]);
    // The union of the intervals is exactly the set of true positions.
    let mut covered = vec![false; bits.len()];
    for &(s, e) in &intervals {
        assert!(s < e && e <= bits.len());
        for flag in &mut covered[s..e] {
            assert!(!*flag, "intervals overlap");
            *flag = true;
        }
    }
    assert_eq!(covered, bits);
    // Ascending order with a gap between consecutive intervals.
    for w in intervals.windows(2) {
        assert!(w[0].1 < w[1].0);
    }
}
