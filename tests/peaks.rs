use manga_scan::calculate_peaks::{calculate_peaks, Ratio};

#[test]
fn flat_histogram_has_no_peaks() {
    let (confidence, peaks) = calculate_peaks(vec![3, 3, 3, 3, 3, 3, 3]);
    assert!(peaks.is_empty());
    assert_eq!(confidence.num, 0);
    assert_eq!(confidence.den, 7);
}

#[test]
fn single_raised_bucket_is_the_peak() {
    // threshold: 9 / 7 + 7 / 4 = 2
    let (confidence, peaks) = calculate_peaks(vec![0, 0, 0, 0, 0, 9, 0]);
    assert_eq!(peaks, vec![5]);
    assert_eq!(confidence, Ratio::new(5, 7));
}

#[test]
fn runs_keep_their_first_bucket() {
    // threshold: 15 / 8 + 8 / 4 = 3; raised: 2, 3, 5
    let (confidence, peaks) = calculate_peaks(vec![0, 0, 5, 5, 0, 5, 0, 0]);
    assert_eq!(peaks, vec![2, 5]);
    assert_eq!(confidence, Ratio::new(10, 8));
}

#[test]
fn a_run_at_the_start_keeps_its_first_bucket() {
    // threshold: 18 / 8 + 8 / 4 = 4; raised: 0, 1
    let (confidence, peaks) = calculate_peaks(vec![9, 9, 0, 0, 0, 0, 0, 0]);
    assert_eq!(peaks, vec![0]);
    assert_eq!(confidence, Ratio::new(9, 8));
}

#[test]
fn zero_buckets_do_not_lower_the_threshold() {
    // threshold: 4 / 1 + 1 / 4 = 4: the only bucket is not above it
    let (confidence, peaks) = calculate_peaks(vec![4]);
    assert!(peaks.is_empty());
    assert_eq!(confidence, Ratio::new(0, 1));
}

#[test]
fn ratio_comparison_is_exact() {
    assert!(Ratio::new(5, 7).gt(&Ratio::new(6, 10)));
    assert!(!Ratio::new(3, 5).gt(&Ratio::new(6, 10)));
    assert!(!Ratio::new(4, 7).gt(&Ratio::new(6, 10)));
    // a zero denominator counts as zero
    assert!(Ratio::new(1, 100).gt(&Ratio::new(5, 0)));
    assert!(!Ratio::new(5, 0).gt(&Ratio::new(0, 3)));
}
