use latency_tool::detection::{
    best_match, coarse_candidates, coarse_window, find_top_peaks, fine_margin, fine_peak,
    fine_window, CoarseCandidate, FineMatch, FinePeak, FineWindow,
};
use latency_tool::float_bits::{Float32, Float64};

fn s(x: f32) -> Float32 {
    Float32 { bits: x.to_bits() }
}

fn d(x: f64) -> Float64 {
    Float64 { bits: x.to_bits() }
}

fn singles(values: &[f32]) -> Vec<Float32> {
    values.iter().map(|&x| s(x)).collect()
}

fn ramp(n: usize) -> Vec<Float32> {
    (0..n).map(|i| s(i as f32)).collect()
}

#[test]
fn coarse_window_skips_transients_and_cuts_to_the_lag() {
    let w = coarse_window(&ramp(100), 20, 30).unwrap();
    assert_eq!(w.max_lag, 30);
    assert_eq!(w.capture, ramp(60)[10..].to_vec());
}

#[test]
fn coarse_window_is_limited_by_the_capture() {
    let w = coarse_window(&ramp(100), 20, 5000).unwrap();
    assert_eq!(w.max_lag, 70);
    assert_eq!(w.capture, ramp(100)[10..].to_vec());
}

#[test]
fn coarse_window_refuses_what_is_too_short() {
    assert!(coarse_window(&ramp(29), 20, 100).is_none());
    assert!(coarse_window(&ramp(30), 20, 100).is_none());
    assert!(coarse_window(&ramp(31), 20, 100).is_some());
    assert!(coarse_window(&ramp(100), 1, 100).is_none());
    assert!(coarse_window(&ramp(100), 2, 100).is_some());
    assert!(coarse_window(&ramp(100), 20, 0).is_none());
    assert!(coarse_window(&ramp(0), 2, 100).is_none());
    assert!(coarse_window(&ramp(5), usize::MAX, 100).is_none());
}

#[test]
fn peaks_keep_their_distance() {
    let values = singles(&[0.1, 0.9, 0.8, 0.2, 0.7, 0.6, 0.5]);
    assert_eq!(find_top_peaks(&values, 3, 1), vec![(1, s(0.9)), (4, s(0.7)), (6, s(0.5))]);
    assert_eq!(find_top_peaks(&values, 2, 1), vec![(1, s(0.9)), (4, s(0.7))]);
    assert_eq!(find_top_peaks(&values, 3, 2), vec![(1, s(0.9)), (4, s(0.7))]);
    assert_eq!(find_top_peaks(&values, 3, 100), vec![(1, s(0.9))]);
    assert_eq!(find_top_peaks(&values, 3, usize::MAX), vec![(1, s(0.9))]);
    assert_eq!(find_top_peaks(&values, 0, 1), vec![]);
}

#[test]
fn peaks_with_no_separation_are_the_largest_values() {
    let values = singles(&[0.1, 0.9, 0.8, 0.2]);
    assert_eq!(find_top_peaks(&values, 3, 0), vec![(1, s(0.9)), (2, s(0.8)), (3, s(0.2))]);
}

#[test]
fn peaks_are_positive_numbers() {
    assert_eq!(find_top_peaks(&singles(&[0.0, -0.5, -1.0]), 5, 1), vec![]);
    assert_eq!(find_top_peaks(&singles(&[f32::NAN, -2.0]), 5, 1), vec![]);
    assert_eq!(find_top_peaks(&singles(&[f32::NAN, 0.25]), 5, 0), vec![(1, s(0.25))]);
    assert_eq!(find_top_peaks(&singles(&[0.25, 0.25]), 5, 0), vec![(0, s(0.25)), (1, s(0.25))]);
}

#[test]
fn candidates_start_with_the_best_and_stop_below_the_threshold() {
    let mut values = vec![s(0.0); 900];
    values[50] = s(0.35);
    values[300] = s(0.8);
    values[700] = s(0.29);
    assert_eq!(
        coarse_candidates(&values),
        Some(vec![
            CoarseCandidate { lag: 310, ncc: s(0.8) },
            CoarseCandidate { lag: 60, ncc: s(0.35) },
        ])
    );
}

#[test]
fn candidates_within_the_separation_are_passed_over() {
    let mut values = vec![s(0.0); 900];
    values[300] = s(0.8);
    values[500] = s(0.7);
    values[501] = s(0.6);
    assert_eq!(
        coarse_candidates(&values),
        Some(vec![
            CoarseCandidate { lag: 310, ncc: s(0.8) },
            CoarseCandidate { lag: 511, ncc: s(0.6) },
        ])
    );
}

#[test]
fn candidates_are_five_at_most() {
    let mut values = vec![s(0.0); 2000];
    for i in 0..8 {
        values[i * 201] = s(0.9);
    }
    assert_eq!(coarse_candidates(&values).unwrap().len(), 5);
}

#[test]
fn candidates_need_a_good_match() {
    assert_eq!(coarse_candidates(&singles(&[0.0, 0.0])), None);
    assert_eq!(coarse_candidates(&singles(&[0.1, 0.39])), None);
    assert!(coarse_candidates(&singles(&[0.1, 0.4])).is_some());
}

#[test]
fn fine_margin_is_ten_milliseconds() {
    for rate in [8_000u32, 11_025, 22_050, 44_100, 48_000, 96_000, 192_000, 12_345, u32::MAX] {
        assert_eq!(fine_margin(rate), (10.0f64 / 1000.0 * rate as f64) as usize);
    }
}

#[test]
fn fine_window_lies_around_the_coarse_lag() {
    let energy = d(1.0);
    assert_eq!(
        fine_window(10_000, 1_000, 5_000, 480, energy),
        Some(FineWindow { start: 4_520, end: 5_480 })
    );
    assert_eq!(
        fine_window(10_000, 1_000, 100, 480, energy),
        Some(FineWindow { start: 0, end: 580 })
    );
    assert_eq!(
        fine_window(10_000, 1_000, 8_900, 480, energy),
        Some(FineWindow { start: 8_420, end: 9_000 })
    );
    assert_eq!(
        fine_window(10_000, 1_000, 5_000, usize::MAX, energy),
        Some(FineWindow { start: 0, end: 9_000 })
    );
}

#[test]
fn fine_window_needs_room_and_a_template() {
    assert_eq!(fine_window(10_000, 1_000, 9_480, 480, d(1.0)), None);
    assert_eq!(fine_window(10_000, 0, 5_000, 480, d(1.0)), None);
    assert_eq!(fine_window(900, 1_000, 0, 480, d(1.0)), None);
    assert_eq!(fine_window(10_000, 1_000, 5_000, 480, d(0.99e-20)), None);
    assert!(fine_window(10_000, 1_000, 5_000, 480, d(1e-20)).is_some());
    assert!(fine_window(10_000, 1_000, 5_000, 480, d(f64::NAN)).is_some());
}

#[test]
fn fine_peak_knows_its_neighbours() {
    let values: Vec<Float64> = [0.1, 0.8, 0.95, 0.7].iter().map(|&x| d(x)).collect();
    assert_eq!(
        fine_peak(&values),
        Some(FinePeak { index: 2, ncc: d(0.95), neighbours: Some((d(0.8), d(0.7))) })
    );
}

#[test]
fn fine_peak_at_an_edge_has_none() {
    let first: Vec<Float64> = [0.9, 0.8].iter().map(|&x| d(x)).collect();
    assert_eq!(fine_peak(&first), Some(FinePeak { index: 0, ncc: d(0.9), neighbours: None }));
    let last: Vec<Float64> = [0.3, 0.8].iter().map(|&x| d(x)).collect();
    assert_eq!(fine_peak(&last), Some(FinePeak { index: 1, ncc: d(0.8), neighbours: None }));
}

#[test]
fn fine_peak_must_be_high_enough() {
    assert_eq!(fine_peak(&vec![d(0.1), d(0.29)]), None);
    assert!(fine_peak(&vec![d(0.1), d(0.3)]).is_some());
}

#[test]
fn best_match_is_reported_if_good_enough() {
    let a = FineMatch { lag: d(100.5), ncc: s(0.93) };
    let b = FineMatch { lag: d(200.25), ncc: s(0.97) };
    let c = FineMatch { lag: d(300.0), ncc: s(0.97) };
    assert_eq!(best_match(&vec![a, b, c]), Some(b));
    assert_eq!(best_match(&vec![a]), Some(a));
    assert_eq!(best_match(&vec![]), None);
    assert_eq!(best_match(&vec![FineMatch { lag: d(1.0), ncc: s(0.919) }]), None);
    assert!(best_match(&vec![FineMatch { lag: d(1.0), ncc: s(0.92) }]).is_some());
}
