use latency_tool::detection::{FineMatch, FinePeak, FineWindow};
use latency_tool::detector::{Detector, DetectorEvent, DetectorStage};
use latency_tool::float_bits::{Float32, Float64};

fn s(x: f32) -> Float32 {
    Float32 { bits: x.to_bits() }
}

fn d(x: f64) -> Float64 {
    Float64 { bits: x.to_bits() }
}

fn found(lag: f64, ncc: f32) -> FineMatch {
    FineMatch { lag: d(lag), ncc: s(ncc) }
}

/// A detector on an envelope of 1000 samples, with lags up to 600 and a template of 48000 samples
/// in a capture of 96000 at 48 kHz.
fn started() -> Detector {
    let envelope = vec![s(0.0); 1000];
    Detector::new(&envelope, 300, 600, 96000, 48000, 48000, d(1.0))
}

/// Correlations of the envelopes that peak at the given lags.
fn coarse(peaks: &[(usize, f32)]) -> DetectorEvent {
    let mut values = vec![s(0.01); 601];
    for &(lag, ncc) in peaks {
        values[lag] = s(ncc);
    }
    DetectorEvent::Correlated(values)
}

/// Correlations of a window of `n` lags that peak at one position.
fn fine(n: usize, at: usize, ncc: f64) -> DetectorEvent {
    let mut values = vec![d(0.0); n];
    values[at] = d(ncc);
    DetectorEvent::FineCorrelated(values)
}

fn candidate_lag(detector: &Detector) -> Option<usize> {
    match &detector.stage {
        DetectorStage::Scaling(c) => Some(c.lag),
        _ => None,
    }
}

fn window(detector: &Detector) -> Option<FineWindow> {
    match &detector.stage {
        DetectorStage::Fine(w) => Some(*w),
        _ => None,
    }
}

fn outcome(detector: &Detector) -> Option<Option<FineMatch>> {
    match &detector.stage {
        DetectorStage::Finished(found) => Some(*found),
        _ => None,
    }
}

#[test]
fn a_detection_reports_the_better_of_two_candidates() {
    let mut detector = started();
    match &detector.stage {
        DetectorStage::Coarse(w) => {
            assert_eq!(w.max_lag, 600);
            assert_eq!(w.capture.len(), 900);
        }
        _ => panic!("no coarse stage"),
    }
    detector.advance(coarse(&[(100, 0.5), (400, 0.8)]));
    assert_eq!(candidate_lag(&detector), Some(410));

    detector.advance(DetectorEvent::Scaled(19680));
    assert_eq!(window(&detector), Some(FineWindow { start: 19200, end: 20160 }));
    detector.advance(fine(961, 500, 0.95));
    match &detector.stage {
        DetectorStage::Interpolating(w, peak) => {
            assert_eq!(*w, FineWindow { start: 19200, end: 20160 });
            let sides = Some((d(0.0), d(0.0)));
            assert_eq!(*peak, FinePeak { index: 500, ncc: d(0.95), neighbours: sides });
        }
        _ => panic!("no peak"),
    }
    detector.advance(DetectorEvent::Interpolated(found(19700.25, 0.95)));
    assert_eq!(candidate_lag(&detector), Some(110));

    detector.advance(DetectorEvent::Scaled(5280));
    assert_eq!(window(&detector), Some(FineWindow { start: 4800, end: 5760 }));
    detector.advance(fine(961, 10, 0.99));
    detector.advance(DetectorEvent::Interpolated(found(4810.5, 0.99)));
    assert_eq!(outcome(&detector), Some(Some(found(4810.5, 0.99))));
    assert_eq!(detector.matches, vec![found(19700.25, 0.95), found(4810.5, 0.99)]);
}

#[test]
fn a_match_below_the_threshold_is_not_reported() {
    let mut detector = started();
    detector.advance(coarse(&[(100, 0.5)]));
    detector.advance(DetectorEvent::Scaled(5280));
    detector.advance(fine(961, 10, 0.91));
    detector.advance(DetectorEvent::Interpolated(found(4810.0, 0.91)));
    assert_eq!(outcome(&detector), Some(None));
}

#[test]
fn a_candidate_without_a_window_is_passed_over() {
    let mut detector = started();
    detector.advance(coarse(&[(100, 0.5), (400, 0.8)]));
    detector.advance(DetectorEvent::Scaled(60000));
    assert_eq!(candidate_lag(&detector), Some(110));
    detector.advance(DetectorEvent::Scaled(5280));
    detector.advance(fine(961, 10, 0.29));
    assert_eq!(outcome(&detector), Some(None));
    assert!(detector.matches.is_empty());
}

#[test]
fn faint_envelopes_end_a_detection() {
    let mut detector = started();
    detector.advance(coarse(&[(100, 0.39)]));
    assert_eq!(outcome(&detector), Some(None));
    assert!(detector.candidates.is_empty());
}

#[test]
fn a_short_capture_ends_a_detection() {
    let detector = Detector::new(&vec![s(0.0); 300], 300, 600, 96000, 48000, 48000, d(1.0));
    assert_eq!(outcome(&detector), Some(None));
}

#[test]
fn a_silent_template_is_never_found() {
    let envelope = vec![s(0.0); 1000];
    let mut detector = Detector::new(&envelope, 300, 600, 96000, 48000, 48000, d(0.0));
    detector.advance(coarse(&[(100, 0.5)]));
    detector.advance(DetectorEvent::Scaled(5280));
    assert_eq!(outcome(&detector), Some(None));
}

#[test]
fn detector_ignores_events_out_of_turn() {
    let mut detector = started();
    detector.advance(DetectorEvent::Scaled(5280));
    detector.advance(DetectorEvent::Interpolated(found(1.0, 1.0)));
    detector.advance(DetectorEvent::Correlated(vec![s(0.9); 600]));
    assert!(matches!(detector.stage, DetectorStage::Coarse(_)));
    detector.advance(coarse(&[(100, 0.5)]));
    detector.advance(coarse(&[(400, 0.9)]));
    assert_eq!(candidate_lag(&detector), Some(110));
    detector.advance(DetectorEvent::Scaled(5280));
    detector.advance(fine(960, 10, 0.99));
    detector.advance(DetectorEvent::FineCorrelated(vec![]));
    assert_eq!(window(&detector), Some(FineWindow { start: 4800, end: 5760 }));
    detector.advance(fine(961, 10, 0.1));
    assert_eq!(outcome(&detector), Some(None));
    detector.advance(DetectorEvent::Interpolated(found(1.0, 1.0)));
    assert_eq!(outcome(&detector), Some(None));
}

#[test]
fn a_detection_takes_at_most_sixteen_events() {
    let envelope = vec![s(0.0); 2000];
    let mut detector = Detector::new(&envelope, 300, 1500, 96000, 48000, 48000, d(1.0));
    let mut values = vec![s(0.01); 1501];
    for lag in [0, 300, 600, 900, 1200, 1500] {
        values[lag] = s(0.9);
    }
    detector.advance(DetectorEvent::Correlated(values));
    let mut events = 1;
    while outcome(&detector).is_none() {
        detector.advance(DetectorEvent::Scaled(5280));
        detector.advance(fine(961, 10, 0.99));
        detector.advance(DetectorEvent::Interpolated(found(events as f64, 0.99)));
        events += 3;
    }
    assert_eq!(events, 16);
    assert_eq!(outcome(&detector), Some(Some(found(1.0, 0.99))));
}

/// A detection on a capture with so many envelope samples and full-rate samples.
fn course_on(env_len: usize, capture_len: usize) -> Detector {
    let envelope: Vec<Float32> = (0..env_len).map(|i| s(i as f32)).collect();
    let mut detector = Detector::new(&envelope, 300, 600, capture_len, 48000, 48000, d(1.0));
    match &detector.stage {
        DetectorStage::Coarse(w) => {
            assert_eq!(w.max_lag, 600);
            assert_eq!(w.capture, envelope[10..910].to_vec());
        }
        _ => panic!("no coarse stage"),
    }
    detector.advance(coarse(&[(600, 0.8)]));
    assert_eq!(candidate_lag(&detector), Some(610));
    detector.advance(DetectorEvent::Scaled(29280));
    assert_eq!(window(&detector), Some(FineWindow { start: 28800, end: 29760 }));
    detector.advance(fine(961, 960, 0.95));
    detector.advance(DetectorEvent::Interpolated(found(29760.0, 0.95)));
    detector
}

#[test]
fn samples_behind_the_full_window_change_nothing() {
    let full = course_on(910, 48000 + 620 * 48);
    let longer = course_on(3000, 200_000);
    assert_eq!(outcome(&full), Some(Some(found(29760.0, 0.95))));
    assert_eq!(outcome(&full), outcome(&longer));
}
