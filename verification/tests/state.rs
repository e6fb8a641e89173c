use latency_tool::float_bits::{Float32, Float64};
use latency_tool::state::{
    percentile, silence, AppMode, MeasurementPhase, Percentile, SharedState,
};

fn d(x: f64) -> Float64 {
    Float64 { bits: x.to_bits() }
}

fn with_measurements(values: &[f64]) -> SharedState {
    let mut st = SharedState::new();
    for &x in values {
        st.measurements.push_back(d(x));
    }
    st.measurement_count = values.len() as u64;
    st
}

#[test]
fn fresh_state_is_idle() {
    let st = SharedState::new();
    assert_eq!(st.mode, AppMode::Idle);
    assert_eq!(st.phase, MeasurementPhase::Idle);
    assert_eq!(st.capture_buffer, vec![Float32 { bits: 0 }; 480_000]);
    assert_eq!(st.calibration_count, 5);
    assert_eq!(st.listen_timeout_samples, 240_000);
    assert_eq!(st.inter_probe_gap_samples, 48_000);
    assert_eq!((st.output_sample_rate, st.input_sample_rate), (48_000, 48_000));
    assert_eq!(st.system_offset_ms, d(0.0));
    assert!(!st.streams_active && !st.probe_playing && !st.probe_play_requested);
    assert!(st.stats().is_none());
}

#[test]
fn reset_forgets_measurements_and_misses() {
    let mut st = with_measurements(&[1.0, 2.0]);
    st.miss_count = 7;
    st.phase = MeasurementPhase::Listening;
    st.reset_measurements();
    assert!(st.measurements.is_empty());
    assert_eq!((st.measurement_count, st.miss_count), (0, 0));
    assert_eq!(st.phase, MeasurementPhase::Listening);
}

#[test]
fn stats_of_one_measurement() {
    let stats = with_measurements(&[42.5]).stats().unwrap();
    assert_eq!((stats.min, stats.max), (d(42.5), d(42.5)));
    assert_eq!(stats.p50, Percentile::Single(d(42.5)));
    assert_eq!(stats.p95, Percentile::Single(d(42.5)));
    assert_eq!(stats.sorted, vec![d(42.5)]);
    assert_eq!((stats.count, stats.misses), (1, 0));
}

#[test]
fn stats_of_some_measurements() {
    let mut st = with_measurements(&[30.0, 10.0, 20.0, 40.0]);
    st.miss_count = 3;
    let stats = st.stats().unwrap();
    assert_eq!((stats.min, stats.max), (d(10.0), d(40.0)));
    assert_eq!(stats.sorted, vec![d(10.0), d(20.0), d(30.0), d(40.0)]);
    assert_eq!(
        stats.p50,
        Percentile::Between { lower_rank: 1, lower: d(20.0), upper: d(30.0) }
    );
    assert_eq!(
        stats.p95,
        Percentile::Between { lower_rank: 2, lower: d(30.0), upper: d(40.0) }
    );
    assert_eq!((stats.count, stats.misses), (4, 3));
}

#[test]
fn percentile_ranks_are_those_of_the_fractional_rank() {
    for n in 2..=1000usize {
        let values: Vec<f64> = (0..n).map(|i| i as f64).collect();
        let stats = with_measurements(&values).stats().unwrap();
        for (percentile, p) in [(stats.p50, 50.0f64), (stats.p95, 95.0)] {
            let rank = (p / 100.0) * (n - 1) as f64;
            assert_eq!(
                percentile,
                Percentile::Between {
                    lower_rank: rank.floor() as usize,
                    lower: d(rank.floor()),
                    upper: d(rank.ceil()),
                }
            );
        }
    }
}

#[test]
fn silence_is_zeros() {
    assert_eq!(silence(3), vec![Float32 { bits: 0 }; 3]);
    assert_eq!(silence(0), vec![]);
}

#[test]
fn stats_need_only_the_kept_measurements() {
    let mut st = with_measurements(&[30.0, 10.0, 20.0, 50.0, 40.0]);
    st.measurement_count = 7;
    st.miss_count = 2;
    let stats = st.stats().unwrap();
    assert_eq!((stats.min, stats.max), (d(10.0), d(50.0)));
    assert_eq!(
        stats.p50,
        Percentile::Between { lower_rank: 2, lower: d(30.0), upper: d(30.0) }
    );
    assert_eq!(
        stats.p95,
        Percentile::Between { lower_rank: 3, lower: d(40.0), upper: d(50.0) }
    );
    assert_eq!((stats.count, stats.misses), (7, 2));

    let many: Vec<f64> = (0..2001).map(|i| i as f64).collect();
    let stats = with_measurements(&many).stats().unwrap();
    assert_eq!(
        stats.p95,
        Percentile::Between { lower_rank: 1900, lower: d(1900.0), upper: d(1900.0) }
    );
}

#[test]
fn percentiles_are_taken_at_any_fraction() {
    let sorted: Vec<Float64> = [10.0, 20.0, 30.0, 40.0].iter().map(|&x| d(x)).collect();
    let at = |part: u32, whole: u32| percentile(&sorted, part, whole);
    let between = |lower_rank: usize, lower: f64, upper: f64| Percentile::Between {
        lower_rank,
        lower: d(lower),
        upper: d(upper),
    };
    assert_eq!(at(0, 100), between(0, 10.0, 10.0));
    assert_eq!(at(100, 100), between(3, 40.0, 40.0));
    assert_eq!(at(u32::MAX, u32::MAX), between(3, 40.0, 40.0));
    assert_eq!(at(1, 3), between(1, 20.0, 20.0));
    assert_eq!(at(995, 1000), between(2, 30.0, 40.0));
    assert_eq!(at(1, 1000), between(0, 10.0, 20.0));
    assert_eq!(percentile(&vec![d(7.0)], 1, 3), Percentile::Single(d(7.0)));
}
