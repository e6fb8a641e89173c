use latency_tool::cli::{CalibrationRun, Found, RunEvent, RunStep};
use latency_tool::float_bits::Float64;
use latency_tool::state::{MeasurementPhase, SharedState};

fn d(x: f64) -> Float64 {
    Float64 { bits: x.to_bits() }
}

fn play(run: &mut CalibrationRun) {
    assert_eq!(run.step, RunStep::Request);
    run.advance(RunEvent::Requested);
    assert_eq!(run.step, RunStep::AwaitListening);
    run.advance(RunEvent::Phase(MeasurementPhase::Playing));
    assert_eq!(run.step, RunStep::AwaitListening);
    run.advance(RunEvent::Phase(MeasurementPhase::Listening));
    assert_eq!(run.step, RunStep::CheckClock);
    run.advance(RunEvent::Clock(4_999_999_999));
    assert_eq!(run.step, RunStep::Search);
}

#[test]
fn calibration_plays_ten_probes() {
    let mut run = CalibrationRun::new();
    for i in 0..10 {
        play(&mut run);
        if i % 5 == 4 {
            run.advance(RunEvent::Searched(None));
            assert_eq!(run.step, RunStep::CheckClock);
            run.advance(RunEvent::Clock(5_000_000_000));
        } else {
            run.advance(RunEvent::Searched(Some(Found {
                latency_ms: d(20.0 - i as f64),
                output_delay_ms: d(i as f64),
            })));
        }
        assert_eq!(run.step, RunStep::Pause);
        run.advance(RunEvent::Paused);
    }
    assert_eq!(run.step, RunStep::Done);
    assert_eq!(run.round, 10);
    assert_eq!(run.miss_count, 2);
    assert_eq!(run.measurements.len(), 8);
    assert_eq!(run.output_delay_ms, d(8.0));
    let summary = run.summary().unwrap();
    assert_eq!((summary.min, summary.max), (d(12.0), d(20.0)));
    assert_eq!(summary.median, d(17.0));
    assert_eq!(summary.sorted[0], d(12.0));
}

#[test]
fn events_out_of_turn_change_nothing() {
    let mut run = CalibrationRun::new();
    run.advance(RunEvent::Paused);
    run.advance(RunEvent::Clock(9_000_000_000));
    run.advance(RunEvent::Searched(None));
    assert_eq!((run.step, run.round, run.miss_count), (RunStep::Request, 0, 0));
}

#[test]
fn nothing_found_has_no_summary() {
    assert!(CalibrationRun::new().summary().is_none());
}

#[test]
fn streams_of_a_calibration_listen_by_the_input() {
    let mut st = SharedState::new();
    st.streams_started(48_000, 44_100);
    assert_eq!((st.output_sample_rate, st.input_sample_rate), (48_000, 44_100));
    assert_eq!(st.capture_buffer.len(), 441_000);
    assert_eq!(st.listen_timeout_samples, 220_500);
    assert_eq!(st.inter_probe_gap_samples, 44_100);
    assert!(st.streams_active);
    st.request_probe();
    assert_eq!(st.phase, MeasurementPhase::Playing);
    assert!(st.probe_play_requested);
}
