use latency_tool::app::{
    csv_contents, csv_path, device_name, find_device, or_first_device, selected_text,
    wants_calibration, Detection, DetectionPoll, SaveDialog, StreamRequest,
};
use latency_tool::float_bits::{Float32, Float64};
use latency_tool::latency::StreamInstant;
use latency_tool::state::{AppMode, MeasurementPhase, SharedState};

fn d(x: f64) -> Float64 {
    Float64 { bits: x.to_bits() }
}

fn s(x: f32) -> Float32 {
    Float32 { bits: x.to_bits() }
}

fn names(list: &[&str]) -> Vec<String> {
    list.iter().map(|n| n.to_string()).collect()
}

fn found(latency: f64, above: f64) -> Detection {
    Detection {
        ncc_peak: s(0.95),
        latency_ms: d(latency),
        output_delay_ms: d(12.0),
        lag_ms: d(latency + 12.0),
        above_offset_ms: d(above),
    }
}

fn streaming() -> SharedState {
    let mut st = SharedState::new();
    st.output_started(44_100);
    st.input_started(16_000);
    st
}

#[test]
fn detection_loop_leaves_when_streams_are_down() {
    let mut st = SharedState::new();
    st.phase = MeasurementPhase::Listening;
    assert!(matches!(st.poll_detection(), DetectionPoll::Stopped));
}

#[test]
fn detection_loop_waits_unless_listening() {
    let mut st = streaming();
    for phase in [MeasurementPhase::Idle, MeasurementPhase::Playing, MeasurementPhase::Detected] {
        st.phase = phase;
        assert!(matches!(st.poll_detection(), DetectionPoll::Waiting));
        assert_eq!(st.phase, phase);
    }
}

#[test]
fn detection_loop_searches_while_listening() {
    let mut st = streaming();
    st.phase = MeasurementPhase::Listening;
    st.capture(&vec![s(0.5), s(0.25)]);
    st.playback_instant = Some(StreamInstant { nanos: 9 });
    st.playback_frame_offset = 4;
    match st.poll_detection() {
        DetectionPoll::Search(search) => {
            assert_eq!(search.capture, vec![s(0.5), s(0.25)]);
            assert_eq!((search.input_rate, search.output_rate), (16_000, 44_100));
            assert_eq!(search.playback_instant, Some(StreamInstant { nanos: 9 }));
            assert_eq!(search.output_callback_instant, None);
            assert_eq!(search.playback_frame_offset, 4);
        }
        _ => panic!("no search"),
    }
}

#[test]
fn detection_loop_counts_a_miss_behind_the_timeout() {
    let mut st = streaming();
    st.phase = MeasurementPhase::Listening;
    st.phase_start_sample = 100;
    st.capture_sample_counter = 100 + 5 * 44_100;
    assert!(matches!(st.poll_detection(), DetectionPoll::Search(_)));
    st.capture_sample_counter += 1;
    assert!(matches!(st.poll_detection(), DetectionPoll::Missed));
    assert_eq!(st.miss_count, 1);
    assert_eq!(st.phase, MeasurementPhase::Playing);
    assert!(st.probe_play_requested);
}

#[test]
fn calibration_ends_with_the_median() {
    let mut st = streaming();
    st.begin_calibration();
    for latency in [30.0, 10.0, 50.0, 20.0] {
        st.record_detection(found(latency, 0.0));
        assert_eq!(st.mode, AppMode::Calibrating);
        assert_eq!(st.phase, MeasurementPhase::Playing);
        assert!(st.probe_play_requested);
        st.probe_play_requested = false;
    }
    assert_eq!(st.system_offset_ms, d(0.0));
    st.record_detection(found(40.0, 0.0));
    assert_eq!(st.system_offset_ms, d(30.0));
    assert_eq!((st.mode, st.phase), (AppMode::Idle, MeasurementPhase::Idle));
    assert!(!st.probe_play_requested);
    assert!(st.shows_offset());
}

#[test]
fn measuring_keeps_non_negative_latencies() {
    let mut st = streaming();
    st.begin_measuring();
    st.record_detection(found(35.0, 5.0));
    st.record_detection(found(25.0, -5.0));
    st.record_detection(found(25.0, f64::NAN));
    let kept: Vec<Float64> = st.measurements.iter().copied().collect();
    assert_eq!(kept, vec![d(5.0), d(0.0), d(0.0)]);
    assert_eq!(st.measurement_count, 3);
    assert_eq!(st.last_latency_ms, Some(d(25.0)));
    assert_eq!(st.last_output_delay_ms, Some(d(12.0)));
    assert_eq!(st.last_lag_ms, Some(d(37.0)));
    assert_eq!(st.last_ncc_peak, s(0.95));
    assert!(st.shows_timing());
}

#[test]
fn measuring_keeps_the_newest_thousand() {
    let mut st = streaming();
    st.begin_measuring();
    for i in 0..1003 {
        st.record_detection(found(50.0, i as f64));
    }
    assert_eq!(st.measurements.len(), 1000);
    assert_eq!(st.measurements[0], d(3.0));
    assert_eq!(st.measurements[999], d(1002.0));
    assert_eq!(st.measurement_count, 1003);
    assert_eq!(st.stats().unwrap().count, 1003);
}

#[test]
fn detection_after_a_stop_is_only_shown() {
    let mut st = streaming();
    st.record_detection(found(35.0, 5.0));
    assert_eq!(st.phase, MeasurementPhase::Detected);
    assert!(st.measurements.is_empty() && !st.probe_play_requested);
}

#[test]
fn starting_needs_both_devices() {
    let mut st = SharedState::new();
    assert_eq!(st.request_streams(), StreamRequest::DeviceMissing);
    assert_eq!(st.error_message.as_deref(), Some("Select an output device first"));
    st.output_device_idx = Some(2);
    assert_eq!(st.request_streams(), StreamRequest::DeviceMissing);
    assert_eq!(st.error_message.as_deref(), Some("Select an input device first"));
    st.input_device_idx = Some(1);
    assert_eq!(st.request_streams(), StreamRequest::Start { output: 2, input: 1 });
    st.streams_active = true;
    assert_eq!(st.request_streams(), StreamRequest::Running);
}

#[test]
fn streams_set_rates_and_ring() {
    let mut st = SharedState::new();
    st.capture_write_pos = 9;
    st.output_started(44_100);
    assert_eq!(st.listen_timeout_samples, 220_500);
    assert_eq!(st.inter_probe_gap_samples, 44_100);
    assert!(!st.streams_active);
    st.input_started(16_000);
    assert_eq!(st.capture_buffer.len(), 160_000);
    assert_eq!(st.capture_write_pos, 0);
    assert_eq!((st.output_sample_rate, st.input_sample_rate), (44_100, 16_000));
    assert!(st.streams_active);
}

#[test]
fn controls_move_between_modes() {
    let mut st = streaming();
    st.set_error("boom");
    assert_eq!(st.error_message.as_deref(), Some("boom"));
    st.begin_measuring();
    assert_eq!((st.mode, st.phase), (AppMode::Measuring, MeasurementPhase::Idle));
    assert_eq!(st.error_message, None);
    st.play_if_streaming();
    assert_eq!(st.phase, MeasurementPhase::Playing);
    assert!(st.probe_play_requested);
    st.stop();
    assert_eq!((st.mode, st.phase), (AppMode::Idle, MeasurementPhase::Idle));
    assert!(!st.probe_play_requested && st.streams_active);
    st.streams_active = false;
    st.begin_calibration();
    st.play_if_streaming();
    assert_eq!((st.mode, st.phase), (AppMode::Calibrating, MeasurementPhase::Idle));
    assert!(!st.probe_play_requested);
}

#[test]
fn labels_are_as_shown() {
    assert_eq!(AppMode::Idle.label(), "Idle");
    assert_eq!(AppMode::Calibrating.label(), "Calibrating");
    assert_eq!(AppMode::Measuring.label(), "Measuring");
    assert_eq!(MeasurementPhase::Idle.label(), "Idle");
    assert_eq!(MeasurementPhase::Playing.label(), "Playing probe...");
    assert_eq!(MeasurementPhase::Listening.label(), "Listening...");
    assert_eq!(MeasurementPhase::Detected.label(), "Detected!");
}

#[test]
fn nothing_to_show_at_first() {
    let st = SharedState::new();
    assert!(!st.shows_offset());
    assert!(!st.shows_timing());
}

#[test]
fn devices_are_found_by_name() {
    let list = names(&["Mic", "Line", "Mic"]);
    assert_eq!(find_device(&list, &Some("Mic".to_string())), Some(0));
    assert_eq!(find_device(&list, &Some("Line".to_string())), Some(1));
    assert_eq!(find_device(&list, &Some("line".to_string())), None);
    assert_eq!(find_device(&list, &None), None);
}

#[test]
fn first_device_stands_in_for_a_choice() {
    assert_eq!(or_first_device(None, 3), Some(0));
    assert_eq!(or_first_device(None, 0), None);
    assert_eq!(or_first_device(Some(2), 3), Some(2));
}

#[test]
fn chosen_devices_have_names() {
    let list = names(&["Mic", "Line"]);
    assert_eq!(device_name(&list, Some(1)), Some("Line".to_string()));
    assert_eq!(device_name(&list, Some(2)), None);
    assert_eq!(device_name(&list, None), None);
    assert_eq!(selected_text(&list, None), "Mic");
    assert_eq!(selected_text(&list, Some(1)), "Line");
    assert_eq!(selected_text(&list, Some(5)), "None");
    assert_eq!(selected_text(&names(&[]), None), "None");
}

#[test]
fn calibration_is_asked_for_by_argument() {
    assert!(wants_calibration(&names(&["tool", "--calibrate"])));
    assert!(wants_calibration(&names(&["tool", "x", "-calibrate"])));
    assert!(!wants_calibration(&names(&["tool", "calibrate"])));
    assert!(!wants_calibration(&names(&[])));
}

#[test]
fn file_names_end_in_csv() {
    assert_eq!(csv_path("run"), "run.csv");
    assert_eq!(csv_path("run.csv"), "run.csv");
    assert_eq!(csv_path("run.CSV"), "run.CSV.csv");
    assert_eq!(csv_path(".csv"), ".csv");
    assert_eq!(csv_path("csv"), "csv.csv");
    assert_eq!(csv_path("messung-ä"), "messung-ä.csv");
}

#[test]
fn results_have_a_heading_and_numbered_lines() {
    let mut values: Vec<String> = Vec::new();
    for i in 0..11 {
        values.push(format!("{:.2}", i as f64 * 1.5));
    }
    let contents = csv_contents(&values).unwrap();
    let mut expected = String::from("measurement,latency_ms\n");
    for (i, value) in values.iter().enumerate() {
        expected.push_str(&format!("{},{}\n", i + 1, value));
    }
    assert_eq!(contents, expected);
    assert!(contents.ends_with("11,15.00\n"));
}

#[test]
fn no_results_cannot_be_saved() {
    assert_eq!(csv_contents(&Vec::new()), Err("No measurements to save".to_string()));
}

#[test]
fn save_dialog_reports_what_became_of_it() {
    let mut dialog = SaveDialog::new();
    assert!(!dialog.open && !dialog.can_save());
    dialog.show();
    dialog.filename = "run".to_string();
    assert!(dialog.open && dialog.can_save());
    dialog.finish(Ok(()));
    assert_eq!(dialog.message.as_deref(), Some("Saved to run.csv"));
    assert!(!dialog.open);
    dialog.show();
    assert!(dialog.message.is_none() && dialog.filename.is_empty());
    dialog.filename = "run".to_string();
    dialog.finish(Err("disk full".to_string()));
    assert_eq!(dialog.message.as_deref(), Some("disk full"));
    dialog.show();
    dialog.cancel();
    assert!(!dialog.open);
}
