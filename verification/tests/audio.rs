use latency_tool::float_bits::Float32;
use latency_tool::latency::StreamInstant;
use latency_tool::state::{MeasurementPhase, SharedState};

fn singles(values: &[f32]) -> Vec<Float32> {
    values.iter().map(|x| Float32 { bits: x.to_bits() }).collect()
}

fn at(nanos: i128) -> StreamInstant {
    StreamInstant { nanos }
}

fn small_ring(len: usize) -> SharedState {
    let mut st = SharedState::new();
    st.capture_buffer = singles(&vec![0.0; len]);
    st
}

#[test]
fn idle_output_is_silence() {
    let mut st = SharedState::new();
    let probe = singles(&[0.5, 0.25]);
    let data = st.render_output(&probe, 6, 2, at(5), at(1));
    assert_eq!(data, singles(&[0.0; 6]));
    assert!(st.playback_instant.is_none());
    assert_eq!(st.phase, MeasurementPhase::Idle);
}

#[test]
fn requested_probe_is_played_whole_on_every_channel() {
    let mut st = SharedState::new();
    st.probe_play_requested = true;
    st.phase = MeasurementPhase::Playing;
    st.capture_write_pos = 77;
    st.capture_sample_counter = 99;
    let probe = singles(&[0.5, 0.25, -0.5]);
    let data = st.render_output(&probe, 11, 2, at(5), at(1));
    assert_eq!(
        data,
        singles(&[0.5, 0.5, 0.25, 0.25, -0.5, -0.5, 0.0, 0.0, 0.0, 0.0])
    );
    assert_eq!(st.phase, MeasurementPhase::Listening);
    assert_eq!(st.phase_start_sample, 99);
    assert_eq!(st.emission_write_pos, 77);
    assert_eq!((st.playback_instant, st.output_callback_instant), (Some(at(5)), Some(at(1))));
    assert_eq!(st.playback_frame_offset, 0);
    assert!(!st.probe_playing && !st.probe_play_requested);
}

#[test]
fn probe_goes_on_over_several_callbacks() {
    let mut st = SharedState::new();
    st.probe_play_requested = true;
    let probe = singles(&[1.0, 2.0, 3.0, 4.0]);
    let mut played = st.render_output(&probe, 3, 1, at(5), at(1));
    st.capture_write_pos = 10;
    played.extend(st.render_output(&probe, 1, 1, at(8), at(4)));
    assert!(st.probe_playing);
    played.extend(st.render_output(&probe, 2, 1, at(9), at(5)));
    assert_eq!(played, singles(&[1.0, 2.0, 3.0, 4.0, 0.0, 0.0]));
    assert_eq!(st.emission_write_pos, 0);
    assert_eq!(st.playback_instant, Some(at(5)));
    assert_eq!(st.phase, MeasurementPhase::Listening);
}

#[test]
fn request_while_playing_starts_within_the_buffer() {
    let mut st = SharedState::new();
    st.probe_playing = true;
    st.probe_play_sample_idx = 1;
    st.probe_play_requested = true;
    let probe = singles(&[1.0, 2.0]);
    let data = st.render_output(&probe, 5, 1, at(5), at(1));
    assert_eq!(data, singles(&[2.0, 0.0, 1.0, 2.0, 0.0]));
    assert_eq!(st.playback_frame_offset, 2);
}

#[test]
fn empty_probe_ends_at_once() {
    let mut st = SharedState::new();
    st.probe_play_requested = true;
    let data = st.render_output(&singles(&[]), 2, 1, at(5), at(1));
    assert_eq!(data, singles(&[0.0, 0.0]));
    assert_eq!(st.phase, MeasurementPhase::Listening);
}

#[test]
fn capture_wraps_around_the_ring() {
    let mut st = small_ring(4);
    st.capture(&singles(&[1.0, 2.0, 3.0]));
    assert_eq!(st.capture_buffer, singles(&[1.0, 2.0, 3.0, 0.0]));
    st.capture(&singles(&[4.0, 5.0]));
    assert_eq!(st.capture_buffer, singles(&[5.0, 2.0, 3.0, 4.0]));
    assert_eq!((st.capture_write_pos, st.capture_sample_counter), (5, 5));
}

#[test]
fn snapshot_is_what_was_captured_since_the_probe() {
    let mut st = small_ring(5);
    st.capture(&singles(&[1.0, 2.0, 3.0]));
    st.emission_write_pos = st.capture_write_pos;
    assert_eq!(st.capture_snapshot(), singles(&[]));
    st.capture(&singles(&[4.0]));
    assert_eq!(st.capture_snapshot(), singles(&[4.0]));
    st.capture(&singles(&[5.0, 6.0, 7.0]));
    assert_eq!(st.capture_snapshot(), singles(&[4.0, 5.0, 6.0, 7.0]));
    st.capture(&singles(&[8.0]));
    assert_eq!(st.capture_snapshot(), singles(&[4.0, 5.0, 6.0, 7.0, 8.0]));
}

#[test]
fn snapshot_of_an_overtaken_ring_is_cut() {
    let mut st = small_ring(3);
    st.capture(&singles(&[1.0, 2.0, 3.0, 4.0]));
    assert_eq!(st.capture_snapshot(), singles(&[4.0]));
}

#[test]
fn snapshot_before_the_emission_is_empty_unless_the_ring_says_otherwise() {
    let mut st = small_ring(10);
    st.capture_write_pos = 2;
    st.emission_write_pos = 5;
    assert_eq!(st.capture_snapshot(), singles(&[]));
    st.emission_write_pos = 11;
    assert_eq!(st.capture_snapshot().len(), 1);
}

#[test]
fn long_probe_keeps_the_start_of_its_first_callback() {
    let mut st = small_ring(8);
    st.capture(&singles(&[0.1, 0.2, 0.3]));
    st.probe_play_requested = true;
    let probe = singles(&[1.0, 2.0, 3.0, 4.0, 5.0]);
    let mut played = st.render_output(&probe, 2, 1, at(100), at(90));
    st.capture(&singles(&[0.4, 0.5]));
    played.extend(st.render_output(&probe, 3, 1, at(200), at(190)));
    assert!(st.probe_playing);
    st.capture(&singles(&[0.6, 0.7]));
    played.extend(st.render_output(&probe, 2, 1, at(300), at(290)));
    st.capture(&singles(&[0.8]));

    assert_eq!(played, singles(&[1.0, 2.0, 3.0, 4.0, 5.0, 0.0, 0.0]));
    assert_eq!(st.phase, MeasurementPhase::Listening);
    assert_eq!(st.phase_start_sample, 7);
    assert_eq!(st.emission_write_pos, 3);
    assert_eq!(st.playback_instant, Some(at(100)));
    assert_eq!(st.output_callback_instant, Some(at(90)));
    assert_eq!(st.playback_frame_offset, 0);
    assert_eq!(st.capture_snapshot(), singles(&[0.4, 0.5, 0.6, 0.7, 0.8]));
}

#[test]
fn snapshot_goes_round_the_ring() {
    let mut st = small_ring(5);
    st.capture(&singles(&[0.0, 1.0, 2.0, 3.0]));
    for written in 0..=5usize {
        st.emission_write_pos = 4;
        let samples: Vec<f32> = (0..written).map(|i| 10.0 + i as f32).collect();
        st.capture_write_pos = 4;
        st.capture(&singles(&samples));
        let round: Vec<Float32> = (4..4 + written).map(|k| st.capture_buffer[k % 5]).collect();
        assert_eq!(st.capture_snapshot(), round);
        assert_eq!(round, singles(&samples));
    }
}
