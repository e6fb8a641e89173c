use latency_tool::latency::{output_buffer_delay, StreamInstant, TimestampError};

fn at(nanos: i128) -> StreamInstant {
    StreamInstant { nanos }
}

#[test]
fn durations_are_differences() {
    assert_eq!(at(1_500).duration_since(at(500)), Some(1_000));
    assert_eq!(at(-500).duration_since(at(-1_500)), Some(1_000));
    assert_eq!(at(7).duration_since(at(7)), Some(0));
    assert_eq!(at(6).duration_since(at(7)), None);
    assert_eq!(at(u64::MAX as i128).duration_since(at(0)), Some(u64::MAX));
    assert_eq!(at(u64::MAX as i128 + 1).duration_since(at(0)), None);
    assert_eq!(at(i128::MAX).duration_since(at(i128::MIN)), None);
}

#[test]
fn output_delay_needs_both_instants_in_order() {
    assert_eq!(output_buffer_delay(Some(at(30_000_000)), Some(at(10_000_000))), Ok(20_000_000));
    assert_eq!(output_buffer_delay(None, Some(at(0))), Err(TimestampError::NoPlaybackInstant));
    assert_eq!(output_buffer_delay(None, None), Err(TimestampError::NoPlaybackInstant));
    assert_eq!(output_buffer_delay(Some(at(0)), None), Err(TimestampError::NoCallbackInstant));
    assert_eq!(
        output_buffer_delay(Some(at(0)), Some(at(1))),
        Err(TimestampError::PlaybackBeforeCallback)
    );
}
