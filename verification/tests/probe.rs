use latency_tool::float_bits::Float32;
use latency_tool::probe::{
    interpret_recording, read_recording, Probe, RecordedSamples, RecordingError,
};

fn wav(format: u16, channels: u16, rate: u32, bits: u16, data: &[u8]) -> Vec<u8> {
    let align = channels * (bits / 8);
    let mut bytes: Vec<u8> = Vec::new();
    bytes.extend_from_slice(b"RIFF");
    bytes.extend_from_slice(&(36 + data.len() as u32).to_le_bytes());
    bytes.extend_from_slice(b"WAVEfmt ");
    bytes.extend_from_slice(&16u32.to_le_bytes());
    bytes.extend_from_slice(&format.to_le_bytes());
    bytes.extend_from_slice(&channels.to_le_bytes());
    bytes.extend_from_slice(&rate.to_le_bytes());
    bytes.extend_from_slice(&(rate * align as u32).to_le_bytes());
    bytes.extend_from_slice(&align.to_le_bytes());
    bytes.extend_from_slice(&bits.to_le_bytes());
    bytes.extend_from_slice(b"data");
    bytes.extend_from_slice(&(data.len() as u32).to_le_bytes());
    bytes.extend_from_slice(data);
    bytes
}

fn singles(values: &[f32]) -> Vec<Float32> {
    values.iter().map(|x| Float32 { bits: x.to_bits() }).collect()
}

#[test]
fn integer_recordings_are_decoded() {
    let bytes = wav(1, 2, 44_100, 16, &[0x01, 0x00, 0xff, 0xff, 0x00, 0x80, 0xff, 0x7f]);
    let recording = read_recording(&bytes).unwrap_or_else(|_| panic!("not read"));
    assert_eq!((recording.channels, recording.sample_rate), (2, 44_100));
    match recording.samples {
        RecordedSamples::Int { samples, full_scale } => {
            assert_eq!(samples, vec![1, -1, -32768, 32767]);
            assert_eq!(full_scale, 32768);
        }
        RecordedSamples::Float => panic!("integers expected"),
    }
}

#[test]
fn other_widths_have_their_own_scale() {
    for (bits, data, expected, scale) in [
        (8u16, vec![0u8, 128, 255], vec![-128, 0, 127], 128u32),
        (24, vec![0xff, 0xff, 0x7f, 0x00, 0x00, 0x80], vec![8_388_607, -8_388_608], 1 << 23),
        (32, vec![0x00, 0x00, 0x00, 0x80], vec![i32::MIN], 1 << 31),
    ] {
        let recording = read_recording(&wav(1, 1, 8_000, bits, &data))
            .unwrap_or_else(|_| panic!("not read"));
        match recording.samples {
            RecordedSamples::Int { samples, full_scale } => {
                assert_eq!(samples, expected);
                assert_eq!(full_scale, scale);
            }
            RecordedSamples::Float => panic!("integers expected"),
        }
    }
}

#[test]
fn float_recordings_are_left_to_the_caller() {
    let bytes = wav(3, 1, 48_000, 32, &0.5f32.to_le_bytes());
    let recording = read_recording(&bytes).unwrap_or_else(|_| panic!("not read"));
    assert_eq!((recording.channels, recording.sample_rate), (1, 48_000));
    assert!(matches!(recording.samples, RecordedSamples::Float));
}

#[test]
fn other_files_are_unreadable() {
    assert!(matches!(read_recording(b"not a recording"), Err(RecordingError::Unreadable)));
    assert!(matches!(read_recording(&[]), Err(RecordingError::Unreadable)));
    let no_channels = wav(1, 0, 8_000, 16, &[]);
    assert!(matches!(read_recording(&no_channels), Err(RecordingError::Unreadable)));
}

#[test]
fn cut_recordings_are_undecodable() {
    let mut bytes = wav(1, 1, 8_000, 16, &[1, 0, 2, 0]);
    bytes.truncate(bytes.len() - 1);
    assert!(matches!(read_recording(&bytes), Err(RecordingError::Undecodable)));
}

#[test]
fn interpretation_follows_the_head() {
    assert!(matches!(interpret_recording(None, None), Err(RecordingError::Unreadable)));
    assert!(matches!(
        interpret_recording(Some((1, 8_000, 33, false)), Some(vec![])),
        Err(RecordingError::Undecodable)
    ));
    assert!(matches!(
        interpret_recording(Some((1, 8_000, 16, false)), None),
        Err(RecordingError::Undecodable)
    ));
    let recording = interpret_recording(Some((3, 8_000, 16, false)), Some(vec![7, 8, 9]))
        .unwrap_or_else(|_| panic!("not read"));
    assert_eq!(recording.channels, 3);
    match recording.samples {
        RecordedSamples::Int { samples, full_scale } => {
            assert_eq!((samples, full_scale), (vec![7, 8, 9], 32768));
        }
        RecordedSamples::Float => panic!("integers expected"),
    }
}

#[test]
fn probe_needs_no_resampling_at_its_own_rate() {
    let probe = Probe::new(singles(&[0.5, -0.5]), 48_000);
    assert_eq!(probe.at_own_rate(48_000), Some(singles(&[0.5, -0.5])));
    assert_eq!(probe.at_own_rate(44_100), None);
}

#[test]
fn probe_remembers_the_first_version_of_a_rate() {
    let mut probe = Probe::new(singles(&[0.5]), 48_000);
    assert!(!probe.is_cached(44_100));
    assert_eq!(probe.envelope(44_100), None);
    assert_eq!(probe.filtered(44_100), None);
    probe.remember(44_100, singles(&[1.0]), singles(&[2.0]));
    probe.remember(48_000, singles(&[3.0]), singles(&[4.0]));
    probe.remember(44_100, singles(&[5.0]), singles(&[6.0]));
    assert!(probe.is_cached(44_100));
    assert_eq!(probe.filtered(44_100), Some(singles(&[1.0])));
    assert_eq!(probe.envelope(44_100), Some(singles(&[2.0])));
    assert_eq!(probe.filtered(48_000), Some(singles(&[3.0])));
    assert_eq!(probe.envelope(48_000), Some(singles(&[4.0])));
}
