use latency_tool::dsp::{decimated, rectified, transform_len, zero_padded};
use latency_tool::float_bits::Float32;

fn singles(values: &[f32]) -> Vec<Float32> {
    values.iter().map(|x| Float32 { bits: x.to_bits() }).collect()
}

#[test]
fn rectifying_takes_absolute_values() {
    assert_eq!(rectified(&singles(&[0.5, -0.25, -0.0])), singles(&[0.5, 0.25, 0.0]));
}

#[test]
fn decimation_keeps_every_so_manieth_sample() {
    let signal: Vec<f32> = (0..10).map(|i| i as f32).collect();
    assert_eq!(decimated(&singles(&signal), 48_000, 16_000), singles(&[0.0, 3.0, 6.0, 9.0]));
    assert_eq!(decimated(&singles(&signal), 44_100, 8_000), singles(&[0.0, 5.0]));
    assert_eq!(decimated(&singles(&signal), 1_000, 1_000), singles(&signal));
    assert_eq!(decimated(&singles(&[]), 48_000, 1_000), singles(&[]));
}

#[test]
fn decimation_to_a_higher_rate_yields_nothing() {
    assert_eq!(decimated(&singles(&[1.0, 2.0]), 999, 1_000), singles(&[]));
}

#[test]
fn transforms_have_the_next_power_of_two() {
    for (capture, template) in [(1, 1), (1, 0), (0, 1), (3, 2), (3, 3), (512, 513), (5_000, 700)] {
        let len: usize = capture + template - 1;
        assert_eq!(transform_len(capture, template), len.next_power_of_two());
    }
}

#[test]
fn padding_appends_zeros() {
    assert_eq!(zero_padded(&singles(&[1.0, 2.0]), 4), singles(&[1.0, 2.0, 0.0, 0.0]));
    assert_eq!(zero_padded(&singles(&[1.0, 2.0]), 2), singles(&[1.0, 2.0]));
}

#[test]
fn decimation_of_a_longer_signal_goes_on() {
    let signal: Vec<f32> = (0..100).map(|i| i as f32).collect();
    let short = decimated(&singles(&signal[..50]), 7000, 1000);
    let long = decimated(&singles(&signal), 7000, 1000);
    assert_eq!(short.len(), 8);
    assert_eq!(long.len(), 15);
    assert_eq!(long[..8].to_vec(), short);
}
