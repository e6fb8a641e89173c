use latency_tool::detection::{
    CANDIDATE_NCC_THRESHOLD, COARSE_NCC_THRESHOLD, FINE_NCC_THRESHOLD, FINE_PEAK_THRESHOLD,
    MIN_TEMPLATE_ENERGY,
};
use latency_tool::float_bits::{Float32, Float64, Real};

fn single(x: f32) -> Float32 {
    Float32 { bits: x.to_bits() }
}

fn double(x: f64) -> Float64 {
    Float64 { bits: x.to_bits() }
}

#[test]
fn singles_compare_like_the_hardware() {
    let values = [
        0.0f32,
        -0.0,
        1.0,
        -1.0,
        0.3,
        0.4,
        -0.3,
        1.0e-45,
        -1.0e-45,
        1.1754944e-38,
        1.1754942e-38,
        f32::MAX,
        f32::MIN,
        f32::INFINITY,
        f32::NEG_INFINITY,
        f32::NAN,
        -f32::NAN,
    ];
    for a in values {
        for b in values {
            assert_eq!(single(a).exceeds(single(b)), a > b, "{} > {}", a, b);
        }
        assert_eq!(single(a).is_nan(), a.is_nan());
    }
}

#[test]
fn doubles_compare_like_the_hardware() {
    let values = [
        0.0f64,
        -0.0,
        1.0,
        -1.0,
        41.25,
        41.250000000000007,
        5.0e-324,
        -5.0e-324,
        2.2250738585072014e-308,
        2.225073858507201e-308,
        f64::MAX,
        f64::MIN,
        f64::INFINITY,
        f64::NEG_INFINITY,
        f64::NAN,
        -f64::NAN,
    ];
    for a in values {
        for b in values {
            assert_eq!(double(a).exceeds(double(b)), a > b, "{} > {}", a, b);
        }
        assert_eq!(double(a).is_nan(), a.is_nan());
    }
}

#[test]
fn absolute_values_lose_the_sign() {
    for x in [0.0f32, -0.0, 2.5, -2.5, f32::NEG_INFINITY, 1.0e-40, -1.0e-40] {
        assert_eq!(single(x).abs(), single(x.abs()));
    }
    assert!(single(-f32::NAN).abs().is_nan());
}

#[test]
fn zeros_are_positive_zero() {
    assert_eq!(Float32::zero(), single(0.0));
    assert_eq!(Float64::zero(), double(0.0));
}

#[test]
fn thresholds_are_the_encodings_they_stand_for() {
    assert_eq!(COARSE_NCC_THRESHOLD, 0.4f32.to_bits());
    assert_eq!(CANDIDATE_NCC_THRESHOLD, 0.3f32.to_bits());
    assert_eq!(FINE_PEAK_THRESHOLD, 0.3f64.to_bits());
    assert_eq!(FINE_NCC_THRESHOLD, 0.92f32.to_bits());
    assert_eq!(MIN_TEMPLATE_ENERGY, 1e-20f64.to_bits());
}
