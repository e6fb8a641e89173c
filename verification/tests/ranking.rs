use latency_tool::float_bits::{Float32, Float64};
use latency_tool::ranking::{first_best, sorted};

fn singles(values: &[f32]) -> Vec<Float32> {
    values.iter().map(|x| Float32 { bits: x.to_bits() }).collect()
}

fn doubles(values: &[f64]) -> Vec<Float64> {
    values.iter().map(|x| Float64 { bits: x.to_bits() }).collect()
}

#[test]
fn best_is_the_first_of_the_largest() {
    assert_eq!(first_best(&singles(&[0.1, 0.7, 0.3, 0.7, 0.2])), 1);
    assert_eq!(first_best(&doubles(&[-3.0])), 0);
    assert_eq!(first_best(&doubles(&[-3.0, -2.0, -2.5])), 1);
}

#[test]
fn best_passes_over_what_is_no_number() {
    assert_eq!(first_best(&singles(&[0.1, f32::NAN, 0.3])), 2);
    assert_eq!(first_best(&singles(&[f32::NAN, 0.9])), 0);
}

#[test]
fn sorting_orders_all_elements() {
    assert_eq!(
        sorted(&doubles(&[12.5, -1.0, 3.25, 12.5, 0.0])),
        doubles(&[-1.0, 0.0, 3.25, 12.5, 12.5])
    );
    assert_eq!(sorted(&doubles(&[])), doubles(&[]));
}

#[test]
fn sorting_leaves_equal_elements_as_they_stood() {
    assert_eq!(sorted(&doubles(&[1.0, 0.0, -0.0])), doubles(&[0.0, -0.0, 1.0]));
    assert_eq!(sorted(&doubles(&[1.0, -0.0, 0.0])), doubles(&[-0.0, 0.0, 1.0]));
}

#[test]
fn sorting_agrees_with_the_standard_sort() {
    let mut seed: u64 = 17;
    let mut values: Vec<f64> = Vec::new();
    for _ in 0..300 {
        seed = seed.wrapping_mul(6364136223846793005).wrapping_add(1442695040888963407);
        values.push(((seed >> 40) as f64) / 1000.0 - 4000.0);
    }
    let ours = sorted(&doubles(&values));
    values.sort_by(|a, b| a.partial_cmp(b).unwrap());
    assert_eq!(ours, doubles(&values));
}

#[test]
fn one_element_is_sorted_whatever_it_is() {
    let lone = doubles(&[f64::NAN]);
    assert_eq!(sorted(&lone), lone);
}
