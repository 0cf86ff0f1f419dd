use mackerel_plugin::rate::calc_diff;

fn rate_of(sample: mackerel_plugin::rate::RateSample) -> f64 {
    (f64::from_bits(sample.value) - f64::from_bits(sample.prev_value))
        / (sample.elapsed as f64 / 60.0)
}

#[test]
fn rate_is_normalized_to_per_minute() {
    // calc(value=160, t=160, prev=100, prev_t=100) -> (160-100)/((160-100)/60) = 60
    let r = calc_diff(160.0f64.to_bits(), 160, 100.0f64.to_bits(), 100).unwrap();
    assert_eq!(r.elapsed, 60);
    assert_eq!(rate_of(r), 60.0);
}

#[test]
fn stale_previous_sample_emits_nothing() {
    // prev_t < t - 600
    assert_eq!(calc_diff(160.0f64.to_bits(), 1000, 100.0f64.to_bits(), 399), None);
    // exactly 600 seconds old is still fresh
    assert!(calc_diff(160.0f64.to_bits(), 1000, 100.0f64.to_bits(), 400).is_some());
}

#[test]
fn clock_not_advancing_emits_nothing() {
    assert_eq!(calc_diff(160.0f64.to_bits(), 100, 100.0f64.to_bits(), 100), None);
    assert_eq!(calc_diff(160.0f64.to_bits(), 99, 100.0f64.to_bits(), 100), None);
}

#[test]
fn counter_reset_emits_nothing() {
    assert_eq!(calc_diff(100.0f64.to_bits(), 160, 160.0f64.to_bits(), 100), None);
    // negative readings are ordered like the values they denote
    assert_eq!(calc_diff((-2.0f64).to_bits(), 160, (-1.0f64).to_bits(), 100), None);
    assert!(calc_diff((-1.0f64).to_bits(), 160, (-2.0f64).to_bits(), 100).is_some());
}

#[test]
fn zero_signs_compare_equal() {
    // -0.0 is not a decrease from +0.0 and vice versa
    assert!(calc_diff((-0.0f64).to_bits(), 160, 0.0f64.to_bits(), 100).is_some());
    assert!(calc_diff(0.0f64.to_bits(), 160, (-0.0f64).to_bits(), 100).is_some());
}

#[test]
fn equal_values_give_zero_rate() {
    let r = calc_diff(5.0f64.to_bits(), 101, 5.0f64.to_bits(), 100).unwrap();
    assert_eq!(rate_of(r), 0.0);
}

#[test]
fn one_second_apart_with_unit_increase_gives_sixty() {
    let r = calc_diff(101.0f64.to_bits(), 1001, 100.0f64.to_bits(), 1000).unwrap();
    assert_eq!(r.elapsed, 1);
    assert_eq!(rate_of(r), 60.0);
}
