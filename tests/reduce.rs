use crusader::model::samples_valid;
use crusader::reduce::{interpolate, rates_ready, sum_bytes, to_rates, Rate};

#[test]
fn interpolation_on_half_millisecond_grid() {
    let input = vec![(0, 0), (1000, 100), (3000, 300)];
    let out = interpolate(&input, 500);
    assert_eq!(
        out,
        vec![(0, 0), (500, 50), (1000, 100), (1500, 150), (2000, 200), (2500, 250), (3000, 300)]
    );
}

#[test]
fn interpolation_grid_covers_unaligned_ends() {
    let input = vec![(250, 10), (1250, 110)];
    let out = interpolate(&input, 500);
    assert_eq!(out, vec![(0, 10), (500, 35), (1000, 85), (1500, 110)]);
}

#[test]
fn interpolation_rounds_down_to_whole_bytes() {
    let input = vec![(0, 0), (3, 1)];
    assert_eq!(interpolate(&input, 1), vec![(0, 0), (1, 0), (2, 0), (3, 1)]);
}

#[test]
fn interpolation_of_nothing_is_empty() {
    assert!(interpolate(&[], 500).is_empty());
}

#[test]
fn interpolation_of_one_sample_on_the_grid() {
    assert_eq!(interpolate(&[(1000, 7)], 500), vec![(1000, 7)]);
}

#[test]
fn sum_of_two_streams_adds_interpolated_values() {
    let a = vec![(0, 0), (1000, 100)];
    let b = vec![(500, 0), (1500, 200)];
    let out = sum_bytes(&[a, b], 500);
    assert_eq!(out, vec![(0, 0), (500, 50), (1000, 200), (1500, 300)]);
}

#[test]
fn sum_of_no_streams_is_empty() {
    assert!(sum_bytes(&[], 500).is_empty());
}

#[test]
fn sum_of_streams_without_samples_is_empty() {
    assert!(sum_bytes(&[vec![], vec![]], 500).is_empty());
}

#[test]
fn sum_skips_streams_without_samples() {
    let out = sum_bytes(&[vec![], vec![(1000, 10), (2000, 20)]], 1000);
    assert_eq!(out, vec![(1000, 10), (2000, 20)]);
}

#[test]
fn rate_of_one_megabit_per_second() {
    let out = to_rates(&[(0, 0), (1_000_000, 125_000)]);
    assert_eq!(
        out,
        vec![
            Rate { time: 0, bits: 0, micros: 1 },
            Rate { time: 1_000_000, bits: 1_000_000, micros: 1_000_000 },
            Rate { time: 1_000_001, bits: 0, micros: 1 },
        ]
    );
    let mbps = out[1].bits as f64 / out[1].micros as f64;
    assert!((mbps - 1.0).abs() < 1e-9);
}

#[test]
fn single_sample_rates_are_bracketed_by_zeros() {
    let out = to_rates(&[(5000, 42)]);
    assert_eq!(
        out,
        vec![
            Rate { time: 4999, bits: 0, micros: 1 },
            Rate { time: 5000, bits: 0, micros: 1 },
            Rate { time: 5001, bits: 0, micros: 1 },
        ]
    );
}

#[test]
fn rates_of_nothing_are_empty() {
    assert!(to_rates(&[]).is_empty());
}

#[test]
fn falling_counter_gives_negative_rate() {
    let out = to_rates(&[(10, 100), (20, 90)]);
    assert_eq!(out[2], Rate { time: 20, bits: -80, micros: 10 });
}

#[test]
fn rate_readiness() {
    assert!(rates_ready(&[(1, 0), (2, 0)]));
    assert!(!rates_ready(&[(2, 0), (1, 0)]));
    assert!(!rates_ready(&[(u64::MAX, 0)]));
    assert!(rates_ready(&[]));
}

#[test]
fn sample_order_is_checked() {
    assert!(samples_valid(&[(0, 0), (1, 0), (2, 5)]));
    assert!(!samples_valid(&[(0, 0), (0, 1)]));
    assert!(!samples_valid(&[(0, 5), (1, 4)]));
    assert!(samples_valid(&[]));
}
