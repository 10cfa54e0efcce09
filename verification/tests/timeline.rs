use meeting_scribe::timeline::{lag_at, steps_from_drops, to_real};

fn nanos(seconds: f64) -> i64 {
    (seconds * 1e9).round() as i64
}

fn seconds(nanos: i128) -> f64 {
    nanos as f64 / 1e9
}

fn steps_of(drops: &[(f64, f64)]) -> (Vec<(i128, i128)>, i128) {
    let drops: Vec<(i64, i64)> = drops.iter().map(|d| (nanos(d.0), nanos(d.1))).collect();
    steps_from_drops(&drops)
}

fn lag(steps: &[(i128, i128)], t_wav: f64) -> f64 {
    seconds(lag_at(steps, nanos(t_wav)))
}

/// As measured: 0.2 seconds at the start, and a hole of 9.6 seconds at 10.5.
fn sample() -> Vec<(f64, f64)> {
    vec![(0.200, 0.200), (10.500, 9.600)]
}

#[test]
fn steps_positions() {
    let (steps, total) = steps_of(&sample());
    assert_eq!(steps.len(), 2);
    assert!(seconds(steps[0].0).abs() < 1e-9, "先頭の空白は位置 0 に立つ");
    assert!((seconds(steps[1].0) - 0.7).abs() < 1e-9);
    assert!((seconds(total) - 9.8).abs() < 1e-9);
}

#[test]
fn boundary_segment_lands_after_the_gap() {
    let (steps, _) = steps_of(&sample());
    assert!((lag(&steps, 0.7) - 9.8).abs() < 1e-9, "9.6秒ずれる原因だった箇所");
    assert!((lag(&steps, 0.69) - 0.2).abs() < 1e-9, "段差の手前は手前のまま");
    assert!((lag(&steps, 8.0) - 9.8).abs() < 1e-9);
}

#[test]
fn leading_gap_only_is_a_constant_offset() {
    let (steps, _) = steps_of(&[(0.250, 0.250)]);
    assert!((lag(&steps, 0.0) - 0.25).abs() < 1e-9);
    assert!((lag(&steps, 3600.0) - 0.25).abs() < 1e-9);
}

#[test]
fn no_gaps_means_no_correction() {
    let (steps, total) = steps_of(&[]);
    assert!(lag(&steps, 123.4).abs() < 1e-9);
    assert_eq!(seconds(total), 0.0);
}

#[test]
fn the_tolerance_is_one_microsecond() {
    let (steps, _) = steps_from_drops(&[(2_000_000_000, 1_000_000_000)]);
    assert_eq!(steps, vec![(1_000_000_000, 1_000_000_000)]);
    assert_eq!(lag_at(&steps, 999_999_000), 1_000_000_000);
    assert_eq!(lag_at(&steps, 999_998_999), 0);
}

#[test]
fn a_gap_longer_than_its_time_stands_at_the_start() {
    let (steps, total) = steps_from_drops(&[(1_000, 5_000), (20_000, 2_000)]);
    assert_eq!(steps, vec![(0, 5_000), (13_000, 7_000)]);
    assert_eq!(total, 7_000);
}

#[test]
fn steps_are_sorted_and_ties_keep_their_order() {
    let (steps, _) = steps_from_drops(&[(9_000, 1_000), (5_000, 500), (5_500, 500)]);
    // Places: 8000, 3500, 3500.
    assert_eq!(steps, vec![(3_500, 1_500), (3_500, 2_000), (8_000, 1_000)]);
}

#[test]
fn a_sum_beyond_64_bits_is_exact() {
    let (steps, total) = steps_from_drops(&[(0, i64::MAX), (0, i64::MAX), (0, i64::MIN)]);
    assert_eq!(total, i64::MAX as i128 - 1);
    assert_eq!(steps.len(), 3);
    assert_eq!(steps[1].1, 2 * i64::MAX as i128);
}

#[test]
fn the_end_of_a_gap_comes_back_at_its_real_time() {
    let drops = [(200_000_000, 200_000_000), (10_500_000_000, 9_600_000_000)];
    let (steps, _) = steps_from_drops(&drops);
    assert_eq!(to_real(&steps, 0), 200_000_000);
    assert_eq!(to_real(&steps, 700_000_000), 10_500_000_000);
}

#[test]
fn real_time_does_not_run_backwards() {
    let (steps, _) = steps_from_drops(&[(100, 100), (5_000, 300), (9_000, 1_000)]);
    let mut last = i128::MIN;
    for t in -10..20_000 {
        let now = to_real(&steps, t);
        assert!(now >= last);
        last = now;
    }
}
