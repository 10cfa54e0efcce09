use meeting_scribe::decimal::{
    abs_of, difference, minutes_fixed, power_of_ten, rated_fixed, rated_share, ratio_fixed,
    round_div, seconds_between, seconds_fixed,
};
use meeting_scribe::numeral::{read_special, read_units, Special};

#[test]
fn halves_go_to_the_even_neighbour() {
    assert_eq!(round_div(5, 2), 2);
    assert_eq!(round_div(7, 2), 4);
    assert_eq!(round_div(8, 3), 3);
    assert_eq!(round_div(7, 3), 2);
    assert_eq!(ratio_fixed(1, 8, 2), "0.12");
    assert_eq!(ratio_fixed(3, 8, 2), "0.38");
}

#[test]
fn fixed_places_match_formatting() {
    for x in [0.0f64, 0.5, 1.25, 2.5, 3.75, 59.96, 0.05, 123456.789] {
        let nanos = (x * 1e9).round() as i128;
        assert_eq!(seconds_fixed(nanos, 3), format!("{x:.3}"));
    }
    assert_eq!(seconds_fixed(125_000_000, 2), format!("{:.2}", 0.125f64));
    assert_eq!(seconds_fixed(375_000_000, 2), format!("{:.2}", 0.375f64));
    assert_eq!(seconds_fixed(-1, 3), "-0.000");
    assert_eq!(format!("{:.3}", -1e-9f64), "-0.000");
    assert_eq!(seconds_fixed(-1_500_000_000, 2), "-1.50");
}

#[test]
fn lengths_per_rate() {
    // 48000 frames at 48000 Hz, in units of a nanosecond divided by the rate.
    assert_eq!(rated_fixed(48_000 * 1_000_000_000, 48_000, 3), "1.000");
    assert_eq!(rated_fixed(-24_000 * 1_000_000_000, 48_000, 2), "-0.50");
    assert_eq!(rated_fixed(i128::MAX, 1, 9).len() > 30, true);
    // Seven and a quarter seconds over 1045 losses: about seven milliseconds each.
    assert_eq!(rated_share(7_250_000_000 * 48_000, 48_000, 1045), "6.9");
}

#[test]
fn differences_and_minutes() {
    assert_eq!(difference(3, 10), (true, 7));
    assert_eq!(difference(10, 3), (false, 7));
    assert_eq!(difference(i128::MIN, i128::MAX), (true, u128::MAX));
    assert_eq!(seconds_between(i128::MAX, i128::MIN, 1).len() > 28, true);
    assert_eq!(seconds_between(9_800_000_000, 200_000_000, 2), "9.60");
    assert_eq!(minutes_fixed(90_000_000_000), "1.5");
    assert_eq!(abs_of(i128::MIN), 1u128 << 127);
    assert_eq!(power_of_ten(38), 10u128.pow(38));
}

#[test]
fn numerals_in_units() {
    assert_eq!(read_units("7", 9), Some(7_000_000_000));
    assert_eq!(read_units("0.2", 9), Some(200_000_000));
    assert_eq!(read_units("-1.5", 3), Some(-1500));
    assert_eq!(read_units("+.5", 1), Some(5));
    assert_eq!(read_units("5.", 1), Some(50));
    assert_eq!(read_units("1e3", 0), Some(1000));
    assert_eq!(read_units("1.5E-3", 9), Some(1_500_000));
    assert_eq!(read_units("0.0000000005", 9), Some(1));
    assert_eq!(read_units("0.00000000049", 9), Some(0));
    assert_eq!(read_units("1e400", 9), Some(i64::MAX));
    assert_eq!(read_units("-1e400", 9), Some(i64::MIN));
    assert_eq!(read_units("1e-400", 9), Some(0));
    assert_eq!(read_units("0e99999999999999999999999", 9), Some(0));
}

#[test]
fn numerals_are_those_that_std_reads() {
    for s in [
        "", ".", "+", "-", "e5", "1e", "1e+", "1..2", "1.2.3", " 1", "1 ", "1_0", "0x10", "--1", "1e5.0",
        "٣", "1", "1.", ".1", "-0", "+3e+2", "007", "1E05",
    ] {
        assert_eq!(read_units(s, 3).is_some(), s.parse::<f64>().is_ok(), "{s:?}");
    }
    for s in ["inf", "-inf", "+Infinity", "INF", "nan", "-NaN", "infi", "na", "infinityy", "in f"] {
        assert_eq!(read_units(s, 3).is_some(), s.parse::<f64>().is_ok(), "{s:?}");
    }
    assert_eq!(read_units("inf", 3), Some(i64::MAX));
    assert_eq!(read_units("-iNFinity", 3), Some(i64::MIN));
    assert_eq!(read_units("nan", 3), Some(0));
    assert_eq!(read_special("-inf"), Some(Special::Infinity { negative: true }));
    assert_eq!(read_special("NAN"), Some(Special::NotANumber));
    assert_eq!(read_special("1"), None);
}

#[test]
fn what_is_written_is_read_back() {
    for num in [-123_456i128, -1, 0, 1, 999, 1000, 86_400_000] {
        let text = ratio_fixed(num, 1000, 3);
        assert_eq!(read_units(&text, 9), Some((num * 1_000_000) as i64));
    }
}

#[test]
fn exact_halves_go_to_even_in_decimal() {
    // Exactly a twentieth; the nearest binary fraction lies above it.
    assert_eq!(seconds_fixed(50_000_000, 1), "0.0");
    assert_eq!(seconds_fixed(150_000_000, 1), "0.2");
    assert_eq!(seconds_fixed(50_000_001, 1), "0.1");
}
