use meeting_scribe::sample::{
    faint, frame_is_uniform, loud, quantise, raise, same, FAINT, FULL_SCALE, SILENCE,
};

fn spread() -> Vec<u32> {
    let mut v: Vec<u32> = (0..400_000u32).map(|i| i.wrapping_mul(10_737)).collect();
    for x in [
        0.0f32, -0.0, 1.0, -1.0, 0.5, 1e-4, -1e-4, 0.001, 2.0, f32::INFINITY, f32::NEG_INFINITY,
        f32::NAN, f32::MIN_POSITIVE, f32::MAX,
    ] {
        v.push(x.to_bits());
        v.push(x.to_bits().wrapping_add(1));
        v.push(x.to_bits().wrapping_sub(1));
    }
    v
}

#[test]
fn thresholds_are_the_patterns_of_their_values() {
    assert_eq!(SILENCE, 1e-4f32.to_bits());
    assert_eq!(FAINT, 0.001f32.to_bits());
    assert_eq!(FULL_SCALE, 1.0f32.to_bits());
}

#[test]
fn quantising_is_that_of_floats() {
    for bits in spread() {
        let s = f32::from_bits(bits);
        let want = (s.clamp(-1.0, 1.0) * i16::MAX as f32) as i16;
        assert_eq!(quantise(bits), want, "{bits:08x} {s}");
    }
    assert_eq!(quantise(1.0f32.to_bits()), 32767);
    assert_eq!(quantise((-2.0f32).to_bits()), -32767);
    assert_eq!(quantise(0.5f32.to_bits()), 16383);
}

#[test]
fn quantising_every_sixteen_bit_step() {
    for k in -32768i32..=32767 {
        let s = k as f32 / 32767.0;
        let want = (s.clamp(-1.0, 1.0) * i16::MAX as f32) as i16;
        assert_eq!(quantise(s.to_bits()), want);
        assert_eq!(quantise((-s).to_bits()), -quantise(s.to_bits()));
    }
}

#[test]
fn loudness_is_that_of_floats() {
    for bits in spread() {
        assert_eq!(loud(bits), f32::from_bits(bits).abs() > 1e-4, "{bits:08x}");
    }
}

#[test]
fn equality_is_that_of_floats() {
    let v = spread();
    for i in 0..v.len() - 7 {
        let (a, b) = (v[i], v[i + 7]);
        assert_eq!(same(a, b), f32::from_bits(a) == f32::from_bits(b));
        assert_eq!(same(a, a), !f32::from_bits(a).is_nan());
    }
    assert!(same(0.0f32.to_bits(), (-0.0f32).to_bits()));
}

#[test]
fn the_peak_is_that_of_floats() {
    let mut peak = 0u32;
    let mut want = 0.0f32;
    for bits in spread() {
        if bits % 3 == 0 {
            continue;
        }
        peak = raise(peak, bits);
        want = want.max(f32::from_bits(bits).abs());
        assert_eq!(f32::from_bits(peak), want);
    }
    assert_eq!(raise(0.25f32.to_bits(), f32::NAN.to_bits()), 0.25f32.to_bits());
    assert_eq!(raise(0.25f32.to_bits(), (-0.5f32).to_bits()), 0.5f32.to_bits());
}

#[test]
fn faint_is_below_a_thousandth() {
    assert!(faint(0));
    assert!(faint(0.001f32.to_bits() - 1));
    assert!(!faint(0.001f32.to_bits()));
}

#[test]
fn frames_with_one_value_are_uniform() {
    let a = 0.25f32.to_bits();
    let b = 0.5f32.to_bits();
    let nan = f32::NAN.to_bits();
    assert!(frame_is_uniform(&[]));
    assert!(frame_is_uniform(&[nan]));
    assert!(frame_is_uniform(&[a, a, a, a]));
    assert!(!frame_is_uniform(&[a, a, b, a]));
    assert!(!frame_is_uniform(&[a, a, a, b]));
    assert!(!frame_is_uniform(&[nan, nan]));
}
