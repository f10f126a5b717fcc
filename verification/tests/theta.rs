use sc_opus::theta::{bitexact_cos, bitexact_log2tan, compute_qn, frac_mul16};

#[test]
fn bitexact_cos_approximates_cosine() {
    for &x in &[64i16, 2048, 4096, 8192, 12288, 16320] {
        let approx = bitexact_cos(x) as f32 / 32768.0;
        let exact = (x as f32 / 16384.0 * std::f32::consts::FRAC_PI_2).cos();
        assert!((approx - exact).abs() < 0.001, "cos({x}): approx={approx} exact={exact}");
    }
    assert_eq!(bitexact_cos(8192), 23171);
}

#[test]
fn log2tan_is_zero_at_equality_and_antisymmetric() {
    assert_eq!(bitexact_log2tan(10000, 10000), 0);
    for &(a, b) in &[(30000, 10000), (5000, 25000), (16384, 32767)] {
        assert_eq!(bitexact_log2tan(a, b), -bitexact_log2tan(b, a), "({a},{b})");
    }
}

#[test]
fn log2tan_tracks_log2_ratio() {
    let v = bitexact_log2tan(20000, 10000);
    assert!((v - 2048).abs() < 32, "log2tan(2x)={v}");
}

#[test]
fn compute_qn_is_even_or_one_and_bounded() {
    for &n in &[2i32, 4, 8, 16] {
        for &b in &[0i32, 40, 120, 400, 1000] {
            for &stereo in &[false, true] {
                let qn = compute_qn(n, b, 4, 40, stereo);
                assert!(qn == 1 || qn % 2 == 0, "qn={qn}");
                assert!((1..=256).contains(&qn), "qn={qn} out of range");
            }
        }
    }
}

#[test]
fn compute_qn_collapses_to_one_when_starved() {
    assert_eq!(compute_qn(16, 0, 4, 40, false), 1);
}

#[test]
fn compute_qn_grows_with_bits() {
    let low = compute_qn(16, 120, 4, 40, false);
    let high = compute_qn(16, 600, 4, 40, false);
    assert!(high >= low, "qn should not shrink with more bits: {low} -> {high}");
    assert!(high > 1);
}

#[test]
fn compute_qn_exact_value() {
    // b = 400, N = 16, offset 4, pulse_cap 40: qb = min((400 + 31*4)/31, 400-40-32, 64) = 16,
    // so qn = 2^(16/8) rounded to even = 4.
    assert_eq!(compute_qn(16, 400, 4, 40, false), 4);
}

#[test]
fn frac_mul16_rounds_the_q15_product() {
    assert_eq!(frac_mul16(16384, 16384), 8192);
    assert_eq!(frac_mul16(-16384, 16384), -8192);
    assert_eq!(frac_mul16(32767, 1), 1);
    // Arguments are truncated to 16 bits first.
    assert_eq!(frac_mul16(0x1_4000, 16384), 8192);
}

#[test]
fn bitexact_cos_stays_positive_near_zero() {
    for x in 1..64i16 {
        assert_eq!(bitexact_cos(x), 32767, "x={x}");
    }
    for x in 1..16384i16 {
        let c = bitexact_cos(x);
        assert!(c > 0, "x={x} gives {c}");
    }
}
