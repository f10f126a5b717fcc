use sc_opus::band_split::{compute_theta_decode, encode_theta, isqrt32, BandCtx, SplitCtx};
use sc_opus::range_coder::{RangeDecoder, RangeEncoder};

#[test]
fn isqrt32_matches_floor_sqrt() {
    for &v in &[0u32, 1, 2, 3, 4, 8, 15, 16, 17, 100, 99_980, 1_000_000, u32::MAX] {
        let got = isqrt32(v);
        let expect = (v as f64).sqrt().floor() as u32;
        assert_eq!(got, expect, "isqrt32({v})");
        assert!((got as u64) * (got as u64) <= v as u64);
        assert!((got as u64 + 1) * (got as u64 + 1) > v as u64);
    }
}

fn ctx() -> BandCtx {
    BandCtx {
        log_n: 4 << 3,
        i: 0,
        intensity: 8,
        nb_e_bands: 1,
        remaining_bits: 1000,
        theta_round: 0,
        avoid_split_noise: false,
        disable_inv: false,
    }
}

#[test]
fn decoded_uniform_angle_matches_the_encoded_level() {
    // A time split (B0 > 1) codes the angle level uniformly in [0, qn]: with
    // b = 480 eighth-bits, n = 8 and LM 1 the resolution is qn = 64.
    let mut enc = RangeEncoder::new(256);
    enc.enc_uint(16, 65);
    let bytes = enc.done();
    let mut dec = RangeDecoder::new(&bytes);
    let mut b = 480;
    let mut fill = 1;
    let split = compute_theta_decode(&ctx(), &mut dec, 8, 1, 2, 1, false, &mut b, &mut fill);
    assert_eq!(split.itheta, 16 * 16384 / 64);
    assert!(!split.inv);
    assert_eq!(b, 480 - split.qalloc);
    assert!(split.qalloc > 0);
    assert_eq!(fill, 1, "an intermediate angle keeps every block");
    // imid^2 + iside^2 is close to the unit circle.
    let sum = (split.imid as f64).powi(2) + (split.iside as f64).powi(2);
    assert!((sum / (32767f64).powi(2) - 1.0).abs() < 0.01);
}

#[test]
fn decoded_zero_angle_keeps_only_the_mid_blocks() {
    let mut enc = RangeEncoder::new(256);
    enc.enc_uint(0, 65);
    let bytes = enc.done();
    let mut dec = RangeDecoder::new(&bytes);
    let mut b = 480;
    let mut fill = 0b11;
    let split = compute_theta_decode(&ctx(), &mut dec, 8, 1, 2, 1, false, &mut b, &mut fill);
    assert_eq!(split.itheta, 0);
    assert_eq!(split.imid, 32767);
    assert_eq!(split.iside, 0);
    assert_eq!(split.delta, -16384);
    assert_eq!(fill, 0b01);
}

#[test]
fn decoded_full_angle_keeps_only_the_side_blocks() {
    let mut enc = RangeEncoder::new(256);
    enc.enc_uint(64, 65);
    let bytes = enc.done();
    let mut dec = RangeDecoder::new(&bytes);
    let mut b = 480;
    let mut fill = 0b11;
    let split = compute_theta_decode(&ctx(), &mut dec, 8, 1, 2, 1, false, &mut b, &mut fill);
    assert_eq!(split.itheta, 16384);
    assert_eq!(split.imid, 0);
    assert_eq!(split.iside, 32767);
    assert_eq!(split.delta, 16384);
    assert_eq!(fill, 0b10);
}

#[test]
fn intensity_band_reads_only_the_inversion_flag() {
    // A stereo band at or past the intensity start has a single angle level:
    // only the inversion bit is read.
    let mut c = ctx();
    c.i = 9;
    let mut enc = RangeEncoder::new(256);
    enc.enc_bit_logp(true, 2);
    let bytes = enc.done();
    let mut dec = RangeDecoder::new(&bytes);
    let mut b = 1000;
    let mut fill = 1;
    let split = compute_theta_decode(&c, &mut dec, 8, 1, 1, 1, true, &mut b, &mut fill);
    assert!(split.inv);
    assert_eq!(split.itheta, 0);
}

#[test]
fn triangular_angle_is_read_back() {
    // A mono frequency split (B0 = 1) uses the triangular pdf: level k of qn
    // has weight min(k + 1, qn + 1 - k) out of (qn/2 + 1)^2.
    let qn = 64;
    let k = 20;
    let ft = (qn / 2 + 1) * (qn / 2 + 1);
    let fl = k * (k + 1) / 2;
    let mut enc = RangeEncoder::new(256);
    enc.encode(fl as u32, (fl + k + 1) as u32, ft as u32);
    let bytes = enc.done();
    let mut dec = RangeDecoder::new(&bytes);
    let mut b = 480;
    let mut fill = 1;
    let split = compute_theta_decode(&ctx(), &mut dec, 8, 1, 1, 1, false, &mut b, &mut fill);
    assert_eq!(split.itheta, k * 16384 / qn);
}

fn theta_round_trip(c: &BandCtx, raw: i32, n: i32, b0: i32, stereo: bool) -> SplitCtx {
    let big_b = 1;
    let lm = 1;
    let mut enc = RangeEncoder::new(256);
    let mut be = 1000;
    let mut efill = (1 << big_b) - 1;
    let split_e = encode_theta(c, &mut enc, raw, n, big_b, b0, lm, stereo, &mut be, &mut efill);
    let bytes = enc.done();
    let mut dec = RangeDecoder::new(&bytes);
    let mut bd = 1000;
    let mut dfill = (1 << big_b) - 1;
    let split_d = compute_theta_decode(c, &mut dec, n, big_b, b0, lm, stereo, &mut bd, &mut dfill);
    assert_eq!(split_e, split_d, "raw {raw} n {n} b0 {b0} stereo {stereo}");
    assert_eq!(be, bd);
    assert_eq!(efill, dfill);
    split_e
}

#[test]
fn encode_theta_round_trips_every_pdf() {
    for raw in [0, 1, 100, 4000, 8192, 9000, 16000, 16384] {
        theta_round_trip(&ctx(), raw, 8, 1, false); // triangular
        theta_round_trip(&ctx(), raw, 8, 2, false); // uniform
        theta_round_trip(&ctx(), raw, 8, 1, true); // step
        theta_round_trip(&ctx(), raw, 2, 1, true); // two-sample stereo, uniform
    }
}

#[test]
fn encode_theta_rounds_to_the_nearest_level() {
    // With 1000 eighth-bits the grid has qn = 256 levels: raw 4096 is level
    // 64 exactly, and raw 4000 (level 62.5) rounds up to level 63.
    let split = theta_round_trip(&ctx(), 4096, 8, 2, false);
    assert_eq!(split.itheta, 4096);
    let split = theta_round_trip(&ctx(), 4000, 8, 2, false);
    assert_eq!(split.itheta, 63 * 16384 / 256);
}

#[test]
fn encode_theta_intensity_band_codes_the_inversion_flag() {
    let mut c = ctx();
    c.i = 9; // at or past the intensity band: qn = 1
    let split = theta_round_trip(&c, 12000, 8, 1, true);
    assert_eq!(split.itheta, 0);
    assert!(split.inv);
    let split = theta_round_trip(&c, 3000, 8, 1, true);
    assert!(!split.inv);
}

#[test]
fn encode_theta_gains_are_nearly_unit() {
    for raw in [2000, 6000, 8192, 12000] {
        let split = theta_round_trip(&ctx(), raw, 8, 2, false);
        let m = split.imid as f64 / 32768.0;
        let s = split.iside as f64 / 32768.0;
        assert!((m * m + s * s - 1.0).abs() < 0.01, "raw {raw}");
    }
}
