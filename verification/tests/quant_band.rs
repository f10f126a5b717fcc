use sc_opus::bands::celt_lcg_rand;
use sc_opus::cwrs::encode_pulses;
use sc_opus::band_split::BandCtx;
use sc_opus::quant_band::{
    decode_band_mono, decode_n1_channel, decode_partition, decode_partition_leaf, decode_split_node, fit_pulses, pass_on_unused_bits, split_bit_budget, split_mask, want_split,
};
use sc_opus::range_coder::{RangeDecoder, RangeEncoder};
use sc_opus::rate::get_pulses;
use sc_opus::rate::{bits2pulses, compute_pulse_cache, pulses2bits};

/// The standard 48 kHz / 20 ms mode band layout (`eband5ms`).
const EBAND5MS: [i16; 22] = [
    0, 1, 2, 3, 4, 5, 6, 7, 8, 10, 12, 14, 16, 20, 24, 28, 34, 40, 48, 60, 78, 100,
];
const NB_E_BANDS: usize = 21;
const LOGN400: [i16; 21] = [
    0, 0, 0, 0, 0, 0, 0, 0, 8, 8, 8, 8, 16, 16, 16, 21, 21, 24, 29, 34, 36,
];

#[test]
fn split_budget_without_bias_halves_what_the_offset_leaves() {
    // One block: the offset is used as it is; (100 - 20) / 2 = 40.
    assert_eq!(split_bit_budget(100, 20, 4000, 1, 8, 1), (40, 60));
    // An angle that puts everything in one half keeps the offset too.
    assert_eq!(split_bit_budget(100, 20, 0, 2, 8, 1), (40, 60));
    assert_eq!(split_bit_budget(100, 20, 16384, 2, 8, 1), (40, 60));
}

#[test]
fn split_budget_above_the_diagonal_shrinks_the_offset() {
    // 40 - (40 >> 3) = 35; (100 - 35) / 2 = 32.
    assert_eq!(split_bit_budget(100, 40, 12000, 2, 8, 1), (32, 68));
    // A negative offset shrinks towards zero by a floor shift: -40 - (-5) = -35.
    assert_eq!(split_bit_budget(100, -40, 12000, 2, 8, 1), (67, 33));
}

#[test]
fn split_budget_below_the_diagonal_adds_the_masking_slope() {
    // -40 + ((8 << 3) >> 4) = -36, kept below zero; (100 + 36) / 2 = 68.
    assert_eq!(split_bit_budget(100, -40, 4000, 2, 8, 1), (68, 32));
    // A positive result of the slope is capped at no offset: 100 / 2 = 50.
    assert_eq!(split_bit_budget(100, 2, 4000, 2, 8, 1), (50, 50));
}

#[test]
fn split_budget_stays_within_the_band_budget() {
    // (10 - 15) / 2 truncates to -2: the first half gets nothing.
    assert_eq!(split_bit_budget(10, 15, 0, 1, 8, 1), (0, 10));
    // (10 + 30) / 2 = 20 is more than the budget: the first half gets it all.
    assert_eq!(split_bit_budget(10, -30, 0, 1, 8, 1), (10, 0));
    // A negative budget goes to the second half.
    assert_eq!(split_bit_budget(-10, 0, 0, 1, 8, 1), (0, -10));
    for b in [-50, 0, 7, 100, 1000] {
        for delta in [-300, -17, 0, 5, 299] {
            for itheta in [0, 1, 8192, 8193, 16383, 16384] {
                let (m, s) = split_bit_budget(b, delta, itheta, 2, 16, 2);
                assert_eq!(m + s, b);
                if b >= 0 {
                    assert!(0 <= m && m <= b && 0 <= s && s <= b);
                }
            }
        }
    }
}

#[test]
fn unused_bits_beyond_three_pass_to_the_other_half() {
    assert_eq!(pass_on_unused_bits(100, 50, 30, true), 56);
    assert_eq!(pass_on_unused_bits(100, 76, 30, true), 30);
    assert_eq!(pass_on_unused_bits(100, 75, 30, true), 31);
    assert_eq!(pass_on_unused_bits(100, 50, 30, false), 30);
    assert_eq!(pass_on_unused_bits(100, 120, 30, true), 30);
}

#[test]
fn fitted_pulses_never_overdraw_the_budget() {
    let cache = compute_pulse_cache(&EBAND5MS, &LOGN400, NB_E_BANDS, 3);
    let (band, lm) = (17usize, 3i32);
    for b in [8, 40, 120, 300, 1000] {
        let q0 = bits2pulses(&cache, NB_E_BANDS, band, lm, b);
        let c0 = pulses2bits(&cache, NB_E_BANDS, band, lm, q0);
        // Enough bits left: the count the budget buys is kept.
        let mut remaining = 10_000;
        let q = fit_pulses(&cache, NB_E_BANDS, band, lm, b, &mut remaining);
        assert_eq!(q, q0);
        assert_eq!(remaining, 10_000 - c0);
        // Too few: pulses go until what is kept is paid for, or none is left.
        for start in [0, 5, 20, 60] {
            let mut remaining = start;
            let q = fit_pulses(&cache, NB_E_BANDS, band, lm, b, &mut remaining);
            assert!(q <= q0);
            assert_eq!(remaining, start - pulses2bits(&cache, NB_E_BANDS, band, lm, q));
            assert!(remaining >= 0 || q == 0);
            if q < q0 {
                // One more pulse would have overdrawn the budget.
                assert!(start - pulses2bits(&cache, NB_E_BANDS, band, lm, q + 1) < 0);
            }
        }
    }
}

#[test]
fn partition_leaf_reads_back_the_pulse_vector() {
    let cache = compute_pulse_cache(&EBAND5MS, &LOGN400, NB_E_BANDS, 3);
    let b = 120;
    let q = bits2pulses(&cache, NB_E_BANDS, 0, 3, b);
    assert!(q > 0);
    let k = get_pulses(q);
    assert!(k >= 2);
    // A vector of 8 coefficients with k pulses, spread over two blocks.
    let mut y = vec![0i32; 8];
    y[1] = k - 1;
    y[6] = -1;
    let mut enc = RangeEncoder::new(64);
    encode_pulses(&y, 8, k as u32, &mut enc);
    let bytes = enc.done();
    let mut dec = RangeDecoder::new(&bytes);
    let mut remaining = 4000;
    let mut seed = 7u32;
    let mut out = vec![0i32; 8];
    let cm = decode_partition_leaf(&cache, NB_E_BANDS, 0, 3, b, 8, 2, 3, true, &mut remaining, &mut seed, &mut dec, &mut out);
    assert_eq!(out, y);
    assert_eq!(cm, 0b11);
    assert_eq!(seed, 7);
    assert_eq!(remaining, 4000 - pulses2bits(&cache, NB_E_BANDS, 0, 3, q));
}

#[test]
fn partition_leaf_without_pulses_fills_with_noise() {
    let cache = compute_pulse_cache(&EBAND5MS, &LOGN400, NB_E_BANDS, 3);
    let bytes = [0u8; 8];
    let mut dec = RangeDecoder::new(&bytes);
    let mut remaining = 100;
    let mut seed = 5u32;
    let mut out = vec![9i32; 8];
    let cm = decode_partition_leaf(&cache, NB_E_BANDS, 0, 3, 0, 8, 2, 0b01, false, &mut remaining, &mut seed, &mut dec, &mut out);
    let mut expected = 5u32;
    for _ in 0..8 {
        expected = celt_lcg_rand(expected);
    }
    assert_eq!(cm, 0b11);
    assert_eq!(seed, expected);
    assert_eq!(out, vec![9i32; 8]);
    // Nothing to fill: no noise, nothing non-empty.
    let mut seed2 = 5u32;
    let cm2 = decode_partition_leaf(&cache, NB_E_BANDS, 0, 3, 0, 8, 2, 0, false, &mut remaining, &mut seed2, &mut dec, &mut out);
    assert_eq!(cm2, 0);
    assert_eq!(seed2, 5);
}

#[test]
fn a_partition_splits_only_above_its_largest_cached_cost() {
    let cache = compute_pulse_cache(&EBAND5MS, &LOGN400, NB_E_BANDS, 3);
    let band = 17usize;
    let lm = 1i32;
    let off = cache.index[((lm + 1) as usize) * NB_E_BANDS + band] as usize;
    let top = cache.bits[off] as usize;
    let threshold = cache.bits[off + top] as i32 + 12;
    assert!(!want_split(&cache, NB_E_BANDS, band, lm, 16, threshold));
    assert!(want_split(&cache, NB_E_BANDS, band, lm, 16, threshold + 1));
    // Two coefficients, or the shortest blocks already reached, never split.
    assert!(!want_split(&cache, NB_E_BANDS, band, lm, 2, 10_000));
    assert!(!want_split(&cache, NB_E_BANDS, band, -1, 16, 10_000));
}

#[test]
fn split_node_reads_the_angle_and_shares_the_rest_of_the_budget() {
    let ctx = BandCtx {
        log_n: 4 << 3,
        i: 0,
        intensity: 8,
        nb_e_bands: 1,
        remaining_bits: 1000,
        theta_round: 0,
        avoid_split_noise: false,
        disable_inv: false,
    };
    let mut enc = RangeEncoder::new(256);
    enc.enc_uint(16, 65);
    let bytes = enc.done();
    let mut dec = RangeDecoder::new(&bytes);
    let before = dec.ec_tell_frac() as i32;
    let mut remaining = 1000;
    let node = decode_split_node(&ctx, &mut dec, 16, 480, 2, 2, 1, &mut remaining);
    let qalloc = dec.ec_tell_frac() as i32 - before;
    assert_eq!(node.n, 8);
    assert_eq!(node.lm, 1);
    assert_eq!(node.big_b, 1);
    assert_eq!(node.itheta, 16 * 16384 / 64);
    assert_eq!(remaining, 1000 - qalloc);
    assert_eq!(node.mbits + node.sbits, 480 - qalloc);
}

#[test]
fn split_mask_shifts_the_side_mask_past_the_mid_blocks() {
    assert_eq!(split_mask(0b01, 0b11, 4), 0b1101);
    assert_eq!(split_mask(0b1, 0b1, 1), 0b1);
    assert_eq!(split_mask(0, 0b1, 8), 0b1_0000);
}

fn band17_ctx() -> BandCtx {
    BandCtx {
        log_n: 24,
        i: 17,
        intensity: 21,
        nb_e_bands: NB_E_BANDS,
        remaining_bits: 0,
        theta_round: 0,
        avoid_split_noise: false,
        disable_inv: false,
    }
}

#[test]
fn partition_at_the_shortest_blocks_is_one_leaf() {
    let cache = compute_pulse_cache(&EBAND5MS, &LOGN400, NB_E_BANDS, 3);
    let ctx = band17_ctx();
    let bytes: Vec<u8> = (0..64u32).map(|i| (i * 37 + 11) as u8).collect();
    let b = 60;
    let mut dec = RangeDecoder::new(&bytes);
    let mut remaining = 2000;
    let mut seed = 3u32;
    let (y, cm) = decode_partition(&ctx, &cache, &mut dec, 8, b, 1, -1, 1, true, &mut remaining, &mut seed);
    let mut dec2 = RangeDecoder::new(&bytes);
    let mut remaining2 = 2000;
    let mut seed2 = 3u32;
    let mut y2 = vec![0i32; 8];
    let cm2 = decode_partition_leaf(&cache, NB_E_BANDS, 17, -1, b, 8, 1, 1, true, &mut remaining2, &mut seed2, &mut dec2, &mut y2);
    assert_eq!(y, y2);
    assert_eq!(cm, cm2);
    assert_eq!(remaining, remaining2);
    assert_eq!(seed, seed2);
    assert_eq!(dec.ec_tell_frac(), dec2.ec_tell_frac());
}

#[test]
fn split_partition_decodes_the_larger_half_first_and_passes_on_its_savings() {
    let cache = compute_pulse_cache(&EBAND5MS, &LOGN400, NB_E_BANDS, 3);
    let ctx = band17_ctx();
    let bytes: Vec<u8> = (0..64u32).map(|i| (i * 53 + 7) as u8).collect();
    let lm = 1i32;
    let off = cache.index[((lm + 1) as usize) * NB_E_BANDS + 17] as usize;
    let b = cache.bits[off + cache.bits[off] as usize] as i32 + 60;
    assert!(want_split(&cache, NB_E_BANDS, 17, lm, 16, b));

    let mut dec = RangeDecoder::new(&bytes);
    let mut remaining = 2000;
    let mut seed = 1u32;
    let (y, cm) = decode_partition(&ctx, &cache, &mut dec, 16, b, 2, lm, 3, false, &mut remaining, &mut seed);
    assert_eq!(y.len(), 16);

    // The same steps taken one by one.
    let mut d2 = RangeDecoder::new(&bytes);
    let mut rem2 = 2000;
    let mut seed2 = 1u32;
    let mut c = band17_ctx();
    c.remaining_bits = rem2;
    let node = decode_split_node(&c, &mut d2, 16, b, 2, lm, 3, &mut rem2);
    let before = rem2;
    let side_fill = node.fill >> node.big_b;
    let (ym, ys, cm0, cm1);
    if node.mbits >= node.sbits {
        let (a, ca) = decode_partition(&ctx, &cache, &mut d2, node.n, node.mbits, node.big_b, node.lm, node.fill, false, &mut rem2, &mut seed2);
        let sb = pass_on_unused_bits(node.mbits, before - rem2, node.sbits, node.itheta != 0);
        let (z, cz) = decode_partition(&ctx, &cache, &mut d2, node.n, sb, node.big_b, node.lm, side_fill, false, &mut rem2, &mut seed2);
        ym = a;
        cm0 = ca;
        ys = z;
        cm1 = cz;
    } else {
        let (z, cz) = decode_partition(&ctx, &cache, &mut d2, node.n, node.sbits, node.big_b, node.lm, side_fill, false, &mut rem2, &mut seed2);
        let mb = pass_on_unused_bits(node.sbits, before - rem2, node.mbits, node.itheta != 16384);
        let (a, ca) = decode_partition(&ctx, &cache, &mut d2, node.n, mb, node.big_b, node.lm, node.fill, false, &mut rem2, &mut seed2);
        ym = a;
        cm0 = ca;
        ys = z;
        cm1 = cz;
    }
    let mut expected = ym;
    expected.extend_from_slice(&ys);
    assert_eq!(y, expected);
    assert_eq!(cm, split_mask(cm0, cm1, 2));
    assert_eq!(remaining, rem2);
    assert_eq!(seed, seed2);
    assert_eq!(dec.ec_tell_frac(), d2.ec_tell_frac());
}

#[test]
fn mono_band_without_a_tf_change_is_its_partition() {
    let cache = compute_pulse_cache(&EBAND5MS, &LOGN400, NB_E_BANDS, 3);
    let ctx = band17_ctx();
    let bytes: Vec<u8> = (0..64u32).map(|i| (i * 29 + 5) as u8).collect();
    let mut dec = RangeDecoder::new(&bytes);
    let mut remaining = 2000;
    let mut seed = 9u32;
    let (y, cm) = decode_band_mono(&ctx, &cache, &mut dec, 8, 90, 1, 0, 0, 1, true, &mut remaining, &mut seed);
    let mut dec2 = RangeDecoder::new(&bytes);
    let mut remaining2 = 2000;
    let mut seed2 = 9u32;
    let (y2, cm2) = decode_partition(&ctx, &cache, &mut dec2, 8, 90, 1, 0, 1, true, &mut remaining2, &mut seed2);
    assert_eq!(y, y2);
    assert_eq!(cm, cm2 & 1);
    assert_eq!(remaining, remaining2);
    assert_eq!(seed, seed2);
}

#[test]
fn mono_band_split_in_time_runs_its_partition_on_twice_the_blocks() {
    let cache = compute_pulse_cache(&EBAND5MS, &LOGN400, NB_E_BANDS, 3);
    let ctx = band17_ctx();
    let bytes: Vec<u8> = (0..64u32).map(|i| (i * 41 + 3) as u8).collect();
    let mut dec = RangeDecoder::new(&bytes);
    let mut remaining = 2000;
    let mut seed = 9u32;
    // One long block split once in time: two blocks, the fill copied up.
    let (y, cm) = decode_band_mono(&ctx, &cache, &mut dec, 8, 90, 1, 0, -1, 1, true, &mut remaining, &mut seed);
    let mut dec2 = RangeDecoder::new(&bytes);
    let mut remaining2 = 2000;
    let mut seed2 = 9u32;
    let (y2, cm2) = decode_partition(&ctx, &cache, &mut dec2, 8, 90, 2, 0, 0b11, true, &mut remaining2, &mut seed2);
    assert_eq!(y, y2);
    assert_eq!(cm, (cm2 | (cm2 >> 1)) & 1);
    assert_eq!(remaining, remaining2);
    assert_eq!(seed, seed2);
}

#[test]
fn one_coefficient_channel_reads_its_sign_when_a_bit_is_left() {
    let mut enc = RangeEncoder::new(16);
    enc.enc_bits(1, 1);
    let bytes = enc.done();
    let mut dec = RangeDecoder::new(&bytes);
    let mut remaining = 20;
    let mut b = 50;
    assert_eq!(decode_n1_channel(&mut dec, &mut remaining, &mut b), 1);
    assert_eq!((remaining, b), (12, 42));
    // Under a whole bit left: nothing is read, the sign is positive.
    let mut dec = RangeDecoder::new(&bytes);
    let mut remaining = 7;
    let mut b = 50;
    assert_eq!(decode_n1_channel(&mut dec, &mut remaining, &mut b), 0);
    assert_eq!((remaining, b), (7, 50));
}
