use sc_opus::allocation::{
    clt_compute_allocation, decode_dynalloc_boost, encode_dynalloc_boost, init_caps, AllocInput,
};
use sc_opus::quant_band::Coder;
use sc_opus::range_coder::{RangeDecoder, RangeEncoder};
use sc_opus::rate::compute_pulse_cache;

const EBAND5MS: [i16; 22] = [
    0, 1, 2, 3, 4, 5, 6, 7, 8, 10, 12, 14, 16, 20, 24, 28, 34, 40, 48, 60, 78, 100,
];
const LOGN400: [i16; 21] = [
    0, 0, 0, 0, 0, 0, 0, 0, 8, 8, 8, 8, 16, 16, 16, 21, 21, 24, 29, 34, 36,
];
const NB_E_BANDS: usize = 21;
const MAX_FINE_BITS: i32 = 8;
/// The standard 48 kHz mode `band_allocation` (11 rows x 21 bands).
const BAND_ALLOCATION: [u8; 11 * 21] = [
    0, 0, 0, 0, 0, 0, 0, 0, 0, 0, 0, 0, 0, 0, 0, 0, 0, 0, 0, 0, 0, //
    90, 80, 75, 69, 63, 56, 49, 40, 34, 29, 20, 18, 10, 0, 0, 0, 0, 0, 0, 0, 0, //
    110, 100, 90, 84, 78, 71, 65, 58, 51, 45, 39, 32, 26, 20, 12, 0, 0, 0, 0, 0, 0, //
    118, 110, 103, 93, 86, 80, 75, 70, 65, 59, 53, 47, 40, 31, 23, 15, 4, 0, 0, 0, 0, //
    126, 119, 112, 104, 95, 89, 83, 78, 72, 66, 60, 54, 47, 39, 32, 25, 17, 12, 1, 0, 0, //
    134, 127, 120, 114, 103, 97, 91, 85, 78, 72, 66, 60, 54, 47, 41, 35, 29, 23, 16, 10, 1, //
    144, 137, 130, 124, 113, 107, 101, 95, 88, 82, 76, 70, 64, 57, 51, 45, 39, 33, 26, 15, 1, //
    152, 145, 138, 132, 123, 117, 111, 105, 98, 92, 86, 80, 74, 67, 61, 55, 49, 43, 36, 20, 1, //
    162, 155, 148, 142, 133, 127, 121, 115, 108, 102, 96, 90, 84, 77, 71, 65, 59, 53, 46, 30, 1, //
    172, 165, 158, 152, 143, 137, 131, 125, 118, 112, 106, 100, 94, 87, 81, 75, 69, 63, 56, 45, 20, //
    200, 200, 200, 200, 200, 200, 200, 200, 198, 193, 188, 183, 178, 173, 168, 163, 158, 153,
    148, 129, 104,
];

fn make_caps(c: i32, lm: i32) -> Vec<i32> {
    let cache = compute_pulse_cache(&EBAND5MS, &LOGN400, NB_E_BANDS, lm);
    init_caps(&cache.caps, &EBAND5MS, NB_E_BANDS, lm, c)
}

fn input(c: i32, lm: i32) -> AllocInput<'static> {
    AllocInput {
        e_bands: &EBAND5MS,
        log_n: &LOGN400,
        alloc_vectors: &BAND_ALLOCATION,
        nb_alloc_vectors: 11,
        nb_e_bands: NB_E_BANDS,
        start: 0,
        end: NB_E_BANDS,
        c,
        lm,
    }
}

/// Runs encode then decode of the allocation and asserts they agree exactly.
fn round_trip(c: i32, lm: i32, total: i32, alloc_trim: i32, intensity_in: i32) {
    let cap = make_caps(c, lm);
    let inp = input(c, lm);
    let offsets = vec![0i32; NB_E_BANDS];
    let signal_bandwidth = (NB_E_BANDS - 1) as i32;

    let mut p_e = vec![0i32; NB_E_BANDS];
    let mut eb_e = vec![0i32; NB_E_BANDS];
    let mut fp_e = vec![0i32; NB_E_BANDS];
    let mut enc = RangeEncoder::new(512);
    let alloc_e = {
        let mut coder = Coder::Enc(&mut enc);
        clt_compute_allocation(
            &inp,
            &mut coder,
            &offsets,
            &cap,
            alloc_trim,
            intensity_in,
            0,
            total,
            &mut p_e,
            &mut eb_e,
            &mut fp_e,
            0,
            signal_bandwidth,
        )
    };
    let bytes = enc.done();

    let mut p_d = vec![0i32; NB_E_BANDS];
    let mut eb_d = vec![0i32; NB_E_BANDS];
    let mut fp_d = vec![0i32; NB_E_BANDS];
    let mut dec = RangeDecoder::new(&bytes);
    let mut coder_d = Coder::Dec(&mut dec);
    let alloc_d = clt_compute_allocation(
        &inp,
        &mut coder_d,
        &offsets,
        &cap,
        alloc_trim,
        intensity_in,
        0,
        total,
        &mut p_d,
        &mut eb_d,
        &mut fp_d,
        0,
        signal_bandwidth,
    );

    assert_eq!(alloc_e.coded_bands, alloc_d.coded_bands, "coded_bands");
    assert_eq!(alloc_e.balance, alloc_d.balance, "balance");
    assert_eq!(alloc_e.intensity, alloc_d.intensity, "intensity");
    assert_eq!(alloc_e.dual_stereo, alloc_d.dual_stereo, "dual_stereo");
    assert_eq!(p_e, p_d, "pulses");
    assert_eq!(eb_e, eb_d, "ebits");
    assert_eq!(fp_e, fp_d, "fine_priority");
    for j in 0..alloc_e.coded_bands {
        assert!(p_e[j] >= 0, "pulses[{j}] negative");
        assert!(eb_e[j] >= 0 && eb_e[j] <= MAX_FINE_BITS, "ebits[{j}] range");
    }
}

#[test]
fn mono_allocation_round_trips() {
    for &total in &[800, 2000, 4000, 8000] {
        round_trip(1, 3, total, 5, 0);
    }
}

#[test]
fn stereo_allocation_round_trips() {
    for &total in &[2000, 5000, 9000] {
        round_trip(2, 3, total, 5, NB_E_BANDS as i32);
    }
}

#[test]
fn allocation_trim_extremes_round_trip() {
    round_trip(1, 3, 4000, 0, 0);
    round_trip(1, 3, 4000, 10, 0);
    round_trip(2, 3, 6000, 2, 10);
    round_trip(2, 3, 6000, 8, 18);
}

#[test]
fn allocation_short_block_round_trips() {
    round_trip(1, 0, 1500, 5, 0);
    round_trip(2, 1, 3000, 5, NB_E_BANDS as i32);
}

#[test]
fn total_bits_grow_pulses() {
    let cap = make_caps(1, 3);
    let inp = input(1, 3);
    let offsets = vec![0i32; NB_E_BANDS];
    let sum = |total: i32| -> i32 {
        let mut p = vec![0i32; NB_E_BANDS];
        let mut eb = vec![0i32; NB_E_BANDS];
        let mut fp = vec![0i32; NB_E_BANDS];
        let mut enc = RangeEncoder::new(512);
        let mut coder = Coder::Enc(&mut enc);
        clt_compute_allocation(
            &inp, &mut coder, &offsets, &cap, 5, 0, 0, total, &mut p, &mut eb, &mut fp, 0, 20,
        );
        p.iter().sum()
    };
    assert!(sum(4000) >= sum(1500), "pulses should grow with budget");
}

/// Encodes a desired-boost vector, decodes it, and returns
/// (granted-by-encoder, granted-by-decoder, total_boost).
fn boost_round_trip(c: i32, lm: i32, total_bits: i32, desired: &[i32]) -> (Vec<i32>, Vec<i32>, i32) {
    let cap = make_caps(c, lm);
    let mut enc = RangeEncoder::new(512);
    let mut off_enc = desired.to_vec();
    let tot = encode_dynalloc_boost(
        &mut enc,
        &EBAND5MS,
        0,
        NB_E_BANDS,
        c,
        lm,
        &cap,
        total_bits,
        &mut off_enc,
    );
    let bytes = enc.done();
    let mut dec = RangeDecoder::new(&bytes);
    let mut off_dec = vec![0i32; NB_E_BANDS];
    decode_dynalloc_boost(
        &mut dec,
        &EBAND5MS,
        0,
        NB_E_BANDS,
        c,
        lm,
        &cap,
        total_bits,
        &mut off_dec,
    );
    (off_enc, off_dec, tot)
}

#[test]
fn dynalloc_boost_round_trips_bit_exact() {
    let desired = [0, 3, 0, 0, 5, 0, 0, 2, 0, 1, 0, 0, 4, 0, 0, 0, 2, 0, 0, 0, 1];
    let (off_enc, off_dec, tot) = boost_round_trip(1, 3, 2000, &desired);
    assert_eq!(off_enc, off_dec, "encoder/decoder boosts must agree");
    assert_eq!(tot, off_enc.iter().sum::<i32>());
    assert!(off_enc.iter().any(|&b| b > 0), "no boost granted");
}

#[test]
fn dynalloc_boost_budget_limits_grant() {
    let desired = [6; 21];
    let (small_e, small_d, small_tot) = boost_round_trip(1, 3, 60, &desired);
    let (big_e, big_d, big_tot) = boost_round_trip(1, 3, 4000, &desired);
    assert_eq!(small_e, small_d);
    assert_eq!(big_e, big_d);
    assert!(small_tot <= big_tot, "small budget {small_tot} granted more than large {big_tot}");
}

#[test]
fn dynalloc_boost_zero_desired_grants_nothing() {
    let desired = [0i32; NB_E_BANDS];
    let (off_enc, off_dec, tot) = boost_round_trip(2, 2, 3000, &desired);
    assert_eq!(off_enc, off_dec);
    assert_eq!(tot, 0);
    assert!(off_enc.iter().all(|&b| b == 0));
}

#[test]
fn init_caps_scales_the_cache_caps_by_band_width() {
    // cap = (cache_cap + 64) * C * N / 4 with N the band width at LM.
    let cache = compute_pulse_cache(&EBAND5MS, &LOGN400, NB_E_BANDS, 0);
    let caps = init_caps(&cache.caps, &EBAND5MS, NB_E_BANDS, 0, 1);
    assert_eq!(caps.len(), NB_E_BANDS);
    let n = (EBAND5MS[1] - EBAND5MS[0]) as i32;
    assert_eq!(caps[0], (cache.caps[0] as i32 + 64) * n / 4);
    let n_last = (EBAND5MS[21] - EBAND5MS[20]) as i32;
    assert_eq!(caps[20], (cache.caps[20] as i32 + 64) * n_last / 4);
}

#[test]
fn decoder_reads_the_encoders_stereo_parameters() {
    let (c, lm, total, alloc_trim) = (2, 3, 6000, 5);
    let cap = make_caps(c, lm);
    let inp = input(c, lm);
    let offsets = vec![0i32; NB_E_BANDS];
    let signal_bandwidth = (NB_E_BANDS - 1) as i32;

    let mut p_e = vec![0i32; NB_E_BANDS];
    let mut eb_e = vec![0i32; NB_E_BANDS];
    let mut fp_e = vec![0i32; NB_E_BANDS];
    let mut enc = RangeEncoder::new(512);
    let alloc_e = {
        let mut coder = Coder::Enc(&mut enc);
        clt_compute_allocation(
            &inp, &mut coder, &offsets, &cap, alloc_trim, 12, 1, total, &mut p_e, &mut eb_e,
            &mut fp_e, 0, signal_bandwidth,
        )
    };
    let bytes = enc.done();

    let mut p_d = vec![0i32; NB_E_BANDS];
    let mut eb_d = vec![0i32; NB_E_BANDS];
    let mut fp_d = vec![0i32; NB_E_BANDS];
    let mut dec = RangeDecoder::new(&bytes);
    let mut coder_d = Coder::Dec(&mut dec);
    let alloc_d = clt_compute_allocation(
        &inp, &mut coder_d, &offsets, &cap, alloc_trim, 0, 0, total, &mut p_d, &mut eb_d,
        &mut fp_d, 0, signal_bandwidth,
    );

    assert!(alloc_e.intensity > 0);
    assert_eq!(alloc_e.intensity, alloc_d.intensity);
    assert_eq!(alloc_e.dual_stereo, 1);
    assert_eq!(alloc_d.dual_stereo, 1);
    assert_eq!(alloc_e.coded_bands, alloc_d.coded_bands);
    assert_eq!(alloc_e.balance, alloc_d.balance);
    assert_eq!(p_e, p_d);
    assert_eq!(eb_e, eb_d);
    assert_eq!(fp_e, fp_d);
}
