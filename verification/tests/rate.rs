use sc_opus::rate::{bits2pulses, compute_pulse_cache, get_pulses, log2_frac, pulses2bits};

/// The standard 48 kHz / 20 ms mode band layout (`eband5ms`).
const EBAND5MS: [i16; 22] = [
    0, 1, 2, 3, 4, 5, 6, 7, 8, 10, 12, 14, 16, 20, 24, 28, 34, 40, 48, 60, 78, 100,
];
const NB_E_BANDS: usize = 21;
const LOGN400: [i16; 21] = [
    0, 0, 0, 0, 0, 0, 0, 0, 8, 8, 8, 8, 16, 16, 16, 21, 21, 24, 29, 34, 36,
];

/// libopus `cache_caps50` for the standard mode (`(LM+1)*2*nbEBands = 168`).
const CACHE_CAPS50: [u8; 168] = [
    224, 224, 224, 224, 224, 224, 224, 224, 160, 160, 160, 160, 185, 185, 185, 178, 178, 168,
    134, 61, 37, 224, 224, 224, 224, 224, 224, 224, 224, 240, 240, 240, 240, 207, 207, 207,
    198, 198, 183, 144, 66, 40, 160, 160, 160, 160, 160, 160, 160, 160, 185, 185, 185, 185,
    193, 193, 193, 183, 183, 172, 138, 64, 38, 240, 240, 240, 240, 240, 240, 240, 240, 207,
    207, 207, 207, 204, 204, 204, 193, 193, 180, 143, 66, 40, 185, 185, 185, 185, 185, 185,
    185, 185, 193, 193, 193, 193, 193, 193, 193, 183, 183, 172, 138, 65, 39, 207, 207, 207,
    207, 207, 207, 207, 207, 204, 204, 204, 204, 201, 201, 201, 188, 188, 176, 141, 66, 40,
    193, 193, 193, 193, 193, 193, 193, 193, 193, 193, 193, 193, 194, 194, 194, 184, 184, 173,
    139, 65, 39, 204, 204, 204, 204, 204, 204, 204, 204, 201, 201, 201, 201, 198, 198, 198,
    187, 187, 175, 140, 66, 40,
];

/// libopus `cache_index50` for the standard mode (`LM = 3`, so 5 rows).
const CACHE_INDEX50: [i16; 105] = [
    -1, -1, -1, -1, -1, -1, -1, -1, 0, 0, 0, 0, 41, 41, 41, 82, 82, 123, 164, 200, 222, 0, 0,
    0, 0, 0, 0, 0, 0, 41, 41, 41, 41, 123, 123, 123, 164, 164, 240, 266, 283, 295, 41, 41, 41,
    41, 41, 41, 41, 41, 123, 123, 123, 123, 240, 240, 240, 266, 266, 305, 318, 328, 336, 123,
    123, 123, 123, 123, 123, 123, 123, 240, 240, 240, 240, 305, 305, 305, 318, 318, 343, 351,
    358, 364, 240, 240, 240, 240, 240, 240, 240, 240, 305, 305, 305, 305, 343, 343, 343, 351,
    351, 370, 376, 382, 387,
];

/// libopus `cache_bits50` for the standard mode.
const CACHE_BITS50: [u8; 392] = [
    40, 7, 7, 7, 7, 7, 7, 7, 7, 7, 7, 7, 7, 7, 7, 7, 7, 7, 7, 7, 7, 7, 7, 7, 7, 7, 7, 7, 7, 7,
    7, 7, 7, 7, 7, 7, 7, 7, 7, 7, 7, 40, 15, 23, 28, 31, 34, 36, 38, 39, 41, 42, 43, 44, 45,
    46, 47, 47, 49, 50, 51, 52, 53, 54, 55, 55, 57, 58, 59, 60, 61, 62, 63, 63, 65, 66, 67, 68,
    69, 70, 71, 71, 40, 20, 33, 41, 48, 53, 57, 61, 64, 66, 69, 71, 73, 75, 76, 78, 80, 82, 85,
    87, 89, 91, 92, 94, 96, 98, 101, 103, 105, 107, 108, 110, 112, 114, 117, 119, 121, 123,
    124, 126, 128, 40, 23, 39, 51, 60, 67, 73, 79, 83, 87, 91, 94, 97, 100, 102, 105, 107, 111,
    115, 118, 121, 124, 126, 129, 131, 135, 139, 142, 145, 148, 150, 153, 155, 159, 163, 166,
    169, 172, 174, 177, 179, 35, 28, 49, 65, 78, 89, 99, 107, 114, 120, 126, 132, 136, 141,
    145, 149, 153, 159, 165, 171, 176, 180, 185, 189, 192, 199, 205, 211, 216, 220, 225, 229,
    232, 239, 245, 251, 21, 33, 58, 79, 97, 112, 125, 137, 148, 157, 166, 174, 182, 189, 195,
    201, 207, 217, 227, 235, 243, 251, 17, 35, 63, 86, 106, 123, 139, 152, 165, 177, 187, 197,
    206, 214, 222, 230, 237, 250, 25, 31, 55, 75, 91, 105, 117, 128, 138, 146, 154, 161, 168,
    174, 180, 185, 190, 200, 208, 215, 222, 229, 235, 240, 245, 255, 16, 36, 65, 89, 110, 128,
    144, 159, 173, 185, 196, 207, 217, 226, 234, 242, 250, 11, 41, 74, 103, 128, 151, 172, 191,
    209, 225, 241, 255, 9, 43, 79, 110, 138, 163, 186, 207, 227, 246, 12, 39, 71, 99, 123, 144,
    164, 182, 198, 214, 228, 241, 253, 9, 44, 81, 113, 142, 168, 192, 214, 235, 255, 7, 49, 90,
    127, 160, 191, 220, 247, 6, 51, 95, 134, 170, 203, 234, 7, 47, 87, 123, 155, 184, 212, 237,
    6, 52, 97, 137, 174, 208, 240, 5, 57, 106, 151, 192, 231, 5, 59, 111, 158, 202, 243, 5, 55,
    103, 147, 187, 224, 5, 60, 113, 161, 206, 248, 4, 65, 122, 175, 224, 4, 67, 127, 182, 234,
];

#[test]
fn get_pulses_matches_closed_form() {
    assert_eq!(get_pulses(0), 0);
    assert_eq!(get_pulses(7), 7);
    assert_eq!(get_pulses(8), 8);
    assert_eq!(get_pulses(9), 9);
    // i>=8: (8 + (i&7)) << ((i>>3)-1).
    assert_eq!(get_pulses(16), 16);
    assert_eq!(get_pulses(24), 32);
}

#[test]
fn log2_frac_exact_on_powers_of_two() {
    // For val = 2^p, log2_frac(val, frac) == p << frac exactly.
    for p in 0..20 {
        assert_eq!(log2_frac(1 << p, 3), p << 3, "2^{p}");
    }
}

#[test]
fn log2_frac_overestimates_within_tolerance() {
    // Documented bound: never below the true value, never more than ~0.063
    // bits above it (in eighths, ~0.5).
    for &val in &[3u32, 5, 100, 1000, 65535, 1 << 20, u32::MAX] {
        let approx = log2_frac(val, 3) as f64 / 8.0;
        let exact = (val as f64).log2();
        assert!(approx >= exact - 1e-9, "log2_frac({val}) under-estimates");
        // ~0.0625-bit algorithm error plus the 1/8-bit output quantization.
        assert!(approx <= exact + 0.19, "log2_frac({val}) over by too much");
    }
}

#[test]
fn pulse_cache_matches_libopus_static_tables() {
    // The generated cache must be bit-identical to the tables libopus ships.
    let cache = compute_pulse_cache(&EBAND5MS, &LOGN400, NB_E_BANDS, 3);
    assert_eq!(cache.index.len(), CACHE_INDEX50.len(), "index length");
    assert_eq!(cache.bits.len(), CACHE_BITS50.len(), "bits length");
    assert_eq!(cache.index, CACHE_INDEX50, "cache index table");
    assert_eq!(cache.bits, CACHE_BITS50, "cache bits table");
}

#[test]
fn pulse_cache_caps_match_libopus_static_table() {
    // The generated rate caps must equal libopus' cache_caps50 exactly.
    let cache = compute_pulse_cache(&EBAND5MS, &LOGN400, NB_E_BANDS, 3);
    assert_eq!(cache.caps.len(), CACHE_CAPS50.len(), "caps length");
    assert_eq!(cache.caps, CACHE_CAPS50, "cache caps table");
}

#[test]
fn bits2pulses_and_pulses2bits_are_consistent() {
    let cache = compute_pulse_cache(&EBAND5MS, &LOGN400, NB_E_BANDS, 3);
    // For a mid band at LM=3, more bits never yields fewer pulses, and the
    // cost of the chosen pulse count never exceeds the budget by much.
    let band = 17;
    let lm = 3;
    let mut prev = 0;
    for bits in (8..400).step_by(8) {
        let q = bits2pulses(&cache, NB_E_BANDS, band, lm, bits);
        assert!(q >= prev, "pulses shrank as budget grew");
        prev = q;
        // pulses2bits inverts the cost the search read for the chosen q.
        let cost = pulses2bits(&cache, NB_E_BANDS, band, lm, q);
        assert!(cost >= 0);
    }
    // Round-trip a pulse count through its own cost (band 17 caps at K=4).
    for q in 1..=4 {
        let cost = pulses2bits(&cache, NB_E_BANDS, band, lm, q);
        assert_eq!(
            bits2pulses(&cache, NB_E_BANDS, band, lm, cost),
            q,
            "pulses2bits/bits2pulses round trip at q={q}"
        );
    }
}

#[test]
fn pulses2bits_zero_is_free() {
    let cache = compute_pulse_cache(&EBAND5MS, &LOGN400, NB_E_BANDS, 3);
    for band in 8..NB_E_BANDS {
        assert_eq!(pulses2bits(&cache, NB_E_BANDS, band, 3, 0), 0);
    }
}


#[test]
fn log2_frac_of_a_power_of_two_at_other_resolutions() {
    assert_eq!(log2_frac(1024, 0), 10);
    assert_eq!(log2_frac(1024, 5), 10 << 5);
    assert_eq!(log2_frac(1, 3), 0);
}

#[test]
fn get_pulses_grows_geometrically_past_eight() {
    assert_eq!(get_pulses(15), 15);
    assert_eq!(get_pulses(23), 30);
    assert_eq!(get_pulses(31), 60);
    assert_eq!(get_pulses(39), 120);
}

#[test]
fn log2_frac_bounds_the_eighth_power_from_above() {
    for val in [1u32, 2, 3, 5, 7, 100, 1000, 4097, 40000, 50000] {
        let r = log2_frac(val, 3);
        let power = (val as u128).pow(8);
        assert!(power <= 1u128 << r, "log2_frac({val}, 3) = {r} underestimates");
    }
}

#[test]
fn log2_frac_rounding_can_reach_a_full_eighth_above() {
    // 8 * log2(155869) = 137.9998: the squarings round the last bits up to
    // 138, and the final round-up adds one more eighth.
    assert_eq!(log2_frac(155869, 3), 139);
    // 8 * log2(17) = 32.7: rounded up to the next eighth.
    assert_eq!(log2_frac(17, 3), 33);
    // Never more than log2(5) / 2 eighths above the true value.
    for val in [3u32, 17, 155869, 65537, 1 << 20 | 1, u32::MAX] {
        let over = log2_frac(val, 3) as f64 - 8.0 * (val as f64).log2();
        assert!(over >= -1e-9 && over <= 5f64.log2() / 2.0, "log2_frac({val}) over by {over}");
    }
}
