use sc_opus::celt_frame::{
    decode_alloc_trim, decode_frame_prelude, decode_spread, decode_transient_flag, encode_alloc_trim,
    encode_spread, encode_transient_flag, frame_bit_budget, DEFAULT_TRIM, SPREAD_NORMAL,
};
use sc_opus::postfilter::{encode_postfilter, PostfilterParams};
use sc_opus::range_coder::{RangeDecoder, RangeEncoder};

#[test]
fn header_decisions_are_read_back_where_coded() {
    for (transient, spread, trim) in [(true, 0usize, 0i32), (false, 3, 10), (true, 2, 5), (false, 1, 7)] {
        let total_bits = 64 * 8;
        let mut enc = RangeEncoder::new(64);
        encode_transient_flag(&mut enc, transient, 3, total_bits);
        encode_spread(&mut enc, spread, total_bits);
        assert_eq!(encode_alloc_trim(&mut enc, trim, total_bits, 0), trim);
        let bytes = enc.done();
        let mut dec = RangeDecoder::new(&bytes);
        assert_eq!(decode_transient_flag(&mut dec, 3, total_bits), transient);
        assert_eq!(decode_spread(&mut dec, total_bits), spread as i32);
        assert_eq!(decode_alloc_trim(&mut dec, total_bits, 0), trim);
    }
}

#[test]
fn header_decisions_fall_back_where_nothing_is_coded() {
    // A single-block frame has no transient flag.
    let mut enc = RangeEncoder::new(8);
    let before = enc.ec_tell_frac();
    encode_transient_flag(&mut enc, true, 0, 64);
    assert_eq!(enc.ec_tell_frac(), before);
    // Two bits of frame: neither the spread nor the trim fits.
    encode_spread(&mut enc, 3, 2);
    assert_eq!(encode_alloc_trim(&mut enc, 9, 2, 0), DEFAULT_TRIM);
    assert_eq!(enc.ec_tell_frac(), before);
    let bytes = enc.done();
    let mut dec = RangeDecoder::new(&bytes);
    assert!(!decode_transient_flag(&mut dec, 0, 64));
    assert_eq!(decode_spread(&mut dec, 2), SPREAD_NORMAL);
    assert_eq!(decode_alloc_trim(&mut dec, 2, 0), DEFAULT_TRIM);
    // The boosts can take the trim's room: 64 * 8 - 470 leaves less than
    // 6 bits past what is used.
    let mut enc = RangeEncoder::new(8);
    assert_eq!(encode_alloc_trim(&mut enc, 9, 64, 470), DEFAULT_TRIM);
    assert_eq!(encode_alloc_trim(&mut enc, 9, 64, 0), 9);
}

#[test]
fn frame_budget_keeps_an_eighth_and_the_anti_collapse_bit() {
    assert_eq!(frame_bit_budget(800, 100, true, 3), (6291, 8));
    assert_eq!(frame_bit_budget(800, 100, false, 3), (6299, 0));
    assert_eq!(frame_bit_budget(800, 100, true, 1), (6299, 0));
    // 40 - 30 - 1 = 9 eighth-bits cannot afford the reservation at lm 2.
    assert_eq!(frame_bit_budget(5, 30, true, 2), (9, 0));
    // Exactly (lm + 2) * 8 left: the reservation is taken.
    assert_eq!(frame_bit_budget(5, 7, true, 2), (24, 8));
}

#[test]
fn frame_prelude_reads_back_what_the_encoder_wrote() {
    let total_bits = 64 * 8;
    let pf = PostfilterParams { pf_on: true, pitch_index: 300, qg: 4, tapset: 2 };
    let mut enc = RangeEncoder::new(64);
    enc.enc_bit_logp(false, 15);
    encode_postfilter(&mut enc, &pf, 0, total_bits);
    encode_transient_flag(&mut enc, true, 3, total_bits);
    enc.enc_bit_logp(true, 3);
    let bytes = enc.done();
    let mut dec = RangeDecoder::new(&bytes);
    let head = decode_frame_prelude(&mut dec, 0, 3, total_bits);
    assert!(!head.silence);
    assert_eq!(head.postfilter, Some(pf));
    assert!(head.is_transient);
    assert!(head.intra);
}
