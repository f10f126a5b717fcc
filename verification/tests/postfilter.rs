use sc_opus::postfilter::{decode_postfilter, encode_postfilter, PostfilterParams, COMBFILTER_MINPERIOD};
use sc_opus::range_coder::{RangeDecoder, RangeEncoder};

fn gain_of(qg: i32) -> f32 {
    0.09375 * (qg + 1) as f32
}

#[test]
fn postfilter_params_round_trip_bit_exact() {
    let total_bits = 1000i32;
    for (pitch_index, qg, tapset) in [(80, 5, 0usize), (15, 0, 2), (1000, 7, 1)] {
        let pf = PostfilterParams { pf_on: true, pitch_index, qg, tapset };
        let gain = gain_of(qg);
        let mut enc = RangeEncoder::new(64);
        enc.enc_bit_logp(false, 15);
        encode_postfilter(&mut enc, &pf, 0, total_bits);
        let bytes = enc.done();

        let mut dec = RangeDecoder::new(&bytes);
        assert!(!dec.dec_bit_logp(15));
        let got = decode_postfilter(&mut dec, 0, total_bits).expect("post-filter on");
        assert_eq!(got.pitch_index, pitch_index, "pitch mismatch");
        assert_eq!(got.qg, qg, "qg mismatch");
        assert_eq!(got.tapset, tapset, "tapset mismatch");
        assert!((gain_of(got.qg) - gain).abs() < 1e-9, "gain mismatch");
    }
}

#[test]
fn postfilter_off_round_trips() {
    let total_bits = 1000i32;
    let pf = PostfilterParams { pf_on: false, pitch_index: COMBFILTER_MINPERIOD, qg: 0, tapset: 0 };
    let mut enc = RangeEncoder::new(64);
    enc.enc_bit_logp(false, 15);
    encode_postfilter(&mut enc, &pf, 0, total_bits);
    let bytes = enc.done();

    let mut dec = RangeDecoder::new(&bytes);
    assert!(!dec.dec_bit_logp(15));
    assert!(
        decode_postfilter(&mut dec, 0, total_bits).is_none(),
        "off header must decode to None"
    );
}

#[test]
fn postfilter_section_is_absent_past_the_first_band() {
    let pf = PostfilterParams { pf_on: true, pitch_index: 80, qg: 3, tapset: 1 };
    let mut enc = RangeEncoder::new(64);
    encode_postfilter(&mut enc, &pf, 1, 1000);
    assert_eq!(enc.ec_tell(), 1);
    let bytes = enc.done();
    let mut dec = RangeDecoder::new(&bytes);
    assert!(decode_postfilter(&mut dec, 1, 1000).is_none());
    assert_eq!(dec.ec_tell(), 1);
}

#[test]
fn postfilter_off_flag_needs_sixteen_bits_of_room() {
    let pf = PostfilterParams { pf_on: false, pitch_index: 0, qg: 0, tapset: 0 };
    let mut enc = RangeEncoder::new(64);
    encode_postfilter(&mut enc, &pf, 0, 16);
    assert_eq!(enc.ec_tell(), 1);
    encode_postfilter(&mut enc, &pf, 0, 17);
    assert_eq!(enc.ec_tell(), 2);
}

#[test]
fn postfilter_tapset_defaults_to_zero_without_room() {
    // Pitch 1000 sits in octave 5: the section takes the flag, the octave,
    // 9 pitch bits and 3 gain bits before the tapset. With one bit to spare
    // after those the tapset is not read.
    let pf = PostfilterParams { pf_on: true, pitch_index: 1000, qg: 5, tapset: 2 };
    let mut enc = RangeEncoder::new(64);
    encode_postfilter(&mut enc, &pf, 0, 1000);
    let bytes = enc.done();
    let mut probe = RangeDecoder::new(&bytes);
    assert!(probe.dec_bit_logp(1));
    assert_eq!(probe.dec_uint(6), 5);
    let _ = probe.dec_bits(9);
    assert_eq!(probe.dec_bits(3), 5);
    let budget = probe.ec_tell() + 1;
    assert!(budget >= 17);

    let mut dec = RangeDecoder::new(&bytes);
    let got = decode_postfilter(&mut dec, 0, budget).expect("post-filter on");
    assert_eq!(got.pitch_index, 1000);
    assert_eq!(got.qg, 5);
    assert_eq!(got.tapset, 0);
}

#[test]
fn postfilter_on_section_is_written_whatever_the_budget() {
    let pf = PostfilterParams { pf_on: true, pitch_index: 80, qg: 3, tapset: 1 };
    let mut enc = RangeEncoder::new(8);
    encode_postfilter(&mut enc, &pf, 0, 10);
    assert!(enc.ec_tell() > 10);
}
