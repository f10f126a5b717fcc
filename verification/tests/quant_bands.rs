use sc_opus::laplace::ec_laplace_encode;
use sc_opus::quant_bands::{decode_coarse_qi, decode_fine_bits, decode_fine_finalise, decode_intra_flag};
use sc_opus::range_coder::{RangeDecoder, RangeEncoder};
use sc_opus::vq::extract_collapse_mask;

#[test]
fn intra_flag_is_read_when_it_fits_the_budget() {
    let mut enc = RangeEncoder::new(16);
    enc.enc_bit_logp(true, 3);
    let bytes = enc.done();
    let mut dec = RangeDecoder::new(&bytes);
    assert!(decode_intra_flag(&mut dec, 128));
}

#[test]
fn intra_flag_is_absent_without_room() {
    let mut enc = RangeEncoder::new(16);
    enc.enc_bit_logp(true, 3);
    let bytes = enc.done();
    let mut dec = RangeDecoder::new(&bytes);
    // tell is 1 bit: 1 + 3 > 3, so nothing is read and the flag is off.
    assert!(!decode_intra_flag(&mut dec, 3));
    assert_eq!(dec.ec_tell(), 1);
}

#[test]
fn collapse_mask_marks_blocks_with_pulses() {
    let iy = [0, 0, 1, 0, 0, 0, -2, 0];
    assert_eq!(extract_collapse_mask(&iy, 8, 4), 0b1010);
    assert_eq!(extract_collapse_mask(&iy, 8, 1), 1);
    assert_eq!(extract_collapse_mask(&[0; 8], 8, 2), 0);
    assert_eq!(extract_collapse_mask(&iy, 8, 2), 0b11);
}

const PROB_LM0_INTER: [u8; 42] = [
    72, 127, 65, 129, 66, 128, 65, 128, 64, 128, 62, 128, 64, 128, 64, 128, 92, 78, 92, 79, 92, 78,
    90, 79, 116, 41, 115, 40, 114, 40, 132, 26, 132, 26, 145, 17, 161, 12, 176, 10, 177, 11,
];

#[test]
fn coarse_steps_come_back_from_the_laplace_model() {
    let values = [0, 1, -1, 2, -3, 4];
    let mut enc = RangeEncoder::new(64);
    for (i, &v) in values.iter().enumerate() {
        let mut q = v;
        let pi = 2 * i.min(20);
        ec_laplace_encode(
            &mut enc,
            &mut q,
            u32::from(PROB_LM0_INTER[pi]) << 7,
            i32::from(PROB_LM0_INTER[pi + 1]) << 6,
        );
        assert_eq!(q, v);
    }
    let bytes = enc.done();
    let mut dec = RangeDecoder::new(&bytes);
    let qi = decode_coarse_qi(&mut dec, &PROB_LM0_INTER, 0, values.len(), 1, 64 * 8);
    assert_eq!(qi, values.to_vec());
}

#[test]
fn coarse_steps_go_down_when_no_bits_remain() {
    let bytes = [0u8; 4];
    let mut dec = RangeDecoder::new(&bytes);
    let qi = decode_coarse_qi(&mut dec, &PROB_LM0_INTER, 2, 5, 2, 0);
    assert_eq!(qi, vec![-1; 6]);
    assert_eq!(dec.ec_tell(), 1);
}

#[test]
fn fine_energy_fields_come_back_band_by_band() {
    let fine_quant = [2, 0, 3, 1];
    let fields: [(u32, u32); 6] = [(3, 2), (1, 2), (5, 3), (2, 3), (1, 1), (0, 1)];
    let mut enc = RangeEncoder::new(16);
    enc.enc_bit_logp(true, 2);
    for &(v, w) in &fields {
        enc.enc_bits(v, w);
    }
    let bytes = enc.done();
    let mut dec = RangeDecoder::new(&bytes);
    assert!(dec.dec_bit_logp(2));
    let q = decode_fine_bits(&mut dec, &fine_quant, 0, 4, 2);
    assert_eq!(q, vec![3, 1, 5, 2, 1, 0]);
}

#[test]
fn final_refinement_goes_by_priority_while_bits_last() {
    // Bands 0 and 2 have priority 0, band 1 priority 1; band 3 is already fine.
    let fine_quant = [1, 2, 1, 8];
    let fine_priority = [0, 1, 0, 0];
    let mut enc = RangeEncoder::new(16);
    for v in [1u32, 0, 1] {
        enc.enc_bits(v, 1);
    }
    let bytes = enc.done();
    let mut dec = RangeDecoder::new(&bytes);
    // Three bits to spend, mono: bands 0 and 2 first, then band 1.
    let q = decode_fine_finalise(&mut dec, &fine_quant, &fine_priority, 0, 4, 1, 3);
    assert_eq!(q, vec![1, 0, 1]);
    let mut dec = RangeDecoder::new(&bytes);
    let q = decode_fine_finalise(&mut dec, &fine_quant, &fine_priority, 0, 4, 1, 1);
    assert_eq!(q, vec![1]);
}
