use sc_opus::range_coder::{RangeDecoder, RangeEncoder};
use sc_opus::tf::{tf_decode, tf_encode};

const TF_SELECT_TABLE: [[i8; 8]; 4] = [
    [0, -1, 0, -1, 0, -1, 0, -1],
    [0, -1, 0, -2, 1, 0, 1, -1],
    [0, -2, 0, -3, 2, 0, 1, -1],
    [0, -2, 0, -3, 3, 0, 1, -1],
];

fn round_trip(lm: i32, is_transient: bool, tf_select: i32, raw: &[i32]) {
    let end = raw.len();
    let mut enc_res = raw.to_vec();
    let mut enc = RangeEncoder::new(64);
    tf_encode(0, end, is_transient, &mut enc_res, lm, tf_select, &mut enc);
    let bytes = enc.done();

    let mut dec_res = vec![0i32; end];
    let mut dec = RangeDecoder::new(&bytes);
    tf_decode(0, end, is_transient, &mut dec_res, lm, &mut dec);

    assert_eq!(
        enc_res, dec_res,
        "tf_res mismatch (lm={lm}, transient={is_transient}, tf_select={tf_select})"
    );
}

#[test]
fn tf_round_trips_all_modes() {
    let patterns: &[&[i32]] = &[
        &[0, 0, 0, 0, 0, 0, 0, 0, 0, 0, 0, 0, 0, 0, 0, 0, 0, 0, 0, 0, 0],
        &[1, 1, 1, 1, 1, 1, 1, 1, 1, 1, 1, 1, 1, 1, 1, 1, 1, 1, 1, 1, 1],
        &[0, 1, 0, 1, 1, 0, 0, 1, 1, 1, 0, 0, 1, 0, 1, 0, 1, 1, 0, 0, 1],
        &[0, 0, 0, 1, 1, 1, 0, 0, 0, 1, 1, 1, 0, 0, 0, 1, 1, 1, 0, 0, 0],
    ];
    for lm in 0..=3 {
        for &is_transient in &[false, true] {
            for tf_select in 0..=1 {
                for pat in patterns {
                    round_trip(lm, is_transient, tf_select, pat);
                }
            }
        }
    }
}

#[test]
fn tf_mapped_values_are_in_table() {
    let mut res = vec![0, 1, 1, 0, 1, 0, 0, 1, 1, 0, 1];
    let mut enc = RangeEncoder::new(64);
    tf_encode(0, res.len(), true, &mut res, 3, 1, &mut enc);
    for &v in &res {
        assert!(
            TF_SELECT_TABLE[3].iter().any(|&t| i32::from(t) == v),
            "mapped value {v} not in table"
        );
    }
}

#[test]
fn tf_low_budget_forces_constant_flags() {
    round_trip(2, false, 0, &[1, 0, 1, 1, 0]);
    round_trip(0, true, 0, &[0, 1, 0]);
}

#[test]
fn tf_encode_maps_flags_through_the_select_table() {
    // Non-transient, LM 3, tf_select 0: a flag of 0 maps to entry 0, a flag
    // of 1 to entry 1 of the table row.
    let mut res = vec![0, 1, 1, 0];
    let mut enc = RangeEncoder::new(64);
    tf_encode(0, 4, false, &mut res, 3, 0, &mut enc);
    assert_eq!(res, vec![0, -2, -2, 0]);
}
