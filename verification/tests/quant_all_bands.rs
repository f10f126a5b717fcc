use sc_opus::quant_all_bands::{band_budget, fold_source, next_lowband};

const EBAND5MS: [i16; 22] = [
    0, 1, 2, 3, 4, 5, 6, 7, 8, 10, 12, 14, 16, 20, 24, 28, 34, 40, 48, 60, 78, 100,
];

#[test]
fn band_budget_shares_the_balance_over_three_bands() {
    // 300 of balance over the next three coded bands: 100 each.
    assert_eq!(band_budget(2, 10, 300, 5000, 40), 140);
    // Two coded bands left: half the balance.
    assert_eq!(band_budget(8, 10, 300, 5000, 40), 190);
    // Negative balance rounds toward zero.
    assert_eq!(band_budget(2, 10, -301, 5000, 200), 100);
}

#[test]
fn band_budget_is_capped_and_never_negative() {
    assert_eq!(band_budget(0, 10, 0, 99, 500), 100);
    assert_eq!(band_budget(0, 10, 0, 1 << 20, 20000), 16383);
    assert_eq!(band_budget(0, 10, -3000, 5000, 10), 0);
    assert_eq!(band_budget(12, 10, 300, 5000, 40), 0);
}

#[test]
fn lowband_moves_only_while_resynthesising() {
    assert_eq!(next_lowband(true, 16, 8, 0, 9, 0, true, 3), 9);
    assert_eq!(next_lowband(false, 16, 8, 0, 9, 0, true, 3), 3);
    assert_eq!(next_lowband(true, 16, 8, 0, 9, 0, false, 3), 3);
    assert_eq!(next_lowband(true, 16, 8, 0, 9, 0, false, 0), 9);
    assert_eq!(next_lowband(true, 1, 8, 0, 1, 0, false, 0), 1);
}

#[test]
fn fold_source_ors_the_masks_of_the_bands_below() {
    // m = 1, band 12 (edges 16..20, n = 4) folding from band 10 (edge 12).
    let masks: Vec<u8> = (0..12).map(|j| 1u8 << (j % 8)).collect();
    let (eff, x_cm, y_cm) = fold_source(&EBAND5MS, 1, 0, 10, 12, 4, &masks, 1);
    // eff = 12 - 0 - 4 = 8: bands 8 (edge 8) up to the first edge >= 12.
    assert_eq!(eff, 8);
    assert_eq!(x_cm, u32::from(masks[8] | masks[9]));
    assert_eq!(y_cm, x_cm);
}

#[test]
fn fold_source_reads_both_channels() {
    let mut masks = vec![0u8; 2 * 12];
    masks[2 * 8] = 0x1;
    masks[2 * 8 + 1] = 0x2;
    masks[2 * 9] = 0x4;
    masks[2 * 9 + 1] = 0x8;
    let (_, x_cm, y_cm) = fold_source(&EBAND5MS, 1, 0, 10, 12, 4, &masks, 2);
    assert_eq!(x_cm, 0x5);
    assert_eq!(y_cm, 0xA);
}
