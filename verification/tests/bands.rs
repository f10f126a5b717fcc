use sc_opus::bands::{celt_lcg_rand, deinterleave_hadamard, interleave_hadamard, BandLayout};

#[test]
fn celt_lcg_rand_matches_reference_sequence() {
    let mut seed = 0u32;
    seed = celt_lcg_rand(seed);
    assert_eq!(seed, 1_013_904_223);
    seed = celt_lcg_rand(seed);
    assert_eq!(seed, 1_013_904_223u32.wrapping_mul(1_664_525).wrapping_add(1_013_904_223));
    assert_eq!(celt_lcg_rand(u32::MAX), u32::MAX.wrapping_mul(1_664_525).wrapping_add(1_013_904_223));
}

#[test]
fn celt_lcg_rand_exact_third_step() {
    // 1664525 * 1196435762 + 1013904223 mod 2^32.
    assert_eq!(celt_lcg_rand(1_196_435_762), 3_519_870_697);
}

#[test]
fn band_layout_holds_the_mode_edges() {
    let edges: [i16; 3] = [0, 4, 8];
    let layout = BandLayout { e_bands: &edges, short_mdct_size: 120, nb_e_bands: 2 };
    assert_eq!(layout.e_bands[layout.nb_e_bands], 8);
    assert_eq!(layout.short_mdct_size, 120);
}

#[test]
fn hadamard_interleave_inverts_deinterleave() {
    for &stride in &[2usize, 4, 8] {
        for &hadamard in &[false, true] {
            let n = 3 * stride;
            let orig: Vec<f32> = (0..n).map(|k| k as f32 * 0.1).collect();
            let mut x = orig.clone();
            deinterleave_hadamard(&mut x, 3, stride, hadamard);
            interleave_hadamard(&mut x, 3, stride, hadamard);
            assert_eq!(x, orig, "stride={stride} hadamard={hadamard}");
        }
    }
}

#[test]
fn deinterleave_hadamard_places_sub_sequences_by_the_table() {
    // Stride 4, two samples each: sub-sequence i is x[i], x[4 + i].
    let mut x: Vec<i32> = (0..8).collect();
    deinterleave_hadamard(&mut x, 2, 4, false);
    assert_eq!(x, vec![0, 4, 1, 5, 2, 6, 3, 7]);
    let mut x: Vec<i32> = (0..8).collect();
    deinterleave_hadamard(&mut x, 2, 4, true);
    // ordery for stride 4 is [3, 0, 2, 1]: sub-sequence 0 goes to block 3.
    assert_eq!(x, vec![1, 5, 3, 7, 2, 6, 0, 4]);
    let mut y: Vec<i32> = (0..10).collect();
    interleave_hadamard(&mut y, 2, 4, true);
    assert_eq!(&y[8..], &[8, 9]);
    deinterleave_hadamard(&mut y, 2, 4, true);
    assert_eq!(y, (0..10).collect::<Vec<i32>>());
}
