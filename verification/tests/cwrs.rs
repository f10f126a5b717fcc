use sc_opus::cwrs::{cwrsi, decode_pulses, encode_pulses, icwrs, u, v};
use sc_opus::range_coder::{RangeDecoder, RangeEncoder};

#[test]
fn u_matches_closed_forms() {
    for k in 1..40i64 {
        assert_eq!(i64::from(u(1, k as u32)), 1, "U(1,{k})");
        assert_eq!(i64::from(u(2, k as u32)), 2 * k - 1, "U(2,{k})");
        assert_eq!(i64::from(u(3, k as u32)), (2 * k - 2) * k + 1, "U(3,{k})");
        assert_eq!(i64::from(u(4, k as u32)), (((4 * k - 6) * k + 8) * k - 3) / 3, "U(4,{k})");
        assert_eq!(
            i64::from(u(5, k as u32)),
            ((((2 * k - 4) * k + 10) * k - 8) * k + 3) / 3,
            "U(5,{k})"
        );
    }
}

#[test]
fn u_is_symmetric() {
    for n in 0..20u32 {
        for k in 0..20u32 {
            assert_eq!(u(n, k), u(k, n), "U({n},{k})");
        }
    }
}

#[test]
fn v_matches_closed_forms() {
    for k in 1..30u32 {
        assert_eq!(v(2, k), 4 * k, "V(2,{k})");
        assert_eq!(v(3, k), 4 * k * k + 2, "V(3,{k})");
    }
}

#[test]
fn icwrs_indexes_within_the_codebook() {
    // Every pulse vector of length 3 and L1 norm 2 gets a distinct index in [0, V(3,2)).
    let mut seen = Vec::new();
    for a in -2i32..=2 {
        for b in -2i32..=2 {
            let c_abs = 2 - a.abs() - b.abs();
            if c_abs < 0 {
                continue;
            }
            for c in [c_abs, -c_abs] {
                let y = [a, b, c];
                let idx = icwrs(3, &y);
                assert!(idx < v(3, 2), "index {idx} out of range for {y:?}");
                if !seen.contains(&idx) {
                    seen.push(idx);
                }
            }
        }
    }
    assert_eq!(seen.len() as u32, v(3, 2));
}

#[test]
fn icwrs_exact_values() {
    assert_eq!(icwrs(2, &[1, 0]), 0);
    assert_eq!(icwrs(2, &[0, 1]), 1);
    assert_eq!(icwrs(2, &[0, -1]), 2);
    assert_eq!(icwrs(2, &[-1, 0]), 3);
}

#[test]
fn encode_pulses_writes_the_index_uniformly() {
    let mut enc = RangeEncoder::new(64);
    encode_pulses(&[1, -1, 0, 1], 4, 3, &mut enc);
    assert!(!enc.is_error());
    // One uniform symbol among V(4,3) = 88 codewords costs about log2(88) bits.
    let tell = enc.ec_tell();
    assert!((7..=9).contains(&tell), "tell {tell}");
}

#[test]
fn round_trips_pulse_vectors() {
    let cases: &[(usize, u32, &[i32])] = &[
        (4, 3, &[1, -1, 0, 1]),
        (4, 3, &[3, 0, 0, 0]),
        (4, 3, &[0, 0, -3, 0]),
        (5, 4, &[2, -1, 0, 1, 0]),
        (5, 4, &[0, 0, 4, 0, 0]),
        (5, 4, &[-1, -1, -1, -1, 0]),
        (2, 5, &[3, -2]),
        (2, 5, &[0, -5]),
        (3, 6, &[2, -2, 2]),
        (8, 3, &[1, 0, -1, 0, 1, 0, 0, 0]),
        (6, 1, &[0, 0, 0, -1, 0, 0]),
    ];

    for &(n, k, y) in cases {
        assert_eq!(
            y.iter().map(|v| v.unsigned_abs()).sum::<u32>(),
            k,
            "test vector L1 norm must equal k"
        );

        let mut enc = RangeEncoder::new(64);
        encode_pulses(y, n, k, &mut enc);
        let bytes = enc.done();

        let mut dec = RangeDecoder::new(&bytes);
        let mut decoded = vec![0i32; n];
        let yy = decode_pulses(&mut decoded, n, k, &mut dec) as f32;

        assert_eq!(decoded, y, "n={n} k={k}");
        let expected_yy: f32 = y.iter().map(|&v| (v * v) as f32).sum();
        assert!((yy - expected_yy).abs() < 1e-3, "yy mismatch n={n} k={k}");
    }
}

#[test]
fn cwrsi_inverts_icwrs_over_a_whole_codebook() {
    // Every index below V(3, 2) = 18 decodes to a distinct vector of norm 2
    // whose index is the one it came from.
    let total = v(3, 2);
    assert_eq!(total, 18);
    let mut seen: Vec<Vec<i32>> = Vec::new();
    for i in 0..total {
        let mut y = vec![0i32; 3];
        let yy = cwrsi(3, 2, i, &mut y);
        assert_eq!(y.iter().map(|v| v.unsigned_abs()).sum::<u32>(), 2);
        assert_eq!(icwrs(3, &y), i);
        assert_eq!(yy, y.iter().map(|&v| (v * v) as u64).sum::<u64>());
        assert!(!seen.contains(&y));
        seen.push(y);
    }
}

#[test]
fn cwrsi_exact_vectors() {
    let mut y = vec![7i32; 5];
    assert_eq!(cwrsi(4, 3, 0, &mut y), 9);
    assert_eq!(y, vec![3, 0, 0, 0, 7]);
    let mut y = vec![0i32; 2];
    assert_eq!(cwrsi(2, 5, 19, &mut y), 17);
    assert_eq!(y, vec![-1, -4]);
    assert_eq!(cwrsi(2, 5, 10, &mut y), 25);
    assert_eq!(y, vec![0, -5]);
}
