use sc_opus::laplace::{ec_laplace_decode, ec_laplace_encode};
use sc_opus::range_coder::{RangeDecoder, RangeEncoder};

#[test]
fn round_trips_energy_deltas() {
    let params = [(8000u32, 4000i32), (16000, 1000), (2000, 8000), (24000, 200)];
    let values = [0i32, 1, -1, 2, -3, 5, -8, 13, -21, 34, -55, 200, -200, 5000, -5000];

    for &(fs, decay) in &params {
        let mut enc = RangeEncoder::new(512);
        let mut clamped = Vec::new();
        for &v in &values {
            let mut vv = v;
            ec_laplace_encode(&mut enc, &mut vv, fs, decay);
            clamped.push(vv);
        }
        let bytes = enc.done();

        let mut dec = RangeDecoder::new(&bytes);
        for &expected in &clamped {
            assert_eq!(ec_laplace_decode(&mut dec, fs, decay), expected, "fs={fs} decay={decay}");
        }
    }
}

#[test]
fn zero_stays_zero() {
    let mut enc = RangeEncoder::new(64);
    let mut v = 0;
    ec_laplace_encode(&mut enc, &mut v, 12000, 3000);
    assert_eq!(v, 0);
    let bytes = enc.done();
    let mut dec = RangeDecoder::new(&bytes);
    assert_eq!(ec_laplace_decode(&mut dec, 12000, 3000), 0);
}

#[test]
fn large_values_are_clamped_to_the_representable_tail() {
    // With a fast decay only a bounded magnitude fits in 15-bit frequencies:
    // the encoder clamps the value and the decoder reads the clamped value.
    let mut enc = RangeEncoder::new(64);
    let mut v = 100_000;
    ec_laplace_encode(&mut enc, &mut v, 8000, 4000);
    assert!(v > 0 && v < 100_000, "clamped to {v}");
    let bytes = enc.done();
    let mut dec = RangeDecoder::new(&bytes);
    assert_eq!(ec_laplace_decode(&mut dec, 8000, 4000), v);
}
