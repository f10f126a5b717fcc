use sc_opus::range_coder::{ec_ilog, RangeDecoder, RangeEncoder};

const FT: u32 = 8;
const MODEL: [(u32, u32); 4] = [(0, 3), (3, 4), (4, 6), (6, 8)];

fn symbol_for(fs: u32) -> usize {
    MODEL.iter().position(|&(fl, fh)| fl <= fs && fs < fh).unwrap()
}

#[test]
fn round_trips_frequency_symbols() {
    let symbols = [0usize, 2, 3, 1, 0, 0, 3, 2, 1, 2, 3, 0];
    let mut enc = RangeEncoder::new(64);
    for &s in &symbols {
        let (fl, fh) = MODEL[s];
        enc.encode(fl, fh, FT);
    }
    let bytes = enc.done();

    let mut dec = RangeDecoder::new(&bytes);
    for &s in &symbols {
        let fs = dec.decode(FT);
        let got = symbol_for(fs);
        let (fl, fh) = MODEL[got];
        dec.dec_update(fl, fh, FT);
        assert_eq!(got, s);
    }
}

#[test]
fn ec_tell_frac_fresh_encoder_is_one_bit() {
    let enc = RangeEncoder::new(64);
    assert_eq!(enc.ec_tell_frac(), 8);
    assert_eq!(enc.ec_tell(), 1);
}

#[test]
fn ec_tell_frac_matches_between_encoder_and_decoder() {
    let symbols = [0usize, 2, 3, 1, 0, 3, 2, 1, 2, 3];
    let mut enc = RangeEncoder::new(64);
    let mut enc_tells = Vec::new();
    for &s in &symbols {
        let (fl, fh) = MODEL[s];
        enc.encode(fl, fh, FT);
        enc_tells.push(enc.ec_tell_frac());
        assert_eq!(enc.ec_tell(), ((enc.ec_tell_frac() + 7) >> 3) as i32);
    }
    let bytes = enc.done();

    let mut dec = RangeDecoder::new(&bytes);
    for (&s, &expected) in symbols.iter().zip(&enc_tells) {
        let fs = dec.decode(FT);
        let (fl, fh) = MODEL[symbol_for(fs)];
        dec.dec_update(fl, fh, FT);
        assert_eq!(dec.ec_tell_frac(), expected);
        let _ = s;
    }
}

#[test]
fn round_trips_bit_logp() {
    let bits = [true, false, false, true, true, false, true, false, false];
    let logp = 3;
    let mut enc = RangeEncoder::new(64);
    for &b in &bits {
        enc.enc_bit_logp(b, logp);
    }
    let bytes = enc.done();

    let mut dec = RangeDecoder::new(&bytes);
    for &b in &bits {
        assert_eq!(dec.dec_bit_logp(logp), b);
    }
}

#[test]
fn round_trips_icdf() {
    let icdf = [8u8, 4, 0];
    let ftb = 4;
    let symbols = [0usize, 1, 2, 2, 0, 1, 0, 2, 1];
    let mut enc = RangeEncoder::new(64);
    for &s in &symbols {
        enc.enc_icdf(s, &icdf, ftb);
    }
    let bytes = enc.done();

    let mut dec = RangeDecoder::new(&bytes);
    for &s in &symbols {
        assert_eq!(dec.dec_icdf(&icdf, ftb), s);
    }
}

#[test]
fn round_trips_uint_and_raw_bits() {
    let values: [(u32, u32); 5] = [(12_345, 65_536), (7, 8), (1_000_000, 1_048_576), (0, 2), (255, 256)];
    let raw: [(u32, u32); 3] = [(0b1011, 4), (0x3FF, 10), (1, 1)];

    let mut enc = RangeEncoder::new(128);
    for &(v, ft) in &values {
        enc.enc_uint(v, ft);
    }
    for &(v, b) in &raw {
        enc.enc_bits(v, b);
    }
    let bytes = enc.done();

    let mut dec = RangeDecoder::new(&bytes);
    for &(v, ft) in &values {
        assert_eq!(dec.dec_uint(ft), v);
    }
    for &(v, b) in &raw {
        assert_eq!(dec.dec_bits(b), v);
    }
}

#[test]
fn ec_ilog_matches_reference() {
    assert_eq!(ec_ilog(0), 0);
    assert_eq!(ec_ilog(1), 1);
    assert_eq!(ec_ilog(2), 2);
    assert_eq!(ec_ilog(255), 8);
    assert_eq!(ec_ilog(256), 9);
    assert_eq!(ec_ilog(0xFFFF_FFFF), 32);
}

#[test]
fn encode_celt_frame_errors_on_byte_budget_overflow() {
    // A 2-byte budget cannot hold 32 raw bytes: the coder reports an error
    // instead of writing past its buffer.
    let mut enc = RangeEncoder::new(2);
    for _ in 0..32 {
        enc.enc_bits(0xFF, 8);
    }
    assert!(enc.is_error());
}

#[test]
fn encode_bin_matches_encode_with_a_power_of_two_total() {
    let mut a = RangeEncoder::new(32);
    let mut b = RangeEncoder::new(32);
    for &(fl, fh) in &[(0u32, 3u32), (3, 5), (5, 16), (1, 2)] {
        a.encode(fl, fh, 16);
        b.encode_bin(fl, fh, 4);
    }
    assert_eq!(a.rng(), b.rng());
    assert_eq!(a.done(), b.done());
}

#[test]
fn decode_bin_reads_what_encode_bin_wrote() {
    let mut enc = RangeEncoder::new(32);
    enc.encode_bin(5, 6, 3);
    let bytes = enc.done();
    let mut dec = RangeDecoder::new(&bytes);
    let fs = dec.decode_bin(3);
    assert_eq!(fs, 5);
    dec.dec_update(5, 6, 8);
    assert_eq!(dec.storage(), 32);
    assert_eq!(dec.storage_bits(), 256);
}

#[test]
fn range_bytes_counts_the_bytes_written_so_far() {
    let mut enc = RangeEncoder::new(64);
    assert_eq!(enc.range_bytes(), 0);
    for v in 0..10u32 {
        enc.encode(v * 20 + 3, v * 20 + 4, 256);
    }
    // Ten symbols of eight bits each: all but the last few bytes are out.
    assert!(enc.range_bytes() >= 7, "{}", enc.range_bytes());
    assert_eq!(enc.storage_bits(), 512);
}

#[test]
fn raw_bits_alone_round_trip() {
    let fields: [(u32, u32); 6] = [(0b1, 1), (0x1ff_ffff, 25), (5, 3), (0, 7), (0xabc, 12), (1, 2)];
    let mut enc = RangeEncoder::new(8);
    for &(v, b) in &fields {
        enc.enc_bits(v, b);
    }
    let bytes = enc.done();
    assert_eq!(bytes.len(), 8);
    let mut dec = RangeDecoder::new(&bytes);
    for &(v, b) in &fields {
        assert_eq!(dec.dec_bits(b), v);
    }
}

#[test]
fn coder_positions_never_move_back_and_done_fills_the_buffer() {
    let mut enc = RangeEncoder::new(40);
    let mut tell = enc.ec_tell_frac();
    let mut bytes = enc.range_bytes();
    for i in 0..20u32 {
        match i % 4 {
            0 => enc.encode(i % 3, i % 3 + 1, 5),
            1 => enc.enc_bit_logp(i % 2 == 0, 3),
            2 => enc.enc_uint(i * 37, 1000),
            _ => enc.enc_bits(i, 5),
        }
        assert!(enc.ec_tell_frac() >= tell);
        assert!(enc.range_bytes() >= bytes);
        tell = enc.ec_tell_frac();
        bytes = enc.range_bytes();
    }
    let out = enc.done();
    assert_eq!(out.len(), 40);
    let mut dec = RangeDecoder::new(&out);
    let mut t = dec.ec_tell_frac();
    for i in 0..20u32 {
        match i % 4 {
            0 => {
                let fs = dec.decode(5);
                assert_eq!(fs, i % 3);
                dec.dec_update(fs, fs + 1, 5);
            }
            1 => assert_eq!(dec.dec_bit_logp(3), i % 2 == 0),
            2 => assert_eq!(dec.dec_uint(1000), i * 37),
            _ => assert_eq!(dec.dec_bits(5), i),
        }
        assert!(dec.ec_tell_frac() >= t);
        t = dec.ec_tell_frac();
    }
}
