use sc_opus::opus_packet::{celt_fullband_toc, celt_opus_packet, parse_toc};

#[test]
fn toc_matches_the_rfc_config_table() {
    assert_eq!(celt_fullband_toc(3, false), 0xF8);
    assert_eq!(celt_fullband_toc(3, true), 0xFC);
    assert_eq!(celt_fullband_toc(0, false), 0xE0);
    assert_eq!(celt_fullband_toc(2, false), 0xF0);
}

#[test]
fn toc_round_trips_through_the_parser() {
    for lm in 0..=3 {
        for stereo in [false, true] {
            let toc = parse_toc(celt_fullband_toc(lm, stereo));
            assert_eq!(toc.config, 28 + lm as u8);
            assert_eq!(toc.stereo, stereo);
            assert_eq!(toc.code, 0, "single-frame packets use code 0");
        }
    }
}

#[test]
fn packet_prefixes_the_toc_byte() {
    let frame = [1u8, 2, 3, 4];
    let packet = celt_opus_packet(3, false, &frame);
    assert_eq!(packet[0], 0xF8);
    assert_eq!(&packet[1..], &frame);
}

#[test]
fn parse_toc_reads_every_field() {
    let toc = parse_toc(0b1010_0111);
    assert_eq!(toc.config, 0b10100);
    assert!(toc.stereo);
    assert_eq!(toc.code, 3);
}
