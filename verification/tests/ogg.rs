use sc_opus::ogg::{
    collect_packets, contains, looks_like_incomplete_ogg_opus_prefix, mux_ogg_opus, ogg_crc,
    parse_ogg_opus, parse_ogg_pages, parse_opus_head, push_ogg_page, OggError, OpusDecoder,
    OpusHead,
};

const OPUS_HEAD: &[u8; 8] = b"OpusHead";

fn opus_head(channels: u8, mapping_family: u8) -> [u8; 19] {
    let mut packet = [0; 19];
    packet[..OPUS_HEAD.len()].copy_from_slice(OPUS_HEAD);
    packet[8] = 1;
    packet[9] = channels;
    packet[10..12].copy_from_slice(&312u16.to_le_bytes());
    packet[12..16].copy_from_slice(&48_000u32.to_le_bytes());
    packet[18] = mapping_family;
    packet
}

#[test]
fn parses_supported_opus_head() {
    let mut packet = opus_head(2, 0);
    let head = parse_opus_head(&packet).expect("head");
    assert_eq!(head, OpusHead { channels: 2, pre_skip: 312 });

    packet[9] = 1;
    let head = parse_opus_head(&packet).expect("mono head");
    assert_eq!(head.channels, 1);
}

#[test]
fn rejects_unsupported_mapping_family() {
    let mut packet = opus_head(2, 1);
    let err = parse_opus_head(&packet).expect_err("mapping family");
    assert!(err.is_unsupported());
    assert_eq!(err, OggError::UnsupportedMappingFamily);

    packet[18] = 0;
    packet[9] = 3;
    let err = parse_opus_head(&packet).expect_err("channels");
    assert!(err.is_unsupported());
    assert_eq!(err, OggError::UnsupportedChannelCount);
}

#[test]
fn rejects_truncated_ogg_page() {
    let err = parse_ogg_pages(b"OggS").err().expect("truncated");
    assert!(!err.is_unsupported());
    assert_eq!(err, OggError::PageHeaderTruncated);
    assert!(err.is_incomplete());
}

#[test]
fn stream_decoder_buffers_incomplete_ogg_opus_prefix() {
    let mut decoder = OpusDecoder::new();
    assert!(!decoder.push_chunk(b"O"), "prefix");
    assert!(!decoder.push_chunk(b"ggS"), "capture");
    assert!(!decoder.push_chunk(&[0; 27]), "partial page");
    assert_eq!(decoder.pending().len(), 31);
}

#[test]
fn stream_decoder_ignores_empty_input_and_clears() {
    let mut decoder = OpusDecoder::new();
    assert!(!decoder.push_chunk(&[]));
    assert!(decoder.pending().is_empty());
    // Bytes that are not an Ogg stream are handed on to be decoded (and refused there).
    assert!(decoder.push_chunk(b"RIFF"));
    decoder.clear();
    assert!(decoder.pending().is_empty());
}

#[test]
fn ogg_crc_matches_the_reference_check_value() {
    assert_eq!(ogg_crc(b"123456789"), 0x89a1_897f);
    assert_eq!(ogg_crc(b"OggS"), 0x5fb0_a94f);
    assert_eq!(ogg_crc(&[]), 0);
}

#[test]
fn muxed_stream_parses_back_to_its_packets() {
    let packets = vec![vec![1u8, 2, 3], vec![7u8; 300], Vec::new(), vec![9u8; 255]];
    let stream = mux_ogg_opus(2, packets.clone());
    assert_eq!(&stream[..4], b"OggS");
    let ogg = parse_ogg_opus(&stream).ok().expect("parse");
    assert_eq!(ogg.channels, 2);
    assert_eq!(ogg.pre_skip, 120);
    assert_eq!(ogg.audio_packets, packets);
}

#[test]
fn muxed_pages_carry_valid_crcs() {
    let stream = mux_ogg_opus(1, vec![vec![5u8; 10]]);
    let pages = parse_ogg_pages(&stream).ok().expect("pages");
    assert_eq!(pages.len(), 3);
    // The first page: OpusHead, beginning of stream, sequence 0.
    assert_eq!(stream[5], 0x02);
    let first_len = 27 + 1 + 19;
    let mut zeroed = stream[..first_len].to_vec();
    zeroed[22..26].copy_from_slice(&[0; 4]);
    let crc = u32::from_le_bytes([stream[22], stream[23], stream[24], stream[25]]);
    assert_eq!(ogg_crc(&zeroed), crc);
}

#[test]
fn push_ogg_page_laces_long_packets() {
    let mut stream = Vec::new();
    let mut sequence = 7;
    push_ogg_page(&mut stream, &[vec![1u8; 510]], 0, 960, &mut sequence);
    assert_eq!(sequence, 8);
    // 510 bytes lace as 255, 255, 0.
    assert_eq!(stream[26], 3);
    assert_eq!(&stream[27..30], &[255, 255, 0]);
    assert_eq!(stream.len(), 27 + 3 + 510);
    assert_eq!(u32::from_le_bytes([stream[18], stream[19], stream[20], stream[21]]), 7);
    assert_eq!(u64::from_le_bytes(stream[6..14].try_into().unwrap()), 960);
}

#[test]
fn packets_continue_across_pages() {
    // A page whose last lace is 255 leaves its packet open; the next page,
    // flagged as a continuation, completes it.
    let mut stream = Vec::new();
    let mut sequence = 0;
    let mut first = Vec::new();
    push_ogg_page(&mut first, &[vec![1u8; 255]], 0, 0, &mut sequence);
    // Drop the trailing zero lace so the packet stays open.
    let mut page = first.clone();
    page[26] = 1;
    page.remove(28);
    stream.extend_from_slice(&page);
    let mut second = Vec::new();
    push_ogg_page(&mut second, &[vec![2u8; 3]], 1, 0, &mut sequence);
    stream.extend_from_slice(&second);
    let pages = parse_ogg_pages(&stream).ok().expect("pages");
    assert!(!pages[0].last_packet_complete);
    assert!(pages[1].continued);
    let packets = collect_packets(&pages).ok().expect("packets");
    assert_eq!(packets.len(), 1);
    assert_eq!(packets[0].len(), 258);
}

#[test]
fn continuation_without_previous_packet_is_refused() {
    let mut stream = Vec::new();
    let mut sequence = 0;
    push_ogg_page(&mut stream, &[vec![2u8; 3]], 1, 0, &mut sequence);
    let pages = parse_ogg_pages(&stream).ok().expect("pages");
    assert_eq!(collect_packets(&pages).err(), Some(OggError::ContinuationWithoutPrevious));
}

#[test]
fn ogg_errors_for_bad_headers() {
    let mut page = Vec::new();
    let mut sequence = 0;
    push_ogg_page(&mut page, &[vec![0u8; 4]], 0, 0, &mut sequence);
    let mut bad_capture = page.clone();
    bad_capture[0] = b'X';
    assert_eq!(parse_ogg_pages(&bad_capture).err(), Some(OggError::CaptureMissing));
    let mut bad_version = page.clone();
    bad_version[4] = 1;
    assert_eq!(parse_ogg_pages(&bad_version).err(), Some(OggError::UnsupportedVersion));
    assert_eq!(parse_ogg_pages(&page[..27]).err(), Some(OggError::SegmentTableTruncated));
    assert_eq!(parse_ogg_pages(&page[..29]).err(), Some(OggError::PayloadTruncated));
}

#[test]
fn opus_head_errors() {
    assert_eq!(parse_opus_head(b"OpusHeaX").err(), Some(OggError::MissingOpusHead));
    assert_eq!(parse_opus_head(b"OpusHead\x01").err(), Some(OggError::OpusHeadTruncated));
    let mut packet = opus_head(1, 0);
    packet[8] = 0x10;
    assert_eq!(parse_opus_head(&packet).err(), Some(OggError::UnsupportedOpusHeadVersion));
}

#[test]
fn stream_without_tags_is_refused() {
    let mut stream = Vec::new();
    let mut sequence = 0;
    push_ogg_page(&mut stream, &[opus_head(1, 0).to_vec()], 2, 0, &mut sequence);
    assert_eq!(parse_ogg_opus(&stream).err(), Some(OggError::MissingOpusTags));
    assert_eq!(parse_ogg_opus(&[]).err(), Some(OggError::MissingOpusHead));
}

#[test]
fn incomplete_prefix_detection() {
    assert!(looks_like_incomplete_ogg_opus_prefix(b""));
    assert!(looks_like_incomplete_ogg_opus_prefix(b"Og"));
    assert!(!looks_like_incomplete_ogg_opus_prefix(b"RIFF...."));
    let stream = mux_ogg_opus(1, vec![vec![1, 2, 3]]);
    assert!(!looks_like_incomplete_ogg_opus_prefix(&stream), "OpusHead present");
    assert!(looks_like_incomplete_ogg_opus_prefix(&stream[..20]));
}

#[test]
fn contains_finds_non_empty_needles() {
    assert!(contains(b"abcOpusHeadxyz", b"OpusHead"));
    assert!(!contains(b"abcOpusHeaxyz", b"OpusHead"));
    assert!(!contains(b"abc", b""));
    assert!(!contains(b"ab", b"abc"));
}
