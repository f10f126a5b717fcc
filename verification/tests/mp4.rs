use sc_opus::mp4::{
    audio_specific_config, box_with_payload, demux_aac, find_box_payload, full_box, mux_aac,
    parse_adts_frames, sample_rate_from_index, write_u16, write_u32, Mp4Error,
};

fn adts_frame(payload: &[u8]) -> Vec<u8> {
    let frame_len = payload.len() + 7;
    let mut out = vec![
        0xff,
        0xf1,
        0x50,
        0x80 | (((frame_len >> 11) & 0x03) as u8),
        ((frame_len >> 3) & 0xff) as u8,
        (((frame_len & 0x07) << 5) as u8) | 0x1f,
        0xfc,
    ];
    out.extend_from_slice(payload);
    out
}

fn contains(haystack: &[u8], needle: &[u8]) -> bool {
    haystack.windows(needle.len()).any(|window| window == needle)
}

fn read_u32(input: &[u8]) -> u32 {
    u32::from_be_bytes(input.try_into().unwrap())
}

fn assert_top_level_boxes_are_sized(mp4: &[u8]) {
    let mut pos = 0;
    while pos < mp4.len() {
        assert!(mp4.len() - pos >= 8);
        let size = read_u32(&mp4[pos..pos + 4]) as usize;
        assert!(size >= 8);
        assert!(pos + size <= mp4.len());
        pos += size;
    }
    assert_eq!(pos, mp4.len());
}

fn mdat_payload_offset(mp4: &[u8]) -> u32 {
    let mut pos = 0;
    while pos + 8 <= mp4.len() {
        let size = read_u32(&mp4[pos..pos + 4]) as usize;
        if &mp4[pos + 4..pos + 8] == b"mdat" {
            return (pos + 8) as u32;
        }
        pos += size;
    }
    panic!("mdat box not found");
}

fn read_stco_offset(mp4: &[u8]) -> u32 {
    let stco = find_box_payload(mp4, b"stco").expect("stco box exists");
    assert_eq!(stco[0], 0);
    assert_eq!(&stco[4..8], &1_u32.to_be_bytes());
    read_u32(&stco[8..12])
}

fn find_box_payload_range(input: &[u8], name: &[u8; 4]) -> Option<std::ops::Range<usize>> {
    find_box_payload_range_from(input, name, 0)
}

fn find_box_payload_range_from(input: &[u8], name: &[u8; 4], base: usize) -> Option<std::ops::Range<usize>> {
    let mut pos = 0;
    while pos + 8 <= input.len() {
        let size = read_u32(&input[pos..pos + 4]) as usize;
        if size < 8 || pos + size > input.len() {
            return None;
        }
        let box_name = &input[pos + 4..pos + 8];
        let payload_start = pos + 8;
        let payload_end = pos + size;
        if box_name == name {
            return Some(base + payload_start..base + payload_end);
        }
        if matches!(box_name, b"moov" | b"trak" | b"mdia" | b"minf" | b"stbl") {
            if let Some(found) =
                find_box_payload_range_from(&input[payload_start..payload_end], name, base + payload_start)
            {
                return Some(found);
            }
        } else if matches!(box_name, b"stsd" | b"dref" | b"mp4a") {
            let child_offset = if matches!(box_name, b"mp4a") { 28 } else { 8 };
            if let Some(child_payload) = input[payload_start..payload_end].get(child_offset..) {
                if let Some(found) =
                    find_box_payload_range_from(child_payload, name, base + payload_start + child_offset)
                {
                    return Some(found);
                }
            }
        }
        pos += size;
    }
    None
}

fn find_top_level_box_range(input: &[u8], name: &[u8; 4]) -> Option<std::ops::Range<usize>> {
    let mut pos = 0;
    while pos + 8 <= input.len() {
        let size = read_u32(&input[pos..pos + 4]) as usize;
        if size < 8 || pos + size > input.len() {
            return None;
        }
        if &input[pos + 4..pos + 8] == name {
            return Some(pos..pos + size);
        }
        pos += size;
    }
    None
}

fn find_subslice(haystack: &[u8], needle: &[u8]) -> Option<usize> {
    haystack.windows(needle.len()).position(|window| window == needle)
}

#[test]
fn muxes_single_adts_frame_as_m4a() {
    let adts = adts_frame(&[0x11, 0x22, 0x33, 0x44]);
    let mp4 = mux_aac(&adts).unwrap();

    assert_top_level_boxes_are_sized(&mp4);
    assert_eq!(&mp4[4..8], b"ftyp");
    assert!(contains(&mp4, b"mdat"));
    assert!(contains(&mp4, b"moov"));
    assert!(contains(&mp4, b"mp4a"));
    assert!(contains(&mp4, b"esds"));
    assert_eq!(read_stco_offset(&mp4), mdat_payload_offset(&mp4));
    assert!(contains(&mp4, &[0x12, 0x10]));
    assert!(!contains(&mp4, &adts[..7]));
    assert!(contains(&mp4, &[0x11, 0x22, 0x33, 0x44]));
    assert_eq!(demux_aac(&mp4).unwrap(), adts);
}

#[test]
fn muxes_multiple_adts_frames() {
    let mut adts = adts_frame(&[0xaa, 0xbb]);
    adts.extend_from_slice(&adts_frame(&[0xcc, 0xdd, 0xee]));

    let mp4 = mux_aac(&adts).unwrap();

    assert!(contains(&mp4, &[0xaa, 0xbb, 0xcc, 0xdd, 0xee]));
    assert!(contains(&mp4, &2_u32.to_be_bytes()));
    assert_eq!(demux_aac(&mp4).unwrap(), adts);
}

#[test]
fn rejects_truncated_adts_frame() {
    let err = mux_aac(&[0xff, 0xf1, 0x50]).unwrap_err();
    assert_eq!(err, Mp4Error::TruncatedAdtsHeader);
}

#[test]
fn rejects_parameter_changes() {
    let mut adts = adts_frame(&[0x00]);
    let mut changed = adts_frame(&[0x01]);
    changed[2] = (changed[2] & !0x3c) | (3 << 2);
    adts.extend_from_slice(&changed);

    let err = mux_aac(&adts).unwrap_err();
    assert_eq!(err, Mp4Error::ParameterChange);
}

#[test]
fn demux_rejects_truncated_stsz_sample_table() {
    let adts = adts_frame(&[0x11, 0x22]);
    let mut mp4 = mux_aac(&adts).unwrap();
    let stsz = find_box_payload_range(&mp4, b"stsz").unwrap();
    mp4[stsz.start + 8..stsz.start + 12].copy_from_slice(&2_u32.to_be_bytes());

    let err = demux_aac(&mp4).unwrap_err();
    assert_eq!(err, Mp4Error::TruncatedStszTable);
}

#[test]
fn demux_rejects_invalid_audio_specific_config() {
    let adts = adts_frame(&[0x11, 0x22]);
    let mut mp4 = mux_aac(&adts).unwrap();
    let asc = find_subslice(&mp4, &[0x12, 0x10]).unwrap();
    mp4[asc..asc + 2].copy_from_slice(&[0x17, 0x90]);

    let err = demux_aac(&mp4).unwrap_err();
    assert_eq!(err, Mp4Error::InvalidSampleRateIndex);
}

#[test]
fn demux_rejects_truncated_mdat_sample() {
    let adts = adts_frame(&[0xaa, 0xbb, 0xcc]);
    let mut mp4 = mux_aac(&adts).unwrap();
    let stsz = find_box_payload_range(&mp4, b"stsz").unwrap();
    mp4[stsz.start + 12..stsz.start + 16].copy_from_slice(&4_u32.to_be_bytes());

    let err = demux_aac(&mp4).unwrap_err();
    assert_eq!(err, Mp4Error::TruncatedMdatSample);
}

#[test]
fn demux_rejects_trailing_mdat_bytes() {
    let adts = adts_frame(&[0xaa, 0xbb, 0xcc]);
    let mut mp4 = mux_aac(&adts).unwrap();
    let mdat = find_top_level_box_range(&mp4, b"mdat").unwrap();
    mp4.insert(mdat.end, 0xdd);
    let new_size = u32::try_from(mdat.end - mdat.start + 1).unwrap();
    mp4[mdat.start..mdat.start + 4].copy_from_slice(&new_size.to_be_bytes());

    let err = demux_aac(&mp4).unwrap_err();
    assert_eq!(err, Mp4Error::TrailingMdatBytes);
}

#[test]
fn empty_or_box_less_inputs_are_refused() {
    assert_eq!(mux_aac(&[]).unwrap_err(), Mp4Error::NoFrames);
    assert_eq!(demux_aac(b"not an mp4").unwrap_err(), Mp4Error::UnsupportedFormat);
    assert_eq!(mux_aac(&[0x00; 7]).unwrap_err(), Mp4Error::MissingAdtsSync);
}

#[test]
fn adts_header_fields_are_read() {
    let adts = adts_frame(&[1, 2, 3]);
    let frames = parse_adts_frames(&adts).ok().unwrap();
    assert_eq!(frames.len(), 1);
    assert_eq!(frames[0].profile, 2);
    assert_eq!(frames[0].sample_rate_index, 4);
    assert_eq!(frames[0].channels, 2);
    assert_eq!(frames[0].payload, &[1, 2, 3]);
}

#[test]
fn adts_header_errors() {
    let mut bad_rate = adts_frame(&[1]);
    bad_rate[2] = (bad_rate[2] & !0x3c) | (13 << 2);
    assert_eq!(parse_adts_frames(&bad_rate).err(), Some(Mp4Error::InvalidAdtsSampleRateIndex));
    let mut no_channels = adts_frame(&[1]);
    no_channels[3] &= 0x3f;
    assert_eq!(parse_adts_frames(&no_channels).err(), Some(Mp4Error::ProgramConfigUnsupported));
    let mut short = adts_frame(&[1]);
    short[4] = 0;
    short[5] = 0x1f;
    assert_eq!(parse_adts_frames(&short).err(), Some(Mp4Error::InvalidAdtsFrameLength));
    let frame = adts_frame(&[1, 2, 3]);
    assert_eq!(parse_adts_frames(&frame[..8]).err(), Some(Mp4Error::TruncatedAdtsFrame));
}

#[test]
fn audio_specific_config_packs_the_fields() {
    // AAC-LC (2), 44.1 kHz (index 4), stereo: 0x12 0x10.
    assert_eq!(audio_specific_config(2, 4, 2), [0x12, 0x10]);
    assert_eq!(audio_specific_config(2, 3, 1), [0x11, 0x88]);
}

#[test]
fn sample_rate_table_lookup() {
    assert_eq!(sample_rate_from_index(0), Ok(96_000));
    assert_eq!(sample_rate_from_index(4), Ok(44_100));
    assert_eq!(sample_rate_from_index(12), Ok(7_350));
    assert_eq!(sample_rate_from_index(13), Err(Mp4Error::InvalidSampleRateIndex));
}

#[test]
fn box_writers_are_big_endian() {
    let mut out = Vec::new();
    write_u16(&mut out, 0x0102);
    write_u32(&mut out, 0x0304_0506);
    assert_eq!(out, vec![1, 2, 3, 4, 5, 6]);
    let b = box_with_payload(*b"test", &[9, 9]).unwrap();
    assert_eq!(b, vec![0, 0, 0, 10, b't', b'e', b's', b't', 9, 9]);
    let f = full_box(*b"full", 1, 0x0a0b0c, &[7]).unwrap();
    assert_eq!(f, vec![0, 0, 0, 13, b'f', b'u', b'l', b'l', 1, 0x0a, 0x0b, 0x0c, 7]);
}
