//! Opus packet framing for CELT-only fullband frames: a one-byte TOC (table
//! of contents) followed by the frame. The top five bits of the TOC are the
//! configuration number, bit 2 the stereo flag, the low two bits the
//! frame-count code.
use vstd::prelude::*;

verus! {

/// The Opus configuration of CELT-only fullband at 2.5 ms; configurations
/// `28..=31` cover 2.5/5/10/20 ms, i.e. this base plus the frame-size shift.
const CELT_FULLBAND_BASE_CONFIG: u8 = 28;

/// The decoded fields of an Opus TOC byte.
#[derive(Debug, Clone, Copy, PartialEq, Eq, Structural)]
pub struct Toc {
    /// The configuration number (`0..=31`).
    pub config: u8,
    /// Whether the frame is stereo.
    pub stereo: bool,
    /// The frame-count code (`0..=3`).
    pub code: u8,
}

/// The TOC byte of a single CELT-only fullband frame of size shift `lm`.
pub open spec fn celt_fullband_toc_spec(lm: int, stereo: bool) -> int {
    (28 + lm) * 8 + if stereo {
        4int
    } else {
        0int
    }
}

/// The fields of a TOC byte.
pub open spec fn parse_toc_spec(byte: u8) -> Toc {
    Toc { config: (byte / 8) as u8, stereo: (byte / 4) % 2 == 1, code: (byte % 4) as u8 }
}

/// The byte a TOC's fields are packed into.
pub open spec fn toc_byte(toc: Toc) -> int {
    toc.config * 8 + (if toc.stereo {
        4int
    } else {
        0int
    }) + toc.code
}

/// Builds the one-byte TOC of a CELT-only fullband frame of size shift `lm`
/// (`0..=3`: 2.5/5/10/20 ms), mono or stereo, as a single frame (code 0).
pub fn celt_fullband_toc(lm: i32, stereo: bool) -> (res: u8)
    requires
        0 <= lm <= 3,
    ensures
        res == celt_fullband_toc_spec(lm as int, stereo),
{
    let config = CELT_FULLBAND_BASE_CONFIG + lm as u8;
    let s: u8 = if stereo {
        1
    } else {
        0
    };
    proof {
        assert(28 <= config <= 31 && s <= 1 ==> (config << 3u8) | (s << 2u8) == config * 8 + s * 4)
            by (bit_vector);
    }
    (config << 3) | (s << 2)
}

/// Parses an Opus TOC byte into its fields.
pub fn parse_toc(byte: u8) -> (res: Toc)
    ensures
        res == parse_toc_spec(byte),
{
    proof {
        assert(byte >> 3u8 == byte / 8 && (byte & 4u8 != 0) == ((byte / 4) % 2 == 1) && byte & 3u8
            == byte % 4) by (bit_vector);
    }
    Toc { config: byte >> 3, stereo: byte & 0x04 != 0, code: byte & 0x03 }
}

/// Frames a single CELT frame as a CELT-only fullband Opus packet: the TOC
/// byte, then the frame.
pub fn celt_opus_packet(lm: i32, stereo: bool, frame: &[u8]) -> (res: Vec<u8>)
    requires
        0 <= lm <= 3,
    ensures
        res@ == seq![celt_fullband_toc_spec(lm as int, stereo) as u8] + frame@,
{
    let mut packet = Vec::new();
    packet.push(celt_fullband_toc(lm, stereo));
    packet.extend_from_slice(frame);
    assert(packet@ =~= seq![celt_fullband_toc_spec(lm as int, stereo) as u8] + frame@);
    packet
}

/// The TOC the CELT-only path writes reads back as its configuration
/// (`28 + lm`), stereo flag and single-frame code.
pub proof fn lemma_toc_round_trip(lm: int, stereo: bool)
    requires
        0 <= lm <= 3,
    ensures
        parse_toc_spec(celt_fullband_toc_spec(lm, stereo) as u8) == (Toc {
            config: (28 + lm) as u8,
            stereo,
            code: 0,
        }),
{
}

/// Parsing keeps every bit of the byte: packing the fields gives it back.
pub proof fn lemma_toc_fields_pack(byte: u8)
    ensures
        toc_byte(parse_toc_spec(byte)) == byte,
        parse_toc_spec(byte).config < 32,
        parse_toc_spec(byte).code < 4,
{
}

} // verus!
