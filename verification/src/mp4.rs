//! A minimal M4A (MP4) container for AAC-LC: muxing ADTS frames into a
//! single-track file and demuxing that layout back into ADTS frames.
use vstd::arithmetic::power2::*;
use vstd::prelude::*;

verus! {

/// Why an AAC stream or an M4A file was refused.
#[derive(Debug, Clone, Copy, PartialEq, Eq, Structural)]
pub enum Mp4Error {
    /// A box the single-track layout needs is missing, or the sample
    /// description holds no decoder configuration.
    UnsupportedFormat,
    TruncatedAdtsHeader,
    MissingAdtsSync,
    InvalidAdtsSampleRateIndex,
    ProgramConfigUnsupported,
    InvalidAdtsFrameLength,
    TruncatedAdtsFrame,
    NoFrames,
    ParameterChange,
    InvalidSampleRateIndex,
    UnsupportedProfile,
    BoxTooLarge,
    DurationOverflow,
    TruncatedStsz,
    StszTooLarge,
    TruncatedStszTable,
    OutputTooLarge,
    TruncatedMdatSample,
    TrailingMdatBytes,
    AdtsFrameTooLong,
    TooManySamples,
}

/// The `n` big-endian bytes of `x`.
pub open spec fn be_bytes(x: nat, n: nat) -> Seq<u8>
    decreases n,
{
    if n == 0 {
        seq![]
    } else {
        seq![((x / pow2((8 * (n - 1)) as nat)) % 256) as u8] + be_bytes(x, (n - 1) as nat)
    }
}

proof fn lemma_be_bytes_unfold(x: nat)
    ensures
        be_bytes(x, 2) =~= seq![((x / 256) % 256) as u8, (x % 256) as u8],
        be_bytes(x, 3) =~= seq![((x / 0x1_0000) % 256) as u8, ((x / 256) % 256) as u8, (x % 256) as u8],
        be_bytes(x, 4) =~= seq![
            ((x / 0x100_0000) % 256) as u8,
            ((x / 0x1_0000) % 256) as u8,
            ((x / 256) % 256) as u8,
            (x % 256) as u8,
        ],
{
    lemma2_to64();
    assert(x / 1 == x);
    assert(be_bytes(x, 0) =~= Seq::<u8>::empty());
    assert(be_bytes(x, 1) =~= seq![(x % 256) as u8]);
    assert(be_bytes(x, 2) =~= seq![((x / 256) % 256) as u8, (x % 256) as u8]);
    assert(be_bytes(x, 3) =~= seq![((x / 0x1_0000) % 256) as u8, ((x / 256) % 256) as u8, (x % 256) as u8]);
}

proof fn lemma_be_bytes_len(x: nat, n: nat)
    ensures
        be_bytes(x, n).len() == n,
    decreases n,
{
    if n > 0 {
        lemma_be_bytes_len(x, (n - 1) as nat);
    }
}

/// Appends `value` as two big-endian bytes.
pub fn write_u16(out: &mut Vec<u8>, value: u16)
    ensures
        final(out)@ == old(out)@ + be_bytes(value as nat, 2),
{
    proof {
        lemma_be_bytes_unfold(value as nat);
    }
    let ghost start = out@;
    out.push((value / 256) as u8);
    out.push((value % 256) as u8);
    assert(out@ =~= start + be_bytes(value as nat, 2));
}

/// Appends `value` as four big-endian bytes.
pub fn write_u32(out: &mut Vec<u8>, value: u32)
    ensures
        final(out)@ == old(out)@ + be_bytes(value as nat, 4),
{
    proof {
        lemma_be_bytes_unfold(value as nat);
    }
    let ghost start = out@;
    out.push((value / 0x100_0000) as u8);
    out.push(((value / 0x1_0000) % 256) as u8);
    out.push(((value / 256) % 256) as u8);
    out.push((value % 256) as u8);
    assert(out@ =~= start + be_bytes(value as nat, 4));
}

/// Reads four big-endian bytes.
fn read_u32(input: &[u8]) -> (res: u32)
    requires
        input@.len() == 4,
    ensures
        res == be_value(input@),
{
    input[0] as u32 * 0x100_0000 + input[1] as u32 * 0x1_0000 + input[2] as u32 * 256 + input[3] as u32
}

/// The value of four big-endian bytes.
pub open spec fn be_value(b: Seq<u8>) -> nat {
    (b[0] * 0x100_0000 + b[1] * 0x1_0000 + b[2] * 256 + b[3]) as nat
}

proof fn lemma_be_round_trip(x: u32)
    ensures
        be_bytes(x as nat, 4).len() == 4,
        be_value(be_bytes(x as nat, 4)) == x,
{
    lemma_be_bytes_unfold(x as nat);
}

/// A box: its 32-bit size (header included), its four-byte name, its payload.
pub open spec fn mp4_box(name: Seq<u8>, payload: Seq<u8>) -> Seq<u8> {
    be_bytes((payload.len() + 8) as nat, 4) + name + payload
}

/// A full box: a box whose payload starts with a version byte and 24 flag bits.
pub open spec fn full_box_spec(name: Seq<u8>, version: u8, flags: nat, payload: Seq<u8>) -> Seq<u8> {
    mp4_box(name, seq![version] + be_bytes(flags, 3) + payload)
}

/// The bytes of a built buffer, or the error.
pub open spec fn bytes_result(res: Result<Vec<u8>, Mp4Error>) -> Result<Seq<u8>, Mp4Error> {
    match res {
        Ok(b) => Ok(b@),
        Err(e) => Err(e),
    }
}

/// A box, when its size fits the 32-bit size field.
pub open spec fn sized_box(name: Seq<u8>, payload: Seq<u8>) -> Result<Seq<u8>, Mp4Error> {
    if payload.len() + 8 <= u32::MAX {
        Ok(mp4_box(name, payload))
    } else {
        Err(Mp4Error::BoxTooLarge)
    }
}

proof fn lemma_box_len(name: Seq<u8>, payload: Seq<u8>)
    ensures
        mp4_box(name, payload).len() == payload.len() + 4 + name.len(),
{
    lemma_be_bytes_len((payload.len() + 8) as nat, 4);
}

proof fn lemma_full_box_len(name: Seq<u8>, version: u8, flags: nat, payload: Seq<u8>)
    ensures
        full_box_spec(name, version, flags, payload).len() == payload.len() + 8 + name.len(),
{
    lemma_be_bytes_len(flags, 3);
    lemma_box_len(name, seq![version] + be_bytes(flags, 3) + payload);
}

/// Wraps `payload` in a box named `name`.
pub fn box_with_payload(name: [u8; 4], payload: &[u8]) -> (res: Result<Vec<u8>, Mp4Error>)
    ensures
        bytes_result(res) == sized_box(name@, payload@),
{
    if payload.len() > 0xffff_fff7 {
        return Err(Mp4Error::BoxTooLarge);
    }
    let size = (payload.len() + 8) as u32;
    let mut out = Vec::new();
    write_u32(&mut out, size);
    out.extend_from_slice(&name);
    out.extend_from_slice(payload);
    assert(out@ =~= mp4_box(name@, payload@));
    Ok(out)
}

/// Wraps `payload` in a full box of the given version and flags.
pub fn full_box(name: [u8; 4], version: u8, flags: u32, payload: &[u8]) -> (res: Result<Vec<u8>, Mp4Error>)
    requires
        flags <= 0xff_ffff,
    ensures
        bytes_result(res) == sized_box(name@, seq![version] + be_bytes(flags as nat, 3) + payload@),
{
    proof {
        lemma_be_bytes_unfold(flags as nat);
    }
    let mut full_payload = Vec::new();
    full_payload.push(version);
    full_payload.push((flags / 0x1_0000) as u8);
    full_payload.push(((flags / 256) % 256) as u8);
    full_payload.push((flags % 256) as u8);
    full_payload.extend_from_slice(payload);
    assert(full_payload@ =~= seq![version] + be_bytes(flags as nat, 3) + payload@);
    box_with_payload(name, full_payload.as_slice())
}

/// The concatenation of byte buffers.
pub open spec fn concat_all(parts: Seq<Seq<u8>>) -> Seq<u8>
    decreases parts.len(),
{
    if parts.len() == 0 {
        seq![]
    } else {
        concat_all(parts.drop_last()) + parts.last()
    }
}

/// The byte contents of a list of buffers.
pub open spec fn byte_seqs(v: Seq<Vec<u8>>) -> Seq<Seq<u8>> {
    v.map_values(|p: Vec<u8>| p@)
}

/// Wraps the concatenated `children` in a box named `name`.
pub fn box_with_children(name: [u8; 4], children: &[Vec<u8>]) -> (res: Result<Vec<u8>, Mp4Error>)
    ensures
        bytes_result(res) == sized_box(name@, concat_all(byte_seqs(children@))),
{
    let mut payload: Vec<u8> = Vec::new();
    let mut i: usize = 0;
    while i < children.len()
        invariant
            0 <= i <= children@.len(),
            payload@ == concat_all(byte_seqs(children@.subrange(0, i as int))),
            payload@.len() <= u32::MAX,
        decreases children@.len() - i,
    {
        proof {
            let pre = children@.subrange(0, i as int + 1);
            assert(byte_seqs(pre).drop_last() =~= byte_seqs(children@.subrange(0, i as int)));
            assert(byte_seqs(pre).last() == children@[i as int]@);
            lemma_concat_prefix_len(byte_seqs(children@), i as int + 1);
        }
        if children[i].len() > 0xffff_ffff - payload.len() {
            proof {
                assert(payload@ + children@[i as int]@ =~= concat_all(byte_seqs(children@.subrange(0, i as int + 1))));
                assert(byte_seqs(children@.subrange(0, i as int + 1)) =~= byte_seqs(children@).subrange(0, i as int + 1));
            }
            return Err(Mp4Error::BoxTooLarge);
        }
        payload.extend_from_slice(children[i].as_slice());
        proof {
            assert(payload@ =~= concat_all(byte_seqs(children@.subrange(0, i as int + 1))));
        }
        i += 1;
    }
    proof {
        assert(children@.subrange(0, children@.len() as int) =~= children@);
    }
    box_with_payload(name, payload.as_slice())
}

/// The first `k` parts are no longer than all of them.
proof fn lemma_concat_prefix_len(parts: Seq<Seq<u8>>, k: int)
    requires
        0 <= k <= parts.len(),
    ensures
        concat_all(parts.subrange(0, k)).len() <= concat_all(parts).len(),
    decreases parts.len(),
{
    if k < parts.len() {
        assert(parts.drop_last().subrange(0, k) =~= parts.subrange(0, k));
        lemma_concat_prefix_len(parts.drop_last(), k);
    } else {
        assert(parts.subrange(0, k) =~= parts);
    }
}

} // verus!

verus! {

/// Samples per AAC access unit, the duration of each sample.
pub const AAC_SAMPLE_DURATION: u32 = 1024;

/// `n` zero bytes.
pub open spec fn zeros(n: nat) -> Seq<u8> {
    Seq::new(n, |i: int| 0u8)
}

/// The identity matrix of the movie and track headers (16.16 and 2.30 fixed
/// point).
pub open spec fn unity_matrix() -> Seq<u8> {
    seq![0x00u8, 0x01, 0x00, 0x00] + zeros(12) + seq![0x00u8, 0x01, 0x00, 0x00] + zeros(12) + seq![
        0x40u8,
        0,
        0,
        0,
    ]
}

fn push_unity_matrix(out: &mut Vec<u8>)
    ensures
        final(out)@ == old(out)@ + unity_matrix(),
{
    let m: [u8; 36] = [
        0x00, 0x01, 0x00, 0x00, 0, 0, 0, 0, 0, 0, 0, 0, 0, 0, 0, 0, 0x00, 0x01, 0x00, 0x00, 0, 0,
        0, 0, 0, 0, 0, 0, 0, 0, 0, 0, 0x40, 0, 0, 0,
    ];
    let ghost start = out@;
    out.extend_from_slice(&m);
    assert(out@ =~= start + unity_matrix());
}

/// The file-type box: brand `M4A `, version 0, compatible `M4A ` and `mp42`.
#[verifier::opaque]
pub open spec fn ftyp_spec() -> Seq<u8> {
    let m4a = seq![0x4du8, 0x34, 0x41, 0x20];
    mp4_box(
        seq![0x66u8, 0x74, 0x79, 0x70],
        m4a + be_bytes(0, 4) + m4a + seq![0x6du8, 0x70, 0x34, 0x32],
    )
}

pub fn ftyp_box() -> (res: Vec<u8>)
    ensures
        res@ == ftyp_spec(),
{
    proof {
        reveal(ftyp_spec);
    }
    let m4a: [u8; 4] = [0x4d, 0x34, 0x41, 0x20];
    let mp42: [u8; 4] = [0x6d, 0x70, 0x34, 0x32];
    let mut payload = Vec::new();
    payload.extend_from_slice(&m4a);
    write_u32(&mut payload, 0);
    payload.extend_from_slice(&m4a);
    payload.extend_from_slice(&mp42);
    proof {
        lemma_be_bytes_unfold(0);
        assert(payload@ =~= seq![0x4du8, 0x34, 0x41, 0x20] + be_bytes(0, 4) + seq![0x4du8, 0x34, 0x41, 0x20] + seq![0x6du8, 0x70, 0x34, 0x32]);
    }
    match box_with_payload([0x66, 0x74, 0x79, 0x70], payload.as_slice()) {
        Ok(b) => b,
        Err(_) => {
            proof {
                assert(false);
            }
            Vec::new()
        },
    }
}

/// The movie header: creation and modification times 0, the time scale,
/// the duration, unit rate and volume, the identity matrix, next track 2.
pub open spec fn mvhd_payload(timescale: u32, duration: u32) -> Seq<u8> {
    be_bytes(0, 4) + be_bytes(0, 4) + be_bytes(timescale as nat, 4) + be_bytes(duration as nat, 4)
        + be_bytes(0x0001_0000, 4) + be_bytes(0x0100, 2) + be_bytes(0, 2) + be_bytes(0, 4) + be_bytes(0, 4)
        + unity_matrix() + zeros(24) + be_bytes(2, 4)
}

#[verifier::opaque]
pub open spec fn mvhd_spec(timescale: u32, duration: u32) -> Seq<u8> {
    full_box_spec(seq![0x6du8, 0x76, 0x68, 0x64], 0, 0, mvhd_payload(timescale, duration))
}

pub fn mvhd_box(timescale: u32, duration: u32) -> (res: Vec<u8>)
    ensures
        res@ == mvhd_spec(timescale, duration),
{
    proof {
        reveal(mvhd_spec);
    }
    let mut payload = Vec::new();
    write_u32(&mut payload, 0);
    write_u32(&mut payload, 0);
    write_u32(&mut payload, timescale);
    write_u32(&mut payload, duration);
    write_u32(&mut payload, 0x0001_0000);
    write_u16(&mut payload, 0x0100);
    write_u16(&mut payload, 0);
    write_u32(&mut payload, 0);
    write_u32(&mut payload, 0);
    push_unity_matrix(&mut payload);
    let ghost before_zeros = payload@;
    let mut k: usize = 0;
    while k < 6
        invariant
            0 <= k <= 6,
            payload@ == before_zeros + zeros((4 * k) as nat),
        decreases 6 - k,
    {
        write_u32(&mut payload, 0);
        proof {
            lemma_be_bytes_unfold(0);
            assert(payload@ =~= before_zeros + zeros((4 * (k + 1)) as nat));
        }
        k += 1;
    }
    write_u32(&mut payload, 2);
    proof {
        assert(payload@ =~= mvhd_payload(timescale, duration));
        lemma_be_bytes_unfold(0);
        lemma_be_bytes_len(timescale as nat, 4);
        lemma_be_bytes_len(duration as nat, 4);
        lemma_be_bytes_len(0x0001_0000, 4);
        lemma_be_bytes_len(0x0100, 2);
        lemma_be_bytes_len(2, 4);
        assert(mvhd_payload(timescale, duration).len() == 96);
    }
    match full_box([0x6d, 0x76, 0x68, 0x64], 0, 0, payload.as_slice()) {
        Ok(b) => b,
        Err(_) => {
            proof {
                assert(false);
            }
            Vec::new()
        },
    }
}

} // verus!

verus! {

proof fn lemma_concat_push(parts: Seq<Seq<u8>>, x: Seq<u8>)
    ensures
        concat_all(parts.push(x)) == concat_all(parts) + x,
{
    assert(parts.push(x).drop_last() =~= parts);
}

proof fn lemma_concat_empty()
    ensures
        concat_all(Seq::<Seq<u8>>::empty()) == Seq::<u8>::empty(),
{
}

/// `seq![a, b, ...]` of buffers concatenates to `a + b + ...`.
proof fn lemma_concat2(a: Seq<u8>, b: Seq<u8>)
    ensures
        concat_all(seq![a, b]) =~= a + b,
{
    lemma_concat_empty();
    lemma_concat_push(seq![], a);
    assert(seq![a] =~= Seq::<Seq<u8>>::empty().push(a));
    lemma_concat_push(seq![a], b);
    assert(seq![a, b] =~= seq![a].push(b));
}

proof fn lemma_concat3(a: Seq<u8>, b: Seq<u8>, c: Seq<u8>)
    ensures
        concat_all(seq![a, b, c]) =~= a + b + c,
{
    lemma_concat2(a, b);
    lemma_concat_push(seq![a, b], c);
    assert(seq![a, b, c] =~= seq![a, b].push(c));
}

proof fn lemma_concat5(a: Seq<u8>, b: Seq<u8>, c: Seq<u8>, d: Seq<u8>, e: Seq<u8>)
    ensures
        concat_all(seq![a, b, c, d, e]) =~= a + b + c + d + e,
{
    lemma_concat3(a, b, c);
    lemma_concat_push(seq![a, b, c], d);
    assert(seq![a, b, c, d] =~= seq![a, b, c].push(d));
    lemma_concat_push(seq![a, b, c, d], e);
    assert(seq![a, b, c, d, e] =~= seq![a, b, c, d].push(e));
}

/// The track header: enabled, in movie and in preview (flags 7), track 1,
/// the duration, full volume, the identity matrix, no visual size.
pub open spec fn tkhd_payload(duration: u32) -> Seq<u8> {
    be_bytes(0, 4) + be_bytes(0, 4) + be_bytes(1, 4) + be_bytes(0, 4) + be_bytes(duration as nat, 4)
        + be_bytes(0, 4) + be_bytes(0, 4) + be_bytes(0, 2) + be_bytes(0, 2) + be_bytes(0x0100, 2)
        + be_bytes(0, 2) + unity_matrix() + be_bytes(0, 4) + be_bytes(0, 4)
}

#[verifier::opaque]
pub open spec fn tkhd_spec(duration: u32) -> Seq<u8> {
    full_box_spec(seq![0x74u8, 0x6b, 0x68, 0x64], 0, 7, tkhd_payload(duration))
}

pub fn tkhd_box(duration: u32) -> (res: Vec<u8>)
    ensures
        res@ == tkhd_spec(duration),
{
    proof {
        reveal(tkhd_spec);
    }
    let mut payload = Vec::new();
    write_u32(&mut payload, 0);
    write_u32(&mut payload, 0);
    write_u32(&mut payload, 1);
    write_u32(&mut payload, 0);
    write_u32(&mut payload, duration);
    write_u32(&mut payload, 0);
    write_u32(&mut payload, 0);
    write_u16(&mut payload, 0);
    write_u16(&mut payload, 0);
    write_u16(&mut payload, 0x0100);
    write_u16(&mut payload, 0);
    push_unity_matrix(&mut payload);
    write_u32(&mut payload, 0);
    write_u32(&mut payload, 0);
    proof {
        assert(payload@ =~= tkhd_payload(duration));
        lemma_be_bytes_unfold(0);
        lemma_be_bytes_len(1, 4);
        lemma_be_bytes_len(duration as nat, 4);
        lemma_be_bytes_len(0x0100, 2);
        lemma_be_bytes_len(7, 3);
    }
    match full_box([0x74, 0x6b, 0x68, 0x64], 0, 0x0000_0007, payload.as_slice()) {
        Ok(b) => b,
        Err(_) => {
            proof {
                assert(false);
            }
            Vec::new()
        },
    }
}

/// The media header: the sample rate as time scale, the duration, language
/// `und`.
#[verifier::opaque]
pub open spec fn mdhd_spec(sample_rate: u32, duration: u32) -> Seq<u8> {
    full_box_spec(
        seq![0x6du8, 0x64, 0x68, 0x64],
        0,
        0,
        be_bytes(0, 4) + be_bytes(0, 4) + be_bytes(sample_rate as nat, 4) + be_bytes(duration as nat, 4)
            + be_bytes(0x55c4, 2) + be_bytes(0, 2),
    )
}

pub fn mdhd_box(sample_rate: u32, duration: u32) -> (res: Vec<u8>)
    ensures
        res@ == mdhd_spec(sample_rate, duration),
{
    proof {
        reveal(mdhd_spec);
    }
    let mut payload = Vec::new();
    write_u32(&mut payload, 0);
    write_u32(&mut payload, 0);
    write_u32(&mut payload, sample_rate);
    write_u32(&mut payload, duration);
    write_u16(&mut payload, 0x55c4);
    write_u16(&mut payload, 0);
    proof {
        lemma_be_bytes_unfold(0);
        lemma_be_bytes_len(sample_rate as nat, 4);
        lemma_be_bytes_len(duration as nat, 4);
        lemma_be_bytes_len(0x55c4, 2);
    }
    match full_box([0x6d, 0x64, 0x68, 0x64], 0, 0, payload.as_slice()) {
        Ok(b) => b,
        Err(_) => {
            proof {
                assert(false);
            }
            Vec::new()
        },
    }
}

/// The handler box: a sound handler named `SoundHandler`.
#[verifier::opaque]
pub open spec fn hdlr_spec() -> Seq<u8> {
    full_box_spec(
        seq![0x68u8, 0x64, 0x6c, 0x72],
        0,
        0,
        be_bytes(0, 4) + seq![0x73u8, 0x6f, 0x75, 0x6e] + be_bytes(0, 4) + be_bytes(0, 4) + be_bytes(0, 4)
            + seq![0x53u8, 0x6f, 0x75, 0x6e, 0x64, 0x48, 0x61, 0x6e, 0x64, 0x6c, 0x65, 0x72, 0x00],
    )
}

pub fn hdlr_box() -> (res: Vec<u8>)
    ensures
        res@ == hdlr_spec(),
{
    proof {
        reveal(hdlr_spec);
    }
    let soun: [u8; 4] = [0x73, 0x6f, 0x75, 0x6e];
    let name: [u8; 13] = [0x53, 0x6f, 0x75, 0x6e, 0x64, 0x48, 0x61, 0x6e, 0x64, 0x6c, 0x65, 0x72, 0x00];
    let mut payload = Vec::new();
    write_u32(&mut payload, 0);
    payload.extend_from_slice(&soun);
    write_u32(&mut payload, 0);
    write_u32(&mut payload, 0);
    write_u32(&mut payload, 0);
    payload.extend_from_slice(&name);
    proof {
        lemma_be_bytes_unfold(0);
        assert(payload@ =~= be_bytes(0, 4) + seq![0x73u8, 0x6f, 0x75, 0x6e] + be_bytes(0, 4) + be_bytes(0, 4) + be_bytes(0, 4)
            + seq![0x53u8, 0x6f, 0x75, 0x6e, 0x64, 0x48, 0x61, 0x6e, 0x64, 0x6c, 0x65, 0x72, 0x00]);
    }
    match full_box([0x68, 0x64, 0x6c, 0x72], 0, 0, payload.as_slice()) {
        Ok(b) => b,
        Err(_) => {
            proof {
                assert(false);
            }
            Vec::new()
        },
    }
}

/// The data-information box: one self-contained `url ` data reference.
#[verifier::opaque]
pub open spec fn dinf_spec() -> Seq<u8> {
    let url = full_box_spec(seq![0x75u8, 0x72, 0x6c, 0x20], 0, 1, seq![]);
    let dref = full_box_spec(seq![0x64u8, 0x72, 0x65, 0x66], 0, 0, be_bytes(1, 4) + url);
    mp4_box(seq![0x64u8, 0x69, 0x6e, 0x66], dref)
}

pub fn dinf_box() -> (res: Result<Vec<u8>, Mp4Error>)
    ensures
        bytes_result(res) == Ok::<Seq<u8>, Mp4Error>(dinf_spec()),
{
    proof {
        reveal(dinf_spec);
    }
    proof {
        lemma_be_bytes_unfold(0);
        lemma_be_bytes_unfold(1);
        lemma_be_bytes_len(1, 3);
        lemma_be_bytes_len(12, 4);
    }
    let url_payload: Vec<u8> = Vec::new();
    assert(url_payload@ =~= Seq::<u8>::empty());
    let url = match full_box([0x75, 0x72, 0x6c, 0x20], 0, 1, url_payload.as_slice()) {
        Ok(b) => b,
        Err(e) => {
            return Err(e);
        },
    };
    let mut dref_payload = Vec::new();
    write_u32(&mut dref_payload, 1);
    dref_payload.extend_from_slice(url.as_slice());
    proof {
        lemma_be_bytes_len(1, 4);
        lemma_be_bytes_len(12, 4);
        lemma_be_bytes_len(20, 4);
        lemma_be_bytes_len(0, 3);
    }
    let dref = match full_box([0x64, 0x72, 0x65, 0x66], 0, 0, dref_payload.as_slice()) {
        Ok(b) => b,
        Err(e) => {
            return Err(e);
        },
    };
    let children = vec![dref];
    proof {
        assert(byte_seqs(children@) =~= seq![dref@]);
        lemma_concat_empty();
        lemma_concat_push(seq![], dref@);
        assert(seq![dref@] =~= Seq::<Seq<u8>>::empty().push(dref@));
        assert(Seq::<u8>::empty() + dref@ =~= dref@);
        assert(url@ == full_box_spec(seq![0x75u8, 0x72, 0x6c, 0x20], 0, 1, seq![]));
        assert(dref_payload@ =~= be_bytes(1, 4) + url@);
        assert(dref@ == full_box_spec(seq![0x64u8, 0x72, 0x65, 0x66], 0, 0, be_bytes(1, 4) + url@));
        lemma_full_box_len(seq![0x75u8, 0x72, 0x6c, 0x20], 0, 1, seq![]);
        lemma_full_box_len(seq![0x64u8, 0x72, 0x65, 0x66], 0, 0, be_bytes(1, 4) + url@);
    }
    box_with_children([0x64, 0x69, 0x6e, 0x66], children.as_slice())
}

} // verus!

verus! {

/// The elementary-stream descriptor box: an MPEG-4 audio decoder
/// configuration (object type 0x40, audio stream) carrying the two-byte
/// AudioSpecificConfig `asc`, and the MP4 sync-layer configuration.
pub open spec fn esds_payload(asc: Seq<u8>) -> Seq<u8> {
    let decoder_specific = seq![0x05u8, 2] + asc;
    let decoder_config = seq![0x04u8, 17, 0x40, 0x15] + seq![0u8, 0, 0] + be_bytes(0, 4) + be_bytes(0, 4)
        + decoder_specific;
    seq![0x03u8, 25] + be_bytes(1, 2) + seq![0u8] + decoder_config + seq![0x06u8, 0x01, 0x02]
}

#[verifier::opaque]
pub open spec fn esds_spec(asc: Seq<u8>) -> Seq<u8> {
    full_box_spec(seq![0x65u8, 0x73, 0x64, 0x73], 0, 0, esds_payload(asc))
}

pub fn esds_box(asc: &[u8; 2]) -> (res: Result<Vec<u8>, Mp4Error>)
    ensures
        bytes_result(res) == Ok::<Seq<u8>, Mp4Error>(esds_spec(asc@)),
{
    proof {
        reveal(esds_spec);
    }
    proof {
        lemma_be_bytes_unfold(0);
        lemma_be_bytes_unfold(1);
    }
    let mut decoder_specific = vec![0x05u8, 2u8];
    decoder_specific.extend_from_slice(asc);
    let mut decoder_config = vec![0x04u8, (13 + decoder_specific.len()) as u8, 0x40u8, 0x15u8];
    let zero3: [u8; 3] = [0, 0, 0];
    decoder_config.extend_from_slice(&zero3);
    write_u32(&mut decoder_config, 0);
    write_u32(&mut decoder_config, 0);
    decoder_config.extend_from_slice(decoder_specific.as_slice());
    let mut sl_config = vec![0x06u8, 0x01u8, 0x02u8];
    let descriptor_len = 3 + decoder_config.len() + sl_config.len();
    let mut es_descriptor = vec![0x03u8, descriptor_len as u8];
    write_u16(&mut es_descriptor, 1);
    es_descriptor.push(0);
    es_descriptor.extend_from_slice(decoder_config.as_slice());
    es_descriptor.append(&mut sl_config);
    proof {
        assert(es_descriptor@ =~= esds_payload(asc@));
        lemma_full_box_len(seq![0x65u8, 0x73, 0x64, 0x73], 0, 0, esds_payload(asc@));
    }
    full_box([0x65, 0x73, 0x64, 0x73], 0, 0, es_descriptor.as_slice())
}

/// The sample-description box: one `mp4a` entry with the channel count,
/// 16-bit samples, the sample rate (16.16 fixed point, kept to 32 bits) and
/// the `esds` box.
pub open spec fn mp4a_entry(sample_rate: u32, channels: u8, asc: Seq<u8>) -> Seq<u8> {
    zeros(6) + be_bytes(1, 2) + be_bytes(0, 2) + be_bytes(0, 2) + be_bytes(0, 4) + be_bytes(channels as nat, 2)
        + be_bytes(16, 2) + be_bytes(0, 2) + be_bytes(0, 2) + be_bytes(
        ((sample_rate % 0x1_0000) * 0x1_0000) as nat,
        4,
    ) + esds_spec(asc)
}

#[verifier::opaque]
pub open spec fn stsd_spec(sample_rate: u32, channels: u8, asc: Seq<u8>) -> Seq<u8> {
    full_box_spec(
        seq![0x73u8, 0x74, 0x73, 0x64],
        0,
        0,
        be_bytes(1, 4) + mp4_box(seq![0x6du8, 0x70, 0x34, 0x61], mp4a_entry(sample_rate, channels, asc)),
    )
}

pub fn stsd_box(sample_rate: u32, channels: u8, asc: &[u8; 2]) -> (res: Result<Vec<u8>, Mp4Error>)
    ensures
        bytes_result(res) == Ok::<Seq<u8>, Mp4Error>(stsd_spec(sample_rate, channels, asc@)),
{
    proof {
        reveal(stsd_spec);
        reveal(esds_spec);
    }
    let esds = match esds_box(asc) {
        Ok(b) => b,
        Err(e) => {
            return Err(e);
        },
    };
    let mut entry = Vec::new();
    let zero6: [u8; 6] = [0; 6];
    entry.extend_from_slice(&zero6);
    write_u16(&mut entry, 1);
    write_u16(&mut entry, 0);
    write_u16(&mut entry, 0);
    write_u32(&mut entry, 0);
    write_u16(&mut entry, channels as u16);
    write_u16(&mut entry, 16);
    write_u16(&mut entry, 0);
    write_u16(&mut entry, 0);
    write_u32(&mut entry, (sample_rate % 0x1_0000) * 0x1_0000);
    entry.extend_from_slice(esds.as_slice());
    proof {
        assert(zero6@ =~= zeros(6));
        assert(entry@ =~= mp4a_entry(sample_rate, channels, asc@));
        lemma_full_box_len(seq![0x65u8, 0x73, 0x64, 0x73], 0, 0, esds_payload(asc@));
        lemma_be_bytes_unfold(0);
        lemma_be_bytes_unfold(1);
        lemma_be_bytes_len(channels as nat, 2);
        lemma_be_bytes_len(16, 2);
        lemma_be_bytes_len(((sample_rate % 0x1_0000) * 0x1_0000) as nat, 4);
        lemma_be_bytes_len(1, 2);
    }
    let mp4a = match box_with_payload([0x6d, 0x70, 0x34, 0x61], entry.as_slice()) {
        Ok(b) => b,
        Err(e) => {
            return Err(e);
        },
    };
    let mut payload = Vec::new();
    write_u32(&mut payload, 1);
    payload.extend_from_slice(mp4a.as_slice());
    proof {
        lemma_box_len(seq![0x6du8, 0x70, 0x34, 0x61], mp4a_entry(sample_rate, channels, asc@));
        lemma_be_bytes_len(1, 4);
        assert(payload@ =~= be_bytes(1, 4) + mp4_box(seq![0x6du8, 0x70, 0x34, 0x61], mp4a_entry(sample_rate, channels, asc@)));
    }
    full_box([0x73, 0x74, 0x73, 0x64], 0, 0, payload.as_slice())
}

/// The decoding-time box: every sample lasts one AAC frame.
#[verifier::opaque]
pub open spec fn stts_spec(count: nat) -> Seq<u8> {
    full_box_spec(
        seq![0x73u8, 0x74, 0x74, 0x73],
        0,
        0,
        be_bytes(1, 4) + be_bytes(count, 4) + be_bytes(AAC_SAMPLE_DURATION as nat, 4),
    )
}

pub fn stts_box(sample_count: usize) -> (res: Result<Vec<u8>, Mp4Error>)
    ensures
        sample_count <= u32::MAX ==> bytes_result(res) == Ok::<Seq<u8>, Mp4Error>(stts_spec(sample_count as nat)),
        sample_count > u32::MAX ==> res == Err::<Vec<u8>, Mp4Error>(Mp4Error::TooManySamples),
{
    proof {
        reveal(stts_spec);
    }
    if sample_count > 0xffff_ffff {
        return Err(Mp4Error::TooManySamples);
    }
    let mut payload = Vec::new();
    write_u32(&mut payload, 1);
    write_u32(&mut payload, sample_count as u32);
    write_u32(&mut payload, AAC_SAMPLE_DURATION);
    proof {
        lemma_be_bytes_len(1, 4);
        lemma_be_bytes_len(sample_count as nat, 4);
        lemma_be_bytes_len(AAC_SAMPLE_DURATION as nat, 4);
        lemma_be_bytes_unfold(0);
    }
    full_box([0x73, 0x74, 0x74, 0x73], 0, 0, payload.as_slice())
}

/// The sample-to-chunk box: all samples in one chunk.
#[verifier::opaque]
pub open spec fn stsc_spec(count: nat) -> Seq<u8> {
    full_box_spec(
        seq![0x73u8, 0x74, 0x73, 0x63],
        0,
        0,
        be_bytes(1, 4) + be_bytes(1, 4) + be_bytes(count, 4) + be_bytes(1, 4),
    )
}

pub fn stsc_box(sample_count: usize) -> (res: Result<Vec<u8>, Mp4Error>)
    ensures
        sample_count <= u32::MAX ==> bytes_result(res) == Ok::<Seq<u8>, Mp4Error>(stsc_spec(sample_count as nat)),
        sample_count > u32::MAX ==> res == Err::<Vec<u8>, Mp4Error>(Mp4Error::TooManySamples),
{
    proof {
        reveal(stsc_spec);
    }
    if sample_count > 0xffff_ffff {
        return Err(Mp4Error::TooManySamples);
    }
    let mut payload = Vec::new();
    write_u32(&mut payload, 1);
    write_u32(&mut payload, 1);
    write_u32(&mut payload, sample_count as u32);
    write_u32(&mut payload, 1);
    proof {
        lemma_be_bytes_len(1, 4);
        lemma_be_bytes_len(sample_count as nat, 4);
        lemma_be_bytes_unfold(0);
    }
    full_box([0x73, 0x74, 0x73, 0x63], 0, 0, payload.as_slice())
}

/// The big-endian bytes of each value in turn.
pub open spec fn be_u32s(values: Seq<u32>) -> Seq<u8>
    decreases values.len(),
{
    if values.len() == 0 {
        seq![]
    } else {
        be_u32s(values.drop_last()) + be_bytes(values.last() as nat, 4)
    }
}

proof fn lemma_be_u32s_len(values: Seq<u32>)
    ensures
        be_u32s(values).len() == 4 * values.len(),
    decreases values.len(),
{
    if values.len() > 0 {
        lemma_be_u32s_len(values.drop_last());
        lemma_be_bytes_len(values.last() as nat, 4);
    }
}

/// The sample-size box: no common size, the count, each sample's size.
pub open spec fn stsz_payload(sizes: Seq<u32>) -> Seq<u8> {
    be_bytes(0, 4) + be_bytes(sizes.len(), 4) + be_u32s(sizes)
}

pub fn stsz_box(sample_sizes: &[u32]) -> (res: Result<Vec<u8>, Mp4Error>)
    ensures
        sample_sizes@.len() <= u32::MAX ==> bytes_result(res) == sized_box(
            seq![0x73u8, 0x74, 0x73, 0x7a],
            seq![0u8] + be_bytes(0, 3) + stsz_payload(sample_sizes@),
        ),
        sample_sizes@.len() > u32::MAX ==> res == Err::<Vec<u8>, Mp4Error>(Mp4Error::TooManySamples),
{
    if sample_sizes.len() > 0xffff_ffff {
        return Err(Mp4Error::TooManySamples);
    }
    let mut payload = Vec::new();
    write_u32(&mut payload, 0);
    write_u32(&mut payload, sample_sizes.len() as u32);
    let ghost head = payload@;
    let mut i: usize = 0;
    while i < sample_sizes.len()
        invariant
            0 <= i <= sample_sizes@.len(),
            payload@ == head + be_u32s(sample_sizes@.subrange(0, i as int)),
        decreases sample_sizes@.len() - i,
    {
        write_u32(&mut payload, sample_sizes[i]);
        proof {
            let pre = sample_sizes@.subrange(0, i as int + 1);
            assert(pre.drop_last() =~= sample_sizes@.subrange(0, i as int));
            assert(payload@ =~= head + be_u32s(pre));
        }
        i += 1;
    }
    proof {
        assert(sample_sizes@.subrange(0, sample_sizes@.len() as int) =~= sample_sizes@);
        assert(payload@ =~= stsz_payload(sample_sizes@));
    }
    full_box([0x73, 0x74, 0x73, 0x7a], 0, 0, payload.as_slice())
}

/// The chunk-offset box: one chunk, at `chunk_offset` in the file.
#[verifier::opaque]
pub open spec fn stco_spec(chunk_offset: u32) -> Seq<u8> {
    full_box_spec(seq![0x73u8, 0x74, 0x63, 0x6f], 0, 0, be_bytes(1, 4) + be_bytes(chunk_offset as nat, 4))
}

pub fn stco_box(chunk_offset: u32) -> (res: Vec<u8>)
    ensures
        res@ == stco_spec(chunk_offset),
{
    proof {
        reveal(stco_spec);
    }
    let mut payload = Vec::new();
    write_u32(&mut payload, 1);
    write_u32(&mut payload, chunk_offset);
    proof {
        lemma_be_bytes_len(1, 4);
        lemma_be_bytes_len(chunk_offset as nat, 4);
        lemma_be_bytes_unfold(0);
    }
    match full_box([0x73, 0x74, 0x63, 0x6f], 0, 0, payload.as_slice()) {
        Ok(b) => b,
        Err(_) => {
            proof {
                assert(false);
            }
            Vec::new()
        },
    }
}

/// The track duration of `count` AAC frames, when it fits 32 bits.
pub fn checked_duration(sample_count: usize) -> (res: Result<u32, Mp4Error>)
    ensures
        sample_count * 1024 <= u32::MAX ==> res == Ok::<u32, Mp4Error>((sample_count * 1024) as u32),
        sample_count * 1024 > u32::MAX ==> res == Err::<u32, Mp4Error>(Mp4Error::DurationOverflow),
{
    if sample_count > 0x3f_ffff {
        return Err(Mp4Error::DurationOverflow);
    }
    Ok(sample_count as u32 * AAC_SAMPLE_DURATION)
}

} // verus!

verus! {

#[verifier::opaque]
pub open spec fn smhd_spec() -> Seq<u8> {
    full_box_spec(seq![0x73u8, 0x6d, 0x68, 0x64], 0, 0, zeros(4))
}

#[verifier::opaque]
pub open spec fn stbl_spec(sample_rate: u32, channels: u8, asc: Seq<u8>, sizes: Seq<u32>, chunk_offset: u32) -> Seq<u8> {
    mp4_box(
        seq![0x73u8, 0x74, 0x62, 0x6c],
        stsd_spec(sample_rate, channels, asc) + stts_spec(sizes.len()) + stsc_spec(sizes.len())
            + full_box_spec(seq![0x73u8, 0x74, 0x73, 0x7a], 0, 0, stsz_payload(sizes)) + stco_spec(chunk_offset),
    )
}

#[verifier::opaque]
pub open spec fn minf_spec(sample_rate: u32, channels: u8, asc: Seq<u8>, sizes: Seq<u32>, chunk_offset: u32) -> Seq<u8> {
    mp4_box(
        seq![0x6du8, 0x69, 0x6e, 0x66],
        smhd_spec() + dinf_spec() + stbl_spec(sample_rate, channels, asc, sizes, chunk_offset),
    )
}

/// The duration of `count` AAC frames.
pub open spec fn duration_of(count: nat) -> u32 {
    (count * 1024) as u32
}

#[verifier::opaque]
pub open spec fn mdia_spec(sample_rate: u32, channels: u8, asc: Seq<u8>, sizes: Seq<u32>, chunk_offset: u32) -> Seq<u8> {
    mp4_box(
        seq![0x6du8, 0x64, 0x69, 0x61],
        mdhd_spec(sample_rate, duration_of(sizes.len())) + hdlr_spec() + minf_spec(
            sample_rate,
            channels,
            asc,
            sizes,
            chunk_offset,
        ),
    )
}

#[verifier::opaque]
pub open spec fn trak_spec(sample_rate: u32, channels: u8, asc: Seq<u8>, sizes: Seq<u32>, chunk_offset: u32) -> Seq<u8> {
    mp4_box(
        seq![0x74u8, 0x72, 0x61, 0x6b],
        tkhd_spec(duration_of(sizes.len())) + mdia_spec(sample_rate, channels, asc, sizes, chunk_offset),
    )
}

/// The movie box of the single AAC track: the movie header, then the track
/// with its header, media header, handler, and sample tables.
#[verifier::opaque]
pub open spec fn moov_spec(sample_rate: u32, channels: u8, asc: Seq<u8>, sizes: Seq<u32>, chunk_offset: u32) -> Seq<u8> {
    mp4_box(
        seq![0x6du8, 0x6f, 0x6f, 0x76],
        mvhd_spec(sample_rate, duration_of(sizes.len())) + trak_spec(sample_rate, channels, asc, sizes, chunk_offset),
    )
}

proof fn lemma_stbl_len(sample_rate: u32, channels: u8, asc: Seq<u8>, sizes: Seq<u32>, chunk_offset: u32)
    requires
        asc.len() == 2,
    ensures
        stbl_spec(sample_rate, channels, asc, sizes, chunk_offset).len() <= 4 * sizes.len() + 1024,
        stsd_spec(sample_rate, channels, asc).len() <= 256,
{
    reveal(stbl_spec);
    reveal(stsd_spec);
    reveal(stts_spec);
    reveal(stsc_spec);
    reveal(stco_spec);
    reveal(esds_spec);
    lemma_be_bytes_unfold(0);
    lemma_be_bytes_unfold(1);
    lemma_be_bytes_len(channels as nat, 2);
    lemma_be_bytes_len(16, 2);
    lemma_be_bytes_len(((sample_rate % 0x1_0000) * 0x1_0000) as nat, 4);
    lemma_be_bytes_len(sizes.len(), 4);
    lemma_be_bytes_len(AAC_SAMPLE_DURATION as nat, 4);
    lemma_be_bytes_len(chunk_offset as nat, 4);
    lemma_be_u32s_len(sizes);
    lemma_full_box_len(seq![0x65u8, 0x73, 0x64, 0x73], 0, 0, esds_payload(asc));
    lemma_box_len(seq![0x6du8, 0x70, 0x34, 0x61], mp4a_entry(sample_rate, channels, asc));
    lemma_full_box_len(
        seq![0x73u8, 0x74, 0x73, 0x64],
        0,
        0,
        be_bytes(1, 4) + mp4_box(seq![0x6du8, 0x70, 0x34, 0x61], mp4a_entry(sample_rate, channels, asc)),
    );
    lemma_full_box_len(
        seq![0x73u8, 0x74, 0x74, 0x73],
        0,
        0,
        be_bytes(1, 4) + be_bytes(sizes.len(), 4) + be_bytes(AAC_SAMPLE_DURATION as nat, 4),
    );
    lemma_full_box_len(
        seq![0x73u8, 0x74, 0x73, 0x63],
        0,
        0,
        be_bytes(1, 4) + be_bytes(1, 4) + be_bytes(sizes.len(), 4) + be_bytes(1, 4),
    );
    lemma_full_box_len(seq![0x73u8, 0x74, 0x73, 0x7a], 0, 0, stsz_payload(sizes));
    lemma_full_box_len(seq![0x73u8, 0x74, 0x63, 0x6f], 0, 0, be_bytes(1, 4) + be_bytes(chunk_offset as nat, 4));
    lemma_box_len(
        seq![0x73u8, 0x74, 0x62, 0x6c],
        stsd_spec(sample_rate, channels, asc) + stts_spec(sizes.len()) + stsc_spec(sizes.len())
            + full_box_spec(seq![0x73u8, 0x74, 0x73, 0x7a], 0, 0, stsz_payload(sizes)) + stco_spec(chunk_offset),
    );
}

pub fn stbl_box(
    sample_rate: u32,
    channels: u8,
    asc: &[u8; 2],
    sample_sizes: &[u32],
    chunk_offset: u32,
) -> (res: Result<Vec<u8>, Mp4Error>)
    requires
        sample_sizes@.len() * 1024 <= u32::MAX,
    ensures
        bytes_result(res) == Ok::<Seq<u8>, Mp4Error>(
            stbl_spec(sample_rate, channels, asc@, sample_sizes@, chunk_offset),
        ),
{
    proof {
        reveal(stbl_spec);
        reveal(stts_spec);
        reveal(stsc_spec);
    }
    proof {
        lemma_stbl_len(sample_rate, channels, asc@, sample_sizes@, chunk_offset);
        lemma_be_bytes_unfold(0);
    }
    let stsd = match stsd_box(sample_rate, channels, asc) {
        Ok(b) => b,
        Err(e) => {
            return Err(e);
        },
    };
    let stts = match stts_box(sample_sizes.len()) {
        Ok(b) => b,
        Err(e) => {
            return Err(e);
        },
    };
    let stsc = match stsc_box(sample_sizes.len()) {
        Ok(b) => b,
        Err(e) => {
            return Err(e);
        },
    };
    proof {
        lemma_be_bytes_len(sample_sizes@.len(), 4);
        lemma_be_u32s_len(sample_sizes@);
    }
    let stsz = match stsz_box(sample_sizes) {
        Ok(b) => b,
        Err(e) => {
            return Err(e);
        },
    };
    let stco = stco_box(chunk_offset);
    let children = vec![stsd, stts, stsc, stsz, stco];
    proof {
        assert(byte_seqs(children@) =~= seq![stsd@, stts@, stsc@, stsz@, stco@]);
        lemma_concat5(stsd@, stts@, stsc@, stsz@, stco@);
    }
    box_with_children([0x73, 0x74, 0x62, 0x6c], children.as_slice())
}

} // verus!

verus! {

proof fn lemma_fixed_box_lens(sample_rate: u32, duration: u32)
    ensures
        smhd_spec().len() == 16,
        dinf_spec().len() <= 64,
        mdhd_spec(sample_rate, duration).len() == 32,
        hdlr_spec().len() <= 64,
        tkhd_spec(duration).len() <= 128,
        mvhd_spec(sample_rate, duration).len() <= 128,
{
    reveal(smhd_spec);
    reveal(dinf_spec);
    reveal(mdhd_spec);
    reveal(hdlr_spec);
    reveal(tkhd_spec);
    reveal(mvhd_spec);
    lemma_be_bytes_unfold(0);
    lemma_be_bytes_unfold(1);
    lemma_be_bytes_len(sample_rate as nat, 4);
    lemma_be_bytes_len(duration as nat, 4);
    lemma_be_bytes_len(0x55c4, 2);
    lemma_be_bytes_len(0x0100, 2);
    lemma_be_bytes_len(0x0001_0000, 4);
    lemma_be_bytes_len(2, 4);
    lemma_full_box_len(seq![0x73u8, 0x6d, 0x68, 0x64], 0, 0, zeros(4));
    let url = full_box_spec(seq![0x75u8, 0x72, 0x6c, 0x20], 0, 1, seq![]);
    lemma_full_box_len(seq![0x75u8, 0x72, 0x6c, 0x20], 0, 1, seq![]);
    lemma_full_box_len(seq![0x64u8, 0x72, 0x65, 0x66], 0, 0, be_bytes(1, 4) + url);
    lemma_box_len(
        seq![0x64u8, 0x69, 0x6e, 0x66],
        full_box_spec(seq![0x64u8, 0x72, 0x65, 0x66], 0, 0, be_bytes(1, 4) + url),
    );
    lemma_full_box_len(
        seq![0x6du8, 0x64, 0x68, 0x64],
        0,
        0,
        be_bytes(0, 4) + be_bytes(0, 4) + be_bytes(sample_rate as nat, 4) + be_bytes(duration as nat, 4)
            + be_bytes(0x55c4, 2) + be_bytes(0, 2),
    );
    lemma_full_box_len(
        seq![0x68u8, 0x64, 0x6c, 0x72],
        0,
        0,
        be_bytes(0, 4) + seq![0x73u8, 0x6f, 0x75, 0x6e] + be_bytes(0, 4) + be_bytes(0, 4) + be_bytes(0, 4)
            + seq![0x53u8, 0x6f, 0x75, 0x6e, 0x64, 0x48, 0x61, 0x6e, 0x64, 0x6c, 0x65, 0x72, 0x00],
    );
    lemma_full_box_len(seq![0x74u8, 0x6b, 0x68, 0x64], 0, 7, tkhd_payload(duration));
    lemma_full_box_len(seq![0x6du8, 0x76, 0x68, 0x64], 0, 0, mvhd_payload(timescale_dummy(sample_rate), duration));
}

spec fn timescale_dummy(x: u32) -> u32 {
    x
}

pub fn minf_box(
    sample_rate: u32,
    channels: u8,
    asc: &[u8; 2],
    sample_sizes: &[u32],
    chunk_offset: u32,
) -> (res: Result<Vec<u8>, Mp4Error>)
    requires
        sample_sizes@.len() * 1024 <= u32::MAX,
    ensures
        bytes_result(res) == Ok::<Seq<u8>, Mp4Error>(
            minf_spec(sample_rate, channels, asc@, sample_sizes@, chunk_offset),
        ),
{
    proof {
        reveal(minf_spec);
        reveal(smhd_spec);
    }
    proof {
        lemma_stbl_len(sample_rate, channels, asc@, sample_sizes@, chunk_offset);
        lemma_fixed_box_lens(sample_rate, 0);
    }
    let zero4: [u8; 4] = [0, 0, 0, 0];
    proof {
        assert(zero4@ =~= zeros(4));
    }
    let smhd = match full_box([0x73, 0x6d, 0x68, 0x64], 0, 0, &zero4) {
        Ok(b) => b,
        Err(e) => {
            return Err(e);
        },
    };
    let dinf = match dinf_box() {
        Ok(b) => b,
        Err(e) => {
            return Err(e);
        },
    };
    let stbl = match stbl_box(sample_rate, channels, asc, sample_sizes, chunk_offset) {
        Ok(b) => b,
        Err(e) => {
            return Err(e);
        },
    };
    let children = vec![smhd, dinf, stbl];
    proof {
        assert(byte_seqs(children@) =~= seq![smhd@, dinf@, stbl@]);
        lemma_concat3(smhd@, dinf@, stbl@);
    }
    box_with_children([0x6d, 0x69, 0x6e, 0x66], children.as_slice())
}

proof fn lemma_minf_len(sample_rate: u32, channels: u8, asc: Seq<u8>, sizes: Seq<u32>, chunk_offset: u32)
    requires
        asc.len() == 2,
    ensures
        minf_spec(sample_rate, channels, asc, sizes, chunk_offset).len() <= 4 * sizes.len() + 2048,
{
    reveal(minf_spec);
    lemma_stbl_len(sample_rate, channels, asc, sizes, chunk_offset);
    lemma_fixed_box_lens(sample_rate, 0);
    lemma_box_len(
        seq![0x6du8, 0x69, 0x6e, 0x66],
        smhd_spec() + dinf_spec() + stbl_spec(sample_rate, channels, asc, sizes, chunk_offset),
    );
}

pub fn mdia_box(
    sample_rate: u32,
    channels: u8,
    asc: &[u8; 2],
    sample_sizes: &[u32],
    chunk_offset: u32,
) -> (res: Result<Vec<u8>, Mp4Error>)
    requires
        sample_sizes@.len() * 1024 <= u32::MAX,
    ensures
        bytes_result(res) == Ok::<Seq<u8>, Mp4Error>(
            mdia_spec(sample_rate, channels, asc@, sample_sizes@, chunk_offset),
        ),
{
    proof {
        reveal(mdia_spec);
    }
    let duration = match checked_duration(sample_sizes.len()) {
        Ok(d) => d,
        Err(e) => {
            return Err(e);
        },
    };
    proof {
        lemma_minf_len(sample_rate, channels, asc@, sample_sizes@, chunk_offset);
        lemma_fixed_box_lens(sample_rate, duration);
    }
    let mdhd = mdhd_box(sample_rate, duration);
    let hdlr = hdlr_box();
    let minf = match minf_box(sample_rate, channels, asc, sample_sizes, chunk_offset) {
        Ok(b) => b,
        Err(e) => {
            return Err(e);
        },
    };
    let children = vec![mdhd, hdlr, minf];
    proof {
        assert(byte_seqs(children@) =~= seq![mdhd@, hdlr@, minf@]);
        lemma_concat3(mdhd@, hdlr@, minf@);
    }
    box_with_children([0x6d, 0x64, 0x69, 0x61], children.as_slice())
}

proof fn lemma_mdia_len(sample_rate: u32, channels: u8, asc: Seq<u8>, sizes: Seq<u32>, chunk_offset: u32)
    requires
        asc.len() == 2,
    ensures
        mdia_spec(sample_rate, channels, asc, sizes, chunk_offset).len() <= 4 * sizes.len() + 4096,
{
    reveal(mdia_spec);
    lemma_minf_len(sample_rate, channels, asc, sizes, chunk_offset);
    lemma_fixed_box_lens(sample_rate, duration_of(sizes.len()));
    lemma_box_len(
        seq![0x6du8, 0x64, 0x69, 0x61],
        mdhd_spec(sample_rate, duration_of(sizes.len())) + hdlr_spec() + minf_spec(
            sample_rate,
            channels,
            asc,
            sizes,
            chunk_offset,
        ),
    );
}

pub fn trak_box(
    sample_rate: u32,
    channels: u8,
    asc: &[u8; 2],
    sample_sizes: &[u32],
    chunk_offset: u32,
) -> (res: Result<Vec<u8>, Mp4Error>)
    requires
        sample_sizes@.len() * 1024 <= u32::MAX,
    ensures
        bytes_result(res) == Ok::<Seq<u8>, Mp4Error>(
            trak_spec(sample_rate, channels, asc@, sample_sizes@, chunk_offset),
        ),
{
    proof {
        reveal(trak_spec);
    }
    let duration = match checked_duration(sample_sizes.len()) {
        Ok(d) => d,
        Err(e) => {
            return Err(e);
        },
    };
    proof {
        lemma_mdia_len(sample_rate, channels, asc@, sample_sizes@, chunk_offset);
        lemma_fixed_box_lens(sample_rate, duration);
    }
    let tkhd = tkhd_box(duration);
    let mdia = match mdia_box(sample_rate, channels, asc, sample_sizes, chunk_offset) {
        Ok(b) => b,
        Err(e) => {
            return Err(e);
        },
    };
    let children = vec![tkhd, mdia];
    proof {
        assert(byte_seqs(children@) =~= seq![tkhd@, mdia@]);
        lemma_concat2(tkhd@, mdia@);
    }
    box_with_children([0x74, 0x72, 0x61, 0x6b], children.as_slice())
}

/// The movie box, when the track's duration fits 32 bits.
pub open spec fn moov_result(
    sample_rate: u32,
    channels: u8,
    asc: Seq<u8>,
    sizes: Seq<u32>,
    chunk_offset: u32,
) -> Result<Seq<u8>, Mp4Error> {
    if sizes.len() * 1024 > u32::MAX {
        Err(Mp4Error::DurationOverflow)
    } else {
        Ok(moov_spec(sample_rate, channels, asc, sizes, chunk_offset))
    }
}

pub fn moov_box(
    sample_rate: u32,
    channels: u8,
    asc: &[u8; 2],
    sample_sizes: &[u32],
    chunk_offset: u32,
) -> (res: Result<Vec<u8>, Mp4Error>)
    ensures
        bytes_result(res) == moov_result(sample_rate, channels, asc@, sample_sizes@, chunk_offset),
{
    proof {
        reveal(moov_spec);
        reveal(trak_spec);
    }
    let duration = match checked_duration(sample_sizes.len()) {
        Ok(d) => d,
        Err(e) => {
            return Err(e);
        },
    };
    proof {
        lemma_mdia_len(sample_rate, channels, asc@, sample_sizes@, chunk_offset);
        lemma_fixed_box_lens(sample_rate, duration);
        lemma_box_len(
            seq![0x74u8, 0x72, 0x61, 0x6b],
            tkhd_spec(duration) + mdia_spec(sample_rate, channels, asc@, sample_sizes@, chunk_offset),
        );
    }
    let mvhd = mvhd_box(sample_rate, duration);
    let trak = match trak_box(sample_rate, channels, asc, sample_sizes, chunk_offset) {
        Ok(b) => b,
        Err(e) => {
            return Err(e);
        },
    };
    let children = vec![mvhd, trak];
    proof {
        assert(byte_seqs(children@) =~= seq![mvhd@, trak@]);
        lemma_concat2(mvhd@, trak@);
    }
    box_with_children([0x6d, 0x6f, 0x6f, 0x76], children.as_slice())
}

} // verus!

verus! {

/// One ADTS frame: the AAC profile (1-based object type), the sample-rate
/// index, the channel configuration and the raw access unit.
pub struct AdtsFrame<'a> {
    pub profile: u8,
    pub sample_rate_index: u8,
    pub channels: u8,
    pub payload: &'a [u8],
}

/// An ADTS frame's fields and access unit as plain values.
pub struct AdtsModel {
    pub profile: u8,
    pub sample_rate_index: u8,
    pub channels: u8,
    pub payload: Seq<u8>,
}

impl<'a> View for AdtsFrame<'a> {
    type V = AdtsModel;

    open spec fn view(&self) -> AdtsModel {
        AdtsModel {
            profile: self.profile,
            sample_rate_index: self.sample_rate_index,
            channels: self.channels,
            payload: self.payload@,
        }
    }
}

/// The header length of an ADTS frame: 7 bytes, or 9 with a CRC.
pub open spec fn adts_header_len(b1: u8) -> int {
    if b1 % 2 == 1 {
        7
    } else {
        9
    }
}

/// The 13-bit frame length of an ADTS header (header included).
pub open spec fn adts_frame_len(input: Seq<u8>) -> int {
    (input[3] % 4) * 2048 + input[4] * 8 + input[5] / 32
}

/// Splits an ADTS stream into frames, front to back.
pub open spec fn parse_adts_spec(input: Seq<u8>) -> Result<Seq<AdtsModel>, Mp4Error>
    decreases input.len(),
{
    if input.len() == 0 {
        Ok(seq![])
    } else if input.len() < 7 {
        Err(Mp4Error::TruncatedAdtsHeader)
    } else if input[0] != 0xff || input[1] < 0xf0 {
        Err(Mp4Error::MissingAdtsSync)
    } else {
        let header_len = adts_header_len(input[1]);
        let frame_len = adts_frame_len(input);
        let sample_rate_index = (input[2] / 4) % 16;
        let channels = (input[2] % 2) * 4 + input[3] / 64;
        if sample_rate_index >= 13 {
            Err(Mp4Error::InvalidAdtsSampleRateIndex)
        } else if channels == 0 {
            Err(Mp4Error::ProgramConfigUnsupported)
        } else if frame_len < header_len {
            Err(Mp4Error::InvalidAdtsFrameLength)
        } else if input.len() < frame_len {
            Err(Mp4Error::TruncatedAdtsFrame)
        } else {
            let frame = AdtsModel {
                profile: (input[2] / 64 + 1) as u8,
                sample_rate_index: sample_rate_index as u8,
                channels: channels as u8,
                payload: input.subrange(header_len, frame_len),
            };
            match parse_adts_spec(input.subrange(frame_len, input.len() as int)) {
                Ok(rest) => Ok(seq![frame] + rest),
                Err(e) => Err(e),
            }
        }
    }
}

/// The models of parsed frames.
pub open spec fn adts_models<'a>(v: Seq<AdtsFrame<'a>>) -> Seq<AdtsModel> {
    v.map_values(|f: AdtsFrame<'a>| f@)
}

/// Splits an ADTS stream into its frames.
pub fn parse_adts_frames<'a>(input: &'a [u8]) -> (res: Result<Vec<AdtsFrame<'a>>, Mp4Error>)
    ensures
        match res {
            Ok(frames) => parse_adts_spec(input@) == Ok::<Seq<AdtsModel>, Mp4Error>(adts_models(frames@)),
            Err(e) => parse_adts_spec(input@) == Err::<Seq<AdtsModel>, Mp4Error>(e),
        },
{
    let mut frames: Vec<AdtsFrame<'a>> = Vec::new();
    let mut rest: &'a [u8] = input;
    while rest.len() > 0
        invariant
            parse_adts_spec(input@) == match parse_adts_spec(rest@) {
                Ok(r) => Ok::<Seq<AdtsModel>, Mp4Error>(adts_models(frames@) + r),
                Err(e) => Err(e),
            },
        decreases rest@.len(),
    {
        if rest.len() < 7 {
            return Err(Mp4Error::TruncatedAdtsHeader);
        }
        if rest[0] != 0xff || rest[1] < 0xf0 {
            return Err(Mp4Error::MissingAdtsSync);
        }
        let header_len: usize = if rest[1] % 2 == 1 {
            7
        } else {
            9
        };
        let profile = rest[2] / 64 + 1;
        let sample_rate_index = (rest[2] / 4) % 16;
        let channels = (rest[2] % 2) * 4 + rest[3] / 64;
        let frame_len = (rest[3] % 4) as usize * 2048 + rest[4] as usize * 8 + (rest[5] / 32) as usize;
        if sample_rate_index >= 13 {
            return Err(Mp4Error::InvalidAdtsSampleRateIndex);
        }
        if channels == 0 {
            return Err(Mp4Error::ProgramConfigUnsupported);
        }
        if frame_len < header_len {
            return Err(Mp4Error::InvalidAdtsFrameLength);
        }
        if rest.len() < frame_len {
            return Err(Mp4Error::TruncatedAdtsFrame);
        }
        let frame = AdtsFrame {
            profile,
            sample_rate_index,
            channels,
            payload: &rest[header_len..frame_len],
        };
        let ghost before = frames@;
        let ghost model = frame@;
        frames.push(frame);
        rest = &rest[frame_len..rest.len()];
        proof {
            assert(adts_models(frames@) =~= adts_models(before) + seq![model]);
            match parse_adts_spec(rest@) {
                Ok(r) => {
                    assert(adts_models(before) + (seq![model] + r) =~= adts_models(frames@) + r);
                },
                Err(e) => {},
            }
        }
    }
    proof {
        assert(adts_models(frames@) + seq![] =~= adts_models(frames@));
    }
    Ok(frames)
}

/// The sampling frequencies of the MPEG-4 sample-rate indices.
pub open spec fn sample_rate_table(index: int) -> u32 {
    if index == 0 {
        96_000
    } else if index == 1 {
        88_200
    } else if index == 2 {
        64_000
    } else if index == 3 {
        48_000
    } else if index == 4 {
        44_100
    } else if index == 5 {
        32_000
    } else if index == 6 {
        24_000
    } else if index == 7 {
        22_050
    } else if index == 8 {
        16_000
    } else if index == 9 {
        12_000
    } else if index == 10 {
        11_025
    } else if index == 11 {
        8_000
    } else {
        7_350
    }
}

/// The sampling frequency of a sample-rate index (`0..13`).
pub fn sample_rate_from_index(index: u8) -> (res: Result<u32, Mp4Error>)
    ensures
        index < 13 ==> res == Ok::<u32, Mp4Error>(sample_rate_table(index as int)),
        index >= 13 ==> res == Err::<u32, Mp4Error>(Mp4Error::InvalidSampleRateIndex),
{
    let rates: [u32; 13] = [
        96_000, 88_200, 64_000, 48_000, 44_100, 32_000, 24_000, 22_050, 16_000, 12_000, 11_025,
        8_000, 7_350,
    ];
    if index >= 13 {
        return Err(Mp4Error::InvalidSampleRateIndex);
    }
    Ok(rates[index as usize])
}

/// The two-byte AudioSpecificConfig: five bits of object type, four of
/// sample-rate index, four of channel configuration, three zero bits.
pub open spec fn asc_bytes(profile: u8, sample_rate_index: u8, channels: u8) -> Seq<u8> {
    seq![
        (profile * 8 + sample_rate_index / 2) as u8,
        ((sample_rate_index % 2) * 128 + channels * 8) as u8,
    ]
}

/// Packs the AudioSpecificConfig of an object type, sample-rate index and
/// channel configuration.
pub fn audio_specific_config(profile: u8, sample_rate_index: u8, channels: u8) -> (res: [u8; 2])
    requires
        profile < 32,
        sample_rate_index < 16,
        channels < 16,
    ensures
        res@ == asc_bytes(profile, sample_rate_index, channels),
{
    let res = [profile * 8 + sample_rate_index / 2, (sample_rate_index % 2) * 128 + channels * 8];
    assert(res@ =~= asc_bytes(profile, sample_rate_index, channels));
    res
}

} // verus!

verus! {

/// The access units of `frames`, one after another.
pub open spec fn frame_payloads(frames: Seq<AdtsModel>) -> Seq<u8>
    decreases frames.len(),
{
    if frames.len() == 0 {
        seq![]
    } else {
        frame_payloads(frames.drop_last()) + frames.last().payload
    }
}

/// The sizes of the access units of `frames`.
pub open spec fn frame_sizes(frames: Seq<AdtsModel>) -> Seq<u32> {
    frames.map_values(|f: AdtsModel| f.payload.len() as u32)
}

/// Two frames agree on profile, sample-rate index and channels.
pub open spec fn same_params(a: AdtsModel, b: AdtsModel) -> bool {
    a.profile == b.profile && a.sample_rate_index == b.sample_rate_index && a.channels == b.channels
}

/// The `mdat` box name.
pub open spec fn mdat_name() -> Seq<u8> {
    seq![0x6du8, 0x64, 0x61, 0x74]
}

/// The M4A file holding an ADTS stream's frames: the file-type box, the
/// media-data box with the access units, and the movie box describing them;
/// the stream must keep one profile, sample rate and channel layout.
pub open spec fn mux_aac_spec(adts: Seq<u8>) -> Result<Seq<u8>, Mp4Error> {
    match parse_adts_spec(adts) {
        Err(e) => Err(e),
        Ok(frames) => if frames.len() == 0 {
            Err(Mp4Error::NoFrames)
        } else if exists|i: int| 0 <= i < frames.len() && !same_params(#[trigger] frames[i], frames[0]) {
            Err(Mp4Error::ParameterChange)
        } else {
            let first = frames[0];
            let payload = frame_payloads(frames);
            if payload.len() + 8 > u32::MAX {
                Err(Mp4Error::BoxTooLarge)
            } else {
                match moov_result(
                    sample_rate_table(first.sample_rate_index as int),
                    first.channels,
                    asc_bytes(first.profile, first.sample_rate_index, first.channels),
                    frame_sizes(frames),
                    32,
                ) {
                    Err(e) => Err(e),
                    Ok(moov) => Ok(ftyp_spec() + mp4_box(mdat_name(), payload) + moov),
                }
            }
        },
    }
}

/// Every frame an ADTS stream parses into has a profile of at most 4, a
/// valid sample-rate index, a channel configuration below 8 and an access
/// unit shorter than 8192 bytes.
proof fn lemma_adts_bounds(input: Seq<u8>)
    ensures
        parse_adts_spec(input) matches Ok(frames) ==> forall|i: int|
            0 <= i < frames.len() ==> {
                &&& 1 <= (#[trigger] frames[i]).profile <= 4
                &&& frames[i].sample_rate_index < 13
                &&& frames[i].channels < 8
                &&& frames[i].payload.len() < 8192
                &&& frames[i].payload.len() + 7 <= 0x1fff
            },
    decreases input.len(),
{
    if input.len() >= 7 && input[0] == 0xff && input[1] >= 0xf0 {
        let frame_len = adts_frame_len(input);
        if adts_header_len(input[1]) <= frame_len <= input.len() {
            lemma_adts_bounds(input.subrange(frame_len, input.len() as int));
            match parse_adts_spec(input) {
                Ok(frames) => {
                    let rest = input.subrange(frame_len, input.len() as int);
                    assert forall|i: int| 0 <= i < frames.len() implies {
                        &&& 1 <= (#[trigger] frames[i]).profile <= 4
                        &&& frames[i].sample_rate_index < 13
                        &&& frames[i].channels < 8
                        &&& frames[i].payload.len() < 8192
                        &&& frames[i].payload.len() + 7 <= 0x1fff
                    } by {
                        if i > 0 {
                            let r = parse_adts_spec(rest)->Ok_0;
                            assert(frames[i] == r[i - 1]);
                        }
                    }
                },
                Err(_) => {},
            }
        }
    }
}

/// Muxes one or more ADTS frames into a minimal M4A file: the access units
/// go to the `mdat` box, their sizes to the sample tables of a single
/// `mp4a` track.
pub fn mux_aac(adts: &[u8]) -> (res: Result<Vec<u8>, Mp4Error>)
    ensures
        bytes_result(res) == mux_aac_spec(adts@),
{
    let frames = match parse_adts_frames(adts) {
        Ok(f) => f,
        Err(e) => {
            return Err(e);
        },
    };
    let ghost models = adts_models(frames@);
    proof {
        lemma_adts_bounds(adts@);
    }
    if frames.len() == 0 {
        return Err(Mp4Error::NoFrames);
    }
    let first_profile = frames[0].profile;
    let first_rate_index = frames[0].sample_rate_index;
    let first_channels = frames[0].channels;
    proof {
        assert(models[0] == frames@[0]@);
    }
    let asc = audio_specific_config(first_profile, first_rate_index, first_channels);
    let sample_rate = match sample_rate_from_index(first_rate_index) {
        Ok(r) => r,
        Err(e) => {
            return Err(e);
        },
    };
    let mut mdat_payload: Vec<u8> = Vec::new();
    let mut sample_sizes: Vec<u32> = Vec::new();
    let mut i: usize = 0;
    while i < frames.len()
        invariant
            0 <= i <= frames@.len(),
            models == adts_models(frames@),
            models.len() > 0,
            parse_adts_spec(adts@) == Ok::<Seq<AdtsModel>, Mp4Error>(models),
            first_profile == models[0].profile,
            first_rate_index == models[0].sample_rate_index,
            first_channels == models[0].channels,
            forall|j: int| 0 <= j < i ==> same_params(#[trigger] models[j], models[0]),
            forall|j: int| 0 <= j < models.len() ==> (#[trigger] models[j]).payload.len() < 8192,
            mdat_payload@ == frame_payloads(models.subrange(0, i as int)),
            sample_sizes@ == frame_sizes(models.subrange(0, i as int)),
        decreases frames@.len() - i,
    {
        let frame = &frames[i];
        proof {
            assert(models[i as int] == frame@);
        }
        if frame.profile != first_profile || frame.sample_rate_index != first_rate_index
            || frame.channels != first_channels {
            proof {
                assert(!same_params(models[i as int], models[0]));
            }
            return Err(Mp4Error::ParameterChange);
        }
        sample_sizes.push(frame.payload.len() as u32);
        mdat_payload.extend_from_slice(frame.payload);
        proof {
            let pre = models.subrange(0, i as int + 1);
            assert(pre.drop_last() =~= models.subrange(0, i as int));
            assert(mdat_payload@ =~= frame_payloads(pre));
            assert(sample_sizes@ =~= frame_sizes(pre));
        }
        i += 1;
    }
    proof {
        assert(models.subrange(0, models.len() as int) =~= models);
        assert(!(exists|j: int| 0 <= j < models.len() && !same_params(#[trigger] models[j], models[0])));
    }
    let ftyp = ftyp_box();
    let mdat = match box_with_payload([0x6d, 0x64, 0x61, 0x74], mdat_payload.as_slice()) {
        Ok(b) => b,
        Err(e) => {
            return Err(e);
        },
    };
    proof {
        reveal(ftyp_spec);
        lemma_be_bytes_len(0, 4);
        lemma_box_len(
            seq![0x66u8, 0x74, 0x79, 0x70],
            seq![0x4du8, 0x34, 0x41, 0x20] + be_bytes(0, 4) + seq![0x4du8, 0x34, 0x41, 0x20] + seq![0x6du8, 0x70, 0x34, 0x32],
        );
    }
    let chunk_offset = (ftyp.len() + 8) as u32;
    let moov = match moov_box(sample_rate, first_channels, &asc, sample_sizes.as_slice(), chunk_offset) {
        Ok(b) => b,
        Err(e) => {
            return Err(e);
        },
    };
    let mut out = Vec::new();
    out.extend_from_slice(ftyp.as_slice());
    out.extend_from_slice(mdat.as_slice());
    out.extend_from_slice(moov.as_slice());
    proof {
        assert(out@ =~= ftyp@ + mdat@ + moov@);
    }
    Ok(out)
}

} // verus!

verus! {

pub open spec fn name_moov() -> Seq<u8> { seq![0x6du8, 0x6f, 0x6f, 0x76] }
pub open spec fn name_trak() -> Seq<u8> { seq![0x74u8, 0x72, 0x61, 0x6b] }
pub open spec fn name_mdia() -> Seq<u8> { seq![0x6du8, 0x64, 0x69, 0x61] }
pub open spec fn name_minf() -> Seq<u8> { seq![0x6du8, 0x69, 0x6e, 0x66] }
pub open spec fn name_stbl() -> Seq<u8> { seq![0x73u8, 0x74, 0x62, 0x6c] }
pub open spec fn name_dinf() -> Seq<u8> { seq![0x64u8, 0x69, 0x6e, 0x66] }
pub open spec fn name_stsd() -> Seq<u8> { seq![0x73u8, 0x74, 0x73, 0x64] }
pub open spec fn name_dref() -> Seq<u8> { seq![0x64u8, 0x72, 0x65, 0x66] }
pub open spec fn name_mp4a() -> Seq<u8> { seq![0x6du8, 0x70, 0x34, 0x61] }

/// Boxes whose payload is a list of child boxes.
pub open spec fn is_container_spec(box_type: Seq<u8>) -> bool {
    box_type == name_moov() || box_type == name_trak() || box_type == name_mdia() || box_type
        == name_minf() || box_type == name_stbl() || box_type == name_dinf()
}

/// Boxes whose child boxes follow a fixed-size header: the offset of the
/// first child within the payload.
pub open spec fn child_offset_spec(box_type: Seq<u8>) -> Option<int> {
    if box_type == name_stsd() || box_type == name_dref() {
        Some(8)
    } else if box_type == name_mp4a() {
        Some(28)
    } else {
        None
    }
}

fn is_name(box_type: &[u8], name: [u8; 4]) -> (res: bool)
    requires
        box_type@.len() == 4,
    ensures
        res == (box_type@ == name@),
{
    let res = box_type[0] == name[0] && box_type[1] == name[1] && box_type[2] == name[2] && box_type[3]
        == name[3];
    proof {
        if res {
            assert(box_type@ =~= name@);
        }
    }
    res
}

/// Whether a box of this type holds child boxes directly.
pub fn is_container_box(box_type: &[u8]) -> (res: bool)
    requires
        box_type@.len() == 4,
    ensures
        res == is_container_spec(box_type@),
{
    let moov: [u8; 4] = [0x6d, 0x6f, 0x6f, 0x76];
    let trak: [u8; 4] = [0x74, 0x72, 0x61, 0x6b];
    let mdia: [u8; 4] = [0x6d, 0x64, 0x69, 0x61];
    let minf: [u8; 4] = [0x6d, 0x69, 0x6e, 0x66];
    let stbl: [u8; 4] = [0x73, 0x74, 0x62, 0x6c];
    let dinf: [u8; 4] = [0x64, 0x69, 0x6e, 0x66];
    proof {
        assert(moov@ =~= name_moov());
        assert(trak@ =~= name_trak());
        assert(mdia@ =~= name_mdia());
        assert(minf@ =~= name_minf());
        assert(stbl@ =~= name_stbl());
        assert(dinf@ =~= name_dinf());
    }
    is_name(box_type, moov) || is_name(box_type, trak) || is_name(box_type, mdia) || is_name(
        box_type,
        minf,
    ) || is_name(box_type, stbl) || is_name(box_type, dinf)
}

/// Where the child boxes of a box of this type start, for the boxes whose
/// children follow a fixed header.
pub fn full_container_child_offset(box_type: &[u8]) -> (res: Option<usize>)
    requires
        box_type@.len() == 4,
    ensures
        match res {
            Some(o) => child_offset_spec(box_type@) == Some(o as int),
            None => child_offset_spec(box_type@) is None,
        },
{
    let stsd: [u8; 4] = [0x73, 0x74, 0x73, 0x64];
    let dref: [u8; 4] = [0x64, 0x72, 0x65, 0x66];
    let mp4a: [u8; 4] = [0x6d, 0x70, 0x34, 0x61];
    proof {
        assert(stsd@ =~= name_stsd());
        assert(dref@ =~= name_dref());
        assert(mp4a@ =~= name_mp4a());
    }
    if is_name(box_type, stsd) || is_name(box_type, dref) {
        Some(8)
    } else if is_name(box_type, mp4a) {
        Some(28)
    } else {
        None
    }
}

/// Searches the boxes of `input` from `pos` on, depth first through the
/// container boxes, for the payload of the first box named `target`; a
/// malformed box size ends the search.
pub open spec fn find_box_from(input: Seq<u8>, target: Seq<u8>, pos: int) -> Option<Seq<u8>>
    decreases input.len(), input.len() - pos,
{
    if pos < 0 || pos + 8 > input.len() {
        None
    } else {
        let size = be_value(input.subrange(pos, pos + 4)) as int;
        if size < 8 || pos + size > input.len() {
            None
        } else {
            let box_type = input.subrange(pos + 4, pos + 8);
            let payload = input.subrange(pos + 8, pos + size);
            if box_type == target {
                Some(payload)
            } else if is_container_spec(box_type) {
                match find_box_from(payload, target, 0) {
                    Some(f) => Some(f),
                    None => find_box_from(input, target, pos + size),
                }
            } else if child_offset_spec(box_type) is Some {
                let off = child_offset_spec(box_type)->Some_0;
                if off > payload.len() {
                    None
                } else {
                    match find_box_from(payload.subrange(off, payload.len() as int), target, 0) {
                        Some(f) => Some(f),
                        None => find_box_from(input, target, pos + size),
                    }
                }
            } else {
                find_box_from(input, target, pos + size)
            }
        }
    }
}

/// The bytes of a found payload.
pub open spec fn found_bytes(res: Option<&[u8]>) -> Option<Seq<u8>> {
    match res {
        Some(s) => Some(s@),
        None => None,
    }
}

/// Finds the payload of the first box named `target`, searching depth first
/// through the container boxes of the single-track layout.
pub fn find_box_payload<'a>(input: &'a [u8], target: &[u8; 4]) -> (res: Option<&'a [u8]>)
    ensures
        found_bytes(res) == find_box_from(input@, target@, 0),
    decreases input@.len(),
{
    let mut pos: usize = 0;
    while pos <= input.len() && input.len() - pos >= 8
        invariant
            find_box_from(input@, target@, 0) == find_box_from(input@, target@, pos as int),
        decreases input@.len() - pos,
    {
        let size = read_u32(&input[pos..pos + 4]) as usize;
        if size < 8 || size > input.len() - pos {
            return None;
        }
        let box_type = &input[pos + 4..pos + 8];
        let payload = &input[pos + 8..pos + size];
        if is_name(box_type, *target) {
            return Some(payload);
        }
        if is_container_box(box_type) {
            if let Some(found) = find_box_payload(payload, target) {
                return Some(found);
            }
        } else if let Some(offset) = full_container_child_offset(box_type) {
            if offset > payload.len() {
                return None;
            }
            if let Some(found) = find_box_payload(&payload[offset..payload.len()], target) {
                return Some(found);
            }
        }
        pos += size;
    }
    None
}

} // verus!

verus! {

/// The decoder configuration read back from an `esds` box.
#[derive(Debug, Clone, Copy, PartialEq, Eq, Structural)]
pub struct AudioSpecificConfig {
    pub profile: u8,
    pub sample_rate_index: u8,
    pub channels: u8,
}

/// The first position from `i` on where a decoder-specific descriptor of two
/// bytes (tag 5, length 2) starts with both bytes present.
pub open spec fn find_asc_from(p: Seq<u8>, i: int) -> Option<int>
    decreases p.len() - i,
{
    if i < 0 || i + 4 > p.len() {
        None
    } else if p[i] == 5 && p[i + 1] == 2 {
        Some(i)
    } else {
        find_asc_from(p, i + 1)
    }
}

/// Reads the AudioSpecificConfig out of an `esds` payload: object type
/// 1..=4, a valid sample-rate index, a channel configuration.
pub open spec fn parse_asc_spec(p: Seq<u8>) -> Result<AudioSpecificConfig, Mp4Error> {
    match find_asc_from(p, 0) {
        None => Err(Mp4Error::UnsupportedFormat),
        Some(i) => {
            let asc0 = p[i + 2];
            let asc1 = p[i + 3];
            let profile = asc0 / 8;
            let sample_rate_index = (asc0 % 8) * 2 + asc1 / 128;
            let channels = (asc1 / 8) % 16;
            if profile == 0 || profile > 4 {
                Err(Mp4Error::UnsupportedProfile)
            } else if sample_rate_index >= 13 {
                Err(Mp4Error::InvalidSampleRateIndex)
            } else if channels == 0 {
                Err(Mp4Error::ProgramConfigUnsupported)
            } else {
                Ok(
                    AudioSpecificConfig {
                        profile: profile as u8,
                        sample_rate_index: sample_rate_index as u8,
                        channels: channels as u8,
                    },
                )
            }
        },
    }
}

/// Reads the AudioSpecificConfig out of an `esds` payload.
pub fn parse_audio_specific_config(esds_payload: &[u8]) -> (res: Result<AudioSpecificConfig, Mp4Error>)
    ensures
        res == parse_asc_spec(esds_payload@),
{
    let mut i: usize = 0;
    while i < esds_payload.len() && esds_payload.len() - i >= 4
        invariant
            find_asc_from(esds_payload@, 0) == find_asc_from(esds_payload@, i as int),
        decreases esds_payload@.len() - i,
    {
        if esds_payload[i] == 0x05 && esds_payload[i + 1] == 0x02 {
            let asc0 = esds_payload[i + 2];
            let asc1 = esds_payload[i + 3];
            let profile = asc0 / 8;
            let sample_rate_index = (asc0 % 8) * 2 + asc1 / 128;
            let channels = (asc1 / 8) % 16;
            if profile == 0 || profile > 4 {
                return Err(Mp4Error::UnsupportedProfile);
            }
            if sample_rate_index >= 13 {
                return Err(Mp4Error::InvalidSampleRateIndex);
            }
            if channels == 0 {
                return Err(Mp4Error::ProgramConfigUnsupported);
            }
            return Ok(AudioSpecificConfig { profile, sample_rate_index, channels });
        }
        i += 1;
    }
    Err(Mp4Error::UnsupportedFormat)
}

/// Reads the sample sizes of an `stsz` payload: one common size repeated,
/// or a table of one 32-bit size per sample.
pub open spec fn parse_stsz_spec(p: Seq<u8>) -> Result<Seq<u32>, Mp4Error> {
    if p.len() < 12 {
        Err(Mp4Error::TruncatedStsz)
    } else {
        let sample_size = be_value(p.subrange(4, 8));
        let count = be_value(p.subrange(8, 12));
        if sample_size != 0 {
            Ok(Seq::new(count, |k: int| sample_size as u32))
        } else if count * 4 > usize::MAX {
            Err(Mp4Error::StszTooLarge)
        } else if p.len() < 12 + count * 4 {
            Err(Mp4Error::TruncatedStszTable)
        } else {
            Ok(Seq::new(count, |k: int| be_value(p.subrange(12 + 4 * k, 16 + 4 * k)) as u32))
        }
    }
}

/// The sizes of a list of samples, or the error.
pub open spec fn sizes_result(res: Result<Vec<u32>, Mp4Error>) -> Result<Seq<u32>, Mp4Error> {
    match res {
        Ok(v) => Ok(v@),
        Err(e) => Err(e),
    }
}

/// Reads the sample sizes of an `stsz` payload.
pub fn parse_stsz_sample_sizes(stsz_payload: &[u8]) -> (res: Result<Vec<u32>, Mp4Error>)
    ensures
        sizes_result(res) == parse_stsz_spec(stsz_payload@),
{
    if stsz_payload.len() < 12 {
        return Err(Mp4Error::TruncatedStsz);
    }
    let sample_size = read_u32(&stsz_payload[4..8]);
    let sample_count = read_u32(&stsz_payload[8..12]) as usize;
    if sample_size != 0 {
        let v = vec![sample_size; sample_count];
        proof {
            assert(v@ =~= Seq::new(sample_count as nat, |k: int| sample_size));
        }
        return Ok(v);
    }
    if sample_count > usize::MAX / 4 {
        return Err(Mp4Error::StszTooLarge);
    }
    let entries_len = sample_count * 4;
    if stsz_payload.len() - 12 < entries_len {
        return Err(Mp4Error::TruncatedStszTable);
    }
    let mut sizes: Vec<u32> = Vec::new();
    let plen = stsz_payload.len();
    let mut k: usize = 0;
    while k < sample_count
        invariant
            0 <= k <= sample_count,
            plen == stsz_payload@.len(),
            12 + sample_count * 4 <= stsz_payload@.len(),
            sizes@ =~= Seq::new(k as nat, |j: int| be_value(stsz_payload@.subrange(12 + 4 * j, 16 + 4 * j)) as u32),
        decreases sample_count - k,
    {
        let at = 12 + 4 * k;
        sizes.push(read_u32(&stsz_payload[at..at + 4]));
        k += 1;
    }
    Ok(sizes)
}

/// The ADTS header (no CRC) of an access unit whose frame, header included,
/// is `frame_len` bytes long.
pub open spec fn adts_header(asc: AudioSpecificConfig, frame_len: int) -> Seq<u8> {
    seq![
        0xffu8,
        0xf1u8,
        ((asc.profile - 1) * 64 + asc.sample_rate_index * 4 + asc.channels / 4) as u8,
        ((asc.channels % 4) * 64 + frame_len / 2048) as u8,
        ((frame_len / 8) % 256) as u8,
        ((frame_len % 8) * 32 + 31) as u8,
        0xfcu8,
    ]
}

/// An access unit framed as ADTS: the frame must fit the 13-bit length and
/// the object type must have an ADTS profile.
pub open spec fn adts_frame_spec(asc: AudioSpecificConfig, au: Seq<u8>) -> Result<Seq<u8>, Mp4Error> {
    let frame_len = au.len() + 7int;
    if frame_len > 0x1fff {
        Err(Mp4Error::AdtsFrameTooLong)
    } else if asc.profile == 0 || asc.profile - 1 > 3 {
        Err(Mp4Error::UnsupportedProfile)
    } else {
        Ok(adts_header(asc, frame_len) + au)
    }
}

/// Appends an access unit framed as ADTS.
pub fn write_adts_frame(out: &mut Vec<u8>, asc: AudioSpecificConfig, access_unit: &[u8]) -> (res: Result<(), Mp4Error>)
    requires
        asc.sample_rate_index < 16,
        asc.channels < 16,
    ensures
        match adts_frame_spec(asc, access_unit@) {
            Ok(frame) => res is Ok && final(out)@ == old(out)@ + frame,
            Err(e) => res == Err::<(), Mp4Error>(e) && final(out)@ == old(out)@,
        },
{
    if access_unit.len() > 0x1fff - 7 {
        return Err(Mp4Error::AdtsFrameTooLong);
    }
    let frame_len = access_unit.len() + 7;
    if asc.profile == 0 {
        return Err(Mp4Error::UnsupportedProfile);
    }
    let adts_profile = asc.profile - 1;
    if adts_profile > 3 {
        return Err(Mp4Error::UnsupportedProfile);
    }
    let ghost start = out@;
    out.push(0xff);
    out.push(0xf1);
    out.push(adts_profile * 64 + asc.sample_rate_index * 4 + asc.channels / 4);
    out.push((asc.channels % 4) * 64 + (frame_len / 2048) as u8);
    out.push(((frame_len / 8) % 256) as u8);
    out.push(((frame_len % 8) * 32 + 31) as u8);
    out.push(0xfc);
    out.extend_from_slice(access_unit);
    assert(out@ =~= start + (adts_header(asc, frame_len as int) + access_unit@));
    Ok(())
}

} // verus!

verus! {

/// The length of the ADTS stream of samples of these sizes: each sample
/// plus its 7-byte header.
pub open spec fn adts_total(sizes: Seq<u32>) -> int
    decreases sizes.len(),
{
    if sizes.len() == 0 {
        0
    } else {
        adts_total(sizes.drop_last()) + sizes.last() + 7
    }
}

/// Framing the first `k` samples of `mdat`, back to back: the ADTS bytes so
/// far and the offset reached, or the first error.
pub open spec fn adts_walk(mdat: Seq<u8>, sizes: Seq<u32>, asc: AudioSpecificConfig, k: int) -> Result<(Seq<u8>, int), Mp4Error>
    decreases k,
{
    if k <= 0 {
        Ok((seq![], 0))
    } else {
        match adts_walk(mdat, sizes, asc, k - 1) {
            Err(e) => Err(e),
            Ok((out, off)) => {
                let end = off + sizes[k - 1];
                if end > mdat.len() {
                    Err(Mp4Error::TruncatedMdatSample)
                } else {
                    match adts_frame_spec(asc, mdat.subrange(off, end)) {
                        Err(e) => Err(e),
                        Ok(frame) => Ok((out + frame, end)),
                    }
                }
            },
        }
    }
}

/// The ADTS stream of the samples of `mdat` with these sizes; the samples
/// must fill `mdat` exactly.
pub open spec fn samples_to_adts_spec(mdat: Seq<u8>, sizes: Seq<u32>, asc: AudioSpecificConfig) -> Result<Seq<u8>, Mp4Error> {
    if adts_total(sizes) > usize::MAX {
        Err(Mp4Error::OutputTooLarge)
    } else {
        match adts_walk(mdat, sizes, asc, sizes.len() as int) {
            Err(e) => Err(e),
            Ok((out, off)) => if off != mdat.len() {
                Err(Mp4Error::TrailingMdatBytes)
            } else {
                Ok(out)
            },
        }
    }
}

proof fn lemma_adts_total_prefix(sizes: Seq<u32>, k: int)
    requires
        0 <= k <= sizes.len(),
    ensures
        adts_total(sizes.subrange(0, k)) <= adts_total(sizes),
        adts_total(sizes.subrange(0, k)) >= 0,
    decreases sizes.len(),
{
    if k < sizes.len() {
        assert(sizes.drop_last().subrange(0, k) =~= sizes.subrange(0, k));
        lemma_adts_total_prefix(sizes.drop_last(), k);
    } else {
        assert(sizes.subrange(0, k) =~= sizes);
        if k > 0 {
            lemma_adts_total_prefix(sizes.drop_last(), k - 1);
        }
    }
}

proof fn lemma_walk_offset(mdat: Seq<u8>, sizes: Seq<u32>, asc: AudioSpecificConfig, k: int)
    requires
        0 <= k <= sizes.len(),
    ensures
        adts_walk(mdat, sizes, asc, k) matches Ok((out, off)) ==> off + 7 * k == adts_total(sizes.subrange(0, k)),
    decreases k,
{
    if k > 0 {
        lemma_walk_offset(mdat, sizes, asc, k - 1);
        assert(sizes.subrange(0, k).drop_last() =~= sizes.subrange(0, k - 1));
    }
}

proof fn lemma_walk_err_sticks(mdat: Seq<u8>, sizes: Seq<u32>, asc: AudioSpecificConfig, j: int, k: int, e: Mp4Error)
    requires
        0 <= j <= k,
        adts_walk(mdat, sizes, asc, j) == Err::<(Seq<u8>, int), Mp4Error>(e),
    ensures
        adts_walk(mdat, sizes, asc, k) == Err::<(Seq<u8>, int), Mp4Error>(e),
    decreases k - j,
{
    if j < k {
        lemma_walk_err_sticks(mdat, sizes, asc, j, k - 1, e);
    }
}

/// Frames the samples of an `mdat` payload as ADTS, in order.
pub fn samples_to_adts(mdat_payload: &[u8], sample_sizes: &[u32], asc: AudioSpecificConfig) -> (res: Result<Vec<u8>, Mp4Error>)
    requires
        asc.sample_rate_index < 16,
        asc.channels < 16,
    ensures
        bytes_result(res) == samples_to_adts_spec(mdat_payload@, sample_sizes@, asc),
{
    let mut total: usize = 0;
    let mut k: usize = 0;
    while k < sample_sizes.len()
        invariant
            0 <= k <= sample_sizes@.len(),
            total == adts_total(sample_sizes@.subrange(0, k as int)),
        decreases sample_sizes@.len() - k,
    {
        proof {
            let pre = sample_sizes@.subrange(0, k as int + 1);
            assert(pre.drop_last() =~= sample_sizes@.subrange(0, k as int));
            lemma_adts_total_prefix(sample_sizes@, k as int + 1);
        }
        let size = sample_sizes[k] as usize;
        if size > usize::MAX - total || 7 > usize::MAX - total - size {
            return Err(Mp4Error::OutputTooLarge);
        }
        total = total + size + 7;
        k += 1;
    }
    proof {
        assert(sample_sizes@.subrange(0, sample_sizes@.len() as int) =~= sample_sizes@);
    }
    let mut out: Vec<u8> = Vec::new();
    let mut offset: usize = 0;
    let mut i: usize = 0;
    while i < sample_sizes.len()
        invariant
            0 <= i <= sample_sizes@.len(),
            asc.sample_rate_index < 16,
            asc.channels < 16,
            adts_total(sample_sizes@) <= usize::MAX,
            adts_walk(mdat_payload@, sample_sizes@, asc, i as int) == Ok::<(Seq<u8>, int), Mp4Error>(
                (out@, offset as int),
            ),
        decreases sample_sizes@.len() - i,
    {
        proof {
            lemma_walk_offset(mdat_payload@, sample_sizes@, asc, i as int);
            lemma_adts_total_prefix(sample_sizes@, i as int + 1);
            let pre = sample_sizes@.subrange(0, i as int + 1);
            assert(pre.drop_last() =~= sample_sizes@.subrange(0, i as int));
        }
        let end = offset + sample_sizes[i] as usize;
        if end > mdat_payload.len() {
            proof {
                lemma_walk_err_sticks(mdat_payload@, sample_sizes@, asc, i as int + 1, sample_sizes@.len() as int, Mp4Error::TruncatedMdatSample);
            }
            return Err(Mp4Error::TruncatedMdatSample);
        }
        match write_adts_frame(&mut out, asc, &mdat_payload[offset..end]) {
            Ok(()) => {},
            Err(e) => {
                proof {
                    lemma_walk_err_sticks(mdat_payload@, sample_sizes@, asc, i as int + 1, sample_sizes@.len() as int, e);
                }
                return Err(e);
            },
        }
        offset = end;
        i += 1;
    }
    if offset != mdat_payload.len() {
        return Err(Mp4Error::TrailingMdatBytes);
    }
    Ok(out)
}

/// The `stsz` and `esds` box names.
pub open spec fn name_stsz() -> Seq<u8> { seq![0x73u8, 0x74, 0x73, 0x7a] }
pub open spec fn name_esds() -> Seq<u8> { seq![0x65u8, 0x73, 0x64, 0x73] }

/// The ADTS stream of the single AAC track of an M4A file in the layout the
/// muxer writes: the samples of `mdat`, sized by `stsz`, framed with the
/// configuration of `esds`.
pub open spec fn demux_aac_spec(input: Seq<u8>) -> Result<Seq<u8>, Mp4Error> {
    match (
        find_box_from(input, mdat_name(), 0),
        find_box_from(input, name_stsz(), 0),
        find_box_from(input, name_esds(), 0),
    ) {
        (Some(mdat), Some(stsz), Some(esds)) => match parse_asc_spec(esds) {
            Err(e) => Err(e),
            Ok(asc) => match parse_stsz_spec(stsz) {
                Err(e) => Err(e),
                Ok(sizes) => samples_to_adts_spec(mdat, sizes, asc),
            },
        },
        _ => Err(Mp4Error::UnsupportedFormat),
    }
}

/// Demuxes the AAC samples of a minimal M4A file (the single-track layout
/// the muxer writes) into ADTS frames.
pub fn demux_aac(input: &[u8]) -> (res: Result<Vec<u8>, Mp4Error>)
    ensures
        bytes_result(res) == demux_aac_spec(input@),
{
    let mdat_name_bytes: [u8; 4] = [0x6d, 0x64, 0x61, 0x74];
    let stsz_name: [u8; 4] = [0x73, 0x74, 0x73, 0x7a];
    let esds_name: [u8; 4] = [0x65, 0x73, 0x64, 0x73];
    proof {
        assert(mdat_name_bytes@ =~= mdat_name());
        assert(stsz_name@ =~= name_stsz());
        assert(esds_name@ =~= name_esds());
    }
    let mdat = match find_box_payload(input, &mdat_name_bytes) {
        Some(p) => p,
        None => {
            return Err(Mp4Error::UnsupportedFormat);
        },
    };
    let stsz = match find_box_payload(input, &stsz_name) {
        Some(p) => p,
        None => {
            return Err(Mp4Error::UnsupportedFormat);
        },
    };
    let esds = match find_box_payload(input, &esds_name) {
        Some(p) => p,
        None => {
            return Err(Mp4Error::UnsupportedFormat);
        },
    };
    let asc = match parse_audio_specific_config(esds) {
        Ok(a) => a,
        Err(e) => {
            return Err(e);
        },
    };
    let sample_sizes = match parse_stsz_sample_sizes(stsz) {
        Ok(s) => s,
        Err(e) => {
            return Err(e);
        },
    };
    samples_to_adts(mdat, sample_sizes.as_slice(), asc)
}

} // verus!

verus! {

/// Box searching past a prefix reads only what follows it.
proof fn lemma_find_shift(a: Seq<u8>, b: Seq<u8>, t: Seq<u8>, q: int)
    requires
        0 <= q,
    ensures
        find_box_from(a + b, t, a.len() + q) == find_box_from(b, t, q),
    decreases b.len() - q,
{
    let input = a + b;
    let pos = a.len() + q;
    if q + 8 <= b.len() {
        assert(input.subrange(pos, pos + 4) =~= b.subrange(q, q + 4));
        let size = be_value(b.subrange(q, q + 4)) as int;
        if size >= 8 && q + size <= b.len() {
            assert(input.subrange(pos + 4, pos + 8) =~= b.subrange(q + 4, q + 8));
            assert(input.subrange(pos + 8, pos + size) =~= b.subrange(q + 8, q + size));
            lemma_find_shift(a, b, t, q + size);
        }
    }
}

/// Searching a list of boxes that starts with the box `name`: its payload is
/// the hit, or is searched first when it holds child boxes, then the rest.
proof fn lemma_find_cons(name: Seq<u8>, payload: Seq<u8>, rest: Seq<u8>, t: Seq<u8>)
    requires
        name.len() == 4,
        payload.len() + 8 <= u32::MAX,
    ensures
        find_box_from(mp4_box(name, payload) + rest, t, 0) == if name == t {
            Some(payload)
        } else if is_container_spec(name) {
            match find_box_from(payload, t, 0) {
                Some(f) => Some(f),
                None => find_box_from(rest, t, 0),
            }
        } else if child_offset_spec(name) is Some {
            let off = child_offset_spec(name)->Some_0;
            if off > payload.len() {
                None
            } else {
                match find_box_from(payload.subrange(off, payload.len() as int), t, 0) {
                    Some(f) => Some(f),
                    None => find_box_from(rest, t, 0),
                }
            }
        } else {
            find_box_from(rest, t, 0)
        },
{
    let b = mp4_box(name, payload);
    let input = b + rest;
    lemma_be_round_trip((payload.len() + 8) as u32);
    lemma_box_len(name, payload);
    assert(input.subrange(0, 4) =~= be_bytes((payload.len() + 8) as nat, 4));
    assert(input.subrange(4, 8) =~= name);
    assert(input.subrange(8, payload.len() + 8int) =~= payload);
    lemma_find_shift(b, rest, t, 0);
}

proof fn lemma_find_nil(t: Seq<u8>)
    ensures
        find_box_from(Seq::<u8>::empty(), t, 0) == None::<Seq<u8>>,
{
}

} // verus!

verus! {

pub open spec fn name_ftyp() -> Seq<u8> { seq![0x66u8, 0x74, 0x79, 0x70] }
pub open spec fn name_mvhd() -> Seq<u8> { seq![0x6du8, 0x76, 0x68, 0x64] }
pub open spec fn name_tkhd() -> Seq<u8> { seq![0x74u8, 0x6b, 0x68, 0x64] }
pub open spec fn name_mdhd() -> Seq<u8> { seq![0x6du8, 0x64, 0x68, 0x64] }
pub open spec fn name_hdlr() -> Seq<u8> { seq![0x68u8, 0x64, 0x6c, 0x72] }
pub open spec fn name_smhd() -> Seq<u8> { seq![0x73u8, 0x6d, 0x68, 0x64] }
pub open spec fn name_url() -> Seq<u8> { seq![0x75u8, 0x72, 0x6c, 0x20] }
pub open spec fn name_stts() -> Seq<u8> { seq![0x73u8, 0x74, 0x74, 0x73] }
pub open spec fn name_stsc() -> Seq<u8> { seq![0x73u8, 0x74, 0x73, 0x63] }
pub open spec fn name_stco() -> Seq<u8> { seq![0x73u8, 0x74, 0x63, 0x6f] }

} // verus!

verus! {

/// A box that is not the target and holds no searched children is skipped.
proof fn lemma_find_leaf(name: Seq<u8>, payload: Seq<u8>, rest: Seq<u8>, t: Seq<u8>)
    requires
        name.len() == 4,
        payload.len() + 8 <= u32::MAX,
        name != t,
        !is_container_spec(name),
        child_offset_spec(name) is None,
    ensures
        find_box_from(mp4_box(name, payload) + rest, t, 0) == find_box_from(rest, t, 0),
{
    lemma_find_cons(name, payload, rest, t);
}

/// The target box is found with its payload.
proof fn lemma_find_hit(name: Seq<u8>, payload: Seq<u8>, rest: Seq<u8>)
    requires
        name.len() == 4,
        payload.len() + 8 <= u32::MAX,
    ensures
        find_box_from(mp4_box(name, payload) + rest, name, 0) == Some(payload),
{
    lemma_find_cons(name, payload, rest, name);
}

/// A container box is searched inside first, then past it.
proof fn lemma_find_container(name: Seq<u8>, payload: Seq<u8>, rest: Seq<u8>, t: Seq<u8>)
    requires
        name.len() == 4,
        payload.len() + 8 <= u32::MAX,
        name != t,
        is_container_spec(name),
    ensures
        find_box_from(mp4_box(name, payload) + rest, t, 0) == match find_box_from(payload, t, 0) {
            Some(f) => Some(f),
            None => find_box_from(rest, t, 0),
        },
{
    lemma_find_cons(name, payload, rest, t);
}

/// A box with a fixed header before its children is searched from there.
proof fn lemma_find_offset(name: Seq<u8>, payload: Seq<u8>, rest: Seq<u8>, t: Seq<u8>, off: int)
    requires
        name.len() == 4,
        payload.len() + 8 <= u32::MAX,
        name != t,
        !is_container_spec(name),
        child_offset_spec(name) == Some(off),
        off <= payload.len(),
    ensures
        find_box_from(mp4_box(name, payload) + rest, t, 0) == match find_box_from(
            payload.subrange(off, payload.len() as int),
            t,
            0,
        ) {
            Some(f) => Some(f),
            None => find_box_from(rest, t, 0),
        },
{
    lemma_find_cons(name, payload, rest, t);
}

proof fn lemma_leaf_names()
    ensures
        !is_container_spec(name_ftyp()) && child_offset_spec(name_ftyp()) is None,
        !is_container_spec(mdat_name()) && child_offset_spec(mdat_name()) is None,
        !is_container_spec(name_mvhd()) && child_offset_spec(name_mvhd()) is None,
        !is_container_spec(name_tkhd()) && child_offset_spec(name_tkhd()) is None,
        !is_container_spec(name_mdhd()) && child_offset_spec(name_mdhd()) is None,
        !is_container_spec(name_hdlr()) && child_offset_spec(name_hdlr()) is None,
        !is_container_spec(name_smhd()) && child_offset_spec(name_smhd()) is None,
        !is_container_spec(name_url()) && child_offset_spec(name_url()) is None,
        !is_container_spec(name_stts()) && child_offset_spec(name_stts()) is None,
        !is_container_spec(name_stsc()) && child_offset_spec(name_stsc()) is None,
        !is_container_spec(name_stco()) && child_offset_spec(name_stco()) is None,
        !is_container_spec(name_esds()) && child_offset_spec(name_esds()) is None,
        !is_container_spec(name_stsz()) && child_offset_spec(name_stsz()) is None,
        !is_container_spec(name_stsd()) && child_offset_spec(name_stsd()) == Some(8int),
        !is_container_spec(name_dref()) && child_offset_spec(name_dref()) == Some(8int),
        !is_container_spec(name_mp4a()) && child_offset_spec(name_mp4a()) == Some(28int),
        is_container_spec(name_moov()) && is_container_spec(name_trak()) && is_container_spec(name_mdia())
            && is_container_spec(name_minf()) && is_container_spec(name_stbl()) && is_container_spec(name_dinf()),
{
    assert(name_ftyp()[0] != name_moov()[0] && name_ftyp()[0] != name_trak()[0] && name_ftyp()[0] != name_mdia()[0]);
    assert(name_ftyp()[0] != name_minf()[0] && name_ftyp()[0] != name_stbl()[0] && name_ftyp()[0] != name_dinf()[0]);
    assert(name_ftyp()[0] != name_stsd()[0] && name_ftyp()[0] != name_dref()[0] && name_ftyp()[0] != name_mp4a()[0]);
    assert(mdat_name()[1] != name_moov()[1] && mdat_name()[0] != name_trak()[0] && mdat_name()[2] != name_mdia()[2]);
    assert(mdat_name()[1] != name_minf()[1] && mdat_name()[0] != name_stbl()[0] && mdat_name()[0] != name_dinf()[0]);
    assert(mdat_name()[0] != name_stsd()[0] && mdat_name()[0] != name_dref()[0] && mdat_name()[1] != name_mp4a()[1]);
    assert(name_mvhd()[1] != name_moov()[1] && name_mvhd()[0] != name_trak()[0] && name_mvhd()[1] != name_mdia()[1]);
    assert(name_mvhd()[1] != name_minf()[1] && name_mvhd()[0] != name_stbl()[0] && name_mvhd()[0] != name_dinf()[0]);
    assert(name_mvhd()[0] != name_stsd()[0] && name_mvhd()[0] != name_dref()[0] && name_mvhd()[1] != name_mp4a()[1]);
    assert(name_tkhd()[0] != name_moov()[0] && name_tkhd()[1] != name_trak()[1] && name_tkhd()[0] != name_mdia()[0]);
    assert(name_tkhd()[0] != name_minf()[0] && name_tkhd()[0] != name_stbl()[0] && name_tkhd()[0] != name_dinf()[0]);
    assert(name_tkhd()[0] != name_stsd()[0] && name_tkhd()[0] != name_dref()[0] && name_tkhd()[0] != name_mp4a()[0]);
    assert(name_mdhd()[1] != name_moov()[1] && name_mdhd()[0] != name_trak()[0] && name_mdhd()[2] != name_mdia()[2]);
    assert(name_mdhd()[1] != name_minf()[1] && name_mdhd()[0] != name_stbl()[0] && name_mdhd()[0] != name_dinf()[0]);
    assert(name_mdhd()[0] != name_stsd()[0] && name_mdhd()[0] != name_dref()[0] && name_mdhd()[1] != name_mp4a()[1]);
    assert(name_hdlr()[0] != name_moov()[0] && name_hdlr()[0] != name_trak()[0] && name_hdlr()[0] != name_mdia()[0]);
    assert(name_hdlr()[0] != name_minf()[0] && name_hdlr()[0] != name_stbl()[0] && name_hdlr()[0] != name_dinf()[0]);
    assert(name_hdlr()[0] != name_stsd()[0] && name_hdlr()[0] != name_dref()[0] && name_hdlr()[0] != name_mp4a()[0]);
    assert(name_smhd()[0] != name_moov()[0] && name_smhd()[0] != name_trak()[0] && name_smhd()[0] != name_mdia()[0]);
    assert(name_smhd()[0] != name_minf()[0] && name_smhd()[1] != name_stbl()[1] && name_smhd()[0] != name_dinf()[0]);
    assert(name_smhd()[1] != name_stsd()[1] && name_smhd()[0] != name_dref()[0] && name_smhd()[0] != name_mp4a()[0]);
    assert(name_url()[0] != name_moov()[0] && name_url()[0] != name_trak()[0] && name_url()[0] != name_mdia()[0]);
    assert(name_url()[0] != name_minf()[0] && name_url()[0] != name_stbl()[0] && name_url()[0] != name_dinf()[0]);
    assert(name_url()[0] != name_stsd()[0] && name_url()[0] != name_dref()[0] && name_url()[0] != name_mp4a()[0]);
    assert(name_stts()[0] != name_moov()[0] && name_stts()[0] != name_trak()[0] && name_stts()[0] != name_mdia()[0]);
    assert(name_stts()[0] != name_minf()[0] && name_stts()[2] != name_stbl()[2] && name_stts()[0] != name_dinf()[0]);
    assert(name_stts()[2] != name_stsd()[2] && name_stts()[0] != name_dref()[0] && name_stts()[0] != name_mp4a()[0]);
    assert(name_stsc()[0] != name_moov()[0] && name_stsc()[0] != name_trak()[0] && name_stsc()[0] != name_mdia()[0]);
    assert(name_stsc()[0] != name_minf()[0] && name_stsc()[2] != name_stbl()[2] && name_stsc()[0] != name_dinf()[0]);
    assert(name_stsc()[3] != name_stsd()[3] && name_stsc()[0] != name_dref()[0] && name_stsc()[0] != name_mp4a()[0]);
    assert(name_stco()[0] != name_moov()[0] && name_stco()[0] != name_trak()[0] && name_stco()[0] != name_mdia()[0]);
    assert(name_stco()[0] != name_minf()[0] && name_stco()[2] != name_stbl()[2] && name_stco()[0] != name_dinf()[0]);
    assert(name_stco()[2] != name_stsd()[2] && name_stco()[0] != name_dref()[0] && name_stco()[0] != name_mp4a()[0]);
    assert(name_esds()[0] != name_moov()[0] && name_esds()[0] != name_trak()[0] && name_esds()[0] != name_mdia()[0]);
    assert(name_esds()[0] != name_minf()[0] && name_esds()[0] != name_stbl()[0] && name_esds()[0] != name_dinf()[0]);
    assert(name_esds()[0] != name_stsd()[0] && name_esds()[0] != name_dref()[0] && name_esds()[0] != name_mp4a()[0]);
    assert(name_stsz()[0] != name_moov()[0] && name_stsz()[0] != name_trak()[0] && name_stsz()[0] != name_mdia()[0]);
    assert(name_stsz()[0] != name_minf()[0] && name_stsz()[2] != name_stbl()[2] && name_stsz()[0] != name_dinf()[0]);
    assert(name_stsz()[3] != name_stsd()[3] && name_stsz()[0] != name_dref()[0] && name_stsz()[0] != name_mp4a()[0]);
    assert(name_stsd()[0] != name_moov()[0] && name_stsd()[0] != name_trak()[0] && name_stsd()[0] != name_mdia()[0]);
    assert(name_stsd()[0] != name_minf()[0] && name_stsd()[2] != name_stbl()[2] && name_stsd()[0] != name_dinf()[0]);
    assert(name_dref()[1] != name_moov()[1] && name_dref()[0] != name_trak()[0] && name_dref()[0] != name_mdia()[0]);
    assert(name_dref()[0] != name_minf()[0] && name_dref()[0] != name_stbl()[0] && name_dref()[1] != name_dinf()[1]);
    assert(name_dref()[0] != name_stsd()[0]);
    assert(name_mp4a()[1] != name_moov()[1] && name_mp4a()[0] != name_trak()[0] && name_mp4a()[1] != name_mdia()[1]);
    assert(name_mp4a()[1] != name_minf()[1] && name_mp4a()[0] != name_stbl()[0] && name_mp4a()[0] != name_dinf()[0]);
    assert(name_mp4a()[0] != name_stsd()[0] && name_mp4a()[0] != name_dref()[0]);
}

} // verus!

verus! {

/// The searched names differ from every other box name of the layout.
proof fn lemma_target_names()
    ensures
        name_esds() != name_stsz() && name_stsz() != name_esds(),
        name_ftyp() != mdat_name() && name_ftyp() != name_stsz() && name_ftyp() != name_esds(),
        mdat_name() != name_stsz() && mdat_name() != name_esds(),
        name_moov() != name_stsz() && name_moov() != name_esds(),
        name_mvhd() != name_stsz() && name_mvhd() != name_esds(),
        name_trak() != name_stsz() && name_trak() != name_esds(),
        name_tkhd() != name_stsz() && name_tkhd() != name_esds(),
        name_mdia() != name_stsz() && name_mdia() != name_esds(),
        name_mdhd() != name_stsz() && name_mdhd() != name_esds(),
        name_hdlr() != name_stsz() && name_hdlr() != name_esds(),
        name_minf() != name_stsz() && name_minf() != name_esds(),
        name_smhd() != name_stsz() && name_smhd() != name_esds(),
        name_dinf() != name_stsz() && name_dinf() != name_esds(),
        name_dref() != name_stsz() && name_dref() != name_esds(),
        name_url() != name_stsz() && name_url() != name_esds(),
        name_stbl() != name_stsz() && name_stbl() != name_esds(),
        name_stsd() != name_stsz() && name_stsd() != name_esds(),
        name_mp4a() != name_stsz() && name_mp4a() != name_esds(),
        name_stts() != name_stsz() && name_stsc() != name_stsz(),
{
    assert(name_esds()[0] != name_stsz()[0]);
    assert(name_ftyp()[0] != mdat_name()[0] && name_ftyp()[0] != name_stsz()[0] && name_ftyp()[0] != name_esds()[0]);
    assert(mdat_name()[0] != name_stsz()[0] && mdat_name()[0] != name_esds()[0]);
    assert(name_moov()[0] != name_stsz()[0] && name_moov()[0] != name_esds()[0]);
    assert(name_mvhd()[0] != name_stsz()[0] && name_mvhd()[0] != name_esds()[0]);
    assert(name_trak()[0] != name_stsz()[0] && name_trak()[0] != name_esds()[0]);
    assert(name_tkhd()[0] != name_stsz()[0] && name_tkhd()[0] != name_esds()[0]);
    assert(name_mdia()[0] != name_stsz()[0] && name_mdia()[0] != name_esds()[0]);
    assert(name_mdhd()[0] != name_stsz()[0] && name_mdhd()[0] != name_esds()[0]);
    assert(name_hdlr()[0] != name_stsz()[0] && name_hdlr()[0] != name_esds()[0]);
    assert(name_minf()[0] != name_stsz()[0] && name_minf()[0] != name_esds()[0]);
    assert(name_smhd()[1] != name_stsz()[1] && name_smhd()[0] != name_esds()[0]);
    assert(name_dinf()[0] != name_stsz()[0] && name_dinf()[0] != name_esds()[0]);
    assert(name_dref()[0] != name_stsz()[0] && name_dref()[0] != name_esds()[0]);
    assert(name_url()[0] != name_stsz()[0] && name_url()[0] != name_esds()[0]);
    assert(name_stbl()[2] != name_stsz()[2] && name_stbl()[0] != name_esds()[0]);
    assert(name_stsd()[3] != name_stsz()[3] && name_stsd()[0] != name_esds()[0]);
    assert(name_mp4a()[0] != name_stsz()[0] && name_mp4a()[0] != name_esds()[0]);
    assert(name_stts()[2] != name_stsz()[2] && name_stsc()[3] != name_stsz()[3]);
}

/// The inner payload of the `esds` full box.
pub open spec fn esds_inner(asc: Seq<u8>) -> Seq<u8> {
    seq![0u8] + be_bytes(0, 3) + esds_payload(asc)
}

/// The inner payload of the `stsz` full box.
pub open spec fn stsz_inner(sizes: Seq<u32>) -> Seq<u8> {
    seq![0u8] + be_bytes(0, 3) + stsz_payload(sizes)
}

/// The children of the sample table.
pub open spec fn stbl_children(sample_rate: u32, channels: u8, asc: Seq<u8>, sizes: Seq<u32>, chunk_offset: u32) -> Seq<u8> {
    stsd_spec(sample_rate, channels, asc) + stts_spec(sizes.len()) + stsc_spec(sizes.len())
        + full_box_spec(seq![0x73u8, 0x74, 0x73, 0x7a], 0, 0, stsz_payload(sizes)) + stco_spec(chunk_offset)
}

proof fn lemma_find_in_stsd(sample_rate: u32, channels: u8, asc: Seq<u8>, rest: Seq<u8>)
    requires
        asc.len() == 2,
    ensures
        find_box_from(stsd_spec(sample_rate, channels, asc) + rest, name_esds(), 0) == Some(esds_inner(asc)),
        find_box_from(stsd_spec(sample_rate, channels, asc) + rest, name_stsz(), 0) == find_box_from(rest, name_stsz(), 0),
{
    reveal(stsd_spec);
    reveal(esds_spec);
    lemma_leaf_names();
    lemma_target_names();
    lemma_stbl_len(sample_rate, channels, asc, seq![], 0);
    lemma_be_bytes_unfold(0);
    lemma_be_bytes_unfold(1);
    lemma_be_bytes_len(channels as nat, 2);
    lemma_be_bytes_len(16, 2);
    lemma_be_bytes_len(((sample_rate % 0x1_0000) * 0x1_0000) as nat, 4);
    let ei = esds_inner(asc);
    let esds_b = mp4_box(name_esds(), ei);
    let entry = mp4a_entry(sample_rate, channels, asc);
    let mp4a_b = mp4_box(name_mp4a(), entry);
    let stsd_inner = seq![0u8] + be_bytes(0, 3) + (be_bytes(1, 4) + mp4a_b);
    lemma_box_len(name_esds(), ei);
    lemma_box_len(name_mp4a(), entry);
    assert(entry.subrange(28, entry.len() as int) =~= esds_b + Seq::<u8>::empty());
    lemma_find_hit(name_esds(), ei, Seq::<u8>::empty());
    lemma_find_leaf(name_esds(), ei, Seq::<u8>::empty(), name_stsz());
    lemma_find_nil(name_stsz());
    assert(stsd_inner.subrange(8, stsd_inner.len() as int) =~= mp4a_b + Seq::<u8>::empty());
    lemma_find_offset(name_mp4a(), entry, Seq::<u8>::empty(), name_esds(), 28);
    lemma_find_offset(name_mp4a(), entry, Seq::<u8>::empty(), name_stsz(), 28);
    lemma_find_offset(name_stsd(), stsd_inner, rest, name_esds(), 8);
    lemma_find_offset(name_stsd(), stsd_inner, rest, name_stsz(), 8);
}

} // verus!

verus! {

proof fn lemma_find_in_stbl(sample_rate: u32, channels: u8, asc: Seq<u8>, sizes: Seq<u32>, chunk_offset: u32)
    requires
        asc.len() == 2,
        sizes.len() * 1024 <= u32::MAX,
    ensures
        find_box_from(stbl_children(sample_rate, channels, asc, sizes, chunk_offset), name_esds(), 0) == Some(
            esds_inner(asc),
        ),
        find_box_from(stbl_children(sample_rate, channels, asc, sizes, chunk_offset), name_stsz(), 0) == Some(
            stsz_inner(sizes),
        ),
        stbl_spec(sample_rate, channels, asc, sizes, chunk_offset) == mp4_box(
            name_stbl(),
            stbl_children(sample_rate, channels, asc, sizes, chunk_offset),
        ),
{
    reveal(stbl_spec);
    reveal(stts_spec);
    reveal(stsc_spec);
    reveal(stco_spec);
    lemma_leaf_names();
    lemma_target_names();
    lemma_be_bytes_unfold(0);
    lemma_be_bytes_len(sizes.len(), 4);
    lemma_be_bytes_len(AAC_SAMPLE_DURATION as nat, 4);
    lemma_be_bytes_len(1, 4);
    lemma_be_bytes_len(chunk_offset as nat, 4);
    lemma_be_u32s_len(sizes);
    let stsd_b = stsd_spec(sample_rate, channels, asc);
    let stts_inner = seq![0u8] + be_bytes(0, 3) + (be_bytes(1, 4) + be_bytes(sizes.len(), 4) + be_bytes(AAC_SAMPLE_DURATION as nat, 4));
    let stsc_inner = seq![0u8] + be_bytes(0, 3) + (be_bytes(1, 4) + be_bytes(1, 4) + be_bytes(sizes.len(), 4) + be_bytes(1, 4));
    let stco_inner = seq![0u8] + be_bytes(0, 3) + (be_bytes(1, 4) + be_bytes(chunk_offset as nat, 4));
    let stts_b = mp4_box(name_stts(), stts_inner);
    let stsc_b = mp4_box(name_stsc(), stsc_inner);
    let stsz_b = mp4_box(name_stsz(), stsz_inner(sizes));
    let stco_b = mp4_box(name_stco(), stco_inner);
    let children = stbl_children(sample_rate, channels, asc, sizes, chunk_offset);
    assert(children =~= stsd_b + (stts_b + (stsc_b + (stsz_b + stco_b))));
    lemma_find_in_stsd(sample_rate, channels, asc, stts_b + (stsc_b + (stsz_b + stco_b)));
    lemma_find_leaf(name_stts(), stts_inner, stsc_b + (stsz_b + stco_b), name_stsz());
    lemma_find_leaf(name_stsc(), stsc_inner, stsz_b + stco_b, name_stsz());
    lemma_find_hit(name_stsz(), stsz_inner(sizes), stco_b);
}

} // verus!

verus! {

proof fn lemma_find_past_dinf(rest: Seq<u8>, t: Seq<u8>)
    requires
        t == name_esds() || t == name_stsz(),
    ensures
        find_box_from(dinf_spec() + rest, t, 0) == find_box_from(rest, t, 0),
{
    reveal(dinf_spec);
    lemma_leaf_names();
    lemma_target_names();
    lemma_be_bytes_unfold(0);
    lemma_be_bytes_unfold(1);
    lemma_be_bytes_len(1, 4);
    let url_inner = seq![0u8] + be_bytes(1, 3) + Seq::<u8>::empty();
    let url_b = mp4_box(name_url(), url_inner);
    let dref_inner = seq![0u8] + be_bytes(0, 3) + (be_bytes(1, 4) + url_b);
    let dref_b = mp4_box(name_dref(), dref_inner);
    lemma_box_len(name_url(), url_inner);
    lemma_box_len(name_dref(), dref_inner);
    assert(dref_inner.subrange(8, dref_inner.len() as int) =~= url_b + Seq::<u8>::empty());
    lemma_find_leaf(name_url(), url_inner, Seq::<u8>::empty(), t);
    lemma_find_nil(t);
    lemma_find_offset(name_dref(), dref_inner, Seq::<u8>::empty(), t, 8);
    assert(dref_b + Seq::<u8>::empty() =~= dref_b);
    lemma_find_container(name_dinf(), dref_b, rest, t);
}

/// The children of the media information box.
pub open spec fn minf_children(sample_rate: u32, channels: u8, asc: Seq<u8>, sizes: Seq<u32>, chunk_offset: u32) -> Seq<u8> {
    smhd_spec() + dinf_spec() + stbl_spec(sample_rate, channels, asc, sizes, chunk_offset)
}

proof fn lemma_find_in_minf(sample_rate: u32, channels: u8, asc: Seq<u8>, sizes: Seq<u32>, chunk_offset: u32)
    requires
        asc.len() == 2,
        sizes.len() * 1024 <= u32::MAX,
    ensures
        find_box_from(minf_children(sample_rate, channels, asc, sizes, chunk_offset), name_esds(), 0) == Some(
            esds_inner(asc),
        ),
        find_box_from(minf_children(sample_rate, channels, asc, sizes, chunk_offset), name_stsz(), 0) == Some(
            stsz_inner(sizes),
        ),
{
    reveal(smhd_spec);
    lemma_leaf_names();
    lemma_target_names();
    lemma_be_bytes_unfold(0);
    lemma_find_in_stbl(sample_rate, channels, asc, sizes, chunk_offset);
    lemma_stbl_len(sample_rate, channels, asc, sizes, chunk_offset);
    lemma_box_len(name_stbl(), stbl_children(sample_rate, channels, asc, sizes, chunk_offset));
    let stbl_b = stbl_spec(sample_rate, channels, asc, sizes, chunk_offset);
    let smhd_inner = seq![0u8] + be_bytes(0, 3) + zeros(4);
    let children = minf_children(sample_rate, channels, asc, sizes, chunk_offset);
    assert(children =~= mp4_box(name_smhd(), smhd_inner) + (dinf_spec() + (stbl_b + Seq::<u8>::empty())));
    lemma_find_nil(name_esds());
    lemma_find_nil(name_stsz());
    lemma_find_container(name_stbl(), stbl_children(sample_rate, channels, asc, sizes, chunk_offset), Seq::<u8>::empty(), name_esds());
    lemma_find_container(name_stbl(), stbl_children(sample_rate, channels, asc, sizes, chunk_offset), Seq::<u8>::empty(), name_stsz());
    lemma_find_past_dinf(stbl_b + Seq::<u8>::empty(), name_esds());
    lemma_find_past_dinf(stbl_b + Seq::<u8>::empty(), name_stsz());
    lemma_find_leaf(name_smhd(), smhd_inner, dinf_spec() + (stbl_b + Seq::<u8>::empty()), name_esds());
    lemma_find_leaf(name_smhd(), smhd_inner, dinf_spec() + (stbl_b + Seq::<u8>::empty()), name_stsz());
}

} // verus!

verus! {

proof fn lemma_find_in_moov(sample_rate: u32, channels: u8, asc: Seq<u8>, sizes: Seq<u32>, chunk_offset: u32, t: Seq<u8>)
    requires
        asc.len() == 2,
        sizes.len() * 1024 <= u32::MAX,
        t == name_esds() || t == name_stsz(),
    ensures
        find_box_from(moov_spec(sample_rate, channels, asc, sizes, chunk_offset), t, 0) == find_box_from(
            minf_children(sample_rate, channels, asc, sizes, chunk_offset),
            t,
            0,
        ),
{
    reveal(minf_spec);
    reveal(mdia_spec);
    reveal(trak_spec);
    reveal(moov_spec);
    reveal(mdhd_spec);
    reveal(hdlr_spec);
    reveal(tkhd_spec);
    reveal(mvhd_spec);
    lemma_leaf_names();
    lemma_target_names();
    lemma_be_bytes_unfold(0);
    let dur = duration_of(sizes.len());
    lemma_fixed_box_lens(sample_rate, dur);
    lemma_minf_len(sample_rate, channels, asc, sizes, chunk_offset);
    lemma_mdia_len(sample_rate, channels, asc, sizes, chunk_offset);
    let minf_c = minf_children(sample_rate, channels, asc, sizes, chunk_offset);
    let minf_b = mp4_box(name_minf(), minf_c);
    assert(minf_spec(sample_rate, channels, asc, sizes, chunk_offset) == minf_b);
    let mdhd_inner = seq![0u8] + be_bytes(0, 3) + (be_bytes(0, 4) + be_bytes(0, 4) + be_bytes(sample_rate as nat, 4)
        + be_bytes(dur as nat, 4) + be_bytes(0x55c4, 2) + be_bytes(0, 2));
    let hdlr_inner = seq![0u8] + be_bytes(0, 3) + (be_bytes(0, 4) + seq![0x73u8, 0x6f, 0x75, 0x6e] + be_bytes(0, 4)
        + be_bytes(0, 4) + be_bytes(0, 4) + seq![0x53u8, 0x6f, 0x75, 0x6e, 0x64, 0x48, 0x61, 0x6e, 0x64, 0x6c, 0x65, 0x72, 0x00]);
    let mdia_c = mp4_box(name_mdhd(), mdhd_inner) + (mp4_box(name_hdlr(), hdlr_inner) + (minf_b + Seq::<u8>::empty()));
    assert(mdia_spec(sample_rate, channels, asc, sizes, chunk_offset) =~= mp4_box(name_mdia(), mdia_c));
    let tkhd_inner = seq![0u8] + be_bytes(7, 3) + tkhd_payload(dur);
    let mdia_b = mp4_box(name_mdia(), mdia_c);
    let trak_c = mp4_box(name_tkhd(), tkhd_inner) + (mdia_b + Seq::<u8>::empty());
    assert(trak_spec(sample_rate, channels, asc, sizes, chunk_offset) =~= mp4_box(name_trak(), trak_c));
    let trak_b = mp4_box(name_trak(), trak_c);
    let mvhd_inner = seq![0u8] + be_bytes(0, 3) + mvhd_payload(sample_rate, dur);
    let moov_c = mp4_box(name_mvhd(), mvhd_inner) + (trak_b + Seq::<u8>::empty());
    assert(moov_spec(sample_rate, channels, asc, sizes, chunk_offset) =~= mp4_box(name_moov(), moov_c) + Seq::<u8>::empty());
    lemma_find_nil(t);
    lemma_box_len(name_minf(), minf_c);
    lemma_box_len(name_mdia(), mdia_c);
    lemma_box_len(name_trak(), trak_c);
    lemma_box_len(name_moov(), moov_c);
    lemma_find_in_minf(sample_rate, channels, asc, sizes, chunk_offset);
    lemma_find_container(name_minf(), minf_c, Seq::<u8>::empty(), t);
    lemma_find_leaf(name_hdlr(), hdlr_inner, minf_b + Seq::<u8>::empty(), t);
    lemma_find_leaf(name_mdhd(), mdhd_inner, mp4_box(name_hdlr(), hdlr_inner) + (minf_b + Seq::<u8>::empty()), t);
    lemma_find_container(name_mdia(), mdia_c, Seq::<u8>::empty(), t);
    lemma_find_leaf(name_tkhd(), tkhd_inner, mdia_b + Seq::<u8>::empty(), t);
    lemma_find_container(name_trak(), trak_c, Seq::<u8>::empty(), t);
    lemma_find_leaf(name_mvhd(), mvhd_inner, trak_b + Seq::<u8>::empty(), t);
    lemma_find_container(name_moov(), moov_c, Seq::<u8>::empty(), t);
}

} // verus!

verus! {

/// The file the muxer writes for frames `frames`.
pub open spec fn muxed_file(frames: Seq<AdtsModel>) -> Seq<u8> {
    let first = frames[0];
    ftyp_spec() + mp4_box(mdat_name(), frame_payloads(frames)) + moov_spec(
        sample_rate_table(first.sample_rate_index as int),
        first.channels,
        asc_bytes(first.profile, first.sample_rate_index, first.channels),
        frame_sizes(frames),
        32,
    )
}

proof fn lemma_find_in_file(frames: Seq<AdtsModel>)
    requires
        frames.len() > 0,
        frames.len() * 1024 <= u32::MAX,
        frame_payloads(frames).len() + 8 <= u32::MAX,
    ensures
        ({
            let first = frames[0];
            let asc = asc_bytes(first.profile, first.sample_rate_index, first.channels);
            let file = muxed_file(frames);
            &&& find_box_from(file, mdat_name(), 0) == Some(frame_payloads(frames))
            &&& find_box_from(file, name_esds(), 0) == Some(esds_inner(asc))
            &&& find_box_from(file, name_stsz(), 0) == Some(stsz_inner(frame_sizes(frames)))
        }),
{
    reveal(ftyp_spec);
    let first = frames[0];
    let sr = sample_rate_table(first.sample_rate_index as int);
    let asc = asc_bytes(first.profile, first.sample_rate_index, first.channels);
    let sizes = frame_sizes(frames);
    let p = frame_payloads(frames);
    lemma_leaf_names();
    lemma_target_names();
    lemma_be_bytes_unfold(0);
    let ftyp_inner = seq![0x4du8, 0x34, 0x41, 0x20] + be_bytes(0, 4) + seq![0x4du8, 0x34, 0x41, 0x20] + seq![0x6du8, 0x70, 0x34, 0x32];
    let moov = moov_spec(sr, first.channels, asc, sizes, 32);
    let mdat_b = mp4_box(mdat_name(), p);
    let file = muxed_file(frames);
    assert(file =~= mp4_box(name_ftyp(), ftyp_inner) + (mdat_b + moov));
    lemma_find_hit(mdat_name(), p, moov);
    lemma_find_leaf(name_ftyp(), ftyp_inner, mdat_b + moov, mdat_name());
    lemma_find_in_moov(sr, first.channels, asc, sizes, 32, name_esds());
    lemma_find_in_moov(sr, first.channels, asc, sizes, 32, name_stsz());
    lemma_find_in_minf(sr, first.channels, asc, sizes, 32);
    lemma_find_leaf(mdat_name(), p, moov, name_esds());
    lemma_find_leaf(mdat_name(), p, moov, name_stsz());
    lemma_find_leaf(name_ftyp(), ftyp_inner, mdat_b + moov, name_esds());
    lemma_find_leaf(name_ftyp(), ftyp_inner, mdat_b + moov, name_stsz());
}

/// The decoder configuration reads back as the fields it was packed from.
proof fn lemma_asc_reads_back(profile: u8, sample_rate_index: u8, channels: u8)
    requires
        1 <= profile <= 4,
        sample_rate_index < 13,
        1 <= channels < 8,
    ensures
        parse_asc_spec(esds_inner(asc_bytes(profile, sample_rate_index, channels))) == Ok::<AudioSpecificConfig, Mp4Error>(
            AudioSpecificConfig { profile, sample_rate_index, channels },
        ),
{
    let asc = asc_bytes(profile, sample_rate_index, channels);
    let p = esds_inner(asc);
    lemma_be_bytes_unfold(0);
    lemma_be_bytes_unfold(1);
    assert(p =~= seq![
        0u8, 0, 0, 0, 0x03, 25, 0, 1, 0, 0x04, 17, 0x40, 0x15, 0, 0, 0, 0, 0, 0, 0, 0, 0, 0, 0, 0x05, 2,
        asc[0], asc[1], 0x06, 0x01, 0x02,
    ]);
    lemma_asc_skip(p, 0, 24);
}

proof fn lemma_asc_skip(p: Seq<u8>, i: int, j: int)
    requires
        0 <= i <= j,
        j + 4 <= p.len(),
        forall|k: int| i <= k < j ==> #[trigger] p[k] != 5,
    ensures
        find_asc_from(p, i) == find_asc_from(p, j),
    decreases j - i,
{
    if i < j {
        lemma_asc_skip(p, i + 1, j);
    }
}

proof fn lemma_be_u32s_entry(values: Seq<u32>, k: int)
    requires
        0 <= k < values.len(),
    ensures
        be_u32s(values).subrange(4 * k, 4 * k + 4) == be_bytes(values[k] as nat, 4),
    decreases values.len(),
{
    let init = values.drop_last();
    lemma_be_u32s_len(init);
    lemma_be_bytes_len(values.last() as nat, 4);
    if k < values.len() - 1 {
        lemma_be_u32s_entry(init, k);
        lemma_be_u32s_len(init);
        assert(be_u32s(values).subrange(4 * k, 4 * k + 4) =~= be_u32s(init).subrange(4 * k, 4 * k + 4));
    } else {
        assert(be_u32s(values).subrange(4 * k, 4 * k + 4) =~= be_bytes(values.last() as nat, 4));
    }
}

/// The sample-size table reads back as the sizes it was written from.
proof fn lemma_stsz_reads_back(sizes: Seq<u32>)
    requires
        sizes.len() * 1024 <= u32::MAX,
    ensures
        parse_stsz_spec(stsz_inner(sizes)) == Ok::<Seq<u32>, Mp4Error>(sizes),
{
    let p = stsz_inner(sizes);
    lemma_be_bytes_unfold(0);
    lemma_be_round_trip(0);
    lemma_be_round_trip(sizes.len() as u32);
    lemma_be_u32s_len(sizes);
    assert(p.subrange(4, 8) =~= be_bytes(0, 4));
    assert(p.subrange(8, 12) =~= be_bytes(sizes.len(), 4));
    let entries = Seq::new(sizes.len(), |k: int| be_value(p.subrange(12 + 4 * k, 16 + 4 * k)) as u32);
    assert forall|k: int| 0 <= k < sizes.len() implies entries[k] == sizes[k] by {
        lemma_be_u32s_entry(sizes, k);
        assert(p.subrange(12 + 4 * k, 16 + 4 * k) =~= be_u32s(sizes).subrange(4 * k, 4 * k + 4));
        lemma_be_round_trip(sizes[k]);
    }
    assert(entries =~= sizes);
}

} // verus!

verus! {

/// The decoder configuration of a frame.
pub open spec fn asc_of(f: AdtsModel) -> AudioSpecificConfig {
    AudioSpecificConfig { profile: f.profile, sample_rate_index: f.sample_rate_index, channels: f.channels }
}

/// The frames with the header the demuxer writes: a 7-byte MPEG-4 ADTS
/// header without CRC, then the access unit.
pub open spec fn adts_reframed(frames: Seq<AdtsModel>) -> Seq<u8>
    decreases frames.len(),
{
    if frames.len() == 0 {
        seq![]
    } else {
        adts_reframed(frames.drop_last()) + adts_header(asc_of(frames.last()), frames.last().payload.len() + 7int)
            + frames.last().payload
    }
}

proof fn lemma_payloads_prefix(frames: Seq<AdtsModel>, k: int)
    requires
        0 <= k <= frames.len(),
    ensures
        frame_payloads(frames).subrange(0, frame_payloads(frames.subrange(0, k)).len() as int)
            == frame_payloads(frames.subrange(0, k)),
        frame_payloads(frames.subrange(0, k)).len() <= frame_payloads(frames).len(),
    decreases frames.len(),
{
    if k < frames.len() {
        lemma_payloads_prefix(frames.drop_last(), k);
        assert(frames.drop_last().subrange(0, k) =~= frames.subrange(0, k));
        let a = frame_payloads(frames.drop_last());
        let b = frame_payloads(frames.subrange(0, k));
        assert((a + frames.last().payload).subrange(0, b.len() as int) =~= a.subrange(0, b.len() as int));
    } else {
        assert(frames.subrange(0, k) =~= frames);
    }
}

proof fn lemma_walk_reframes(frames: Seq<AdtsModel>, asc: AudioSpecificConfig, k: int)
    requires
        0 <= k <= frames.len(),
        forall|i: int| 0 <= i < frames.len() ==> asc_of(#[trigger] frames[i]) == asc,
        forall|i: int| 0 <= i < frames.len() ==> (#[trigger] frames[i]).payload.len() + 7 <= 0x1fff,
        1 <= asc.profile <= 4,
    ensures
        adts_walk(frame_payloads(frames), frame_sizes(frames), asc, k) == Ok::<(Seq<u8>, int), Mp4Error>(
            (adts_reframed(frames.subrange(0, k)), frame_payloads(frames.subrange(0, k)).len() as int),
        ),
    decreases k,
{
    let p = frame_payloads(frames);
    if k == 0 {
        assert(frames.subrange(0, 0) =~= Seq::<AdtsModel>::empty());
    } else {
        lemma_walk_reframes(frames, asc, k - 1);
        let pre = frames.subrange(0, k);
        let prev = frames.subrange(0, k - 1);
        assert(pre.drop_last() =~= prev);
        let f = frames[k - 1];
        assert(pre.last() == f);
        let off = frame_payloads(prev).len() as int;
        lemma_payloads_prefix(frames, k);
        assert(frame_payloads(pre) == frame_payloads(prev) + f.payload);
        assert(frame_sizes(frames)[k - 1] == f.payload.len() as u32);
        assert(p.subrange(off, off + f.payload.len()) =~= frame_payloads(pre).subrange(off, off + f.payload.len()));
        assert(frame_payloads(pre).subrange(off, off + f.payload.len()) =~= f.payload);
        assert(asc_of(frames[k - 1]) == asc);
        assert(frames[k - 1].payload.len() + 7 <= 0x1fff);
        let hdr = adts_header(asc, f.payload.len() + 7int);
        assert(adts_frame_spec(asc, f.payload) == Ok::<Seq<u8>, Mp4Error>(hdr + f.payload));
        assert(adts_reframed(prev) + (hdr + f.payload) =~= adts_reframed(pre));
    }
}

proof fn lemma_adts_total_of(frames: Seq<AdtsModel>)
    requires
        forall|i: int| 0 <= i < frames.len() ==> (#[trigger] frames[i]).payload.len() < 8192,
    ensures
        adts_total(frame_sizes(frames)) == frame_payloads(frames).len() + 7 * frames.len(),
    decreases frames.len(),
{
    if frames.len() > 0 {
        let init = frames.drop_last();
        assert forall|i: int| 0 <= i < init.len() implies (#[trigger] init[i]).payload.len() < 8192 by {
            assert(init[i] == frames[i]);
        }
        lemma_adts_total_of(init);
        assert(frame_sizes(frames).drop_last() =~= frame_sizes(init));
        assert(frames.last() == frames[frames.len() - 1]);
        assert(frame_sizes(frames).last() == frames.last().payload.len() as u32);
    }
}

proof fn lemma_payloads_len_cons(f: AdtsModel, r: Seq<AdtsModel>)
    ensures
        frame_payloads(seq![f] + r).len() == f.payload.len() + frame_payloads(r).len(),
    decreases r.len(),
{
    if r.len() == 0 {
        assert(seq![f] + r =~= seq![f]);
        assert(seq![f].drop_last() =~= Seq::<AdtsModel>::empty());
        assert(seq![f].last() == f);
        assert(frame_payloads(Seq::<AdtsModel>::empty()) =~= Seq::<u8>::empty());
    } else {
        lemma_payloads_len_cons(f, r.drop_last());
        assert((seq![f] + r).drop_last() =~= seq![f] + r.drop_last());
        assert((seq![f] + r).last() == r.last());
    }
}

/// A parsed stream is at least as long as its access units and a 7-byte
/// header for each.
proof fn lemma_parse_len(adts: Seq<u8>)
    ensures
        parse_adts_spec(adts) matches Ok(frames) ==> frame_payloads(frames).len() + 7 * frames.len() <= adts.len(),
    decreases adts.len(),
{
    if adts.len() >= 7 && adts[0] == 0xff && adts[1] >= 0xf0 {
        let frame_len = adts_frame_len(adts);
        if adts_header_len(adts[1]) <= frame_len <= adts.len() {
            let rest = adts.subrange(frame_len, adts.len() as int);
            lemma_parse_len(rest);
            match parse_adts_spec(adts) {
                Ok(frames) => {
                    let r = parse_adts_spec(rest)->Ok_0;
                    let f = frames[0];
                    assert(frames =~= seq![f] + r);
                    lemma_payloads_len_cons(f, r);
                },
                Err(_) => {},
            }
        }
    } else if adts.len() == 0 {
        assert(frame_payloads(Seq::<AdtsModel>::empty()).len() == 0);
    }
}

} // verus!

verus! {

/// Demuxing a file the muxer wrote gives back the ADTS stream, each frame
/// with the header the demuxer writes (a 7-byte MPEG-4 header without CRC):
/// a stream already in that form comes back unchanged.
pub proof fn lemma_demux_mux_round_trip(adts: Seq<u8>)
    requires
        adts.len() <= usize::MAX,
        mux_aac_spec(adts) is Ok,
    ensures
        parse_adts_spec(adts) is Ok,
        demux_aac_spec(mux_aac_spec(adts)->Ok_0) == Ok::<Seq<u8>, Mp4Error>(
            adts_reframed(parse_adts_spec(adts)->Ok_0),
        ),
        adts_reframed(parse_adts_spec(adts)->Ok_0) == adts ==> demux_aac_spec(mux_aac_spec(adts)->Ok_0)
            == Ok::<Seq<u8>, Mp4Error>(adts),
{
    let frames = parse_adts_spec(adts)->Ok_0;
    let first = frames[0];
    let asc = asc_of(first);
    let p = frame_payloads(frames);
    let sizes = frame_sizes(frames);
    lemma_adts_bounds(adts);
    assert(forall|i: int| 0 <= i < frames.len() ==> same_params(#[trigger] frames[i], frames[0]));
    assert(forall|i: int| 0 <= i < frames.len() ==> asc_of(#[trigger] frames[i]) == asc) by {
        assert forall|i: int| 0 <= i < frames.len() implies asc_of(#[trigger] frames[i]) == asc by {
            assert(same_params(frames[i], frames[0]));
        }
    }
    assert(frames.len() * 1024 <= u32::MAX);
    assert(mux_aac_spec(adts)->Ok_0 == muxed_file(frames));
    lemma_find_in_file(frames);
    lemma_asc_reads_back(first.profile, first.sample_rate_index, first.channels);
    lemma_stsz_reads_back(sizes);
    lemma_adts_total_of(frames);
    lemma_parse_len(adts);
    lemma_walk_reframes(frames, asc, frames.len() as int);
    assert(frames.subrange(0, frames.len() as int) =~= frames);
}

/// The movie header's time scale sits in the four big-endian bytes at box
/// offset 20 (payload offset 8, after the creation and modification times)
/// and its duration in the four after them; the media header puts its time
/// scale and duration at the same offsets.
pub proof fn lemma_movie_header_fields(timescale: u32, duration: u32)
    ensures
        mvhd_spec(timescale, duration).subrange(4, 8) == name_mvhd(),
        be_value(mvhd_spec(timescale, duration).subrange(20, 24)) == timescale,
        be_value(mvhd_spec(timescale, duration).subrange(24, 28)) == duration,
        mvhd_spec(timescale, duration).subrange(20, 28) == mdhd_spec(timescale, duration).subrange(20, 28),
{
    reveal(mvhd_spec);
    reveal(mdhd_spec);
    lemma_be_round_trip(timescale);
    lemma_be_round_trip(duration);
    lemma_be_bytes_unfold(0);
    lemma_be_bytes_len(0, 3);
    let p = mvhd_payload(timescale, duration);
    let head = be_bytes(0, 4) + be_bytes(0, 4) + be_bytes(timescale as nat, 4) + be_bytes(duration as nat, 4);
    let rest = be_bytes(0x0001_0000, 4) + be_bytes(0x0100, 2) + be_bytes(0, 2) + be_bytes(0, 4) + be_bytes(0, 4)
        + unity_matrix() + zeros(24) + be_bytes(2, 4);
    assert(p =~= head + rest);
    assert(head.len() == 16);
    let pre = seq![0u8] + be_bytes(0, 3);
    let body = pre + p;
    lemma_be_bytes_len((body.len() + 8) as nat, 4);
    let m = mvhd_spec(timescale, duration);
    assert(m == be_bytes((body.len() + 8) as nat, 4) + name_mvhd() + body);
    assert(m.subrange(4, 8) =~= name_mvhd());
    assert(m.subrange(20, 24) =~= be_bytes(timescale as nat, 4));
    assert(m.subrange(24, 28) =~= be_bytes(duration as nat, 4));
    let mp = be_bytes(0, 4) + be_bytes(0, 4) + be_bytes(timescale as nat, 4) + be_bytes(duration as nat, 4)
        + be_bytes(0x55c4, 2) + be_bytes(0, 2);
    let mbody = pre + mp;
    lemma_be_bytes_len((mbody.len() + 8) as nat, 4);
    let h = mdhd_spec(timescale, duration);
    assert(h == be_bytes((mbody.len() + 8) as nat, 4) + name_mdhd() + mbody);
    assert(h.subrange(20, 28) =~= be_bytes(timescale as nat, 4) + be_bytes(duration as nat, 4));
    assert(m.subrange(20, 28) =~= be_bytes(timescale as nat, 4) + be_bytes(duration as nat, 4));
}

/// A muxed file's movie header, which opens the `moov` box right after the
/// file-type box and the media data, carries the stream's sample rate as its
/// time scale and 1024 samples per frame as its duration.
pub proof fn lemma_mux_aac_movie_header(adts: Seq<u8>)
    requires
        mux_aac_spec(adts) is Ok,
    ensures
        ({
            let out = mux_aac_spec(adts)->Ok_0;
            let frames = parse_adts_spec(adts)->Ok_0;
            let m: int = 40 + frame_payloads(frames).len() as int;
            &&& out.subrange(m + 4, m + 8) == name_mvhd()
            &&& be_value(out.subrange(m + 20, m + 24)) == sample_rate_table(frames[0].sample_rate_index as int)
            &&& be_value(out.subrange(m + 24, m + 28)) == frames.len() * 1024
        }),
{
    let frames = parse_adts_spec(adts)->Ok_0;
    let first = frames[0];
    let payload = frame_payloads(frames);
    let sizes = frame_sizes(frames);
    let rate = sample_rate_table(first.sample_rate_index as int);
    let asc = asc_bytes(first.profile, first.sample_rate_index, first.channels);
    assert(sizes.len() == frames.len());
    let dur = duration_of(sizes.len());
    assert(dur == frames.len() * 1024);
    reveal(ftyp_spec);
    reveal(moov_spec);
    lemma_be_bytes_unfold(0);
    lemma_box_len(seq![0x66u8, 0x74, 0x79, 0x70], seq![0x4du8, 0x34, 0x41, 0x20] + be_bytes(0, 4) + seq![0x4du8, 0x34, 0x41, 0x20] + seq![0x6du8, 0x70, 0x34, 0x32]);
    assert(ftyp_spec().len() == 24);
    lemma_box_len(mdat_name(), payload);
    let mvhd = mvhd_spec(rate, dur);
    let trak = trak_spec(rate, first.channels, asc, sizes, 32);
    lemma_be_bytes_len((mvhd.len() + trak.len() + 8) as nat, 4);
    let moov = moov_spec(rate, first.channels, asc, sizes, 32);
    assert(moov == be_bytes(((mvhd + trak).len() + 8) as nat, 4) + seq![0x6du8, 0x6f, 0x6f, 0x76] + (mvhd + trak));
    let out = mux_aac_spec(adts)->Ok_0;
    let lead = ftyp_spec() + mp4_box(mdat_name(), payload) + be_bytes(((mvhd + trak).len() + 8) as nat, 4)
        + seq![0x6du8, 0x6f, 0x6f, 0x76];
    assert(out =~= lead + mvhd + trak);
    let m: int = 40 + payload.len() as int;
    assert(lead.len() == m);
    lemma_movie_header_fields(rate, dur);
    lemma_full_box_len(name_mvhd(), 0, 0, mvhd_payload(rate, dur));
    reveal(mvhd_spec);
    assert(mvhd.len() >= 28);
    assert(out.subrange(m + 4, m + 8) =~= mvhd.subrange(4, 8));
    assert(out.subrange(m + 20, m + 24) =~= mvhd.subrange(20, 24));
    assert(out.subrange(m + 24, m + 28) =~= mvhd.subrange(24, 28));
}

} // verus!
