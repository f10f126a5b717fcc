//! The post-filter section of the CELT frame header: an on/off flag, then the
//! pitch period (octave and in-octave bits), the 3-bit gain index and the
//! tapset.
use crate::range_coder::{
    dec_bit_logp_spec, dec_bits_spec, dec_icdf_spec, dec_uint_spec, ec_ilog, enc_bit_logp_spec,
    enc_bits_spec, enc_icdf_spec, enc_uint_spec, ilog, lemma_ilog_monotone, lemma_ilog_unique,
    DecState, EncState, RangeDecoder, RangeEncoder, EC_NBITS_LIMIT,
};
use crate::celt_frame::{dec_after, gated_ops, stream_ok};
use crate::range_coder::{enc_new_spec, enc_ops_all, dec_ops_all, lemma_ops_agree, CodedOp};
use crate::round_trip::{
    lemma_enc_ops_split, lemma_reads_back_split, lemma_single_call, lemma_stretch_round_trip,
    lemma_uint_reads_back, uint_ops,
};
use vstd::arithmetic::power2::*;
use vstd::bits::*;
use vstd::prelude::*;

verus! {

/// Shortest pitch period the comb filter uses.
pub const COMBFILTER_MINPERIOD: i32 = 15;

/// Longest pitch period the comb filter uses.
pub const COMBFILTER_MAXPERIOD: i32 = 1024;

/// The post-filter parameters a frame carries. The filter gain is
/// `0.09375 * (qg + 1)`; it is fixed by `qg`.
#[derive(Debug, Clone, Copy, PartialEq, Eq, Structural)]
pub struct PostfilterParams {
    /// Whether the post-filter is enabled for this frame.
    pub pf_on: bool,
    /// The pitch period in full-rate samples.
    pub pitch_index: i32,
    /// The 3-bit quantised gain index.
    pub qg: i32,
    /// The selected tapset.
    pub tapset: usize,
}

impl PostfilterParams {
    /// Parameters that can be written: a pitch period in
    /// `COMBFILTER_MINPERIOD ..= COMBFILTER_MAXPERIOD - 2`, a gain index in
    /// `0..=7` and a tapset in `0..=2`.
    pub open spec fn codable(self) -> bool {
        &&& COMBFILTER_MINPERIOD <= self.pitch_index <= COMBFILTER_MAXPERIOD - 2
        &&& 0 <= self.qg <= 7
        &&& self.tapset <= 2
    }
}

/// `tapset_icdf`: the inverse CDF of the three tapsets.
pub open spec fn tapset_icdf() -> Seq<u8> {
    seq![2u8, 1u8, 0u8]
}

/// The octave of the pitch period `pitch_index`: the period plus one lies in
/// `[16 << octave, 32 << octave)`.
pub open spec fn pitch_octave(pitch_index: int) -> int {
    ilog((pitch_index + 1) as nat) - 5
}

/// What [`encode_postfilter`] writes.
pub open spec fn encode_postfilter_spec(
    e: EncState,
    pf: PostfilterParams,
    start: int,
    total_bits: int,
) -> EncState {
    if start != 0 {
        e
    } else if !pf.pf_on {
        if e.tell() + 16 <= total_bits {
            enc_bit_logp_spec(e, false, 1)
        } else {
            e
        }
    } else {
        let octave = pitch_octave(pf.pitch_index as int);
        let e1 = enc_bit_logp_spec(e, true, 1);
        let e2 = enc_uint_spec(e1, octave as u32, 6);
        let e3 = enc_bits_spec(
            e2,
            (pf.pitch_index + 1 - 16 * pow2(octave as nat)) as u32,
            (4 + octave) as u32,
        );
        let e4 = enc_bits_spec(e3, pf.qg as u32, 3);
        enc_icdf_spec(e4, pf.tapset as int, tapset_icdf(), 2)
    }
}

/// What [`decode_postfilter`] reads, and the parameters it returns.
pub open spec fn decode_postfilter_spec(d: DecState, start: int, total_bits: int) -> (
    DecState,
    Option<PostfilterParams>,
) {
    if start != 0 || d.tell() + 16 > total_bits {
        (d, None)
    } else {
        let (d1, on) = dec_bit_logp_spec(d, 1);
        if !on {
            (d1, None)
        } else {
            let (d2, octave) = dec_uint_spec(d1, 6);
            let (d3, low) = dec_bits_spec(d2, (4 + octave) as u32);
            let (d4, qg) = dec_bits_spec(d3, 3);
            let (d5, tapset) = if d4.tell() + 2 <= total_bits {
                dec_icdf_spec(d4, tapset_icdf(), 2)
            } else {
                (d4, 0)
            };
            (
                d5,
                Some(
                    PostfilterParams {
                        pf_on: true,
                        pitch_index: (16 * pow2(octave as nat) + low - 1) as i32,
                        qg: qg as i32,
                        tapset: tapset as usize,
                    },
                ),
            )
        }
    }
}

/// The octave of a codable pitch period is in `0..=5`, and the period plus
/// one is `16 << octave` plus fewer than `4 + octave` bits.
proof fn lemma_pitch_octave(pitch_index: int)
    requires
        COMBFILTER_MINPERIOD <= pitch_index <= COMBFILTER_MAXPERIOD - 2,
    ensures
        0 <= pitch_octave(pitch_index) <= 5,
        16 * pow2(pitch_octave(pitch_index) as nat) <= pitch_index + 1,
        pitch_index + 1 - 16 * pow2(pitch_octave(pitch_index) as nat) < pow2(
            (4 + pitch_octave(pitch_index)) as nat,
        ),
{
    let p1 = (pitch_index + 1) as nat;
    lemma2_to64();
    lemma_ilog_unique(16, 5);
    lemma_ilog_unique(1023, 10);
    lemma_ilog_monotone(16, p1);
    lemma_ilog_monotone(p1, 1023);
    crate::range_coder::lemma_ilog_bounds(p1);
    let n = ilog(p1);
    let oct = (n - 5) as nat;
    lemma_pow2_adds(4, oct);
    lemma_pow2_adds(5, oct);
    assert(pow2((n - 1) as nat) == pow2(4 + oct));
    assert(pow2(n) == pow2(5 + oct));
}

/// Writes the post-filter section of the frame header. It exists only at
/// `start == 0`. With the filter off it is a single "off" flag, written only
/// when at least 16 bits remain of `total_bits`; with it on it is the "on"
/// flag, the octave of the pitch period (`enc_uint` over 6), its remaining
/// `4 + octave` bits, the 3-bit gain index and the tapset (the caller turns
/// the filter on only where the section fits).
pub fn encode_postfilter(enc: &mut RangeEncoder, pf: &PostfilterParams, start: usize, total_bits: i32)
    requires
        old(enc)@.wf(),
        old(enc)@.nbits_total + 256 <= EC_NBITS_LIMIT,
        pf.pf_on ==> pf.codable(),
    ensures
        final(enc)@ == encode_postfilter_spec(old(enc)@, *pf, start as int, total_bits as int),
        final(enc)@.wf(),
        final(enc)@.storage == old(enc)@.storage,
        final(enc)@.nbits_total <= old(enc)@.nbits_total + 128,
{
    if start != 0 {
        return;
    }
    if !pf.pf_on {
        if enc.ec_tell() + 16 <= total_bits {
            enc.enc_bit_logp(false, 1);
        }
        return;
    }
    proof {
        lemma_pitch_octave(pf.pitch_index as int);
    }
    enc.enc_bit_logp(true, 1);
    let pitch1 = (pf.pitch_index + 1) as u32;
    let octave = ec_ilog(pitch1) - 5;
    enc.enc_uint(octave, 6);
    proof {
        lemma2_to64();
        lemma_pow2_strictly_increases(octave as nat, 6);
        lemma_u32_shl_is_mul(16, octave);
    }
    let base = 16u32 << octave;
    enc.enc_bits(pitch1 - base, 4 + octave);
    enc.enc_bits(pf.qg as u32, 3);
    let icdf: [u8; 3] = [2, 1, 0];
    proof {
        assert(icdf@ =~= tapset_icdf());
    }
    enc.enc_icdf(pf.tapset, &icdf, 2);
}

/// Reads the post-filter section written by [`encode_postfilter`]: `None`
/// when the section is absent (`start != 0`, or fewer than 16 bits remain of
/// `total_bits`) or the filter is off. The tapset is read only when at least
/// 2 bits remain; otherwise it is 0.
pub fn decode_postfilter(dec: &mut RangeDecoder, start: usize, total_bits: i32) -> (res: Option<
    PostfilterParams,
>)
    requires
        old(dec)@.wf(),
        old(dec)@.nbits_total + 256 <= EC_NBITS_LIMIT,
    ensures
        (final(dec)@, res) == decode_postfilter_spec(old(dec)@, start as int, total_bits as int),
        final(dec)@.wf(),
        final(dec)@.storage == old(dec)@.storage,
        final(dec)@.nbits_total <= old(dec)@.nbits_total + 128,
        res matches Some(pf) ==> pf.pf_on && pf.codable(),
{
    if start != 0 || dec.ec_tell() + 16 > total_bits || !dec.dec_bit_logp(1) {
        return None;
    }
    let octave = dec.dec_uint(6);
    let low = dec.dec_bits(4 + octave);
    proof {
        lemma2_to64();
        lemma_pow2_strictly_increases(octave as nat, 6);
        lemma_u32_shl_is_mul(16, octave);
        lemma_pow2_adds(4, octave as nat);
    }
    let pitch_index = ((16u32 << octave) + low) as i32 - 1;
    let qg = dec.dec_bits(3) as i32;
    let icdf: [u8; 3] = [2, 1, 0];
    proof {
        assert(icdf@ =~= tapset_icdf());
    }
    let tapset = if dec.ec_tell() + 2 <= total_bits {
        dec.dec_icdf(&icdf, 2)
    } else {
        0
    };
    Some(PostfilterParams { pf_on: true, pitch_index, qg, tapset })
}

} // verus!

verus! {

/// The calls [`encode_postfilter`] makes at a point of the stream where
/// `ec_tell` is `tell`.
pub open spec fn postfilter_ops(pf: PostfilterParams, start: int, tell: int, total_bits: int) -> Seq<CodedOp> {
    if start != 0 {
        Seq::empty()
    } else if !pf.pf_on {
        gated_ops(tell + 16 <= total_bits, CodedOp::Bit(false, 1))
    } else {
        let octave = pitch_octave(pf.pitch_index as int);
        seq![CodedOp::Bit(true, 1)] + uint_ops(octave as u32, 6) + seq![
            CodedOp::Raw((pf.pitch_index + 1 - 16 * pow2(octave as nat)) as u32, (4 + octave) as u32),
            CodedOp::Raw(pf.qg as u32, 3),
            CodedOp::Icdf(pf.tapset as nat, tapset_icdf(), 2),
        ]
    }
}

/// The post-filter section comes back: where a stream holds, after the calls
/// of `before`, the section `encode_postfilter` writes there, and the
/// decoder that mirrors `before` finds the 16 bits of room it looks for, it
/// reads the encoder's parameters (none with the filter off), the tapset
/// where at least 2 bits remain before it and 0 otherwise; where it reads the
/// tapset or the filter is off, both sides step past the section together.
/// Past the first band, or without that room, the decoder reads nothing.
#[verifier::spinoff_prover]
#[verifier::rlimit(60)]
pub proof fn lemma_postfilter_round_trip(
    size: nat,
    before: Seq<CodedOp>,
    after: Seq<CodedOp>,
    pf: PostfilterParams,
    start: int,
    total_bits: int,
)
    requires
        pf.pf_on ==> pf.codable(),
        ({
            let e = enc_ops_all(enc_new_spec(size), before);
            stream_ok(size, before + postfilter_ops(pf, start, e.tell(), total_bits) + after)
        }),
    ensures
        ({
            let e = enc_ops_all(enc_new_spec(size), before);
            let mid = postfilter_ops(pf, start, e.tell(), total_bits);
            let ops = before + mid + after;
            let d = dec_after(size, ops, before);
            let (d2, res) = decode_postfilter_spec(d, start, total_bits);
            let tap_room = enc_ops_all(enc_new_spec(size), before + mid.drop_last()).tell() + 2 <= total_bits;
            &&& encode_postfilter_spec(e, pf, start, total_bits) == enc_ops_all(enc_new_spec(size), before + mid)
            &&& (start != 0 || e.tell() + 16 > total_bits) ==> res is None && d2 == d
            &&& (start == 0 && e.tell() + 16 <= total_bits && !pf.pf_on) ==> res is None && d2 == dec_after(
                size,
                ops,
                before + mid,
            )
            &&& (start == 0 && e.tell() + 16 <= total_bits && pf.pf_on) ==> {
                &&& res == Some(
                    PostfilterParams {
                        pf_on: true,
                        pitch_index: pf.pitch_index,
                        qg: pf.qg,
                        tapset: if tap_room {
                            pf.tapset
                        } else {
                            0
                        },
                    },
                )
                &&& tap_room ==> d2 == dec_after(size, ops, before + mid)
            }
        }),
{
    let e = enc_ops_all(enc_new_spec(size), before);
    let mid = postfilter_ops(pf, start, e.tell(), total_bits);
    let ops = before + mid + after;
    lemma_stretch_round_trip(size, before, mid, after);
    let d = dec_after(size, ops, before);
    if start != 0 {
        assert(enc_ops_all(e, mid) == e);
    } else if !pf.pf_on {
        let op = CodedOp::Bit(false, 1);
        lemma_single_call(e, d, op);
        assert(dec_ops_all(d, Seq::<CodedOp>::empty()) == d);
        assert(enc_ops_all(e, Seq::<CodedOp>::empty()) == e);
    } else {
        lemma_pitch_octave(pf.pitch_index as int);
        let octave = pitch_octave(pf.pitch_index as int);
        let b = CodedOp::Bit(true, 1);
        let u = uint_ops(octave as u32, 6);
        let low = (pf.pitch_index + 1 - 16 * pow2(octave as nat)) as u32;
        let r1 = CodedOp::Raw(low, (4 + octave) as u32);
        let r2 = CodedOp::Raw(pf.qg as u32, 3);
        let ic = CodedOp::Icdf(pf.tapset as nat, tapset_icdf(), 2);
        let head = seq![b] + u + seq![r1] + seq![r2];
        assert(mid =~= head + seq![ic]);
        assert(mid.drop_last() =~= head);
        lemma_reads_back_split(d, head, seq![ic]);
        lemma_enc_ops_split(e, head, seq![ic]);
        lemma_reads_back_split(d, seq![b] + u + seq![r1], seq![r2]);
        lemma_enc_ops_split(e, seq![b] + u + seq![r1], seq![r2]);
        lemma_reads_back_split(d, seq![b] + u, seq![r1]);
        lemma_enc_ops_split(e, seq![b] + u, seq![r1]);
        lemma_reads_back_split(d, seq![b], u);
        lemma_enc_ops_split(e, seq![b], u);
        let d1 = dec_ops_all(d, seq![b]);
        let e1 = enc_ops_all(e, seq![b]);
        lemma_single_call(e, d, b);
        lemma_uint_reads_back(e1, d1, octave as u32, 6);
        let d2 = dec_ops_all(d1, u);
        let e2 = enc_ops_all(e1, u);
        lemma_single_call(e2, d2, r1);
        let d3 = dec_ops_all(d2, seq![r1]);
        let e3 = enc_ops_all(e2, seq![r1]);
        lemma_single_call(e3, d3, r2);
        let d4 = dec_ops_all(d3, seq![r2]);
        let e4 = enc_ops_all(e3, seq![r2]);
        lemma_single_call(e4, d4, ic);
        assert(d4 == dec_ops_all(d, head));
        assert(e4 == enc_ops_all(e, head));
        lemma_ops_agree(e, d, head);
        lemma_enc_ops_split(enc_new_spec(size), before, head);
        assert(16 * pow2(octave as nat) + low - 1 == pf.pitch_index);
    }
}

} // verus!
