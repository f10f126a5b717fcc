//! The frame-header decisions coded around a CELT frame's band energies: the
//! transient flag, the spreading decision and the allocation trim, each coded
//! only where the bits left allow it, and the bit budget that remains for the
//! bands once the anti-collapse bit is set aside.
use crate::range_coder::{
    dec_bit_logp_spec, dec_icdf_spec, enc_bit_logp_spec, enc_icdf_spec, RangeDecoder, RangeEncoder,
};
use crate::range_coder::{dec_new_spec, dec_ops_all, enc_done_spec, enc_new_spec, enc_ops_all, CodedOp, DecState};
use crate::postfilter::{decode_postfilter, decode_postfilter_spec, PostfilterParams};
use crate::quant_bands::decode_intra_flag;
use crate::range_coder::EC_NBITS_LIMIT;
use crate::round_trip::{enc_done_state, lemma_single_call, lemma_stretch_round_trip, range_ops_ok};
use vstd::arithmetic::power2::*;
use vstd::prelude::*;

verus! {

/// The spreading decision in effect when none is coded.
pub const SPREAD_NORMAL: i32 = 2;

/// The allocation trim in effect when none is coded.
pub const DEFAULT_TRIM: i32 = 5;

/// The per-frame parameters an encoder picks and a CELT frame header
/// transmits: the coded band range, the frame size as `LM`, the channel
/// count, the transient flag, the spreading decision, the time-frequency
/// selector, the allocation trim, the stereo parameters, the complexity and
/// whether phase inversion is disabled.
pub struct FrameParams {
    pub start: usize,
    pub end: usize,
    pub lm: i32,
    pub c: usize,
    pub is_transient: bool,
    pub spread: i32,
    pub tf_select: i32,
    pub alloc_trim: i32,
    pub intensity: i32,
    pub dual_stereo: i32,
    pub complexity: i32,
    pub disable_inv: bool,
}

/// `spread_icdf`: the inverse CDF of the four spreading decisions (5-bit total).
pub open spec fn spread_icdf() -> Seq<u8> {
    seq![25u8, 23, 2, 0]
}

/// `trim_icdf`: the inverse CDF of the eleven allocation trims (7-bit total).
pub open spec fn trim_icdf() -> Seq<u8> {
    seq![126u8, 124, 119, 109, 87, 41, 19, 9, 4, 2, 0]
}

/// The transient flag is coded only for frames of more than one short block,
/// and only while three more bits fit in the frame.
pub open spec fn transient_coded(tell: int, lm: int, total_bits: int) -> bool {
    lm > 0 && tell + 3 <= total_bits
}

/// The spreading decision is coded only while four more bits fit.
pub open spec fn spread_coded(tell: int, total_bits: int) -> bool {
    tell + 4 <= total_bits
}

/// The trim is coded only while six more bits (in eighth-bits) fit in what the
/// boosts left of the frame.
pub open spec fn trim_coded(tell_frac: int, total_bits: int, total_boost: int) -> bool {
    tell_frac + 48 <= total_bits * 8 - total_boost
}

/// Writes the transient flag where it is coded.
pub fn encode_transient_flag(enc: &mut RangeEncoder, is_transient: bool, lm: i32, total_bits: i32)
    requires
        old(enc)@.wf(),
        old(enc)@.has_room(),
    ensures
        final(enc)@ == if transient_coded(old(enc)@.tell(), lm as int, total_bits as int) {
            enc_bit_logp_spec(old(enc)@, is_transient, 3)
        } else {
            old(enc)@
        },
        final(enc)@.wf(),
{
    if lm > 0 && enc.ec_tell() + 3 <= total_bits {
        enc.enc_bit_logp(is_transient, 3);
    }
}

/// Reads the transient flag where the encoder wrote it; a frame without one
/// is not transient.
pub fn decode_transient_flag(dec: &mut RangeDecoder, lm: i32, total_bits: i32) -> (res: bool)
    requires
        old(dec)@.wf(),
        old(dec)@.has_room(),
    ensures
        (final(dec)@, res) == if transient_coded(old(dec)@.tell(), lm as int, total_bits as int) {
            dec_bit_logp_spec(old(dec)@, 3)
        } else {
            (old(dec)@, false)
        },
        final(dec)@.wf(),
        final(dec)@.nbits_total <= old(dec)@.nbits_total + 24,
{
    if lm > 0 && dec.ec_tell() + 3 <= total_bits {
        dec.dec_bit_logp(3)
    } else {
        false
    }
}

/// Writes the spreading decision `spread` (one of four) where it is coded.
pub fn encode_spread(enc: &mut RangeEncoder, spread: usize, total_bits: i32)
    requires
        old(enc)@.wf(),
        old(enc)@.has_room(),
        spread < 4,
    ensures
        final(enc)@ == if spread_coded(old(enc)@.tell(), total_bits as int) {
            enc_icdf_spec(old(enc)@, spread as int, spread_icdf(), 5)
        } else {
            old(enc)@
        },
        final(enc)@.wf(),
{
    if enc.ec_tell() + 4 <= total_bits {
        let icdf: [u8; 4] = [25, 23, 2, 0];
        proof {
            assert(icdf@ =~= spread_icdf());
            lemma2_to64();
        }
        enc.enc_icdf(spread, &icdf, 5);
    }
}

/// Reads the spreading decision where the encoder wrote it, else the normal
/// spreading.
pub fn decode_spread(dec: &mut RangeDecoder, total_bits: i32) -> (res: i32)
    requires
        old(dec)@.wf(),
        old(dec)@.has_room(),
    ensures
        spread_coded(old(dec)@.tell(), total_bits as int) ==> ({
            let (d, s) = dec_icdf_spec(old(dec)@, spread_icdf(), 5);
            final(dec)@ == d && res == s
        }),
        !spread_coded(old(dec)@.tell(), total_bits as int) ==> final(dec)@ == old(dec)@ && res
            == SPREAD_NORMAL,
        0 <= res < 4,
        final(dec)@.wf(),
{
    if dec.ec_tell() + 4 <= total_bits {
        let icdf: [u8; 4] = [25, 23, 2, 0];
        proof {
            assert(icdf@ =~= spread_icdf());
            lemma2_to64();
        }
        dec.dec_icdf(&icdf, 5) as i32
    } else {
        SPREAD_NORMAL
    }
}

/// Writes the allocation trim where it is coded (after `total_boost`
/// eighth-bits of boosts); returns the trim in effect, the default where none
/// is coded.
pub fn encode_alloc_trim(enc: &mut RangeEncoder, alloc_trim: i32, total_bits: i32, total_boost: i32) -> (res: i32)
    requires
        old(enc)@.wf(),
        old(enc)@.has_room(),
        0 <= alloc_trim <= 10,
        0 <= total_bits <= 0x10_0000,
        0 <= total_boost <= 0x1000_0000,
    ensures
        trim_coded(old(enc)@.tell_frac(), total_bits as int, total_boost as int) ==> final(enc)@
            == enc_icdf_spec(old(enc)@, alloc_trim as int, trim_icdf(), 7) && res == alloc_trim,
        !trim_coded(old(enc)@.tell_frac(), total_bits as int, total_boost as int) ==> final(enc)@
            == old(enc)@ && res == DEFAULT_TRIM,
        final(enc)@.wf(),
{
    let tell_frac = enc.ec_tell_frac();
    if tell_frac as i64 + 48 <= total_bits as i64 * 8 - total_boost as i64 {
        let icdf: [u8; 11] = [126, 124, 119, 109, 87, 41, 19, 9, 4, 2, 0];
        proof {
            assert(icdf@ =~= trim_icdf());
            lemma2_to64();
        }
        enc.enc_icdf(alloc_trim as usize, &icdf, 7);
        alloc_trim
    } else {
        DEFAULT_TRIM
    }
}

/// Reads the allocation trim where the encoder wrote it, else the default.
pub fn decode_alloc_trim(dec: &mut RangeDecoder, total_bits: i32, total_boost: i32) -> (res: i32)
    requires
        old(dec)@.wf(),
        old(dec)@.has_room(),
        0 <= total_bits <= 0x10_0000,
        0 <= total_boost <= 0x1000_0000,
    ensures
        trim_coded(old(dec)@.tell_frac(), total_bits as int, total_boost as int) ==> ({
            let (d, t) = dec_icdf_spec(old(dec)@, trim_icdf(), 7);
            final(dec)@ == d && res == t
        }),
        !trim_coded(old(dec)@.tell_frac(), total_bits as int, total_boost as int) ==> final(dec)@
            == old(dec)@ && res == DEFAULT_TRIM,
        0 <= res <= 10,
        final(dec)@.wf(),
{
    let tell_frac = dec.ec_tell_frac();
    if tell_frac as i64 + 48 <= total_bits as i64 * 8 - total_boost as i64 {
        let icdf: [u8; 11] = [126, 124, 119, 109, 87, 41, 19, 9, 4, 2, 0];
        proof {
            assert(icdf@ =~= trim_icdf());
            lemma2_to64();
        }
        dec.dec_icdf(&icdf, 7) as i32
    } else {
        DEFAULT_TRIM
    }
}

/// The bits (in eighth-bits) left for the bands once `tell_frac` eighth-bits
/// of the frame's `total_bits` are used, one eighth-bit kept in hand, and the
/// anti-collapse reservation: one bit for a transient frame of at least four
/// short blocks that can afford it.
pub open spec fn frame_bit_budget_spec(total_bits: int, tell_frac: int, is_transient: bool, lm: int) -> (int, int) {
    let bits = total_bits * 8 - tell_frac - 1;
    let rsv = if is_transient && lm >= 2 && bits >= (lm + 2) * 8 {
        8int
    } else {
        0
    };
    (bits - rsv, rsv)
}

/// The bits left for the bands and the anti-collapse reservation, as
/// `(bits, anti_collapse_rsv)`.
pub fn frame_bit_budget(total_bits: i32, tell_frac: u32, is_transient: bool, lm: i32) -> (res: (i32, i32))
    requires
        0 <= total_bits <= 0x10_0000,
        tell_frac <= 0x100_0000,
        0 <= lm <= 3,
    ensures
        (res.0 as int, res.1 as int) == frame_bit_budget_spec(total_bits as int, tell_frac as int, is_transient, lm as int),
        res.1 == 0 || res.1 == 8,
        res.1 == 8 ==> res.0 >= lm * 8 + 8,
{
    let mut bits = total_bits * 8 - tell_frac as i32 - 1;
    let rsv: i32 = if is_transient && lm >= 2 && bits >= (lm + 2) * 8 {
        8
    } else {
        0
    };
    bits -= rsv;
    (bits, rsv)
}

} // verus!

verus! {

/// The call a header decision coded only under `coded` makes: `op`, or none.
pub open spec fn gated_ops(coded: bool, op: CodedOp) -> Seq<CodedOp> {
    if coded {
        seq![op]
    } else {
        Seq::empty()
    }
}

/// What a stream of a fresh encoder of `size` bytes is made of, and that the
/// coder accepts it and `done` hands it out in full.
pub open spec fn stream_ok(size: nat, ops: Seq<CodedOp>) -> bool {
    &&& size < 0x1_0000_0000
    &&& range_ops_ok(ops)
    &&& ops.len() <= 0x1000_0000
    &&& !enc_done_state(enc_ops_all(enc_new_spec(size), ops)).error
}

/// The decoder over the finished bytes of a stream, after mirroring `before`.
pub open spec fn dec_after(size: nat, ops: Seq<CodedOp>, before: Seq<CodedOp>) -> DecState {
    dec_ops_all(dec_new_spec(enc_done_spec(enc_ops_all(enc_new_spec(size), ops))), before)
}

/// The transient flag comes back: where a stream holds, after the calls of
/// `before`, the flag `encode_transient_flag` codes there, the decoder that
/// mirrors `before` reads the encoder's flag (not transient where none is
/// coded) and both sides step past it together.
pub proof fn lemma_transient_round_trip(
    size: nat,
    before: Seq<CodedOp>,
    after: Seq<CodedOp>,
    is_transient: bool,
    lm: int,
    total_bits: int,
)
    requires
        ({
            let e = enc_ops_all(enc_new_spec(size), before);
            let mid = gated_ops(transient_coded(e.tell(), lm, total_bits), CodedOp::Bit(is_transient, 3));
            stream_ok(size, before + mid + after)
        }),
    ensures
        ({
            let e = enc_ops_all(enc_new_spec(size), before);
            let coded = transient_coded(e.tell(), lm, total_bits);
            let mid = gated_ops(coded, CodedOp::Bit(is_transient, 3));
            let ops = before + mid + after;
            let d = dec_after(size, ops, before);
            let r = if transient_coded(d.tell(), lm, total_bits) {
                dec_bit_logp_spec(d, 3)
            } else {
                (d, false)
            };
            &&& r == (dec_after(size, ops, before + mid), coded && is_transient)
            &&& (if coded {
                enc_bit_logp_spec(e, is_transient, 3)
            } else {
                e
            }) == enc_ops_all(enc_new_spec(size), before + mid)
        }),
{
    let e = enc_ops_all(enc_new_spec(size), before);
    let coded = transient_coded(e.tell(), lm, total_bits);
    let op = CodedOp::Bit(is_transient, 3);
    let mid = gated_ops(coded, op);
    lemma_stretch_round_trip(size, before, mid, after);
    let d = dec_after(size, before + mid + after, before);
    lemma_single_call(e, d, op);
    assert(dec_ops_all(d, Seq::<CodedOp>::empty()) == d);
    assert(enc_ops_all(e, Seq::<CodedOp>::empty()) == e);
}

/// The spreading decision comes back: where a stream holds, after the calls
/// of `before`, the decision `encode_spread` codes there, the decoder that
/// mirrors `before` reads the encoder's decision (the normal spreading where
/// none is coded) and both sides step past it together.
pub proof fn lemma_spread_round_trip(size: nat, before: Seq<CodedOp>, after: Seq<CodedOp>, spread: nat, total_bits: int)
    requires
        spread < 4,
        ({
            let e = enc_ops_all(enc_new_spec(size), before);
            let mid = gated_ops(spread_coded(e.tell(), total_bits), CodedOp::Icdf(spread, spread_icdf(), 5));
            stream_ok(size, before + mid + after)
        }),
    ensures
        ({
            let e = enc_ops_all(enc_new_spec(size), before);
            let coded = spread_coded(e.tell(), total_bits);
            let mid = gated_ops(coded, CodedOp::Icdf(spread, spread_icdf(), 5));
            let ops = before + mid + after;
            let d = dec_after(size, ops, before);
            &&& spread_coded(d.tell(), total_bits) == coded
            &&& coded ==> dec_icdf_spec(d, spread_icdf(), 5) == (dec_after(size, ops, before + mid), spread)
            &&& !coded ==> d == dec_after(size, ops, before + mid)
            &&& (if coded {
                enc_icdf_spec(e, spread as int, spread_icdf(), 5)
            } else {
                e
            }) == enc_ops_all(enc_new_spec(size), before + mid)
        }),
{
    let e = enc_ops_all(enc_new_spec(size), before);
    let coded = spread_coded(e.tell(), total_bits);
    let op = CodedOp::Icdf(spread, spread_icdf(), 5);
    let mid = gated_ops(coded, op);
    lemma_stretch_round_trip(size, before, mid, after);
    let d = dec_after(size, before + mid + after, before);
    lemma_single_call(e, d, op);
    assert(dec_ops_all(d, Seq::<CodedOp>::empty()) == d);
    assert(enc_ops_all(e, Seq::<CodedOp>::empty()) == e);
}

/// The allocation trim comes back: where a stream holds, after the calls of
/// `before`, the trim `encode_alloc_trim` codes there, the decoder that
/// mirrors `before` reads the encoder's trim (the default where none is
/// coded) and both sides step past it together.
pub proof fn lemma_trim_round_trip(
    size: nat,
    before: Seq<CodedOp>,
    after: Seq<CodedOp>,
    alloc_trim: nat,
    total_bits: int,
    total_boost: int,
)
    requires
        alloc_trim <= 10,
        ({
            let e = enc_ops_all(enc_new_spec(size), before);
            let mid = gated_ops(
                trim_coded(e.tell_frac(), total_bits, total_boost),
                CodedOp::Icdf(alloc_trim, trim_icdf(), 7),
            );
            stream_ok(size, before + mid + after)
        }),
    ensures
        ({
            let e = enc_ops_all(enc_new_spec(size), before);
            let coded = trim_coded(e.tell_frac(), total_bits, total_boost);
            let mid = gated_ops(coded, CodedOp::Icdf(alloc_trim, trim_icdf(), 7));
            let ops = before + mid + after;
            let d = dec_after(size, ops, before);
            &&& trim_coded(d.tell_frac(), total_bits, total_boost) == coded
            &&& coded ==> dec_icdf_spec(d, trim_icdf(), 7) == (dec_after(size, ops, before + mid), alloc_trim)
            &&& !coded ==> d == dec_after(size, ops, before + mid)
            &&& (if coded {
                enc_icdf_spec(e, alloc_trim as int, trim_icdf(), 7)
            } else {
                e
            }) == enc_ops_all(enc_new_spec(size), before + mid)
        }),
{
    let e = enc_ops_all(enc_new_spec(size), before);
    let coded = trim_coded(e.tell_frac(), total_bits, total_boost);
    let op = CodedOp::Icdf(alloc_trim, trim_icdf(), 7);
    let mid = gated_ops(coded, op);
    lemma_stretch_round_trip(size, before, mid, after);
    let d = dec_after(size, before + mid + after, before);
    lemma_single_call(e, d, op);
    assert(dec_ops_all(d, Seq::<CodedOp>::empty()) == d);
    assert(enc_ops_all(e, Seq::<CodedOp>::empty()) == e);
}

/// The intra flag comes back: where a stream holds, after the calls of
/// `before`, the intra flag the encoder codes while three more bits fit in
/// `budget`, `decode_intra_flag` on the decoder that mirrors `before` reads
/// it (inter where none is coded) and both sides step past it together.
pub proof fn lemma_intra_round_trip(size: nat, before: Seq<CodedOp>, after: Seq<CodedOp>, intra: bool, budget: int)
    requires
        ({
            let e = enc_ops_all(enc_new_spec(size), before);
            let mid = gated_ops(e.tell() + 3 <= budget, CodedOp::Bit(intra, 3));
            stream_ok(size, before + mid + after)
        }),
    ensures
        ({
            let e = enc_ops_all(enc_new_spec(size), before);
            let coded = e.tell() + 3 <= budget;
            let mid = gated_ops(coded, CodedOp::Bit(intra, 3));
            let ops = before + mid + after;
            let d = dec_after(size, ops, before);
            let r = if d.tell() + 3 <= budget {
                dec_bit_logp_spec(d, 3)
            } else {
                (d, false)
            };
            r == (dec_after(size, ops, before + mid), coded && intra)
        }),
{
    let e = enc_ops_all(enc_new_spec(size), before);
    let coded = e.tell() + 3 <= budget;
    let op = CodedOp::Bit(intra, 3);
    let mid = gated_ops(coded, op);
    lemma_stretch_round_trip(size, before, mid, after);
    let d = dec_after(size, before + mid + after, before);
    lemma_single_call(e, d, op);
    assert(dec_ops_all(d, Seq::<CodedOp>::empty()) == d);
}

} // verus!

verus! {

/// The decisions at the head of a CELT frame, before its band energies.
pub struct FramePrelude {
    /// The frame is silent (coded only as the frame's first symbol).
    pub silence: bool,
    /// The post-filter parameters, where the filter is on.
    pub postfilter: Option<PostfilterParams>,
    /// The frame uses short blocks.
    pub is_transient: bool,
    /// The band energies are coded without inter-frame prediction.
    pub intra: bool,
}

/// What [`decode_frame_prelude`] reads from `d` and returns: the silence flag
/// (read only as the first symbol), the post-filter section, the transient
/// flag and the intra flag, each where the frame codes it.
pub open spec fn frame_prelude_spec(d: DecState, start: int, lm: int, total_bits: int) -> (DecState, FramePrelude) {
    let (d1, silence) = if d.tell() == 1 {
        dec_bit_logp_spec(d, 15)
    } else {
        (d, false)
    };
    let (d2, postfilter) = decode_postfilter_spec(d1, start, total_bits);
    let (d3, is_transient) = if transient_coded(d2.tell(), lm, total_bits) {
        dec_bit_logp_spec(d2, 3)
    } else {
        (d2, false)
    };
    let (d4, intra) = if d3.tell() + 3 <= total_bits {
        dec_bit_logp_spec(d3, 3)
    } else {
        (d3, false)
    };
    (d4, FramePrelude { silence, postfilter, is_transient, intra })
}

/// Reads the head of a CELT frame of `total_bits` bits coding bands from
/// `start` with frame size `lm`: silence, post-filter, transient and intra.
pub fn decode_frame_prelude(dec: &mut RangeDecoder, start: usize, lm: i32, total_bits: i32) -> (res: FramePrelude)
    requires
        old(dec)@.wf(),
        old(dec)@.nbits_total + 512 <= EC_NBITS_LIMIT,
    ensures
        (final(dec)@, res) == frame_prelude_spec(old(dec)@, start as int, lm as int, total_bits as int),
        final(dec)@.wf(),
{
    let silence = if dec.ec_tell() == 1 {
        dec.dec_bit_logp(15)
    } else {
        false
    };
    let postfilter = decode_postfilter(dec, start, total_bits);
    let is_transient = decode_transient_flag(dec, lm, total_bits);
    let intra = decode_intra_flag(dec, total_bits);
    FramePrelude { silence, postfilter, is_transient, intra }
}

} // verus!
