//! CELT bit allocation: the per-band rate caps, the dynamic-allocation boosts
//! and the split of a frame's budget into PVQ bits and fine-energy bits,
//! with the skip / intensity / dual-stereo decisions coded on the way.
use crate::bits::{lemma_i32_shl_mul, lemma_i32_shr_div};
use crate::quant_band::{code_bit_logp, code_bit_spec, code_uint, code_uint_spec, coder_state, Coder, CoderState};
use crate::range_coder::{
    dec_bit_logp_spec, lemma_bit_counts_agree, lemma_tell_frac_fraction, lemma_ilog_bounds, DecState, EncState,
    RangeDecoder, RangeEncoder, EC_NBITS_LIMIT,
};
use crate::rate::band_width;
use crate::theta::{div_trunc, BITRES};
use vstd::arithmetic::power2::*;
use crate::range_coder::{dec_new_spec, dec_ops_all, dec_reads_back, enc_done_spec, enc_new_spec, enc_ops_all, CodedOp};
use crate::round_trip::{
    dec_op, enc_done_state, enc_op, lemma_enc_ops_cons, lemma_enc_ops_split, lemma_reads_back_cons,
    lemma_reads_back_split, lemma_round_trip_at, lemma_small_uint, range_ops_ok, uint_symbol,
};
use vstd::prelude::*;

verus! {

const ALLOC_STEPS: i32 = 6;

const MAX_FINE_BITS: i32 = 8;

const FINE_OFFSET: i32 = 21;

/// The band layout the allocation reads: `nb + 1` increasing edges, each band
/// between one and 64 bins wide.
pub open spec fn bands_ok(e: Seq<i16>, nb: int) -> bool {
    &&& e.len() >= nb + 1
    &&& forall|j: int| 0 <= j < nb ==> 1 <= #[trigger] band_width(e, j) <= 64
}

/// `init_caps` for one band: the packed cap of band `i` at time split `lm`
/// with `c` channels, in eighth-bits for the whole band.
pub open spec fn init_cap_spec(caps: Seq<u8>, e: Seq<i16>, nb: int, lm: int, c: int, i: int) -> int {
    ((caps[nb * (2 * lm + c - 1) + i] + 64) * c * (band_width(e, i) * pow2(lm as nat))) / 4
}

/// `init_caps`: turns the packed per-band rate caps into the actual cap (in
/// eighth-bits) for each band at this `LM` / channel count `C`.
pub fn init_caps(caps: &[u8], e_bands: &[i16], nb_e_bands: usize, lm: i32, c: i32) -> (res: Vec<i32>)
    requires
        bands_ok(e_bands@, nb_e_bands as int),
        0 <= lm <= 6,
        1 <= c <= 2,
        nb_e_bands * (2 * lm + c) <= caps.len(),
    ensures
        res@.len() == nb_e_bands,
        forall|i: int|
            0 <= i < nb_e_bands ==> res@[i] == init_cap_spec(caps@, e_bands@, nb_e_bands as int, lm as int, c as int, i),
{
    let mut out: Vec<i32> = Vec::new();
    let mut i: usize = 0;
    proof {
        lemma2_to64();
        if lm < 6 {
            lemma_pow2_strictly_increases(lm as nat, 6);
        }
        assert(nb_e_bands * (2 * lm + c - 1) + nb_e_bands == nb_e_bands * (2 * lm + c)) by (nonlinear_arith);
    }
    while i < nb_e_bands
        invariant
            bands_ok(e_bands@, nb_e_bands as int),
            0 <= lm <= 6,
            1 <= c <= 2,
            1 <= pow2(lm as nat) <= 64,
            nb_e_bands * (2 * lm + c - 1) + nb_e_bands <= caps.len(),
            0 <= i <= nb_e_bands,
            out@.len() == i,
            forall|q: int|
                0 <= q < i ==> out@[q] == init_cap_spec(caps@, e_bands@, nb_e_bands as int, lm as int, c as int, q),
        decreases nb_e_bands - i,
    {
        let w = e_bands[i + 1] as i32 - e_bands[i] as i32;
        assert(w == band_width(e_bands@, i as int));
        proof {
            assert(1 <= w * pow2(lm as nat) <= 64 * 64) by (nonlinear_arith)
                requires
                    1 <= w <= 64,
                    1 <= pow2(lm as nat) <= 64,
            ;
            lemma_i32_shl_mul(w, lm as u32);
            assert(0 <= nb_e_bands * (2 * lm + c - 1)) by (nonlinear_arith)
                requires
                    lm >= 0,
                    c >= 1,
            ;
        }
        let n = w << (lm as u32);
        let row = nb_e_bands * (2 * lm as usize + (c as usize - 1));
        let v = caps[row + i] as i32 + 64;
        proof {
            assert(0 <= v * c <= 638) by (nonlinear_arith)
                requires
                    0 <= v <= 319,
                    1 <= c <= 2,
            ;
            assert(0 <= v * c * n <= 319 * 2 * 4096) by (nonlinear_arith)
                requires
                    0 <= v <= 319,
                    1 <= c <= 2,
                    1 <= n <= 4096,
            ;
            lemma_i32_shr_div((v * c * n) as i32, 2);
            lemma2_to64();
        }
        out.push((v * c * n) >> 2u32);
        i += 1;
    }
    out
}

/// The larger of two integers.
pub open spec fn max_int(a: int, b: int) -> int {
    if a >= b {
        a
    } else {
        b
    }
}

/// The smaller of two integers.
pub open spec fn min_int(a: int, b: int) -> int {
    if a <= b {
        a
    } else {
        b
    }
}

/// The boost step of a band of `width` coefficients (eighth-bits): six bits,
/// but no more than one bit per coefficient and no less than an eighth.
pub open spec fn boost_quanta(width: int) -> int {
    min_int(width * 8, max_int(48, width))
}

/// One band's boost loop: while the budget `room` (eighth-bits) is above the
/// coder's position plus the cost of the flag, and the boost is below the cap,
/// code one "boost more" flag (the encoder asks for `want` grants); yields
/// the coder state, the grants and the boost.
pub open spec fn boost_loop(
    s: CoderState,
    want: int,
    quanta: int,
    cap: int,
    logp: int,
    room: int,
    grants: int,
    boost: int,
) -> (CoderState, int, int)
    decreases (if boost < cap {
        cap - boost
    } else {
        0
    }),
{
    if quanta >= 1 && s.tell_frac() + logp * 8 < room && boost < cap {
        let (s2, flag) = code_bit_spec(s, grants < want, logp as nat);
        if flag {
            boost_loop(s2, want, quanta, cap, 1, room - quanta, grants + 1, boost + quanta)
        } else {
            (s2, grants, boost)
        }
    } else {
        (s, grants, boost)
    }
}

/// The boosts of bands `i..end`: each band's loop starts at the flag cost
/// `logp`, which drops by one (down to 2) after a band that was boosted;
/// yields the coder state, the boosts and the budget left.
pub open spec fn boost_bands(
    s: CoderState,
    e: Seq<i16>,
    i: int,
    end: int,
    c: int,
    lm: int,
    cap: Seq<i32>,
    want: Seq<i32>,
    room: int,
    logp: int,
) -> (CoderState, Seq<int>, int)
    decreases end - i,
{
    if i >= end {
        (s, Seq::empty(), room)
    } else {
        let q = boost_quanta(c * band_width(e, i) * pow2(lm as nat));
        let r = boost_loop(s, want[i] as int, q, cap[i] as int, logp, room, 0, 0);
        let logp2 = if r.1 > 0 {
            max_int(2, logp - 1)
        } else {
            logp
        };
        let rest = boost_bands(r.0, e, i + 1, end, c, lm, cap, want, room - r.2, logp2);
        (rest.0, seq![r.2].add(rest.1), rest.2)
    }
}

proof fn lemma_boost_bands_len(
    s: CoderState,
    e: Seq<i16>,
    i: int,
    end: int,
    c: int,
    lm: int,
    cap: Seq<i32>,
    want: Seq<i32>,
    room: int,
    logp: int,
)
    requires
        i <= end,
    ensures
        boost_bands(s, e, i, end, c, lm, cap, want, room, logp).1.len() == end - i,
    decreases end - i,
{
    if i < end {
        let q = boost_quanta(c * band_width(e, i) * pow2(lm as nat));
        let r = boost_loop(s, want[i] as int, q, cap[i] as int, logp, room, 0, 0);
        let logp2 = if r.1 > 0 {
            max_int(2, logp - 1)
        } else {
            logp
        };
        lemma_boost_bands_len(r.0, e, i + 1, end, c, lm, cap, want, room - r.2, logp2);
    }
}

/// What both sides of the boost coding need: the band layout, the caps and
/// a budget well inside the coder's range.
pub open spec fn boost_inputs_ok(e: Seq<i16>, start: int, end: int, c: int, lm: int, cap_len: int, total_bits: int) -> bool {
    &&& 0 <= start <= end
    &&& bands_ok(e, end)
    &&& end <= cap_len
    &&& 1 <= c <= 2
    &&& 0 <= lm <= 3
    &&& -0x100_0000 <= total_bits <= 0x100_0000
}

proof fn lemma_ilog_at_most_32(v: u32)
    requires
        v > 0,
    ensures
        1 <= crate::range_coder::ilog(v as nat) <= 32,
{
    lemma_ilog_bounds(v as nat);
    lemma2_to64();
    let l = crate::range_coder::ilog(v as nat);
    if l > 33 {
        lemma_pow2_strictly_increases(32, (l - 1) as nat);
    }
}

/// A coder's position is a nonnegative eighth-bit count well below `2^31`.
pub proof fn lemma_tell_range(s: CoderState)
    requires
        s.wf(),
    ensures
        0 <= s.tell_frac() <= 0x7fff_ff40,
{
    lemma2_to64();
    match s {
        CoderState::Enc(e) => {
            lemma_tell_frac_fraction(e.nbits_total as int, e.rng);
            lemma_ilog_at_most_32(e.rng);
            crate::range_coder::lemma_ilog_monotone(0x80_0000, e.rng as nat);
            crate::range_coder::lemma_ilog_unique(0x80_0000, 24);
        },
        CoderState::Dec(d) => {
            lemma_tell_frac_fraction(d.nbits_total as int, d.rng);
            lemma_ilog_at_most_32(d.rng);
            crate::range_coder::lemma_ilog_monotone(0x80_0000, d.rng as nat);
            crate::range_coder::lemma_ilog_unique(0x80_0000, 24);
        },
    }
}

/// The encoder position is an eighth-bit count below `2^31`, and below the
/// budget there is room for one more flag.
proof fn lemma_enc_position(s: CoderState, room: int)
    requires
        s.wf(),
        s.tell_frac() < room <= 0x800_0000,
    ensures
        0 <= s.tell_frac() + 48,
        s.room_for(1),
{
    lemma2_to64();
    match s {
        CoderState::Enc(e) => {
            lemma_tell_frac_fraction(e.nbits_total as int, e.rng);
            lemma_ilog_at_most_32(e.rng);
        },
        CoderState::Dec(d) => {
            lemma_tell_frac_fraction(d.nbits_total as int, d.rng);
            lemma_ilog_at_most_32(d.rng);
        },
    }
}

/// The boost step of band `i`, computed as the coder does.
fn band_quanta(e_bands: &[i16], i: usize, c: i32, lm: i32) -> (q: i32)
    requires
        i + 1 < e_bands.len(),
        1 <= band_width(e_bands@, i as int) <= 64,
        1 <= c <= 2,
        0 <= lm <= 3,
    ensures
        q == boost_quanta(c * band_width(e_bands@, i as int) * pow2(lm as nat)),
        1 <= q <= 1024,
{
    let w = e_bands[i + 1] as i32 - e_bands[i] as i32;
    proof {
        lemma2_to64();
        if lm < 3 {
            lemma_pow2_strictly_increases(lm as nat, 3);
        }
        assert(1 <= c * w <= 128) by (nonlinear_arith)
            requires
                1 <= c <= 2,
                1 <= w <= 64,
        ;
        assert(1 <= (c * w) * pow2(lm as nat) <= 1024) by (nonlinear_arith)
            requires
                1 <= c * w <= 128,
                1 <= pow2(lm as nat) <= 8,
        ;
        lemma_i32_shl_mul((c * w) as i32, lm as u32);
    }
    let width = (c * w) << (lm as u32);
    proof {
        assert(c * w * pow2(lm as nat) == (c * w) * pow2(lm as nat));
    }
    let a = width * 8;
    let b = if 48 > width {
        48
    } else {
        width
    };
    if a < b {
        a
    } else {
        b
    }
}

/// `encode_dynalloc_boost`: codes the per-band dynamic-allocation boosts. On
/// input `offsets[i]` is the desired boost *count*; on output it is the
/// granted boost in eighth-bits. `total_bits` is the frame's bit budget
/// (whole bits). Returns `total_boost`.
pub fn encode_dynalloc_boost(
    enc: &mut RangeEncoder,
    e_bands: &[i16],
    start: usize,
    end: usize,
    c: i32,
    lm: i32,
    cap: &[i32],
    total_bits: i32,
    offsets: &mut [i32],
) -> (total_boost: i32)
    requires
        old(enc)@.wf(),
        boost_inputs_ok(e_bands@, start as int, end as int, c as int, lm as int, cap@.len() as int, total_bits as int),
        end <= old(offsets)@.len(),
    ensures
        ({
            let r = boost_bands(
                CoderState::Enc(old(enc)@),
                e_bands@,
                start as int,
                end as int,
                c as int,
                lm as int,
                cap@,
                old(offsets)@,
                total_bits * 8,
                6,
            );
            &&& CoderState::Enc(final(enc)@) == r.0
            &&& final(offsets)@.len() == old(offsets)@.len()
            &&& forall|i: int| start <= i < end ==> final(offsets)@[i] == r.1[i - start]
            &&& forall|i: int|
                0 <= i < old(offsets)@.len() && !(start <= i < end) ==> final(offsets)@[i] == old(offsets)@[i]
            &&& total_boost == total_bits * 8 - r.2
        }),
        final(enc)@.wf(),
{
    proof {
        lemma2_to64();
        lemma_i32_shl_mul(total_bits, 3);
    }
    let total_bits = total_bits << 3u32;
    let mut dynalloc_logp: i32 = 6;
    let mut total_boost: i32 = 0;
    proof {
        lemma_tell_range(CoderState::Enc(enc@));
    }
    let mut tell = enc.ec_tell_frac() as i32;
    let ghost want = old(offsets)@;
    let ghost target = boost_bands(
        CoderState::Enc(enc@),
        e_bands@,
        start as int,
        end as int,
        c as int,
        lm as int,
        cap@,
        want,
        total_bits as int,
        6,
    );
    let mut i: usize = start;
    proof {
        lemma_boost_bands_len(CoderState::Enc(enc@), e_bands@, start as int, end as int, c as int, lm as int, cap@, want, total_bits as int, 6);
        assert(target.1.subrange(0, end - start) =~= target.1);
    }
    while i < end
        invariant
            boost_inputs_ok(e_bands@, start as int, end as int, c as int, lm as int, cap@.len() as int, total_bits / 8),
            total_bits == (total_bits / 8) * 8,
            start <= i <= end,
            end <= offsets@.len(),
            offsets@.len() == want.len(),
            enc@.wf(),
            tell == enc@.tell_frac(),
            0 <= tell <= 0x7fff_ff40,
            0 <= total_boost <= (if total_bits > 0 {
                total_bits as int
            } else {
                0
            }) + 1024,
            2 <= dynalloc_logp <= 6,
            ({
                let cur = boost_bands(
                    CoderState::Enc(enc@),
                    e_bands@,
                    i as int,
                    end as int,
                    c as int,
                    lm as int,
                    cap@,
                    want,
                    total_bits - total_boost,
                    dynalloc_logp as int,
                );
                &&& cur.0 == target.0
                &&& cur.2 == target.2
                &&& cur.1.len() == end - i
                &&& target.1.len() == end - start
                &&& target.1.subrange(i - start, end - start) == cur.1
            }),
            forall|k: int| start <= k < i ==> offsets@[k] == target.1[k - start],
            forall|k: int| 0 <= k < want.len() && !(start <= k < end) ==> offsets@[k] == want[k],
            forall|k: int| i <= k < want.len() ==> offsets@[k] == want[k],
        decreases end - i,
    {
        let quanta = band_quanta(e_bands, i, c, lm);
        let mut loop_logp = dynalloc_logp;
        let mut boost: i32 = 0;
        let mut j: i32 = 0;
        let ghost room0 = total_bits - total_boost;
        let ghost s0 = CoderState::Enc(enc@);
        let ghost inner = boost_loop(s0, want[i as int] as int, quanta as int, cap@[i as int] as int, dynalloc_logp as int, room0, 0, 0);
        let ghost cur_old = boost_bands(s0, e_bands@, i as int, end as int, c as int, lm as int, cap@, want, room0, dynalloc_logp as int);
        loop
            invariant_except_break
                enc@.wf(),
                tell == enc@.tell_frac(),
                0 <= tell <= 0x7fff_ff40,
                1 <= quanta <= 1024,
                0 <= boost,
                total_boost == (total_bits - room0) + boost,
                total_bits - room0 >= 0,
                0 <= total_boost <= (if total_bits > 0 {
                    total_bits as int
                } else {
                    0
                }) + 1024,
                -0x800_0000 <= total_bits <= 0x800_0000,
                1 <= loop_logp <= 6,
                i < cap@.len(),
                j >= 0,
                j > 0 ==> boost > 0,
                j == 0 ==> boost == 0,
                i < end,
                end <= offsets@.len(),
                offsets@[i as int] == want[i as int],
                boost_loop(CoderState::Enc(enc@), want[i as int] as int, quanta as int, cap@[i as int] as int, loop_logp as int, total_bits - total_boost, j as int, boost as int) == inner,
            ensures
                enc@.wf(),
                tell == enc@.tell_frac(),
                0 <= tell <= 0x7fff_ff40,
                0 <= boost,
                total_boost == (total_bits - room0) + boost,
                0 <= total_boost <= (if total_bits > 0 {
                    total_bits as int
                } else {
                    0
                }) + 1024,
                (CoderState::Enc(enc@), j as int, boost as int) == inner,
            decreases (if boost < cap@[i as int] {
                cap@[i as int] - boost
            } else {
                0
            }),
        {
            proof {
                lemma2_to64();
                lemma_i32_shl_mul(loop_logp, 3);
            }
            if !(tell + (loop_logp << 3u32) < total_bits - total_boost && boost < cap[i]) {
                break;
            }
            let flag = j < offsets[i];
            proof {
                lemma_enc_position(CoderState::Enc(enc@), total_bits - total_boost);
            }
            enc.enc_bit_logp(flag, loop_logp as u32);
            proof {
                lemma_tell_range(CoderState::Enc(enc@));
            }
            tell = enc.ec_tell_frac() as i32;
            if !flag {
                break;
            }
            boost += quanta;
            total_boost += quanta;
            loop_logp = 1;
            j += 1;
        }
        if j > 0 {
            dynalloc_logp = if dynalloc_logp - 1 > 2 {
                dynalloc_logp - 1
            } else {
                2
            };
        }
        offsets[i] = boost;
        proof {
            let rest = boost_bands(inner.0, e_bands@, i + 1, end as int, c as int, lm as int, cap@, want, room0 - inner.2, dynalloc_logp as int);
            lemma_boost_bands_len(inner.0, e_bands@, i + 1, end as int, c as int, lm as int, cap@, want, room0 - inner.2, dynalloc_logp as int);
            assert(cur_old.1 == seq![inner.2].add(rest.1));
            assert(target.1.subrange(i - start, end - start) == cur_old.1);
            assert(target.1[i - start] == cur_old.1[0]);
            assert(target.1.subrange(i + 1 - start, end - start) =~= cur_old.1.subrange(1, cur_old.1.len() as int));
            assert(cur_old.1.subrange(1, cur_old.1.len() as int) =~= rest.1);
        }
        i += 1;
    }
    total_boost
}

/// `decode_dynalloc_boost`: the decoder side of [`encode_dynalloc_boost`],
/// reading each band's granted boost (eighth-bits) into `offsets`. The
/// encoder's `total_bits - total_boost` guard equals this loop's decremented
/// `total_bits`, so the two stay in step.
pub fn decode_dynalloc_boost(
    dec: &mut RangeDecoder,
    e_bands: &[i16],
    start: usize,
    end: usize,
    c: i32,
    lm: i32,
    cap: &[i32],
    total_bits: i32,
    offsets: &mut [i32],
)
    requires
        old(dec)@.wf(),
        boost_inputs_ok(e_bands@, start as int, end as int, c as int, lm as int, cap@.len() as int, total_bits as int),
        end <= old(offsets)@.len(),
    ensures
        ({
            let r = boost_bands(
                CoderState::Dec(old(dec)@),
                e_bands@,
                start as int,
                end as int,
                c as int,
                lm as int,
                cap@,
                old(offsets)@,
                total_bits * 8,
                6,
            );
            &&& CoderState::Dec(final(dec)@) == r.0
            &&& final(offsets)@.len() == old(offsets)@.len()
            &&& forall|i: int| start <= i < end ==> final(offsets)@[i] == r.1[i - start]
            &&& forall|i: int|
                0 <= i < old(offsets)@.len() && !(start <= i < end) ==> final(offsets)@[i] == old(offsets)@[i]
        }),
        final(dec)@.wf(),
{
    proof {
        lemma2_to64();
        lemma_i32_shl_mul(total_bits, 3);
    }
    let mut total_bits = total_bits << 3u32;
    let ghost total0 = total_bits as int;
    let mut dynalloc_logp: i32 = 6;
    proof {
        lemma_tell_range(CoderState::Dec(dec@));
    }
    let mut tell = dec.ec_tell_frac() as i32;
    let ghost want = old(offsets)@;
    let ghost target = boost_bands(
        CoderState::Dec(dec@),
        e_bands@,
        start as int,
        end as int,
        c as int,
        lm as int,
        cap@,
        want,
        total_bits as int,
        6,
    );
    let mut i: usize = start;
    proof {
        lemma_boost_bands_len(CoderState::Dec(dec@), e_bands@, start as int, end as int, c as int, lm as int, cap@, want, total_bits as int, 6);
        assert(target.1.subrange(0, end - start) =~= target.1);
    }
    while i < end
        invariant
            boost_inputs_ok(e_bands@, start as int, end as int, c as int, lm as int, cap@.len() as int, total0 / 8),
            total0 == (total0 / 8) * 8,
            start <= i <= end,
            end <= offsets@.len(),
            offsets@.len() == want.len(),
            dec@.wf(),
            tell == dec@.tell_frac(),
            0 <= tell <= 0x7fff_ff40,
            (if total0 > 0 {
                -1024
            } else {
                total0 - 1024
            }) <= total_bits <= total0,
            2 <= dynalloc_logp <= 6,
            ({
                let cur = boost_bands(
                    CoderState::Dec(dec@),
                    e_bands@,
                    i as int,
                    end as int,
                    c as int,
                    lm as int,
                    cap@,
                    want,
                    total_bits as int,
                    dynalloc_logp as int,
                );
                &&& cur.0 == target.0
                &&& cur.2 == target.2
                &&& cur.1.len() == end - i
                &&& target.1.len() == end - start
                &&& target.1.subrange(i - start, end - start) == cur.1
            }),
            forall|k: int| start <= k < i ==> offsets@[k] == target.1[k - start],
            forall|k: int| 0 <= k < want.len() && !(start <= k < end) ==> offsets@[k] == want[k],
            forall|k: int| i <= k < want.len() ==> offsets@[k] == want[k],
        decreases end - i,
    {
        let quanta = band_quanta(e_bands, i, c, lm);
        let mut loop_logp = dynalloc_logp;
        let mut boost: i32 = 0;
        let ghost grants: int = 0;
        let ghost room0 = total_bits as int;
        let ghost s0 = CoderState::Dec(dec@);
        let ghost inner = boost_loop(s0, want[i as int] as int, quanta as int, cap@[i as int] as int, dynalloc_logp as int, room0, 0, 0);
        let ghost cur_old = boost_bands(s0, e_bands@, i as int, end as int, c as int, lm as int, cap@, want, room0, dynalloc_logp as int);
        loop
            invariant_except_break
                dec@.wf(),
                tell == dec@.tell_frac(),
                0 <= tell <= 0x7fff_ff40,
                1 <= quanta <= 1024,
                0 <= boost,
                total_bits == room0 - boost,
                room0 <= total0,
                (if total0 > 0 {
                    -1024
                } else {
                    total0 - 1024
                }) <= total_bits <= total0,
                -0x800_0000 <= total0 <= 0x800_0000,
                1 <= loop_logp <= 6,
                grants >= 0,
                grants > 0 ==> boost > 0,
                grants == 0 ==> boost == 0,
                i < end,
                i < cap@.len(),
                boost_loop(CoderState::Dec(dec@), want[i as int] as int, quanta as int, cap@[i as int] as int, loop_logp as int, total_bits as int, grants, boost as int) == inner,
            ensures
                dec@.wf(),
                tell == dec@.tell_frac(),
                0 <= tell <= 0x7fff_ff40,
                0 <= boost,
                total_bits == room0 - boost,
                (if total0 > 0 {
                    -1024
                } else {
                    total0 - 1024
                }) <= total_bits <= total0,
                (CoderState::Dec(dec@), grants, boost as int) == inner,
                grants >= 0,
                grants > 0 ==> boost > 0,
                grants == 0 ==> boost == 0,
            decreases (if boost < cap@[i as int] {
                cap@[i as int] - boost
            } else {
                0
            }),
        {
            proof {
                lemma2_to64();
                lemma_i32_shl_mul(loop_logp, 3);
            }
            if !(tell + (loop_logp << 3u32) < total_bits && boost < cap[i]) {
                break;
            }
            proof {
                lemma_enc_position(CoderState::Dec(dec@), total_bits as int);
            }
            let flag = dec.dec_bit_logp(loop_logp as u32);
            proof {
                lemma_tell_range(CoderState::Dec(dec@));
            }
            tell = dec.ec_tell_frac() as i32;
            if !flag {
                break;
            }
            boost += quanta;
            total_bits -= quanta;
            loop_logp = 1;
            proof {
                grants = grants + 1;
            }
        }
        offsets[i] = boost;
        if boost > 0 {
            dynalloc_logp = if dynalloc_logp - 1 > 2 {
                dynalloc_logp - 1
            } else {
                2
            };
        }
        proof {
            let rest = boost_bands(inner.0, e_bands@, i + 1, end as int, c as int, lm as int, cap@, want, room0 - inner.2, dynalloc_logp as int);
            lemma_boost_bands_len(inner.0, e_bands@, i + 1, end as int, c as int, lm as int, cap@, want, room0 - inner.2, dynalloc_logp as int);
            assert(cur_old.1 == seq![inner.2].add(rest.1));
            assert(target.1.subrange(i - start, end - start) == cur_old.1);
            assert(target.1[i - start] == cur_old.1[0]);
            assert(target.1.subrange(i + 1 - start, end - start) =~= cur_old.1.subrange(1, cur_old.1.len() as int));
            assert(cur_old.1.subrange(1, cur_old.1.len() as int) =~= rest.1);
        }
        i += 1;
    }
}

/// The fixed tables one allocation split reads: the band layout, the two
/// allocation rows it interpolates between, the per-band thresholds and caps.
pub struct InterpTables {
    pub e: Seq<i16>,
    pub log_n: Seq<i16>,
    pub start: int,
    pub end: int,
    pub c: int,
    pub lm: int,
    pub bits1: Seq<i32>,
    pub bits2: Seq<i32>,
    pub thresh: Seq<i32>,
    pub cap: Seq<i32>,
}

impl InterpTables {
    /// Below this a band gets no PVQ bits: one bit per channel, in
    /// eighth-bits.
    pub open spec fn floor(self) -> int {
        self.c * 8
    }

    /// The interpolated budget of band `j` at point `lo` (of 64).
    pub open spec fn tmp(self, j: int, lo: int) -> int {
        self.bits1[j] + (lo * self.bits2[j]) / 64
    }

    /// Some band in `j..end` meets its threshold at point `lo`.
    pub open spec fn reached(self, j: int, lo: int) -> bool
        decreases self.end - j,
    {
        j < self.end && (self.tmp(j, lo) >= self.thresh[j] || self.reached(j + 1, lo))
    }

    /// The trial sum of bands `j..end` at point `lo`: from the highest band
    /// meeting its threshold down, capped budgets; above it, the floor for
    /// bands that reach it.
    pub open spec fn trial_sum(self, j: int, lo: int) -> int
        decreases self.end - j,
    {
        if j >= self.end {
            0
        } else {
            let t = self.tmp(j, lo);
            (if self.reached(j, lo) {
                min_int(t, self.cap[j] as int)
            } else if t >= self.floor() {
                self.floor()
            } else {
                0
            }) + self.trial_sum(j + 1, lo)
        }
    }

    /// Bisection over the interpolation point in `lo..hi` for the largest
    /// trial sum within `total`.
    pub open spec fn interp_point(self, total: int, lo: int, hi: int, steps: int) -> int
        decreases steps,
    {
        if steps <= 0 {
            lo
        } else {
            let mid = (lo + hi) / 2;
            if self.trial_sum(self.start, mid) > total {
                self.interp_point(total, lo, mid, steps - 1)
            } else {
                self.interp_point(total, mid, hi, steps - 1)
            }
        }
    }

    /// The first budget of band `j` at point `lo`: as in the trial sum, but
    /// the floor is capped too.
    pub open spec fn first_pulse(self, j: int, lo: int) -> int {
        let t = self.tmp(j, lo);
        min_int(
            if self.reached(j, lo) {
                t
            } else if t >= self.floor() {
                self.floor()
            } else {
                0
            },
            self.cap[j] as int,
        )
    }

    /// The sum of the first budgets of bands `j..end`.
    pub open spec fn first_sum(self, j: int, lo: int) -> int
        decreases self.end - j,
    {
        if j >= self.end {
            0
        } else {
            self.first_pulse(j, lo) + self.first_sum(j + 1, lo)
        }
    }

    /// The bounds every split works within.
    pub open spec fn ok(self) -> bool {
        &&& 0 <= self.start < self.end <= 64
        &&& bands_ok(self.e, self.end)
        &&& self.log_n.len() >= self.end
        &&& 1 <= self.c <= 2
        &&& 0 <= self.lm <= 3
        &&& self.bits1.len() >= self.end
        &&& self.bits2.len() >= self.end
        &&& self.thresh.len() >= self.end
        &&& self.cap.len() >= self.end
        &&& forall|j: int| self.start <= j < self.end ==> 0 <= #[trigger] self.bits1[j] <= 0x10_0000
        &&& forall|j: int| self.start <= j < self.end ==> 0 <= #[trigger] self.bits2[j] <= 0x10_0000
        &&& forall|j: int| self.start <= j < self.end ==> 0 <= #[trigger] self.thresh[j] <= 0x10_0000
        &&& forall|j: int| self.start <= j < self.end ==> 0 <= #[trigger] self.cap[j] <= 0x10_0000
    }
}

proof fn lemma_tmp_bounds(t: InterpTables, j: int, lo: int)
    requires
        t.ok(),
        t.start <= j < t.end,
        0 <= lo <= 64,
    ensures
        0 <= t.tmp(j, lo) <= 0x20_0000,
{
    let b1 = t.bits1[j];
    let b2 = t.bits2[j];
    assert(0 <= lo * b2 <= 64 * b2) by (nonlinear_arith)
        requires
            0 <= lo <= 64,
            0 <= b2,
    ;
    vstd::arithmetic::div_mod::lemma_div_is_ordered(lo * b2, 64 * b2, 64);
    vstd::arithmetic::div_mod::lemma_div_multiples_vanish(b2 as int, 64);
    vstd::arithmetic::div_mod::lemma_div_pos_is_pos(lo * b2, 64);
}

proof fn lemma_trial_sum_bounds(t: InterpTables, j: int, lo: int)
    requires
        t.ok(),
        t.start <= j <= t.end,
        0 <= lo <= 64,
    ensures
        0 <= t.trial_sum(j, lo) <= (t.end - j) * 0x20_0000,
        0 <= t.first_sum(j, lo) <= (t.end - j) * 0x10_0000,
    decreases t.end - j,
{
    if j < t.end {
        lemma_tmp_bounds(t, j, lo);
        lemma_trial_sum_bounds(t, j + 1, lo);
    }
}

/// The interpolated budget of band `j`, computed as the allocator does.
fn interp_tmp(bits1: &[i32], bits2: &[i32], j: usize, lo: i32, Ghost(t): Ghost<InterpTables>) -> (res: i32)
    requires
        t.ok(),
        t.start <= j < t.end,
        0 <= lo <= 64,
        bits1@ == t.bits1,
        bits2@ == t.bits2,
    ensures
        res == t.tmp(j as int, lo as int),
        0 <= res <= 0x20_0000,
{
    proof {
        lemma_tmp_bounds(t, j as int, lo as int);
        assert(0 <= lo * bits2@[j as int] <= 64 * 0x10_0000) by (nonlinear_arith)
            requires
                0 <= lo <= 64,
                0 <= bits2@[j as int] <= 0x10_0000,
        ;
        lemma_i32_shr_div((lo * bits2@[j as int]) as i32, 6);
        lemma2_to64();
    }
    bits1[j] + ((lo * bits2[j]) >> 6u32)
}

/// The trial sum of bands `start..end` at interpolation point `mid`.
fn interp_trial_sum(
    bits1: &[i32],
    bits2: &[i32],
    thresh: &[i32],
    cap: &[i32],
    start: usize,
    end: usize,
    c: i32,
    mid: i32,
    Ghost(t): Ghost<InterpTables>,
) -> (psum: i32)
    requires
        t.ok(),
        t.start == start,
        t.end == end,
        t.c == c,
        0 <= mid <= 64,
        bits1@ == t.bits1,
        bits2@ == t.bits2,
        thresh@ == t.thresh,
        cap@ == t.cap,
    ensures
        psum == t.trial_sum(start as int, mid as int),
{
    let alloc_floor = c * 8;
    let mut psum: i32 = 0;
    let mut done = false;
    let mut j = end;
    while j > start
        invariant
            t.ok(),
            t.start == start,
            t.end == end,
            t.c == c,
            alloc_floor == t.floor(),
            0 <= mid <= 64,
            bits1@ == t.bits1,
            bits2@ == t.bits2,
            thresh@ == t.thresh,
            cap@ == t.cap,
            start <= j <= end,
            done == t.reached(j as int, mid as int),
            psum == t.trial_sum(j as int, mid as int),
        decreases j,
    {
        j -= 1;
        proof {
            lemma_trial_sum_bounds(t, j as int, mid as int);
            assert((end - j) * 0x20_0000 <= 64 * 0x20_0000) by (nonlinear_arith)
                requires
                    end - j <= 64,
            ;
        }
        let tmp = interp_tmp(bits1, bits2, j, mid, Ghost(t));
        if tmp >= thresh[j] || done {
            done = true;
            psum += if tmp < cap[j] {
                tmp
            } else {
                cap[j]
            };
        } else if tmp >= alloc_floor {
            psum += alloc_floor;
        }
    }
    psum
}

/// The band edges rise by one to 64 bins per band.
proof fn lemma_band_span(e: Seq<i16>, nb: int, a: int, b: int)
    requires
        bands_ok(e, nb),
        0 <= a <= b <= nb,
    ensures
        b - a <= e[b] - e[a] <= 64 * (b - a),
    decreases b - a,
{
    if a < b {
        assert(1 <= band_width(e, b - 1) <= 64);
        lemma_band_span(e, nb, a, b - 1);
    }
}

/// A truncated share of `x` over `d`, times `w <= d`, is no larger than `x`.
proof fn lemma_share_bound(x: int, d: int, w: int)
    requires
        0 < w <= d,
    ensures
        -(if x >= 0 { x } else { -x }) <= div_trunc(x, d) * w <= (if x >= 0 { x } else { -x }),
        -(if x >= 0 { x } else { -x }) <= div_trunc(x, d) * d <= (if x >= 0 { x } else { -x }),
        x >= 0 ==> 0 <= x - div_trunc(x, d) * d < d,
        x < 0 ==> -d < x - div_trunc(x, d) * d <= 0,
        x >= 0 ==> div_trunc(x, d) >= 0,
        x < 0 ==> div_trunc(x, d) <= 0,
{
    let ax = if x >= 0 {
        x
    } else {
        -x
    };
    let q = ax / d;
    vstd::arithmetic::div_mod::lemma_fundamental_div_mod(ax, d);
    assert(0 <= ax % d < d) by {
        vstd::arithmetic::div_mod::lemma_mod_bound(ax, d);
    }
    assert(0 <= q) by {
        vstd::arithmetic::div_mod::lemma_div_pos_is_pos(ax, d);
    }
    assert(q * w <= q * d) by (nonlinear_arith)
        requires
            q >= 0,
            w <= d,
    ;
    assert(0 <= q * w) by (nonlinear_arith)
        requires
            q >= 0,
            w > 0,
    ;
    assert(d * q == q * d) by (nonlinear_arith);
    if x >= 0 {
        assert(div_trunc(x, d) == q);
    } else {
        assert(div_trunc(x, d) == -q);
        assert((-q) * w == -(q * w)) by (nonlinear_arith);
        assert((-q) * d == -(q * d)) by (nonlinear_arith);
    }
}

/// `LOG2_FRAC_TABLE`: the cost (eighth-bits) of coding a uniform value in
/// `[0, i)`, reserved for the intensity parameter.
pub open spec fn log2_frac_table(i: int) -> int {
    seq![0int, 8, 13, 16, 19, 21, 23, 24, 26, 27, 28, 29, 30, 31, 32, 32, 33, 34, 34, 35, 36, 36, 37, 37][i]
}

/// Where the skip decisions stand: the bands still coded, the running sum,
/// the budget, the intensity reservation, the band budgets and the coder.
pub struct SkipState {
    pub coded_bands: int,
    pub psum: int,
    pub total: int,
    pub intensity_rsv: int,
    pub pulses: Seq<i32>,
    pub coder: CoderState,
}

/// The share of the budget left over band `j`, the last coded of `cb`: its
/// own budget plus an even share per coefficient and what is left of the
/// remainder past the bands below it.
pub open spec fn skip_band_bits(t: InterpTables, cb: int, j: int, total: int, psum: int, pulse: int) -> int {
    let denom = t.e[cb] - t.e[t.start];
    let left0 = total - psum;
    let percoeff = div_trunc(left0, denom);
    let left = left0 - denom * percoeff;
    let rem = max_int(left - (t.e[j] - t.e[t.start]), 0);
    pulse + percoeff * (t.e[cb] - t.e[j]) + rem
}

/// The encoder's rule for band `j` (the last coded) with `band_bits`: skip it
/// when the bands would otherwise get below the depth threshold, or always
/// near `start`.
pub open spec fn want_skip(t: InterpTables, coded_bands: int, j: int, band_bits: int, prev: int, signal_bandwidth: int) -> bool {
    let band_width = t.e[coded_bands] - t.e[j];
    let depth = if coded_bands > 17 {
        if j < prev {
            7int
        } else {
            9
        }
    } else {
        0
    };
    coded_bands <= t.start + 2 || (band_bits > (depth * band_width * pow2((t.lm + 3) as nat)) / 16
        && j <= signal_bandwidth)
}

/// Working back from the last coded band, decide which bands to skip: a band
/// whose share of the remaining budget clears its threshold codes a skip
/// flag (and stops the loop when set); otherwise, or after a kept flag, it
/// keeps at most the floor and gives up its intensity reservation step.
pub open spec fn skip_bands(t: InterpTables, skip_start: int, skip_rsv: int, prev: int, signal_bandwidth: int, st: SkipState) -> SkipState
    decreases st.coded_bands,
{
    let cb = st.coded_bands;
    let j = cb - 1;
    if j <= skip_start || cb <= 0 {
        SkipState { total: st.total + skip_rsv, ..st }
    } else {
        let band_bits0 = skip_band_bits(t, cb, j, st.total, st.psum, st.pulses[j] as int);
        let ask = band_bits0 >= max_int(t.thresh[j] as int, t.floor() + 8);
        let coded = code_bit_spec(st.coder, want_skip(t, cb, j, band_bits0, prev, signal_bandwidth), 1);
        if ask && coded.1 {
            SkipState { coder: coded.0, ..st }
        } else {
            let coder = if ask {
                coded.0
            } else {
                st.coder
            };
            let psum1 = if ask {
                st.psum + 8
            } else {
                st.psum
            };
            let band_bits = if ask {
                band_bits0 - 8
            } else {
                band_bits0
            };
            let irsv = if st.intensity_rsv > 0 {
                log2_frac_table(j - t.start)
            } else {
                st.intensity_rsv
            };
            let psum2 = psum1 - (st.pulses[j] + st.intensity_rsv) + irsv;
            let kept = if band_bits >= t.floor() {
                t.floor()
            } else {
                0
            };
            skip_bands(
                t,
                skip_start,
                skip_rsv,
                prev,
                signal_bandwidth,
                SkipState {
                    coded_bands: cb - 1,
                    psum: psum2 + kept,
                    total: st.total,
                    intensity_rsv: irsv,
                    pulses: st.pulses.update(j, kept as i32),
                    coder,
                },
            )
        }
    }
}

/// The share of the budget left over band `j`, computed as the allocator does.
fn band_share(e_bands: &[i16], start: usize, cb: usize, j: usize, total: i32, psum: i32, pulse: i32, Ghost(t): Ghost<InterpTables>) -> (bb: i32)
    requires
        t.ok(),
        t.e == e_bands@,
        t.start == start,
        start <= j,
        j + 1 == cb,
        cb <= t.end,
        0 <= total <= 0x10_0000,
        -0x400_1000 - 64 * 0x10_0040 <= psum <= 0x400_0000 + 64 * 72,
        0 <= pulse <= 0x10_0000,
    ensures
        bb == skip_band_bits(t, cb as int, j as int, total as int, psum as int, pulse as int),
        -0x2000_0000 <= bb <= 0x2000_0000,
{
    proof {
        lemma_band_span(e_bands@, t.end, start as int, cb as int);
        lemma_band_span(e_bands@, t.end, start as int, j as int);
        lemma_band_span(e_bands@, t.end, j as int, cb as int);
    }
    let mut left = total - psum;
    let denom = e_bands[cb] as i32 - e_bands[start] as i32;
    let percoeff = left / denom;
    proof {
        assert(percoeff == div_trunc(left as int, denom as int));
        lemma_share_bound(left as int, denom as int, (e_bands@[cb as int] - e_bands@[j as int]) as int);
        assert(denom * percoeff == percoeff * denom) by (nonlinear_arith);
    }
    left -= denom * percoeff;
    let rem0 = left - (e_bands[j] as i32 - e_bands[start] as i32);
    let rem = if rem0 > 0 {
        rem0
    } else {
        0
    };
    let band_width = e_bands[cb] as i32 - e_bands[j] as i32;
    pulse + percoeff * band_width + rem
}

/// The skip decisions, as the allocator runs them against the coder.
#[verifier::rlimit(50)]
fn run_skip_bands(
    coder: &mut Coder,
    e_bands: &[i16],
    thresh: &[i32],
    pulses: &mut [i32],
    start: usize,
    end: usize,
    c: i32,
    lm: i32,
    skip_start: i32,
    skip_rsv: i32,
    prev: i32,
    signal_bandwidth: i32,
    psum: i32,
    total: i32,
    intensity_rsv: i32,
    Ghost(t): Ghost<InterpTables>,
) -> (res: (i32, i32, i32, i32))
    requires
        t.ok(),
        t.e == e_bands@,
        t.thresh == thresh@,
        t.start == start,
        t.end == end,
        t.c == c,
        t.lm == lm,
        start <= skip_start < end,
        0 <= skip_rsv <= 8,
        0 <= total <= 0x10_0000,
        intensity_rsv == 0 || (end - start <= 23 && intensity_rsv == log2_frac_table(end - start)),
        old(pulses)@.len() >= end,
        forall|j: int| start <= j < end ==> 0 <= #[trigger] old(pulses)@[j] <= 0x10_0000,
        0 <= psum <= 0x400_0000,
        psum <= total,
        coder_state(*old(coder)).wf(),
        coder_state(*old(coder)).room_for(end - start),
    ensures
        match (*old(coder), *final(coder)) {
            (Coder::Enc(x), Coder::Enc(y)) => *final(x) == *final(y),
            (Coder::Dec(x), Coder::Dec(y)) => *final(x) == *final(y),
            _ => false,
        },
        ({
            let r = skip_bands(
                t,
                skip_start as int,
                skip_rsv as int,
                prev as int,
                signal_bandwidth as int,
                SkipState {
                    coded_bands: end as int,
                    psum: psum as int,
                    total: total as int,
                    intensity_rsv: intensity_rsv as int,
                    pulses: old(pulses)@,
                    coder: coder_state(*old(coder)),
                },
            );
            &&& res.0 == r.coded_bands
            &&& res.1 == r.psum
            &&& res.2 == r.total
            &&& res.3 == r.intensity_rsv
            &&& final(pulses)@ == r.pulses
            &&& coder_state(*final(coder)) == r.coder
        }),
        start < res.0 <= end,
        -0x800_0000 <= res.1 <= 0x800_0000,
        res.1 <= res.2 + 24 * 64,
        intensity_rsv == 0 ==> res.3 == 0,
        0 <= res.2 <= 0x10_0008,
        0 <= res.3 <= 37,
        final(pulses)@.len() == old(pulses)@.len(),
        forall|j: int| start <= j < end ==> 0 <= #[trigger] final(pulses)@[j] <= 0x10_0000,
        coder_state(*final(coder)).wf(),
        coder_state(*final(coder)).nbits_total() <= coder_state(*old(coder)).nbits_total() + 64 * (end - res.0 + 1),
{
    let table: [i32; 24] = [0, 8, 13, 16, 19, 21, 23, 24, 26, 27, 28, 29, 30, 31, 32, 32, 33, 34, 34, 35, 36, 36, 37, 37];
    proof {
        assert(table@ == seq![0i32, 8, 13, 16, 19, 21, 23, 24, 26, 27, 28, 29, 30, 31, 32, 32, 33, 34, 34, 35, 36, 36, 37, 37]);
    }
    let alloc_floor = c * 8;
    let ghost target = skip_bands(
        t,
        skip_start as int,
        skip_rsv as int,
        prev as int,
        signal_bandwidth as int,
        SkipState {
            coded_bands: end as int,
            psum: psum as int,
            total: total as int,
            intensity_rsv: intensity_rsv as int,
            pulses: old(pulses)@,
            coder: coder_state(*old(coder)),
        },
    );
    let ghost nbits0 = coder_state(*old(coder)).nbits_total();
    let ghost old_irsv_zero = intensity_rsv == 0;
    let mut coded_bands: i32 = end as i32;
    let mut psum = psum;
    let mut total = total;
    let mut intensity_rsv = intensity_rsv;
    loop
        invariant_except_break
            t.ok(),
            t.e == e_bands@,
            t.thresh == thresh@,
            t.start == start,
            t.end == end,
            t.c == c,
            t.lm == lm,
            alloc_floor == t.floor(),
            table@ == seq![0i32, 8, 13, 16, 19, 21, 23, 24, 26, 27, 28, 29, 30, 31, 32, 32, 33, 34, 34, 35, 36, 36, 37, 37],
            start <= skip_start < coded_bands <= end,
            0 <= skip_rsv <= 8,
            0 <= total <= 0x10_0000,
            0 <= intensity_rsv <= 37,
            intensity_rsv == 0 || (end - start <= 23 && intensity_rsv == log2_frac_table(coded_bands - start)),
            old_irsv_zero ==> intensity_rsv == 0,
            psum <= total + 24 * (end - coded_bands),
            pulses@.len() == old(pulses)@.len(),
            pulses@.len() >= end,
            forall|j: int| start <= j < end ==> 0 <= #[trigger] pulses@[j] <= 0x10_0000,
            -(end - coded_bands) * 0x10_0040 <= psum <= 0x400_0000 + (end - coded_bands) * 72,
            coder_state(*coder).wf(),
            coder_state(*coder).nbits_total() <= nbits0 + 64 * (end - coded_bands),
            nbits0 + 64 * (end - start) <= crate::range_coder::EC_NBITS_LIMIT,
            match (*old(coder), *coder) {
                (Coder::Enc(x), Coder::Enc(y)) => *final(x) == *final(y),
                (Coder::Dec(x), Coder::Dec(y)) => *final(x) == *final(y),
                _ => false,
            },
            skip_bands(
                t,
                skip_start as int,
                skip_rsv as int,
                prev as int,
                signal_bandwidth as int,
                SkipState {
                    coded_bands: coded_bands as int,
                    psum: psum as int,
                    total: total as int,
                    intensity_rsv: intensity_rsv as int,
                    pulses: pulses@,
                    coder: coder_state(*coder),
                },
            ) == target,
        ensures
            start < coded_bands <= end,
            coded_bands - 1 <= skip_start ==> total <= 0x10_0008,
            0 <= total <= 0x10_0008,
            0 <= intensity_rsv <= 37,
            old_irsv_zero ==> intensity_rsv == 0,
            -0x800_0000 <= psum <= 0x800_0000,
            psum <= total + 24 * 64,
            pulses@.len() == old(pulses)@.len(),
            forall|j: int| start <= j < end ==> 0 <= #[trigger] pulses@[j] <= 0x10_0000,
            coder_state(*coder).wf(),
            coder_state(*coder).nbits_total() <= nbits0 + 64 * (end - coded_bands + 1),
            match (*old(coder), *coder) {
                (Coder::Enc(x), Coder::Enc(y)) => *final(x) == *final(y),
                (Coder::Dec(x), Coder::Dec(y)) => *final(x) == *final(y),
                _ => false,
            },
            target.coded_bands == coded_bands,
            target.psum == psum,
            target.total == total,
            target.intensity_rsv == intensity_rsv,
            target.pulses == pulses@,
            target.coder == coder_state(*coder),
        decreases coded_bands,
    {
        let j = coded_bands - 1;
        if j <= skip_start {
            total += skip_rsv;
            break;
        }
        let ju = j as usize;
        let cb = coded_bands as usize;
        proof {
            lemma_band_span(e_bands@, end as int, ju as int, cb as int);
            assert((end - coded_bands) * 0x10_0040 <= 64 * 0x10_0040) by (nonlinear_arith)
                requires
                    0 <= end - coded_bands <= 64,
            ;
            assert((end - coded_bands) * 72 <= 64 * 72) by (nonlinear_arith)
                requires
                    0 <= end - coded_bands <= 64,
            ;
        }
        let mut band_bits = band_share(e_bands, start, cb, ju, total, psum, pulses[ju], Ghost(t));
        let band_width = e_bands[cb] as i32 - e_bands[ju] as i32;
        let floor8 = alloc_floor + 8;
        let need = if thresh[ju] > floor8 {
            thresh[ju]
        } else {
            floor8
        };
        let ghost st_coder = coder_state(*coder);
        if band_bits >= need {
            let depth: i32 = if coded_bands > 17 {
                if j < prev {
                    7
                } else {
                    9
                }
            } else {
                0
            };
            proof {
                lemma2_to64();
                if lm < 3 {
                    lemma_pow2_strictly_increases((lm + 3) as nat, 6);
                }
                assert(0 <= depth * band_width <= 9 * 4096) by (nonlinear_arith)
                    requires
                        0 <= depth <= 9,
                        0 <= band_width <= 4096,
                ;
                assert(0 <= (depth * band_width) * pow2((lm + 3) as nat) <= 9 * 4096 * 64) by (nonlinear_arith)
                    requires
                        0 <= depth * band_width <= 9 * 4096,
                        1 <= pow2((lm + 3) as nat) <= 64,
                ;
                lemma_i32_shl_mul((depth * band_width) as i32, (lm + 3) as u32);
                lemma_i32_shr_div((((depth * band_width) as i32) << ((lm + 3) as u32)) as i32, 4);
                assert(depth * band_width * pow2((lm + 3) as nat) == (depth * band_width) * pow2((lm + 3) as nat));
            }
            let lim = ((depth * band_width) << ((lm + 3) as u32)) >> 4u32;
            let do_skip = coded_bands <= start as i32 + 2 || (band_bits > lim && j <= signal_bandwidth);
            let skip = code_bit_logp(coder, do_skip, 1);
            if skip {
                break;
            }
            psum += 8;
            band_bits -= 8;
        }
        psum -= pulses[ju] + intensity_rsv;
        proof {
            assert((end - coded_bands) * 24 <= 64 * 24) by (nonlinear_arith)
                requires
                    0 <= end - coded_bands <= 64,
            ;
            if intensity_rsv > 0 {
                assert(log2_frac_table(j - start) <= log2_frac_table(coded_bands - start));
            }
        }
        if intensity_rsv > 0 {
            intensity_rsv = table[ju - start];
        }
        psum += intensity_rsv;
        if band_bits >= alloc_floor {
            psum += alloc_floor;
            pulses[ju] = alloc_floor;
        } else {
            pulses[ju] = 0;
        }
        coded_bands -= 1;
    }
    (coded_bands, psum, total, intensity_rsv)
}

/// The intensity and dual-stereo parameters after the skip decisions: the
/// intensity band (coded as a uniform value over the coded bands, or 0
/// without a reservation) and the dual-stereo flag (coded only when intensity
/// is above `start` and a bit was reserved; the encoder keeps its value);
/// yields intensity, dual stereo, the budget and the coder.
pub open spec fn stereo_params(
    t: InterpTables,
    cb: int,
    total: int,
    intensity_rsv: int,
    dual_stereo_rsv: int,
    intensity_in: int,
    dual_in: int,
    s: CoderState,
) -> (int, int, int, CoderState) {
    let r1 = if intensity_rsv > 0 {
        let r = code_uint_spec(s, (min_int(intensity_in, cb) - t.start) as u32, (cb + 1 - t.start) as u32);
        (r.0, t.start + r.1)
    } else {
        (s, 0)
    };
    let s1 = r1.0;
    let intensity = r1.1;
    let total2 = if intensity <= t.start {
        total + dual_stereo_rsv
    } else {
        total
    };
    let dsrsv = if intensity <= t.start {
        0
    } else {
        dual_stereo_rsv
    };
    if dsrsv > 0 {
        let r = code_bit_spec(s1, dual_in != 0, 1);
        let dual = match s1 {
            CoderState::Enc(_) => dual_in,
            CoderState::Dec(_) => if r.1 {
                1int
            } else {
                0
            },
        };
        (intensity, dual, total2, r.0)
    } else {
        (intensity, 0, total2, s1)
    }
}

/// Codes the intensity and dual-stereo parameters.
fn code_stereo_params(
    coder: &mut Coder,
    start: usize,
    cb: i32,
    total: i32,
    intensity_rsv: i32,
    dual_stereo_rsv: i32,
    intensity: &mut i32,
    dual_stereo: &mut i32,
    Ghost(t): Ghost<InterpTables>,
) -> (total_out: i32)
    requires
        t.start == start,
        (start as int) < cb <= 64,
        0 <= total <= 0x10_0008,
        0 <= intensity_rsv <= 37,
        0 <= dual_stereo_rsv <= 8,
        coder_state(*old(coder)).wf(),
        coder_state(*old(coder)).room_for(2),
        *old(coder) is Enc && intensity_rsv > 0 ==> start <= *old(intensity),
    ensures
        match (*old(coder), *final(coder)) {
            (Coder::Enc(x), Coder::Enc(y)) => *final(x) == *final(y),
            (Coder::Dec(x), Coder::Dec(y)) => *final(x) == *final(y),
            _ => false,
        },
        ({
            let r = stereo_params(
                t,
                cb as int,
                total as int,
                intensity_rsv as int,
                dual_stereo_rsv as int,
                *old(intensity) as int,
                *old(dual_stereo) as int,
                coder_state(*old(coder)),
            );
            &&& *final(intensity) == r.0
            &&& *final(dual_stereo) == r.1
            &&& total_out == r.2
            &&& coder_state(*final(coder)) == r.3
        }),
        0 <= total_out <= 0x10_0010,
        0 <= *final(intensity) <= cb,
        coder_state(*final(coder)).wf(),
        coder_state(*final(coder)).nbits_total() <= coder_state(*old(coder)).nbits_total() + 128,
{
    let ghost s0 = coder_state(*coder);
    let mut total = total;
    let mut dual_stereo_rsv = dual_stereo_rsv;
    if intensity_rsv > 0 {
        let is_enc = coder.is_encode();
        let want: u32 = if is_enc {
            let m = if *intensity < cb {
                *intensity
            } else {
                cb
            };
            (m - start as i32) as u32
        } else {
            0
        };
        let ft = (cb + 1 - start as i32) as u32;
        let v = code_uint(coder, want, ft);
        *intensity = start as i32 + v as i32;
        proof {
            if !is_enc {
                assert(coder_state(*old(coder)) is Dec);
            }
        }
    } else {
        *intensity = 0;
    }
    if *intensity <= start as i32 {
        total += dual_stereo_rsv;
        dual_stereo_rsv = 0;
    }
    if dual_stereo_rsv > 0 {
        let is_enc = coder.is_encode();
        let b = code_bit_logp(coder, *dual_stereo != 0, 1);
        if !is_enc {
            *dual_stereo = if b {
                1
            } else {
                0
            };
        }
    } else {
        *dual_stereo = 0;
    }
    total
}

/// Adds the even per-coefficient share `percoeff` to each coded band.
pub open spec fn share_out(t: InterpTables, pulses: Seq<i32>, cb: int, percoeff: int) -> Seq<i32> {
    Seq::new(
        pulses.len(),
        |j: int|
            if t.start <= j < cb {
                (pulses[j] + percoeff * band_width(t.e, j)) as i32
            } else {
                pulses[j]
            },
    )
}

/// Hands the remainder `left` out to the coded bands `j..cb` in order, each
/// at most its width.
pub open spec fn hand_out(t: InterpTables, pulses: Seq<i32>, j: int, cb: int, left: int) -> Seq<i32>
    decreases cb - j,
{
    if j >= cb {
        pulses
    } else {
        let tmp = min_int(left, band_width(t.e, j));
        hand_out(t, pulses.update(j, (pulses[j] + tmp) as i32), j + 1, cb, left - tmp)
    }
}

/// The offset that rounds a band's fine-energy bits: half its `log N` cost
/// (`nc`) less the fine offset per degree of freedom, more for two-bin bands,
/// and raised for the second and third fine bits.
pub open spec fn fine_offset_spec(nc: int, den: int, n: int, pj: int) -> int {
    let off0 = nc / 2 - den * 21 + if n == 2 {
        den * 2
    } else {
        0
    };
    if pj + off0 < den * 16 {
        off0 + nc / 4
    } else if pj + off0 < den * 24 {
        off0 + nc / 8
    } else {
        off0
    }
}

/// The fine-energy bits of a band with `pj` eighth-bits: rounded per degree
/// of freedom, never more than the band can pay for, at most 8.
pub open spec fn fine_ebits_spec(pj: int, off: int, den: int, c: int, stereo: int) -> int {
    let e1 = (max_int(pj + off + den * 4, 0) / den) / 8;
    let e2 = if c * e1 > pj / 8 {
        (pj / (stereo + 1)) / 8
    } else {
        e1
    };
    min_int(e2, 8)
}

/// The split of coded band `j` with `bit` eighth-bits (its budget plus the
/// carried balance) into PVQ bits and fine-energy bits: yields the PVQ bits,
/// the fine bits, the fine priority and the excess over the band's cap.
pub open spec fn fine_band(t: InterpTables, j: int, bit: int, intensity: int, dual: int) -> (int, int, int, int) {
    let c = t.c;
    let n = band_width(t.e, j) * pow2(t.lm as nat);
    let stereo = if c > 1 {
        1int
    } else {
        0
    };
    if n > 1 {
        let excess = max_int(bit - t.cap[j], 0);
        let pj = bit - excess;
        let den = c * n + if c == 2 && n > 2 && dual == 0 && j < intensity {
            1int
        } else {
            0
        };
        let nc = den * (t.log_n[j] + t.lm * 8);
        let off = fine_offset_spec(nc, den, n, pj);
        let e3 = fine_ebits_spec(pj, off, den, c, stereo);
        let f = if e3 * (den * 8) >= pj + off {
            1int
        } else {
            0
        };
        (pj - c * e3 * 8, e3, f, excess)
    } else {
        let excess = max_int(bit - c * 8, 0);
        (bit - excess, 0, 1, excess)
    }
}

/// Where the fine split stands: the three per-band outputs and the balance
/// carried to the next band.
pub struct FineState {
    pub pulses: Seq<i32>,
    pub ebits: Seq<i32>,
    pub fine_priority: Seq<i32>,
    pub balance: int,
}

/// The fine split of coded bands `j..cb`: each band takes its budget plus the
/// balance, spends what its cap leaves on fine energy (up to 8 bits), and
/// passes the rest on as the new balance.
pub open spec fn fine_split(t: InterpTables, st: FineState, j: int, cb: int, intensity: int, dual: int) -> FineState
    decreases cb - j,
{
    if j >= cb {
        st
    } else {
        let stereo = if t.c > 1 {
            1int
        } else {
            0
        };
        let r = fine_band(t, j, st.pulses[j] + st.balance, intensity, dual);
        let extra_fine = min_int(r.3 / (8 * (stereo + 1)), 8 - r.1);
        let extra_bits = extra_fine * t.c * 8;
        let ej = if r.3 > 0 {
            r.1 + extra_fine
        } else {
            r.1
        };
        let fj = if r.3 > 0 {
            if extra_bits >= r.3 - st.balance {
                1int
            } else {
                0
            }
        } else {
            r.2
        };
        let excess = if r.3 > 0 {
            r.3 - extra_bits
        } else {
            r.3
        };
        fine_split(
            t,
            FineState {
                pulses: st.pulses.update(j, r.0 as i32),
                ebits: st.ebits.update(j, ej as i32),
                fine_priority: st.fine_priority.update(j, fj as i32),
                balance: excess,
            },
            j + 1,
            cb,
            intensity,
            dual,
        )
    }
}

/// The skipped bands `cb..end` spend all their bits on fine energy.
pub open spec fn skipped_out(t: InterpTables, st: FineState, cb: int) -> FineState {
    let stereo = if t.c > 1 {
        1int
    } else {
        0
    };
    let eb = |j: int| (st.pulses[j] as int / (stereo + 1)) / 8;
    FineState {
        pulses: Seq::new(st.pulses.len(), |j: int| if cb <= j < t.end { 0i32 } else { st.pulses[j] }),
        ebits: Seq::new(
            st.ebits.len(),
            |j: int|
                if cb <= j < t.end {
                    eb(j) as i32
                } else {
                    st.ebits[j]
                },
        ),
        fine_priority: Seq::new(
            st.fine_priority.len(),
            |j: int|
                if cb <= j < t.end {
                    if eb(j) < 1 {
                        1i32
                    } else {
                        0i32
                    }
                } else {
                    st.fine_priority[j]
                },
        ),
        balance: st.balance,
    }
}

/// Halving once more after dividing by `2^s` (`s` at most one) divides by
/// `s + 1` instead.
proof fn lemma_floor_div_div_i32(x: int, s: int)
    requires
        0 <= s <= 1,
    ensures
        x / pow2(s as nat) as int == x / (s + 1),
{
    lemma2_to64();
}

/// The magnitude of an integer.
pub open spec fn abs_int(x: int) -> int {
    if x >= 0 {
        x
    } else {
        -x
    }
}

/// Hands the budget left after the skip decisions to the coded bands
/// `start..cb`: an even share per coefficient, then the remainder band by band.
fn spread_budget(
    e_bands: &[i16],
    pulses: &mut [i32],
    start: usize,
    cb: usize,
    total: i32,
    psum: i32,
    Ghost(t): Ghost<InterpTables>,
)
    requires
        t.ok(),
        t.e == e_bands@,
        t.start == start,
        start < cb <= t.end,
        0 <= total <= 0x10_0010,
        -0x800_0000 <= psum <= 0x800_0000,
        psum <= total + 2048,
        old(pulses)@.len() >= t.end,
        forall|j: int| start <= j < t.end ==> 0 <= #[trigger] old(pulses)@[j] <= 0x10_0000,
    ensures
        ({
            let denom = t.e[cb as int] - t.e[start as int];
            let pc = div_trunc(total - psum, denom);
            let left = (total - psum) - denom * pc;
            &&& final(pulses)@ == hand_out(t, share_out(t, old(pulses)@, cb as int, pc), start as int, cb as int, left)
            &&& (abs_int(pc) + 1) * denom <= abs_int(total - psum) + denom
            &&& forall|j: int|
                start <= j < cb ==> -(abs_int(pc) * band_width(t.e, j) + 4096) <= #[trigger] final(pulses)@[j]
                    <= 0x10_0000 + (abs_int(pc) + 1) * band_width(t.e, j)
        }),
        final(pulses)@.len() == old(pulses)@.len(),
        forall|j: int| cb <= j < t.end ==> #[trigger] final(pulses)@[j] == old(pulses)@[j],
        forall|j: int| start <= j < cb ==> -8192 <= #[trigger] final(pulses)@[j],
{
    proof {
        lemma_band_span(e_bands@, t.end, start as int, cb as int);
    }
    let left0 = total - psum;
    let denom = e_bands[cb] as i32 - e_bands[start] as i32;
    let percoeff = left0 / denom;
    let ghost pc = percoeff as int;
    proof {
        assert(percoeff == div_trunc(left0 as int, denom as int));
        lemma_share_bound(left0 as int, denom as int, denom as int);
        assert(denom * percoeff == percoeff * denom) by (nonlinear_arith);
        assert((abs_int(pc) + 1) * denom == abs_int(pc) * denom + denom) by (nonlinear_arith);
        if pc < 0 {
            assert(abs_int(pc) * denom == -(pc * denom)) by (nonlinear_arith)
                requires
                    pc < 0,
            ;
        } else {
            assert(abs_int(pc) * denom == pc * denom);
        }
    }
    let mut left = left0 - denom * percoeff;
    let ghost p0 = pulses@;
    let ghost shared = share_out(t, p0, cb as int, pc);
    let mut j: usize = start;
    while j < cb
        invariant
            t.ok(),
            t.e == e_bands@,
            t.start == start,
            start <= j <= cb <= t.end,
            pulses@.len() == p0.len(),
            p0.len() >= t.end,
            forall|k: int| start <= k < t.end ==> 0 <= #[trigger] p0[k] <= 0x10_0000,
            pc == percoeff,
            denom == t.e[cb as int] - t.e[start as int],
            abs_int(pc) * denom <= abs_int(left0 as int),
            -0x900_0000 <= left0 <= 0x900_0000,
            1 <= denom <= 4096,
            shared == share_out(t, p0, cb as int, pc),
            forall|k: int|
                start <= k < j ==> #[trigger] pulses@[k] == shared[k] && -(abs_int(pc) * band_width(t.e, k))
                    <= pulses@[k] - p0[k] <= abs_int(pc) * band_width(t.e, k),
            forall|k: int| !(start <= k < j) && 0 <= k < p0.len() ==> #[trigger] pulses@[k] == p0[k],
        decreases cb - j,
    {
        let ghost wg = band_width(t.e, j as int);
        proof {
            lemma_band_span(e_bands@, t.end, j as int, (j + 1) as int);
            lemma_band_span(e_bands@, t.end, start as int, j as int);
            lemma_band_span(e_bands@, t.end, (j + 1) as int, cb as int);
            assert(1 <= wg <= denom);
            assert(abs_int(pc) * wg <= abs_int(pc) * denom) by (nonlinear_arith)
                requires
                    1 <= wg <= denom,
            ;
            assert(-(abs_int(pc) * wg) <= pc * wg <= abs_int(pc) * wg) by (nonlinear_arith)
                requires
                    wg >= 1,
            ;
        }
        let w = e_bands[j + 1] as i32 - e_bands[j] as i32;
        assert(w == wg);
        pulses[j] = pulses[j] + percoeff * w;
        assert(pulses@[j as int] == shared[j as int]);
        j += 1;
    }
    let mut j: usize = start;
    let ghost target = hand_out(t, pulses@, start as int, cb as int, left as int);
    proof {
        assert forall|k: int| 0 <= k < p0.len() implies #[trigger] pulses@[k] == shared[k] by {
            if !(start <= k < cb) {
                assert(shared[k] == p0[k]);
            }
        }
        assert(pulses@ =~= shared);
    }
    while j < cb
        invariant
            t.ok(),
            t.e == e_bands@,
            t.start == start,
            start <= j <= cb <= t.end,
            pulses@.len() == p0.len(),
            p0.len() >= t.end,
            forall|k: int| start <= k < t.end ==> 0 <= #[trigger] p0[k] <= 0x10_0000,
            abs_int(pc) * denom <= abs_int(left0 as int),
            -0x900_0000 <= left0 <= 0x900_0000,
            1 <= denom <= 4096,
            -4096 < left < 4096,
            j > start ==> left >= 0,
            denom == t.e[cb as int] - t.e[start as int],
            hand_out(t, pulses@, j as int, cb as int, left as int) == target,
            forall|k: int|
                start <= k < cb ==> -(abs_int(pc) * band_width(t.e, k)) <= #[trigger] shared[k] - p0[k]
                    <= abs_int(pc) * band_width(t.e, k),
            forall|k: int|
                start <= k < j ==> shared[k] - 4096 <= #[trigger] pulses@[k] <= shared[k] + band_width(t.e, k),
            forall|k: int| j <= k < p0.len() ==> #[trigger] pulses@[k] == shared[k],
        decreases cb - j,
    {
        let ghost wg = band_width(t.e, j as int);
        proof {
            lemma_band_span(e_bands@, t.end, j as int, (j + 1) as int);
            lemma_band_span(e_bands@, t.end, start as int, j as int);
            lemma_band_span(e_bands@, t.end, (j + 1) as int, cb as int);
            assert(abs_int(pc) * wg <= abs_int(pc) * denom) by (nonlinear_arith)
                requires
                    1 <= wg <= denom,
            ;
        }
        let w = e_bands[j + 1] as i32 - e_bands[j] as i32;
        assert(w == wg);
        let tmp = if left < w {
            left
        } else {
            w
        };
        pulses[j] = pulses[j] + tmp;
        left -= tmp;
        j += 1;
    }
    proof {
        assert forall|k: int| cb <= k < t.end implies #[trigger] pulses@[k] == p0[k] by {
            assert(shared[k] == p0[k]);
        }
        assert forall|k: int|
            start <= k < cb implies -(abs_int(pc) * band_width(t.e, k) + 4096) <= #[trigger] pulses@[k]
                <= 0x10_0000 + (abs_int(pc) + 1) * band_width(t.e, k) by {
            let wk = band_width(t.e, k);
            assert((abs_int(pc) + 1) * wk == abs_int(pc) * wk + wk) by (nonlinear_arith);
            assert(shared[k] - 4096 <= pulses@[k] <= shared[k] + wk);
        }
        assert forall|k: int| start <= k < cb implies -8192 <= #[trigger] pulses@[k] by {
            let wk = band_width(t.e, k);
            lemma_band_span(e_bands@, t.end, start as int, k);
            lemma_band_span(e_bands@, t.end, k, k + 1);
            lemma_band_span(e_bands@, t.end, k + 1, cb as int);
            assert(shared[k] - 4096 <= pulses@[k]);
            assert(-(abs_int(pc) * wk) <= shared[k] - p0[k]);
            assert(0 <= p0[k]);
            if pc < 0 {
                assert(1 <= wk <= denom);
                assert(abs_int(pc) * wk <= abs_int(pc) * denom) by (nonlinear_arith)
                    requires
                        1 <= wk <= denom,
                ;
                assert(left0 < 0);
                assert(abs_int(left0 as int) <= 2048);
                assert(abs_int(pc) * wk <= 2048);
                assert(shared[k] >= -2048);
            } else {
                assert(0 <= pc * wk) by (nonlinear_arith)
                    requires
                        pc >= 0,
                        wk >= 1,
                ;
                assert(pc * wk <= pc * denom) by (nonlinear_arith)
                    requires
                        pc >= 0,
                        1 <= wk <= denom,
                ;
                assert(shared[k] == (p0[k] + pc * wk) as i32);
                assert(shared[k] >= 0);
            }
        }
        assert(pulses@ == target);
    }
}

/// The fine-energy rounding offset, computed as the allocator does.
fn fine_offset(nc: i32, den: i32, n: i32, pj: i32) -> (off: i32)
    requires
        -0x300_0000 <= nc <= 0x300_0000,
        2 <= den <= 1025,
        -0x11_0000 <= pj <= 0x2000_0000,
    ensures
        off == fine_offset_spec(nc as int, den as int, n as int, pj as int),
        -0x600_0000 <= off <= 0x600_0000,
{
    proof {
        lemma_i32_shr_div(nc, 1);
        lemma_i32_shr_div(nc, 2);
        lemma_i32_shr_div(nc, 3);
        lemma2_to64();
    }
    let mut offset = (nc >> 1u32) - den * 21;
    if n == 2 {
        offset += den * 2;
    }
    if pj + offset < den * 16 {
        offset += nc >> 2u32;
    } else if pj + offset < den * 24 {
        offset += nc >> 3u32;
    }
    offset
}

/// The fine-energy bits, computed as the allocator does.
fn fine_ebits(pj: i32, off: i32, den: i32, c: i32, stereo: i32) -> (e: i32)
    requires
        -0x600_0000 <= off <= 0x600_0000,
        2 <= den <= 1025,
        -0x11_0000 <= pj <= 0x2000_0000,
        1 <= c <= 2,
        stereo == c - 1,
    ensures
        e == fine_ebits_spec(pj as int, off as int, den as int, c as int, stereo as int),
        -0x2_2001 <= e <= 8,
{
    let e0 = pj + off + den * 4;
    let e0 = if e0 > 0 {
        e0
    } else {
        0
    };
    proof {
        vstd::arithmetic::div_mod::lemma_div_pos_is_pos(e0 as int, den as int);
        vstd::arithmetic::div_mod::lemma_div_is_ordered_by_denominator(e0 as int, 1, den as int);
        lemma_i32_shr_div((e0 / den) as i32, 3);
        lemma_i32_shr_div(pj, 3);
        lemma_i32_shr_div(pj, stereo as u32);
        lemma_i32_shr_div((pj >> (stereo as u32)) as i32, 3);
        lemma_floor_div_div_i32(pj as int, stereo as int);
        lemma2_to64();
    }
    let mut e = (e0 / den) >> 3u32;
    proof {
        let q = pj as int / (stereo + 1);
        if stereo == 0 {
            assert(pj as int / 1 == pj) by (nonlinear_arith);
        } else {
            vstd::arithmetic::div_mod::lemma_div_is_ordered(-0x11_0000, pj as int, 2);
            assert(-0x11_0000int / 2 == -0x8_8000);
        }
        assert(q >= -0x11_0000);
        vstd::arithmetic::div_mod::lemma_div_is_ordered(-0x11_0000, q, 8);
        assert(-0x11_0000int / 8 == -0x2_2000);
        assert(0 <= e <= 0x1000_0000);
        assert(0 <= c * e <= 0x2000_0000) by (nonlinear_arith)
            requires
                0 <= e <= 0x1000_0000,
                1 <= c <= 2,
        ;
    }
    if c * e > (pj >> 3u32) {
        e = (pj >> (stereo as u32)) >> 3u32;
    }
    if e > 8 {
        e = 8;
    }
    e
}

/// The split of coded band `j`, computed as the allocator does.
#[verifier::rlimit(60)]
fn fine_band_exec(
    e_bands: &[i16],
    log_n: &[i16],
    cap: &[i32],
    j: usize,
    c: i32,
    lm: i32,
    bit: i32,
    intensity: i32,
    dual: i32,
    Ghost(t): Ghost<InterpTables>,
) -> (r: (i32, i32, i32, i32))
    requires
        t.ok(),
        t.e == e_bands@,
        t.log_n == log_n@,
        t.cap == cap@,
        t.c == c,
        t.lm == lm,
        t.start <= j < t.end,
        -0x11_0000 <= bit <= 0x2000_0000,
    ensures
        (r.0 as int, r.1 as int, r.2 as int, r.3 as int) == fine_band(t, j as int, bit as int, intensity as int, dual as int),
        -0x2_2001 <= r.1 <= 8,
        0 <= r.2 <= 1,
        0 <= r.3 <= (if bit > 0 { bit as int } else { 0 }),
        -0x4000_0000 <= r.0 <= 0x4000_0000,
{
    let w = e_bands[j + 1] as i32 - e_bands[j] as i32;
    proof {
        assert(1 <= band_width(t.e, j as int) <= 64);
        lemma2_to64();
        if lm < 3 {
            lemma_pow2_strictly_increases(lm as nat, 3);
        }
        assert(1 <= w * pow2(lm as nat) <= 512) by (nonlinear_arith)
            requires
                1 <= w <= 64,
                1 <= pow2(lm as nat) <= 8,
        ;
        lemma_i32_shl_mul(w, lm as u32);
    }
    let n = w << (lm as u32);
    let stereo: i32 = if c > 1 {
        1
    } else {
        0
    };
    if n > 1 {
        let excess0 = bit - cap[j];
        let excess = if excess0 > 0 {
            excess0
        } else {
            0
        };
        let pj = bit - excess;
        proof {
            assert(2 <= c * n <= 1024) by (nonlinear_arith)
                requires
                    1 <= c <= 2,
                    2 <= n <= 512,
            ;
        }
        proof {
            assert(2 <= c * n <= 1024) by (nonlinear_arith)
                requires
                    1 <= c <= 2,
                    2 <= n <= 512,
            ;
        }
        let den = c * n + if c == 2 && n > 2 && dual == 0 && (j as i32) < intensity {
            1i32
        } else {
            0
        };
        proof {
            assert(2 <= den <= 1025);
            assert(-1025 * 32792 <= den * (log_n@[j as int] + lm * 8) <= 1025 * 32792) by (nonlinear_arith)
                requires
                    2 <= den <= 1025,
                    -32768 <= log_n@[j as int] <= 32767,
                    0 <= lm <= 3,
            ;
        }
        let nc = den * (log_n[j] as i32 + lm * 8);
        let offset = fine_offset(nc, den, n, pj);
        let e = fine_ebits(pj, offset, den, c, stereo);
        proof {
            assert(-0x2_2001 * 8200 <= e * (den * 8) <= 8 * 8200) by (nonlinear_arith)
                requires
                    -0x2_2001 <= e <= 8,
                    16 <= den * 8 <= 8200,
            ;
        }
        let f: i32 = if e * (den * 8) >= pj + offset {
            1
        } else {
            0
        };
        proof {
            assert(-0x2_2001 * 16 <= c * e * 8 <= 128) by (nonlinear_arith)
                requires
                    -0x2_2001 <= e <= 8,
                    1 <= c <= 2,
            ;
        }
        (pj - c * e * 8, e, f, excess)
    } else {
        let excess0 = bit - c * 8;
        let excess = if excess0 > 0 {
            excess0
        } else {
            0
        };
        (bit - excess, 0, 1, excess)
    }
}

/// The fine split of the coded bands, run as the allocator does; returns the
/// final balance.
fn run_fine_split(
    e_bands: &[i16],
    log_n: &[i16],
    cap: &[i32],
    pulses: &mut [i32],
    ebits: &mut [i32],
    fine_priority: &mut [i32],
    start: usize,
    cb: usize,
    c: i32,
    lm: i32,
    intensity: i32,
    dual: i32,
    Ghost(t): Ghost<InterpTables>,
    Ghost(a): Ghost<int>,
) -> (balance: i32)
    requires
        t.ok(),
        t.e == e_bands@,
        t.log_n == log_n@,
        t.cap == cap@,
        t.c == c,
        t.lm == lm,
        t.start == start,
        start < cb <= t.end,
        old(pulses)@.len() >= t.end,
        old(ebits)@.len() >= t.end,
        old(fine_priority)@.len() >= t.end,
        0 <= a,
        a * (t.e[cb as int] - t.e[start as int]) <= 0x900_0000,
        forall|k: int|
            start <= k < cb ==> -8192 <= #[trigger] old(pulses)@[k] <= 0x10_0000 + a * band_width(t.e, k),
    ensures
        ({
            let r = fine_split(
                t,
                FineState {
                    pulses: old(pulses)@,
                    ebits: old(ebits)@,
                    fine_priority: old(fine_priority)@,
                    balance: 0,
                },
                start as int,
                cb as int,
                intensity as int,
                dual as int,
            );
            &&& final(pulses)@ == r.pulses
            &&& final(ebits)@ == r.ebits
            &&& final(fine_priority)@ == r.fine_priority
            &&& balance == r.balance
        }),
        final(pulses)@.len() == old(pulses)@.len(),
        final(ebits)@.len() == old(ebits)@.len(),
        final(fine_priority)@.len() == old(fine_priority)@.len(),
{
    let stereo: i32 = if c > 1 {
        1
    } else {
        0
    };
    let ghost target = fine_split(
        t,
        FineState {
            pulses: pulses@,
            ebits: ebits@,
            fine_priority: fine_priority@,
            balance: 0,
        },
        start as int,
        cb as int,
        intensity as int,
        dual as int,
    );
    let ghost p0 = pulses@;
    let mut balance: i32 = 0;
    let mut j: usize = start;
    while j < cb
        invariant
            t.ok(),
            t.e == e_bands@,
            t.log_n == log_n@,
            t.cap == cap@,
            t.c == c,
            t.lm == lm,
            t.start == start,
            stereo == c - 1,
            start <= j <= cb <= t.end,
            pulses@.len() == p0.len(),
            p0.len() >= t.end,
            ebits@.len() == old(ebits)@.len(),
            fine_priority@.len() == old(fine_priority)@.len(),
            ebits@.len() >= t.end,
            fine_priority@.len() >= t.end,
            0 <= a,
            a * (t.e[cb as int] - t.e[start as int]) <= 0x900_0000,
            forall|k: int| j <= k < cb ==> #[trigger] pulses@[k] == p0[k],
            forall|k: int| start <= k < cb ==> -8192 <= #[trigger] p0[k] <= 0x10_0000 + a * band_width(t.e, k),
            0 <= balance <= 0x10_0000 * (j - start) + a * (t.e[j as int] - t.e[start as int]),
            fine_split(
                t,
                FineState {
                    pulses: pulses@,
                    ebits: ebits@,
                    fine_priority: fine_priority@,
                    balance: balance as int,
                },
                j as int,
                cb as int,
                intensity as int,
                dual as int,
            ) == target,
        decreases cb - j,
    {
        let ghost wj = band_width(t.e, j as int);
        proof {
            lemma_band_span(e_bands@, t.end, start as int, j as int);
            lemma_band_span(e_bands@, t.end, j as int, (j + 1) as int);
            lemma_band_span(e_bands@, t.end, (j + 1) as int, cb as int);
            assert(a * (t.e[j as int] - t.e[start as int]) + a * wj == a * (t.e[(j + 1) as int] - t.e[start as int])) by (nonlinear_arith)
                requires
                    wj == t.e[(j + 1) as int] - t.e[j as int],
            ;
            assert(a * (t.e[(j + 1) as int] - t.e[start as int]) <= a * (t.e[cb as int] - t.e[start as int])) by (nonlinear_arith)
                requires
                    a >= 0,
                    t.e[(j + 1) as int] - t.e[start as int] <= t.e[cb as int] - t.e[start as int],
            ;
            assert(0x10_0000 * (j - start) <= 0x10_0000 * 64) by (nonlinear_arith)
                requires
                    0 <= j - start <= 64,
            ;
        }
        let bit = pulses[j] + balance;
        let r = fine_band_exec(e_bands, log_n, cap, j, c, lm, bit, intensity, dual, Ghost(t));
        let pj = r.0;
        let mut ej = r.1;
        let mut fj = r.2;
        let mut excess = r.3;
        if excess > 0 {
            proof {
                lemma_i32_shr_div(excess, (stereo + 3) as u32);
                lemma2_to64();
                lemma_pow2_adds(stereo as nat, 3);
                assert(pow2((stereo + 3) as nat) == 8 * c);
            }
            let extra_fine0 = excess >> ((stereo + 3) as u32);
            let cap_fine = 8 - ej;
            let extra_fine = if extra_fine0 < cap_fine {
                extra_fine0
            } else {
                cap_fine
            };
            proof {
                vstd::arithmetic::div_mod::lemma_fundamental_div_mod(excess as int, 8 * c);
                assert(0 <= extra_fine * c * 8 <= excess) by (nonlinear_arith)
                    requires
                        0 <= extra_fine <= excess as int / (8 * c),
                        excess == (8 * c) * (excess as int / (8 * c)) + excess as int % (8 * c),
                        0 <= excess as int % (8 * c),
                        1 <= c <= 2,
                ;
                vstd::arithmetic::div_mod::lemma_mod_bound(excess as int, 8 * c);
                assert(extra_fine * c * 8 == (extra_fine * c) * 8) by (nonlinear_arith);
                assert(pow2(stereo as nat) == c);
            }
            ej += extra_fine;
            let extra_bits = (extra_fine * c) * 8;
            fj = if extra_bits >= excess - balance {
                1
            } else {
                0
            };
            excess -= extra_bits;
        }
        pulses[j] = pj;
        ebits[j] = ej;
        fine_priority[j] = fj;
        balance = excess;
        j += 1;
    }
    balance
}

/// The skipped bands `cb..end` spend all their bits on fine energy.
fn run_skipped(
    pulses: &mut [i32],
    ebits: &mut [i32],
    fine_priority: &mut [i32],
    cb: usize,
    end: usize,
    c: i32,
    Ghost(t): Ghost<InterpTables>,
)
    requires
        t.ok(),
        t.c == c,
        t.end == end,
        cb <= end,
        old(pulses)@.len() >= end,
        old(ebits)@.len() >= end,
        old(fine_priority)@.len() >= end,
    ensures
        ({
            let r = skipped_out(
                t,
                FineState {
                    pulses: old(pulses)@,
                    ebits: old(ebits)@,
                    fine_priority: old(fine_priority)@,
                    balance: 0,
                },
                cb as int,
            );
            &&& final(pulses)@ == r.pulses
            &&& final(ebits)@ == r.ebits
            &&& final(fine_priority)@ == r.fine_priority
        }),
{
    let stereo: i32 = if c > 1 {
        1
    } else {
        0
    };
    let ghost p0 = pulses@;
    let ghost e0 = ebits@;
    let ghost f0 = fine_priority@;
    let ghost r = skipped_out(t, FineState { pulses: p0, ebits: e0, fine_priority: f0, balance: 0 }, cb as int);
    let mut j = cb;
    while j < end
        invariant
            t.ok(),
            t.c == c,
            t.end == end,
            stereo == c - 1,
            cb <= j <= end,
            pulses@.len() == p0.len(),
            ebits@.len() == e0.len(),
            fine_priority@.len() == f0.len(),
            p0.len() >= end,
            e0.len() >= end,
            f0.len() >= end,
            r == skipped_out(t, FineState { pulses: p0, ebits: e0, fine_priority: f0, balance: 0 }, cb as int),
            forall|k: int| 0 <= k < p0.len() && !(cb <= k < j) ==> #[trigger] pulses@[k] == p0[k],
            forall|k: int| 0 <= k < e0.len() && !(cb <= k < j) ==> #[trigger] ebits@[k] == e0[k],
            forall|k: int| 0 <= k < f0.len() && !(cb <= k < j) ==> #[trigger] fine_priority@[k] == f0[k],
            forall|k: int| cb <= k < j ==> #[trigger] pulses@[k] == r.pulses[k],
            forall|k: int| cb <= k < j ==> #[trigger] ebits@[k] == r.ebits[k],
            forall|k: int| cb <= k < j ==> #[trigger] fine_priority@[k] == r.fine_priority[k],
        decreases end - j,
    {
        proof {
            lemma_i32_shr_div(pulses@[j as int], stereo as u32);
            lemma_i32_shr_div((pulses@[j as int] >> (stereo as u32)) as i32, 3);
            lemma_floor_div_div_i32(pulses@[j as int] as int, stereo as int);
            lemma2_to64();
        }
        let e = (pulses[j] >> (stereo as u32)) >> 3u32;
        ebits[j] = e;
        pulses[j] = 0;
        fine_priority[j] = if e < 1 {
            1
        } else {
            0
        };
        j += 1;
    }
    proof {
        assert(pulses@ =~= r.pulses);
        assert(ebits@ =~= r.ebits);
        assert(fine_priority@ =~= r.fine_priority);
    }
}

/// Bisection keeps a point whose trial sum fits the budget.
proof fn lemma_interp_point_fits(t: InterpTables, total: int, lo: int, hi: int, steps: int)
    requires
        t.ok(),
        0 <= lo <= hi <= 64,
        0 <= steps,
        t.trial_sum(t.start, lo) <= total,
    ensures
        t.trial_sum(t.start, t.interp_point(total, lo, hi, steps)) <= total,
        0 <= t.interp_point(total, lo, hi, steps) <= 64,
    decreases steps,
{
    if steps > 0 {
        let mid = (lo + hi) / 2;
        if t.trial_sum(t.start, mid) > total {
            lemma_interp_point_fits(t, total, lo, mid, steps - 1);
        } else {
            lemma_interp_point_fits(t, total, mid, hi, steps - 1);
        }
    }
}

/// The first budgets never add up to more than the trial sum.
proof fn lemma_first_sum_le_trial(t: InterpTables, j: int, lo: int)
    requires
        t.ok(),
        t.start <= j <= t.end,
        0 <= lo <= 64,
    ensures
        t.first_sum(j, lo) <= t.trial_sum(j, lo),
    decreases t.end - j,
{
    if j < t.end {
        lemma_first_sum_le_trial(t, j + 1, lo);
    }
}

/// The budgets at the interpolation point: each band's first budget.
pub open spec fn first_pulses_out(t: InterpTables, pulses: Seq<i32>, lo: int) -> Seq<i32> {
    Seq::new(
        pulses.len(),
        |j: int|
            if t.start <= j < t.end {
                t.first_pulse(j, lo) as i32
            } else {
                pulses[j]
            },
    )
}

/// Sets each band's first budget at interpolation point `lo`; returns their
/// sum.
fn run_first_pulses(
    bits1: &[i32],
    bits2: &[i32],
    thresh: &[i32],
    cap: &[i32],
    pulses: &mut [i32],
    start: usize,
    end: usize,
    c: i32,
    lo: i32,
    Ghost(t): Ghost<InterpTables>,
) -> (psum: i32)
    requires
        t.ok(),
        t.start == start,
        t.end == end,
        t.c == c,
        0 <= lo <= 64,
        bits1@ == t.bits1,
        bits2@ == t.bits2,
        thresh@ == t.thresh,
        cap@ == t.cap,
        old(pulses)@.len() >= end,
    ensures
        final(pulses)@ == first_pulses_out(t, old(pulses)@, lo as int),
        psum == t.first_sum(start as int, lo as int),
        0 <= psum <= 0x400_0000,
        forall|j: int| start <= j < end ==> 0 <= #[trigger] final(pulses)@[j] <= 0x10_0000,
{
    let alloc_floor = c * 8;
    let ghost p0 = pulses@;
    let mut psum: i32 = 0;
    let mut done = false;
    let mut j = end;
    while j > start
        invariant
            t.ok(),
            t.start == start,
            t.end == end,
            t.c == c,
            alloc_floor == t.floor(),
            0 <= lo <= 64,
            bits1@ == t.bits1,
            bits2@ == t.bits2,
            thresh@ == t.thresh,
            cap@ == t.cap,
            start <= j <= end,
            pulses@.len() == p0.len(),
            p0.len() >= end,
            done == t.reached(j as int, lo as int),
            psum == t.first_sum(j as int, lo as int),
            forall|k: int| j <= k < end ==> #[trigger] pulses@[k] == t.first_pulse(k, lo as int),
            forall|k: int| 0 <= k < p0.len() && !(j <= k < end) ==> #[trigger] pulses@[k] == p0[k],
            forall|k: int| j <= k < end ==> 0 <= #[trigger] t.first_pulse(k, lo as int) <= 0x10_0000,
        decreases j,
    {
        j -= 1;
        proof {
            lemma_trial_sum_bounds(t, j as int, lo as int);
            assert((end - j) * 0x10_0000 <= 64 * 0x10_0000) by (nonlinear_arith)
                requires
                    end - j <= 64,
            ;
            lemma_tmp_bounds(t, j as int, lo as int);
        }
        let mut tmp = interp_tmp(bits1, bits2, j, lo, Ghost(t));
        if tmp < thresh[j] && !done {
            tmp = if tmp >= alloc_floor {
                alloc_floor
            } else {
                0
            };
        } else {
            done = true;
        }
        if tmp > cap[j] {
            tmp = cap[j];
        }
        pulses[j] = tmp;
        psum += tmp;
    }
    proof {
        assert(pulses@ =~= first_pulses_out(t, p0, lo as int));
        lemma_trial_sum_bounds(t, start as int, lo as int);
        assert((end - start) * 0x10_0000 <= 64 * 0x10_0000) by (nonlinear_arith)
            requires
                end - start <= 64,
        ;
    }
    psum
}

/// The mode tables the allocation reads.
pub struct AllocInput<'a> {
    pub e_bands: &'a [i16],
    pub log_n: &'a [i16],
    pub alloc_vectors: &'a [u8],
    pub nb_alloc_vectors: usize,
    pub nb_e_bands: usize,
    pub start: usize,
    pub end: usize,
    pub c: i32,
    pub lm: i32,
}

/// The tables of one split: the mode's band layout with the two rows, the
/// thresholds and the caps it interpolates over.
pub open spec fn split_tables(inp: &AllocInput, bits1: Seq<i32>, bits2: Seq<i32>, thresh: Seq<i32>, cap: Seq<i32>) -> InterpTables {
    InterpTables {
        e: inp.e_bands@,
        log_n: inp.log_n@,
        start: inp.start as int,
        end: inp.end as int,
        c: inp.c as int,
        lm: inp.lm as int,
        bits1,
        bits2,
        thresh,
        cap,
    }
}

/// Everything an allocation split decides.
pub struct SplitResult {
    pub pulses: Seq<i32>,
    pub ebits: Seq<i32>,
    pub fine_priority: Seq<i32>,
    pub coded_bands: int,
    pub balance: int,
    pub intensity: int,
    pub dual_stereo: int,
    pub coder: CoderState,
}

/// `interp_bits2pulses` as a function: interpolate between the two rows at
/// the largest point whose trial sum fits `total`, set the first budgets,
/// decide the skipped bands, code the stereo parameters, hand out what is
/// left and split each coded band into PVQ and fine-energy bits.
pub open spec fn split_spec(
    t: InterpTables,
    skip_start: int,
    total: int,
    skip_rsv: int,
    intensity_in: int,
    intensity_rsv: int,
    dual_in: int,
    dual_stereo_rsv: int,
    pulses: Seq<i32>,
    ebits: Seq<i32>,
    fine_priority: Seq<i32>,
    prev: int,
    signal_bandwidth: int,
    s: CoderState,
) -> SplitResult {
    let lo = t.interp_point(total, 0, 64, 6);
    let sk = skip_bands(
        t,
        skip_start,
        skip_rsv,
        prev,
        signal_bandwidth,
        SkipState {
            coded_bands: t.end,
            psum: t.first_sum(t.start, lo),
            total,
            intensity_rsv,
            pulses: first_pulses_out(t, pulses, lo),
            coder: s,
        },
    );
    let cb = sk.coded_bands;
    let sp = stereo_params(t, cb, sk.total, sk.intensity_rsv, dual_stereo_rsv, intensity_in, dual_in, sk.coder);
    let denom = t.e[cb] - t.e[t.start];
    let pc = div_trunc(sp.2 - sk.psum, denom);
    let left = (sp.2 - sk.psum) - denom * pc;
    let spread = hand_out(t, share_out(t, sk.pulses, cb, pc), t.start, cb, left);
    let f = fine_split(
        t,
        FineState { pulses: spread, ebits, fine_priority, balance: 0 },
        t.start,
        cb,
        sp.0,
        sp.1,
    );
    let g = skipped_out(t, f, cb);
    SplitResult {
        pulses: g.pulses,
        ebits: g.ebits,
        fine_priority: g.fine_priority,
        coded_bands: cb,
        balance: f.balance,
        intensity: sp.0,
        dual_stereo: sp.1,
        coder: sp.3,
    }
}

/// Hands out what is left after the stereo parameters, splits the coded
/// bands and spends the skipped bands on fine energy; returns the balance.
fn finish_split(
    e_bands: &[i16],
    log_n: &[i16],
    cap: &[i32],
    pulses: &mut [i32],
    ebits: &mut [i32],
    fine_priority: &mut [i32],
    start: usize,
    cb: usize,
    end: usize,
    c: i32,
    lm: i32,
    total: i32,
    psum: i32,
    intensity: i32,
    dual: i32,
    Ghost(t): Ghost<InterpTables>,
) -> (balance: i32)
    requires
        t.ok(),
        t.e == e_bands@,
        t.log_n == log_n@,
        t.cap == cap@,
        t.c == c,
        t.lm == lm,
        t.start == start,
        t.end == end,
        start < cb <= end,
        0 <= total <= 0x10_0010,
        -0x800_0000 <= psum <= 0x800_0000,
        psum <= total + 2048,
        old(pulses)@.len() >= end,
        old(ebits)@.len() >= end,
        old(fine_priority)@.len() >= end,
        forall|j: int| start <= j < end ==> 0 <= #[trigger] old(pulses)@[j] <= 0x10_0000,
    ensures
        ({
            let denom = t.e[cb as int] - t.e[start as int];
            let pc = div_trunc(total - psum, denom);
            let left = (total - psum) - denom * pc;
            let spread = hand_out(t, share_out(t, old(pulses)@, cb as int, pc), start as int, cb as int, left);
            let f = fine_split(
                t,
                FineState { pulses: spread, ebits: old(ebits)@, fine_priority: old(fine_priority)@, balance: 0 },
                start as int,
                cb as int,
                intensity as int,
                dual as int,
            );
            let g = skipped_out(t, f, cb as int);
            &&& final(pulses)@ == g.pulses
            &&& final(ebits)@ == g.ebits
            &&& final(fine_priority)@ == g.fine_priority
            &&& balance == f.balance
        }),
{
    spread_budget(e_bands, pulses, start, cb, total, psum, Ghost(t));
    let ghost denom = t.e[cb as int] - t.e[start as int];
    let ghost pc = div_trunc(total - psum, denom);
    proof {
        lemma_band_span(t.e, t.end, start as int, cb as int);
    }
    let balance = run_fine_split(
        e_bands,
        log_n,
        cap,
        pulses,
        ebits,
        fine_priority,
        start,
        cb,
        c,
        lm,
        intensity,
        dual,
        Ghost(t),
        Ghost(abs_int(pc) + 1),
    );
    run_skipped(pulses, ebits, fine_priority, cb, end, c, Ghost(t));
    balance
}

/// Bisects for the interpolation point whose trial sum just fits `total`.
fn find_interp_point(
    bits1: &[i32],
    bits2: &[i32],
    thresh: &[i32],
    cap: &[i32],
    start: usize,
    end: usize,
    c: i32,
    total: i32,
    Ghost(t): Ghost<InterpTables>,
) -> (lo: i32)
    requires
        t.ok(),
        t.start == start,
        t.end == end,
        t.c == c,
        bits1@ == t.bits1,
        bits2@ == t.bits2,
        thresh@ == t.thresh,
        cap@ == t.cap,
    ensures
        lo == t.interp_point(total as int, 0, 64, 6),
        0 <= lo <= 64,
{
    let mut lo: i32 = 0;
    let mut hi: i32 = 64;
    let mut step: i32 = 0;
    let ghost target_lo = t.interp_point(total as int, 0, 64, 6);
    while step < ALLOC_STEPS
        invariant
            t.ok(),
            start == t.start,
            end == t.end,
            c == t.c,
            bits1@ == t.bits1,
            bits2@ == t.bits2,
            thresh@ == t.thresh,
            cap@ == t.cap,
            0 <= step <= 6,
            0 <= lo <= hi <= 64,
            t.interp_point(total as int, lo as int, hi as int, 6 - step) == target_lo,
        decreases 6 - step,
    {
        let mid = (lo + hi) >> 1u32;
        proof {
            lemma_i32_shr_div((lo + hi) as i32, 1);
            lemma2_to64();
        }
        let psum = interp_trial_sum(bits1, bits2, thresh, cap, start, end, c, mid, Ghost(t));
        if psum > total {
            hi = mid;
        } else {
            lo = mid;
        }
        step += 1;
    }
    lo
}

/// `interp_bits2pulses`: interpolates between the two allocation rows,
/// decides which bands to skip, and splits each band's budget into
/// fine-energy (`ebits`) and PVQ (`pulses`) bits. Returns
/// `(coded_bands, balance)`.
#[verifier::rlimit(60)]
fn interp_bits2pulses(
    inp: &AllocInput,
    coder: &mut Coder,
    skip_start: i32,
    bits1: &[i32],
    bits2: &[i32],
    thresh: &[i32],
    cap: &[i32],
    total: i32,
    skip_rsv: i32,
    intensity: &mut i32,
    intensity_rsv: i32,
    dual_stereo: &mut i32,
    dual_stereo_rsv: i32,
    pulses: &mut [i32],
    ebits: &mut [i32],
    fine_priority: &mut [i32],
    prev: i32,
    signal_bandwidth: i32,
) -> (res: (usize, i32))
    requires
        split_tables(inp, bits1@, bits2@, thresh@, cap@).ok(),
        inp.start <= skip_start < inp.end,
        0 <= skip_rsv <= 8,
        0 <= total <= 0x10_0000,
        intensity_rsv == 0 || (inp.end - inp.start <= 23 && intensity_rsv == log2_frac_table(inp.end - inp.start)),
        0 <= dual_stereo_rsv <= 8,
        split_tables(inp, bits1@, bits2@, thresh@, cap@).trial_sum(inp.start as int, 0) <= total,
        old(pulses)@.len() >= inp.end,
        old(ebits)@.len() >= inp.end,
        old(fine_priority)@.len() >= inp.end,
        coder_state(*old(coder)).wf(),
        coder_state(*old(coder)).room_for(inp.end - inp.start + 2),
        *old(coder) is Enc && intensity_rsv > 0 ==> inp.start <= *old(intensity),
    ensures
        match (*old(coder), *final(coder)) {
            (Coder::Enc(x), Coder::Enc(y)) => *final(x) == *final(y),
            (Coder::Dec(x), Coder::Dec(y)) => *final(x) == *final(y),
            _ => false,
        },
        ({
            let r = split_spec(
                split_tables(inp, bits1@, bits2@, thresh@, cap@),
                skip_start as int,
                total as int,
                skip_rsv as int,
                *old(intensity) as int,
                intensity_rsv as int,
                *old(dual_stereo) as int,
                dual_stereo_rsv as int,
                old(pulses)@,
                old(ebits)@,
                old(fine_priority)@,
                prev as int,
                signal_bandwidth as int,
                coder_state(*old(coder)),
            );
            &&& final(pulses)@ == r.pulses
            &&& final(ebits)@ == r.ebits
            &&& final(fine_priority)@ == r.fine_priority
            &&& res.0 == r.coded_bands
            &&& res.1 == r.balance
            &&& *final(intensity) == r.intensity
            &&& *final(dual_stereo) == r.dual_stereo
            &&& coder_state(*final(coder)) == r.coder
        }),
        coder_state(*final(coder)).wf(),
{
    let ghost t = split_tables(inp, bits1@, bits2@, thresh@, cap@);
    let c = inp.c;
    let lm = inp.lm;
    let start = inp.start;
    let end = inp.end;
    let lo = find_interp_point(bits1, bits2, thresh, cap, start, end, c, total, Ghost(t));
    proof {
        lemma_interp_point_fits(t, total as int, 0, 64, 6);
        lemma_first_sum_le_trial(t, start as int, lo as int);
    }
    let psum = run_first_pulses(bits1, bits2, thresh, cap, pulses, start, end, c, lo, Ghost(t));
    let (coded_bands, psum, total, intensity_rsv) = run_skip_bands(
        coder,
        inp.e_bands,
        thresh,
        pulses,
        start,
        end,
        c,
        lm,
        skip_start,
        skip_rsv,
        prev,
        signal_bandwidth,
        psum,
        total,
        intensity_rsv,
        Ghost(t),
    );
    proof {
        if *coder is Enc {
            assert(*old(coder) is Enc);
        }
    }
    let total = code_stereo_params(
        coder,
        start,
        coded_bands,
        total,
        intensity_rsv,
        dual_stereo_rsv,
        intensity,
        dual_stereo,
        Ghost(t),
    );
    let cb = coded_bands as usize;
    let balance = finish_split(
        inp.e_bands,
        inp.log_n,
        cap,
        pulses,
        ebits,
        fine_priority,
        start,
        cb,
        end,
        c,
        lm,
        total,
        psum,
        *intensity,
        *dual_stereo,
        Ghost(t),
    );
    (cb, balance)
}

/// The result of [`clt_compute_allocation`].
pub struct Allocation {
    pub coded_bands: usize,
    pub balance: i32,
    pub intensity: i32,
    pub dual_stereo: i32,
}

/// What the allocator needs of the mode tables and of its inputs.
pub open spec fn alloc_input_ok(inp: &AllocInput) -> bool {
    &&& inp.start < inp.end <= inp.nb_e_bands
    &&& inp.end <= 64
    &&& bands_ok(inp.e_bands@, inp.end as int)
    &&& inp.log_n@.len() >= inp.end
    &&& 1 <= inp.c <= 2
    &&& 0 <= inp.lm <= 3
    &&& inp.c == 2 ==> inp.end - inp.start <= 23
    &&& 1 <= inp.nb_alloc_vectors
    &&& inp.nb_alloc_vectors * inp.nb_e_bands <= inp.alloc_vectors.len()
}

/// Band `j`'s width.
pub open spec fn alloc_width(inp: &AllocInput, j: int) -> int {
    band_width(inp.e_bands@, j)
}

/// The bits allocation row `row` gives band `j`, before trim and boost.
pub open spec fn row_bits(inp: &AllocInput, row: int, j: int) -> int {
    (inp.c * alloc_width(inp, j) * inp.alloc_vectors@[row * inp.nb_e_bands + j] * pow2(inp.lm as nat)) / 4
}

/// Below this threshold a band never gets PVQ bits.
pub open spec fn thresh_spec(inp: &AllocInput, j: int) -> int {
    max_int(inp.c * 8, (3 * alloc_width(inp, j) * pow2((inp.lm + 3) as nat)) / 16)
}

/// The tilt of the allocation curve for band `j`, less for single-coefficient
/// bands.
pub open spec fn trim_spec(inp: &AllocInput, alloc_trim: int, j: int) -> int {
    let n0 = alloc_width(inp, j);
    (inp.c * n0 * (alloc_trim - 5 - inp.lm) * (inp.end - j - 1) * pow2((inp.lm + 3) as nat)) / 64 - if n0
        * pow2(inp.lm as nat) == 1 {
        inp.c * 8
    } else {
        0
    }
}

/// A row's bits for band `j` with the trim applied to a nonzero allocation.
pub open spec fn trimmed(b: int, trim: int) -> int {
    if b > 0 {
        max_int(b + trim, 0)
    } else {
        b
    }
}

/// Band `j`'s budget in row `row`: trimmed and boosted.
pub open spec fn row_budget(inp: &AllocInput, offsets: Seq<i32>, alloc_trim: int, row: int, j: int) -> int {
    trimmed(row_bits(inp, row, j), trim_spec(inp, alloc_trim, j)) + offsets[j]
}

/// Some band in `j..end` meets its threshold in row `row`.
pub open spec fn row_reached(inp: &AllocInput, offsets: Seq<i32>, alloc_trim: int, row: int, j: int) -> bool
    decreases inp.end - j,
{
    j < inp.end && (row_budget(inp, offsets, alloc_trim, row, j) >= thresh_spec(inp, j) || row_reached(
        inp,
        offsets,
        alloc_trim,
        row,
        j + 1,
    ))
}

/// The trial sum of row `row` over bands `j..end` (as in the split's trial
/// sum).
pub open spec fn row_sum(inp: &AllocInput, offsets: Seq<i32>, cap: Seq<i32>, alloc_trim: int, row: int, j: int) -> int
    decreases inp.end - j,
{
    if j >= inp.end {
        0
    } else {
        let b = row_budget(inp, offsets, alloc_trim, row, j);
        (if row_reached(inp, offsets, alloc_trim, row, j) {
            min_int(b, cap[j] as int)
        } else if b >= inp.c * 8 {
            inp.c * 8
        } else {
            0
        }) + row_sum(inp, offsets, cap, alloc_trim, row, j + 1)
    }
}

/// Bisection over the allocation rows `lo..=hi` for the first row whose trial
/// sum exceeds `total`.
pub open spec fn row_search(inp: &AllocInput, offsets: Seq<i32>, cap: Seq<i32>, alloc_trim: int, total: int, lo: int, hi: int) -> int
    decreases (if hi >= lo {
        hi - lo + 1
    } else {
        0
    }),
{
    let mid = (lo + hi) / 2;
    let over = row_sum(inp, offsets, cap, alloc_trim, mid, inp.start as int) > total;
    let lo2 = if over {
        lo
    } else {
        mid + 1
    };
    let hi2 = if over {
        mid - 1
    } else {
        hi
    };
    if lo2 > hi2 || hi < lo {
        lo2
    } else {
        row_search(inp, offsets, cap, alloc_trim, total, lo2, hi2)
    }
}

/// The last band in `start..j` asking for a boost, or `start`.
pub open spec fn last_boosted(offsets: Seq<i32>, start: int, j: int) -> int
    decreases j - start,
{
    if j <= start {
        start
    } else if offsets[j - 1] > 0 {
        j - 1
    } else {
        last_boosted(offsets, start, j - 1)
    }
}

/// The budget after the reservations: one bit to end the skip flags, and
/// for stereo the intensity parameter and one bit for dual stereo; yields
/// the budget, the skip, intensity and dual-stereo reservations.
pub open spec fn reservations(c: int, start: int, end: int, total_in: int) -> (int, int, int, int) {
    let t0 = max_int(total_in, 0);
    let skip_rsv = if t0 >= 8 {
        8int
    } else {
        0
    };
    let t1 = t0 - skip_rsv;
    if c == 2 {
        let irsv = log2_frac_table(end - start);
        if irsv > t1 {
            (t1, skip_rsv, 0, 0)
        } else {
            let t2 = t1 - irsv;
            let dsrsv = if t2 >= 8 {
                8int
            } else {
                0
            };
            (t2 - dsrsv, skip_rsv, irsv, dsrsv)
        }
    } else {
        (t1, skip_rsv, 0, 0)
    }
}

/// Band `j`'s lower row budget: row `lo`, trimmed, boosted unless it is the
/// empty row.
pub open spec fn lower_budget(inp: &AllocInput, offsets: Seq<i32>, alloc_trim: int, lo: int, j: int) -> int {
    trimmed(row_bits(inp, lo, j), trim_spec(inp, alloc_trim, j)) + if lo > 0 {
        offsets[j] as int
    } else {
        0
    }
}

/// Band `j`'s step to the upper row `hi` (the cap past the last row): trimmed,
/// boosted, never negative.
pub open spec fn upper_step(inp: &AllocInput, offsets: Seq<i32>, cap: Seq<i32>, alloc_trim: int, lo: int, hi: int, j: int) -> int {
    let b2 = if hi >= inp.nb_alloc_vectors {
        cap[j] as int
    } else {
        row_bits(inp, hi, j)
    };
    max_int(trimmed(b2, trim_spec(inp, alloc_trim, j)) + offsets[j] - lower_budget(inp, offsets, alloc_trim, lo, j), 0)
}

/// A per-band table, zero outside the coded range.
pub open spec fn band_table(nb: int, start: int, end: int, f: spec_fn(int) -> int) -> Seq<i32> {
    Seq::new(nb as nat, |j: int| if start <= j < end { f(j) as i32 } else { 0i32 })
}

/// The split tables `clt_compute_allocation` hands to the interpolation for
/// rows `lo` and `hi`.
pub open spec fn alloc_tables(inp: &AllocInput, offsets: Seq<i32>, cap: Seq<i32>, alloc_trim: int, lo: int, hi: int) -> InterpTables {
    let nb = inp.nb_e_bands as int;
    let start = inp.start as int;
    let end = inp.end as int;
    InterpTables {
        e: inp.e_bands@,
        log_n: inp.log_n@,
        start,
        end,
        c: inp.c as int,
        lm: inp.lm as int,
        bits1: band_table(nb, start, end, |j: int| lower_budget(inp, offsets, alloc_trim, lo, j)),
        bits2: band_table(nb, start, end, |j: int| upper_step(inp, offsets, cap, alloc_trim, lo, hi, j)),
        thresh: band_table(nb, start, end, |j: int| thresh_spec(inp, j)),
        cap,
    }
}

/// `clt_compute_allocation` as a function: reserve the flag bits, find the
/// last allocation row whose trial sum fits, and split between it and the
/// next row.
pub open spec fn allocation_spec(
    inp: &AllocInput,
    offsets: Seq<i32>,
    cap: Seq<i32>,
    alloc_trim: int,
    intensity: int,
    dual_stereo: int,
    total: int,
    pulses: Seq<i32>,
    ebits: Seq<i32>,
    fine_priority: Seq<i32>,
    prev: int,
    signal_bandwidth: int,
    s: CoderState,
) -> SplitResult {
    let r = reservations(inp.c as int, inp.start as int, inp.end as int, total);
    let hi = row_search(inp, offsets, cap, alloc_trim, r.0, 1, inp.nb_alloc_vectors - 1);
    split_spec(
        alloc_tables(inp, offsets, cap, alloc_trim, hi - 1, hi),
        last_boosted(offsets, inp.start as int, inp.end as int),
        r.0,
        r.1,
        intensity,
        r.2,
        dual_stereo,
        r.3,
        pulses,
        ebits,
        fine_priority,
        prev,
        signal_bandwidth,
        s,
    )
}

/// The thresholds and trims of the coded bands.
fn fill_thresh_trim(inp: &AllocInput, alloc_trim: i32) -> (res: (Vec<i32>, Vec<i32>))
    requires
        alloc_input_ok(inp),
        0 <= alloc_trim <= 10,
    ensures
        res.0@ == band_table(inp.nb_e_bands as int, inp.start as int, inp.end as int, |j: int| thresh_spec(inp, j)),
        res.1@.len() == inp.nb_e_bands,
        forall|j: int| inp.start <= j < inp.end ==> #[trigger] res.1@[j] == trim_spec(inp, alloc_trim as int, j),
        forall|j: int| inp.start <= j < inp.end ==> -70000 <= #[trigger] res.1@[j] <= 70000,
        forall|j: int| inp.start <= j < inp.end ==> 8 <= #[trigger] res.0@[j] <= 0x10_0000,
{
    let len = inp.nb_e_bands;
    let c = inp.c;
    let lm = inp.lm;
    let end = inp.end;
    let mut thresh = vec![0i32; len];
    let mut trim = vec![0i32; len];
    let ghost tt = band_table(len as int, inp.start as int, end as int, |j: int| thresh_spec(inp, j));
    proof {
        lemma2_to64();
        if lm < 3 {
            lemma_pow2_strictly_increases(lm as nat, 3);
        }
        lemma_pow2_adds(lm as nat, 3);
        lemma_i32_shl_mul(1, (lm + 3) as u32);
    }
    let scale: i32 = 1i32 << ((lm + 3) as u32);
    let mut j = inp.start;
    while j < end
        invariant
            alloc_input_ok(inp),
            0 <= alloc_trim <= 10,
            len == inp.nb_e_bands,
            c == inp.c,
            lm == inp.lm,
            end == inp.end,
            scale == pow2((lm + 3) as nat),
            8 <= scale <= 64,
            1 <= pow2(lm as nat) <= 8,
            inp.start <= j <= end,
            thresh@.len() == len,
            trim@.len() == len,
            tt == band_table(len as int, inp.start as int, end as int, |j: int| thresh_spec(inp, j)),
            forall|k: int| 0 <= k < len && !(inp.start <= k < j) ==> #[trigger] thresh@[k] == 0,
            forall|k: int| inp.start <= k < j ==> #[trigger] thresh@[k] == tt[k],
            forall|k: int| inp.start <= k < j ==> #[trigger] trim@[k] == trim_spec(inp, alloc_trim as int, k),
            forall|k: int| inp.start <= k < j ==> -70000 <= #[trigger] trim@[k] <= 70000,
            forall|k: int| inp.start <= k < j ==> 8 <= #[trigger] thresh@[k] <= 0x10_0000,
        decreases end - j,
    {
        let n0 = inp.e_bands[j + 1] as i32 - inp.e_bands[j] as i32;
        assert(n0 == alloc_width(inp, j as int));
        proof {
            lemma2_to64();
            assert(1 <= n0 <= 64);
            assert(0 <= 3 * n0 * scale <= 3 * 64 * 64) by (nonlinear_arith)
                requires
                    1 <= n0 <= 64,
                    8 <= scale <= 64,
            ;
            assert(3 * n0 * scale == (3 * n0) * scale);
            lemma_i32_shr_div((3 * n0 * scale) as i32, 4);
        }
        let t0 = (3 * n0 * scale) >> 4u32;
        let th = if c * 8 > t0 {
            c * 8
        } else {
            t0
        };
        assert(th == thresh_spec(inp, j as int));
        assert(tt[j as int] == th);
        thresh.set(j, th);
        let f = alloc_trim - 5 - lm;
        let rest = end as i32 - j as i32 - 1;
        proof {
            assert(1 <= c * n0 <= 128) by (nonlinear_arith)
                requires
                    1 <= c <= 2,
                    1 <= n0 <= 64,
            ;
            assert(-1024 <= (c * n0) * f <= 640) by (nonlinear_arith)
                requires
                    1 <= c * n0 <= 128,
                    -8 <= f <= 5,
            ;
            assert(-1024 * 63 <= ((c * n0) * f) * rest <= 640 * 63) by (nonlinear_arith)
                requires
                    -1024 <= (c * n0) * f <= 640,
                    0 <= rest <= 63,
            ;
            assert(-2 * 64 * 8 * 63 <= c * n0 * f * rest <= 2 * 64 * 8 * 63);
            assert(-2 * 64 * 8 * 63 * 64 <= c * n0 * f * rest * scale <= 2 * 64 * 8 * 63 * 64) by (nonlinear_arith)
                requires
                    -2 * 64 * 8 * 63 <= c * n0 * f * rest <= 2 * 64 * 8 * 63,
                    8 <= scale <= 64,
            ;
            lemma_i32_shr_div((c * n0 * f * rest * scale) as i32, 6);
            let x = c * n0 * f * rest * scale;
            vstd::arithmetic::div_mod::lemma_div_is_ordered(x, 2 * 64 * 8 * 63 * 64int, 64);
            vstd::arithmetic::div_mod::lemma_div_is_ordered(-2 * 64 * 8 * 63 * 64, x, 64);
        }
        let mut tr = (c * n0 * f * rest * scale) >> 6u32;
        proof {
            assert(1 <= n0 * pow2(lm as nat) <= 512) by (nonlinear_arith)
                requires
                    1 <= n0 <= 64,
                    1 <= pow2(lm as nat) <= 8,
            ;
            lemma_i32_shl_mul(n0, lm as u32);
        }
        if (n0 << (lm as u32)) == 1 {
            tr -= c * 8;
        }
        trim.set(j, tr);
        j += 1;
    }
    proof {
        assert(thresh@ =~= tt);
    }
    (thresh, trim)
}

/// Row `row`'s bits for band `j`, computed as the allocator does.
fn row_bits_exec(inp: &AllocInput, row: usize, j: usize) -> (b: i32)
    requires
        alloc_input_ok(inp),
        row < inp.nb_alloc_vectors,
        inp.start <= j < inp.end,
    ensures
        b == row_bits(inp, row as int, j as int),
        0 <= b <= 0x1_0000,
{
    let n = inp.e_bands[j + 1] as i32 - inp.e_bands[j] as i32;
    proof {
        assert(n == alloc_width(inp, j as int));
        assert(row * inp.nb_e_bands + j < inp.nb_alloc_vectors * inp.nb_e_bands) by (nonlinear_arith)
            requires
                row < inp.nb_alloc_vectors,
                j < inp.nb_e_bands,
        ;
        assert(0 <= row * inp.nb_e_bands) by (nonlinear_arith)
            requires
                row >= 0,
                inp.nb_e_bands >= 0,
        ;
    }
    let a = inp.alloc_vectors[row * inp.nb_e_bands + j] as i32;
    proof {
        lemma2_to64();
        if inp.lm < 3 {
            lemma_pow2_strictly_increases(inp.lm as nat, 3);
        }
        assert(1 <= inp.c * n <= 128) by (nonlinear_arith)
            requires
                1 <= inp.c <= 2,
                1 <= n <= 64,
        ;
        assert(0 <= inp.c * n * a <= 2 * 64 * 255) by (nonlinear_arith)
            requires
                1 <= inp.c <= 2,
                1 <= n <= 64,
                0 <= a <= 255,
        ;
        assert(0 <= (inp.c * n * a) * pow2(inp.lm as nat) <= 2 * 64 * 255 * 8) by (nonlinear_arith)
            requires
                0 <= inp.c * n * a <= 2 * 64 * 255,
                1 <= pow2(inp.lm as nat) <= 8,
        ;
        lemma_i32_shl_mul((inp.c * n * a) as i32, inp.lm as u32);
        lemma_i32_shr_div(((inp.c * n * a) as i32) << (inp.lm as u32), 2);
        assert(inp.c * n * a * pow2(inp.lm as nat) == (inp.c * n * a) * pow2(inp.lm as nat));
    }
    ((inp.c * n * a) << (inp.lm as u32)) >> 2u32
}

/// The inputs `clt_compute_allocation` reads besides the mode tables.
pub open spec fn alloc_args_ok(inp: &AllocInput, offsets: Seq<i32>, cap: Seq<i32>, alloc_trim: int) -> bool {
    &&& alloc_input_ok(inp)
    &&& offsets.len() >= inp.end
    &&& cap.len() >= inp.end
    &&& 0 <= alloc_trim <= 10
    &&& forall|j: int| inp.start <= j < inp.end ==> 0 <= #[trigger] offsets[j] <= 0x4_0000
    &&& forall|j: int| inp.start <= j < inp.end ==> 0 <= #[trigger] cap[j] <= 0x8_0000
}

/// A band's trimmed budget in row `row`, computed as the allocator does.
fn row_budget_exec(inp: &AllocInput, offsets: &[i32], trim: &Vec<i32>, alloc_trim: i32, row: usize, j: usize) -> (b: i32)
    requires
        alloc_args_ok(inp, offsets@, offsets@, alloc_trim as int),
        row < inp.nb_alloc_vectors,
        inp.start <= j < inp.end,
        trim@.len() == inp.nb_e_bands,
        trim@[j as int] == trim_spec(inp, alloc_trim as int, j as int),
        -70000 <= trim@[j as int] <= 70000,
    ensures
        b == row_budget(inp, offsets@, alloc_trim as int, row as int, j as int),
        0 <= b <= 0x7_0000,
{
    let mut b = row_bits_exec(inp, row, j);
    if b > 0 {
        b = b + trim[j];
        if b < 0 {
            b = 0;
        }
    }
    b + offsets[j]
}

proof fn lemma_thresh_bound(inp: &AllocInput, j: int)
    requires
        alloc_input_ok(inp),
        inp.start <= j < inp.end,
    ensures
        8 <= thresh_spec(inp, j) <= 1000,
{
    lemma2_to64();
    if inp.lm < 3 {
        lemma_pow2_strictly_increases((inp.lm + 3) as nat, 6);
    }
    let w = alloc_width(inp, j);
    let p = pow2((inp.lm + 3) as nat);
    assert(0 <= 3 * w * p <= 3 * 64 * 64) by (nonlinear_arith)
        requires
            1 <= w <= 64,
            8 <= p <= 64,
    ;
}

/// Row `row`'s trial sum over the coded bands.
fn row_trial_sum(
    inp: &AllocInput,
    offsets: &[i32],
    cap: &[i32],
    thresh: &Vec<i32>,
    trim: &Vec<i32>,
    alloc_trim: i32,
    row: usize,
) -> (psum: i32)
    requires
        alloc_args_ok(inp, offsets@, cap@, alloc_trim as int),
        row < inp.nb_alloc_vectors,
        thresh@ == band_table(inp.nb_e_bands as int, inp.start as int, inp.end as int, |j: int| thresh_spec(inp, j)),
        trim@.len() == inp.nb_e_bands,
        forall|j: int| inp.start <= j < inp.end ==> #[trigger] trim@[j] == trim_spec(inp, alloc_trim as int, j),
        forall|j: int| inp.start <= j < inp.end ==> -70000 <= #[trigger] trim@[j] <= 70000,
        forall|j: int| inp.start <= j < inp.end ==> 8 <= #[trigger] thresh@[j] <= 0x10_0000,
    ensures
        psum == row_sum(inp, offsets@, cap@, alloc_trim as int, row as int, inp.start as int),
{
    let c8 = inp.c * 8;
    let mut psum: i32 = 0;
    let mut done = false;
    let mut j = inp.end;
    while j > inp.start
        invariant
            alloc_args_ok(inp, offsets@, cap@, alloc_trim as int),
            row < inp.nb_alloc_vectors,
            c8 == inp.c * 8,
            thresh@ == band_table(inp.nb_e_bands as int, inp.start as int, inp.end as int, |j: int| thresh_spec(inp, j)),
            trim@.len() == inp.nb_e_bands,
            forall|k: int| inp.start <= k < inp.end ==> #[trigger] trim@[k] == trim_spec(inp, alloc_trim as int, k),
            forall|k: int| inp.start <= k < inp.end ==> -70000 <= #[trigger] trim@[k] <= 70000,
            forall|k: int| inp.start <= k < inp.end ==> 8 <= #[trigger] thresh@[k] <= 0x10_0000,
            inp.start <= j <= inp.end,
            done == row_reached(inp, offsets@, alloc_trim as int, row as int, j as int),
            psum == row_sum(inp, offsets@, cap@, alloc_trim as int, row as int, j as int),
            0 <= psum <= (inp.end - j) * 0x8_0000,
        decreases j,
    {
        j -= 1;
        proof {
            assert((inp.end - j) * 0x8_0000 <= 64 * 0x8_0000) by (nonlinear_arith)
                requires
                    inp.end - j <= 64,
            ;
            lemma_thresh_bound(inp, j as int);
            assert(thresh@[j as int] == thresh_spec(inp, j as int));
        }
        let b = row_budget_exec(inp, offsets, trim, alloc_trim, row, j);
        if b >= thresh[j] || done {
            done = true;
            psum += if b < cap[j] {
                b
            } else {
                cap[j]
            };
        } else if b >= c8 {
            psum += c8;
        }
    }
    psum
}

/// Bisection over the allocation rows; returns the first row past the last
/// one whose trial sum fits `total`.
fn find_rows(
    inp: &AllocInput,
    offsets: &[i32],
    cap: &[i32],
    thresh: &Vec<i32>,
    trim: &Vec<i32>,
    alloc_trim: i32,
    total: i32,
) -> (hi: i32)
    requires
        alloc_args_ok(inp, offsets@, cap@, alloc_trim as int),
        inp.nb_alloc_vectors <= 0x1000,
        thresh@ == band_table(inp.nb_e_bands as int, inp.start as int, inp.end as int, |j: int| thresh_spec(inp, j)),
        trim@.len() == inp.nb_e_bands,
        forall|j: int| inp.start <= j < inp.end ==> #[trigger] trim@[j] == trim_spec(inp, alloc_trim as int, j),
        forall|j: int| inp.start <= j < inp.end ==> -70000 <= #[trigger] trim@[j] <= 70000,
        forall|j: int| inp.start <= j < inp.end ==> 8 <= #[trigger] thresh@[j] <= 0x10_0000,
    ensures
        hi == row_search(inp, offsets@, cap@, alloc_trim as int, total as int, 1, inp.nb_alloc_vectors - 1),
        1 <= hi <= inp.nb_alloc_vectors,
        hi >= 2 ==> row_sum(inp, offsets@, cap@, alloc_trim as int, hi - 1, inp.start as int) <= total,
{
    let mut lo: i32 = 1;
    let mut hi: i32 = inp.nb_alloc_vectors as i32 - 1;
    let ghost target = row_search(inp, offsets@, cap@, alloc_trim as int, total as int, 1, inp.nb_alloc_vectors - 1);
    loop
        invariant_except_break
            alloc_args_ok(inp, offsets@, cap@, alloc_trim as int),
            inp.nb_alloc_vectors <= 0x1000,
            thresh@ == band_table(inp.nb_e_bands as int, inp.start as int, inp.end as int, |j: int| thresh_spec(inp, j)),
            trim@.len() == inp.nb_e_bands,
            forall|j: int| inp.start <= j < inp.end ==> #[trigger] trim@[j] == trim_spec(inp, alloc_trim as int, j),
            forall|j: int| inp.start <= j < inp.end ==> -70000 <= #[trigger] trim@[j] <= 70000,
            forall|j: int| inp.start <= j < inp.end ==> 8 <= #[trigger] thresh@[j] <= 0x10_0000,
            1 <= lo <= hi + 1,
            hi <= inp.nb_alloc_vectors - 1,
            0 <= hi,
            row_search(inp, offsets@, cap@, alloc_trim as int, total as int, lo as int, hi as int) == target,
            lo >= 2 ==> row_sum(inp, offsets@, cap@, alloc_trim as int, lo - 1, inp.start as int) <= total,
        ensures
            lo == target,
            1 <= lo <= inp.nb_alloc_vectors,
            lo >= 2 ==> row_sum(inp, offsets@, cap@, alloc_trim as int, lo - 1, inp.start as int) <= total,
        decreases hi - lo + 1,
    {
        let mid = (lo + hi) >> 1u32;
        proof {
            lemma_i32_shr_div((lo + hi) as i32, 1);
            lemma2_to64();
        }
        let psum = row_trial_sum(inp, offsets, cap, thresh, trim, alloc_trim, mid as usize);
        if psum > total {
            hi = mid - 1;
        } else {
            lo = mid + 1;
        }
        if lo > hi {
            break;
        }
    }
    lo
}

/// The two rows' budgets for the split, and the last band asking for a
/// boost.
fn fill_split_bits(
    inp: &AllocInput,
    offsets: &[i32],
    cap: &[i32],
    trim: &Vec<i32>,
    alloc_trim: i32,
    lo: i32,
    hi: i32,
) -> (res: (Vec<i32>, Vec<i32>, i32))
    requires
        alloc_args_ok(inp, offsets@, cap@, alloc_trim as int),
        0 <= lo < hi <= inp.nb_alloc_vectors,
        lo + 1 == hi,
        trim@.len() == inp.nb_e_bands,
        forall|j: int| inp.start <= j < inp.end ==> #[trigger] trim@[j] == trim_spec(inp, alloc_trim as int, j),
        forall|j: int| inp.start <= j < inp.end ==> -70000 <= #[trigger] trim@[j] <= 70000,
    ensures
        res.0@ == band_table(inp.nb_e_bands as int, inp.start as int, inp.end as int, |j: int| lower_budget(inp, offsets@, alloc_trim as int, lo as int, j)),
        res.1@ == band_table(inp.nb_e_bands as int, inp.start as int, inp.end as int, |j: int| upper_step(inp, offsets@, cap@, alloc_trim as int, lo as int, hi as int, j)),
        res.2 == last_boosted(offsets@, inp.start as int, inp.end as int),
        forall|j: int|
            inp.start <= j < inp.end ==> #[trigger] res.0@[j] == lower_budget(inp, offsets@, alloc_trim as int, lo as int, j),
        forall|j: int| inp.start <= j < inp.end ==> 0 <= #[trigger] res.0@[j] <= 0x10_0000,
        forall|j: int| inp.start <= j < inp.end ==> 0 <= #[trigger] res.1@[j] <= 0x10_0000,
{
    let len = inp.nb_e_bands;
    let mut bits1 = vec![0i32; len];
    let mut bits2 = vec![0i32; len];
    let mut skip_start = inp.start as i32;
    let ghost t1 = band_table(len as int, inp.start as int, inp.end as int, |j: int| lower_budget(inp, offsets@, alloc_trim as int, lo as int, j));
    let ghost t2 = band_table(len as int, inp.start as int, inp.end as int, |j: int| upper_step(inp, offsets@, cap@, alloc_trim as int, lo as int, hi as int, j));
    let mut j = inp.start;
    while j < inp.end
        invariant
            alloc_args_ok(inp, offsets@, cap@, alloc_trim as int),
            0 <= lo < hi <= inp.nb_alloc_vectors,
            lo + 1 == hi,
            len == inp.nb_e_bands,
            trim@.len() == inp.nb_e_bands,
            forall|k: int| inp.start <= k < inp.end ==> #[trigger] trim@[k] == trim_spec(inp, alloc_trim as int, k),
            forall|k: int| inp.start <= k < inp.end ==> -70000 <= #[trigger] trim@[k] <= 70000,
            inp.start <= j <= inp.end,
            bits1@.len() == len,
            bits2@.len() == len,
            t1 == band_table(len as int, inp.start as int, inp.end as int, |j: int| lower_budget(inp, offsets@, alloc_trim as int, lo as int, j)),
            t2 == band_table(len as int, inp.start as int, inp.end as int, |j: int| upper_step(inp, offsets@, cap@, alloc_trim as int, lo as int, hi as int, j)),
            forall|k: int| 0 <= k < len && !(inp.start <= k < j) ==> #[trigger] bits1@[k] == 0,
            forall|k: int| 0 <= k < len && !(inp.start <= k < j) ==> #[trigger] bits2@[k] == 0,
            forall|k: int| inp.start <= k < j ==> #[trigger] bits1@[k] == t1[k],
            forall|k: int|
                inp.start <= k < j ==> #[trigger] bits1@[k] == lower_budget(inp, offsets@, alloc_trim as int, lo as int, k),
            forall|k: int| inp.start <= k < j ==> #[trigger] bits2@[k] == t2[k],
            forall|k: int| inp.start <= k < j ==> 0 <= #[trigger] bits1@[k] <= 0x10_0000,
            forall|k: int| inp.start <= k < j ==> 0 <= #[trigger] bits2@[k] <= 0x10_0000,
            skip_start == last_boosted(offsets@, inp.start as int, j as int),
        decreases inp.end - j,
    {
        let mut b1 = row_bits_exec(inp, lo as usize, j);
        let mut b2 = if hi as usize >= inp.nb_alloc_vectors {
            cap[j]
        } else {
            row_bits_exec(inp, hi as usize, j)
        };
        if b1 > 0 {
            b1 = b1 + trim[j];
            if b1 < 0 {
                b1 = 0;
            }
        }
        if b2 > 0 {
            b2 = b2 + trim[j];
            if b2 < 0 {
                b2 = 0;
            }
        }
        if lo > 0 {
            b1 += offsets[j];
        }
        b2 += offsets[j];
        if offsets[j] > 0 {
            skip_start = j as i32;
        }
        b2 = b2 - b1;
        if b2 < 0 {
            b2 = 0;
        }
        assert(b1 == lower_budget(inp, offsets@, alloc_trim as int, lo as int, j as int));
        assert(b2 == upper_step(inp, offsets@, cap@, alloc_trim as int, lo as int, hi as int, j as int));
        assert(t1[j as int] == b1);
        assert(t2[j as int] == b2);
        bits1.set(j, b1);
        bits2.set(j, b2);
        j += 1;
    }
    proof {
        assert(bits1@ =~= t1);
        assert(bits2@ =~= t2);
    }
    (bits1, bits2, skip_start)
}

/// At point 0 the split's trial sum is the lower row's trial sum.
proof fn lemma_trial_sum_row(inp: &AllocInput, t: InterpTables, offsets: Seq<i32>, cap: Seq<i32>, alloc_trim: int, lo: int, j: int)
    requires
        alloc_input_ok(inp),
        lo >= 0,
        t.start == inp.start,
        t.end == inp.end,
        t.c == inp.c,
        t.cap == cap,
        inp.start <= j <= inp.end,
        forall|k: int| inp.start <= k < inp.end ==> #[trigger] t.bits1[k] == row_budget(inp, offsets, alloc_trim, lo, k),
        forall|k: int| inp.start <= k < inp.end ==> #[trigger] t.thresh[k] == thresh_spec(inp, k),
    ensures
        t.trial_sum(j, 0) == row_sum(inp, offsets, cap, alloc_trim, lo, j),
        t.reached(j, 0) == row_reached(inp, offsets, alloc_trim, lo, j),
    decreases inp.end - j,
{
    if j < inp.end {
        lemma_trial_sum_row(inp, t, offsets, cap, alloc_trim, lo, j + 1);
        assert(t.tmp(j, 0) == t.bits1[j]);
    }
}

/// The first allocation row's trial sum over the coded bands, trimmed and
/// without boosts: what the allocator spends when even the first nonempty row
/// does not fit the budget.
pub open spec fn base_row_sum(inp: &AllocInput, cap: Seq<i32>, alloc_trim: int) -> int {
    row_sum(inp, Seq::new(inp.end as nat, |j: int| 0i32), cap, alloc_trim, 0, inp.start as int)
}

/// `clt_compute_allocation`: the top-level CELT allocator. Fills `pulses`,
/// `ebits`, `fine_priority` (length `nb_e_bands`) and returns the coded-band
/// count plus the residual balance and the intensity / dual-stereo
/// parameters.
#[verifier::rlimit(80)]
pub fn clt_compute_allocation(
    inp: &AllocInput,
    coder: &mut Coder,
    offsets: &[i32],
    cap: &[i32],
    alloc_trim: i32,
    intensity: i32,
    dual_stereo: i32,
    total: i32,
    pulses: &mut [i32],
    ebits: &mut [i32],
    fine_priority: &mut [i32],
    prev: i32,
    signal_bandwidth: i32,
) -> (alloc: Allocation)
    requires
        alloc_args_ok(inp, offsets@, cap@, alloc_trim as int),
        inp.nb_alloc_vectors <= 0x1000,
        total <= 0x10_0000,
        old(pulses)@.len() >= inp.end,
        old(ebits)@.len() >= inp.end,
        old(fine_priority)@.len() >= inp.end,
        coder_state(*old(coder)).wf(),
        coder_state(*old(coder)).room_for(inp.end - inp.start + 2),
        *old(coder) is Enc && inp.c == 2 ==> inp.start <= intensity,
        base_row_sum(inp, cap@, alloc_trim as int) <= reservations(inp.c as int, inp.start as int, inp.end as int, total as int).0,
    ensures
        match (*old(coder), *final(coder)) {
            (Coder::Enc(x), Coder::Enc(y)) => *final(x) == *final(y),
            (Coder::Dec(x), Coder::Dec(y)) => *final(x) == *final(y),
            _ => false,
        },
        ({
            let r = allocation_spec(
                inp,
                offsets@,
                cap@,
                alloc_trim as int,
                intensity as int,
                dual_stereo as int,
                total as int,
                old(pulses)@,
                old(ebits)@,
                old(fine_priority)@,
                prev as int,
                signal_bandwidth as int,
                coder_state(*old(coder)),
            );
            &&& final(pulses)@ == r.pulses
            &&& final(ebits)@ == r.ebits
            &&& final(fine_priority)@ == r.fine_priority
            &&& alloc.coded_bands == r.coded_bands
            &&& alloc.balance == r.balance
            &&& alloc.intensity == r.intensity
            &&& alloc.dual_stereo == r.dual_stereo
            &&& coder_state(*final(coder)) == r.coder
        }),
        coder_state(*final(coder)).wf(),
{
    let c = inp.c;
    let start = inp.start;
    let end = inp.end;
    let table: [i32; 24] = [0, 8, 13, 16, 19, 21, 23, 24, 26, 27, 28, 29, 30, 31, 32, 32, 33, 34, 34, 35, 36, 36, 37, 37];
    proof {
        assert(table@ == seq![0i32, 8, 13, 16, 19, 21, 23, 24, 26, 27, 28, 29, 30, 31, 32, 32, 33, 34, 34, 35, 36, 36, 37, 37]);
    }
    let total0 = if total > 0 {
        total
    } else {
        0
    };
    let skip_rsv: i32 = if total0 >= 8 {
        8
    } else {
        0
    };
    let mut total = total0 - skip_rsv;
    let mut intensity_rsv: i32 = 0;
    let mut dual_stereo_rsv: i32 = 0;
    if c == 2 {
        intensity_rsv = table[end - start];
        if intensity_rsv > total {
            intensity_rsv = 0;
        } else {
            total -= intensity_rsv;
            dual_stereo_rsv = if total >= 8 {
                8
            } else {
                0
            };
            total -= dual_stereo_rsv;
        }
    }
    let ghost r = reservations(c as int, start as int, end as int, total0 as int);
    assert(r == (total as int, skip_rsv as int, intensity_rsv as int, dual_stereo_rsv as int));
    let (thresh, trim) = fill_thresh_trim(inp, alloc_trim);
    let hi = find_rows(inp, offsets, cap, &thresh, &trim, alloc_trim, total);
    let lo = hi - 1;
    let (bits1, bits2, skip_start) = fill_split_bits(inp, offsets, cap, &trim, alloc_trim, lo, hi);
    let ghost t = split_tables(inp, bits1@, bits2@, thresh@, cap@);
    proof {
        assert(t == alloc_tables(inp, offsets@, cap@, alloc_trim as int, lo as int, hi as int));
        if lo >= 1 {
            assert forall|k: int| inp.start <= k < inp.end implies #[trigger] t.bits1[k] == row_budget(inp, offsets@, alloc_trim as int, lo as int, k) by {
                assert(bits1@[k] == lower_budget(inp, offsets@, alloc_trim as int, lo as int, k));
            }
            assert forall|k: int| inp.start <= k < inp.end implies #[trigger] t.thresh[k] == thresh_spec(inp, k) by {
                lemma_thresh_bound(inp, k);
            }
            lemma_trial_sum_row(inp, t, offsets@, cap@, alloc_trim as int, lo as int, start as int);
        } else {
            let zeros = Seq::new(inp.end as nat, |j: int| 0i32);
            assert forall|k: int| inp.start <= k < inp.end implies #[trigger] t.bits1[k] == row_budget(inp, zeros, alloc_trim as int, 0, k) by {
                assert(bits1@[k] == lower_budget(inp, offsets@, alloc_trim as int, lo as int, k));
            }
            assert forall|k: int| inp.start <= k < inp.end implies #[trigger] t.thresh[k] == thresh_spec(inp, k) by {
                lemma_thresh_bound(inp, k);
            }
            lemma_trial_sum_row(inp, t, zeros, cap@, alloc_trim as int, 0, start as int);
        }
        lemma_last_boosted_range(offsets@, start as int, end as int);
        assert(start <= skip_start < end);
    }
    let mut intensity = intensity;
    let mut dual_stereo = dual_stereo;
    let (coded_bands, balance) = interp_bits2pulses(
        inp,
        coder,
        skip_start,
        &bits1,
        &bits2,
        &thresh,
        cap,
        total,
        skip_rsv,
        &mut intensity,
        intensity_rsv,
        &mut dual_stereo,
        dual_stereo_rsv,
        pulses,
        ebits,
        fine_priority,
        prev,
        signal_bandwidth,
    );
    Allocation { coded_bands, balance, intensity, dual_stereo }
}

/// The last boosted band lies in `start..j` (or is `start`).
proof fn lemma_last_boosted_range(offsets: Seq<i32>, start: int, j: int)
    requires
        start < j,
    ensures
        start <= last_boosted(offsets, start, j) < j,
    decreases j - start,
{
    if offsets[j - 1] > 0 {
        assert(last_boosted(offsets, start, j) == j - 1);
    } else if j - 1 > start {
        lemma_last_boosted_range(offsets, start, j - 1);
        assert(last_boosted(offsets, start, j) == last_boosted(offsets, start, j - 1));
    } else {
        assert(last_boosted(offsets, start, j - 1) == start);
    }
}

/// Walking the encoder's boost loop of one band: wherever the encoder codes a
/// "boost more" flag, the decoder reading with the same probability reads
/// back the flag the encoder wrote.
pub open spec fn boost_loop_reads_back(
    e: EncState,
    d: DecState,
    want: int,
    quanta: int,
    cap: int,
    logp: int,
    room: int,
    grants: int,
    boost: int,
) -> bool
    decreases (if boost < cap {
        cap - boost
    } else {
        0
    }),
{
    if quanta >= 1 && e.tell_frac() + logp * 8 < room && boost < cap {
        let flag = grants < want;
        &&& dec_bit_logp_spec(d, logp as nat).1 == flag
        &&& (flag ==> boost_loop_reads_back(
            crate::range_coder::enc_bit_logp_spec(e, flag, logp as nat),
            dec_bit_logp_spec(d, logp as nat).0,
            want,
            quanta,
            cap,
            1,
            room - quanta,
            grants + 1,
            boost + quanta,
        ))
    } else {
        true
    }
}

/// The decoder's boost loop reads the same flags whatever it is asked for.
proof fn lemma_boost_loop_dec_want(
    d: DecState,
    w1: int,
    w2: int,
    quanta: int,
    cap: int,
    logp: int,
    room: int,
    grants: int,
    boost: int,
)
    ensures
        boost_loop(CoderState::Dec(d), w1, quanta, cap, logp, room, grants, boost) == boost_loop(
            CoderState::Dec(d),
            w2,
            quanta,
            cap,
            logp,
            room,
            grants,
            boost,
        ),
    decreases (if boost < cap {
        cap - boost
    } else {
        0
    }),
{
    if quanta >= 1 && CoderState::Dec(d).tell_frac() + logp * 8 < room && boost < cap {
        let (d2, flag) = dec_bit_logp_spec(d, logp as nat);
        if flag {
            lemma_boost_loop_dec_want(d2, w1, w2, quanta, cap, 1, room - quanta, grants + 1, boost + quanta);
        }
    }
}

/// When the decoder reads back each flag, its boost loop grants what the
/// encoder's granted, and both sides end with the same range and bit count.
proof fn lemma_boost_loops_agree(
    e: EncState,
    d: DecState,
    want: int,
    wd: int,
    quanta: int,
    cap: int,
    logp: int,
    room: int,
    grants: int,
    boost: int,
)
    requires
        e.rng == d.rng,
        e.nbits_total == d.nbits_total,
        boost_loop_reads_back(e, d, want, quanta, cap, logp, room, grants, boost),
    ensures
        ({
            let re = boost_loop(CoderState::Enc(e), want, quanta, cap, logp, room, grants, boost);
            let rd = boost_loop(CoderState::Dec(d), wd, quanta, cap, logp, room, grants, boost);
            &&& re.1 == rd.1
            &&& re.2 == rd.2
            &&& re.0 is Enc
            &&& rd.0 is Dec
            &&& re.0->Enc_0.rng == rd.0->Dec_0.rng
            &&& re.0->Enc_0.nbits_total == rd.0->Dec_0.nbits_total
        }),
    decreases (if boost < cap {
        cap - boost
    } else {
        0
    }),
{
    if quanta >= 1 && e.tell_frac() + logp * 8 < room && boost < cap {
        let flag = grants < want;
        lemma_bit_counts_agree(e, d, flag, logp as nat);
        let e2 = crate::range_coder::enc_bit_logp_spec(e, flag, logp as nat);
        let d2 = dec_bit_logp_spec(d, logp as nat).0;
        if flag {
            lemma_boost_loops_agree(e2, d2, want, wd, quanta, cap, 1, room - quanta, grants + 1, boost + quanta);
        }
    }
}

/// Walking the encoder's boost coding of bands `i..end`: the decoder reads back
/// every flag of every band.
pub open spec fn boost_reads_back(
    e: EncState,
    d: DecState,
    eb: Seq<i16>,
    i: int,
    end: int,
    c: int,
    lm: int,
    cap: Seq<i32>,
    want: Seq<i32>,
    room: int,
    logp: int,
) -> bool
    decreases end - i,
{
    if i >= end {
        true
    } else {
        let q = boost_quanta(c * band_width(eb, i) * pow2(lm as nat));
        let re = boost_loop(CoderState::Enc(e), want[i] as int, q, cap[i] as int, logp, room, 0, 0);
        let rd = boost_loop(CoderState::Dec(d), want[i] as int, q, cap[i] as int, logp, room, 0, 0);
        let logp2 = if re.1 > 0 {
            max_int(2, logp - 1)
        } else {
            logp
        };
        &&& boost_loop_reads_back(e, d, want[i] as int, q, cap[i] as int, logp, room, 0, 0)
        &&& re.0 is Enc
        &&& rd.0 is Dec
        &&& boost_reads_back(re.0->Enc_0, rd.0->Dec_0, eb, i + 1, end, c, lm, cap, want, room - re.2, logp2)
    }
}

/// `decode_dynalloc_boost` rebuilds what `encode_dynalloc_boost` coded: over a
/// decoder that starts where the encoder started (same range and bit count)
/// and reads back each flag the encoder wrote, the boosts of bands
/// `i..end` and the budget left are the encoder's, whatever the decoder's own
/// `offsets` held, and both sides end in step.
pub proof fn lemma_dynalloc_round_trip(
    e: EncState,
    d: DecState,
    eb: Seq<i16>,
    i: int,
    end: int,
    c: int,
    lm: int,
    cap: Seq<i32>,
    want: Seq<i32>,
    wd: Seq<i32>,
    room: int,
    logp: int,
)
    requires
        e.rng == d.rng,
        e.nbits_total == d.nbits_total,
        boost_reads_back(e, d, eb, i, end, c, lm, cap, want, room, logp),
    ensures
        ({
            let re = boost_bands(CoderState::Enc(e), eb, i, end, c, lm, cap, want, room, logp);
            let rd = boost_bands(CoderState::Dec(d), eb, i, end, c, lm, cap, wd, room, logp);
            &&& re.1 == rd.1
            &&& re.2 == rd.2
            &&& re.0 is Enc
            &&& rd.0 is Dec
            &&& re.0->Enc_0.rng == rd.0->Dec_0.rng
            &&& re.0->Enc_0.nbits_total == rd.0->Dec_0.nbits_total
        }),
    decreases end - i,
{
    if i < end {
        let q = boost_quanta(c * band_width(eb, i) * pow2(lm as nat));
        lemma_boost_loops_agree(e, d, want[i] as int, wd[i] as int, q, cap[i] as int, logp, room, 0, 0);
        lemma_boost_loop_dec_want(d, want[i] as int, wd[i] as int, q, cap[i] as int, logp, room, 0, 0);
        let re = boost_loop(CoderState::Enc(e), want[i] as int, q, cap[i] as int, logp, room, 0, 0);
        let rd = boost_loop(CoderState::Dec(d), want[i] as int, q, cap[i] as int, logp, room, 0, 0);
        let logp2 = if re.1 > 0 {
            max_int(2, logp - 1)
        } else {
            logp
        };
        lemma_dynalloc_round_trip(re.0->Enc_0, rd.0->Dec_0, eb, i + 1, end, c, lm, cap, want, wd, room - re.2, logp2);
    }
}

/// The calls one band's boost loop makes on the encoder: a "boost more"
/// flag while the budget and the cap allow, until one is refused.
pub open spec fn boost_loop_trace(
    e: EncState,
    want: int,
    quanta: int,
    cap: int,
    logp: int,
    room: int,
    grants: int,
    boost: int,
) -> Seq<CodedOp>
    decreases (if boost < cap {
        cap - boost
    } else {
        0
    }),
{
    if quanta >= 1 && e.tell_frac() + logp * 8 < room && boost < cap {
        let flag = grants < want;
        seq![CodedOp::Bit(flag, logp as nat)] + if flag {
            boost_loop_trace(
                crate::range_coder::enc_bit_logp_spec(e, flag, logp as nat),
                want,
                quanta,
                cap,
                1,
                room - quanta,
                grants + 1,
                boost + quanta,
            )
        } else {
            Seq::empty()
        }
    } else {
        Seq::empty()
    }
}

/// The calls the boost coding of bands `i..end` makes on the encoder.
pub open spec fn boost_trace(
    e: EncState,
    eb: Seq<i16>,
    i: int,
    end: int,
    c: int,
    lm: int,
    cap: Seq<i32>,
    want: Seq<i32>,
    room: int,
    logp: int,
) -> Seq<CodedOp>
    decreases end - i,
{
    if i >= end {
        Seq::empty()
    } else {
        let q = boost_quanta(c * band_width(eb, i) * pow2(lm as nat));
        let re = boost_loop(CoderState::Enc(e), want[i] as int, q, cap[i] as int, logp, room, 0, 0);
        let logp2 = if re.1 > 0 {
            max_int(2, logp - 1)
        } else {
            logp
        };
        boost_loop_trace(e, want[i] as int, q, cap[i] as int, logp, room, 0, 0) + boost_trace(
            re.0->Enc_0,
            eb,
            i + 1,
            end,
            c,
            lm,
            cap,
            want,
            room - re.2,
            logp2,
        )
    }
}

/// Reading back one band's calls reads back its flags, and mirroring them is
/// the decoder's loop.
proof fn lemma_boost_loop_trace(
    e: EncState,
    d: DecState,
    want: int,
    wd: int,
    quanta: int,
    cap: int,
    logp: int,
    room: int,
    grants: int,
    boost: int,
)
    requires
        e.rng == d.rng,
        e.nbits_total == d.nbits_total,
        dec_reads_back(d, boost_loop_trace(e, want, quanta, cap, logp, room, grants, boost)),
    ensures
        boost_loop_reads_back(e, d, want, quanta, cap, logp, room, grants, boost),
        boost_loop(CoderState::Dec(d), wd, quanta, cap, logp, room, grants, boost).0 == CoderState::Dec(
            dec_ops_all(d, boost_loop_trace(e, want, quanta, cap, logp, room, grants, boost)),
        ),
        boost_loop(CoderState::Enc(e), want, quanta, cap, logp, room, grants, boost).0 == CoderState::Enc(
            enc_ops_all(e, boost_loop_trace(e, want, quanta, cap, logp, room, grants, boost)),
        ),
    decreases (if boost < cap {
        cap - boost
    } else {
        0
    }),
{
    if quanta >= 1 && e.tell_frac() + logp * 8 < room && boost < cap {
        let flag = grants < want;
        let op = CodedOp::Bit(flag, logp as nat);
        let e2 = crate::range_coder::enc_bit_logp_spec(e, flag, logp as nat);
        let rest = if flag {
            boost_loop_trace(e2, want, quanta, cap, 1, room - quanta, grants + 1, boost + quanta)
        } else {
            Seq::<CodedOp>::empty()
        };
        lemma_reads_back_cons(d, op, rest);
        lemma_enc_ops_cons(e, op, rest);
        let (d2, b) = dec_bit_logp_spec(d, logp as nat);
        assert(b == flag);
        assert(dec_op(d, op) == d2);
        assert(enc_op(e, op) == e2);
        lemma_bit_counts_agree(e, d, flag, logp as nat);
        assert(CoderState::Dec(d).tell_frac() == CoderState::Enc(e).tell_frac());
        if flag {
            lemma_boost_loop_trace(e2, d2, want, wd, quanta, cap, 1, room - quanta, grants + 1, boost + quanta);
        } else {
            assert(dec_ops_all(d2, Seq::<CodedOp>::empty()) == d2);
            assert(enc_ops_all(e2, Seq::<CodedOp>::empty()) == e2);
        }
    } else {
        assert(CoderState::Dec(d).tell_frac() == CoderState::Enc(e).tell_frac());
        assert(dec_ops_all(d, Seq::<CodedOp>::empty()) == d);
        assert(enc_ops_all(e, Seq::<CodedOp>::empty()) == e);
    }
}

/// Reading back the calls of the boost coding of bands `i..end` reads back
/// every flag of every band.
proof fn lemma_boost_trace(
    e: EncState,
    d: DecState,
    eb: Seq<i16>,
    i: int,
    end: int,
    c: int,
    lm: int,
    cap: Seq<i32>,
    want: Seq<i32>,
    room: int,
    logp: int,
)
    requires
        e.rng == d.rng,
        e.nbits_total == d.nbits_total,
        dec_reads_back(d, boost_trace(e, eb, i, end, c, lm, cap, want, room, logp)),
    ensures
        boost_reads_back(e, d, eb, i, end, c, lm, cap, want, room, logp),
    decreases end - i,
{
    if i < end {
        let q = boost_quanta(c * band_width(eb, i) * pow2(lm as nat));
        let lt = boost_loop_trace(e, want[i] as int, q, cap[i] as int, logp, room, 0, 0);
        let re = boost_loop(CoderState::Enc(e), want[i] as int, q, cap[i] as int, logp, room, 0, 0);
        let logp2 = if re.1 > 0 {
            max_int(2, logp - 1)
        } else {
            logp
        };
        let rest = boost_trace(re.0->Enc_0, eb, i + 1, end, c, lm, cap, want, room - re.2, logp2);
        lemma_reads_back_split(d, lt, rest);
        lemma_boost_loop_trace(e, d, want[i] as int, want[i] as int, q, cap[i] as int, logp, room, 0, 0);
        lemma_boost_loops_agree(e, d, want[i] as int, want[i] as int, q, cap[i] as int, logp, room, 0, 0);
        let rd = boost_loop(CoderState::Dec(d), want[i] as int, q, cap[i] as int, logp, room, 0, 0);
        assert(rd.0->Dec_0 == dec_ops_all(d, lt));
        lemma_boost_trace(re.0->Enc_0, rd.0->Dec_0, eb, i + 1, end, c, lm, cap, want, room - re.2, logp2);
    }
}

/// `decode_dynalloc_boost` rebuilds what `encode_dynalloc_boost` coded,
/// through the range coder: in a stream a fresh encoder of `size` bytes
/// writes (the calls of `before`, then the boost coding's, then those of
/// `after`) and `done` hands out in full, a decoder over the bytes that
/// mirrors `before` decodes the boosts of bands `i..end` and the budget left
/// that the encoder coded, whatever its own `offsets` held.
pub proof fn lemma_dynalloc_stream_round_trip(
    size: nat,
    before: Seq<CodedOp>,
    after: Seq<CodedOp>,
    eb: Seq<i16>,
    i: int,
    end: int,
    c: int,
    lm: int,
    cap: Seq<i32>,
    want: Seq<i32>,
    wd: Seq<i32>,
    room: int,
    logp: int,
)
    requires
        size < 0x1_0000_0000,
        ({
            let e = enc_ops_all(enc_new_spec(size), before);
            let ops = before + boost_trace(e, eb, i, end, c, lm, cap, want, room, logp) + after;
            &&& range_ops_ok(ops)
            &&& ops.len() <= 0x1000_0000
            &&& !enc_done_state(enc_ops_all(enc_new_spec(size), ops)).error
        }),
    ensures
        ({
            let e = enc_ops_all(enc_new_spec(size), before);
            let ops = before + boost_trace(e, eb, i, end, c, lm, cap, want, room, logp) + after;
            let buf = enc_done_spec(enc_ops_all(enc_new_spec(size), ops));
            let d = dec_ops_all(dec_new_spec(buf), before);
            let re = boost_bands(CoderState::Enc(e), eb, i, end, c, lm, cap, want, room, logp);
            let rd = boost_bands(CoderState::Dec(d), eb, i, end, c, lm, cap, wd, room, logp);
            &&& re.1 == rd.1
            &&& re.2 == rd.2
        }),
{
    let e = enc_ops_all(enc_new_spec(size), before);
    let bops = boost_trace(e, eb, i, end, c, lm, cap, want, room, logp);
    let ops = before + bops + after;
    assert(ops =~= before + (bops + after));
    lemma_round_trip_at(size, before, bops + after);
    let buf = enc_done_spec(enc_ops_all(enc_new_spec(size), ops));
    let d = dec_ops_all(dec_new_spec(buf), before);
    lemma_reads_back_split(d, bops, after);
    lemma_boost_trace(e, d, eb, i, end, c, lm, cap, want, room, logp);
    lemma_dynalloc_round_trip(e, d, eb, i, end, c, lm, cap, want, wd, room, logp);
}

} // verus!

verus! {

/// The calls the skip decisions make on the encoder: a skip flag for each
/// band whose share clears its threshold, from the last coded band down,
/// until a flag keeps a band.
pub open spec fn skip_trace(
    t: InterpTables,
    skip_start: int,
    skip_rsv: int,
    prev: int,
    signal_bandwidth: int,
    st: SkipState,
) -> Seq<CodedOp>
    decreases st.coded_bands,
{
    let cb = st.coded_bands;
    let j = cb - 1;
    if j <= skip_start || cb <= 0 {
        Seq::empty()
    } else {
        let band_bits0 = skip_band_bits(t, cb, j, st.total, st.psum, st.pulses[j] as int);
        let ask = band_bits0 >= max_int(t.thresh[j] as int, t.floor() + 8);
        let flag = want_skip(t, cb, j, band_bits0, prev, signal_bandwidth);
        let coded = code_bit_spec(st.coder, flag, 1);
        let head = if ask {
            seq![CodedOp::Bit(flag, 1)]
        } else {
            Seq::empty()
        };
        if ask && coded.1 {
            head
        } else {
            let coder = if ask {
                coded.0
            } else {
                st.coder
            };
            let psum1 = if ask {
                st.psum + 8
            } else {
                st.psum
            };
            let band_bits = if ask {
                band_bits0 - 8
            } else {
                band_bits0
            };
            let irsv = if st.intensity_rsv > 0 {
                log2_frac_table(j - t.start)
            } else {
                st.intensity_rsv
            };
            let psum2 = psum1 - (st.pulses[j] + st.intensity_rsv) + irsv;
            let kept = if band_bits >= t.floor() {
                t.floor()
            } else {
                0
            };
            head + skip_trace(
                t,
                skip_start,
                skip_rsv,
                prev,
                signal_bandwidth,
                SkipState {
                    coded_bands: cb - 1,
                    psum: psum2 + kept,
                    total: st.total,
                    intensity_rsv: irsv,
                    pulses: st.pulses.update(j, kept as i32),
                    coder,
                },
            )
        }
    }
}

/// A decoder that reads back the encoder's skip flags makes the same skip
/// decisions: both sides end with the same coded bands, budget, intensity
/// reservation and first budgets, each coder having made the trace's calls.
proof fn lemma_skip_trace(
    t: InterpTables,
    skip_start: int,
    skip_rsv: int,
    prev: int,
    signal_bandwidth: int,
    st: SkipState,
    e: EncState,
    d: DecState,
)
    requires
        dec_reads_back(
            d,
            skip_trace(t, skip_start, skip_rsv, prev, signal_bandwidth, SkipState { coder: CoderState::Enc(e), ..st }),
        ),
    ensures
        ({
            let se = SkipState { coder: CoderState::Enc(e), ..st };
            let sd = SkipState { coder: CoderState::Dec(d), ..st };
            let tr = skip_trace(t, skip_start, skip_rsv, prev, signal_bandwidth, se);
            let re = skip_bands(t, skip_start, skip_rsv, prev, signal_bandwidth, se);
            let rd = skip_bands(t, skip_start, skip_rsv, prev, signal_bandwidth, sd);
            &&& rd == SkipState { coder: CoderState::Dec(dec_ops_all(d, tr)), ..re }
            &&& re.coder == CoderState::Enc(enc_ops_all(e, tr))
            &&& (st.coded_bands > skip_start && st.coded_bands > 0) ==> skip_start < re.coded_bands
                <= st.coded_bands
        }),
    decreases st.coded_bands,
{
    let se = SkipState { coder: CoderState::Enc(e), ..st };
    let sd = SkipState { coder: CoderState::Dec(d), ..st };
    let cb = st.coded_bands;
    let j = cb - 1;
    if j <= skip_start || cb <= 0 {
        assert(dec_ops_all(d, Seq::<CodedOp>::empty()) == d);
        assert(enc_ops_all(e, Seq::<CodedOp>::empty()) == e);
    } else {
        let band_bits0 = skip_band_bits(t, cb, j, st.total, st.psum, st.pulses[j] as int);
        let ask = band_bits0 >= max_int(t.thresh[j] as int, t.floor() + 8);
        let flag = want_skip(t, cb, j, band_bits0, prev, signal_bandwidth);
        let op = CodedOp::Bit(flag, 1);
        let e2 = enc_op(e, op);
        let d2 = dec_op(d, op);
        let psum1 = if ask {
            st.psum + 8
        } else {
            st.psum
        };
        let band_bits = if ask {
            band_bits0 - 8
        } else {
            band_bits0
        };
        let irsv = if st.intensity_rsv > 0 {
            log2_frac_table(j - t.start)
        } else {
            st.intensity_rsv
        };
        let psum2 = psum1 - (st.pulses[j] + st.intensity_rsv) + irsv;
        let kept = if band_bits >= t.floor() {
            t.floor()
        } else {
            0
        };
        let next = SkipState {
            coded_bands: cb - 1,
            psum: psum2 + kept,
            total: st.total,
            intensity_rsv: irsv,
            pulses: st.pulses.update(j, kept as i32),
            coder: st.coder,
        };
        if ask {
            let rest = if flag {
                Seq::<CodedOp>::empty()
            } else {
                skip_trace(t, skip_start, skip_rsv, prev, signal_bandwidth, SkipState { coder: CoderState::Enc(e2), ..next })
            };
            assert(skip_trace(t, skip_start, skip_rsv, prev, signal_bandwidth, se) =~= seq![op] + rest);
            lemma_reads_back_cons(d, op, rest);
            lemma_enc_ops_cons(e, op, rest);
            assert(dec_bit_logp_spec(d, 1).1 == flag);
            if flag {
                assert(dec_ops_all(d2, Seq::<CodedOp>::empty()) == d2);
                assert(enc_ops_all(e2, Seq::<CodedOp>::empty()) == e2);
            } else {
                lemma_skip_trace(t, skip_start, skip_rsv, prev, signal_bandwidth, next, e2, d2);
                assert(SkipState { coder: CoderState::Enc(e2), ..next } == SkipState {
                    coder: code_bit_spec(se.coder, flag, 1).0,
                    ..next
                });
                assert(SkipState { coder: CoderState::Dec(d2), ..next } == SkipState {
                    coder: code_bit_spec(sd.coder, flag, 1).0,
                    ..next
                });
            }
        } else {
            let rest = skip_trace(t, skip_start, skip_rsv, prev, signal_bandwidth, SkipState { coder: CoderState::Enc(e), ..next });
            assert(skip_trace(t, skip_start, skip_rsv, prev, signal_bandwidth, se) =~= rest);
            lemma_skip_trace(t, skip_start, skip_rsv, prev, signal_bandwidth, next, e, d);
        }
    }
}

} // verus!

verus! {

/// The calls the stereo parameters make on the encoder: the intensity band
/// over the coded bands where a reservation is left, then the dual-stereo
/// flag where intensity sits above `start` and a bit is reserved.
pub open spec fn stereo_trace(
    t: InterpTables,
    cb: int,
    intensity_rsv: int,
    dual_stereo_rsv: int,
    intensity_in: int,
    dual_in: int,
) -> Seq<CodedOp> {
    let want = min_int(intensity_in, cb) - t.start;
    let first = if intensity_rsv > 0 {
        seq![uint_symbol(want, cb + 1 - t.start)]
    } else {
        Seq::empty()
    };
    let intensity = if intensity_rsv > 0 {
        t.start + want
    } else {
        0
    };
    let second = if intensity > t.start && dual_stereo_rsv > 0 {
        seq![CodedOp::Bit(dual_in != 0, 1)]
    } else {
        Seq::empty()
    };
    first + second
}

/// A decoder that reads back the encoder's stereo calls gets the intensity
/// band, the dual-stereo flag and the budget the encoder kept, whatever
/// values of its own it passed in.
proof fn lemma_stereo_trace(
    t: InterpTables,
    cb: int,
    total: int,
    intensity_rsv: int,
    dual_stereo_rsv: int,
    intensity_in: int,
    dual_in: int,
    intensity_dec: int,
    dual_dec: int,
    e: EncState,
    d: DecState,
)
    requires
        t.start < cb <= t.start + 255,
        intensity_rsv > 0 ==> t.start <= intensity_in,
        0 <= dual_in <= 1,
        dec_reads_back(d, stereo_trace(t, cb, intensity_rsv, dual_stereo_rsv, intensity_in, dual_in)),
    ensures
        ({
            let tr = stereo_trace(t, cb, intensity_rsv, dual_stereo_rsv, intensity_in, dual_in);
            let pe = stereo_params(t, cb, total, intensity_rsv, dual_stereo_rsv, intensity_in, dual_in, CoderState::Enc(e));
            let pd = stereo_params(t, cb, total, intensity_rsv, dual_stereo_rsv, intensity_dec, dual_dec, CoderState::Dec(d));
            &&& pd == (pe.0, pe.1, pe.2, CoderState::Dec(dec_ops_all(d, tr)))
            &&& pe.3 == CoderState::Enc(enc_ops_all(e, tr))
        }),
{
    let want = min_int(intensity_in, cb) - t.start;
    let ft = cb + 1 - t.start;
    let sym = uint_symbol(want, ft);
    let (e1, d1, first) = if intensity_rsv > 0 {
        (enc_op(e, sym), dec_op(d, sym), seq![sym])
    } else {
        (e, d, Seq::<CodedOp>::empty())
    };
    let intensity = if intensity_rsv > 0 {
        t.start + want
    } else {
        0
    };
    let bop = CodedOp::Bit(dual_in != 0, 1);
    let second = if intensity > t.start && dual_stereo_rsv > 0 {
        seq![bop]
    } else {
        Seq::<CodedOp>::empty()
    };
    let tr = stereo_trace(t, cb, intensity_rsv, dual_stereo_rsv, intensity_in, dual_in);
    assert(tr =~= first + second);
    lemma_reads_back_split(d, first, second);
    lemma_enc_ops_split(e, first, second);
    if intensity_rsv > 0 {
        lemma_small_uint(e, d, want as u32, ft as u32);
        lemma_reads_back_cons(d, sym, Seq::<CodedOp>::empty());
        lemma_enc_ops_cons(e, sym, Seq::<CodedOp>::empty());
        assert(seq![sym] + Seq::<CodedOp>::empty() =~= seq![sym]);
        assert(dec_ops_all(d1, Seq::<CodedOp>::empty()) == d1);
        assert(enc_ops_all(e1, Seq::<CodedOp>::empty()) == e1);
    } else {
        assert(dec_ops_all(d, Seq::<CodedOp>::empty()) == d);
        assert(enc_ops_all(e, Seq::<CodedOp>::empty()) == e);
    }
    assert(dec_ops_all(d, first) == d1);
    assert(enc_ops_all(e, first) == e1);
    if intensity > t.start && dual_stereo_rsv > 0 {
        lemma_reads_back_cons(d1, bop, Seq::<CodedOp>::empty());
        lemma_enc_ops_cons(e1, bop, Seq::<CodedOp>::empty());
        assert(seq![bop] + Seq::<CodedOp>::empty() =~= seq![bop]);
        assert(dec_ops_all(dec_op(d1, bop), Seq::<CodedOp>::empty()) == dec_op(d1, bop));
        assert(enc_ops_all(enc_op(e1, bop), Seq::<CodedOp>::empty()) == enc_op(e1, bop));
        assert(dec_bit_logp_spec(d1, 1).1 == (dual_in != 0));
    } else {
        assert(dec_ops_all(d1, Seq::<CodedOp>::empty()) == d1);
        assert(enc_ops_all(e1, Seq::<CodedOp>::empty()) == e1);
    }
}

} // verus!

verus! {

/// The calls `interp_bits2pulses` makes on the encoder: the skip flags, then
/// the stereo parameters.
pub open spec fn split_trace(
    t: InterpTables,
    skip_start: int,
    total: int,
    skip_rsv: int,
    intensity_in: int,
    intensity_rsv: int,
    dual_in: int,
    dual_stereo_rsv: int,
    pulses: Seq<i32>,
    prev: int,
    signal_bandwidth: int,
    e: EncState,
) -> Seq<CodedOp> {
    let lo = t.interp_point(total, 0, 64, 6);
    let st = SkipState {
        coded_bands: t.end,
        psum: t.first_sum(t.start, lo),
        total,
        intensity_rsv,
        pulses: first_pulses_out(t, pulses, lo),
        coder: CoderState::Enc(e),
    };
    let sk = skip_bands(t, skip_start, skip_rsv, prev, signal_bandwidth, st);
    skip_trace(t, skip_start, skip_rsv, prev, signal_bandwidth, st) + stereo_trace(
        t,
        sk.coded_bands,
        sk.intensity_rsv,
        dual_stereo_rsv,
        intensity_in,
        dual_in,
    )
}

/// A decoder that reads back the encoder's split calls splits the budget as
/// the encoder did.
proof fn lemma_split_agree(
    t: InterpTables,
    skip_start: int,
    total: int,
    skip_rsv: int,
    intensity_in: int,
    intensity_rsv: int,
    dual_in: int,
    dual_stereo_rsv: int,
    pulses: Seq<i32>,
    ebits: Seq<i32>,
    fine_priority: Seq<i32>,
    prev: int,
    signal_bandwidth: int,
    intensity_dec: int,
    dual_dec: int,
    e: EncState,
    d: DecState,
)
    requires
        0 <= t.start <= skip_start < t.end <= t.start + 255,
        intensity_rsv > 0 ==> t.start <= intensity_in,
        0 <= dual_in <= 1,
        dec_reads_back(
            d,
            split_trace(t, skip_start, total, skip_rsv, intensity_in, intensity_rsv, dual_in, dual_stereo_rsv, pulses, prev, signal_bandwidth, e),
        ),
    ensures
        ({
            let tr = split_trace(t, skip_start, total, skip_rsv, intensity_in, intensity_rsv, dual_in, dual_stereo_rsv, pulses, prev, signal_bandwidth, e);
            let re = split_spec(t, skip_start, total, skip_rsv, intensity_in, intensity_rsv, dual_in, dual_stereo_rsv, pulses, ebits, fine_priority, prev, signal_bandwidth, CoderState::Enc(e));
            let rd = split_spec(t, skip_start, total, skip_rsv, intensity_dec, intensity_rsv, dual_dec, dual_stereo_rsv, pulses, ebits, fine_priority, prev, signal_bandwidth, CoderState::Dec(d));
            &&& rd == SplitResult { coder: CoderState::Dec(dec_ops_all(d, tr)), ..re }
            &&& re.coder == CoderState::Enc(enc_ops_all(e, tr))
        }),
{
    let lo = t.interp_point(total, 0, 64, 6);
    let st = SkipState {
        coded_bands: t.end,
        psum: t.first_sum(t.start, lo),
        total,
        intensity_rsv,
        pulses: first_pulses_out(t, pulses, lo),
        coder: CoderState::Enc(e),
    };
    let sd = SkipState { coder: CoderState::Dec(d), ..st };
    let ts = skip_trace(t, skip_start, skip_rsv, prev, signal_bandwidth, st);
    let sk = skip_bands(t, skip_start, skip_rsv, prev, signal_bandwidth, st);
    let tt = stereo_trace(t, sk.coded_bands, sk.intensity_rsv, dual_stereo_rsv, intensity_in, dual_in);
    lemma_reads_back_split(d, ts, tt);
    lemma_enc_ops_split(e, ts, tt);
    assert(SkipState { coder: CoderState::Enc(e), ..st } == st);
    lemma_skip_trace(t, skip_start, skip_rsv, prev, signal_bandwidth, st, e, d);
    let skd = skip_bands(t, skip_start, skip_rsv, prev, signal_bandwidth, sd);
    let e1 = enc_ops_all(e, ts);
    let d1 = dec_ops_all(d, ts);
    assert(sk.intensity_rsv > 0 ==> intensity_rsv > 0) by {
        lemma_skip_rsv_stays_zero(t, skip_start, skip_rsv, prev, signal_bandwidth, st);
    }
    lemma_stereo_trace(t, sk.coded_bands, sk.total, sk.intensity_rsv, dual_stereo_rsv, intensity_in, dual_in, intensity_dec, dual_dec, e1, d1);
}

/// Without an intensity reservation none appears on the way.
proof fn lemma_skip_rsv_stays_zero(
    t: InterpTables,
    skip_start: int,
    skip_rsv: int,
    prev: int,
    signal_bandwidth: int,
    st: SkipState,
)
    ensures
        st.intensity_rsv <= 0 ==> skip_bands(t, skip_start, skip_rsv, prev, signal_bandwidth, st).intensity_rsv == st.intensity_rsv,
    decreases st.coded_bands,
{
    let cb = st.coded_bands;
    let j = cb - 1;
    if !(j <= skip_start || cb <= 0) {
        let band_bits0 = skip_band_bits(t, cb, j, st.total, st.psum, st.pulses[j] as int);
        let ask = band_bits0 >= max_int(t.thresh[j] as int, t.floor() + 8);
        let coded = code_bit_spec(st.coder, want_skip(t, cb, j, band_bits0, prev, signal_bandwidth), 1);
        if !(ask && coded.1) {
            let coder = if ask {
                coded.0
            } else {
                st.coder
            };
            let psum1 = if ask {
                st.psum + 8
            } else {
                st.psum
            };
            let band_bits = if ask {
                band_bits0 - 8
            } else {
                band_bits0
            };
            let irsv = if st.intensity_rsv > 0 {
                log2_frac_table(j - t.start)
            } else {
                st.intensity_rsv
            };
            let psum2 = psum1 - (st.pulses[j] + st.intensity_rsv) + irsv;
            let kept = if band_bits >= t.floor() {
                t.floor()
            } else {
                0
            };
            lemma_skip_rsv_stays_zero(
                t,
                skip_start,
                skip_rsv,
                prev,
                signal_bandwidth,
                SkipState {
                    coded_bands: cb - 1,
                    psum: psum2 + kept,
                    total: st.total,
                    intensity_rsv: irsv,
                    pulses: st.pulses.update(j, kept as i32),
                    coder,
                },
            );
        }
    }
}

} // verus!

verus! {

/// The calls `clt_compute_allocation` makes on the encoder `e`.
pub open spec fn alloc_trace(
    inp: &AllocInput,
    offsets: Seq<i32>,
    cap: Seq<i32>,
    alloc_trim: int,
    intensity: int,
    dual_stereo: int,
    total: int,
    pulses: Seq<i32>,
    prev: int,
    signal_bandwidth: int,
    e: EncState,
) -> Seq<CodedOp> {
    let r = reservations(inp.c as int, inp.start as int, inp.end as int, total);
    let hi = row_search(inp, offsets, cap, alloc_trim, r.0, 1, inp.nb_alloc_vectors - 1);
    split_trace(
        alloc_tables(inp, offsets, cap, alloc_trim, hi - 1, hi),
        last_boosted(offsets, inp.start as int, inp.end as int),
        r.0,
        r.1,
        intensity,
        r.2,
        dual_stereo,
        r.3,
        pulses,
        prev,
        signal_bandwidth,
        e,
    )
}

/// Encoder and decoder allocate alike: a decoder that reads back the calls
/// the encoder's allocation made (its skip flags, intensity band and
/// dual-stereo flag) reaches the same coded bands, balance, intensity and
/// dual-stereo flag, and fills the same pulses, fine-energy bits and fine
/// priorities, whatever intensity and dual-stereo values it passed in; the
/// encoder's dual-stereo flag is a bit.
pub proof fn lemma_allocation_agree(
    inp: &AllocInput,
    offsets: Seq<i32>,
    cap: Seq<i32>,
    alloc_trim: int,
    intensity: int,
    dual_stereo: int,
    total: int,
    pulses: Seq<i32>,
    ebits: Seq<i32>,
    fine_priority: Seq<i32>,
    prev: int,
    signal_bandwidth: int,
    intensity_dec: int,
    dual_dec: int,
    e: EncState,
    d: DecState,
)
    requires
        alloc_args_ok(inp, offsets, cap, alloc_trim),
        inp.c == 2 ==> inp.start <= intensity,
        0 <= dual_stereo <= 1,
        dec_reads_back(
            d,
            alloc_trace(inp, offsets, cap, alloc_trim, intensity, dual_stereo, total, pulses, prev, signal_bandwidth, e),
        ),
    ensures
        ({
            let tr = alloc_trace(inp, offsets, cap, alloc_trim, intensity, dual_stereo, total, pulses, prev, signal_bandwidth, e);
            let re = allocation_spec(inp, offsets, cap, alloc_trim, intensity, dual_stereo, total, pulses, ebits, fine_priority, prev, signal_bandwidth, CoderState::Enc(e));
            let rd = allocation_spec(inp, offsets, cap, alloc_trim, intensity_dec, dual_dec, total, pulses, ebits, fine_priority, prev, signal_bandwidth, CoderState::Dec(d));
            &&& rd.pulses == re.pulses
            &&& rd.ebits == re.ebits
            &&& rd.fine_priority == re.fine_priority
            &&& rd.coded_bands == re.coded_bands
            &&& rd.balance == re.balance
            &&& rd.intensity == re.intensity
            &&& rd.dual_stereo == re.dual_stereo
            &&& rd.coder == CoderState::Dec(dec_ops_all(d, tr))
            &&& re.coder == CoderState::Enc(enc_ops_all(e, tr))
        }),
{
    let r = reservations(inp.c as int, inp.start as int, inp.end as int, total);
    let hi = row_search(inp, offsets, cap, alloc_trim, r.0, 1, inp.nb_alloc_vectors - 1);
    let t = alloc_tables(inp, offsets, cap, alloc_trim, hi - 1, hi);
    let skip_start = last_boosted(offsets, inp.start as int, inp.end as int);
    lemma_last_boosted_range(offsets, inp.start as int, inp.end as int);
    assert(r.2 > 0 ==> inp.c == 2);
    lemma_split_agree(
        t,
        skip_start,
        r.0,
        r.1,
        intensity,
        r.2,
        dual_stereo,
        r.3,
        pulses,
        ebits,
        fine_priority,
        prev,
        signal_bandwidth,
        intensity_dec,
        dual_dec,
        e,
        d,
    );
}

/// `clt_compute_allocation` gives the decoder the encoder's allocation,
/// through the range coder: in a stream a fresh encoder of `size` bytes
/// writes (the calls of `before`, then the allocation's, then those of
/// `after`) and `done` hands out in full, a decoder over the bytes that
/// mirrors `before` and runs the allocation on the same inputs reaches the
/// encoder's coded bands, balance, intensity and dual-stereo flag, pulses,
/// fine-energy bits and fine priorities, and stays in step with the stream.
pub proof fn lemma_allocation_stream_round_trip(
    size: nat,
    before: Seq<CodedOp>,
    after: Seq<CodedOp>,
    inp: &AllocInput,
    offsets: Seq<i32>,
    cap: Seq<i32>,
    alloc_trim: int,
    intensity: int,
    dual_stereo: int,
    total: int,
    pulses: Seq<i32>,
    ebits: Seq<i32>,
    fine_priority: Seq<i32>,
    prev: int,
    signal_bandwidth: int,
    intensity_dec: int,
    dual_dec: int,
)
    requires
        size < 0x1_0000_0000,
        alloc_args_ok(inp, offsets, cap, alloc_trim),
        inp.c == 2 ==> inp.start <= intensity,
        0 <= dual_stereo <= 1,
        ({
            let e = enc_ops_all(enc_new_spec(size), before);
            let ops = before + alloc_trace(inp, offsets, cap, alloc_trim, intensity, dual_stereo, total, pulses, prev, signal_bandwidth, e) + after;
            &&& range_ops_ok(ops)
            &&& ops.len() <= 0x1000_0000
            &&& !enc_done_state(enc_ops_all(enc_new_spec(size), ops)).error
        }),
    ensures
        ({
            let e = enc_ops_all(enc_new_spec(size), before);
            let tr = alloc_trace(inp, offsets, cap, alloc_trim, intensity, dual_stereo, total, pulses, prev, signal_bandwidth, e);
            let ops = before + tr + after;
            let buf = enc_done_spec(enc_ops_all(enc_new_spec(size), ops));
            let d = dec_ops_all(dec_new_spec(buf), before);
            let re = allocation_spec(inp, offsets, cap, alloc_trim, intensity, dual_stereo, total, pulses, ebits, fine_priority, prev, signal_bandwidth, CoderState::Enc(e));
            let rd = allocation_spec(inp, offsets, cap, alloc_trim, intensity_dec, dual_dec, total, pulses, ebits, fine_priority, prev, signal_bandwidth, CoderState::Dec(d));
            &&& rd.pulses == re.pulses
            &&& rd.ebits == re.ebits
            &&& rd.fine_priority == re.fine_priority
            &&& rd.coded_bands == re.coded_bands
            &&& rd.balance == re.balance
            &&& rd.intensity == re.intensity
            &&& rd.dual_stereo == re.dual_stereo
            &&& rd.coder == CoderState::Dec(dec_ops_all(dec_new_spec(buf), before + tr))
            &&& re.coder == CoderState::Enc(enc_ops_all(enc_new_spec(size), before + tr))
        }),
{
    let e = enc_ops_all(enc_new_spec(size), before);
    let tr = alloc_trace(inp, offsets, cap, alloc_trim, intensity, dual_stereo, total, pulses, prev, signal_bandwidth, e);
    let ops = before + tr + after;
    assert(ops =~= before + (tr + after));
    lemma_round_trip_at(size, before, tr + after);
    let buf = enc_done_spec(enc_ops_all(enc_new_spec(size), ops));
    let d = dec_ops_all(dec_new_spec(buf), before);
    lemma_reads_back_split(d, tr, after);
    lemma_reads_back_split(dec_new_spec(buf), before, tr);
    lemma_enc_ops_split(enc_new_spec(size), before, tr);
    lemma_allocation_agree(
        inp,
        offsets,
        cap,
        alloc_trim,
        intensity,
        dual_stereo,
        total,
        pulses,
        ebits,
        fine_priority,
        prev,
        signal_bandwidth,
        intensity_dec,
        dual_dec,
        e,
        d,
    );
}

} // verus!
