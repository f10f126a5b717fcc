//! The band-split angle: the integer square root behind the triangular angle
//! pdf, the mid/side gains and allocation delta derived from a quantized
//! angle, and the encoder and decoder sides of the angle.
use crate::allocation::lemma_tell_range;
use crate::quant_band::CoderState;
use crate::range_coder::{
    dec_bit_logp_spec, dec_decode_spec, dec_uint_spec, dec_update_spec, ec_ilog, enc_bit_logp_spec,
    enc_encode_spec, enc_uint_spec, ilog, lemma_ilog_bounds, lemma_ilog_monotone, lemma_ilog_unique,
    lemma_tell_frac_fraction, DecState, EncState, RangeDecoder, RangeEncoder, EC_CODE_BOT,
};
use crate::theta::{
    bitexact_cos, bitexact_cos_spec, bitexact_log2tan, bitexact_log2tan_spec, compute_qn,
    compute_qn_in_range, compute_qn_spec, frac_mul16, frac_mul16_spec, BITRES,
};
use vstd::arithmetic::power2::*;
use vstd::bits::*;
use vstd::prelude::*;

verus! {

/// `g` is the integer square root of `v`: `g^2 <= v < (g + 1)^2`.
pub open spec fn is_isqrt(v: int, g: int) -> bool {
    0 <= g && g * g <= v && v < (g + 1) * (g + 1)
}

/// The integer square root `floor(sqrt(v))`.
pub open spec fn floor_sqrt(v: int) -> int {
    choose|g: int| is_isqrt(v, g)
}

/// The integer square root is unique, so any root found is `floor_sqrt`.
pub proof fn lemma_isqrt_is_floor_sqrt(v: int, g: int)
    requires
        is_isqrt(v, g),
    ensures
        floor_sqrt(v) == g,
{
    let h = floor_sqrt(v);
    assert(is_isqrt(v, h));
    if h < g {
        assert((h + 1) * (h + 1) <= g * g) by (nonlinear_arith)
            requires
                0 <= h,
                h + 1 <= g,
        ;
    } else if h > g {
        assert((g + 1) * (g + 1) <= h * h) by (nonlinear_arith)
            requires
                0 <= g,
                g + 1 <= h,
        ;
    }
}

/// `isqrt32`: the integer square root `floor(sqrt(val))`, one result bit per
/// step from the top.
pub fn isqrt32(val: u32) -> (res: u32)
    ensures
        is_isqrt(val as int, res as int),
        res == floor_sqrt(val as int),
{
    if val == 0 {
        proof {
            assert(is_isqrt(0, 0));
            lemma_isqrt_is_floor_sqrt(0, 0);
        }
        return 0;
    }
    let l = ec_ilog(val);
    proof {
        lemma_ilog_bounds(val as nat);
    }
    let mut v: u32 = val;
    let mut g: u32 = 0;
    let mut bshift: i32 = ((l as i32) - 1) >> 1;
    proof {
        let l1: i32 = ((l as i32) - 1) as i32;
        assert(0 <= l1 <= 31 ==> l1 >> 1 == l1 / 2) by (bit_vector);
        lemma2_to64();
        lemma_pow2_adds(bshift as nat + 1, bshift as nat + 1);
        if l < 2 * bshift + 2 {
            lemma_pow2_strictly_increases(l as nat, (2 * bshift + 2) as nat);
        }
        lemma_pow2_unfold(bshift as nat + 1);
        lemma_u32_shl_is_mul(1, bshift as u32);
        if bshift < 15 {
            lemma_pow2_strictly_increases(bshift as nat + 1, 16);
        }
    }
    let mut b: u32 = 1u32 << (bshift as u32);
    loop
        invariant_except_break
            0 <= bshift <= 15,
            b as int == pow2(bshift as nat),
            g as int + 2 * b <= 65536,
            v as int == val as int - g as int * g as int,
            (val as int) < (g as int + 2 * b) * (g as int + 2 * b),
        ensures
            is_isqrt(val as int, g as int),
        decreases bshift,
    {
        proof {
            lemma_pow2_pos(bshift as nat);
            assert((2 * g + b) * b <= 0xffff_ffff) by (nonlinear_arith)
                requires
                    g + 2 * b <= 65536,
                    b >= 1,
            ;
            lemma_u32_shl_is_mul((2 * g + b) as u32, bshift as u32);
            assert(g <= 65535 ==> g << 1u32 == 2 * g) by (bit_vector);
        }
        let t = ((g << 1) + b) << (bshift as u32);
        proof {
            assert(t == (2 * g + b) * b);
            assert((g + b) * (g + b) == g * g + t) by (nonlinear_arith)
                requires
                    t == (2 * g + b) * b,
            ;
        }
        let ghost b_old = b;
        if t <= v {
            g += b;
            v -= t;
        }
        assert((val as int) < (g as int + b_old) * (g as int + b_old));
        proof {
            assert(b >> 1u32 == b / 2) by (bit_vector);
            if bshift >= 1 {
                lemma_pow2_unfold(bshift as nat);
            }
        }
        b >>= 1;
        bshift -= 1;
        if bshift < 0 {
            proof {
                lemma2_to64();
                assert(b_old == 1);
                assert(g * g <= val);
            }
            break;
        }
    }
    proof {
        lemma_isqrt_is_floor_sqrt(val as int, g as int);
    }
    g
}

} // verus!

verus! {

const QTHETA_OFFSET: i32 = 4;

const QTHETA_OFFSET_TWOPHASE: i32 = 16;

/// The split of a band into two halves: the stereo inversion flag, the
/// mid/side gains `imid`/`iside` (Q15), the allocation `delta`, the quantized
/// angle `itheta` (Q14 quarter turn) and the eighth-bits `qalloc` the angle cost.
#[derive(Debug, Clone, Copy, PartialEq, Eq, Structural)]
pub struct SplitCtx {
    pub inv: bool,
    pub imid: i32,
    pub iside: i32,
    pub delta: i32,
    pub itheta: i32,
    pub qalloc: i32,
}

/// What the angle coding reads of the band being split: `log_n` is the band's
/// log-width in eighth-bits, `i` its index, `intensity` the first band coded as
/// intensity stereo, and the rest the pass-wide switches.
#[derive(Debug, Clone, Copy, PartialEq, Eq, Structural)]
pub struct BandCtx {
    pub log_n: i32,
    pub i: usize,
    pub intensity: usize,
    pub nb_e_bands: usize,
    pub remaining_bits: i32,
    pub theta_round: i32,
    pub avoid_split_noise: bool,
    pub disable_inv: bool,
}

/// An angle a split can be left with: a point of the quarter turn.
pub open spec fn split_angle_ok(itheta: int) -> bool {
    0 <= itheta <= 16384
}

/// The gains and allocation delta a split angle gives.
pub open spec fn split_from_angle(itheta: int, n: i32, inv: bool, qalloc: int) -> SplitCtx {
    if itheta == 0 {
        SplitCtx { inv, imid: 32767, iside: 0, delta: -16384i32, itheta: 0, qalloc: qalloc as i32 }
    } else if itheta == 16384 {
        SplitCtx { inv, imid: 0, iside: 32767, delta: 16384, itheta: 16384, qalloc: qalloc as i32 }
    } else {
        let imid = bitexact_cos_spec(itheta as i16) as int;
        let iside = bitexact_cos_spec((16384 - itheta) as i16) as int;
        SplitCtx {
            inv,
            imid: imid as i32,
            iside: iside as i32,
            delta: frac_mul16_spec(
                ((((n - 1) as i32) << 7u32) as int),
                bitexact_log2tan_spec(iside, imid),
            ) as i32,
            itheta: itheta as i32,
            qalloc: qalloc as i32,
        }
    }
}

/// The blocks a split leaves filled: all of them for an intermediate angle,
/// only the mid half's (the low `big_b` bits) when the side is silent, only
/// the side half's when the mid is.
pub open spec fn fill_after(itheta: int, big_b: i32, fill: i32) -> i32 {
    let low = ((1i32 << (big_b as u32)) - 1) as i32;
    if itheta == 0 {
        fill & low
    } else if itheta == 16384 {
        fill & (low << (big_b as u32))
    } else {
        fill
    }
}

/// Derives the gains, the allocation delta and the filled blocks from the
/// final angle: the shared tail of both sides of the angle coding.
fn finish_split(itheta: i32, n: i32, big_b: i32, inv: bool, qalloc: i32, fill: &mut i32) -> (res: SplitCtx)
    requires
        split_angle_ok(itheta as int),
        1 <= n,
        0 <= big_b <= 30,
    ensures
        res == split_from_angle(itheta as int, n, inv, qalloc as int),
        *final(fill) == fill_after(itheta as int, big_b, *old(fill)),
{
    proof {
        let sh = big_b as u32;
        assert(sh <= 30 ==> (1i32 << sh) >= 1) by (bit_vector);
    }
    let (imid, iside, delta);
    if itheta == 0 {
        imid = 32767;
        iside = 0;
        *fill &= (1 << (big_b as u32)) - 1;
        delta = -16384;
    } else if itheta == 16384 {
        imid = 0;
        iside = 32767;
        *fill &= ((1 << (big_b as u32)) - 1) << (big_b as u32);
        delta = 16384;
    } else {
        imid = bitexact_cos(itheta as i16) as i32;
        iside = bitexact_cos((16384 - itheta) as i16) as i32;
        delta = frac_mul16((n - 1) << 7, bitexact_log2tan(iside, imid));
    }
    SplitCtx { inv, imid, iside, delta, itheta, qalloc }
}

} // verus!

verus! {

/// The pulse cap and angle offset of a split: half the cap less a fixed
/// offset (a larger one for a two-sample stereo split).
pub open spec fn theta_pulse_cap(ctx: BandCtx, lm: int) -> int {
    ctx.log_n + lm * 8
}

pub open spec fn theta_offset(ctx: BandCtx, n: int, lm: int, stereo: bool) -> int {
    theta_pulse_cap(ctx, lm) / 2 - if stereo && n == 2 {
        16int
    } else {
        4int
    }
}

/// The inputs on which the resolution arithmetic stays inside `i32`.
pub open spec fn theta_in_range(ctx: BandCtx, n: int, b: int, lm: int, stereo: bool) -> bool {
    &&& i32::MIN <= lm * 8 <= i32::MAX
    &&& i32::MIN <= theta_pulse_cap(ctx, lm) <= i32::MAX
    &&& compute_qn_in_range(
        n,
        b,
        theta_offset(ctx, n, lm, stereo),
        theta_pulse_cap(ctx, lm),
    )
}

/// The number of angle levels: one for a band coded as intensity stereo,
/// else what the resolution rule gives.
pub open spec fn theta_qn(ctx: BandCtx, n: int, b: int, lm: int, stereo: bool) -> int {
    if stereo && ctx.i >= ctx.intensity {
        1
    } else {
        compute_qn_spec(n, b, theta_offset(ctx, n, lm, stereo), theta_pulse_cap(ctx, lm), stereo)
    }
}

/// The split resolution shared by both sides of the angle coding.
fn qn_and_offset(ctx: &BandCtx, n: i32, b: i32, lm: i32, stereo: bool) -> (qn: i32)
    requires
        theta_in_range(*ctx, n as int, b as int, lm as int, stereo),
    ensures
        qn == theta_qn(*ctx, n as int, b as int, lm as int, stereo),
        qn == 1 || (qn % 2 == 0 && 2 <= qn <= 256),
{
    proof {
        assert((1i32 << 3u32) == 8) by (bit_vector);
        let pc: i32 = (ctx.log_n + lm * 8) as i32;
        assert(pc >> 1u32 == pc / 2) by (bit_vector);
    }
    let pulse_cap = ctx.log_n + lm * (1 << BITRES);
    let offset = (pulse_cap >> 1) - if stereo && n == 2 {
        QTHETA_OFFSET_TWOPHASE
    } else {
        QTHETA_OFFSET
    };
    let mut qn = compute_qn(n, b, offset, pulse_cap, stereo);
    if stereo && ctx.i >= ctx.intensity {
        qn = 1;
    }
    qn
}

/// The step pdf of a stereo angle: the levels up to the middle weigh three,
/// the rest one.
pub open spec fn theta_step_symbol(fs: int, x0: int) -> int {
    if fs < 3 * (x0 + 1) {
        fs / 3
    } else {
        x0 + 1 + (fs - 3 * (x0 + 1))
    }
}

pub open spec fn theta_step_low(xx: int, x0: int) -> int {
    if xx <= x0 {
        3 * xx
    } else {
        (xx - 1 - x0) + 3 * (x0 + 1)
    }
}

pub open spec fn theta_step_high(xx: int, x0: int) -> int {
    if xx <= x0 {
        3 * (xx + 1)
    } else {
        (xx - x0) + 3 * (x0 + 1)
    }
}

/// Reading a stereo angle level under the step pdf.
pub open spec fn theta_step_dec(s: DecState, qn: int) -> (DecState, int) {
    let x0 = qn / 2;
    let ft = 3 * (x0 + 1) + x0;
    let (s1, fs) = dec_decode_spec(s, ft);
    let xx = theta_step_symbol(fs, x0);
    (dec_update_spec(s1, theta_step_low(xx, x0), theta_step_high(xx, x0), ft), xx)
}

/// Reading an angle level under the triangular pdf, inverting its cumulative
/// frequencies with an integer square root.
pub open spec fn theta_tri_dec(s: DecState, qn: int) -> (DecState, int) {
    let h = qn / 2;
    let ft = (h + 1) * (h + 1);
    let (s1, fm) = dec_decode_spec(s, ft);
    if fm < h * (h + 1) / 2 {
        let k = (floor_sqrt(8 * fm + 1) - 1) / 2;
        let fl = k * (k + 1) / 2;
        (dec_update_spec(s1, fl, fl + k + 1, ft), k)
    } else {
        let k = (2 * (qn + 1) - floor_sqrt(8 * (ft - fm - 1) + 1)) / 2;
        let fs = qn + 1 - k;
        let fl = ft - fs * (fs + 1) / 2;
        (dec_update_spec(s1, fl, fl + fs, ft), k)
    }
}

/// The decoder side of the angle: the state after reading it, the angle
/// (Q14 quarter turn) and the stereo inversion flag.
pub open spec fn theta_decode_spec(
    ctx: BandCtx,
    s: DecState,
    n: int,
    b0: int,
    lm: int,
    stereo: bool,
    b: int,
) -> (DecState, int, bool) {
    let qn = theta_qn(ctx, n, b, lm, stereo);
    if qn != 1 {
        let (s1, k) = if stereo && n > 2 {
            theta_step_dec(s, qn)
        } else if b0 > 1 || stereo {
            let (s1, v) = dec_uint_spec(s, (qn + 1) as u32);
            (s1, v as int)
        } else {
            theta_tri_dec(s, qn)
        };
        (s1, k * 16384 / qn, false)
    } else if stereo {
        if b > 16 && ctx.remaining_bits > 16 {
            let (s1, bit) = dec_bit_logp_spec(s, 2);
            (s1, 0, bit && !ctx.disable_inv)
        } else {
            (s, 0, false)
        }
    } else {
        (s, 0, false)
    }
}

} // verus!

verus! {

proof fn lemma_half(x: i32)
    ensures
        x >> 1u32 == x / 2,
{
    crate::bits::lemma_i32_shr_div(x, 1);
    lemma2_to64();
}

/// The first half of the triangular pdf: the root lands on a level below the
/// middle, whose interval fits the total.
proof fn lemma_tri_low(h: int, fm: int, g: int)
    requires
        h >= 1,
        0 <= fm < h * (h + 1) / 2,
        is_isqrt(8 * fm + 1, g),
    ensures
        1 <= g <= 2 * h,
        0 <= (g - 1) / 2 <= h - 1,
        ((g - 1) / 2) * ((g - 1) / 2 + 1) / 2 + (g - 1) / 2 + 1 <= (h + 1) * (h + 1),
{
    assert(1 <= g <= 2 * h) by (nonlinear_arith)
        requires
            h >= 1,
            0 <= fm,
            2 * fm < h * (h + 1),
            0 <= g,
            g * g <= 8 * fm + 1,
            8 * fm + 1 < (g + 1) * (g + 1),
    ;
    let k = (g - 1) / 2;
    assert(k * (k + 1) / 2 + k + 1 <= (h + 1) * (h + 1)) by (nonlinear_arith)
        requires
            0 <= k <= h - 1,
    ;
}

/// The second half of the triangular pdf: the mirrored root lands on a level
/// from the middle up, whose interval fits the total.
proof fn lemma_tri_high(h: int, fm: int, g: int)
    requires
        h >= 1,
        h * (h + 1) / 2 <= fm < (h + 1) * (h + 1),
        is_isqrt(8 * ((h + 1) * (h + 1) - fm - 1) + 1, g),
    ensures
        1 <= g <= 2 * h + 2,
        h <= (2 * (2 * h + 1) - g) / 2 <= 2 * h,
        ({
            let fs = 2 * h + 1 - (2 * (2 * h + 1) - g) / 2;
            &&& 1 <= fs <= h + 1
            &&& fs <= fs * (fs + 1) / 2 <= (h + 1) * (h + 1)
        }),
{
    let m = (h + 1) * (h + 1) - fm - 1;
    assert(1 <= g <= 2 * h + 2) by (nonlinear_arith)
        requires
            h >= 1,
            m == (h + 1) * (h + 1) - fm - 1,
            0 <= m,
            2 * fm >= h * (h + 1) - 1,
            0 <= g,
            g * g <= 8 * m + 1,
            8 * m + 1 < (g + 1) * (g + 1),
    ;
    let k = (2 * (2 * h + 1) - g) / 2;
    let fs = 2 * h + 1 - k;
    assert(fs <= fs * (fs + 1) / 2 <= (h + 1) * (h + 1)) by (nonlinear_arith)
        requires
            1 <= fs <= h + 1,
    ;
}

/// Reads a stereo angle level under the step pdf.
fn decode_step(ec: &mut RangeDecoder, qn: i32) -> (res: i32)
    requires
        old(ec)@.wf(),
        old(ec)@.has_room(),
        qn % 2 == 0,
        2 <= qn <= 256,
    ensures
        (final(ec)@, res as int) == theta_step_dec(old(ec)@, qn as int),
        0 <= res <= qn,
        final(ec)@.wf(),
        old(ec)@.nbits_total <= final(ec)@.nbits_total <= old(ec)@.nbits_total + 24,
{
    let p0: i32 = 3;
    let x0: i32 = qn / 2;
    let ft: i32 = p0 * (x0 + 1) + x0;
    let fs: i32 = ec.decode(ft as u32) as i32;
    let xx: i32 = if fs < (x0 + 1) * p0 {
        fs / p0
    } else {
        x0 + 1 + (fs - (x0 + 1) * p0)
    };
    let (fl, fh): (i32, i32) = if xx <= x0 {
        (p0 * xx, p0 * (xx + 1))
    } else {
        ((xx - 1 - x0) + (x0 + 1) * p0, (xx - x0) + (x0 + 1) * p0)
    };
    ec.dec_update(fl as u32, fh as u32, ft as u32);
    xx
}

/// Reads an angle level under the triangular pdf.
fn decode_triangular(ec: &mut RangeDecoder, qn: i32) -> (res: i32)
    requires
        old(ec)@.wf(),
        old(ec)@.has_room(),
        qn % 2 == 0,
        2 <= qn <= 256,
    ensures
        (final(ec)@, res as int) == theta_tri_dec(old(ec)@, qn as int),
        0 <= res <= qn,
        final(ec)@.wf(),
        old(ec)@.nbits_total <= final(ec)@.nbits_total <= old(ec)@.nbits_total + 24,
{
    proof {
        lemma_half(qn);
    }
    let h: i32 = qn >> 1;
    proof {
        assert(1 <= h <= 128);
        assert(4 <= (h + 1) * (h + 1) <= 16641 && h * (h + 1) <= 16512) by (nonlinear_arith)
            requires
                1 <= h <= 128,
        ;
    }
    let ft: i32 = (h + 1) * (h + 1);
    let fm: i32 = ec.decode(ft as u32) as i32;
    let itheta: i32;
    let fl: i32;
    let fs: i32;
    proof {
        lemma_half((h * (h + 1)) as i32);
    }
    if fm < ((h * (h + 1)) >> 1) {
        let r: u32 = isqrt32((8 * fm + 1) as u32);
        proof {
            lemma_tri_low(h as int, fm as int, r as int);
            lemma_half((r as i32 - 1) as i32);
        }
        itheta = (r as i32 - 1) >> 1;
        fs = itheta + 1;
        proof {
            lemma_half((itheta * (itheta + 1)) as i32);
        }
        fl = (itheta * (itheta + 1)) >> 1;
    } else {
        let r: u32 = isqrt32((8 * (ft - fm - 1) + 1) as u32);
        proof {
            lemma_tri_high(h as int, fm as int, r as int);
            lemma_half((2 * (qn + 1) - r as i32) as i32);
        }
        itheta = (2 * (qn + 1) - r as i32) >> 1;
        fs = qn + 1 - itheta;
        proof {
            assert((qn + 1 - itheta) * (qn + 2 - itheta) == fs * (fs + 1));
            lemma_half((fs * (fs + 1)) as i32);
        }
        fl = ft - (((qn + 1 - itheta) * (qn + 2 - itheta)) >> 1);
    }
    ec.dec_update(fl as u32, (fl + fs) as u32, ft as u32);
    itheta
}

} // verus!

verus! {

/// A level of a grid of `qn` steps over the quarter turn is a split angle.
proof fn lemma_angle_grid(k: int, qn: int)
    requires
        2 <= qn <= 256,
        0 <= k <= qn,
    ensures
        split_angle_ok(k * 16384 / qn),
        0 <= k * 16384 <= 16384 * 256,
{
    if k == 0 {
    } else if k == qn {
        vstd::arithmetic::div_mod::lemma_div_multiples_vanish(16384, qn);
        assert(k * 16384 == 16384 * qn) by (nonlinear_arith)
            requires
                k == qn,
        ;
    } else {
        assert(64 * qn <= k * 16384 <= 16320 * qn) by (nonlinear_arith)
            requires
                1 <= k <= qn - 1,
                qn <= 256,
        ;
        vstd::arithmetic::div_mod::lemma_div_is_ordered(64 * qn, k * 16384, qn);
        vstd::arithmetic::div_mod::lemma_div_is_ordered(k * 16384, 16320 * qn, qn);
        vstd::arithmetic::div_mod::lemma_div_multiples_vanish(64, qn);
        vstd::arithmetic::div_mod::lemma_div_multiples_vanish(16320, qn);
        assert(64 * qn == qn * 64 && 16320 * qn == qn * 16320);
    }
    assert(0 <= k * 16384 <= 16384 * 256) by (nonlinear_arith)
        requires
            0 <= k <= qn <= 256,
    ;
}

/// Eighth-bit positions of a decoder stay far from the `i32` limits, and a
/// step of at most 48 bits moves them by less than 512.
proof fn lemma_qalloc_bounds(s0: DecState, s1: DecState)
    requires
        s0.wf(),
        s1.wf(),
        s0.nbits_total <= s1.nbits_total <= s0.nbits_total + 48,
    ensures
        0 <= s0.tell_frac() <= 0x7fff_ff40,
        0 <= s1.tell_frac() <= 0x7fff_ff40,
        -512 <= s1.tell_frac() - s0.tell_frac() <= 512,
{
    lemma_tell_range(CoderState::Dec(s0));
    lemma_tell_range(CoderState::Dec(s1));
    lemma_tell_frac_fraction(s0.nbits_total as int, s0.rng);
    lemma_tell_frac_fraction(s1.nbits_total as int, s1.rng);
    lemma2_to64();
    lemma_ilog_unique(0x80_0000, 24);
    lemma_ilog_unique(0x8000_0000, 32);
    lemma_ilog_monotone(0x80_0000, s0.rng as nat);
    lemma_ilog_monotone(0x80_0000, s1.rng as nat);
    lemma_ilog_monotone(s0.rng as nat, 0x8000_0000);
    lemma_ilog_monotone(s1.rng as nat, 0x8000_0000);
}

/// Decoder side of the split angle: reads the angle with the pdf the band
/// calls for (a step pdf for a stereo split of more than two samples, uniform
/// for a time split or a two-sample stereo split, triangular otherwise), or
/// the inversion flag of an intensity-coded stereo band, and derives the
/// split. `b` loses the eighth-bits the angle cost; `fill` keeps the blocks
/// the split leaves filled.
pub fn compute_theta_decode(
    ctx: &BandCtx,
    ec: &mut RangeDecoder,
    n: i32,
    big_b: i32,
    b0: i32,
    lm: i32,
    stereo: bool,
    b: &mut i32,
    fill: &mut i32,
) -> (res: SplitCtx)
    requires
        old(ec)@.wf(),
        old(ec)@.has_room(),
        theta_in_range(*ctx, n as int, *old(b) as int, lm as int, stereo),
        0 <= big_b <= 30,
        i32::MIN + 512 <= *old(b) <= i32::MAX - 512,
    ensures
        ({
            let (s1, itheta, inv) = theta_decode_spec(
                *ctx,
                old(ec)@,
                n as int,
                b0 as int,
                lm as int,
                stereo,
                *old(b) as int,
            );
            let qalloc = s1.tell_frac() - old(ec)@.tell_frac();
            &&& final(ec)@ == s1
            &&& split_angle_ok(itheta)
            &&& res == split_from_angle(itheta, n, inv, qalloc)
            &&& *final(b) == *old(b) - qalloc
            &&& *final(fill) == fill_after(itheta, big_b, *old(fill))
        }),
        final(ec)@.wf(),
        old(ec)@.nbits_total <= final(ec)@.nbits_total <= old(ec)@.nbits_total + 48,
{
    let qn = qn_and_offset(ctx, n, *b, lm, stereo);
    proof {
        lemma_tell_range(CoderState::Dec(ec@));
        assert((2i32 << 3u32) == 16) by (bit_vector);
    }
    let tell = ec.ec_tell_frac() as i32;
    let mut itheta: i32 = 0;
    let mut inv = false;
    if qn != 1 {
        if stereo && n > 2 {
            itheta = decode_step(ec, qn);
        } else if b0 > 1 || stereo {
            itheta = ec.dec_uint((qn + 1) as u32) as i32;
        } else {
            itheta = decode_triangular(ec, qn);
        }
        proof {
            lemma_angle_grid(itheta as int, qn as int);
        }
        itheta = itheta * 16384 / qn;
    } else if stereo {
        if *b > 2 << BITRES && ctx.remaining_bits > 2 << BITRES {
            inv = ec.dec_bit_logp(2);
        } else {
            inv = false;
        }
        if ctx.disable_inv {
            inv = false;
        }
        itheta = 0;
    }
    proof {
        lemma_qalloc_bounds(old(ec)@, ec@);
    }
    let qalloc = ec.ec_tell_frac() as i32 - tell;
    *b -= qalloc;
    finish_split(itheta, n, big_b, inv, qalloc, fill)
}

} // verus!

verus! {

/// The angle level an encoder picks for the raw angle `raw` (Q14) on a grid
/// of `qn` levels: rounded to the nearest level, or (with `theta_round`)
/// biased towards the ends and rounded down or up; a mono split with
/// `avoid_split_noise` moves an intermediate level to an end when its
/// allocation delta exceeds the budget `b` either way.
pub open spec fn theta_quantize(ctx: BandCtx, raw: int, qn: int, n: i32, b: int, stereo: bool) -> int {
    if !stereo || ctx.theta_round == 0 {
        let t = (raw * qn + 8192) / 16384;
        if !stereo && ctx.avoid_split_noise && 0 < t < qn {
            let delta = split_from_angle(t * 16384 / qn, n, false, 0).delta;
            if delta > b {
                qn
            } else if delta < -b {
                0
            } else {
                t
            }
        } else {
            t
        }
    } else {
        let bias: int = if raw > 8192 {
            32767int / qn
        } else {
            -(32767int / qn)
        };
        let q = (raw * qn + bias) / 16384;
        let down = if q < 0 {
            0
        } else if q > qn - 1 {
            qn - 1
        } else {
            q
        };
        if ctx.theta_round < 0 {
            down
        } else {
            down + 1
        }
    }
}

/// The cumulative frequency below level `i` of the triangular pdf over
/// `qn + 1` levels.
pub open spec fn theta_tri_low(i: int, qn: int) -> int {
    let h = qn / 2;
    if i <= h {
        i * (i + 1) / 2
    } else {
        (h + 1) * (h + 1) - (qn + 1 - i) * (qn + 2 - i) / 2
    }
}

/// The frequency of level `i` of the triangular pdf.
pub open spec fn theta_tri_size(i: int, qn: int) -> int {
    if i <= qn / 2 {
        i + 1
    } else {
        qn + 1 - i
    }
}

/// The encoder side of the angle: the state after writing it, the angle
/// (Q14 quarter turn) and the stereo inversion flag.
pub open spec fn theta_encode_spec(
    ctx: BandCtx,
    e: EncState,
    raw: int,
    n: i32,
    b0: int,
    lm: int,
    stereo: bool,
    b: int,
) -> (EncState, int, bool) {
    let qn = theta_qn(ctx, n as int, b, lm, stereo);
    if qn != 1 {
        let k = theta_quantize(ctx, raw, qn, n, b, stereo);
        let e1 = if stereo && n > 2 {
            let x0 = qn / 2;
            enc_encode_spec(e, theta_step_low(k, x0), theta_step_high(k, x0), 3 * (x0 + 1) + x0)
        } else if b0 > 1 || stereo {
            enc_uint_spec(e, k as u32, (qn + 1) as u32)
        } else {
            let fl = theta_tri_low(k, qn);
            enc_encode_spec(e, fl, fl + theta_tri_size(k, qn), (qn / 2 + 1) * (qn / 2 + 1))
        };
        (e1, k * 16384 / qn, false)
    } else if stereo {
        let inv = raw > 8192 && !ctx.disable_inv;
        if b > 16 && ctx.remaining_bits > 16 {
            (enc_bit_logp_spec(e, inv, 2), 0, inv)
        } else {
            (e, 0, false)
        }
    } else {
        (e, 0, false)
    }
}

/// Eighth-bit positions of an encoder stay far from the `i32` limits, and a
/// step of at most 48 bits moves them by less than 512.
proof fn lemma_enc_qalloc_bounds(s0: EncState, s1: EncState)
    requires
        s0.wf(),
        s1.wf(),
        s0.nbits_total <= s1.nbits_total <= s0.nbits_total + 48,
    ensures
        0 <= s0.tell_frac() <= 0x7fff_ff40,
        0 <= s1.tell_frac() <= 0x7fff_ff40,
        -512 <= s1.tell_frac() - s0.tell_frac() <= 512,
{
    lemma_tell_range(CoderState::Enc(s0));
    lemma_tell_range(CoderState::Enc(s1));
    lemma_tell_frac_fraction(s0.nbits_total as int, s0.rng);
    lemma_tell_frac_fraction(s1.nbits_total as int, s1.rng);
    lemma2_to64();
    lemma_ilog_unique(0x80_0000, 24);
    lemma_ilog_unique(0x8000_0000, 32);
    lemma_ilog_monotone(0x80_0000, s0.rng as nat);
    lemma_ilog_monotone(0x80_0000, s1.rng as nat);
    lemma_ilog_monotone(s0.rng as nat, 0x8000_0000);
    lemma_ilog_monotone(s1.rng as nat, 0x8000_0000);
}

/// Picks the angle level for the raw angle `itheta_raw`.
fn quantize_theta(ctx: &BandCtx, itheta_raw: i32, qn: i32, n: i32, b: i32, stereo: bool) -> (res: i32)
    requires
        0 <= itheta_raw <= 16384,
        i32::MIN < b,
        qn % 2 == 0,
        2 <= qn <= 256,
        1 <= n,
    ensures
        res == theta_quantize(*ctx, itheta_raw as int, qn as int, n, b as int, stereo),
        0 <= res <= qn,
{
    proof {
        assert(0 <= itheta_raw * qn <= 16384 * 256) by (nonlinear_arith)
            requires
                0 <= itheta_raw <= 16384,
                2 <= qn <= 256,
        ;
    }
    if !stereo || ctx.theta_round == 0 {
        proof {
            crate::bits::lemma_i32_shr_div((itheta_raw * qn + 8192) as i32, 14);
            lemma2_to64();
            assert((itheta_raw * qn + 8192) / 16384 <= qn) by (nonlinear_arith)
                requires
                    itheta_raw <= 16384,
                    2 <= qn,
            ;
        }
        let mut itheta = (itheta_raw * qn + 8192) >> 14;
        if !stereo && ctx.avoid_split_noise && itheta > 0 && itheta < qn {
            proof {
                lemma_angle_grid(itheta as int, qn as int);
            }
            let unquantized = itheta * 16384 / qn;
            let mut fill: i32 = 0;
            let split = finish_split(unquantized, n, 0, false, 0, &mut fill);
            let delta = split.delta;
            if delta > b {
                itheta = qn;
            } else if delta < -b {
                itheta = 0;
            }
        }
        itheta
    } else {
        let bias = if itheta_raw > 8192 {
            32767 / qn
        } else {
            -32767 / qn
        };
        proof {
            crate::bits::lemma_i32_shr_div((itheta_raw * qn + bias) as i32, 14);
            lemma2_to64();
        }
        let q = (itheta_raw * qn + bias) >> 14;
        let down = if q < 0 {
            0
        } else if q > qn - 1 {
            qn - 1
        } else {
            q
        };
        if ctx.theta_round < 0 {
            down
        } else {
            down + 1
        }
    }
}

/// Writes an angle level under the triangular pdf.
fn encode_triangular(ec: &mut RangeEncoder, itheta: i32, qn: i32)
    requires
        old(ec)@.wf(),
        old(ec)@.has_room(),
        qn % 2 == 0,
        2 <= qn <= 256,
        0 <= itheta <= qn,
    ensures
        final(ec)@ == enc_encode_spec(
            old(ec)@,
            theta_tri_low(itheta as int, qn as int),
            theta_tri_low(itheta as int, qn as int) + theta_tri_size(itheta as int, qn as int),
            (qn / 2 + 1) * (qn / 2 + 1),
        ),
        final(ec)@.wf(),
        old(ec)@.nbits_total <= final(ec)@.nbits_total <= old(ec)@.nbits_total + 24,
{
    proof {
        lemma_half(qn);
    }
    let h: i32 = qn >> 1;
    proof {
        assert(1 <= h <= 128);
        assert(4 <= (h + 1) * (h + 1) <= 16641) by (nonlinear_arith)
            requires
                1 <= h <= 128,
        ;
    }
    let ft: i32 = (h + 1) * (h + 1);
    let fs: i32;
    let fl: i32;
    if itheta <= h {
        fs = itheta + 1;
        proof {
            assert(0 <= itheta * (itheta + 1) <= 128 * 129) by (nonlinear_arith)
                requires
                    0 <= itheta <= h <= 128,
            ;
            lemma_half((itheta * (itheta + 1)) as i32);
            assert(itheta * (itheta + 1) / 2 + itheta + 1 <= (h + 1) * (h + 1)) by (nonlinear_arith)
                requires
                    0 <= itheta <= h,
            ;
        }
        fl = (itheta * (itheta + 1)) >> 1;
    } else {
        fs = qn + 1 - itheta;
        proof {
            assert(qn == 2 * h);
            assert(1 <= fs <= h);
            assert((qn + 1 - itheta) * (qn + 2 - itheta) == fs * (fs + 1));
            assert(2 <= fs * (fs + 1) <= h * (h + 1)) by (nonlinear_arith)
                requires
                    1 <= fs <= h,
            ;
            lemma_half((fs * (fs + 1)) as i32);
            assert(fs * (fs + 1) / 2 >= fs) by (nonlinear_arith)
                requires
                    1 <= fs,
            ;
            assert(h * (h + 1) / 2 < (h + 1) * (h + 1)) by (nonlinear_arith)
                requires
                    1 <= h,
            ;
        }
        fl = ft - (((qn + 1 - itheta) * (qn + 2 - itheta)) >> 1);
    }
    proof {
        lemma2_to64();
    }
    ec.encode(fl as u32, (fl + fs) as u32, ft as u32);
}

/// Encoder side of the split angle. `itheta_raw` is the band's angle (Q14
/// quarter turn) measured from its mid and side content. Picks the angle
/// level ([`theta_quantize`]) and writes it with the pdf the band calls for
/// (a step pdf for a stereo split of more than two samples, uniform for a
/// time split or a two-sample stereo split, triangular otherwise), or writes
/// the inversion flag of an intensity-coded stereo band, and derives the
/// split. `b` loses the eighth-bits the angle cost; `fill` keeps the blocks
/// the split leaves filled. The caller rotates or projects the band as the
/// angle says.
pub fn encode_theta(
    ctx: &BandCtx,
    enc: &mut RangeEncoder,
    itheta_raw: i32,
    n: i32,
    big_b: i32,
    b0: i32,
    lm: i32,
    stereo: bool,
    b: &mut i32,
    fill: &mut i32,
) -> (res: SplitCtx)
    requires
        old(enc)@.wf(),
        old(enc)@.has_room(),
        0 <= itheta_raw <= 16384,
        theta_in_range(*ctx, n as int, *old(b) as int, lm as int, stereo),
        0 <= big_b <= 30,
        i32::MIN + 512 <= *old(b) <= i32::MAX - 512,
    ensures
        ({
            let (s1, itheta, inv) = theta_encode_spec(
                *ctx,
                old(enc)@,
                itheta_raw as int,
                n,
                b0 as int,
                lm as int,
                stereo,
                *old(b) as int,
            );
            let qalloc = s1.tell_frac() - old(enc)@.tell_frac();
            &&& final(enc)@ == s1
            &&& split_angle_ok(itheta)
            &&& res == split_from_angle(itheta, n, inv, qalloc)
            &&& *final(b) == *old(b) - qalloc
            &&& *final(fill) == fill_after(itheta, big_b, *old(fill))
        }),
        final(enc)@.wf(),
        old(enc)@.nbits_total <= final(enc)@.nbits_total <= old(enc)@.nbits_total + 48,
{
    let qn = qn_and_offset(ctx, n, *b, lm, stereo);
    proof {
        lemma_tell_range(CoderState::Enc(enc@));
        lemma2_to64();
        crate::bits::lemma_i32_shl_mul(2, 3);
    }
    let tell = enc.ec_tell_frac() as i32;
    let mut itheta: i32 = 0;
    let mut inv = false;
    if qn != 1 {
        itheta = quantize_theta(ctx, itheta_raw, qn, n, *b, stereo);
        if stereo && n > 2 {
            let x0: i32 = qn / 2;
            let ft: i32 = 3 * (x0 + 1) + x0;
            let (fl, fh): (i32, i32) = if itheta <= x0 {
                (3 * itheta, 3 * (itheta + 1))
            } else {
                ((itheta - 1 - x0) + (x0 + 1) * 3, (itheta - x0) + (x0 + 1) * 3)
            };
            proof {
                lemma2_to64();
            }
            enc.encode(fl as u32, fh as u32, ft as u32);
        } else if b0 > 1 || stereo {
            enc.enc_uint(itheta as u32, (qn + 1) as u32);
        } else {
            encode_triangular(enc, itheta, qn);
        }
        proof {
            lemma_angle_grid(itheta as int, qn as int);
        }
        itheta = itheta * 16384 / qn;
    } else if stereo {
        inv = itheta_raw > 8192 && !ctx.disable_inv;
        if *b > 2 << BITRES && ctx.remaining_bits > 2 << BITRES {
            enc.enc_bit_logp(inv, 2);
        } else {
            inv = false;
        }
        if ctx.disable_inv {
            inv = false;
        }
        itheta = 0;
    }
    proof {
        lemma_enc_qalloc_bounds(old(enc)@, enc@);
    }
    let qalloc = enc.ec_tell_frac() as i32 - tell;
    *b -= qalloc;
    finish_split(itheta, n, big_b, inv, qalloc, fill)
}

/// `k (k + 1)` is even, so halving it loses nothing.
proof fn lemma_triangle_even(k: int)
    ensures
        2 * (k * (k + 1) / 2) == k * (k + 1),
{
    vstd::arithmetic::div_mod::lemma_fundamental_div_mod(k, 2);
    let a = k / 2;
    let r = k % 2;
    vstd::arithmetic::div_mod::lemma_mod_bound(k, 2);
    let m = if r == 0 {
        a * (2 * a + 1)
    } else {
        (2 * a + 1) * (a + 1)
    };
    assert(k * (k + 1) == 2 * m) by (nonlinear_arith)
        requires
            k == 2 * a + r,
            r == 0 || r == 1,
            m == if r == 0 {
                a * (2 * a + 1)
            } else {
                (2 * a + 1) * (a + 1)
            },
    ;
    vstd::arithmetic::div_mod::lemma_fundamental_div_mod_converse(k * (k + 1), 2, m, 0);
}

/// A value between two consecutive odd squares has one of the two roots
/// between them: `(2j - 1)^2 <= x < (2j + 1)^2` gives `floor_sqrt(x)` in
/// `{2j - 1, 2j}`.
proof fn lemma_sqrt_between_odd_squares(x: int, j: int)
    requires
        j >= 1,
        (2 * j - 1) * (2 * j - 1) <= x < (2 * j + 1) * (2 * j + 1),
    ensures
        floor_sqrt(x) == 2 * j - 1 || floor_sqrt(x) == 2 * j,
{
    if x < (2 * j) * (2 * j) {
        lemma_isqrt_is_floor_sqrt(x, 2 * j - 1);
    } else {
        lemma_isqrt_is_floor_sqrt(x, 2 * j);
    }
}

/// The stereo angle's step pdf is shared by both sides: a frequency read
/// inside level `k`'s interval gives back `k`, and the decoder consumes
/// exactly the interval the encoder coded for it.
pub proof fn lemma_step_pdf_inverts(s: DecState, qn: int, k: int)
    requires
        qn >= 2,
        qn % 2 == 0,
        0 <= k <= qn,
        theta_step_low(k, qn / 2) <= dec_decode_spec(s, 3 * (qn / 2 + 1) + qn / 2).1 < theta_step_high(k, qn / 2),
    ensures
        ({
            let x0 = qn / 2;
            let ft = 3 * (x0 + 1) + x0;
            theta_step_dec(s, qn) == (
                dec_update_spec(dec_decode_spec(s, ft).0, theta_step_low(k, x0), theta_step_high(k, x0), ft),
                k,
            )
        }),
{
    let x0 = qn / 2;
    let ft = 3 * (x0 + 1) + x0;
    let fs = dec_decode_spec(s, ft).1;
    assert(theta_step_symbol(fs, x0) == k);
}

/// The angle's triangular pdf is shared by both sides: a frequency read
/// inside level `k`'s interval gives back `k` through the square-root
/// inversion, and the decoder consumes exactly the interval the encoder coded
/// for it.
pub proof fn lemma_tri_pdf_inverts(s: DecState, qn: int, k: int)
    requires
        qn >= 2,
        qn % 2 == 0,
        0 <= k <= qn,
        theta_tri_low(k, qn) <= dec_decode_spec(s, (qn / 2 + 1) * (qn / 2 + 1)).1 < theta_tri_low(k, qn)
            + theta_tri_size(k, qn),
    ensures
        ({
            let ft = (qn / 2 + 1) * (qn / 2 + 1);
            theta_tri_dec(s, qn) == (
                dec_update_spec(
                    dec_decode_spec(s, ft).0,
                    theta_tri_low(k, qn),
                    theta_tri_low(k, qn) + theta_tri_size(k, qn),
                    ft,
                ),
                k,
            )
        }),
{
    let h = qn / 2;
    let ft = (h + 1) * (h + 1);
    let fm = dec_decode_spec(s, ft).1;
    assert(qn == 2 * h);
    lemma_triangle_even(k);
    lemma_triangle_even(k + 1);
    lemma_triangle_even(h);
    lemma_triangle_even(h + 1);
    let j = qn + 1 - k;
    lemma_triangle_even(j);
    lemma_triangle_even(j - 1);
    assert((k + 1) * (k + 2) == (k + 1) * ((k + 1) + 1));
    assert(j * (j - 1) == (j - 1) * ((j - 1) + 1)) by (nonlinear_arith);
    assert((qn + 1 - k) * (qn + 2 - k) == j * (j + 1));
    if k <= h {
        // Level k covers [k(k+1)/2, (k+1)(k+2)/2).
        assert(theta_tri_low(k, qn) == k * (k + 1) / 2);
        assert(theta_tri_size(k, qn) == k + 1);
        assert(k * (k + 1) / 2 + k + 1 == (k + 1) * (k + 2) / 2) by (nonlinear_arith)
            requires
                2 * (k * (k + 1) / 2) == k * (k + 1),
                2 * ((k + 1) * (k + 2) / 2) == (k + 1) * (k + 2),
        ;
        if k < h {
            assert((k + 1) * (k + 2) <= h * (h + 1)) by (nonlinear_arith)
                requires
                    0 <= k,
                    k + 1 <= h,
            ;
            assert(fm < h * (h + 1) / 2);
            assert((2 * k + 1) * (2 * k + 1) <= 8 * fm + 1 < (2 * k + 3) * (2 * k + 3)) by (nonlinear_arith)
                requires
                    2 * (k * (k + 1) / 2) == k * (k + 1),
                    2 * ((k + 1) * (k + 2) / 2) == (k + 1) * (k + 2),
                    k * (k + 1) / 2 <= fm < (k + 1) * (k + 2) / 2,
            ;
            lemma_sqrt_between_odd_squares(8 * fm + 1, k + 1);
        } else {
            assert(k == h);
            assert(fm >= h * (h + 1) / 2);
            assert(j == h + 1);
            // Level h seen from the top: ft - (h+1)(h+2)/2 == h(h+1)/2.
            assert(ft - j * (j + 1) / 2 == h * (h + 1) / 2) by (nonlinear_arith)
                requires
                    ft == (h + 1) * (h + 1),
                    j == h + 1,
                    2 * (j * (j + 1) / 2) == j * (j + 1),
                    2 * (h * (h + 1) / 2) == h * (h + 1),
            ;
            let y = ft - fm - 1;
            assert((2 * j - 1) * (2 * j - 1) <= 8 * y + 1 < (2 * j + 1) * (2 * j + 1)) by (nonlinear_arith)
                requires
                    y == ft - fm - 1,
                    ft - j * (j + 1) / 2 <= fm < ft - j * (j + 1) / 2 + j,
                    2 * (j * (j + 1) / 2) == j * (j + 1),
                    j >= 1,
            ;
            lemma_sqrt_between_odd_squares(8 * y + 1, j);
            assert(ft - (qn + 1 - k) * (qn + 2 - k) / 2 == theta_tri_low(k, qn));
        }
    } else {
        // Level k > h covers [ft - j(j+1)/2, ft - j(j+1)/2 + j) with j = qn + 1 - k <= h.
        assert(1 <= j <= h);
        assert(theta_tri_low(k, qn) == ft - j * (j + 1) / 2);
        assert(theta_tri_size(k, qn) == j);
        assert(ft - j * (j + 1) / 2 >= h * (h + 1) / 2) by (nonlinear_arith)
            requires
                ft == (h + 1) * (h + 1),
                1 <= j <= h,
                2 * (j * (j + 1) / 2) == j * (j + 1),
                2 * (h * (h + 1) / 2) == h * (h + 1),
        ;
        let y = ft - fm - 1;
        assert((2 * j - 1) * (2 * j - 1) <= 8 * y + 1 < (2 * j + 1) * (2 * j + 1)) by (nonlinear_arith)
            requires
                y == ft - fm - 1,
                ft - j * (j + 1) / 2 <= fm < ft - j * (j + 1) / 2 + j,
                2 * (j * (j + 1) / 2) == j * (j + 1),
                j >= 1,
        ;
        lemma_sqrt_between_odd_squares(8 * y + 1, j);
    }
}

} // verus!
