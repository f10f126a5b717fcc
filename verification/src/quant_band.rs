//! The coder a band-quantization pass runs against: the encoder writes the
//! decisions it makes, the decoder reads them back.
use crate::bits::{lemma_i32_shl_mul, lemma_i32_shr_div};
use crate::range_coder::{
    dec_bit_logp_spec, dec_uint_spec, enc_bit_logp_spec, enc_uint_spec, DecState, EncState,
    RangeDecoder, RangeEncoder, EC_NBITS_LIMIT,
};
use crate::rate::{
    bisect_pulses, bits2pulses, bits2pulses_spec, cache_readable, min_int, pulses2bits,
    pulses2bits_spec, slot_of, PulseCache,
};
use crate::band_split::{
    compute_theta_decode, fill_after, split_from_angle, theta_decode_spec, theta_in_range, BandCtx,
};
use crate::bands::{celt_lcg_rand, lcg_step};
use crate::range_coder::dec_bits_spec;
use crate::range_coder::{lemma_ilog_monotone, lemma_ilog_unique, lemma_tell_frac_fraction};
use crate::theta::{bitexact_log2tan_spec, trunc16};
use crate::cwrs::{decode_pulses, icwrs_spec, l1_from, lemma_cwrs_round_trip, pvq_v};
use crate::rate::{cache_slice, get_pulses, pulses_of};
use crate::theta::div_trunc;
use crate::band_tf::{tf_plan, tf_plan_spec, tf_unplan, tf_unplan_spec};
use crate::vq::{collapse_mask_spec, extract_collapse_mask};
use vstd::arithmetic::power2::*;
use vstd::prelude::*;

verus! {

/// Either side of the range coder, borrowed for one pass.
pub enum Coder<'a, 'b> {
    Enc(&'a mut RangeEncoder),
    Dec(&'a mut RangeDecoder<'b>),
}

/// The state of the side a coder runs.
pub enum CoderState {
    Enc(EncState),
    Dec(DecState),
}

impl CoderState {
    /// The side's own invariant.
    pub open spec fn wf(self) -> bool {
        match self {
            CoderState::Enc(e) => e.wf(),
            CoderState::Dec(d) => d.wf(),
        }
    }

    /// Bits the side has coded so far (the range coder's bit counter).
    pub open spec fn nbits_total(self) -> int {
        match self {
            CoderState::Enc(e) => e.nbits_total as int,
            CoderState::Dec(d) => d.nbits_total as int,
        }
    }

    /// Room for `n` more coding calls below the bit-counter limit.
    pub open spec fn room_for(self, n: int) -> bool {
        self.nbits_total() + 64 * n <= EC_NBITS_LIMIT
    }

    /// Fractional bits used so far (eighth-bits).
    pub open spec fn tell_frac(self) -> int {
        match self {
            CoderState::Enc(e) => e.tell_frac(),
            CoderState::Dec(d) => d.tell_frac(),
        }
    }
}

/// The state behind a coder.
pub open spec fn coder_state(c: Coder) -> CoderState {
    match c {
        Coder::Enc(e) => CoderState::Enc(e@),
        Coder::Dec(d) => CoderState::Dec(d@),
    }
}

/// Coding one binary decision with probability `1/2^logp` of a one: the
/// encoder writes `want`, the decoder reads a bit; yields the new state and
/// the decision on that side.
pub open spec fn code_bit_spec(s: CoderState, want: bool, logp: nat) -> (CoderState, bool) {
    match s {
        CoderState::Enc(e) => (CoderState::Enc(enc_bit_logp_spec(e, want, logp)), want),
        CoderState::Dec(d) => {
            let (d2, b) = dec_bit_logp_spec(d, logp);
            (CoderState::Dec(d2), b)
        },
    }
}

/// Coding a uniform integer in `[0, ft)`: the encoder writes `want`, the
/// decoder reads a value; yields the new state and the value on that side.
pub open spec fn code_uint_spec(s: CoderState, want: u32, ft: u32) -> (CoderState, u32) {
    match s {
        CoderState::Enc(e) => (CoderState::Enc(enc_uint_spec(e, want, ft)), want),
        CoderState::Dec(d) => {
            let (d2, v) = dec_uint_spec(d, ft);
            (CoderState::Dec(d2), v)
        },
    }
}

impl<'a, 'b> Coder<'a, 'b> {
    /// Whether this pass encodes.
    pub fn is_encode(&self) -> (res: bool)
        ensures
            res == (*self is Enc),
    {
        match self {
            Coder::Enc(_) => true,
            Coder::Dec(_) => false,
        }
    }
}

/// Codes one binary decision with probability `1/2^logp` of a one.
pub fn code_bit_logp(coder: &mut Coder, want: bool, logp: u32) -> (res: bool)
    requires
        coder_state(*old(coder)).wf(),
        coder_state(*old(coder)).room_for(1),
        1 <= logp <= 23,
    ensures
        match (*old(coder), *final(coder)) {
            (Coder::Enc(x), Coder::Enc(y)) => *final(x) == *final(y),
            (Coder::Dec(x), Coder::Dec(y)) => *final(x) == *final(y),
            _ => false,
        },
        (coder_state(*final(coder)), res) == code_bit_spec(coder_state(*old(coder)), want, logp as nat),
        coder_state(*final(coder)).wf(),
        coder_state(*final(coder)).nbits_total() <= coder_state(*old(coder)).nbits_total() + 64,
{
    match coder {
        Coder::Enc(ec) => {
            ec.enc_bit_logp(want, logp);
            want
        },
        Coder::Dec(dec) => dec.dec_bit_logp(logp),
    }
}

/// Codes a uniform integer in `[0, ft)`.
pub fn code_uint(coder: &mut Coder, want: u32, ft: u32) -> (res: u32)
    requires
        coder_state(*old(coder)).wf(),
        coder_state(*old(coder)).room_for(1),
        1 < ft,
        want < ft,
    ensures
        match (*old(coder), *final(coder)) {
            (Coder::Enc(x), Coder::Enc(y)) => *final(x) == *final(y),
            (Coder::Dec(x), Coder::Dec(y)) => *final(x) == *final(y),
            _ => false,
        },
        (coder_state(*final(coder)), res) == code_uint_spec(coder_state(*old(coder)), want, ft),
        res < ft,
        coder_state(*final(coder)).wf(),
        coder_state(*final(coder)).nbits_total() <= coder_state(*old(coder)).nbits_total() + 64,
{
    match coder {
        Coder::Enc(ec) => {
            ec.enc_uint(want, ft);
            want
        },
        Coder::Dec(dec) => dec.dec_uint(ft),
    }
}

/// Floor division by a positive divisor keeps the sign and shrinks the size.
proof fn lemma_floor_div_between(x: int, p: int)
    requires
        p >= 1,
    ensures
        x >= 0 ==> 0 <= x / p <= x,
        x < 0 ==> x <= x / p < 0,
{
    vstd::arithmetic::div_mod::lemma_fundamental_div_mod(x, p);
    vstd::arithmetic::div_mod::lemma_mod_bound(x, p);
    let q = x / p;
    let r = x % p;
    assert(x >= 0 ==> 0 <= q <= x) by (nonlinear_arith)
        requires
            x == p * q + r,
            0 <= r < p,
            p >= 1,
    ;
    assert(x < 0 ==> x <= q < 0) by (nonlinear_arith)
        requires
            x == p * q + r,
            0 <= r < p,
            p >= 1,
    ;
}

/// The angle's bit offset `delta` after the bias towards low-energy halves:
/// above the diagonal (`itheta > 8192`) it shrinks by `2^-(4 - lm)` (pre-echo
/// masking); below it the first half gains a forward-masking slope of
/// `8 n / 2^(5 - lm)`, capped at no offset at all. Bands of one block, and
/// angles that put everything in one half, keep `delta` as it is.
pub open spec fn biased_delta(delta: int, itheta: int, b0: int, n: int, lm: int) -> int {
    if b0 > 1 && itheta != 0 && itheta != 16384 {
        if itheta > 8192 {
            delta - delta / (pow2((4 - lm) as nat) as int)
        } else {
            min_int(0, delta + (n * 8) / (pow2((5 - lm) as nat) as int))
        }
    } else {
        delta
    }
}

/// How a split band's budget `b` is shared: the first (mid) half gets half of
/// `b` less the biased offset, truncated and kept within `0..=b`; the second
/// (side) half gets the rest.
pub open spec fn split_budget_spec(b: int, delta: int, itheta: int, b0: int, n: int, lm: int) -> (int, int) {
    let d = biased_delta(delta, itheta, b0, n, lm);
    let h = div_trunc(b - d, 2);
    let mbits = if b <= h {
        if b >= 0 { b } else { 0 }
    } else {
        if h >= 0 { h } else { 0 }
    };
    (mbits, b - mbits)
}

/// Shares the budget `b` of a band split in two halves of `n` coefficients,
/// given the coded angle `itheta`, its bit offset `delta`, the band's block
/// count `b0` and the halves' time split `lm`. Returns `(mbits, sbits)`.
pub fn split_bit_budget(b: i32, delta: i32, itheta: i32, b0: i32, n: i32, lm: i32) -> (res: (i32, i32))
    requires
        -0x100_0000 <= b <= 0x100_0000,
        -0x100_0000 <= delta <= 0x100_0000,
        0 <= itheta <= 16384,
        1 <= n <= 0x10_0000,
        -1 <= lm <= 3,
    ensures
        (res.0 as int, res.1 as int) == split_budget_spec(b as int, delta as int, itheta as int, b0 as int, n as int, lm as int),
        res.0 + res.1 == b,
        b >= 0 ==> 0 <= res.0 <= b && 0 <= res.1 <= b,
        b < 0 ==> res.0 == 0,
{
    let ghost d0 = delta as int;
    let mut delta = delta;
    if b0 > 1 && itheta != 0 && itheta != 16384 {
        if itheta > 8192 {
            proof {
                lemma_i32_shr_div(delta, (4 - lm) as u32);
                lemma_pow2_pos((4 - lm) as nat);
                lemma_floor_div_between(delta as int, pow2((4 - lm) as nat) as int);
            }
            delta -= delta >> ((4 - lm) as u32);
        } else {
            proof {
                lemma2_to64();
                if lm > -1 {
                    lemma_pow2_strictly_increases((5 - lm) as nat, 6);
                }
                lemma_i32_shl_mul(n, 3);
                lemma_i32_shr_div(n << 3u32, (5 - lm) as u32);
                lemma_pow2_pos((5 - lm) as nat);
                lemma_floor_div_between(n as int * 8, pow2((5 - lm) as nat) as int);
            }
            let t = delta + ((n << 3u32) >> ((5 - lm) as u32));
            delta = if t < 0 {
                t
            } else {
                0
            };
        }
    }
    assert(delta == biased_delta(d0, itheta as int, b0 as int, n as int, lm as int));
    let h = (b - delta) / 2;
    let mbits = if b <= h {
        if b >= 0 { b } else { 0 }
    } else {
        if h >= 0 { h } else { 0 }
    };
    (mbits, b - mbits)
}

/// The bits the half coded first has left of its budget, beyond three bits of
/// slack, go to the other half, unless the angle gave that half nothing
/// (`may_pass` is false).
pub open spec fn pass_on_spec(first_budget: int, used: int, second_budget: int, may_pass: bool) -> int {
    let unused = first_budget - used;
    if unused > 24 && may_pass {
        second_budget + unused - 24
    } else {
        second_budget
    }
}

/// The second half's budget after the first half has used `used` of its
/// `first_budget` bits (the rebalancing of a split band).
pub fn pass_on_unused_bits(first_budget: i32, used: i32, second_budget: i32, may_pass: bool) -> (res: i32)
    requires
        -0x1000_0000 <= first_budget <= 0x1000_0000,
        -0x1000_0000 <= used <= 0x1000_0000,
        -0x1000_0000 <= second_budget <= 0x1000_0000,
    ensures
        res == pass_on_spec(first_budget as int, used as int, second_budget as int, may_pass),
        res >= second_budget,
        res <= second_budget + if first_budget - used > 24 { first_budget - used - 24 } else { 0 },
{
    let rebalance = first_budget - used;
    let slack: i32 = 3 * 8;
    if rebalance > slack && may_pass {
        second_budget + rebalance - slack
    } else {
        second_budget
    }
}

/// The cost of `q` pulses for band `band` at time split `lm`.
pub open spec fn cost_of(cache: &PulseCache, nb: int, band: int, lm: int, q: int) -> int {
    pulses2bits_spec(cache.index@, cache.bits@, nb, band, lm, q)
}

/// Dropping one pulse at a time while the budget is overdrawn: from `q`
/// pulses with `rem` bits left once they are paid for, the pulse count and
/// the bits left where it stops.
pub open spec fn drop_pulses(cache: &PulseCache, nb: int, band: int, lm: int, q: int, rem: int) -> (int, int)
    decreases q,
{
    if rem < 0 && q > 0 {
        drop_pulses(cache, nb, band, lm, q - 1, rem + cost_of(cache, nb, band, lm, q) - cost_of(cache, nb, band, lm, q - 1))
    } else {
        (q, rem)
    }
}

/// What the loop keeps: the bits left are what was there less the cost of the
/// current count, and the result is that of the remaining drops.
proof fn lemma_drop_pulses_result(cache: &PulseCache, nb: int, band: int, lm: int, q: int, rem: int, r0: int)
    requires
        q >= 0,
        rem == r0 - cost_of(cache, nb, band, lm, q),
    ensures
        ({
            let (q2, rem2) = drop_pulses(cache, nb, band, lm, q, rem);
            &&& 0 <= q2 <= q
            &&& rem2 == r0 - cost_of(cache, nb, band, lm, q2)
            &&& rem2 >= 0 || q2 == 0
        }),
    decreases q,
{
    if rem < 0 && q > 0 {
        lemma_drop_pulses_result(
            cache,
            nb,
            band,
            lm,
            q - 1,
            rem + cost_of(cache, nb, band, lm, q) - cost_of(cache, nb, band, lm, q - 1),
            r0,
        );
    }
}

/// Six halvings of `lo..=hi` stay inside it.
proof fn lemma_bisect_within(c: Seq<u8>, off: int, lo: int, hi: int, bits: int, steps: int)
    requires
        lo <= hi,
    ensures
        lo <= bisect_pulses(c, off, lo, hi, bits, steps).0 <= bisect_pulses(c, off, lo, hi, bits, steps).1 <= hi,
    decreases steps,
{
    if steps > 0 {
        let mid = (lo + hi + 1) / 2;
        if c[off + mid] >= bits {
            lemma_bisect_within(c, off, lo, mid, bits, steps - 1);
        } else {
            lemma_bisect_within(c, off, mid, hi, bits, steps - 1);
        }
    }
}

/// The pulse count for a budget of `bits` lies between none and the slot's
/// last cached count.
proof fn lemma_bits2pulses_within(cache: &PulseCache, nb: int, band: int, lm: int, bits: int)
    requires
        cache_readable(cache, nb, band, lm),
    ensures
        0 <= bits2pulses_spec(cache.index@, cache.bits@, nb, band, lm, bits),
        slot_of(cache.index@, nb, band, lm) >= 0 ==> bits2pulses_spec(cache.index@, cache.bits@, nb, band, lm, bits)
            <= cache.bits@[slot_of(cache.index@, nb, band, lm)],
        slot_of(cache.index@, nb, band, lm) < 0 ==> bits2pulses_spec(cache.index@, cache.bits@, nb, band, lm, bits) == 0,
{
    let off = slot_of(cache.index@, nb, band, lm);
    if off >= 0 {
        lemma_bisect_within(cache.bits@, off, 0, cache.bits@[off] as int, bits - 1, 6);
    }
}

/// The pulse count of an unsplit band with budget `b`: the count the budget
/// buys, less one pulse at a time while its cost overdraws the bits
/// `remaining` in the pass, which pay for the pulses kept.
pub fn fit_pulses(cache: &PulseCache, nb_e_bands: usize, band: usize, lm: i32, b: i32, remaining: &mut i32) -> (q: i32)
    requires
        cache_readable(cache, nb_e_bands as int, band as int, lm as int),
        i32::MIN + 256 < b,
        -0x4000_0000 <= *old(remaining) <= 0x4000_0000,
    ensures
        ({
            let q0 = bits2pulses_spec(cache.index@, cache.bits@, nb_e_bands as int, band as int, lm as int, b as int);
            (q as int, *final(remaining) as int) == drop_pulses(
                cache,
                nb_e_bands as int,
                band as int,
                lm as int,
                q0,
                *old(remaining) - cost_of(cache, nb_e_bands as int, band as int, lm as int, q0),
            )
        }),
        0 <= q <= bits2pulses_spec(cache.index@, cache.bits@, nb_e_bands as int, band as int, lm as int, b as int),
        *final(remaining) == *old(remaining) - cost_of(cache, nb_e_bands as int, band as int, lm as int, q as int),
        *final(remaining) >= 0 || q == 0,
{
    let ghost nb = nb_e_bands as int;
    let ghost r0 = *remaining as int;
    let mut q = bits2pulses(cache, nb_e_bands, band, lm, b);
    let ghost q0 = q as int;
    proof {
        lemma_bits2pulses_within(cache, nb, band as int, lm as int, b as int);
    }
    let mut curr_bits = pulses2bits(cache, nb_e_bands, band, lm, q);
    assert(0 <= curr_bits <= 256);
    *remaining = *remaining - curr_bits;
    proof {
        lemma_drop_pulses_result(cache, nb, band as int, lm as int, q0, *remaining as int, r0);
    }
    while *remaining < 0 && q > 0
        invariant
            cache_readable(cache, nb_e_bands as int, band as int, lm as int),
            nb == nb_e_bands,
            -0x4000_0000 <= r0 <= 0x4000_0000,
            0 <= q <= q0,
            slot_of(cache.index@, nb, band as int, lm as int) >= 0 ==> q0 <= cache.bits@[slot_of(cache.index@, nb, band as int, lm as int)],
            slot_of(cache.index@, nb, band as int, lm as int) < 0 ==> q0 == 0,
            curr_bits == cost_of(cache, nb, band as int, lm as int, q as int),
            *remaining == r0 - curr_bits,
            drop_pulses(cache, nb, band as int, lm as int, q as int, *remaining as int) == drop_pulses(
                cache,
                nb,
                band as int,
                lm as int,
                q0,
                r0 - cost_of(cache, nb, band as int, lm as int, q0),
            ),
        decreases q,
    {
        assert(0 <= curr_bits <= 256);
        *remaining = *remaining + curr_bits;
        q -= 1;
        curr_bits = pulses2bits(cache, nb_e_bands, band, lm, q);
        assert(0 <= curr_bits <= 256);
        *remaining = *remaining - curr_bits;
    }
    proof {
        lemma_drop_pulses_result(cache, nb, band as int, lm as int, q as int, *remaining as int, r0);
    }
    q
}

} // verus!

verus! {

/// `n` steps of the noise generator from `seed`.
pub open spec fn lcg_n(seed: u32, n: nat) -> u32
    decreases n,
{
    if n == 0 {
        seed
    } else {
        lcg_step(lcg_n(seed, (n - 1) as nat))
    }
}

/// What decoding an unsplit partition leaves: the decoder, the bits left in
/// the pass, the noise seed, the pulse vector (the first `n` entries of `y`)
/// and the mask of the blocks that are not empty.
pub struct LeafDecoded {
    pub dec: DecState,
    pub remaining: int,
    pub seed: u32,
    pub y: Seq<i32>,
    pub cm: u32,
}

/// The decoder's side of an unsplit partition of `n` coefficients in `big_b`
/// blocks with budget `b`: the pulse count the budget buys (less while it
/// overdraws `remaining`); with pulses, the pulse vector read as a CWRS index
/// and the blocks it puts pulses in; without, the band is left to folding or
/// noise: none of it where no block is to be filled (`fill` masked to the
/// blocks), else noise from the generator (`n` steps) over all blocks without
/// a folding source, or the folded blocks `fill` with one.
pub open spec fn leaf_dec_spec(
    cache: &PulseCache,
    nb: int,
    band: int,
    lm: int,
    b: int,
    n: int,
    big_b: int,
    fill: int,
    has_lowband: bool,
    remaining: int,
    seed: u32,
    d: DecState,
    y: Seq<i32>,
) -> LeafDecoded {
    let q0 = bits2pulses_spec(cache.index@, cache.bits@, nb, band, lm, b);
    let (q, rem) = drop_pulses(cache, nb, band, lm, q0, remaining - cost_of(cache, nb, band, lm, q0));
    if q != 0 {
        let k = pulses_of(q);
        let (d2, index) = dec_uint_spec(d, pvq_v(n as nat, k as nat) as u32);
        let y2 = choose|y2: Seq<i32>|
            y2.len() == y.len() && l1_from(y2, 0, n) == k && icwrs_spec(y2, 0, n) == index && forall|j: int|
                n <= j < y.len() ==> y2[j] == y[j];
        LeafDecoded {
            dec: d2,
            remaining: rem,
            seed,
            y: y2,
            cm: if big_b <= 1 {
                1
            } else {
                collapse_mask_spec(y2, n / big_b, big_b as nat) as u32
            },
        }
    } else {
        let mask = ((1u32 << (big_b as u32)) - 1) as u32;
        let f = (fill as u32) & mask;
        if f == 0 {
            LeafDecoded { dec: d, remaining: rem, seed, y, cm: 0 }
        } else if !has_lowband {
            LeafDecoded { dec: d, remaining: rem, seed: lcg_n(seed, n as nat), y, cm: mask }
        } else {
            LeafDecoded { dec: d, remaining: rem, seed: lcg_n(seed, n as nat), y, cm: f }
        }
    }
}

/// Decodes an unsplit partition (see [`leaf_dec_spec`]); the pulse vector
/// lands in `y[0..n]`.
pub fn decode_partition_leaf(
    cache: &PulseCache,
    nb_e_bands: usize,
    band: usize,
    lm: i32,
    b: i32,
    n: usize,
    big_b: u32,
    fill: i32,
    has_lowband: bool,
    remaining: &mut i32,
    seed: &mut u32,
    dec: &mut RangeDecoder,
    y: &mut [i32],
) -> (cm: u32)
    requires
        cache_readable(cache, nb_e_bands as int, band as int, lm as int),
        i32::MIN + 256 < b,
        -0x4000_0000 <= *old(remaining) <= 0x4000_0000,
        2 <= n <= old(y)@.len(),
        n < 0x1_0000,
        1 <= big_b <= 30,
        old(dec)@.wf(),
        old(dec)@.has_room(),
        leaf_pulses_ok(cache, nb_e_bands as int, band as int, lm as int, n as int, b as int),
    ensures
        ({
            let r = leaf_dec_spec(
                cache,
                nb_e_bands as int,
                band as int,
                lm as int,
                b as int,
                n as int,
                big_b as int,
                fill as int,
                has_lowband,
                *old(remaining) as int,
                *old(seed),
                old(dec)@,
                old(y)@,
            );
            &&& final(dec)@ == r.dec
            &&& *final(remaining) == r.remaining
            &&& *final(seed) == r.seed
            &&& final(y)@ == r.y
            &&& cm == r.cm
        }),
        final(dec)@.wf(),
{
    let q = fit_pulses(cache, nb_e_bands, band, lm, b, remaining);
    if q != 0 {
        proof {
            let qq = q as int;
            assert(1 <= pulses_of(qq));
        }
        let k = get_pulses(q);
        let ghost y0 = y@;
        decode_pulses(y, n, k as u32, dec);
        proof {
            let index = dec_uint_spec(old(dec)@, pvq_v(n as nat, k as nat) as u32).1;
            let y2 = y@;
            assert(y2.len() == y0.len() && l1_from(y2, 0, n as int) == k && icwrs_spec(y2, 0, n as int) == index
                && forall|j: int| n <= j < y0.len() ==> y2[j] == y0[j]);
            lemma_leaf_vector_unique(y2, y0, n as int, k as int, index);
        }
        if big_b <= 1 {
            1
        } else {
            extract_collapse_mask(y, n, big_b as usize)
        }
    } else {
        proof {
            lemma_pow2_pos(big_b as nat);
            lemma2_to64();
            lemma_pow2_strictly_increases(big_b as nat, 32);
            vstd::bits::lemma_u32_shl_is_mul(1, big_b);
        }
        let mask: u32 = (1u32 << big_b) - 1;
        let f = (fill as u32) & mask;
        if f == 0 {
            0
        } else {
            let mut j: usize = 0;
            while j < n
                invariant
                    j <= n,
                    *seed == lcg_n(*old(seed), j as nat),
                decreases n - j,
            {
                *seed = celt_lcg_rand(*seed);
                j = j + 1;
            }
            if !has_lowband {
                mask
            } else {
                f
            }
        }
    }
}

/// The pulse vector a CWRS index names is the one `choose` picks.
proof fn lemma_leaf_vector_unique(y2: Seq<i32>, y0: Seq<i32>, n: int, k: int, index: u32)
    requires
        2 <= n <= y0.len(),
        y2.len() == y0.len(),
        l1_from(y2, 0, n) == k,
        icwrs_spec(y2, 0, n) == index,
        forall|j: int| n <= j < y0.len() ==> y2[j] == y0[j],
    ensures
        y2 == (choose|y3: Seq<i32>|
            y3.len() == y0.len() && l1_from(y3, 0, n) == k && icwrs_spec(y3, 0, n) == index && forall|j: int|
                n <= j < y0.len() ==> y3[j] == y0[j]),
{
    let y3 = choose|y3: Seq<i32>|
        y3.len() == y0.len() && l1_from(y3, 0, n) == k && icwrs_spec(y3, 0, n) == index && forall|j: int|
            n <= j < y0.len() ==> y3[j] == y0[j];
    lemma_cwrs_round_trip(y2, y3, n);
    assert(y3.subrange(0, n) == y2.subrange(0, n));
    assert forall|j: int| 0 <= j < y0.len() implies y3[j] == y2[j] by {
        if j < n {
            assert(y3.subrange(0, n)[j] == y2.subrange(0, n)[j]);
        }
    }
    assert(y3 =~= y2);
}

} // verus!

verus! {

/// A decoder's eighth-bit position lies within 33 bits below its bit count.
proof fn lemma_tell_frac_near(d: DecState)
    requires
        d.wf(),
    ensures
        8 * d.nbits_total - 263 <= d.tell_frac() <= 8 * d.nbits_total - 192,
{
    lemma2_to64();
    lemma_tell_frac_fraction(d.nbits_total as int, d.rng);
    lemma_ilog_monotone(0x80_0000, d.rng as nat);
    lemma_ilog_unique(0x80_0000, 24);
    lemma_ilog_monotone(d.rng as nat, 0x8000_0000);
    lemma_ilog_unique(0x8000_0000, 32);
}

/// What a split of a partition leaves for its two halves.
#[derive(Debug, Clone, Copy, PartialEq, Eq, Structural)]
pub struct SplitNode {
    /// The coefficients of each half.
    pub n: i32,
    /// The halves' time split (`lm` less one).
    pub lm: i32,
    /// The blocks of each half.
    pub big_b: i32,
    /// The blocks the split leaves filled.
    pub fill: i32,
    /// The coded angle of the split.
    pub itheta: i32,
    /// The budget of the mid half.
    pub mbits: i32,
    /// The budget of the side half.
    pub sbits: i32,
}

/// Whether a partition of `n` coefficients with budget `b` splits: it can
/// (`lm` not past the shortest blocks, more than two coefficients, a cached
/// size) and needs more than the largest cached cost plus one and a half bits.
pub open spec fn want_split_spec(cache: &PulseCache, nb: int, band: int, lm: int, n: int, b: int) -> bool {
    let off = slot_of(cache.index@, nb, band, lm);
    lm != -1 && n > 2 && off >= 0 && b > cache.bits@[off + cache.bits@[off]] + 12
}

/// Decides whether a partition splits (see [`want_split_spec`]).
pub fn want_split(cache: &PulseCache, nb_e_bands: usize, band: usize, lm: i32, n: i32, b: i32) -> (res: bool)
    requires
        cache_readable(cache, nb_e_bands as int, band as int, lm as int),
        b <= i32::MAX - 256,
    ensures
        res == want_split_spec(cache, nb_e_bands as int, band as int, lm as int, n as int, b as int),
{
    if lm == -1 || n <= 2 {
        return false;
    }
    let off = match cache_slice(cache, nb_e_bands, band, lm) {
        Some(off) => off,
        None => {
            return false;
        },
    };
    let top = cache.bits[off] as usize;
    b > cache.bits[off + top] as i32 + 12
}

/// The decoder's split of a partition of `n` coefficients in `big_b` blocks
/// with budget `b`, `fill` and `remaining` bits in the pass: halve the
/// coefficients and the time split, spread a single block's fill over both
/// halves' blocks, read the angle, and share what the angle left of the
/// budget between the halves; the pass pays for the angle. Yields the
/// decoder, the bits left and the halves' parameters.
pub open spec fn split_node_spec(
    ctx: BandCtx,
    d: DecState,
    n: int,
    b: int,
    big_b: int,
    lm: int,
    fill: i32,
    remaining: int,
) -> (DecState, int, SplitNode) {
    let n2 = n / 2;
    let lm2 = lm - 1;
    let fill1: i32 = if big_b == 1 {
        (fill & 1i32) | (fill * 2) as i32
    } else {
        fill
    };
    let b2 = (big_b + 1) / 2;
    let (s1, itheta, inv) = theta_decode_spec(ctx, d, n2, big_b, lm2, false, b);
    let qalloc = s1.tell_frac() - d.tell_frac();
    let sc = split_from_angle(itheta, n2 as i32, inv, qalloc);
    let (mbits, sbits) = split_budget_spec(b - qalloc, sc.delta as int, itheta, big_b, n2, lm2);
    (
        s1,
        remaining - qalloc,
        SplitNode {
            n: n2 as i32,
            lm: lm2 as i32,
            big_b: b2 as i32,
            fill: fill_after(itheta, b2 as i32, fill1),
            itheta: itheta as i32,
            mbits: mbits as i32,
            sbits: sbits as i32,
        },
    )
}

/// Splits a partition on the decoder's side (see [`split_node_spec`]).
pub fn decode_split_node(
    ctx: &BandCtx,
    dec: &mut RangeDecoder,
    n: i32,
    b: i32,
    big_b: i32,
    lm: i32,
    fill: i32,
    remaining: &mut i32,
) -> (node: SplitNode)
    requires
        old(dec)@.wf(),
        old(dec)@.has_room(),
        4 <= n <= 0x10_0000,
        1 <= big_b <= 30,
        0 <= lm <= 3,
        0 <= fill < 0x4000_0000,
        -0x80_0000 <= b <= 0x80_0000,
        -0x4000_0000 <= *old(remaining) <= 0x4000_0000,
        theta_in_range(*ctx, (n / 2) as int, b as int, lm - 1, false),
    ensures
        (final(dec)@, *final(remaining) as int, node) == split_node_spec(
            *ctx,
            old(dec)@,
            n as int,
            b as int,
            big_b as int,
            lm as int,
            fill,
            *old(remaining) as int,
        ),
        final(dec)@.wf(),
{
    let n2 = n / 2;
    let lm2 = lm - 1;
    let mut f = fill;
    if big_b == 1 {
        f = (f & 1) | (f * 2);
    }
    let b2 = (big_b + 1) / 2;
    let mut bb = b;
    let ghost d0 = dec@;
    let sc = compute_theta_decode(ctx, dec, n2, b2, big_b, lm2, false, &mut bb, &mut f);
    proof {
        lemma_tell_frac_near(d0);
        lemma_tell_frac_near(dec@);
        let x = trunc16(((((n2 - 1) as i32) << 7u32) as int));
        assert(-0x8000 <= sc.delta <= 0x8000) by {
            if sc.itheta != 0 && sc.itheta != 16384 {
                let y = trunc16(bitexact_log2tan_spec(sc.iside as int, sc.imid as int));
                assert(-0x4000_0000 <= x * y <= 0x4000_0000) by (nonlinear_arith)
                    requires
                        -32768 <= x <= 32767,
                        -32768 <= y <= 32767,
                ;
            }
        }
    }
    *remaining = *remaining - (b - bb);
    let (mbits, sbits) = split_bit_budget(bb, sc.delta, sc.itheta, big_b, n2, lm2);
    SplitNode { n: n2, lm: lm2, big_b: b2, fill: f, itheta: sc.itheta, mbits, sbits }
}

/// The mask of the non-empty blocks of a split partition: the mid half's
/// blocks below, the side half's above the `b0 / 2` blocks of a half.
pub open spec fn split_mask_spec(cm_mid: u32, cm_side: u32, b0: int) -> u32 {
    cm_mid | (cm_side << ((b0 / 2) as u32))
}

/// Combines the halves' masks (see [`split_mask_spec`]).
pub fn split_mask(cm_mid: u32, cm_side: u32, b0: i32) -> (cm: u32)
    requires
        0 <= b0 <= 62,
    ensures
        cm == split_mask_spec(cm_mid, cm_side, b0 as int),
{
    proof {
        lemma_i32_shr_div(b0, 1);
        lemma2_to64();
    }
    cm_mid | (cm_side << ((b0 >> 1) as u32))
}

} // verus!

verus! {

/// What the decoder reads of a partition: the decoder after it, the bits
/// left in the pass, the noise generator, the pulse vectors of its leaves in
/// coefficient order, and the mask of its non-empty blocks.
pub struct PartitionDecoded {
    pub dec: DecState,
    pub remaining: int,
    pub seed: u32,
    pub y: Seq<i32>,
    pub cm: u32,
}

/// The band context with the pass's running bit count.
pub open spec fn with_remaining(ctx: BandCtx, remaining: int) -> BandCtx {
    BandCtx {
        log_n: ctx.log_n,
        i: ctx.i,
        intensity: ctx.intensity,
        nb_e_bands: ctx.nb_e_bands,
        remaining_bits: remaining as i32,
        theta_round: ctx.theta_round,
        avoid_split_noise: ctx.avoid_split_noise,
        disable_inv: ctx.disable_inv,
    }
}

/// The decoder's side of a mono partition of `n` coefficients in `big_b`
/// blocks with budget `b` (eighth bits): where the budget wants a split, the
/// split node, then the half with the larger budget first, the other half
/// getting what the first left unused beyond three bits (unless the angle
/// gave it nothing), the side half filling the blocks above the mid half's;
/// otherwise a leaf.
#[verifier::opaque]
pub open spec fn partition_dec_spec(
    ctx: BandCtx,
    cache: &PulseCache,
    d: DecState,
    n: int,
    b: int,
    big_b: int,
    lm: int,
    fill: i32,
    has_lowband: bool,
    remaining: int,
    seed: u32,
) -> PartitionDecoded
    decreases n,
{
    if want_split_spec(cache, ctx.nb_e_bands as int, ctx.i as int, lm, n, b) && n > 2 {
        let (d1, rem1, node) = split_node_spec(with_remaining(ctx, remaining), d, n, b, big_b, lm, fill, remaining);
        let n2 = n / 2;
        let side_fill = node.fill >> (node.big_b as u32);
        if node.mbits >= node.sbits {
            let m = partition_dec_spec(
                ctx,
                cache,
                d1,
                n2,
                node.mbits as int,
                node.big_b as int,
                node.lm as int,
                node.fill,
                has_lowband,
                rem1,
                seed,
            );
            let sb = pass_on_spec(node.mbits as int, rem1 - m.remaining, node.sbits as int, node.itheta != 0);
            let s = partition_dec_spec(
                ctx,
                cache,
                m.dec,
                n2,
                sb,
                node.big_b as int,
                node.lm as int,
                side_fill,
                has_lowband,
                m.remaining,
                m.seed,
            );
            PartitionDecoded { dec: s.dec, remaining: s.remaining, seed: s.seed, y: m.y + s.y, cm: split_mask_spec(m.cm, s.cm, big_b) }
        } else {
            let s = partition_dec_spec(
                ctx,
                cache,
                d1,
                n2,
                node.sbits as int,
                node.big_b as int,
                node.lm as int,
                side_fill,
                has_lowband,
                rem1,
                seed,
            );
            let mb = pass_on_spec(node.sbits as int, rem1 - s.remaining, node.mbits as int, node.itheta != 16384);
            let m = partition_dec_spec(
                ctx,
                cache,
                s.dec,
                n2,
                mb,
                node.big_b as int,
                node.lm as int,
                node.fill,
                has_lowband,
                s.remaining,
                s.seed,
            );
            PartitionDecoded { dec: m.dec, remaining: m.remaining, seed: m.seed, y: m.y + s.y, cm: split_mask_spec(m.cm, s.cm, big_b) }
        }
    } else {
        let r = leaf_dec_spec(
            cache,
            ctx.nb_e_bands as int,
            ctx.i as int,
            lm,
            b,
            n,
            big_b,
            fill as int,
            has_lowband,
            remaining,
            seed,
            d,
            Seq::new(n as nat, |j: int| 0i32),
        );
        PartitionDecoded { dec: r.dec, remaining: r.remaining, seed: r.seed, y: r.y, cm: r.cm }
    }
}

/// Every node of the partition [`partition_dec_spec`] decodes gets arguments
/// in the ranges its step is defined on: a readable cache slot, a decoder
/// within its bit limit, budgets and bit counts well inside `i32`, at most 30
/// blocks, and at a leaf pulse counts whose vectors number at most `u32::MAX`.
#[verifier::opaque]
pub open spec fn partition_dec_ok(
    ctx: BandCtx,
    cache: &PulseCache,
    d: DecState,
    n: int,
    b: int,
    big_b: int,
    lm: int,
    fill: i32,
    has_lowband: bool,
    remaining: int,
    seed: u32,
) -> bool
    decreases n,
{
    let nb = ctx.nb_e_bands as int;
    let band = ctx.i as int;
    &&& cache_readable(cache, nb, band, lm)
    &&& d.wf()
    &&& d.has_room()
    &&& -0x80_0000 <= b <= 0x80_0000
    &&& -0x4000_0000 <= remaining <= 0x4000_0000
    &&& 1 <= big_b <= 30
    &&& 0 <= fill < 0x4000_0000
    &&& 2 <= n < 0x1_0000
    &&& if want_split_spec(cache, nb, band, lm, n, b) && n > 2 {
        let (d1, rem1, node) = split_node_spec(with_remaining(ctx, remaining), d, n, b, big_b, lm, fill, remaining);
        let n2 = n / 2;
        let side_fill = node.fill >> (node.big_b as u32);
        &&& 4 <= n
        &&& 0 <= lm <= 3
        &&& theta_in_range(with_remaining(ctx, remaining), n2, b, lm - 1, false)
        &&& -0x1000_0000 <= node.mbits <= 0x1000_0000
        &&& -0x1000_0000 <= node.sbits <= 0x1000_0000
        &&& if node.mbits >= node.sbits {
            let m = partition_dec_spec(
                ctx,
                cache,
                d1,
                n2,
                node.mbits as int,
                node.big_b as int,
                node.lm as int,
                node.fill,
                has_lowband,
                rem1,
                seed,
            );
            let sb = pass_on_spec(node.mbits as int, rem1 - m.remaining, node.sbits as int, node.itheta != 0);
            &&& -0x1000_0000 <= node.sbits <= 0x1000_0000
            &&& -0x1000_0000 <= rem1 - m.remaining <= 0x1000_0000
            &&& partition_dec_ok(
                ctx,
                cache,
                d1,
                n2,
                node.mbits as int,
                node.big_b as int,
                node.lm as int,
                node.fill,
                has_lowband,
                rem1,
                seed,
            )
            &&& partition_dec_ok(
                ctx,
                cache,
                m.dec,
                n2,
                sb,
                node.big_b as int,
                node.lm as int,
                side_fill,
                has_lowband,
                m.remaining,
                m.seed,
            )
        } else {
            let s = partition_dec_spec(
                ctx,
                cache,
                d1,
                n2,
                node.sbits as int,
                node.big_b as int,
                node.lm as int,
                side_fill,
                has_lowband,
                rem1,
                seed,
            );
            let mb = pass_on_spec(node.sbits as int, rem1 - s.remaining, node.mbits as int, node.itheta != 16384);
            &&& -0x1000_0000 <= node.mbits <= 0x1000_0000
            &&& -0x1000_0000 <= rem1 - s.remaining <= 0x1000_0000
            &&& partition_dec_ok(
                ctx,
                cache,
                d1,
                n2,
                node.sbits as int,
                node.big_b as int,
                node.lm as int,
                side_fill,
                has_lowband,
                rem1,
                seed,
            )
            &&& partition_dec_ok(
                ctx,
                cache,
                s.dec,
                n2,
                mb,
                node.big_b as int,
                node.lm as int,
                node.fill,
                has_lowband,
                s.remaining,
                s.seed,
            )
        }
    } else {
        leaf_pulses_ok(cache, nb, band, lm, n, b)
    }
}

/// Every pulse count the budget `b` can buy a leaf of `n` coefficients is a
/// cached one whose pulse vectors number at most `u32::MAX`.
pub open spec fn leaf_pulses_ok(cache: &PulseCache, nb: int, band: int, lm: int, n: int, b: int) -> bool {
    forall|q: int|
        1 <= q <= bits2pulses_spec(cache.index@, cache.bits@, nb, band, lm, b) ==> q < 264 && 1
            <= #[trigger] pulses_of(q) <= i32::MAX && pvq_v(n as nat, pulses_of(q) as nat) <= u32::MAX
}

/// Decodes a mono partition (see [`partition_dec_spec`]); yields the pulse
/// vectors of its leaves and the mask of its non-empty blocks.
pub fn decode_partition(
    ctx: &BandCtx,
    cache: &PulseCache,
    dec: &mut RangeDecoder,
    n: i32,
    b: i32,
    big_b: i32,
    lm: i32,
    fill: i32,
    has_lowband: bool,
    remaining: &mut i32,
    seed: &mut u32,
) -> (res: (Vec<i32>, u32))
    requires
        partition_dec_ok(*ctx, cache, old(dec)@, n as int, b as int, big_b as int, lm as int, fill, has_lowband, *old(remaining) as int, *old(seed)),
    ensures
        ({
            let r = partition_dec_spec(*ctx, cache, old(dec)@, n as int, b as int, big_b as int, lm as int, fill, has_lowband, *old(remaining) as int, *old(seed));
            &&& final(dec)@ == r.dec
            &&& *final(remaining) == r.remaining
            &&& *final(seed) == r.seed
            &&& res.0@ == r.y
            &&& res.1 == r.cm
        }),
    decreases n, 2int,
{
    proof {
        reveal_with_fuel(partition_dec_ok, 1);
    }
    let split = n > 2 && want_split(cache, ctx.nb_e_bands, ctx.i, lm, n, b);
    if split {
        decode_split(ctx, cache, dec, n, b, big_b, lm, fill, has_lowband, remaining, seed)
    } else {
        proof {
            reveal_with_fuel(partition_dec_spec, 1);
        }
        decode_fresh_leaf(ctx, cache, dec, n, b, big_b, lm, fill, has_lowband, remaining, seed)
    }
}

/// Decodes a partition the budget splits: the split node, then both halves.
#[verifier::spinoff_prover]
#[verifier::rlimit(100)]
fn decode_split(
    ctx: &BandCtx,
    cache: &PulseCache,
    dec: &mut RangeDecoder,
    n: i32,
    b: i32,
    big_b: i32,
    lm: i32,
    fill: i32,
    has_lowband: bool,
    remaining: &mut i32,
    seed: &mut u32,
) -> (res: (Vec<i32>, u32))
    requires
        n > 2,
        want_split_spec(cache, ctx.nb_e_bands as int, ctx.i as int, lm as int, n as int, b as int),
        partition_dec_ok(*ctx, cache, old(dec)@, n as int, b as int, big_b as int, lm as int, fill, has_lowband, *old(remaining) as int, *old(seed)),
    ensures
        ({
            let r = partition_dec_spec(*ctx, cache, old(dec)@, n as int, b as int, big_b as int, lm as int, fill, has_lowband, *old(remaining) as int, *old(seed));
            &&& final(dec)@ == r.dec
            &&& *final(remaining) == r.remaining
            &&& *final(seed) == r.seed
            &&& res.0@ == r.y
            &&& res.1 == r.cm
        }),
    decreases n, 1int,
{
    let c = BandCtx {
        log_n: ctx.log_n,
        i: ctx.i,
        intensity: ctx.intensity,
        nb_e_bands: ctx.nb_e_bands,
        remaining_bits: *remaining,
        theta_round: ctx.theta_round,
        avoid_split_noise: ctx.avoid_split_noise,
        disable_inv: ctx.disable_inv,
    };
    let ghost d0 = dec@;
    let ghost r0 = *remaining as int;
    let ghost sn = split_node_spec(with_remaining(*ctx, r0), d0, n as int, b as int, big_b as int, lm as int, fill, r0);
    proof {
        assert(c == with_remaining(*ctx, *remaining as int));
        reveal_with_fuel(partition_dec_ok, 1);
    }
    let node = decode_split_node(&c, dec, n, b, big_b, lm, fill, remaining);
    proof {
        assert(node == sn.2 && dec@ == sn.0 && *remaining == sn.1);
        reveal_with_fuel(partition_dec_spec, 1);
    }
    if node.mbits >= node.sbits {
        decode_halves_mid_first(ctx, cache, dec, n, big_b, node, has_lowband, remaining, seed)
    } else {
        decode_halves_side_first(ctx, cache, dec, n, big_b, node, has_lowband, remaining, seed)
    }
}

/// Decodes the mid half, then the side half with what the mid half left.
fn decode_halves_mid_first(
    ctx: &BandCtx,
    cache: &PulseCache,
    dec: &mut RangeDecoder,
    n: i32,
    b0: i32,
    node: SplitNode,
    has_lowband: bool,
    remaining: &mut i32,
    seed: &mut u32,
) -> (res: (Vec<i32>, u32))
    requires
        2 < n,
        node.n == n / 2,
        0 <= b0 <= 30,
        1 <= node.big_b <= 30,
        -0x1000_0000 <= node.mbits <= 0x1000_0000,
        -0x1000_0000 <= node.sbits <= 0x1000_0000,
        ({
            let a = partition_dec_spec(*ctx, cache, old(dec)@, n / 2, node.mbits as int, node.big_b as int, node.lm as int, node.fill, has_lowband, *old(remaining) as int, *old(seed));
            let nb = pass_on_spec(node.mbits as int, *old(remaining) - a.remaining, node.sbits as int, node.itheta != 0);
            &&& partition_dec_ok(*ctx, cache, old(dec)@, n / 2, node.mbits as int, node.big_b as int, node.lm as int, node.fill, has_lowband, *old(remaining) as int, *old(seed))
            &&& -0x1000_0000 <= *old(remaining) - a.remaining <= 0x1000_0000
            &&& partition_dec_ok(*ctx, cache, a.dec, n / 2, nb, node.big_b as int, node.lm as int, (node.fill >> (node.big_b as u32)), has_lowband, a.remaining, a.seed)
        }),
    ensures
        ({
            let a = partition_dec_spec(*ctx, cache, old(dec)@, n / 2, node.mbits as int, node.big_b as int, node.lm as int, node.fill, has_lowband, *old(remaining) as int, *old(seed));
            let nb = pass_on_spec(node.mbits as int, *old(remaining) - a.remaining, node.sbits as int, node.itheta != 0);
            let z = partition_dec_spec(*ctx, cache, a.dec, n / 2, nb, node.big_b as int, node.lm as int, (node.fill >> (node.big_b as u32)), has_lowband, a.remaining, a.seed);
            &&& final(dec)@ == z.dec
            &&& *final(remaining) == z.remaining
            &&& *final(seed) == z.seed
            &&& res.0@ == a.y + z.y
            &&& res.1 == split_mask_spec(a.cm, z.cm, b0 as int)
        }),
    decreases n, 0int,
{
    let before = *remaining;
    let (mut ya, cma) = decode_partition(
        ctx, cache, dec, node.n, node.mbits, node.big_b, node.lm, node.fill, has_lowband, remaining, seed,
    );
    let nb = pass_on_unused_bits(node.mbits, before - *remaining, node.sbits, node.itheta != 0);
    let (mut yz, cmz) = decode_partition(
        ctx, cache, dec, node.n, nb, node.big_b, node.lm, (node.fill >> (node.big_b as u32)), has_lowband, remaining, seed,
    );
    ya.append(&mut yz);
    (ya, split_mask(cma, cmz, b0))
}

/// Decodes the side half, then the mid half with what the side half left.
fn decode_halves_side_first(
    ctx: &BandCtx,
    cache: &PulseCache,
    dec: &mut RangeDecoder,
    n: i32,
    b0: i32,
    node: SplitNode,
    has_lowband: bool,
    remaining: &mut i32,
    seed: &mut u32,
) -> (res: (Vec<i32>, u32))
    requires
        2 < n,
        node.n == n / 2,
        0 <= b0 <= 30,
        1 <= node.big_b <= 30,
        -0x1000_0000 <= node.mbits <= 0x1000_0000,
        -0x1000_0000 <= node.sbits <= 0x1000_0000,
        ({
            let a = partition_dec_spec(*ctx, cache, old(dec)@, n / 2, node.sbits as int, node.big_b as int, node.lm as int, (node.fill >> (node.big_b as u32)), has_lowband, *old(remaining) as int, *old(seed));
            let nb = pass_on_spec(node.sbits as int, *old(remaining) - a.remaining, node.mbits as int, node.itheta != 16384);
            &&& partition_dec_ok(*ctx, cache, old(dec)@, n / 2, node.sbits as int, node.big_b as int, node.lm as int, (node.fill >> (node.big_b as u32)), has_lowband, *old(remaining) as int, *old(seed))
            &&& -0x1000_0000 <= *old(remaining) - a.remaining <= 0x1000_0000
            &&& partition_dec_ok(*ctx, cache, a.dec, n / 2, nb, node.big_b as int, node.lm as int, node.fill, has_lowband, a.remaining, a.seed)
        }),
    ensures
        ({
            let a = partition_dec_spec(*ctx, cache, old(dec)@, n / 2, node.sbits as int, node.big_b as int, node.lm as int, (node.fill >> (node.big_b as u32)), has_lowband, *old(remaining) as int, *old(seed));
            let nb = pass_on_spec(node.sbits as int, *old(remaining) - a.remaining, node.mbits as int, node.itheta != 16384);
            let z = partition_dec_spec(*ctx, cache, a.dec, n / 2, nb, node.big_b as int, node.lm as int, node.fill, has_lowband, a.remaining, a.seed);
            &&& final(dec)@ == z.dec
            &&& *final(remaining) == z.remaining
            &&& *final(seed) == z.seed
            &&& res.0@ == z.y + a.y
            &&& res.1 == split_mask_spec(z.cm, a.cm, b0 as int)
        }),
    decreases n, 0int,
{
    let before = *remaining;
    let (mut ya, cma) = decode_partition(
        ctx, cache, dec, node.n, node.sbits, node.big_b, node.lm, (node.fill >> (node.big_b as u32)), has_lowband, remaining, seed,
    );
    let nb = pass_on_unused_bits(node.sbits, before - *remaining, node.mbits, node.itheta != 16384);
    let (mut yz, cmz) = decode_partition(
        ctx, cache, dec, node.n, nb, node.big_b, node.lm, node.fill, has_lowband, remaining, seed,
    );
    yz.append(&mut ya);
    (yz, split_mask(cmz, cma, b0))
}

/// Decodes a leaf into a fresh vector of `n` coefficients.
fn decode_fresh_leaf(
    ctx: &BandCtx,
    cache: &PulseCache,
    dec: &mut RangeDecoder,
    n: i32,
    b: i32,
    big_b: i32,
    lm: i32,
    fill: i32,
    has_lowband: bool,
    remaining: &mut i32,
    seed: &mut u32,
) -> (res: (Vec<i32>, u32))
    requires
        cache_readable(cache, ctx.nb_e_bands as int, ctx.i as int, lm as int),
        old(dec)@.wf(),
        old(dec)@.has_room(),
        -0x80_0000 <= b <= 0x80_0000,
        -0x4000_0000 <= *old(remaining) <= 0x4000_0000,
        1 <= big_b <= 30,
        2 <= n < 0x1_0000,
        leaf_pulses_ok(cache, ctx.nb_e_bands as int, ctx.i as int, lm as int, n as int, b as int),
    ensures
        ({
            let r = leaf_dec_spec(
                cache,
                ctx.nb_e_bands as int,
                ctx.i as int,
                lm as int,
                b as int,
                n as int,
                big_b as int,
                fill as int,
                has_lowband,
                *old(remaining) as int,
                *old(seed),
                old(dec)@,
                Seq::new(n as nat, |j: int| 0i32),
            );
            &&& final(dec)@ == r.dec
            &&& *final(remaining) == r.remaining
            &&& *final(seed) == r.seed
            &&& res.0@ == r.y
            &&& res.1 == r.cm
        }),
{
    let mut y: Vec<i32> = Vec::new();
    let mut j: i32 = 0;
    while j < n
        invariant
            0 <= j <= n,
            y@ == Seq::new(j as nat, |t: int| 0i32),
        decreases n - j,
    {
        y.push(0);
        j = j + 1;
        proof {
            assert(y@ =~= Seq::new(j as nat, |t: int| 0i32));
        }
    }
    proof {
        assert((n as usize) as int == n as int);
    }
    let cm = decode_partition_leaf(
        cache,
        ctx.nb_e_bands,
        ctx.i,
        lm,
        b,
        n as usize,
        big_b as u32,
        fill,
        has_lowband,
        remaining,
        seed,
        dec,
        y.as_mut_slice(),
    );
    (y, cm)
}

/// Decodes a mono band of `n` coefficients in `big_b` blocks with time-
/// frequency change `tf_change`: the partition runs on the blocks the change
/// reshapes the band into (see [`tf_plan_spec`]), and its mask of non-empty
/// blocks is mapped back to the band's own blocks (see [`tf_unplan_spec`]).
pub fn decode_band_mono(
    ctx: &BandCtx,
    cache: &PulseCache,
    dec: &mut RangeDecoder,
    n: i32,
    b: i32,
    big_b: i32,
    lm: i32,
    tf_change: i32,
    fill: u32,
    has_lowband: bool,
    remaining: &mut i32,
    seed: &mut u32,
) -> (res: (Vec<i32>, u32))
    requires
        1 <= big_b <= 16,
        2 <= n <= 0x10_0000,
        -4 <= tf_change <= 4,
        tf_change < 0 ==> big_b * pow2((-tf_change - 1) as nat) < 32,
        ({
            let plan = tf_plan_spec(n as int, big_b as int, tf_change as int, fill);
            &&& 0 <= plan.big_b < 64
            &&& plan.time_divide <= 4
            &&& plan.recombine <= 4
            &&& plan.fill < 0x4000_0000
            &&& partition_dec_ok(
                *ctx,
                cache,
                old(dec)@,
                n as int,
                b as int,
                plan.big_b as int,
                lm as int,
                plan.fill as i32,
                has_lowband,
                *old(remaining) as int,
                *old(seed),
            )
        }),
    ensures
        ({
            let plan = tf_plan_spec(n as int, big_b as int, tf_change as int, fill);
            let r = partition_dec_spec(
                *ctx,
                cache,
                old(dec)@,
                n as int,
                b as int,
                plan.big_b as int,
                lm as int,
                plan.fill as i32,
                has_lowband,
                *old(remaining) as int,
                *old(seed),
            );
            &&& final(dec)@ == r.dec
            &&& *final(remaining) == r.remaining
            &&& *final(seed) == r.seed
            &&& res.0@ == r.y
            &&& res.1 == tf_unplan_spec(plan, r.cm, big_b as int)
        }),
{
    let plan = tf_plan(n, big_b, tf_change, fill);
    let (y, cm) = decode_partition(
        ctx,
        cache,
        dec,
        n,
        b,
        plan.big_b,
        lm,
        plan.fill as i32,
        has_lowband,
        remaining,
        seed,
    );
    (y, tf_unplan(&plan, cm, big_b))
}

/// The decoder's side of a one-coefficient channel: with a whole bit left in
/// the pass, one raw bit gives the sign (1 for negative) and costs the pass
/// and the band budget a bit each; otherwise nothing is read and the sign is
/// positive. Yields the decoder, the pass's bits, the band budget and the sign.
pub open spec fn n1_dec_spec(d: DecState, remaining: int, b: int) -> (DecState, int, int, u32) {
    if remaining >= 8 {
        let (d2, sign) = dec_bits_spec(d, 1);
        (d2, remaining - 8, b - 8, sign)
    } else {
        (d, remaining, b, 0)
    }
}

/// Reads the sign of a one-coefficient channel (see [`n1_dec_spec`]).
pub fn decode_n1_channel(dec: &mut RangeDecoder, remaining: &mut i32, b: &mut i32) -> (sign: u32)
    requires
        old(dec)@.wf(),
        old(dec)@.has_room(),
        *old(b) >= i32::MIN + 8,
    ensures
        (final(dec)@, *final(remaining) as int, *final(b) as int, sign) == n1_dec_spec(
            old(dec)@,
            *old(remaining) as int,
            *old(b) as int,
        ),
        final(dec)@.wf(),
        sign <= 1,
{
    if *remaining >= 8 {
        let sign = dec.dec_bits(1);
        proof {
            lemma2_to64();
        }
        *remaining = *remaining - 8;
        *b = *b - 8;
        sign
    } else {
        0
    }
}

} // verus!
