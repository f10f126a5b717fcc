//! CELT variable-bitrate rate control: the per-frame target in eighth-bits,
//! the packet byte count it rounds to, and the constrained-VBR reservoir that
//! keeps the average rate over time.
use crate::bits::lemma_i32_shr_div;
use crate::theta::div_trunc;
use vstd::arithmetic::power2::*;
use vstd::prelude::*;

verus! {

/// The per-frame target in eighth-bits for `bitrate_bps` at `sample_rate` Hz
/// and `frame_size` samples: `(bitrate * frame_size + den / 2) / den` with
/// `den = sample_rate / 8`, kept to 32 bits.
pub open spec fn vbr_rate_spec(bitrate_bps: int, sample_rate: int, frame_size: int) -> int {
    let den = sample_rate / 8;
    (div_trunc(bitrate_bps * frame_size + div_trunc(den, 2), den) as i32) as int
}

/// `vbr_rate`: the per-frame target in eighth-bits for a nominal
/// `bitrate_bps` at `sample_rate` Hz and `frame_size` samples.
pub fn vbr_rate(bitrate_bps: i32, sample_rate: i32, frame_size: i32) -> (res: i32)
    requires
        sample_rate >= 8,
    ensures
        res == vbr_rate_spec(bitrate_bps as int, sample_rate as int, frame_size as int),
{
    proof {
        lemma_i32_shr_div(sample_rate, 3);
        lemma2_to64();
    }
    let den = (sample_rate >> 3u32) as i64;
    proof {
        assert(-0x4000_0000_0000_0000 <= bitrate_bps as i64 * frame_size as i64 <= 0x4000_0000_0000_0000) by (nonlinear_arith)
            requires
                -0x8000_0000 <= bitrate_bps <= 0x7fff_ffff,
                -0x8000_0000 <= frame_size <= 0x7fff_ffff,
        ;
    }
    let half = den / 2;
    assert(half == div_trunc(den as int, 2));
    let num = bitrate_bps as i64 * frame_size as i64 + half;
    let q = num / den;
    assert(q == div_trunc(num as int, den as int));
    assert(den == sample_rate as int / 8);
    #[verifier::truncate]
    (q as i32)
}

/// `base_target`: the per-frame target with the fixed overhead removed (the
/// non-hybrid CELT case, `vbr_rate - ((40*C + 20) << BITRES)`).
pub fn base_target(vbr_rate: i32, channels: i32) -> (res: i32)
    requires
        i32::MIN <= (40 * channels + 20) * 8 <= i32::MAX,
        i32::MIN <= vbr_rate - (40 * channels + 20) * 8 <= i32::MAX,
    ensures
        res == vbr_rate - (40 * channels + 20) * 8,
{
    proof {
        lemma2_to64();
        crate::bits::lemma_i32_shl_mul((40 * channels + 20) as i32, 3);
    }
    vbr_rate - ((40 * channels + 20) << 3u32)
}

/// The packet ceiling: the caller's limit, and no more than 510 kb/s.
pub open spec fn packet_ceiling(nb_compressed_bytes: int, lm: int) -> int {
    let cap = 1275int / (pow2((3 - lm) as nat) as int);
    if nb_compressed_bytes < cap {
        nb_compressed_bytes
    } else {
        cap
    }
}

/// The byte count a shaped `target` rounds to: the target plus the bits
/// already spent, rounded to bytes, at least what is spent plus the boosts
/// plus two bytes, at most the ceiling.
pub open spec fn rounded_bytes(target: int, tell_frac: int, total_boost: int, ceiling: int) -> int {
    let min_allowed = (tell_frac + total_boost + 63) / 64 + 2;
    let nb = (target + tell_frac + 32) / 64;
    let lower = if nb > min_allowed {
        nb
    } else {
        min_allowed
    };
    if lower < ceiling {
        lower
    } else {
        ceiling
    }
}

/// `vbr_choose_bytes` as a function: two bytes for a silent frame, else the
/// rounded target within the ceiling.
pub open spec fn vbr_choose_bytes_spec(
    target: int,
    tell_frac: int,
    total_boost: int,
    nb_compressed_bytes: int,
    lm: int,
    silence: bool,
) -> int {
    if silence {
        2
    } else {
        rounded_bytes(target, tell_frac, total_boost, packet_ceiling(nb_compressed_bytes, lm))
    }
}

/// The rounding arithmetic stays within 32 bits.
pub open spec fn byte_inputs_ok(target: int, tell_frac: int, total_boost: int, lm: int) -> bool {
    &&& 0 <= lm <= 3
    &&& i32::MIN <= target + tell_frac
    &&& target + tell_frac + 32 <= i32::MAX
    &&& i32::MIN <= tell_frac + total_boost + 63 <= i32::MAX
    &&& i32::MIN <= tell_frac + total_boost
}

fn packet_ceiling_exec(nb_compressed_bytes: i32, lm: i32) -> (res: i32)
    requires
        0 <= lm <= 3,
    ensures
        res == packet_ceiling(nb_compressed_bytes as int, lm as int),
        res <= 1275,
{
    proof {
        lemma_i32_shr_div(1275, (3 - lm) as u32);
        lemma2_to64();
    }
    let cap = 1275i32 >> ((3 - lm) as u32);
    proof {
        vstd::arithmetic::div_mod::lemma_div_is_ordered_by_denominator(1275, 1, pow2((3 - lm) as nat) as int);
    }
    if nb_compressed_bytes < cap {
        nb_compressed_bytes
    } else {
        cap
    }
}

fn rounded_bytes_exec(target: i32, tell_frac: i32, total_boost: i32, ceiling: i32) -> (res: i32)
    requires
        byte_inputs_ok(target as int, tell_frac as int, total_boost as int, 0),
    ensures
        res == rounded_bytes(target as int, tell_frac as int, total_boost as int, ceiling as int),
        res <= ceiling,
{
    proof {
        lemma_i32_shr_div((tell_frac + total_boost + 63) as i32, 6);
        lemma_i32_shr_div((target + tell_frac + 32) as i32, 6);
        lemma2_to64();
    }
    let min_allowed = ((tell_frac + total_boost + 63) >> 6u32) + 2;
    let nb = (target + tell_frac + 32) >> 6u32;
    let lower = if nb > min_allowed {
        nb
    } else {
        min_allowed
    };
    if lower < ceiling {
        lower
    } else {
        ceiling
    }
}

/// `vbr_choose_bytes`: convert the shaped `target` (eighth-bits) into a
/// packet byte count, given the bits used so far (`tell_frac`, eighth-bits),
/// the total dynalloc boost and the hard packet ceiling. Returns the chosen
/// byte budget.
pub fn vbr_choose_bytes(
    target: i32,
    tell_frac: i32,
    total_boost: i32,
    nb_compressed_bytes: i32,
    lm: i32,
    silence: bool,
) -> (res: i32)
    requires
        byte_inputs_ok(target as int, tell_frac as int, total_boost as int, lm as int),
    ensures
        res == vbr_choose_bytes_spec(target as int, tell_frac as int, total_boost as int, nb_compressed_bytes as int, lm as int, silence),
        !silence ==> res <= packet_ceiling(nb_compressed_bytes as int, lm as int),
{
    if silence {
        return 2;
    }
    let ceiling = packet_ceiling_exec(nb_compressed_bytes, lm);
    rounded_bytes_exec(target, tell_frac, total_boost, ceiling)
}

/// More target never gives fewer bytes: `vbr_choose_bytes` is monotonic in
/// the target.
pub proof fn lemma_choose_bytes_monotonic(
    t1: int,
    t2: int,
    tell_frac: int,
    total_boost: int,
    nb_compressed_bytes: int,
    lm: int,
    silence: bool,
)
    requires
        t1 <= t2,
    ensures
        vbr_choose_bytes_spec(t1, tell_frac, total_boost, nb_compressed_bytes, lm, silence)
            <= vbr_choose_bytes_spec(t2, tell_frac, total_boost, nb_compressed_bytes, lm, silence),
{
    vstd::arithmetic::div_mod::lemma_div_is_ordered(t1 + tell_frac + 32, t2 + tell_frac + 32, 64);
}

/// A silent frame is two bytes whenever the ceiling allows two.
pub proof fn lemma_silence_is_two_bytes(
    target: int,
    tell_frac: int,
    total_boost: int,
    nb_compressed_bytes: int,
    lm: int,
)
    ensures
        vbr_choose_bytes_spec(target, tell_frac, total_boost, nb_compressed_bytes, lm, true) == 2,
{
}

/// Inputs to [`VbrState::choose_bytes`] (the full, constrained-aware
/// byte-budget step of a frame).
pub struct VbrChoose {
    /// The shaped per-frame target (eighth-bits).
    pub target: i32,
    /// The bits already spent this frame (eighth-bits).
    pub tell_frac: i32,
    /// The total dynalloc boost (eighth-bits).
    pub total_boost: i32,
    /// The raw per-frame rate (see [`vbr_rate`]); the drift measures against it.
    pub vbr_rate: i32,
    /// The packet ceiling in bytes before the `1275 >> (3 - lm)` cap.
    pub nb_compressed_bytes: i32,
    /// The frame-size shift `LM`.
    pub lm: i32,
    /// `max_lm - lm`; scales the offset fed back into the base target.
    pub lm_diff: i32,
    /// Whether constrained VBR is active (enables the reservoir correction).
    pub constrained_vbr: bool,
    /// Whether this frame is silent (the drift is frozen, the bitres refills).
    pub silence: bool,
}

/// The reservoir state: cumulative overshoot, the smoothed drift, the offset
/// fed back into the next base target, and the frames seen while warming up.
pub struct VbrModel {
    pub reservoir: int,
    pub drift: int,
    pub offset: int,
    pub count: int,
}

/// Cross-frame constrained-VBR reservoir state. The reservoir tracks the
/// cumulative over/under-shoot against the nominal rate; the drift is a slow
/// leaky-integrator correction whose negated value
/// ([`Self::base_target_offset`]) nudges the next frame's base target so
/// constrained VBR holds its average rate over time.
pub struct VbrState {
    reservoir: i32,
    drift: i32,
    offset: i32,
    count: i32,
}

impl View for VbrState {
    type V = VbrModel;

    closed spec fn view(&self) -> VbrModel {
        VbrModel {
            reservoir: self.reservoir as int,
            drift: self.drift as int,
            offset: self.offset as int,
            count: self.count as int,
        }
    }
}

/// How far this frame's target (plus the bits spent) missed the nominal rate;
/// nothing for a silent frame.
pub open spec fn frame_miss(c: VbrChoose) -> int {
    if c.silence {
        0
    } else {
        c.target + c.tell_frac - c.vbr_rate
    }
}

/// The error the drift integrates: the miss, scaled to the largest frame
/// size, less the current offset and drift.
pub open spec fn drift_error_spec(s: VbrModel, c: VbrChoose) -> int {
    frame_miss(c) * pow2(c.lm_diff as nat) - s.offset - s.drift
}

/// One frame of the byte-budget step with the drift moved by `step`: the
/// rounded byte count (two for silence), then for constrained VBR the
/// reservoir takes the overshoot and, once it is negative, hands the missing
/// bytes back and resets; yields the new state and the byte count.
pub open spec fn vbr_step(s: VbrModel, c: VbrChoose, step: int) -> (VbrModel, int) {
    let ceiling = packet_ceiling(c.nb_compressed_bytes as int, c.lm as int);
    let nb0 = rounded_bytes(c.target as int, c.tell_frac as int, c.total_boost as int, ceiling);
    let nb = if c.silence {
        2
    } else {
        nb0
    };
    let target = if c.silence {
        128
    } else {
        nb0 * 64
    };
    let count = if s.count < 970 {
        s.count + 1
    } else {
        s.count
    };
    if c.constrained_vbr {
        let res0 = s.reservoir + target - c.vbr_rate;
        let drift = s.drift + step;
        let nb2 = if res0 < 0 && !c.silence {
            nb + (-res0) / 64
        } else {
            nb
        };
        (
            VbrModel {
                reservoir: if res0 < 0 {
                    0
                } else {
                    res0
                },
                drift,
                offset: -drift,
                count,
            },
            if ceiling < nb2 {
                ceiling
            } else {
                nb2
            },
        )
    } else {
        (VbrModel { count, ..s }, if ceiling < nb {
            ceiling
        } else {
            nb
        })
    }
}

/// The step stays within 32-bit arithmetic.
pub open spec fn vbr_step_ok(s: VbrModel, c: VbrChoose, step: int) -> bool {
    &&& byte_inputs_ok(c.target as int, c.tell_frac as int, c.total_boost as int, c.lm as int)
    &&& 0 <= c.lm_diff <= 30
    &&& i32::MIN <= c.target + c.tell_frac - c.vbr_rate <= i32::MAX
    &&& i32::MIN <= drift_error_spec(s, c) <= i32::MAX
    &&& i32::MIN <= frame_miss(c) * pow2(c.lm_diff as nat) <= i32::MAX
    &&& i32::MIN <= frame_miss(c) * pow2(c.lm_diff as nat) - s.offset <= i32::MAX
    &&& 0 <= c.nb_compressed_bytes
    &&& 0 <= c.tell_frac + c.total_boost
    &&& i32::MIN < c.vbr_rate
    &&& 1275 * 64 - c.vbr_rate <= i32::MAX
    &&& i32::MIN < s.reservoir - c.vbr_rate
    &&& s.reservoir + 1275 * 64 - c.vbr_rate <= i32::MAX
    &&& -0x7fff_ffff <= s.drift + step <= 0x7fff_ffff
    &&& s.count <= 970
}

impl VbrState {
    /// A fresh reservoir (all counters zero), matching the encoder reset state.
    pub fn new() -> (res: Self)
        ensures
            res@ == (VbrModel { reservoir: 0, drift: 0, offset: 0, count: 0 }),
    {
        VbrState { reservoir: 0, drift: 0, offset: 0, count: 0 }
    }

    /// The offset to fold into the base target before shaping this frame
    /// (`offset >> lm_diff`). Zero until constrained VBR has accumulated
    /// drift.
    pub fn base_target_offset(&self, lm_diff: i32) -> (res: i32)
        requires
            0 <= lm_diff < 32,
        ensures
            res == self@.offset / (pow2(lm_diff as nat) as int),
    {
        proof {
            lemma_i32_shr_div(self.offset, lm_diff as u32);
        }
        self.offset >> (lm_diff as u32)
    }

    /// The divisor of this frame's drift-smoothing gain while the smoothing
    /// warms up (the gain is `1 / (count + 21)` over the first 970 frames),
    /// `None` once it has settled at its floor.
    pub fn drift_gain_divisor(&self) -> (res: Option<i32>)
        requires
            self@.count <= 970,
        ensures
            self@.count < 970 ==> res == Some((self@.count + 21) as i32),
            self@.count >= 970 ==> res is None,
    {
        if self.count < 970 {
            Some(self.count + 21)
        } else {
            None
        }
    }

    /// The error this frame's drift smoothing integrates (see
    /// [`drift_error_spec`]).
    pub fn drift_error(&self, c: &VbrChoose) -> (err: i32)
        requires
            0 <= c.lm_diff <= 30,
            i32::MIN <= c.target + c.tell_frac <= i32::MAX,
            i32::MIN <= c.target + c.tell_frac - c.vbr_rate <= i32::MAX,
            i32::MIN <= frame_miss(*c) * pow2(c.lm_diff as nat) <= i32::MAX,
            i32::MIN <= frame_miss(*c) * pow2(c.lm_diff as nat) - self@.offset <= i32::MAX,
            i32::MIN <= drift_error_spec(self@, *c) <= i32::MAX,
        ensures
            err == drift_error_spec(self@, *c),
    {
        let delta: i32 = if c.silence {
            0
        } else {
            c.target + c.tell_frac - c.vbr_rate
        };
        proof {
            lemma2_to64();
            if c.lm_diff < 31 {
                lemma_pow2_strictly_increases(c.lm_diff as nat, 31);
            }
            vstd::bits::lemma_u32_shl_is_mul(1u32, c.lm_diff as u32);
        }
        let scale = (1u32 << (c.lm_diff as u32)) as i32;
        delta * scale - self.offset - self.drift
    }

    /// Runs the byte-budget step with the drift moved by `drift_step` (the
    /// smoothing gain times [`Self::drift_error`], rounded toward zero):
    /// converts the shaped target to a packet byte count, then updates the
    /// reservoir and drift so future frames correct the accumulated miss. For
    /// unconstrained VBR this is [`vbr_choose_bytes`]; only the warm-up counter
    /// advances.
    pub fn choose_bytes(&mut self, c: &VbrChoose, drift_step: i32) -> (nb: i32)
        requires
            vbr_step_ok(old(self)@, *c, drift_step as int),
        ensures
            (final(self)@, nb as int) == vbr_step(old(self)@, *c, drift_step as int),
    {
        let ceiling = packet_ceiling_exec(c.nb_compressed_bytes, c.lm);
        let nb0 = rounded_bytes_exec(c.target, c.tell_frac, c.total_boost, ceiling);
        let mut nb = nb0;
        proof {
            assert(nb0 <= 1275);
            assert(0 <= nb0) by {
                vstd::arithmetic::div_mod::lemma_div_pos_is_pos(c.tell_frac + c.total_boost + 63, 64);
                assert(0 <= ceiling) by {
                    lemma_pow2_pos((3 - c.lm) as nat);
                    vstd::arithmetic::div_mod::lemma_div_pos_is_pos(1275, pow2((3 - c.lm) as nat) as int);
                }
            }
        }
        let mut target = nb0 * 64;
        if c.silence {
            nb = 2;
            target = 128;
        }
        if self.count < 970 {
            self.count = self.count + 1;
        }
        if c.constrained_vbr {
            self.reservoir = self.reservoir + (target - c.vbr_rate);
            self.drift = self.drift + drift_step;
            self.offset = -self.drift;
            if self.reservoir < 0 {
                let adjust = (-self.reservoir) / 64;
                if !c.silence {
                    nb += adjust;
                }
                self.reservoir = 0;
            }
        }
        if ceiling < nb {
            ceiling
        } else {
            nb
        }
    }
}

/// Without constrained VBR the state's step is [`vbr_choose_bytes`] (a silent
/// frame included, whenever the ceiling allows two bytes), and the reservoir,
/// drift and offset stay as they were.
pub proof fn lemma_unconstrained_is_plain(s: VbrModel, c: VbrChoose, step: int)
    requires
        !c.constrained_vbr,
        !c.silence || packet_ceiling(c.nb_compressed_bytes as int, c.lm as int) >= 2,
    ensures
        vbr_step(s, c, step).1 == vbr_choose_bytes_spec(
            c.target as int,
            c.tell_frac as int,
            c.total_boost as int,
            c.nb_compressed_bytes as int,
            c.lm as int,
            c.silence,
        ),
        vbr_step(s, c, step).0.reservoir == s.reservoir,
        vbr_step(s, c, step).0.drift == s.drift,
        vbr_step(s, c, step).0.offset == s.offset,
{
}

} // verus!

verus! {

impl VbrState {
    /// Whether one byte-budget step with the drift moved by `step` stays in
    /// the 32-bit range (see [`vbr_step_ok`]): the test a caller makes before
    /// [`Self::drift_error`] and [`Self::choose_bytes`].
    pub fn step_fits(&self, c: &VbrChoose, step: i32) -> (ok: bool)
        ensures
            ok == vbr_step_ok(self@, *c, step as int),
    {
        if !(0 <= c.lm && c.lm <= 3 && 0 <= c.lm_diff && c.lm_diff <= 30 && self.count <= 970) {
            return false;
        }
        let lo: i128 = i32::MIN as i128;
        let hi: i128 = i32::MAX as i128;
        let target = c.target as i128;
        let tell = c.tell_frac as i128;
        let boost = c.total_boost as i128;
        let rate = c.vbr_rate as i128;
        let miss: i128 = if c.silence {
            0
        } else {
            target + tell - rate
        };
        proof {
            lemma2_to64();
            if c.lm_diff < 31 {
                lemma_pow2_strictly_increases(c.lm_diff as nat, 31);
            }
            vstd::bits::lemma_u64_shl_is_mul(1u64, c.lm_diff as u64);
        }
        let scale = (1u64 << (c.lm_diff as u64)) as i128;
        proof {
            assert(-0x3_0000_0000 <= miss <= 0x3_0000_0000);
            assert(miss * scale <= 0x3_0000_0000 * 0x8000_0000) by (nonlinear_arith)
                requires
                    miss <= 0x3_0000_0000,
                    0 < scale <= 0x4000_0000,
            ;
            assert(miss * scale >= -0x3_0000_0000 * 0x8000_0000) by (nonlinear_arith)
                requires
                    miss >= -0x3_0000_0000,
                    0 < scale <= 0x4000_0000,
            ;
        }
        let scaled = miss * scale;
        let offset = self.offset as i128;
        let drift = self.drift as i128;
        let err = scaled - offset - drift;
        let reservoir = self.reservoir as i128;
        let st = step as i128;
        lo <= target + tell && target + tell + 32 <= hi && lo <= tell + boost + 63 && tell + boost + 63 <= hi
            && lo <= tell + boost && lo <= target + tell - rate && target + tell - rate <= hi && lo <= err && err
            <= hi && lo <= scaled && scaled <= hi && lo <= scaled - offset && scaled - offset <= hi && 0
            <= c.nb_compressed_bytes && 0 <= tell + boost && lo < rate && 1275 * 64 - rate <= hi && lo
            < reservoir - rate && reservoir + 1275 * 64 - rate <= hi && -0x7fff_ffff <= drift + st && drift
            + st <= 0x7fff_ffff
    }
}

} // verus!
