//! The time-frequency reshaping around a band's partition: recombining
//! adjacent short blocks for more frequency resolution, or splitting for more
//! time resolution, and what it does to the band's block masks (the blocks
//! the folding fills on the way in, the blocks that carried pulses on the way
//! out).
use crate::bits::{lemma_i32_shl_mul, lemma_i32_shr_div};
use vstd::arithmetic::power2::*;
use vstd::bits::*;
use vstd::prelude::*;

verus! {

/// `bit_interleave`: the 2-block mask of a recombined pair of 4-block masks.
pub open spec fn bit_interleave() -> Seq<u32> {
    seq![0u32, 1, 1, 1, 2, 3, 3, 3, 2, 3, 3, 3, 2, 3, 3, 3]
}

/// `bit_deinterleave`: a 4-block mask spread back over 8 blocks.
pub open spec fn bit_deinterleave() -> Seq<u32> {
    seq![0x00u32, 0x03, 0x0C, 0x0F, 0x30, 0x33, 0x3C, 0x3F, 0xC0, 0xC3, 0xCC, 0xCF, 0xF0, 0xF3, 0xFC, 0xFF]
}

/// The fill mask after one recombination step.
pub open spec fn recombine_fill(fill: u32) -> u32 {
    bit_interleave()[(fill & 0xF) as int] | (bit_interleave()[((fill >> 4u32) & 0xF) as int] << 2u32)
}

/// The fill mask after `k` recombination steps.
pub open spec fn recombine_fill_n(fill: u32, k: nat) -> u32
    decreases k,
{
    if k == 0 {
        fill
    } else {
        recombine_fill(recombine_fill_n(fill, (k - 1) as nat))
    }
}

/// The time splits: while the block length is even and more time resolution
/// is asked for, each block splits in two, its fill bit copied to both
/// halves. Yields the fill, the block count, the block length and the number
/// of splits.
pub open spec fn time_divide(fill: u32, big_b: int, n_b: int, tf_change: int, steps: int) -> (u32, int, int, int)
    decreases (if tf_change < 0 {
        -tf_change
    } else {
        0
    }),
{
    if n_b % 2 == 0 && tf_change < 0 {
        time_divide(fill | (fill << (big_b as u32)), big_b * 2, n_b / 2, tf_change + 1, steps + 1)
    } else {
        (fill, big_b, n_b, steps)
    }
}

/// How a band of `n` coefficients in `big_b` blocks is reshaped for a
/// time-frequency change `tf_change`.
pub struct TfPlan {
    /// Recombination steps (for a positive change).
    pub recombine: u32,
    /// Time splits (for a negative change).
    pub time_divide: u32,
    /// The block count the partition works with.
    pub big_b: i32,
    /// The block length the partition works with.
    pub n_b: i32,
    /// The fill mask the partition works with.
    pub fill: u32,
}

/// The reshaping as a function: recombine `max(tf_change, 0)` times (halving
/// the block count), then split in time as [`time_divide`] does.
pub open spec fn tf_plan_spec(n: int, big_b: int, tf_change: int, fill: u32) -> TfPlan {
    let recombine: int = if tf_change > 0 {
        tf_change
    } else {
        0
    };
    let fill1 = recombine_fill_n(fill, recombine as nat);
    let b1 = big_b / (pow2(recombine as nat) as int);
    let nb1 = (n / big_b) * (pow2(recombine as nat) as int);
    let (fill2, b2, nb2, steps) = time_divide(fill1, b1, nb1, tf_change, 0);
    TfPlan { recombine: recombine as u32, time_divide: steps as u32, big_b: b2 as i32, n_b: nb2 as i32, fill: fill2 }
}


/// A nibble of a mask indexes the tables.
proof fn lemma_nibble(x: u32)
    ensures
        x & 0xF == x % 16,
        (x >> 4u32) & 0xF == (x / 16) % 16,
{
    lemma_low_bits_mask_values();
    lemma_u32_low_bits_mask_is_mod(x, 4);
    lemma_u32_shr_is_div(x, 4);
    lemma2_to64();
    lemma_u32_low_bits_mask_is_mod(x >> 4u32, 4);
}

/// Recombines `k` times with the table.
fn recombine_fill_exec(fill: u32, k: u32) -> (res: u32)
    ensures
        res == recombine_fill_n(fill, k as nat),
{
    let bi: [u32; 16] = [0, 1, 1, 1, 2, 3, 3, 3, 2, 3, 3, 3, 2, 3, 3, 3];
    proof {
        assert(bi@ =~= bit_interleave());
    }
    let mut f = fill;
    let mut j: u32 = 0;
    while j < k
        invariant
            j <= k,
            bi@ == bit_interleave(),
            f == recombine_fill_n(fill, j as nat),
        decreases k - j,
    {
        proof {
            lemma_nibble(f);
        }
        f = bi[(f & 0xF) as usize] | (bi[((f >> 4) & 0xF) as usize] << 2);
        j = j + 1;
    }
    f
}

/// Plans the reshaping of a band of `n` coefficients in `big_b` blocks with
/// fill mask `fill` for the time-frequency change `tf_change`.
pub fn tf_plan(n: i32, big_b: i32, tf_change: i32, fill: u32) -> (plan: TfPlan)
    requires
        1 <= big_b <= 16,
        0 <= n <= 0x10_0000,
        -4 <= tf_change <= 4,
        tf_change < 0 ==> big_b * pow2((-tf_change - 1) as nat) < 32,
    ensures
        plan == tf_plan_spec(n as int, big_b as int, tf_change as int, fill),
{
    let recombine: u32 = if tf_change > 0 {
        tf_change as u32
    } else {
        0
    };
    let fill1 = recombine_fill_exec(fill, recombine);
    proof {
        lemma2_to64();
        lemma_i32_shr_div(big_b, recombine);
        lemma_pow2_pos(recombine as nat);
        assert(n / big_b <= 0x10_0000) by {
            vstd::arithmetic::div_mod::lemma_div_is_ordered_by_denominator(n as int, 1, big_b as int);
        }
        if recombine < 4 {
            lemma_pow2_strictly_increases(recombine as nat, 4);
        }
        assert((n / big_b) * pow2(recombine as nat) <= 0x10_0000 * 16) by (nonlinear_arith)
            requires
                0 <= n / big_b <= 0x10_0000,
                0 < pow2(recombine as nat) <= 16,
        ;
    }
    let q = n / big_b;
    proof {
        lemma_i32_shl_mul(q, recombine);
    }
    let mut b = big_b >> recombine;
    let mut nb = q << recombine;
    let mut tf = tf_change;
    let mut f = fill1;
    let mut steps: u32 = 0;
    let ghost target = time_divide(fill1, b as int, nb as int, tf_change as int, 0);
    while nb % 2 == 0 && tf < 0
        invariant
            time_divide(f, b as int, nb as int, tf as int, steps as int) == target,
            -4 <= tf <= 4,
            0 <= nb <= 0x100_0000,
            0 <= b < 64,
            tf < 0 ==> b >= 1,
            steps == tf - tf_change,
            -4 <= tf_change,
            steps <= 4,
            tf < 0 ==> b * pow2((-tf - 1) as nat) < 32,
        decreases (if tf < 0 {
            -tf
        } else {
            0
        }),
    {
        proof {
            lemma2_to64();
            lemma_pow2_pos((-tf - 1) as nat);
            assert(b < 32) by (nonlinear_arith)
                requires
                    b * pow2((-tf - 1) as nat) < 32,
                    pow2((-tf - 1) as nat) >= 1,
                    b >= 1,
            ;
            if tf < -1 {
                lemma_pow2_adds((-tf - 2) as nat, 1);
                assert(pow2((-tf - 1) as nat) == pow2((-tf - 2) as nat) * 2);
                assert((b * 2) * pow2((-tf - 2) as nat) < 32) by (nonlinear_arith)
                    requires
                        b * (pow2((-tf - 2) as nat) * 2) < 32,
                ;
            }
        }
        f = f | (f << (b as u32));
        b = b * 2;
        nb = nb / 2;
        tf = tf + 1;
        steps = steps + 1;
    }
    TfPlan { recombine, time_divide: steps, big_b: b, n_b: nb, fill: f }
}

/// Undoes the time splits on the pulse mask: each merge of two halves keeps
/// a block wherever either half carried pulses.
pub open spec fn undo_time(cm: u32, b: int, steps: nat) -> u32
    decreases steps,
{
    if steps == 0 {
        cm
    } else {
        undo_time(cm | (cm >> ((b / 2) as u32)), b / 2, (steps - 1) as nat)
    }
}

/// Spreads the pulse mask back over the recombined blocks, `k` times.
pub open spec fn deinterleave_n(cm: u32, k: nat) -> u32
    decreases k,
{
    if k == 0 {
        cm
    } else {
        deinterleave_n(bit_deinterleave()[(cm & 0xF) as int], (k - 1) as nat)
    }
}

/// The band's pulse mask in its original blocks from the partition's mask
/// `cm` under `plan`, cut to the `big_b` original blocks.
pub open spec fn tf_unplan_spec(plan: TfPlan, cm: u32, big_b: int) -> u32 {
    let cm1 = undo_time(cm, plan.big_b as int, plan.time_divide as nat);
    let cm2 = deinterleave_n(cm1, plan.recombine as nat);
    cm2 & (((1u32 << (big_b as u32)) - 1) as u32)
}

/// Maps the partition's pulse mask back through the reshaping of `plan` to
/// the band's `big_b` original blocks.
pub fn tf_unplan(plan: &TfPlan, cm: u32, big_b: i32) -> (res: u32)
    requires
        1 <= big_b <= 16,
        0 <= plan.big_b < 64,
        plan.time_divide <= 4,
        plan.recombine <= 4,
    ensures
        res == tf_unplan_spec(*plan, cm, big_b as int),
{
    let bd: [u32; 16] = [
        0x00,
        0x03,
        0x0C,
        0x0F,
        0x30,
        0x33,
        0x3C,
        0x3F,
        0xC0,
        0xC3,
        0xCC,
        0xCF,
        0xF0,
        0xF3,
        0xFC,
        0xFF,
    ];
    proof {
        assert(bd@ =~= bit_deinterleave());
    }
    let mut c = cm;
    let mut b = plan.big_b;
    let mut k: u32 = 0;
    let ghost t1 = undo_time(cm, plan.big_b as int, plan.time_divide as nat);
    while k < plan.time_divide
        invariant
            k <= plan.time_divide,
            0 <= b < 64,
            undo_time(c, b as int, (plan.time_divide - k) as nat) == t1,
        decreases plan.time_divide - k,
    {
        b = b / 2;
        c = c | (c >> (b as u32));
        k = k + 1;
    }
    let mut j: u32 = 0;
    let ghost t2 = deinterleave_n(t1, plan.recombine as nat);
    while j < plan.recombine
        invariant
            j <= plan.recombine,
            bd@ == bit_deinterleave(),
            deinterleave_n(c, (plan.recombine - j) as nat) == t2,
        decreases plan.recombine - j,
    {
        proof {
            lemma_nibble(c);
        }
        c = bd[(c & 0xF) as usize];
        j = j + 1;
    }
    proof {
        lemma_pow2_pos(big_b as nat);
        lemma2_to64();
        lemma_pow2_strictly_increases(big_b as nat, 32);
        lemma_u32_shl_is_mul(1, big_b as u32);
    }
    c & ((1u32 << (big_b as u32)) - 1)
}

} // verus!
