//! The integer bookkeeping of the all-bands quantization pass: each band's
//! bit budget from the running balance, where the band folds its spectrum
//! from, and which blocks of the folded-from bands carried pulses.
use crate::theta::div_trunc;
use vstd::prelude::*;

verus! {

/// The budget (in eighth-bits) of band `i` of the `coded_bands` coded ones:
/// its allocation plus its share of the running balance (spread over at most
/// the next three coded bands), capped by what is left of the frame and by
/// 16383; zero past the coded bands.
pub open spec fn band_budget_spec(i: int, coded_bands: int, balance: int, remaining_bits: int, pulse: int) -> int {
    if i < coded_bands {
        let share = if coded_bands - i < 3 {
            coded_bands - i
        } else {
            3
        };
        let curr_balance = div_trunc(balance, share);
        let want = pulse + curr_balance;
        let capped = if remaining_bits + 1 < want {
            remaining_bits + 1
        } else {
            want
        };
        let capped = if 16383 < capped {
            16383
        } else {
            capped
        };
        if capped < 0 {
            0
        } else {
            capped
        }
    } else {
        0
    }
}

/// Band `i`'s budget from the running `balance`, the bits `remaining_bits`
/// left of the frame and its allocation `pulse`.
pub fn band_budget(i: usize, coded_bands: usize, balance: i32, remaining_bits: i32, pulse: i32) -> (b: i32)
    requires
        -0x4000_0000 <= balance <= 0x4000_0000,
        -0x4000_0000 <= remaining_bits <= 0x4000_0000,
        -0x2000_0000 <= pulse <= 0x2000_0000,
    ensures
        b == band_budget_spec(i as int, coded_bands as int, balance as int, remaining_bits as int, pulse as int),
        0 <= b <= 16383,
{
    if i < coded_bands {
        let share: i32 = if coded_bands - i < 3 {
            (coded_bands - i) as i32
        } else {
            3
        };
        let curr_balance = balance / share;
        proof {
            assert(curr_balance == div_trunc(balance as int, share as int));
            assert(-0x4000_0000 <= curr_balance <= 0x4000_0000) by (nonlinear_arith)
                requires
                    curr_balance == div_trunc(balance as int, share as int),
                    -0x4000_0000 <= balance <= 0x4000_0000,
                    1 <= share <= 3,
            ;
        }
        let want = pulse + curr_balance;
        let mut capped = if remaining_bits + 1 < want {
            remaining_bits + 1
        } else {
            want
        };
        if 16383 < capped {
            capped = 16383;
        }
        if capped < 0 {
            0
        } else {
            capped
        }
    } else {
        0
    }
}

/// The band the next bands fold from: band `i` becomes it while the pass
/// resynthesises, when the band's lower edge leaves a band's width of
/// spectrum below it (or it is the second band), and the folding position
/// still moves (or none is set yet).
pub open spec fn next_lowband_spec(
    resynth: bool,
    band_off: int,
    n: int,
    norm_offset: int,
    i: int,
    start: int,
    update_lowband: bool,
    lowband_offset: int,
) -> int {
    if resynth && (band_off - n >= norm_offset || i == start + 1) && (update_lowband || lowband_offset == 0) {
        i
    } else {
        lowband_offset
    }
}

/// Moves the folding position to band `i` where the rule above says so.
pub fn next_lowband(
    resynth: bool,
    band_off: i32,
    n: i32,
    norm_offset: i32,
    i: usize,
    start: usize,
    update_lowband: bool,
    lowband_offset: usize,
) -> (res: usize)
    requires
        0 <= n <= 0x10_0000,
        0 <= band_off <= 0x10_0000,
        start < usize::MAX,
    ensures
        res == next_lowband_spec(
            resynth,
            band_off as int,
            n as int,
            norm_offset as int,
            i as int,
            start as int,
            update_lowband,
            lowband_offset as int,
        ),
{
    if resynth && (band_off - n >= norm_offset || i == start + 1) && (update_lowband || lowband_offset == 0) {
        i
    } else {
        lowband_offset
    }
}

proof fn lemma_scaled_edge(m: i32, x: i16)
    requires
        1 <= m <= 8,
        0 <= x <= 0x2000,
    ensures
        0 <= m * x <= 0x1_0000,
{
    assert(0 <= m * x <= 0x1_0000) by (nonlinear_arith)
        requires
            1 <= m <= 8,
            0 <= x <= 0x2000,
    ;
}

/// Band edges that never decrease, scaled by `m` in range.
pub open spec fn edges_ok(e: Seq<i16>, last: int) -> bool {
    &&& last < e.len()
    &&& forall|j: int| 0 <= j <= last ==> 0 <= #[trigger] e[j] <= 0x2000
    &&& forall|a: int, b: int| 0 <= a <= b <= last ==> e[a] <= e[b]
}

/// The first band to fold from: going down from `j`, the first whose scaled
/// lower edge is at most `bound`.
pub open spec fn fold_down(e: Seq<i16>, m: int, j: int, bound: int) -> int
    decreases (if j > 0 {
        j
    } else {
        0
    }),
{
    if j <= 0 || m * e[j] <= bound {
        j
    } else {
        fold_down(e, m, j - 1, bound)
    }
}

/// One past the last band to fold from: going up from `j`, the first band at
/// `i` or whose scaled lower edge reaches `limit`.
pub open spec fn fold_up(e: Seq<i16>, m: int, j: int, i: int, limit: int) -> int
    decreases i - j,
{
    if j < i && m * e[j] < limit {
        fold_up(e, m, j + 1, i, limit)
    } else {
        j
    }
}

/// The collapse masks of bands `lo..hi` (channel `ch` of `c`) OR-ed together.
pub open spec fn or_masks(masks: Seq<u8>, c: int, ch: int, lo: int, hi: int) -> u32
    decreases hi - lo,
{
    if hi <= lo {
        0
    } else {
        or_masks(masks, c, ch, lo, hi - 1) | (masks[(hi - 1) * c + ch] as u32)
    }
}

/// Where band `i` (of `n` scaled coefficients) folds from, with the band the
/// folding position names at `lowband_offset`: the offset (from the start of
/// the folding buffer) of the `n` coefficients to fold, kept below the band
/// so no spectrum repeats within it, and the bands that overlap them.
pub open spec fn fold_range(e: Seq<i16>, m: int, norm_offset: int, lowband_offset: int, i: int, n: int) -> (int, int, int) {
    let lo = m * e[lowband_offset] - norm_offset - n;
    let eff = if lo < 0 {
        0
    } else {
        lo
    };
    let bound = eff + norm_offset;
    (eff, fold_down(e, m, lowband_offset - 1, bound), fold_up(e, m, lowband_offset, i, bound + n))
}

/// The folding source of band `i`: the offset of the coefficients it folds
/// from and the blocks of the bands they come from that carried pulses, for
/// the first and the last channel (`collapse_masks` holds `c` masks per
/// band). Returns `(effective_lowband, x_cm, y_cm)`.
pub fn fold_source(
    e_bands: &[i16],
    m: i32,
    start: usize,
    lowband_offset: usize,
    i: usize,
    n: i32,
    collapse_masks: &[u8],
    c: usize,
) -> (res: (i32, u32, u32))
    requires
        1 <= m <= 8,
        start < lowband_offset <= i,
        edges_ok(e_bands@, i as int + 1),
        n == m * (e_bands@[i + 1] - e_bands@[i as int]),
        1 <= c <= 2,
        collapse_masks@.len() >= i * c,
    ensures
        ({
            let (eff, lo, hi) = fold_range(
                e_bands@,
                m as int,
                m * e_bands@[start as int],
                lowband_offset as int,
                i as int,
                n as int,
            );
            &&& start <= lo < lowband_offset <= hi <= i
            &&& res == (
                eff as i32,
                or_masks(collapse_masks@, c as int, 0, lo, hi),
                or_masks(collapse_masks@, c as int, c - 1, lo, hi),
            )
        }),
{
    let ghost e = e_bands@;
    proof {
        lemma_scaled_edge(m, e[start as int]);
        lemma_scaled_edge(m, e[lowband_offset as int]);
        lemma_scaled_edge(m, e[i as int]);
        lemma_scaled_edge(m, e[i + 1]);
        assert(e[i as int] <= e[i + 1]);
        assert(0 <= n <= 0x1_0000) by (nonlinear_arith)
            requires
                n == m * (e[i + 1] - e[i as int]),
                1 <= m <= 8,
                0 <= e[i + 1] - e[i as int] <= 0x2000,
        ;
    }
    let norm_offset = m * e_bands[start] as i32;
    let lo = m * e_bands[lowband_offset] as i32 - norm_offset - n;
    let eff = if lo < 0 {
        0
    } else {
        lo
    };
    let bound = eff + norm_offset;
    let mut fold_start = lowband_offset - 1;
    proof {
        lemma_scaled_edge(m, e[fold_start as int]);
    }
    while !(m * e_bands[fold_start] as i32 <= bound)
        invariant
            start <= fold_start < lowband_offset <= i,
            edges_ok(e, i as int + 1),
            e == e_bands@,
            1 <= m <= 8,
            bound >= m * e[start as int],
            0 <= m * e[fold_start as int] <= 0x1_0000,
            fold_down(e, m as int, fold_start as int, bound as int) == fold_down(
                e,
                m as int,
                lowband_offset - 1,
                bound as int,
            ),
        decreases fold_start,
    {
        proof {
            if fold_start == start {
                assert(false);
            }
            lemma_scaled_edge(m, e[fold_start - 1]);
        }
        fold_start = fold_start - 1;
    }
    let mut fold_end = lowband_offset;
    proof {
        lemma_scaled_edge(m, e[fold_end as int]);
    }
    while fold_end < i && (m * e_bands[fold_end] as i32) < bound + n
        invariant
            lowband_offset <= fold_end <= i,
            0 <= m * e[fold_end as int] <= 0x1_0000,
            edges_ok(e, i as int + 1),
            e == e_bands@,
            1 <= m <= 8,
            0 <= n <= 0x1_0000,
            0 <= bound <= 0x1_0000,
            fold_up(e, m as int, fold_end as int, i as int, bound + n) == fold_up(
                e,
                m as int,
                lowband_offset as int,
                i as int,
                bound + n,
            ),
        decreases i - fold_end,
    {
        fold_end = fold_end + 1;
        proof {
            lemma_scaled_edge(m, e[fold_end as int]);
        }
    }
    let mut x_cm: u32 = 0;
    let mut y_cm: u32 = 0;
    let mut fold_i = fold_start;
    let len = collapse_masks.len();
    while fold_i < fold_end
        invariant
            fold_start <= fold_i <= fold_end <= i,
            len == collapse_masks@.len(),
            collapse_masks@.len() >= i * c,
            1 <= c <= 2,
            x_cm == or_masks(collapse_masks@, c as int, 0, fold_start as int, fold_i as int),
            y_cm == or_masks(collapse_masks@, c as int, c - 1, fold_start as int, fold_i as int),
        decreases fold_end - fold_i,
    {
        proof {
            assert(fold_i * c + c <= i * c) by (nonlinear_arith)
                requires
                    fold_i < i,
                    c >= 1,
            ;
        }
        x_cm = x_cm | collapse_masks[fold_i * c] as u32;
        y_cm = y_cm | collapse_masks[fold_i * c + c - 1] as u32;
        fold_i = fold_i + 1;
    }
    (eff, x_cm, y_cm)
}

} // verus!
