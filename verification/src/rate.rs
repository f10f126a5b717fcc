//! The CELT pulse-cost cache and the conversions between a band's bit budget
//! and its pulse count.
use crate::bits::{lemma_i32_shl_mul, lemma_i32_shr_div};
use crate::cwrs::{pvq_u, pvq_v, v, lemma_u_monotone, lemma_u_pos_row};
use crate::range_coder::{ec_ilog, ilog, lemma_ilog_bounds, lemma_ilog_unique};
use crate::theta::{BITRES, div_trunc};
use vstd::arithmetic::power2::*;
use vstd::bits::*;
use vstd::prelude::*;

verus! {

/// The largest pseudo-pulse index a band is cached for.
pub const MAX_PSEUDO: i32 = 40;

/// Number of bisection steps that cover every pseudo-pulse index.
pub const LOG_MAX_PSEUDO: i32 = 6;

const MAX_FINE_BITS: i32 = 8;

const FINE_OFFSET: i32 = 21;

const QTHETA_OFFSET: i32 = 4;

const QTHETA_OFFSET_TWOPHASE: i32 = 16;

/// The pulse count a pseudo-pulse index stands for: the index itself below 8,
/// then eight steps per octave.
pub open spec fn pulses_of(i: int) -> int {
    if i < 8 {
        i
    } else {
        (8 + i % 8) * pow2((i / 8 - 1) as nat)
    }
}

/// `get_pulses`: maps a pseudo-pulse index to the pulse count it codes (kept
/// to 32 bits, as a left shift of an `i32` does).
pub fn get_pulses(i: i32) -> (res: i32)
    requires
        i < 264,
    ensures
        res == pulses_of(i as int) as i32,
{
    if i < 8 {
        i
    } else {
        let m: u64 = (8 + i % 8) as u64;
        let s: u64 = (i / 8 - 1) as u64;
        proof {
            lemma2_to64();
            if s < 31 {
                lemma_pow2_strictly_increases(s as nat, 31);
            }
            assert(m * pow2(s as nat) <= 15 * 0x8000_0000) by (nonlinear_arith)
                requires
                    m <= 15,
                    pow2(s as nat) <= 0x8000_0000,
            ;
            lemma_u64_shl_is_mul(m, s);
        }
        (m << s) as i32
    }
}

/// The largest band size `n` whose codebook with `k` pulses (`k < 14`) fits in
/// 32 bits.
pub open spec fn max_n_for(k: int) -> int {
    seq![32767int, 32767, 32767, 1476, 283, 109, 60, 40, 29, 24, 20, 18, 16, 14, 13][k]
}

/// The largest pulse count `k` whose codebook for a band of size `n` (`n < 14`)
/// fits in 32 bits.
pub open spec fn max_k_for(n: int) -> int {
    seq![32767int, 32767, 32767, 32767, 1172, 238, 95, 53, 36, 27, 22, 18, 16, 15, 13][n]
}

/// Whether the PVQ codebook size `V(n, k)` is within the 32-bit range, by the
/// two threshold tables.
pub open spec fn fits_in32_spec(n: int, k: int) -> bool {
    if n >= 14 {
        k < 14 && n <= max_n_for(k)
    } else {
        k <= max_k_for(n)
    }
}

/// `fits_in32`: whether the PVQ codebook size `V(n, k)` fits in a 32-bit
/// unsigned integer (`n` and `k` are each limited to 15 bits).
fn fits_in32(n: i32, k: i32) -> (res: bool)
    requires
        n >= 0,
        k >= 0,
    ensures
        res == fits_in32_spec(n as int, k as int),
{
    let max_n: [i16; 15] = [32767, 32767, 32767, 1476, 283, 109, 60, 40, 29, 24, 20, 18, 16, 14, 13];
    let max_k: [i16; 15] = [
        32767,
        32767,
        32767,
        32767,
        1172,
        238,
        95,
        53,
        36,
        27,
        22,
        18,
        16,
        15,
        13,
    ];
    proof {
        assert(max_n@ == seq![32767i16, 32767, 32767, 1476, 283, 109, 60, 40, 29, 24, 20, 18, 16, 14, 13]);
        assert(max_k@ == seq![32767i16, 32767, 32767, 32767, 1172, 238, 95, 53, 36, 27, 22, 18, 16, 15, 13]);
    }
    if n >= 14 {
        if k >= 14 {
            false
        } else {
            n <= max_n[k as usize] as i32
        }
    } else {
        k <= max_k[n as usize] as i32
    }
}

/// One refinement step of `log2_frac` on a value renormalised to about 16
/// significant bits: fold a carried-out integer bit into the result at weight
/// `2^frac`, then square the value (rounded, Q15) to expose the next bit.
pub open spec fn log2_frac_refine(val: int, l: int, frac: int) -> (int, int)
    decreases frac,
{
    let b = val / 65536;
    let l2 = l + b * pow2(frac as nat);
    let v1 = if b >= 1 {
        (val + 1) / 2
    } else {
        val
    };
    let v2 = (v1 * v1 + 0x7FFF) / 32768;
    if frac <= 0 {
        (l2, v2)
    } else {
        log2_frac_refine(v2, l2, frac - 1)
    }
}

/// `log2(val)` with `frac` fractional bits, as `log2_frac` computes it: exact
/// on powers of two; otherwise the value is renormalised to 16 significant
/// bits (rounding up) and refined bit by bit, rounding the last bit up.
pub open spec fn log2_frac_spec(val: nat, frac: nat) -> int {
    let l = ilog(val);
    if val == pow2((l - 1) as nat) {
        (l - 1) * pow2(frac)
    } else {
        let v0 = if l > 16 {
            (val - 1) / (pow2((l - 16) as nat) as int) + 1
        } else {
            val * (pow2((16 - l) as nat) as int)
        };
        let r = log2_frac_refine(v0, (l - 1) * pow2(frac), frac as int);
        r.0 + if r.1 > 0x8000 {
            1int
        } else {
            0
        }
    }
}

/// `log2_frac`: `log2(val)` with `frac` bits of fractional precision (rounded
/// up). Defined for `val > 0`; the maximum overestimation is ~0.0625 bits.
pub fn log2_frac(val: u32, frac: i32) -> (res: i32)
    requires
        val > 0,
        0 <= frac <= 24,
    ensures
        res == log2_frac_spec(val as nat, frac as nat),
        res >= 0,
{
    let l = ec_ilog(val) as i32;
    proof {
        lemma_ilog_bounds(val as nat);
        lemma2_to64();
        lemma_pow2_pos(frac as nat);
        if frac < 24 {
            lemma_pow2_strictly_increases(frac as nat, 24);
        }
        if l - 1 < 31 {
            lemma_pow2_strictly_increases((l - 1) as nat, 31);
        }
        lemma_u32_shl_is_mul(1u32, (l - 1) as u32);
        assert(31 * pow2(frac as nat) <= 31 * 0x100_0000) by (nonlinear_arith)
            requires
                pow2(frac as nat) <= 0x100_0000,
        ;
        assert(0 <= (l - 1) * pow2(frac as nat) <= 31 * pow2(frac as nat)) by (nonlinear_arith)
            requires
                0 <= l - 1 <= 31,
                pow2(frac as nat) > 0,
        ;
        lemma_i32_shl_mul((l - 1) as i32, frac as u32);
    }
    let top: u32 = 1u32 << ((l - 1) as u32);
    if val != top {
        let mut v: u32;
        if l > 16 {
            proof {
                lemma_u32_shr_is_div((val - 1) as u32, (l - 16) as u32);
                lemma_pow2_pos((l - 16) as nat);
                lemma_pow2_adds((l - 16) as nat, 16);
                let d = pow2((l - 16) as nat) as int;
                let x = (val - 1) as int;
                vstd::arithmetic::div_mod::lemma_fundamental_div_mod(x, d);
                assert(x / d < 65536) by (nonlinear_arith)
                    requires
                        x < d * 65536,
                        d > 0,
                        x == d * (x / d) + x % d,
                        0 <= x % d,
                ;
            }
            v = ((val - 1) >> ((l - 16) as u32)) + 1;
        } else {
            proof {
                lemma_pow2_pos((16 - l) as nat);
                lemma_pow2_adds((16 - l) as nat, l as nat);
                assert(val * pow2((16 - l) as nat) < 65536) by (nonlinear_arith)
                    requires
                        val < pow2(l as nat),
                        pow2((16 - l) as nat) * pow2(l as nat) == 65536,
                        pow2((16 - l) as nat) > 0,
                ;
                lemma_u32_shl_is_mul(val, (16 - l) as u32);
            }
            v = val << ((16 - l) as u32);
        }
        let mut acc: i32 = (l - 1) << (frac as u32);
        let mut f: i32 = frac;
        let ghost target = log2_frac_refine(v as int, acc as int, frac as int);
        loop
            invariant_except_break
                0 <= f <= frac <= 24,
                v <= 131069,
                0 <= acc,
                acc + 2 * pow2(f as nat) <= 33 * pow2(frac as nat),
                pow2(frac as nat) <= 0x100_0000,
                log2_frac_refine(v as int, acc as int, f as int) == target,
            ensures
                (acc as int, v as int) == target,
                0 <= acc <= 33 * 0x100_0000,
            decreases f,
        {
            proof {
                lemma_u32_shr_is_div(v, 16);
                lemma2_to64();
                lemma_pow2_pos(f as nat);
                if f < frac {
                    lemma_pow2_strictly_increases(f as nat, frac as nat);
                }
            }
            let ghost v_old = v as int;
            let ghost acc_old = acc as int;
            let b: i32 = (v >> 16u32) as i32;
            proof {
                assert(b == v_old / 65536);
                assert(0 <= b * pow2(f as nat) <= pow2(f as nat)) by (nonlinear_arith)
                    requires
                        0 <= b <= 1,
                        pow2(f as nat) > 0,
                ;
                lemma_i32_shl_mul(b, f as u32);
                lemma_u32_shr_is_div((v + b as u32) as u32, b as u32);
            }
            acc += b << (f as u32);
            v = (v + b as u32) >> (b as u32);
            proof {
                if b >= 1 {
                    assert(v == (v_old + 1) / 2);
                } else {
                    assert(v == v_old / 1);
                    assert(v_old / 1 == v_old) by (nonlinear_arith);
                }
                assert(v * v + 0x7FFF <= 65535 * 65535 + 0x7FFF) by (nonlinear_arith)
                    requires
                        v <= 65535,
                ;
                lemma_u32_shr_is_div((v * v + 0x7FFF) as u32, 15);
            }
            v = (v * v + 0x7FFF) >> 15u32;
            proof {
                assert(log2_frac_refine(v_old, acc_old, f as int) == if f <= 0 {
                    (acc as int, v as int)
                } else {
                    log2_frac_refine(v as int, acc as int, f - 1)
                });
            }
            if f == 0 {
                break;
            }
            proof {
                lemma_pow2_adds((f - 1) as nat, 1);
            }
            f -= 1;
        }
        acc + if v > 0x8000 {
            1i32
        } else {
            0
        }
    } else {
        (l - 1) << (frac as u32)
    }
}

/// `get_required_bits`: bit cost (with `frac` fractional bits) of coding `k`
/// pulses in a size-`n` band, for `k` in `0..=maxk`.
fn get_required_bits(n: i32, maxk: i32, frac: i32) -> (bits: Vec<i32>)
    requires
        n >= 1,
        0 <= maxk <= 128,
        0 <= frac <= 24,
        forall|k: int| 1 <= k <= maxk ==> #[trigger] pvq_v(n as nat, k as nat) <= u32::MAX,
    ensures
        bits@.len() == maxk + 1,
        bits@[0] == 0,
        forall|k: int|
            1 <= k <= maxk ==> bits@[k] == log2_frac_spec(pvq_v(n as nat, k as nat), frac as nat),
        forall|k: int| 1 <= k <= maxk ==> bits@[k] >= 0,
{
    let mut bits = vec![0i32; (maxk + 1) as usize];
    let mut k: i32 = 1;
    while k <= maxk
        invariant
            1 <= k <= maxk + 1,
            n >= 1,
            0 <= maxk <= 128,
            0 <= frac <= 24,
            forall|kk: int| 1 <= kk <= maxk ==> #[trigger] pvq_v(n as nat, kk as nat) <= u32::MAX,
            bits@.len() == maxk + 1,
            bits@[0] == 0,
            forall|kk: int|
                1 <= kk < k ==> bits@[kk] == log2_frac_spec(
                    pvq_v(n as nat, kk as nat),
                    frac as nat,
                ),
            forall|kk: int| 1 <= kk < k ==> bits@[kk] >= 0,
        decreases maxk + 1 - k,
    {
        proof {
            lemma_u_monotone(n as nat, 1, n as nat, (k + 1) as nat);
            lemma_u_pos_row(n as nat);
        }
        let val = v(n as u32, k as u32);
        bits.set(k as usize, log2_frac(val, frac));
        k += 1;
    }
    bits
}

proof fn lemma_pulses_of_step(i: int)
    requires
        0 <= i < 40,
    ensures
        0 <= pulses_of(i) < pulses_of(i + 1),
{
    lemma2_to64();
    if i >= 8 {
        let o = (i / 8 - 1) as nat;
        let p = pow2(o);
        lemma_pow2_pos(o);
        if i % 8 == 7 {
            lemma_pow2_adds(o, 1);
            assert((i + 1) / 8 == i / 8 + 1 && (i + 1) % 8 == 0);
            assert(pulses_of(i + 1) == 8 * pow2(o + 1));
            assert(pulses_of(i) == 15 * p);
            assert(15 * p < 8 * (p * 2)) by (nonlinear_arith)
                requires
                    p > 0,
            ;
        } else {
            assert((i + 1) / 8 == i / 8 && (i + 1) % 8 == i % 8 + 1);
            assert(0 <= (8 + i % 8) * p < (8 + i % 8 + 1) * p) by (nonlinear_arith)
                requires
                    p > 0,
                    0 <= i % 8,
            ;
        }
    } else if i == 7 {
        assert(pulses_of(8) == 8 * pow2(0));
    }
}

/// Every pseudo-pulse index up to `MAX_PSEUDO` codes more pulses than the
/// one before it, and the largest codes 128.
pub proof fn lemma_pulses_of_increasing(a: int, b: int)
    requires
        0 <= a <= b <= 40,
    ensures
        0 <= pulses_of(a) <= pulses_of(b) <= 128,
        a < b ==> pulses_of(a) < pulses_of(b),
    decreases 40 - a,
{
    lemma2_to64();
    assert(40int / 8 == 5 && 40int % 8 == 0);
    assert(pulses_of(40) == 8 * pow2(4));
    if a < 40 {
        lemma_pulses_of_step(a);
        lemma_pulses_of_increasing(a + 1, 40);
        if a < b {
            lemma_pulses_of_increasing(a + 1, b);
        }
    }
}

/// Width of band `j` in shortest-MDCT bins.
pub open spec fn band_width(e: Seq<i16>, j: int) -> int {
    e[j + 1] - e[j]
}

/// The PVQ size of band `j` at cache row `k`: its width scaled by `2^k`, halved.
pub open spec fn cache_band_size(e: Seq<i16>, k: int, j: int) -> int {
    (band_width(e, j) * pow2(k as nat)) / 2
}

/// The band sizes in the order the cache visits them: band `j` of row `k`
/// stands at `k * nb + j`.
pub open spec fn cache_sizes(e: Seq<i16>, nb: int, rows: int) -> Seq<int> {
    Seq::new((nb * rows) as nat, |p: int| cache_band_size(e, p / nb, p % nb))
}

/// The first position in `q..p` whose size is `x`, or `p` if there is none.
pub open spec fn first_of(s: Seq<int>, x: int, q: int, p: int) -> int
    decreases p - q,
{
    if q >= p {
        p
    } else if s[q] == x {
        q
    } else {
        first_of(s, x, q + 1, p)
    }
}

/// Position `p` opens a cache slot: its size is nonzero and no earlier
/// position has the same size.
pub open spec fn opens_slot(s: Seq<int>, p: int) -> bool {
    s[p] != 0 && first_of(s, s[p], 0, p) == p
}

/// Counting up from `k`, the largest pseudo-pulse index (at most
/// `MAX_PSEUDO`) whose codebooks for band size `n` all fit in 32 bits.
pub open spec fn pseudo_count(n: int, k: int) -> int
    decreases 40 - k,
{
    if k < 40 && fits_in32_spec(n, pulses_of(k + 1)) {
        pseudo_count(n, k + 1)
    } else {
        k
    }
}

/// The largest pseudo-pulse index cached for band size `n`.
pub open spec fn max_pseudo(n: int) -> int {
    pseudo_count(n, 0)
}

/// Where the slot of position `p` would start: the total length of the slots
/// opened before `p`, each holding its count and one cost per pseudo-pulse.
pub open spec fn slot_start(s: Seq<int>, p: int) -> int
    decreases p,
{
    if p <= 0 {
        0
    } else {
        slot_start(s, p - 1) + if opens_slot(s, p - 1) {
            max_pseudo(s[p - 1]) + 1
        } else {
            0
        }
    }
}

/// The cache index of position `p`: `-1` for an empty band, else the slot of
/// the first position of the same size.
pub open spec fn index_spec(s: Seq<int>, p: int) -> int {
    if s[p] == 0 {
        -1
    } else {
        slot_start(s, first_of(s, s[p], 0, p))
    }
}

/// The cached cost (eighth-bits, less one, kept to a byte) of the pulse
/// count that pseudo-pulse index `j` stands for, in a size-`n` band.
pub open spec fn pulse_cost(n: int, j: int) -> int {
    ((log2_frac_spec(pvq_v(n as nat, pulses_of(j) as nat), 3) - 1) as u8) as int
}

/// Every codebook that the cache for band size `n` reads fits in 32 bits.
pub open spec fn codebooks_fit(n: int) -> bool {
    forall|k: int| 1 <= k <= pulses_of(max_pseudo(n)) ==> #[trigger] pvq_v(n as nat, k as nat) <= u32::MAX
}

/// The slot of position `p` (which opens one) holds its pseudo-pulse count
/// followed by the cost of each pseudo-pulse index.
pub open spec fn slot_holds(bits: Seq<u8>, s: Seq<int>, p: int) -> bool {
    let off = slot_start(s, p);
    let k = max_pseudo(s[p]);
    &&& off + k < bits.len()
    &&& bits[off] == k
    &&& forall|j: int| 1 <= j <= k ==> #[trigger] bits[off + j] == pulse_cost(s[p], j)
}

proof fn lemma_pseudo_count_bounds(n: int, k: int)
    requires
        0 <= k <= 40,
    ensures
        k <= pseudo_count(n, k) <= 40,
    decreases 40 - k,
{
    if k < 40 && fits_in32_spec(n, pulses_of(k + 1)) {
        lemma_pseudo_count_bounds(n, k + 1);
    }
}

proof fn lemma_slot_start_monotone(s: Seq<int>, a: int, b: int)
    requires
        0 <= a <= b,
    ensures
        slot_start(s, a) <= slot_start(s, b),
        a < b && opens_slot(s, a) ==> slot_start(s, a) + max_pseudo(s[a]) + 1 <= slot_start(s, b),
    decreases b - a,
{
    if a < b {
        lemma_slot_start_monotone(s, a, b - 1);
        lemma_pseudo_count_bounds(s[b - 1], 0);
    }
}

proof fn lemma_slot_start_bound(s: Seq<int>, p: int)
    requires
        0 <= p,
    ensures
        0 <= slot_start(s, p) <= 41 * p,
    decreases p,
{
    if p > 0 {
        lemma_slot_start_bound(s, p - 1);
        lemma_pseudo_count_bounds(s[p - 1], 0);
    }
}

/// A later position of the same size finds the same first occurrence.
proof fn lemma_first_of_shared(s: Seq<int>, x: int, q0: int, q: int, p: int)
    requires
        q0 <= q < p,
        s[q] == x,
    ensures
        first_of(s, x, q0, q) == first_of(s, x, q0, p),
    decreases q - q0,
{
    if q0 < q && s[q0] != x {
        lemma_first_of_shared(s, x, q0 + 1, q, p);
    }
}

/// With no position of size `x` in `q..p`, the search runs off the end.
proof fn lemma_first_of_none(s: Seq<int>, x: int, q: int, p: int)
    requires
        q <= p,
        forall|r: int| q <= r < p ==> s[r] != x,
    ensures
        first_of(s, x, q, p) == p,
    decreases p - q,
{
    if q < p {
        lemma_first_of_none(s, x, q + 1, p);
    }
}

/// The first occurrence lies at or before the position searched from.
proof fn lemma_first_of_range(s: Seq<int>, x: int, q: int, p: int)
    requires
        q <= p,
    ensures
        q <= first_of(s, x, q, p) <= p,
        first_of(s, x, q, p) < p ==> s[first_of(s, x, q, p)] == x,
    decreases p - q,
{
    if q < p && s[q] != x {
        lemma_first_of_range(s, x, q + 1, p);
    }
}

/// The PVQ size of band `j` at cache row `k`.
fn cache_band_size_exec(e_bands: &[i16], k: usize, j: usize) -> (n: i32)
    requires
        j + 1 < e_bands.len(),
        k <= 8,
        1 <= band_width(e_bands@, j as int) <= 64,
    ensures
        n == cache_band_size(e_bands@, k as int, j as int),
        0 <= n <= 8192,
{
    let w = e_bands[j + 1] as i32 - e_bands[j] as i32;
    proof {
        lemma2_to64();
        if k < 8 {
            lemma_pow2_strictly_increases(k as nat, 8);
        }
        assert(1 <= w * pow2(k as nat) <= 64 * 256) by (nonlinear_arith)
            requires
                1 <= w <= 64,
                1 <= pow2(k as nat) <= 256,
        ;
        lemma_i32_shl_mul(w, k as u32);
        lemma_i32_shr_div((w << (k as u32)) as i32, 1);
    }
    (w << (k as u32)) >> 1u32
}

proof fn lemma_row_major(i: int, j: int, nb: int)
    requires
        0 <= i,
        0 <= j < nb,
    ensures
        (i * nb + j) / nb == i,
        (i * nb + j) % nb == j,
{
    vstd::arithmetic::div_mod::lemma_fundamental_div_mod_converse(i * nb + j, nb, i, j);
}

/// Slots that end before `len` read the same from two byte strings that agree
/// below `len`.
proof fn lemma_slot_holds_prefix(a: Seq<u8>, b: Seq<u8>, s: Seq<int>, q: int, len: int)
    requires
        0 <= q,
        slot_holds(a, s, q),
        slot_start(s, q) + max_pseudo(s[q]) < len <= a.len(),
        len <= b.len(),
        forall|x: int| 0 <= x < len ==> a[x] == b[x],
    ensures
        slot_holds(b, s, q),
{
    let off = slot_start(s, q);
    let k = max_pseudo(s[q]);
    lemma_slot_start_bound(s, q);
    assert(b[off] == a[off]);
    assert forall|j: int| 1 <= j <= k implies #[trigger] b[off + j] == pulse_cost(s[q], j) by {
        assert(0 <= off + j < len);
        assert(a[off + j] == b[off + j]);
        assert(a[off + j] == pulse_cost(s[q], j));
    }
}

/// The cache layout shared by the pulse-cost cache's builder and its readers.
pub open spec fn cache_layout_ok(e: Seq<i16>, nb: int, lm: int) -> bool {
    &&& e.len() == nb + 1
    &&& 0 <= lm <= 6
    &&& nb * (lm + 2) <= usize::MAX
    &&& forall|j: int| 0 <= j < nb ==> 1 <= #[trigger] band_width(e, j) <= 64
}

/// What building the cache needs of the band sizes it visits: each codebook it
/// reads fits in 32 bits, and all slots fit in a 16-bit index.
pub open spec fn cache_sizes_ok(s: Seq<int>) -> bool {
    &&& forall|p: int| 0 <= p < s.len() ==> codebooks_fit(#[trigger] s[p])
    &&& slot_start(s, s.len() as int) <= 32768
}

/// Fills the cache index and the shared slots: each position reuses the slot
/// of an earlier band of the same size, or opens a new one holding its
/// pseudo-pulse count and the cost of each pseudo-pulse index.
fn fill_cache_slots(e_bands: &[i16], nb: usize, lm: i32) -> (res: (Vec<i16>, Vec<u8>))
    requires
        cache_layout_ok(e_bands@, nb as int, lm as int),
        cache_sizes_ok(cache_sizes(e_bands@, nb as int, lm + 2)),
    ensures
        ({
            let s = cache_sizes(e_bands@, nb as int, lm + 2);
            let (index, bits) = res;
            &&& index@.len() == s.len()
            &&& forall|p: int| 0 <= p < s.len() ==> index@[p] == index_spec(s, p)
            &&& bits@.len() == slot_start(s, s.len() as int)
            &&& forall|p: int| 0 <= p < s.len() && opens_slot(s, p) ==> slot_holds(bits@, s, p)
        }),
{
    let rows = (lm + 2) as usize;
    let ghost s = cache_sizes(e_bands@, nb as int, lm + 2);
    let ghost m = s.len() as int;
    let mut index = vec![-1i16; nb * rows];
    let mut bits: Vec<u8> = Vec::new();
    let mut curr: i32 = 0;
    let mut i: usize = 0;
    while i < rows
        invariant
            cache_layout_ok(e_bands@, nb as int, lm as int),
            cache_sizes_ok(s),
            s == cache_sizes(e_bands@, nb as int, lm + 2),
            m == s.len(),
            rows == lm + 2,
            m == nb * rows,
            0 <= i <= rows,
            index@.len() == m,
            forall|q: int| 0 <= q < i * nb ==> index@[q] == index_spec(s, q),
            curr == slot_start(s, i * nb),
            bits@.len() == curr,
            forall|q: int| 0 <= q < i * nb && opens_slot(s, q) ==> slot_holds(bits@, s, q),
        decreases rows - i,
    {
        let mut j: usize = 0;
        while j < nb
            invariant
                cache_layout_ok(e_bands@, nb as int, lm as int),
                cache_sizes_ok(s),
                s == cache_sizes(e_bands@, nb as int, lm + 2),
                m == s.len(),
                rows == lm + 2,
                m == nb * rows,
                0 <= i < rows,
                0 <= j <= nb,
                index@.len() == m,
                forall|q: int| 0 <= q < i * nb + j ==> index@[q] == index_spec(s, q),
                curr == slot_start(s, i * nb + j),
                bits@.len() == curr,
                forall|q: int|
                    0 <= q < i * nb + j && opens_slot(s, q) ==> slot_holds(bits@, s, q),
            decreases nb - j,
        {
            let ghost p = i * nb + j;
            proof {
                lemma_row_major(i as int, j as int, nb as int);
                assert(i * nb + j < m) by (nonlinear_arith)
                    requires
                        i < rows,
                        j < nb,
                        m == nb * rows,
                ;
            }
            let pos = i * nb + j;
            let n = cache_band_size_exec(e_bands, i, j);
            assert(s[p] == n);
            index.set(pos, -1);
            let mut k: usize = 0;
            while k <= i
                invariant
                    cache_layout_ok(e_bands@, nb as int, lm as int),
                    s == cache_sizes(e_bands@, nb as int, lm + 2),
                    m == s.len(),
                    m == nb * rows,
                    rows == lm + 2,
                    0 <= i < rows,
                    0 <= j < nb,
                    pos == p,
                    p == i * nb + j,
                    p < m,
                    s[p] == n,
                    0 <= k <= i + 1,
                    index@.len() == m,
                    forall|q: int| 0 <= q < p ==> index@[q] == index_spec(s, q),
                    k <= i ==> (index@[p] == -1 && forall|q: int| 0 <= q < k * nb ==> s[q] != n)
                        || (index@[p] == index_spec(s, p) && first_of(s, n as int, 0, p) < p),
                    k == i + 1 ==> (index@[p] == -1 && forall|q: int| 0 <= q < p ==> s[q] != n)
                        || (index@[p] == index_spec(s, p) && first_of(s, n as int, 0, p) < p),
                decreases i + 1 - k,
            {
                let n_max = if k != i {
                    nb
                } else {
                    j
                };
                let mut nn: usize = 0;
                while nn < n_max
                    invariant_except_break
                        cache_layout_ok(e_bands@, nb as int, lm as int),
                        s == cache_sizes(e_bands@, nb as int, lm + 2),
                        m == s.len(),
                        m == nb * rows,
                        rows == lm + 2,
                        0 <= i < rows,
                        0 <= j < nb,
                        0 <= k <= i,
                        n_max == if k != i { nb } else { j },
                        pos == p,
                        p == i * nb + j,
                        p < m,
                        s[p] == n,
                        0 <= nn <= n_max,
                        index@.len() == m,
                        forall|q: int| 0 <= q < p ==> index@[q] == index_spec(s, q),
                        (index@[p] == -1 && forall|q: int| 0 <= q < k * nb + nn ==> s[q] != n)
                            || (index@[p] == index_spec(s, p) && first_of(s, n as int, 0, p) < p),
                    ensures
                        cache_layout_ok(e_bands@, nb as int, lm as int),
                        s == cache_sizes(e_bands@, nb as int, lm + 2),
                        index@.len() == m,
                        forall|q: int| 0 <= q < p ==> index@[q] == index_spec(s, q),
                        (index@[p] == -1 && forall|q: int| 0 <= q < k * nb + n_max ==> s[q] != n)
                            || (index@[p] == index_spec(s, p) && first_of(s, n as int, 0, p) < p),
                    decreases n_max - nn,
                {
                    let ghost q0 = k * nb + nn;
                    proof {
                        lemma_row_major(k as int, nn as int, nb as int);
                        if k < i {
                            assert(k * nb + nn < i * nb) by (nonlinear_arith)
                                requires
                                    k < i,
                                    nn < nb,
                            ;
                        }
                    }
                    if n == cache_band_size_exec(e_bands, k, nn) {
                        let qpos = k * nb + nn;
                        assert(s[q0] == n);
                        proof {
                            lemma_first_of_shared(s, n as int, 0, q0, p);
                            lemma_first_of_range(s, n as int, 0, q0);
                            assert(index_spec(s, q0) == index_spec(s, p));
                        }
                        let found = index[qpos];
                        index.set(pos, found);
                        assert(index@[p] == index_spec(s, p));
                        break;
                    }
                    nn += 1;
                }
                proof {
                    if k < i {
                        assert(k * nb + nb == (k + 1) * nb) by (nonlinear_arith);
                    }
                }
                k += 1;
            }
            if index[pos] == -1 && n != 0 {
                proof {
                    lemma_first_of_range(s, n as int, 0, p);
                    lemma_slot_start_bound(s, first_of(s, n as int, 0, p));
                    lemma_first_of_none(s, n as int, 0, p);
                    lemma_slot_start_monotone(s, p, m);
                    lemma_pseudo_count_bounds(n as int, 0);
                }
                let mut big_k: i32 = 0;
                loop
                    invariant_except_break
                        0 <= big_k <= 40,
                        n >= 1,
                        pseudo_count(n as int, big_k as int) == max_pseudo(n as int),
                    ensures
                        0 <= big_k <= 40,
                        big_k == max_pseudo(n as int),
                    decreases 40 - big_k,
                {
                    if big_k >= MAX_PSEUDO {
                        break;
                    }
                    proof {
                        lemma_pulses_of_increasing(0, big_k + 1);
                    }
                    let g = get_pulses(big_k + 1);
                    if !fits_in32(n, g) {
                        break;
                    }
                    big_k += 1;
                }
                proof {
                    lemma_pulses_of_increasing(0, big_k as int);
                    assert(codebooks_fit(s[p]));
                }
                let tmp = get_required_bits(n, get_pulses(big_k), BITRES);
                let ghost old_bits = bits@;
                bits.push(big_k as u8);
                let mut jj: i32 = 1;
                while jj <= big_k
                    invariant
                        1 <= jj <= big_k + 1,
                        0 <= big_k <= 40,
                        big_k == max_pseudo(n as int),
                        n >= 1,
                        tmp@.len() == pulses_of(big_k as int) + 1,
                        forall|kk: int|
                            1 <= kk <= pulses_of(big_k as int) ==> tmp@[kk] == log2_frac_spec(
                                pvq_v(n as nat, kk as nat),
                                3,
                            ),
                        forall|kk: int| 1 <= kk <= pulses_of(big_k as int) ==> tmp@[kk] >= 0,
                        bits@.len() == old_bits.len() + jj,
                        bits@[old_bits.len() as int] == big_k,
                        forall|x: int| 0 <= x < old_bits.len() ==> bits@[x] == old_bits[x],
                        forall|t: int|
                            1 <= t < jj ==> #[trigger] bits@[old_bits.len() + t] == pulse_cost(
                                n as int,
                                t,
                            ),
                    decreases big_k + 1 - jj,
                {
                    proof {
                        lemma_pulses_of_increasing(1, jj as int);
                        lemma_pulses_of_increasing(jj as int, big_k as int);
                        lemma_pulses_of_increasing(0, 1);
                    }
                    let pj = get_pulses(jj);
                    bits.push(#[verifier::truncate] ((tmp[pj as usize] - 1) as u8));
                    jj += 1;
                }
                proof {
                    assert forall|q: int| 0 <= q < p && opens_slot(s, q) implies slot_holds(
                        bits@,
                        s,
                        q,
                    ) by {
                        lemma_slot_start_monotone(s, q, p);
                        lemma_slot_holds_prefix(old_bits, bits@, s, q, old_bits.len() as int);
                    }
                    assert(opens_slot(s, p));
                    assert(slot_holds(bits@, s, p));
                }
                index.set(pos, curr as i16);
                curr += big_k + 1;
            } else {
                proof {
                    lemma_first_of_range(s, n as int, 0, p);
                    lemma_slot_start_bound(s, first_of(s, n as int, 0, p));
                    assert(!opens_slot(s, p));
                }
            }
            proof {
                assert(slot_start(s, p + 1) == curr);
            }
            j += 1;
        }
        proof {
            assert(i * nb + nb == (i + 1) * nb) by (nonlinear_arith);
        }
        i += 1;
    }
    proof {
        assert(rows * nb == m) by (nonlinear_arith)
            requires
                m == nb * rows,
        ;
    }
    (index, bits)
}

/// The smaller of two integers.
pub open spec fn min_int(a: int, b: int) -> int {
    if a <= b {
        a
    } else {
        b
    }
}

/// One mono split of a size-`n` band: the bits of both halves (`mb` each)
/// plus the theta cost, averaged at 459/512 of `qb` and capped at 57.
pub open spec fn mono_split(mb: int, n: int, offset: int) -> int {
    let mb2 = 2 * mb;
    let den = (2 * n - 1) * 512 - 459;
    mb2 + min_int(div_trunc(459 * ((2 * n - 1) * offset + mb2) + den / 2, den), 57)
}

/// The mono splits `k..count` that take a band of size `n` back up to its
/// full size, with the band's `log_n` and lowest split level `lm0`; yields
/// the bits and the final size.
pub open spec fn mono_splits(mb: int, n: int, log_n: int, lm0: int, k: int, count: int) -> (int, int)
    decreases count - k,
{
    if k >= count {
        (mb, n)
    } else {
        let offset = (log_n + (lm0 + k) * 8) / 2 - 4;
        mono_splits(mono_split(mb, n, offset), 2 * n, log_n, lm0, k + 1, count)
    }
}

/// The stereo split of a size-`n` band at time split `i`: both channels' bits
/// plus the theta cost (487/512 of `qb`, or the two-phase cost for `n == 2`).
pub open spec fn stereo_split(mb: int, n: int, log_n: int, i: int) -> int {
    let two = n == 2;
    let offset = (log_n + i * 8) / 2 - if two {
        16int
    } else {
        4
    };
    let ndof = 2 * n - 1 - if two {
        1int
    } else {
        0
    };
    let p = if two {
        512int
    } else {
        487
    };
    let mb2 = 2 * mb;
    let den = ndof * 512 - p;
    mb2 + min_int(
        div_trunc(p * (mb2 + ndof * offset) + den / 2, den),
        if two {
            64int
        } else {
            61
        },
    )
}

/// Adds the fine-energy bits of a size-`n` band with `cc` channels.
pub open spec fn fine_bits(mb: int, n: int, log_n: int, i: int, cc: int) -> int {
    let ndof = cc * n + if cc == 2 && n > 2 {
        1int
    } else {
        0
    };
    let offset = (log_n + i * 8) / 2 - 21 + if n == 2 {
        2int
    } else {
        0
    };
    let den = (ndof - 1) * 8;
    mb + cc * min_int(div_trunc(mb + ndof * offset + den / 2, den), 8) * 8
}

/// The cost read for the largest cached pulse count of band size `n`, plus
/// one (a slot with no pseudo-pulses reads its own count).
pub open spec fn top_cost(n: int) -> int {
    (if max_pseudo(n) == 0 {
        0
    } else {
        pulse_cost(n, max_pseudo(n))
    }) + 1
}

/// The lowest split level of band `j` at time split `i`: bands wider than two
/// bins are split once more, single-bin bands are taken to two bins.
pub open spec fn lowest_split(w: int, i: int) -> int {
    if w > 2 {
        -1
    } else if w <= 1 {
        min_int(i, 1)
    } else {
        0
    }
}

/// The band size at the lowest split level.
pub open spec fn lowest_size(w: int, i: int) -> int {
    if w > 2 {
        w / 2
    } else if w <= 1 {
        w * pow2(min_int(i, 1) as nat)
    } else {
        w
    }
}

/// The maximum bits (eighth-bits) band `j` reliably uses at time split `i`
/// with `cc` channels, before it is scaled per coefficient.
pub open spec fn band_max_bits(e: Seq<i16>, log_n: Seq<i16>, i: int, cc: int, j: int) -> int {
    let w = band_width(e, j);
    if w * pow2(i as nat) == 1 {
        cc * 9 * 8
    } else {
        let lm0 = lowest_split(w, i);
        let r = mono_splits(
            top_cost(cache_band_size(e, lm0 + 1, j)),
            lowest_size(w, i),
            log_n[j] as int,
            lm0,
            0,
            i - lm0,
        );
        let mb = if cc == 2 {
            stereo_split(r.0, r.1, log_n[j] as int, i)
        } else {
            r.0
        };
        fine_bits(mb, r.1, log_n[j] as int, i, cc)
    }
}

/// The rate cap of band `j` at time split `i` with `cc` channels: the maximum
/// bits per coefficient (in 1/32 bit) less 64, kept to a byte.
pub open spec fn cap_spec(e: Seq<i16>, log_n: Seq<i16>, i: int, cc: int, j: int) -> int {
    ((div_trunc(4 * band_max_bits(e, log_n, i, cc, j), cc * (band_width(e, j) * pow2(i as nat))) - 64) as u8) as int
}

proof fn lemma_div_trunc_bound(x: int, d: int, k: int)
    requires
        d > 0,
        k >= 0,
        -k * d <= x <= k * d,
    ensures
        -k <= div_trunc(x, d) <= k,
{
    assert(-k * d == -(k * d)) by (nonlinear_arith);
    if x >= 0 {
        vstd::arithmetic::div_mod::lemma_div_is_ordered(x, k * d, d);
        vstd::arithmetic::div_mod::lemma_div_by_multiple(k, d);
    } else {
        vstd::arithmetic::div_mod::lemma_div_is_ordered(-x, k * d, d);
        vstd::arithmetic::div_mod::lemma_div_by_multiple(k, d);
    }
}

/// One mono split, computed in 64 bits.
fn mono_split_exec(mb: i64, n: i64, offset: i64, Ghost(m): Ghost<int>) -> (res: i64)
    requires
        1 <= n <= 8192,
        -20000 <= offset <= 20000,
        0 <= m <= 0x10_0000_0000_0000,
        -m <= mb <= m,
    ensures
        res == mono_split(mb as int, n as int, offset as int),
        -(20 * m + 200000) <= res <= 20 * m + 200000,
{
    let mb2 = 2 * mb;
    let a = 2 * n - 1;
    let den = a * 512 - 459;
    proof {
        assert(-20000 * 16383 <= a * offset <= 20000 * 16383) by (nonlinear_arith)
            requires
                1 <= a <= 16383,
                -20000 <= offset <= 20000,
        ;
    }
    let num = 459 * (a * offset + mb2);
    let x = num + den / 2;
    proof {
        let k = 9 * 20000 + 18 * m + 1;
        assert(-k * den <= x <= k * den) by (nonlinear_arith)
            requires
                1 <= a,
                den == a * 512 - 459,
                x == 459 * (a * offset + 2 * mb) + den / 2,
                -20000 <= offset <= 20000,
                -m <= mb <= m,
                0 <= m,
                k == 9 * 20000 + 18 * m + 1,
                den > 0,
        ;
        lemma_div_trunc_bound(x as int, den as int, k);
    }
    let qb = x / den;
    let qb = if qb < 57 {
        qb
    } else {
        57
    };
    mb2 + qb
}

/// The stereo split, computed in 64 bits.
fn stereo_split_exec(mb: i64, n: i64, log_n: i16, i: i64) -> (res: i64)
    requires
        2 <= n <= 8192,
        0 <= i <= 6,
        -0x4_0000_0000_0000 <= mb <= 0x4_0000_0000_0000,
    ensures
        res == stereo_split(mb as int, n as int, log_n as int, i as int),
        -0x20_0000_0000_0000 <= res <= 0x20_0000_0000_0000,
{
    let two = n == 2;
    let t: i32 = log_n as i32 + (i as i32) * 8;
    proof {
        lemma_i32_shr_div(t, 1);
        lemma2_to64();
    }
    let offset: i64 = (t >> 1u32) as i64 - if two {
        16
    } else {
        4
    };
    let ndof: i64 = 2 * n - 1 - if two {
        1
    } else {
        0
    };
    let p: i64 = if two {
        512
    } else {
        487
    };
    let mb2 = 2 * mb;
    let den = ndof * 512 - p;
    proof {
        assert(-20000 * 16383 <= ndof * offset <= 20000 * 16383) by (nonlinear_arith)
            requires
                2 <= ndof <= 16383,
                -20000 <= offset <= 20000,
        ;
    }
    let x = p * (mb2 + ndof * offset) + den / 2;
    proof {
        let m = 0x4_0000_0000_0000int;
        let k = 2 * 20000 + 2 * m + 1;
        assert(-k * den <= x <= k * den) by (nonlinear_arith)
            requires
                2 <= ndof,
                487 <= p <= 512,
                den == ndof * 512 - p,
                x == p * (2 * mb + ndof * offset) + den / 2,
                -20000 <= offset <= 20000,
                -m <= mb <= m,
                m > 0,
                k == 2 * 20000 + 2 * m + 1,
                den > 0,
        ;
        lemma_div_trunc_bound(x as int, den as int, k);
    }
    let qb = x / den;
    let cap: i64 = if two {
        64
    } else {
        61
    };
    let qb = if qb < cap {
        qb
    } else {
        cap
    };
    mb2 + qb
}

/// The fine-energy bits, computed in 64 bits.
fn fine_bits_exec(mb: i64, n: i64, log_n: i16, i: i64, cc: i64) -> (res: i64)
    requires
        2 <= n <= 8192,
        0 <= i <= 6,
        1 <= cc <= 2,
        -0x20_0000_0000_0000 <= mb <= 0x20_0000_0000_0000,
    ensures
        res == fine_bits(mb as int, n as int, log_n as int, i as int, cc as int),
        -0x400_0000_0000_0000 <= res <= 0x400_0000_0000_0000,
{
    let ndof: i64 = cc * n + if cc == 2 && n > 2 {
        1
    } else {
        0
    };
    let t: i32 = log_n as i32 + (i as i32) * 8;
    proof {
        lemma_i32_shr_div(t, 1);
        lemma2_to64();
    }
    let offset: i64 = (t >> 1u32) as i64 - 21 + if n == 2 {
        2
    } else {
        0
    };
    let den = (ndof - 1) * 8;
    proof {
        assert(-20000 * 16385 <= ndof * offset <= 20000 * 16385) by (nonlinear_arith)
            requires
                2 <= ndof <= 16385,
                -20000 <= offset <= 20000,
        ;
    }
    let x = mb + ndof * offset + den / 2;
    proof {
        let k = 0x20_0000_0000_0000int + 20000 * 16385 + 16385 * 8;
        assert(-k * den <= x <= k * den) by (nonlinear_arith)
            requires
                den >= 8,
                x - den / 2 <= 0x20_0000_0000_0000 + 20000 * 16385,
                x - den / 2 >= -0x20_0000_0000_0000 - 20000 * 16385,
                den <= 16385 * 8,
                k == 0x20_0000_0000_0000int + 20000 * 16385 + 16385 * 8,
        ;
        lemma_div_trunc_bound(x as int, den as int, k);
    }
    let qb = x / den;
    let qb = if qb < 8 {
        qb
    } else {
        8
    };
    mb + cc * qb * 8
}

/// A nonzero size finds a first occurrence that opens a slot, and the index
/// of any position of that size is the start of that slot.
proof fn lemma_first_of_opens(s: Seq<int>, p: int)
    requires
        0 <= p < s.len(),
        s[p] != 0,
    ensures
        0 <= first_of(s, s[p], 0, p) <= p,
        s[first_of(s, s[p], 0, p)] == s[p],
        opens_slot(s, first_of(s, s[p], 0, p)),
        index_spec(s, p) == slot_start(s, first_of(s, s[p], 0, p)),
{
    let f = first_of(s, s[p], 0, p);
    lemma_first_of_range(s, s[p], 0, p);
    lemma_first_of_before(s, s[p], 0, p);
    lemma_first_of_none(s, s[p], 0, f);
}

/// No position before the first occurrence has the size searched for.
proof fn lemma_first_of_before(s: Seq<int>, x: int, q: int, p: int)
    requires
        q <= p,
    ensures
        forall|r: int| q <= r < first_of(s, x, q, p) ==> s[r] != x,
    decreases p - q,
{
    if q < p && s[q] != x {
        lemma_first_of_before(s, x, q + 1, p);
    }
}

/// The cost of the largest cached pulse count of band `j` at cache row
/// `row`, plus one, read from the filled cache.
fn read_top_cost(
    e_bands: &[i16],
    nb: usize,
    lm: i32,
    index: &Vec<i16>,
    bits: &Vec<u8>,
    row: usize,
    j: usize,
) -> (top: i64)
    requires
        cache_layout_ok(e_bands@, nb as int, lm as int),
        row <= lm + 1,
        j < nb,
        cache_band_size(e_bands@, row as int, j as int) >= 1,
        ({
            let s = cache_sizes(e_bands@, nb as int, lm + 2);
            &&& index@.len() == s.len()
            &&& forall|p: int| 0 <= p < s.len() ==> index@[p] == index_spec(s, p)
            &&& forall|p: int| 0 <= p < s.len() && opens_slot(s, p) ==> slot_holds(bits@, s, p)
        }),
    ensures
        top == top_cost(cache_band_size(e_bands@, row as int, j as int)),
        1 <= top <= 256,
{
    let ghost s = cache_sizes(e_bands@, nb as int, lm + 2);
    let ghost pos = row * nb + j;
    proof {
        lemma_row_major(row as int, j as int, nb as int);
        assert(pos < s.len()) by (nonlinear_arith)
            requires
                row <= lm + 1,
                j < nb,
                pos == row * nb + j,
                s.len() == nb * (lm + 2),
        ;
        assert(s[pos] == cache_band_size(e_bands@, row as int, j as int));
        lemma_first_of_opens(s, pos);
    }
    let off = index[row * nb + j] as usize;
    let ghost f = first_of(s, s[pos], 0, pos);
    proof {
        lemma_slot_start_bound(s, f);
        assert(slot_holds(bits@, s, f));
        lemma_pseudo_count_bounds(s[pos], 0);
    }
    let kk = bits[off] as usize;
    let top = bits[off + kk] as i64 + 1;
    proof {
        if kk >= 1 {
            assert(bits@[off + kk] == pulse_cost(s[f], kk as int));
        }
    }
    top
}

/// The mono splits of band `j` from its lowest split level back up to time
/// split `lm0 + count`, computed in 64 bits.
fn mono_splits_exec(top: i64, n0: i64, log_n: i16, lm0: i32, count: i32) -> (res: (i64, i64))
    requires
        1 <= top <= 256,
        1 <= n0 <= 64,
        -1 <= lm0 <= 1,
        0 <= count <= 7,
        lm0 + count <= 6,
        lm0 == -1 ==> count >= 1,
        lm0 != -1 ==> n0 >= 2,
    ensures
        (res.0 as int, res.1 as int) == mono_splits(top as int, n0 as int, log_n as int, lm0 as int, 0, count as int),
        2 <= res.1 <= 8192,
        -0x4_0000_0000_0000 <= res.0 <= 0x4_0000_0000_0000,
{
    let mut mb: i64 = top;
    let mut n: i64 = n0;
    let mut k: i32 = 0;
    let ghost target = mono_splits(top as int, n0 as int, log_n as int, lm0 as int, 0, count as int);
    let ghost mut m: int = 256;
    proof {
        lemma_pow2_pos(15);
        lemma2_to64();
    }
    while k < count
        invariant
            0 <= k <= count,
            -1 <= lm0 <= 1,
            0 <= count <= 7,
            lm0 + count <= 6,
            lm0 == -1 ==> count >= 1,
            1 <= n <= 64 * pow2(k as nat),
            k >= 1 ==> n >= 2,
            lm0 != -1 ==> n >= 2,
            0 <= m <= pow2((15 + 5 * k) as nat),
            -m <= mb <= m,
            mono_splits(mb as int, n as int, log_n as int, lm0 as int, k as int, count as int) == target,
        decreases count - k,
    {
        let t: i32 = log_n as i32 + (lm0 + k) * 8;
        proof {
            lemma_i32_shr_div(t, 1);
            lemma2_to64();
            lemma2_to64_rest();
            if k < 7 {
                lemma_pow2_strictly_increases(k as nat, 7);
            }
            lemma_pow2_adds(k as nat, 1);
            if 15 + 5 * k < 50 {
                lemma_pow2_strictly_increases((15 + 5 * k) as nat, 50);
            }
            lemma_pow2_adds((15 + 5 * k) as nat, 5);
            if k > 0 {
                lemma_pow2_strictly_increases(15, (15 + 5 * k) as nat);
            }
        }
        let offset: i64 = (t >> 1u32) as i64 - 4;
        let ghost m2 = 20 * m + 200000;
        mb = mono_split_exec(mb, n, offset, Ghost(m));
        proof {
            m = m2;
        }
        n = 2 * n;
        k += 1;
    }
    proof {
        lemma2_to64();
        lemma2_to64_rest();
        if 15 + 5 * k < 50 {
            lemma_pow2_strictly_increases((15 + 5 * k) as nat, 50);
        }
        if k < 7 {
            lemma_pow2_strictly_increases(k as nat, 7);
        }
    }
    (mb, n)
}

/// The rate cap of band `j` at time split `i` with `cc` channels, read
/// against the filled cache.
fn cap_entry(
    e_bands: &[i16],
    log_n: &[i16],
    nb: usize,
    lm: i32,
    index: &Vec<i16>,
    bits: &Vec<u8>,
    i: i32,
    cc: i32,
    j: usize,
) -> (res: u8)
    requires
        cache_layout_ok(e_bands@, nb as int, lm as int),
        log_n.len() >= nb,
        0 <= i <= lm,
        1 <= cc <= 2,
        j < nb,
        ({
            let s = cache_sizes(e_bands@, nb as int, lm + 2);
            &&& index@.len() == s.len()
            &&& forall|p: int| 0 <= p < s.len() ==> index@[p] == index_spec(s, p)
            &&& forall|p: int| 0 <= p < s.len() && opens_slot(s, p) ==> slot_holds(bits@, s, p)
        }),
    ensures
        res == cap_spec(e_bands@, log_n@, i as int, cc as int, j as int),
{
    let w: i64 = e_bands[j + 1] as i64 - e_bands[j] as i64;
    assert(w == band_width(e_bands@, j as int));
    proof {
        lemma2_to64();
        lemma_pow2_pos(i as nat);
        if i < 6 {
            lemma_pow2_strictly_increases(i as nat, 6);
        }
        lemma_u64_shl_is_mul(1u64, i as u64);
    }
    let scale: i64 = (1u64 << (i as u64)) as i64;
    assert(1 <= scale <= 64);
    assert(1 <= w * scale <= 4096) by (nonlinear_arith)
        requires
            1 <= w <= 64,
            1 <= scale <= 64,
    ;
    let nw: i64 = w * scale;
    let cc64: i64 = cc as i64;
    let mut mb: i64;
    if nw == 1 {
        mb = cc64 * 9 * 8;
    } else {
        let lm0: i32 = if w > 2 {
            -1
        } else if w <= 1 {
            if i < 1 {
                i
            } else {
                1
            }
        } else {
            0
        };
        let n0: i64 = if w > 2 {
            w / 2
        } else if w <= 1 {
            w * (if lm0 == 1 {
                2
            } else {
                1
            })
        } else {
            w
        };
        let row = (lm0 + 1) as usize;
        proof {
            assert(lm0 == lowest_split(w as int, i as int));
            if w <= 1 {
                assert(w == 1);
                assert(i >= 1) by {
                    if i == 0 {
                        assert(pow2(0) == 1);
                    }
                }
                assert(pow2(1) == 2);
            }
            assert(n0 == lowest_size(w as int, i as int));
            if w > 2 {
                assert(row == 0);
                assert(pow2(0) == 1);
                assert(cache_band_size(e_bands@, row as int, j as int) == (w * 1) / 2);
            } else if w <= 1 {
                assert(row == 2);
                assert(pow2(2) == 4);
                assert(cache_band_size(e_bands@, row as int, j as int) == (w * 4) / 2);
            } else {
                assert(row == 1);
                assert(pow2(1) == 2);
                assert(cache_band_size(e_bands@, row as int, j as int) == (w * 2) / 2);
            }
        }
        let top = read_top_cost(e_bands, nb, lm, index, bits, row, j);
        let (mb1, n) = mono_splits_exec(top, n0, log_n[j], lm0, i - lm0);
        mb = mb1;
        if cc == 2 {
            mb = stereo_split_exec(mb, n, log_n[j], i as i64);
        }
        mb = fine_bits_exec(mb, n, log_n[j], i as i64, cc64);
    }
    proof {
        assert(mb == band_max_bits(e_bands@, log_n@, i as int, cc as int, j as int));
    }
    let r = 4 * mb / (cc64 * nw) - 64;
    #[verifier::truncate]
    (r as u8)
}

/// The rate cap stored at position `q` of the caps table: rows run over the
/// time split `i` and then the channel count `cc`, each holding one cap per
/// band.
pub open spec fn cap_at(e: Seq<i16>, log_n: Seq<i16>, nb: int, q: int) -> int {
    let r = q / nb;
    cap_spec(e, log_n, r / 2, r % 2 + 1, q % nb)
}

proof fn lemma_cap_position(i: int, cc: int, j: int, nb: int)
    requires
        0 <= i,
        1 <= cc <= 2,
        0 <= j < nb,
    ensures
        ((2 * i + cc - 1) * nb + j) / nb == 2 * i + cc - 1,
        ((2 * i + cc - 1) * nb + j) % nb == j,
        (2 * i + cc - 1) / 2 == i,
        (2 * i + cc - 1) % 2 == cc - 1,
{
    lemma_row_major(2 * i + cc - 1, j, nb);
}

/// The per-band rate caps for every time split up to `lm` and both channel
/// counts.
fn compute_caps(
    e_bands: &[i16],
    log_n: &[i16],
    nb: usize,
    lm: i32,
    index: &Vec<i16>,
    bits: &Vec<u8>,
) -> (caps: Vec<u8>)
    requires
        cache_layout_ok(e_bands@, nb as int, lm as int),
        log_n.len() >= nb,
        ({
            let s = cache_sizes(e_bands@, nb as int, lm + 2);
            &&& index@.len() == s.len()
            &&& forall|p: int| 0 <= p < s.len() ==> index@[p] == index_spec(s, p)
            &&& forall|p: int| 0 <= p < s.len() && opens_slot(s, p) ==> slot_holds(bits@, s, p)
        }),
    ensures
        caps@.len() == (lm + 1) * 2 * nb,
        forall|q: int| 0 <= q < caps@.len() ==> caps@[q] == cap_at(e_bands@, log_n@, nb as int, q),
{
    let mut caps: Vec<u8> = Vec::new();
    let mut i: i32 = 0;
    while i <= lm
        invariant
            cache_layout_ok(e_bands@, nb as int, lm as int),
            log_n.len() >= nb,
            ({
                let s = cache_sizes(e_bands@, nb as int, lm + 2);
                &&& index@.len() == s.len()
                &&& forall|p: int| 0 <= p < s.len() ==> index@[p] == index_spec(s, p)
                &&& forall|p: int|
                    0 <= p < s.len() && opens_slot(s, p) ==> slot_holds(bits@, s, p)
            }),
            0 <= i <= lm + 1,
            caps@.len() == 2 * i * nb,
            forall|q: int| 0 <= q < caps@.len() ==> caps@[q] == cap_at(e_bands@, log_n@, nb as int, q),
        decreases lm + 1 - i,
    {
        let mut cc: i32 = 1;
        while cc <= 2
            invariant
                cache_layout_ok(e_bands@, nb as int, lm as int),
                log_n.len() >= nb,
                ({
                    let s = cache_sizes(e_bands@, nb as int, lm + 2);
                    &&& index@.len() == s.len()
                    &&& forall|p: int| 0 <= p < s.len() ==> index@[p] == index_spec(s, p)
                    &&& forall|p: int|
                        0 <= p < s.len() && opens_slot(s, p) ==> slot_holds(bits@, s, p)
                }),
                0 <= i <= lm,
                1 <= cc <= 3,
                caps@.len() == (2 * i + cc - 1) * nb,
                forall|q: int|
                    0 <= q < caps@.len() ==> caps@[q] == cap_at(e_bands@, log_n@, nb as int, q),
            decreases 3 - cc,
        {
            let mut j: usize = 0;
            while j < nb
                invariant
                    cache_layout_ok(e_bands@, nb as int, lm as int),
                    log_n.len() >= nb,
                    ({
                        let s = cache_sizes(e_bands@, nb as int, lm + 2);
                        &&& index@.len() == s.len()
                        &&& forall|p: int| 0 <= p < s.len() ==> index@[p] == index_spec(s, p)
                        &&& forall|p: int|
                            0 <= p < s.len() && opens_slot(s, p) ==> slot_holds(bits@, s, p)
                    }),
                    0 <= i <= lm,
                    1 <= cc <= 2,
                    0 <= j <= nb,
                    caps@.len() == (2 * i + cc - 1) * nb + j,
                    forall|q: int|
                        0 <= q < caps@.len() ==> caps@[q] == cap_at(e_bands@, log_n@, nb as int, q),
                decreases nb - j,
            {
                let c = cap_entry(e_bands, log_n, nb, lm, index, bits, i, cc, j);
                proof {
                    lemma_cap_position(i as int, cc as int, j as int, nb as int);
                }
                caps.push(c);
                j += 1;
            }
            proof {
                assert((2 * i + cc - 1) * nb + nb == (2 * i + cc) * nb) by (nonlinear_arith);
            }
            cc += 1;
        }
        proof {
            assert((2 * i + 2) * nb == 2 * (i + 1) * nb) by (nonlinear_arith);
        }
        i += 1;
    }
    proof {
        assert(2 * (lm + 1) * nb == (lm + 1) * 2 * nb) by (nonlinear_arith);
    }
    caps
}

/// The per-band pulse-cost cache a CELT mode precomputes. `index[k * nb + j]`
/// points into `bits` for band `j` at cache row `k` (`-1` for an empty band),
/// where `bits[off]` is the largest pseudo-pulse index and `bits[off + q]` the
/// cost of `q` pseudo-pulses; `caps[(2 * i + c - 1) * nb + j]` is the rate cap
/// of band `j` at time split `i` with `c` channels.
pub struct PulseCache {
    pub index: Vec<i16>,
    pub bits: Vec<u8>,
    pub caps: Vec<u8>,
}

/// `compute_pulse_cache`: builds the shared pulse-cost cache (`bits` /
/// `index`) and the per-band rate `caps` for a band layout `e_bands` (length
/// `nb_e_bands + 1`), the per-band `log_n` table, and a maximum time split
/// `lm`.
pub fn compute_pulse_cache(e_bands: &[i16], log_n: &[i16], nb_e_bands: usize, lm: i32) -> (cache: PulseCache)
    requires
        cache_layout_ok(e_bands@, nb_e_bands as int, lm as int),
        log_n.len() >= nb_e_bands,
        cache_sizes_ok(cache_sizes(e_bands@, nb_e_bands as int, lm + 2)),
    ensures
        ({
            let s = cache_sizes(e_bands@, nb_e_bands as int, lm + 2);
            &&& cache.index@.len() == s.len()
            &&& forall|p: int| 0 <= p < s.len() ==> cache.index@[p] == index_spec(s, p)
            &&& cache.bits@.len() == slot_start(s, s.len() as int)
            &&& forall|p: int|
                0 <= p < s.len() && opens_slot(s, p) ==> slot_holds(cache.bits@, s, p)
        }),
        cache.caps@.len() == (lm + 1) * 2 * nb_e_bands,
        forall|i: int, c: int, j: int|
            0 <= i <= lm && 1 <= c <= 2 && 0 <= j < nb_e_bands ==> cache.caps@[(2 * i + c - 1)
                * nb_e_bands + j] == cap_spec(e_bands@, log_n@, i, c, j),
{
    let (index, bits) = fill_cache_slots(e_bands, nb_e_bands, lm);
    let caps = compute_caps(e_bands, log_n, nb_e_bands, lm, &index, &bits);
    proof {
        assert forall|i: int, c: int, j: int|
            0 <= i <= lm && 1 <= c <= 2 && 0 <= j < nb_e_bands implies caps@[(2 * i + c - 1)
            * nb_e_bands + j] == cap_spec(e_bands@, log_n@, i, c, j) by {
            lemma_cap_position(i, c, j, nb_e_bands as int);
            assert((2 * i + c - 1) * nb_e_bands + j < (lm + 1) * 2 * nb_e_bands) by (nonlinear_arith)
                requires
                    0 <= i <= lm,
                    1 <= c <= 2,
                    0 <= j < nb_e_bands,
            ;
        }
    }
    PulseCache { index, bits, caps }
}

/// The slot start that band `band` at time split `lm` reads from the cache
/// index (`-1` for a band with no pulses cached).
pub open spec fn slot_of(index: Seq<i16>, nb: int, band: int, lm: int) -> int {
    index[(lm + 1) * nb + band] as int
}

/// Band `band` at time split `lm` names a cache index entry, and its slot
/// (if any) holds as many costs as its count says.
pub open spec fn cache_readable(cache: &PulseCache, nb: int, band: int, lm: int) -> bool {
    let off = slot_of(cache.index@, nb, band, lm);
    &&& 0 <= band < nb
    &&& -1 <= lm < i32::MAX
    &&& (lm + 1) * nb + band < cache.index@.len()
    &&& off >= 0 ==> off + cache.bits@[off] < cache.bits@.len()
}

/// Six halvings of the pseudo-pulse range `lo..=hi` towards the first cost at
/// or above `bits`.
pub open spec fn bisect_pulses(c: Seq<u8>, off: int, lo: int, hi: int, bits: int, steps: int) -> (int, int)
    decreases steps,
{
    if steps <= 0 {
        (lo, hi)
    } else {
        let mid = (lo + hi + 1) / 2;
        if c[off + mid] >= bits {
            bisect_pulses(c, off, lo, mid, bits, steps - 1)
        } else {
            bisect_pulses(c, off, mid, hi, bits, steps - 1)
        }
    }
}

/// The pseudo-pulse index whose cost is closest to the budget `bits` (less
/// one), the lower one on a tie; `0` for a band with no pulses cached.
pub open spec fn bits2pulses_spec(index: Seq<i16>, c: Seq<u8>, nb: int, band: int, lm: int, bits: int) -> int {
    let off = slot_of(index, nb, band, lm);
    if off < 0 {
        0
    } else {
        let b = bits - 1;
        let r = bisect_pulses(c, off, 0, c[off] as int, b, 6);
        let lo_cost = if r.0 == 0 {
            -1
        } else {
            c[off + r.0] as int
        };
        if b - lo_cost <= c[off + r.1] - b {
            r.0
        } else {
            r.1
        }
    }
}

/// The cost (eighth-bits) of `pulses` pseudo-pulses: nothing for none or for
/// a band with no pulses cached, else the cached cost plus one.
pub open spec fn pulses2bits_spec(index: Seq<i16>, c: Seq<u8>, nb: int, band: int, lm: int, pulses: int) -> int {
    let off = slot_of(index, nb, band, lm);
    if pulses == 0 || off < 0 {
        0
    } else {
        c[off + pulses] + 1
    }
}

/// Resolves the cache slot of band `band` at time split `lm`, or `None` if
/// the band has no pulses cached (an `N == 0` band, marked `-1` in `index`).
pub fn cache_slice(cache: &PulseCache, nb_e_bands: usize, band: usize, lm: i32) -> (res: Option<usize>)
    requires
        cache_readable(cache, nb_e_bands as int, band as int, lm as int),
    ensures
        match res {
            Some(off) => off == slot_of(cache.index@, nb_e_bands as int, band as int, lm as int) && off >= 0,
            None => slot_of(cache.index@, nb_e_bands as int, band as int, lm as int) < 0,
        },
{
    proof {
        assert(0 <= (lm + 1) * nb_e_bands <= (lm + 1) * nb_e_bands + band) by (nonlinear_arith)
            requires
                lm + 1 >= 0,
                nb_e_bands >= 0,
                band >= 0,
        ;
    }
    let row = (lm + 1) as usize;
    assert(row * nb_e_bands + band < cache.index.len());
    let off = cache.index[row * nb_e_bands + band];
    if off < 0 {
        None
    } else {
        Some(off as usize)
    }
}

/// `bits2pulses`: the pulse index whose coded cost is closest to a `bits`
/// budget (in eighths) for band `band` at time split `lm`.
pub fn bits2pulses(cache: &PulseCache, nb_e_bands: usize, band: usize, lm: i32, bits: i32) -> (res: i32)
    requires
        cache_readable(cache, nb_e_bands as int, band as int, lm as int),
        bits > i32::MIN + 256,
    ensures
        res == bits2pulses_spec(cache.index@, cache.bits@, nb_e_bands as int, band as int, lm as int, bits as int),
{
    let off = match cache_slice(cache, nb_e_bands, band, lm) {
        Some(off) => off,
        None => {
            return 0;
        },
    };
    let ghost c = cache.bits@;
    let mut lo: i32 = 0;
    let mut hi: i32 = cache.bits[off] as i32;
    let b = bits - 1;
    let ghost target = bisect_pulses(c, off as int, 0, hi as int, b as int, 6);
    let mut t: i32 = 0;
    while t < LOG_MAX_PSEUDO
        invariant
            0 <= t <= 6,
            0 <= lo <= hi <= c[off as int],
            off + c[off as int] < cache.bits.len(),
            c == cache.bits@,
            bisect_pulses(c, off as int, lo as int, hi as int, b as int, 6 - t) == target,
        decreases 6 - t,
    {
        let mid = (lo + hi + 1) >> 1u32;
        proof {
            lemma_i32_shr_div((lo + hi + 1) as i32, 1);
            lemma2_to64();
        }
        assert(lo <= mid <= hi);
        if cache.bits[off + mid as usize] as i32 >= b {
            hi = mid;
        } else {
            lo = mid;
        }
        t += 1;
    }
    let lo_cost: i32 = if lo == 0 {
        -1
    } else {
        cache.bits[off + lo as usize] as i32
    };
    if b - lo_cost <= cache.bits[off + hi as usize] as i32 - b {
        lo
    } else {
        hi
    }
}

/// `pulses2bits`: the coded cost (in eighths) of `pulses` pulses for band
/// `band` at time split `lm`.
pub fn pulses2bits(cache: &PulseCache, nb_e_bands: usize, band: usize, lm: i32, pulses: i32) -> (res: i32)
    requires
        cache_readable(cache, nb_e_bands as int, band as int, lm as int),
        pulses >= 0,
        slot_of(cache.index@, nb_e_bands as int, band as int, lm as int) >= 0 ==> slot_of(
            cache.index@,
            nb_e_bands as int,
            band as int,
            lm as int,
        ) + pulses < cache.bits@.len(),
    ensures
        res == pulses2bits_spec(cache.index@, cache.bits@, nb_e_bands as int, band as int, lm as int, pulses as int),
{
    if pulses == 0 {
        return 0;
    }
    match cache_slice(cache, nb_e_bands, band, lm) {
        Some(off) => cache.bits[off + pulses as usize] as i32 + 1,
        None => 0,
    }
}

/// `log2_frac` is exact on powers of two: `log2_frac(2^p, frac) == p << frac`.
pub proof fn lemma_log2_frac_power_of_two(p: nat, frac: nat)
    ensures
        log2_frac_spec(pow2(p), frac) == p * pow2(frac),
{
    lemma_pow2_adds(p, 1);
    lemma2_to64();
    lemma_pow2_pos(p);
    lemma_ilog_unique(pow2(p), p + 1);
}

/// The cost of pseudo-pulse index `a` in the slot starting at `off`.
pub open spec fn cost_at(c: Seq<u8>, off: int, a: int) -> int {
    c[off + a] as int
}

/// The bisection keeps the sought pseudo-pulse `q` inside `(lo, hi]` and
/// halves the range each step.
proof fn lemma_bisect_finds(c: Seq<u8>, off: int, lo: int, hi: int, q: int, steps: int)
    requires
        0 <= steps,
        0 <= lo < q <= hi,
        hi - lo <= pow2(steps as nat),
        forall|a: int, b: int| 1 <= a < b <= hi ==> #[trigger] cost_at(c, off, a) < #[trigger] cost_at(c, off, b),
    ensures
        ({
            let r = bisect_pulses(c, off, lo, hi, cost_at(c, off, q), steps);
            r.0 < q <= r.1 && r.1 - r.0 <= 1
        }),
    decreases steps,
{
    if steps > 0 {
        let mid = (lo + hi + 1) / 2;
        lemma_pow2_adds((steps - 1) as nat, 1);
        lemma2_to64();
        if c[off + mid] >= c[off + q] {
            if mid < q {
                assert(cost_at(c, off, mid) < cost_at(c, off, q));
            }
            lemma_bisect_finds(c, off, lo, mid, q, steps - 1);
        } else {
            if mid > q {
                assert(cost_at(c, off, q) < cost_at(c, off, mid));
            }
            lemma_bisect_finds(c, off, mid, hi, q, steps - 1);
        }
    } else {
        lemma2_to64();
    }
}

/// Asking for the cost of `q` pulses gives back `q` pulses: for a cache slot
/// whose costs rise strictly with the pseudo-pulse index (at most 64 of them),
/// `bits2pulses(pulses2bits(q)) == q` for every cached `q >= 1`.
pub proof fn lemma_bits2pulses_inverts_pulses2bits(
    index: Seq<i16>,
    c: Seq<u8>,
    nb: int,
    band: int,
    lm: int,
    q: int,
)
    requires
        slot_of(index, nb, band, lm) >= 0,
        1 <= q <= c[slot_of(index, nb, band, lm)],
        c[slot_of(index, nb, band, lm)] <= 64,
        forall|a: int, b: int|
            1 <= a < b <= c[slot_of(index, nb, band, lm)] ==> #[trigger] cost_at(
                c,
                slot_of(index, nb, band, lm),
                a,
            ) < #[trigger] cost_at(c, slot_of(index, nb, band, lm), b),
    ensures
        bits2pulses_spec(index, c, nb, band, lm, pulses2bits_spec(index, c, nb, band, lm, q)) == q,
{
    let off = slot_of(index, nb, band, lm);
    let k = c[off] as int;
    lemma2_to64();
    lemma_bisect_finds(c, off, 0, k, q, 6);
    let r = bisect_pulses(c, off, 0, k, cost_at(c, off, q), 6);
    assert(r.1 == q);
    if r.0 >= 1 {
        assert(cost_at(c, off, r.0) < cost_at(c, off, q));
    }
}


/// A collapsed range stays where it is.
proof fn lemma_bisect_collapsed(c: Seq<u8>, off: int, x: int, bits: int, steps: int)
    ensures
        bisect_pulses(c, off, x, x, bits, steps) == (x, x),
    decreases steps,
{
    if steps > 0 {
        assert((x + x + 1) / 2 == x);
        lemma_bisect_collapsed(c, off, x, bits, steps - 1);
    }
}

/// What the bisection keeps: the low end costs less than `bits` (or is 0),
/// the high end costs at least `bits` (or is the last pseudo-pulse `k`), and
/// after enough halvings they are at most one apart.
proof fn lemma_bisect_brackets(c: Seq<u8>, off: int, lo: int, hi: int, bits: int, steps: int, k: int)
    requires
        0 <= steps,
        0 <= lo <= hi <= k,
        1 <= hi,
        hi - lo <= pow2(steps as nat),
        lo == 0 || cost_at(c, off, lo) < bits,
        hi == k || cost_at(c, off, hi) >= bits,
    ensures
        ({
            let r = bisect_pulses(c, off, lo, hi, bits, steps);
            &&& 0 <= r.0 <= r.1 <= k
            &&& 1 <= r.1
            &&& r.1 - r.0 <= 1
            &&& r.0 == 0 || cost_at(c, off, r.0) < bits
            &&& r.1 == k || cost_at(c, off, r.1) >= bits
        }),
    decreases steps,
{
    lemma2_to64();
    if steps > 0 {
        let mid = (lo + hi + 1) / 2;
        lemma_pow2_adds((steps - 1) as nat, 1);
        if c[off + mid] >= bits {
            lemma_bisect_brackets(c, off, lo, mid, bits, steps - 1, k);
        } else {
            lemma_bisect_brackets(c, off, mid, hi, bits, steps - 1, k);
        }
    }
}

/// More bits never buy fewer pulses: for a cache slot whose costs rise
/// strictly with the pseudo-pulse index (at most 64 of them),
/// `bits2pulses` is non-decreasing in the budget.
pub proof fn lemma_bits2pulses_monotone(
    index: Seq<i16>,
    c: Seq<u8>,
    nb: int,
    band: int,
    lm: int,
    bits1: int,
    bits2: int,
)
    requires
        bits1 <= bits2,
        slot_of(index, nb, band, lm) >= 0 ==> c[slot_of(index, nb, band, lm)] <= 64,
        forall|a: int, b: int|
            1 <= a < b <= c[slot_of(index, nb, band, lm)] ==> #[trigger] cost_at(
                c,
                slot_of(index, nb, band, lm),
                a,
            ) < #[trigger] cost_at(c, slot_of(index, nb, band, lm), b),
    ensures
        bits2pulses_spec(index, c, nb, band, lm, bits1) <= bits2pulses_spec(
            index,
            c,
            nb,
            band,
            lm,
            bits2,
        ),
{
    let off = slot_of(index, nb, band, lm);
    if off >= 0 {
        let k = c[off] as int;
        let b1 = bits1 - 1;
        let b2 = bits2 - 1;
        if k == 0 {
            lemma_bisect_collapsed(c, off, 0, b1, 6);
            lemma_bisect_collapsed(c, off, 0, b2, 6);
        } else {
            lemma2_to64();
            lemma_bisect_brackets(c, off, 0, k, b1, 6, k);
            lemma_bisect_brackets(c, off, 0, k, b2, 6, k);
            let r1 = bisect_pulses(c, off, 0, k, b1, 6);
            let r2 = bisect_pulses(c, off, 0, k, b2, 6);
            let (l1, h1) = r1;
            let (l2, h2) = r2;
            if h2 == k && cost_at(c, off, k) < b2 {
                if l2 < h2 && l2 >= 1 {
                    assert(cost_at(c, off, l2) < cost_at(c, off, h2));
                }
            } else {
                assert(cost_at(c, off, h2) >= b2);
                if h1 == k && cost_at(c, off, k) < b1 {
                    if h2 < k {
                        assert(cost_at(c, off, h2) < cost_at(c, off, k));
                    }
                    assert(false);
                }
                if l1 >= h2 {
                    if l1 > h2 {
                        assert(cost_at(c, off, h2) < cost_at(c, off, l1));
                    }
                    assert(false);
                }
                if h1 > h2 {
                    assert(false);
                }
                assert(l1 <= l2);
            }
        }
    }
}


/// `val` raised to the power `2^s`, by repeated squaring.
pub open spec fn pow_pow2(val: nat, s: nat) -> nat
    decreases s,
{
    if s == 0 {
        val
    } else {
        let p = pow_pow2(val, (s - 1) as nat);
        p * p
    }
}

proof fn lemma_square_le(a: int, b: int)
    requires
        0 <= a <= b,
    ensures
        a * a <= b * b,
{
    assert(a * a <= b * b) by (nonlinear_arith)
        requires
            0 <= a <= b,
    ;
}

/// One refinement step keeps the value it tracks an upper bound: with
/// `acc == e * 2^f`, `val^(2^(F - f)) * 2^15 <= v * 2^e` carries over to the
/// next step, and at the end `val^(2^(F + 1)) * 2^15 <= v * 2^(2 acc)`.
proof fn lemma_refine_upper(t: nat, ftot: nat, v: int, acc: int, f: int, e: nat)
    requires
        0 <= f <= ftot,
        0 <= v <= 131069,
        acc == e * pow2(f as nat),
        pow_pow2(t, (ftot - f) as nat) * 0x8000 <= v * pow2(e),
    ensures
        ({
            let r = log2_frac_refine(v, acc, f);
            &&& 0 <= r.1 <= 131069
            &&& r.0 >= 0
            &&& pow_pow2(t, ftot + 1) * 0x8000 <= r.1 * pow2((2 * r.0) as nat)
        }),
    decreases f,
{
    lemma2_to64();
    let b = v / 65536;
    let acc2 = acc + b * pow2(f as nat);
    let v1 = if b >= 1 {
        (v + 1) / 2
    } else {
        v
    };
    let v2 = (v1 * v1 + 0x7FFF) / 32768;
    assert(0 <= b <= 1);
    assert(0 <= v1 <= 65535);
    lemma_square_le(v1, 65535);
    assert(v1 * v1 >= 0) by (nonlinear_arith);
    assert(0 <= v2 <= 131069);
    assert(v1 * v1 <= v2 * 32768);
    let p = pow_pow2(t, (ftot - f) as nat);
    let e2 = (2 * (e + b)) as nat;
    assert(pow_pow2(t, (ftot - f + 1) as nat) == p * p);
    // Squaring the bound: p^2 * 2^30 <= v^2 * 2^(2e) <= v1^2 * 2^e2.
    lemma_pow2_adds(e, e);
    lemma_pow2_adds((2 * e) as nat, 2);
    lemma_pow2_pos(e);
    assert(p * 0x8000 >= 0) by (nonlinear_arith);
    lemma_square_le((p * 0x8000) as int, v * pow2(e));
    assert((p * 0x8000) * (p * 0x8000) == (p * p) * 0x8000 * 0x8000) by (nonlinear_arith);
    assert((v * pow2(e)) * (v * pow2(e)) == (v * v) * (pow2(e) * pow2(e))) by (nonlinear_arith);
    if b >= 1 {
        assert(v <= 2 * v1);
        lemma_square_le(v, 2 * v1);
        assert((2 * v1) * (2 * v1) == 4 * (v1 * v1)) by (nonlinear_arith);
        assert(pow2(e2) == 4 * pow2((2 * e) as nat));
        assert((v * v) * pow2((2 * e) as nat) <= (v1 * v1) * pow2(e2)) by (nonlinear_arith)
            requires
                v * v <= 4 * (v1 * v1),
                pow2(e2) == 4 * pow2((2 * e) as nat),
                pow2((2 * e) as nat) >= 0,
        ;
    } else {
        assert(v1 == v);
        assert(e2 == 2 * e);
    }
    assert((p * p) * 0x8000 * 0x8000 <= (v1 * v1) * pow2(e2));
    lemma_pow2_pos(e2);
    assert((v1 * v1) * pow2(e2) <= v2 * 32768 * pow2(e2)) by (nonlinear_arith)
        requires
            v1 * v1 <= v2 * 32768,
            pow2(e2) > 0,
    ;
    assert((p * p) * 0x8000 <= v2 * pow2(e2)) by (nonlinear_arith)
        requires
            (p * p) * 0x8000 * 0x8000 <= v2 * 32768 * pow2(e2),
    ;
    if f == 0 {
        assert(pow2(f as nat) == 1);
        assert(acc == e && acc2 == e + b) by (nonlinear_arith)
            requires
                acc == e * pow2(f as nat),
                acc2 == acc + b * pow2(f as nat),
                pow2(f as nat) == 1,
        ;
        assert(ftot - f + 1 == ftot + 1);
    } else {
        lemma_pow2_adds((f - 1) as nat, 1);
        assert(acc2 == e2 * pow2((f - 1) as nat)) by (nonlinear_arith)
            requires
                acc2 == acc + b * pow2(f as nat),
                acc == e * pow2(f as nat),
                pow2(f as nat) == pow2((f - 1) as nat) * 2,
                e2 == 2 * (e + b),
        ;
        assert((ftot - (f - 1)) as nat == (ftot - f + 1) as nat);
        lemma_refine_upper(t, ftot, v2, acc2, f - 1, e2);
    }
}

/// `log2_frac` never underestimates: `val^(2^frac) <= 2^log2_frac(val, frac)`,
/// that is, `log2_frac(val, frac) / 2^frac >= log2(val)`.
pub proof fn lemma_log2_frac_upper_bound(val: nat, frac: nat)
    requires
        1 <= val <= u32::MAX,
        frac <= 24,
    ensures
        pow_pow2(val, frac) <= pow2(log2_frac_spec(val, frac) as nat),
        log2_frac_spec(val, frac) >= 0,
{
    lemma2_to64();
    let l = ilog(val);
    lemma_ilog_bounds(val);
    if val == pow2((l - 1) as nat) {
        lemma_pow_pow2_of_pow2((l - 1) as nat, frac);
    } else {
        let v0 = if l > 16 {
            (val - 1) / (pow2((l - 16) as nat) as int) + 1
        } else {
            val * (pow2((16 - l) as nat) as int)
        };
        lemma_pow2_pos((l - 1) as nat);
        if l > 16 {
            let d = pow2((l - 16) as nat) as int;
            lemma_pow2_pos((l - 16) as nat);
            lemma_pow2_adds((l - 16) as nat, 16);
            lemma_pow2_adds((l - 16) as nat, 15);
            vstd::arithmetic::div_mod::lemma_fundamental_div_mod(val - 1, d);
            assert(v0 * d >= val) by (nonlinear_arith)
                requires
                    v0 == (val - 1) / d + 1,
                    val - 1 == d * ((val - 1) / d) + (val - 1) % d,
                    (val - 1) % d < d,
            ;
            assert((val - 1) / d < 65536) by (nonlinear_arith)
                requires
                    val - 1 < d * 65536,
                    d > 0,
                    val - 1 == d * ((val - 1) / d) + (val - 1) % d,
                    0 <= (val - 1) % d,
            ;
            assert(v0 * pow2((l - 1) as nat) == v0 * d * 0x8000) by (nonlinear_arith)
                requires
                    pow2((l - 1) as nat) == d * 0x8000,
            ;
            assert(val * 0x8000 <= v0 * pow2((l - 1) as nat)) by (nonlinear_arith)
                requires
                    v0 * d >= val,
                    v0 * pow2((l - 1) as nat) == v0 * d * 0x8000,
            ;
        } else {
            lemma_pow2_adds((16 - l) as nat, (l - 1) as nat);
            lemma_pow2_adds((16 - l) as nat, l as nat);
            lemma_pow2_pos((16 - l) as nat);
            assert(v0 < 65536) by (nonlinear_arith)
                requires
                    val < pow2(l as nat),
                    v0 == val * pow2((16 - l) as nat),
                    pow2((16 - l) as nat) * pow2(l as nat) == 65536,
                    pow2((16 - l) as nat) > 0,
            ;
            assert(val * 0x8000 == v0 * pow2((l - 1) as nat)) by (nonlinear_arith)
                requires
                    v0 == val * pow2((16 - l) as nat),
                    pow2((16 - l) as nat) * pow2((l - 1) as nat) == 0x8000,
            ;
        }
        assert(((l - 1) * pow2(frac)) == ((l - 1) as nat) * pow2(frac));
        lemma_refine_upper(val, frac, v0, (l - 1) * pow2(frac), frac as int, (l - 1) as nat);
        let r = log2_frac_refine(v0, (l - 1) * pow2(frac), frac as int);
        let res = r.0 + if r.1 > 0x8000 {
            1int
        } else {
            0
        };
        let big = pow_pow2(val, frac + 1);
        let p = pow_pow2(val, frac);
        assert(big == p * p);
        lemma_pow2_adds(res as nat, res as nat);
        lemma_pow2_pos(res as nat);
        if r.1 > 0x8000 {
            lemma_pow2_adds((2 * r.0) as nat, 2);
            assert(pow2((2 * res) as nat) == 4 * pow2((2 * r.0) as nat));
            assert(big * 0x8000 <= 131072 * pow2((2 * r.0) as nat)) by (nonlinear_arith)
                requires
                    big * 0x8000 <= r.1 * pow2((2 * r.0) as nat),
                    r.1 <= 131072,
                    pow2((2 * r.0) as nat) >= 0,
            ;
        } else {
            assert(big * 0x8000 <= 0x8000 * pow2((2 * r.0) as nat)) by (nonlinear_arith)
                requires
                    big * 0x8000 <= r.1 * pow2((2 * r.0) as nat),
                    r.1 <= 0x8000,
                    pow2((2 * r.0) as nat) >= 0,
            ;
        }
        assert(big <= pow2((2 * res) as nat));
        assert(p * p <= pow2(res as nat) * pow2(res as nat));
        if p > pow2(res as nat) {
            lemma_square_le(pow2(res as nat) as int + 1, p as int);
            assert(false) by (nonlinear_arith)
                requires
                    (pow2(res as nat) + 1) * (pow2(res as nat) + 1) <= p * p,
                    p * p <= pow2(res as nat) * pow2(res as nat),
                    pow2(res as nat) >= 0,
            ;
        }
    }
}

/// `(2^q)^(2^s) == 2^(q * 2^s)`.
proof fn lemma_pow_pow2_of_pow2(q: nat, s: nat)
    ensures
        pow_pow2(pow2(q), s) == pow2(q * pow2(s)),
    decreases s,
{
    if s > 0 {
        lemma_pow_pow2_of_pow2(q, (s - 1) as nat);
        let m = q * pow2((s - 1) as nat);
        lemma_pow2_adds(m, m);
        lemma_pow2_adds((s - 1) as nat, 1);
        lemma2_to64();
        assert(q * pow2(s) == m + m) by (nonlinear_arith)
            requires
                m == q * pow2((s - 1) as nat),
                pow2(s) == pow2((s - 1) as nat) * 2,
        ;
    } else {
        lemma2_to64();
    }
}

/// The relative error bound (in units of `2^-16`) of the value `log2_frac`
/// tracks after `k` rounded squarings.
pub open spec fn refine_err(k: nat) -> int {
    26 * pow2(k) - 24
}

/// One rounded squaring at most doubles the relative error and adds a little:
/// `(1 + c/2^16)^2 (1 + 2^-16)^2 (1 + 2^-15) <= 1 + (2c + 24)/2^16`.
proof fn lemma_refine_err_step(c: int)
    requires
        0 <= c <= 200,
    ensures
        (65536 + c) * (65536 + c) * (65537 * 65537 * 32769) <= (65536 + 2 * c + 24) * (
        65536 * 65536 * 65536 * 32768),
{
    let cc = c * c;
    assert(cc <= 200 * c) by (nonlinear_arith)
        requires
            0 <= c <= 200,
            cc == c * c,
    ;
    assert((65536 + c) * (65536 + c) == 65536 * 65536 + 131072 * c + cc) by (nonlinear_arith)
        requires
            cc == c * c,
    ;
    let a: int = 65537int * 65537 * 32769;
    let bb: int = 65536int * 65536 * 65536 * 32768;
    assert((65536 * 65536 + 131072 * c + cc) * a <= (65536 + 2 * c + 24) * bb) by (nonlinear_arith)
        requires
            cc <= 200 * c,
            0 <= c <= 200,
            cc >= 0,
            a == 65537 * 65537 * 32769,
            bb == 65536 * 65536 * 65536 * 32768,
    ;
}

/// One refinement step keeps the tracked value close above the truth: with
/// `acc == e * 2^f` and `v * 2^e * 2^16 <= val^(2^(F - f)) * 2^15 * (2^16 + c)`
/// where `c` is the error after `F - f` squarings, the end result satisfies
/// `r.1 * 2^(2 r.0) * 2^16 <= val^(2^(F + 1)) * 2^15 * (2^16 + refine_err(F + 1))`.
proof fn lemma_refine_lower(t: nat, ftot: nat, v: int, acc: int, f: int, e: nat)
    requires
        ftot <= 3,
        0 <= f <= ftot,
        0x8000 <= v <= 131069,
        acc == e * pow2(f as nat),
        v * pow2(e) * 65536 <= pow_pow2(t, (ftot - f) as nat) * 0x8000 * (65536 + refine_err((ftot - f) as nat)),
    ensures
        ({
            let r = log2_frac_refine(v, acc, f);
            &&& 0x8000 <= r.1 <= 131069
            &&& r.0 >= 0
            &&& r.1 * pow2((2 * r.0) as nat) * 65536 <= pow_pow2(t, ftot + 1) * 0x8000 * (65536 + refine_err(
                ftot + 1,
            ))
        }),
    decreases f,
{
    lemma2_to64();
    let k = (ftot - f) as nat;
    let c = refine_err(k);
    lemma_pow2_adds(k, 1);
    if k < 3 {
        lemma_pow2_strictly_increases(k, 3);
    }
    assert(0 <= c <= 184);
    assert(refine_err(k + 1) == 2 * c + 24);
    let b = v / 65536;
    let acc2 = acc + b * pow2(f as nat);
    let v1 = if b >= 1 {
        (v + 1) / 2
    } else {
        v
    };
    let v2 = (v1 * v1 + 0x7FFF) / 32768;
    assert(0 <= b <= 1);
    assert(0x8000 <= v1 <= 65535);
    lemma_square_le(0x8000, v1);
    lemma_square_le(v1, 65535);
    assert(0x8000 <= v2 <= 131069);
    let p = pow_pow2(t, k);
    let ee = pow2(e);
    lemma_pow2_pos(e);
    let e1 = e + b;
    let ee1 = pow2(e1 as nat);
    lemma_pow2_adds(e, 1);
    // Halving with rounding up costs at most a factor 65537/65536.
    if b >= 1 {
        assert(ee1 == 2 * ee);
        assert(v1 * ee1 * 65536 <= v * ee * 65537) by (nonlinear_arith)
            requires
                2 * v1 <= v + 1,
                v >= 65536,
                ee1 == 2 * ee,
                ee > 0,
        ;
    } else {
        assert(ee1 == ee);
        assert(v1 * ee1 * 65536 <= v * ee * 65537) by (nonlinear_arith)
            requires
                v1 == v,
                ee1 == ee,
                ee > 0,
                v >= 0,
        ;
    }
    // Squaring with rounding up costs at most a factor 32769/32768.
    assert(v2 * 32768 * 32768 <= v1 * v1 * 32769) by (nonlinear_arith)
        requires
            v2 == (v1 * v1 + 0x7FFF) / 32768,
            v1 >= 0x8000,
    ;
    let x = v1 * ee1;
    assert(x * 65536 * 65536 <= p * 0x8000 * (65536 + c) * 65537) by (nonlinear_arith)
        requires
            v1 * ee1 * 65536 <= v * ee * 65537,
            v * ee * 65536 <= p * 0x8000 * (65536 + c),
            x == v1 * ee1,
    ;
    assert(x >= 0) by (nonlinear_arith)
        requires
            x == v1 * ee1,
            v1 >= 0,
            ee1 > 0,
    ;
    lemma_square_le(x * 65536 * 65536, p * 0x8000 * (65536 + c) * 65537);
    let ee2 = pow2((2 * e1) as nat);
    lemma_pow2_adds(e1 as nat, e1 as nat);
    assert(ee2 == ee1 * ee1);
    lemma_refine_err_step(c);
    let pp = p * p;
    assert(v2 * ee2 * 65536 <= pp * 0x8000 * (65536 + 2 * c + 24)) by (nonlinear_arith)
        requires
            v2 * 32768 * 32768 <= v1 * v1 * 32769,
            (x * 65536 * 65536) * (x * 65536 * 65536) <= (p * 0x8000 * (65536 + c) * 65537) * (p * 0x8000 * (
            65536 + c) * 65537),
            x == v1 * ee1,
            ee2 == ee1 * ee1,
            pp == p * p,
            ee1 > 0,
            v2 >= 0,
            p >= 0,
            0 <= c <= 184,
            (65536 + c) * (65536 + c) * (65537 * 65537 * 32769) <= (65536 + 2 * c + 24) * (65536 * 65536
                * 65536 * 32768),
    ;
    assert(pow_pow2(t, k + 1) == pp);
    if f == 0 {
        assert(pow2(f as nat) == 1);
        assert(acc == e && acc2 == e1) by (nonlinear_arith)
            requires
                acc == e * pow2(f as nat),
                acc2 == acc + b * pow2(f as nat),
                pow2(f as nat) == 1,
                e1 == e + b,
        ;
        assert(k + 1 == ftot + 1);
    } else {
        lemma_pow2_adds((f - 1) as nat, 1);
        let e2 = (2 * e1) as nat;
        assert(acc2 == e2 * pow2((f - 1) as nat)) by (nonlinear_arith)
            requires
                acc2 == acc + b * pow2(f as nat),
                acc == e * pow2(f as nat),
                pow2(f as nat) == pow2((f - 1) as nat) * 2,
                e2 == 2 * (e + b),
                e1 == e + b,
        ;
        assert((ftot - (f - 1)) as nat == k + 1);
        lemma_refine_lower(t, ftot, v2, acc2, f - 1, e2);
    }
}

/// `log2_frac` over-estimates by little: for up to three fractional bits,
/// `2^(2 log2_frac(val, frac)) <= 5 val^(2^(frac + 1))`, that is, the result is
/// at most `log2(5) / 2` (about 1.16) units of `2^-frac` bits above
/// `log2(val)`: about 0.145 bits at eighth-bit resolution.
pub proof fn lemma_log2_frac_overestimate(val: nat, frac: nat)
    requires
        1 <= val <= u32::MAX,
        frac <= 3,
    ensures
        pow2((2 * log2_frac_spec(val, frac)) as nat) <= 5 * pow_pow2(val, frac + 1),
{
    lemma2_to64();
    lemma_log2_frac_upper_bound(val, frac);
    let l = ilog(val);
    lemma_ilog_bounds(val);
    lemma_pow2_adds(frac, 1);
    if val == pow2((l - 1) as nat) {
        lemma_pow_pow2_of_pow2((l - 1) as nat, frac + 1);
        assert(2 * ((l - 1) * pow2(frac)) == (l - 1) * pow2(frac + 1)) by (nonlinear_arith)
            requires
                pow2(frac + 1) == pow2(frac) * 2,
        ;
    } else {
        let v0 = if l > 16 {
            (val - 1) / (pow2((l - 16) as nat) as int) + 1
        } else {
            val * (pow2((16 - l) as nat) as int)
        };
        let ee = pow2((l - 1) as nat);
        lemma_pow2_pos((l - 1) as nat);
        if l > 16 {
            let d = pow2((l - 16) as nat) as int;
            lemma_pow2_pos((l - 16) as nat);
            lemma_pow2_adds((l - 16) as nat, 16);
            lemma_pow2_adds((l - 16) as nat, 15);
            vstd::arithmetic::div_mod::lemma_fundamental_div_mod(val - 1, d);
            vstd::arithmetic::div_mod::lemma_mod_bound(val - 1, d);
            assert(v0 * d <= val - 1 + d) by (nonlinear_arith)
                requires
                    v0 == (val - 1) / d + 1,
                    val - 1 == d * ((val - 1) / d) + (val - 1) % d,
                    0 <= (val - 1) % d,
            ;
            assert(0x8000 <= v0 <= 65536) by (nonlinear_arith)
                requires
                    v0 == (val - 1) / d + 1,
                    val - 1 == d * ((val - 1) / d) + (val - 1) % d,
                    0 <= (val - 1) % d < d,
                    val - 1 < d * 65536,
                    val >= d * 0x8000,
                    d > 0,
            ;
            assert(v0 * ee * 65536 <= val * 0x8000 * 65538) by (nonlinear_arith)
                requires
                    v0 * d <= val - 1 + d,
                    ee == d * 0x8000,
                    val >= d * 0x8000,
                    d > 0,
                    v0 >= 0,
            ;
        } else {
            lemma_pow2_adds((16 - l) as nat, (l - 1) as nat);
            lemma_pow2_adds((16 - l) as nat, l as nat);
            lemma_pow2_pos((16 - l) as nat);
            assert(0x8000 <= v0 < 65536) by (nonlinear_arith)
                requires
                    val < pow2(l as nat),
                    val >= ee,
                    v0 == val * pow2((16 - l) as nat),
                    pow2((16 - l) as nat) * pow2(l as nat) == 65536,
                    pow2((16 - l) as nat) * ee == 0x8000,
                    pow2((16 - l) as nat) > 0,
            ;
            assert(v0 * ee == val * 0x8000) by (nonlinear_arith)
                requires
                    v0 == val * pow2((16 - l) as nat),
                    pow2((16 - l) as nat) * ee == 0x8000,
            ;
            assert(v0 * ee * 65536 <= val * 0x8000 * 65538) by (nonlinear_arith)
                requires
                    v0 * ee == val * 0x8000,
            ;
        }
        assert(refine_err(0) == 2);
        assert(((l - 1) * pow2(frac)) == ((l - 1) as nat) * pow2(frac));
        lemma_refine_lower(val, frac, v0, (l - 1) * pow2(frac), frac as int, (l - 1) as nat);
        let r = log2_frac_refine(v0, (l - 1) * pow2(frac), frac as int);
        let res = r.0 + if r.1 > 0x8000 {
            1int
        } else {
            0
        };
        let q = pow_pow2(val, frac + 1);
        if frac < 3 {
            lemma_pow2_strictly_increases(frac + 1, 4);
        }
        assert(refine_err(frac + 1) <= 392);
        let g = pow2((2 * r.0) as nat);
        assert(g * 65536 <= q * 65928) by (nonlinear_arith)
            requires
                r.1 * g * 65536 <= q * 0x8000 * (65536 + refine_err(frac + 1)),
                refine_err(frac + 1) <= 392,
                r.1 >= 0x8000,
                g >= 0,
                q >= 0,
        ;
        lemma_pow2_adds((2 * r.0) as nat, 2);
        assert(pow2((2 * res) as nat) <= 4 * g);
    }
}

} // verus!
