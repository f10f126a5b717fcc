//! Integer, platform-bit-exact helpers behind the band-split angle: the angle
//! resolution `qn`, the cosine and the log2-of-tangent that turn a quantized
//! angle into the mid/side gains and the bit-allocation delta.
use crate::range_coder::{ec_ilog, ilog};
use vstd::arithmetic::power2::*;
use vstd::prelude::*;

verus! {

/// `BITRES`: bit-allocation fractional-bit resolution (eighths of a bit).
pub const BITRES: i32 = 3;

/// Truncation of an integer to 16 bits, read back as a signed value.
pub open spec fn trunc16(a: int) -> int {
    (a as i16) as int
}

/// `FRAC_MUL16`: rounded Q15 product of two values truncated to 16 bits.
pub open spec fn frac_mul16_spec(a: int, b: int) -> int {
    (16384 + trunc16(a) * trunc16(b)) / 32768
}

proof fn lemma_shr15(x: i32)
    ensures
        x >> 15u32 == x / 32768,
{
    assert(x >> 15u32 == x / 32768) by (bit_vector);
}

/// `FRAC_MUL16`: rounded Q15 product of two values truncated to 16 bits.
pub fn frac_mul16(a: i32, b: i32) -> (res: i32)
    ensures
        res == frac_mul16_spec(a as int, b as int),
        -32768 <= res <= 32768,
{
    let x = a as i16 as i32;
    let y = b as i16 as i32;
    proof {
        assert(-0x4000_0000 <= x * y <= 0x4000_0000) by (nonlinear_arith)
            requires
                -32768 <= x <= 32767,
                -32768 <= y <= 32767,
        ;
        lemma_shr15((16384 + x * y) as i32);
    }
    (16384 + x * y) >> 15
}

/// The cosine approximation as a polynomial in `x^2` (Q13), rounded through
/// the truncating Q15 products and capped at the largest Q15 value.
pub open spec fn bitexact_cos_spec(x: i16) -> i16 {
    let x2 = (4096 + x * x) / 8192;
    let p = (32767 - x2) + frac_mul16_spec(
        x2,
        -7651 + frac_mul16_spec(x2, 8277 + frac_mul16_spec(-626, x2)),
    );
    (if 1 + p > 32767 {
        32767
    } else {
        1 + p
    }) as i16
}

/// `bitexact_cos`: a platform-bit-exact cosine approximation. Input is a Q14
/// quarter-angle in `(0, 16384)`; output is the Q15 cosine in `(0, 32767]`.
pub fn bitexact_cos(x: i16) -> (res: i16)
    ensures
        res == bitexact_cos_spec(x),
        0 < x < 16384 ==> 0 < res <= 32767,
{
    let xi = x as i32;
    proof {
        assert(0 <= xi * xi <= 0x4000_0000) by (nonlinear_arith)
            requires
                -32768 <= xi <= 32767,
        ;
        let t: i32 = (4096 + xi * xi) as i32;
        assert(t >> 13u32 == t / 8192) by (bit_vector);
    }
    let tmp = (4096 + xi * xi) >> 13;
    let x2 = tmp;
    let x2 = (32767 - x2) + frac_mul16(x2, -7651 + frac_mul16(x2, 8277 + frac_mul16(-626, x2)));
    proof {
        lemma_bitexact_cos_positive(x);
    }
    if 1 + x2 > 32767 {
        32767
    } else {
        (1 + x2) as i16
    }
}

/// The cosine approximation is positive on the open quarter circle.
#[verifier::rlimit(100)]
proof fn lemma_bitexact_cos_positive(x: i16)
    ensures
        0 < x < 16384 ==> bitexact_cos_spec(x) > 0,
{
    assert(0 < x < 16384 ==> bitexact_cos_spec(x) > 0) by (bit_vector);
}

/// The normalised-mantissa polynomial `log2tan` applies to each argument.
pub open spec fn log2tan_poly(m: int) -> int {
    frac_mul16_spec(m, frac_mul16_spec(m, -2597) + 7932)
}

/// `bitexact_log2tan`: `2048 * log2(isin/icos)` (Q11) from the bit lengths
/// and a quadratic correction on the 15-bit normalised mantissas.
pub open spec fn bitexact_log2tan_spec(isin: int, icos: int) -> int {
    let lc = ilog(icos as nat) as int;
    let ls = ilog(isin as nat) as int;
    let icos_n = icos * vstd::arithmetic::power2::pow2((15 - lc) as nat);
    let isin_n = isin * vstd::arithmetic::power2::pow2((15 - ls) as nat);
    (ls - lc) * 2048 + log2tan_poly(isin_n) - log2tan_poly(icos_n)
}

proof fn lemma_normalise15(v: i32)
    requires
        0 < v <= 32767,
    ensures
        ilog(v as nat) <= 15,
        ilog(v as nat) >= 1,
        v as int * vstd::arithmetic::power2::pow2((15 - ilog(v as nat)) as nat) < 0x8000,
        v << ((15 - ilog(v as nat)) as u32) == v as int * pow2((15 - ilog(v as nat)) as nat),
{
    crate::range_coder::lemma_ilog_bounds(v as nat);
    lemma2_to64();
    let l = ilog(v as nat);
    if l > 15 {
        lemma_pow2_strictly_increases(15, (l - 1) as nat);
    }
    let k = (15 - l) as nat;
    lemma_pow2_adds(k, l);
    assert(v as int * pow2(k) < pow2(l) * pow2(k)) by (nonlinear_arith)
        requires
            v < pow2(l),
            pow2(k) > 0,
    {
    }
    lemma_pow2_pos(k);
    let sh: u32 = k as u32;
    let vu: u32 = v as u32;
    vstd::bits::lemma_u32_shl_is_mul(vu, sh);
    assert(sh < 16 && 0 < v < 0x8000 && vu == v && (vu << sh) < 0x8000 ==> v << sh == (vu
        << sh) as i32) by (bit_vector);
}

/// `bitexact_log2tan`: a bit-exact `2048 * log2(isin/icos)` (Q11), used to
/// derive the mid/side bit-allocation split.
pub fn bitexact_log2tan(isin: i32, icos: i32) -> (res: i32)
    requires
        0 < isin <= 32767,
        0 < icos <= 32767,
    ensures
        res == bitexact_log2tan_spec(isin as int, icos as int),
{
    proof {
        lemma_normalise15(isin);
        lemma_normalise15(icos);
    }
    let lc = ec_ilog(icos as u32) as i32;
    let ls = ec_ilog(isin as u32) as i32;
    proof {
        assert((1i32 << 11u32) == 2048) by (bit_vector);
    }
    let icos = icos << ((15 - lc) as u32);
    let isin = isin << ((15 - ls) as u32);
    (ls - lc) * (1 << 11) + frac_mul16(isin, frac_mul16(isin, -2597) + 7932) - frac_mul16(
        icos,
        frac_mul16(icos, -2597) + 7932,
    )
}

/// `log2tan` is antisymmetric and vanishes when sine and cosine agree.
pub proof fn lemma_log2tan_antisymmetric(isin: int, icos: int)
    ensures
        bitexact_log2tan_spec(isin, icos) == -bitexact_log2tan_spec(icos, isin),
        bitexact_log2tan_spec(isin, isin) == 0,
{
}

/// `EXP2_TABLE8`: `2^(i/8)` in Q14.
pub open spec fn exp2_table8(i: int) -> int {
    if i == 0 {
        16384
    } else if i == 1 {
        17866
    } else if i == 2 {
        19483
    } else if i == 3 {
        21247
    } else if i == 4 {
        23170
    } else if i == 5 {
        25267
    } else if i == 6 {
        27554
    } else {
        30048
    }
}

/// Truncating (C-style) integer division for a positive divisor.
pub open spec fn div_trunc(a: int, d: int) -> int {
    if a >= 0 {
        a / d
    } else {
        -((-a) / d)
    }
}

/// The angle resolution in eighth-bits before it is turned into levels.
pub open spec fn compute_qb_spec(n: int, b: int, offset: int, pulse_cap: int, stereo: bool) -> int {
    let n2 = if stereo && n == 2 {
        2 * n - 2
    } else {
        2 * n - 1
    };
    let q0 = div_trunc(b + n2 * offset, n2);
    let q1 = if q0 < b - pulse_cap - 32 {
        q0
    } else {
        b - pulse_cap - 32
    };
    if q1 < 64 {
        q1
    } else {
        64
    }
}

/// `compute_qn`: `2^(qb/8)` levels rounded to an even count, or a single
/// level when fewer than half a bit is available.
pub open spec fn compute_qn_spec(n: int, b: int, offset: int, pulse_cap: int, stereo: bool) -> int {
    let qb = compute_qb_spec(n, b, offset, pulse_cap, stereo);
    if qb < 4 {
        1
    } else {
        let qn = exp2_table8((qb % 8) as int) / vstd::arithmetic::power2::pow2((14 - qb / 8) as nat) as int;
        (qn + 1) / 2 * 2
    }
}

/// The inputs for which `compute_qn`'s arithmetic stays inside `i32`.
pub open spec fn compute_qn_in_range(n: int, b: int, offset: int, pulse_cap: int) -> bool {
    &&& 1 <= n <= 0x3fff_ffff
    &&& i32::MIN <= (2 * n - 1) * offset <= i32::MAX
    &&& i32::MIN <= b + (2 * n - 1) * offset <= i32::MAX
    &&& i32::MIN <= b - pulse_cap <= i32::MAX
    &&& i32::MIN <= b - pulse_cap - 32 <= i32::MAX
}

/// `compute_qn`: the number of quantization levels for the split angle theta,
/// given the band size `N`, available bits `b` (eighths), the `offset`, the
/// `pulse_cap`, and whether this is a stereo split.
pub fn compute_qn(n: i32, b: i32, offset: i32, pulse_cap: i32, stereo: bool) -> (res: i32)
    requires
        compute_qn_in_range(n as int, b as int, offset as int, pulse_cap as int),
    ensures
        res == compute_qn_spec(n as int, b as int, offset as int, pulse_cap as int, stereo),
        res == 1 || (res % 2 == 0 && 2 <= res <= 256),
{
    let table: [i32; 8] = [16384, 17866, 19483, 21247, 23170, 25267, 27554, 30048];
    proof {
        assert((8i32 << 3u32) == 64 && (4i32 << 3u32) == 32 && ((1i32 << 3u32) >> 1u32) == 4)
            by (bit_vector);
    }
    let mut n2 = 2 * n - 1;
    if stereo && n == 2 {
        n2 -= 1;
    }
    proof {
        if stereo && n == 2 {
            assert(n2 * offset == 2 * offset);
            assert((2 * n - 1) * offset == 3 * offset);
        }
    }
    let mut qb = (b + n2 * offset) / n2;
    assert(qb == div_trunc(b + n2 * offset, n2 as int));
    qb = qb.min(b - pulse_cap - (4 << BITRES));
    qb = qb.min(8 << BITRES);
    if qb < (1 << BITRES >> 1) {
        1
    } else {
        proof {
            assert(qb & 7 == qb % 8) by (bit_vector)
                requires
                    0 <= qb,
            ;
            assert(qb >> 3 == qb / 8) by (bit_vector)
                requires
                    0 <= qb,
            ;
            let sh = (14 - qb / 8) as u32;
            let e: i32 = table[(qb % 8) as int];
            assert(e >> sh == e as int / pow2(sh as nat) as int) by {
                let eu = e as u32;
                vstd::bits::lemma_u32_shr_is_div(eu, sh);
                assert(0 <= e && sh < 32 && eu == e ==> e >> sh == (eu >> sh) as i32) by (bit_vector);
            }
            vstd::arithmetic::power2::lemma2_to64();
            vstd::arithmetic::power2::lemma_pow2_pos(sh as nat);
        }
        let qn = table[(qb & 0x7) as usize] >> (14 - (qb >> BITRES));
        proof {
            assert(qb <= 64);
            assert(table[(qb % 8) as int] == exp2_table8((qb % 8) as int));
            assert(qn == exp2_table8((qb % 8) as int) / pow2((14 - qb / 8) as nat) as int);
            let sh0 = (14 - qb / 8) as nat;
            if sh0 < 14 {
                lemma_pow2_strictly_increases(sh0, 14);
            }
            vstd::arithmetic::div_mod::lemma_div_is_ordered_by_denominator(16384, pow2(sh0) as int, 16384);
            vstd::arithmetic::div_mod::lemma_div_is_ordered(16384, exp2_table8((qb % 8) as int), pow2(sh0) as int);
            assert(qn >= 1);
            if qb < 64 {
                let sh = (14 - qb / 8) as nat;
                if sh > 7 {
                    lemma_pow2_strictly_increases(7, sh);
                }
                vstd::arithmetic::div_mod::lemma_div_is_ordered_by_denominator(
                    exp2_table8((qb % 8) as int),
                    128,
                    pow2(sh) as int,
                );
                vstd::arithmetic::div_mod::lemma_div_is_ordered(exp2_table8((qb % 8) as int), 30048, 128);
            } else {
                assert(qb % 8 == 0);
            }
            assert(0 <= qn <= 256);
            let x: i32 = (qn + 1) as i32;
            assert(0 <= x <= 257 ==> (x >> 1u32) << 1u32 == x / 2 * 2) by (bit_vector);
        }
        (qn + 1) >> 1 << 1
    }
}

} // verus!

verus! {

/// The level count `compute_qn` derives from an angle resolution `qb >= 4`
/// before rounding it to an even number.
pub open spec fn qn_of_qb(qb: int) -> int {
    exp2_table8(qb % 8) / pow2((14 - qb / 8) as nat) as int
}

proof fn lemma_div_trunc_monotone(a1: int, a2: int, d: int)
    requires
        d > 0,
        a1 <= a2,
    ensures
        div_trunc(a1, d) <= div_trunc(a2, d),
{
    if a1 >= 0 {
        vstd::arithmetic::div_mod::lemma_div_is_ordered(a1, a2, d);
    } else if a2 < 0 {
        vstd::arithmetic::div_mod::lemma_div_is_ordered(-a2, -a1, d);
    } else {
        vstd::arithmetic::div_mod::lemma_div_pos_is_pos(-a1, d);
        vstd::arithmetic::div_mod::lemma_div_pos_is_pos(a2, d);
    }
}

/// One more eighth of a bit of angle resolution never lowers the level count.
proof fn lemma_qn_of_qb_step(q: int)
    requires
        4 <= q < 64,
    ensures
        qn_of_qb(q) <= qn_of_qb(q + 1),
{
    lemma2_to64();
    let a = q / 8;
    let r = q % 8;
    let s = (14 - a) as nat;
    lemma_pow2_pos(s);
    if r < 7 {
        assert((q + 1) / 8 == a && (q + 1) % 8 == r + 1);
        assert(exp2_table8(r) <= exp2_table8(r + 1));
        vstd::arithmetic::div_mod::lemma_div_is_ordered(exp2_table8(r), exp2_table8(r + 1), pow2(s) as int);
    } else {
        assert((q + 1) / 8 == a + 1 && (q + 1) % 8 == 0);
        let s1 = (14 - (a + 1)) as nat;
        assert(s == s1 + 1);
        lemma_pow2_adds(s1, 1);
        lemma_pow2_pos(s1);
        vstd::arithmetic::div_mod::lemma_div_is_ordered(30048, 32768, pow2(s) as int);
        vstd::arithmetic::div_mod::lemma_div_multiples_vanish(16384, pow2(s1) as int);
        assert(32768int == 2 * 16384);
        assert(pow2(s) as int == 2 * pow2(s1) as int);
        vstd::arithmetic::div_mod::lemma_div_denominator(32768, 2, pow2(s1) as int);
        assert(32768int / 2 == 16384);
    }
}

proof fn lemma_qn_of_qb_monotone(q1: int, q2: int)
    requires
        4 <= q1 <= q2 <= 64,
    ensures
        qn_of_qb(q1) <= qn_of_qb(q2),
    decreases q2 - q1,
{
    if q1 < q2 {
        lemma_qn_of_qb_step(q1);
        lemma_qn_of_qb_monotone(q1 + 1, q2);
    }
}

/// A split never gets fewer angle levels from a larger budget:
/// `compute_qn` is non-decreasing in the bits `b`.
pub proof fn lemma_compute_qn_monotone(
    n: int,
    b1: int,
    b2: int,
    offset: int,
    pulse_cap: int,
    stereo: bool,
)
    requires
        n >= 1,
        b1 <= b2,
    ensures
        compute_qn_spec(n, b1, offset, pulse_cap, stereo) <= compute_qn_spec(
            n,
            b2,
            offset,
            pulse_cap,
            stereo,
        ),
{
    let n2 = if stereo && n == 2 {
        2 * n - 2
    } else {
        2 * n - 1
    };
    lemma_div_trunc_monotone(b1 + n2 * offset, b2 + n2 * offset, n2);
    let qb1 = compute_qb_spec(n, b1, offset, pulse_cap, stereo);
    let qb2 = compute_qb_spec(n, b2, offset, pulse_cap, stereo);
    assert(qb1 <= qb2);
    if qb2 >= 4 {
        lemma2_to64();
        let s2 = (14 - qb2 / 8) as nat;
        lemma_pow2_pos(s2);
        if s2 < 14 {
            lemma_pow2_strictly_increases(s2, 14);
        }
        vstd::arithmetic::div_mod::lemma_div_is_ordered_by_denominator(16384, pow2(s2) as int, 16384);
        vstd::arithmetic::div_mod::lemma_div_is_ordered(16384, exp2_table8(qb2 % 8), pow2(s2) as int);
        assert(qn_of_qb(qb2) >= 1);
        if qb1 >= 4 {
            lemma_qn_of_qb_monotone(qb1, qb2);
            vstd::arithmetic::div_mod::lemma_div_is_ordered(qn_of_qb(qb1) + 1, qn_of_qb(qb2) + 1, 2);
        }
    }
}

} // verus!
