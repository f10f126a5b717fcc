//! Shifts of signed 32-bit integers as multiplication and floor division by
//! powers of two.
use vstd::arithmetic::div_mod::*;
use vstd::arithmetic::power2::*;
use vstd::prelude::*;

verus! {

/// One step of a shift: shifting by `s` is shifting by `s - 1` and then by one.
proof fn lemma_i32_shift_step(x: i32, s: u32)
    by (bit_vector)
    requires
        1 <= s < 32,
    ensures
        x << 0u32 == x,
        x >> 0u32 == x,
        x >> s == (x >> ((s - 1) as u32)) / 2,
        -0x4000_0000 <= (x << ((s - 1) as u32)) < 0x4000_0000 ==> x << s == (x << ((s - 1) as u32)) * 2,
{
}

/// Floor division by `c` and then by `d` is floor division by `c * d`.
pub proof fn lemma_floor_div_div(x: int, c: int, d: int)
    requires
        c > 0,
        d > 0,
    ensures
        (x / c) / d == x / (c * d),
{
    let q = x / c;
    let r = x % c;
    lemma_fundamental_div_mod(x, c);
    lemma_fundamental_div_mod(q, d);
    let q2 = q / d;
    let r2 = q % d;
    assert(x == q2 * (c * d) + (c * r2 + r)) by (nonlinear_arith)
        requires
            x == c * q + r,
            q == d * q2 + r2,
    ;
    assert(0 <= c * r2 + r < c * d) by (nonlinear_arith)
        requires
            0 <= r < c,
            0 <= r2 < d,
    ;
    lemma_fundamental_div_mod_converse(x, c * d, q2, c * r2 + r);
}

/// An arithmetic right shift of an `i32` is floor division by `2^s`.
pub proof fn lemma_i32_shr_div(x: i32, s: u32)
    requires
        s < 32,
    ensures
        x >> s == x as int / (pow2(s as nat) as int),
    decreases s,
{
    if s == 0 {
        lemma_i32_shift_step(x, 1);
        lemma2_to64();
        assert(x as int / 1 == x);
    } else {
        lemma_i32_shift_step(x, s);
        lemma_i32_shr_div(x, (s - 1) as u32);
        let y = x >> ((s - 1) as u32);
        assert(x >> s == y as int / 2);
        lemma_pow2_pos((s - 1) as nat);
        lemma_floor_div_div(x as int, pow2((s - 1) as nat) as int, 2);
        lemma_pow2_adds((s - 1) as nat, 1);
        lemma2_to64();
    }
}

/// A left shift of an `i32` is multiplication by `2^s` while the product fits.
pub proof fn lemma_i32_shl_mul(x: i32, s: u32)
    requires
        s < 32,
        i32::MIN <= x as int * pow2(s as nat) <= i32::MAX,
    ensures
        x << s == x as int * pow2(s as nat),
    decreases s,
{
    if s == 0 {
        lemma_i32_shift_step(x, 1);
        lemma2_to64();
    } else {
        let p = pow2((s - 1) as nat);
        lemma_pow2_adds((s - 1) as nat, 1);
        lemma2_to64();
        lemma_pow2_pos((s - 1) as nat);
        assert(pow2(s as nat) == p * 2);
        assert(i32::MIN / 2 <= x as int * p <= i32::MAX / 2) by (nonlinear_arith)
            requires
                i32::MIN <= x as int * (p * 2) <= i32::MAX,
                p > 0,
        ;
        lemma_i32_shl_mul(x, (s - 1) as u32);
        lemma_i32_shift_step(x, s);
        assert(x as int * (p * 2) == (x as int * p) * 2) by (nonlinear_arith);
    }
}

} // verus!
