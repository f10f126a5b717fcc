//! Pulse-vector bookkeeping shared by the band quantizers.
use vstd::arithmetic::power2::*;
use vstd::prelude::*;

verus! {

/// Some pulse lands in `iy[start..start + len]`.
pub open spec fn block_has_pulse(iy: Seq<i32>, start: int, len: int) -> bool {
    exists|j: int| 0 <= j < len && #[trigger] iy[start + j] != 0
}

/// The anti-collapse mask of the first `b` blocks of `n0` coefficients: bit
/// `i` is set when block `i` holds a pulse.
pub open spec fn collapse_mask_spec(iy: Seq<i32>, n0: int, b: nat) -> nat
    decreases b,
{
    if b == 0 {
        0
    } else {
        collapse_mask_spec(iy, n0, (b - 1) as nat) + if block_has_pulse(iy, (b - 1) * n0, n0) {
            pow2((b - 1) as nat)
        } else {
            0
        }
    }
}

proof fn lemma_collapse_mask_bound(iy: Seq<i32>, n0: int, b: nat)
    ensures
        collapse_mask_spec(iy, n0, b) < pow2(b),
    decreases b,
{
    lemma_pow2_pos(b);
    if b > 0 {
        lemma_collapse_mask_bound(iy, n0, (b - 1) as nat);
        lemma_pow2_unfold(b);
    }
}

/// Builds the anti-collapse mask: one bit per block of `n / b` coefficients
/// that holds any pulse; a single block always counts as filled.
pub fn extract_collapse_mask(iy: &[i32], n: usize, b: usize) -> (res: u32)
    requires
        b <= 32,
        n <= iy@.len(),
    ensures
        b <= 1 ==> res == 1,
        b > 1 ==> res == collapse_mask_spec(iy@, (n / b) as int, b as nat),
{
    if b <= 1 {
        return 1;
    }
    let n0 = n / b;
    proof {
        assert(n0 * b <= n) by (nonlinear_arith)
            requires
                n0 == n / b,
                b > 1,
        ;
    }
    let mut collapse_mask = 0u32;
    let mut i: usize = 0;
    while i < b
        invariant
            0 <= i <= b <= 32,
            n0 == n / b,
            n0 * b <= n <= iy@.len(),
            collapse_mask == collapse_mask_spec(iy@, n0 as int, i as nat),
        decreases b - i,
    {
        let mut tmp = 0i32;
        let mut j: usize = 0;
        proof {
            assert(i * n0 + n0 <= n0 * b) by (nonlinear_arith)
                requires
                    i < b,
                    n0 >= 0,
            ;
        }
        while j < n0
            invariant
                0 <= j <= n0,
                i < b,
                i * n0 + n0 <= n <= iy@.len(),
                (tmp != 0) == block_has_pulse(iy@.subrange(0, (i * n0 + j) as int), (i * n0) as int, j as int),
            decreases n0 - j,
        {
            let x = iy[i * n0 + j];
            proof {
                assert((tmp | x) != 0 <==> (tmp != 0 || x != 0)) by (bit_vector);
                let pre = iy@.subrange(0, (i * n0 + j) as int);
                let post = iy@.subrange(0, (i * n0 + j + 1) as int);
                if tmp != 0 {
                    let w = choose|w: int| 0 <= w < j && #[trigger] pre[i * n0 + w] != 0;
                    assert(post[i * n0 + w] != 0);
                }
                if x != 0 {
                    assert(post[i * n0 + j] != 0);
                }
                if block_has_pulse(post, (i * n0) as int, (j + 1) as int) {
                    let w = choose|w: int| 0 <= w < j + 1 && #[trigger] post[i * n0 + w] != 0;
                    if w < j {
                        assert(pre[i * n0 + w] != 0);
                    }
                }
            }
            tmp |= x;
            j += 1;
        }
        proof {
            let pre = iy@.subrange(0, (i * n0 + n0) as int);
            assert(block_has_pulse(pre, (i * n0) as int, n0 as int) == block_has_pulse(iy@, (i * n0) as int, n0 as int)) by {
                if block_has_pulse(pre, (i * n0) as int, n0 as int) {
                    let w = choose|w: int| 0 <= w < n0 && #[trigger] pre[i * n0 + w] != 0;
                    assert(iy@[i * n0 + w] != 0);
                }
                if block_has_pulse(iy@, (i * n0) as int, n0 as int) {
                    let w = choose|w: int| 0 <= w < n0 && #[trigger] iy@[i * n0 + w] != 0;
                    assert(pre[i * n0 + w] != 0);
                }
            }
            lemma_collapse_mask_bound(iy@, n0 as int, i as nat);
            lemma2_to64();
            if i < 31 {
                lemma_pow2_strictly_increases(i as nat, 32);
            }
            vstd::bits::lemma_u32_shl_is_mul(1, i as u32);
            let m = collapse_mask;
            let sh = i as u32;
            assert(sh < 32 && m < (1u32 << sh) ==> m | (1u32 << sh) == m + (1u32 << sh)) by (bit_vector);
            assert((i + 1) as nat - 1 == i as nat);
        }
        if tmp != 0 {
            collapse_mask |= 1u32 << (i as u32);
        }
        i += 1;
    }
    collapse_mask
}

} // verus!
