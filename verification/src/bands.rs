//! Band layout and the noise generator used to fill empty bands.
use vstd::prelude::*;

verus! {

/// The band edges of a mode: `e_bands[i]` is the first bin of band `i` in a
/// short MDCT of `short_mdct_size` bins; there are `nb_e_bands` bands.
pub struct BandLayout<'a> {
    pub e_bands: &'a [i16],
    pub short_mdct_size: usize,
    pub nb_e_bands: usize,
}

/// One step of the linear-congruential generator CELT fills empty bands with.
pub open spec fn lcg_step(seed: u32) -> u32 {
    ((1664525 * seed + 1013904223) % 0x1_0000_0000) as u32
}

/// `celt_lcg_rand`: the linear-congruential generator CELT uses to fill empty
/// bands with noise, modulo `2^32`.
pub fn celt_lcg_rand(seed: u32) -> (res: u32)
    ensures
        res == lcg_step(seed),
{
    proof {
        let m = (seed as int * 1664525) % 0x1_0000_0000;
        vstd::arithmetic::div_mod::lemma_add_mod_noop(seed as int * 1664525, 1013904223, 0x1_0000_0000);
        vstd::arithmetic::div_mod::lemma_small_mod(1013904223, 0x1_0000_0000);
        vstd::arithmetic::div_mod::lemma_mod_bound(seed as int * 1664525, 0x1_0000_0000);
        if m + 1013904223 >= 0x1_0000_0000 {
            vstd::arithmetic::div_mod::lemma_fundamental_div_mod_converse(m + 1013904223, 0x1_0000_0000, 1, m + 1013904223 - 0x1_0000_0000);
        } else {
            vstd::arithmetic::div_mod::lemma_small_mod((m + 1013904223) as nat, 0x1_0000_0000);
        }
    }
    seed.wrapping_mul(1_664_525).wrapping_add(1_013_904_223)
}

} // verus!

verus! {

/// The Hadamard reordering table (`ordery_table`): the entries for stride
/// `s` (2, 4, 8 or 16) start at `s - 2`.
pub open spec fn ordery_seq() -> Seq<usize> {
    seq![1usize, 0usize, 3usize, 0usize, 2usize, 1usize, 7usize, 0usize, 4usize, 3usize, 6usize, 1usize, 5usize, 2usize, 15usize, 0usize, 8usize, 7usize, 12usize, 3usize, 11usize, 4usize, 14usize, 1usize, 9usize, 6usize, 13usize, 2usize, 10usize, 5usize]
}

/// The inverse of each stride's reordering in [`ordery_seq`].
pub open spec fn ordery_inv_seq() -> Seq<usize> {
    seq![1usize, 0usize, 1usize, 3usize, 2usize, 0usize, 1usize, 5usize, 7usize, 3usize, 2usize, 6usize, 4usize, 0usize, 1usize, 9usize, 13usize, 5usize, 7usize, 15usize, 11usize, 3usize, 2usize, 10usize, 14usize, 6usize, 4usize, 12usize, 8usize, 0usize]
}

/// The strides the Hadamard reordering has a table for.
pub open spec fn hadamard_stride(stride: int) -> bool {
    stride == 2 || stride == 4 || stride == 8 || stride == 16
}

/// The block sub-sequence `i` of `stride` lands in: `ordery[i]` with the
/// Hadamard reordering, `i` without.
pub open spec fn block_of(stride: int, i: int, hadamard: bool) -> int {
    if hadamard {
        ordery_seq()[stride - 2 + i] as int
    } else {
        i
    }
}

/// The sub-sequence that lands in block `b`.
pub open spec fn block_source(stride: int, b: int, hadamard: bool) -> int {
    if hadamard {
        ordery_inv_seq()[stride - 2 + b] as int
    } else {
        b
    }
}

/// Each table is a permutation of its stride, and the inverse table undoes it.
proof fn lemma_ordery_tables()
    ensures
        forall|s: int, i: int|
            #![trigger ordery_seq()[s - 2 + i]]
            hadamard_stride(s) && 0 <= i < s ==> {
                let b = ordery_seq()[s - 2 + i] as int;
                &&& 0 <= b < s
                &&& ordery_inv_seq()[s - 2 + b] == i
            },
        forall|s: int, b: int|
            #![trigger ordery_inv_seq()[s - 2 + b]]
            hadamard_stride(s) && 0 <= b < s ==> 0 <= ordery_inv_seq()[s - 2 + b] < s,
{
    assert(ordery_seq().len() == 30 && ordery_inv_seq().len() == 30);
        assert(ordery_seq()[0] == 1usize && ordery_inv_seq()[1] == 0usize);
        assert(ordery_seq()[1] == 0usize && ordery_inv_seq()[0] == 1usize);
        assert(ordery_seq()[2] == 3usize && ordery_inv_seq()[5] == 0usize);
        assert(ordery_seq()[3] == 0usize && ordery_inv_seq()[2] == 1usize);
        assert(ordery_seq()[4] == 2usize && ordery_inv_seq()[4] == 2usize);
        assert(ordery_seq()[5] == 1usize && ordery_inv_seq()[3] == 3usize);
        assert(ordery_seq()[6] == 7usize && ordery_inv_seq()[13] == 0usize);
        assert(ordery_seq()[7] == 0usize && ordery_inv_seq()[6] == 1usize);
        assert(ordery_seq()[8] == 4usize && ordery_inv_seq()[10] == 2usize);
        assert(ordery_seq()[9] == 3usize && ordery_inv_seq()[9] == 3usize);
        assert(ordery_seq()[10] == 6usize && ordery_inv_seq()[12] == 4usize);
        assert(ordery_seq()[11] == 1usize && ordery_inv_seq()[7] == 5usize);
        assert(ordery_seq()[12] == 5usize && ordery_inv_seq()[11] == 6usize);
        assert(ordery_seq()[13] == 2usize && ordery_inv_seq()[8] == 7usize);
        assert(ordery_seq()[14] == 15usize && ordery_inv_seq()[29] == 0usize);
        assert(ordery_seq()[15] == 0usize && ordery_inv_seq()[14] == 1usize);
        assert(ordery_seq()[16] == 8usize && ordery_inv_seq()[22] == 2usize);
        assert(ordery_seq()[17] == 7usize && ordery_inv_seq()[21] == 3usize);
        assert(ordery_seq()[18] == 12usize && ordery_inv_seq()[26] == 4usize);
        assert(ordery_seq()[19] == 3usize && ordery_inv_seq()[17] == 5usize);
        assert(ordery_seq()[20] == 11usize && ordery_inv_seq()[25] == 6usize);
        assert(ordery_seq()[21] == 4usize && ordery_inv_seq()[18] == 7usize);
        assert(ordery_seq()[22] == 14usize && ordery_inv_seq()[28] == 8usize);
        assert(ordery_seq()[23] == 1usize && ordery_inv_seq()[15] == 9usize);
        assert(ordery_seq()[24] == 9usize && ordery_inv_seq()[23] == 10usize);
        assert(ordery_seq()[25] == 6usize && ordery_inv_seq()[20] == 11usize);
        assert(ordery_seq()[26] == 13usize && ordery_inv_seq()[27] == 12usize);
        assert(ordery_seq()[27] == 2usize && ordery_inv_seq()[16] == 13usize);
        assert(ordery_seq()[28] == 10usize && ordery_inv_seq()[24] == 14usize);
        assert(ordery_seq()[29] == 5usize && ordery_inv_seq()[19] == 15usize);
    assert forall|s: int, b: int| hadamard_stride(s) && 0 <= b < s implies 0 <= #[trigger] ordery_inv_seq()[s - 2 + b] < s by {
        assert(ordery_inv_seq()[s - 2 + b] < s);
    }
}

/// The block layout after [`deinterleave_hadamard`]: block `b` holds, in
/// order, the sub-sequence `block_source(b)` of stride `stride`.
pub open spec fn deinterleave_spec<T>(x: Seq<T>, n0: int, stride: int, hadamard: bool) -> Seq<T> {
    Seq::new(
        x.len(),
        |p: int|
            if p < n0 * stride {
                x[(p % n0) * stride + block_source(stride, p / n0, hadamard)]
            } else {
                x[p]
            },
    )
}

/// The interleaved layout after [`interleave_hadamard`]: position
/// `j * stride + i` holds entry `j` of block `block_of(i)`.
pub open spec fn interleave_spec<T>(x: Seq<T>, n0: int, stride: int, hadamard: bool) -> Seq<T> {
    Seq::new(
        x.len(),
        |p: int|
            if p < n0 * stride {
                x[block_of(stride, p % stride, hadamard) * n0 + p / stride]
            } else {
                x[p]
            },
    )
}

/// `j * m + i` for `i < m` splits back into `j` and `i`, and stays below
/// `k * m` when `j < k`.
proof fn lemma_index_split(j: int, m: int, i: int, k: int)
    requires
        0 <= i < m,
        0 <= j < k,
    ensures
        (j * m + i) / m == j,
        (j * m + i) % m == i,
        0 <= j * m + i < k * m,
{
    vstd::arithmetic::div_mod::lemma_fundamental_div_mod_converse(j * m + i, m, j, i);
    assert(0 <= j * m + i < k * m) by (nonlinear_arith)
        requires
            0 <= i < m,
            0 <= j < k,
    ;
}

/// A position below `k * m` splits into a quotient below `k` and a remainder.
proof fn lemma_index_parts(p: int, m: int, k: int)
    requires
        0 <= p < k * m,
        0 < m,
    ensures
        0 <= p / m < k,
        0 <= p % m < m,
        p == (p / m) * m + p % m,
{
    vstd::arithmetic::div_mod::lemma_fundamental_div_mod(p, m);
    vstd::arithmetic::div_mod::lemma_mod_pos_bound(p, m);
    vstd::arithmetic::div_mod::lemma_div_pos_is_pos(p, m);
    vstd::arithmetic::div_mod::lemma_div_is_ordered(p, k * m - 1, m);
    if p / m >= k {
        assert((p / m) * m >= k * m) by (nonlinear_arith)
            requires
                p / m >= k,
                m > 0,
        ;
    }
    assert(m * (p / m) == (p / m) * m) by (nonlinear_arith);
}

/// `deinterleave_hadamard`: gathers the `stride` interleaved sub-sequences of
/// `x[0..n0 * stride]` into contiguous blocks of `n0`, placing sub-sequence
/// `i` in block `ordery[i]` when `hadamard` is set (else in block `i`).
pub fn deinterleave_hadamard<T: Copy>(x: &mut [T], n0: usize, stride: usize, hadamard: bool)
    requires
        1 <= stride,
        n0 * stride <= old(x)@.len(),
        hadamard ==> hadamard_stride(stride as int),
    ensures
        final(x)@ == deinterleave_spec(old(x)@, n0 as int, stride as int, hadamard),
{
    let len = x.len();
    assert(n0 * stride <= len);
    let n = n0 * stride;
    let ordery_inv: [usize; 30] = [1, 0, 1, 3, 2, 0, 1, 5, 7, 3, 2, 6, 4, 0, 1, 9, 13, 5, 7, 15, 11, 3, 2, 10, 14, 6, 4, 12, 8, 0];
    proof {
        assert(ordery_inv@ =~= ordery_inv_seq());
        lemma_ordery_tables();
    }
    let ghost x0 = x@;
    let mut tmp: Vec<T> = Vec::new();
    let mut p: usize = 0;
    while p < n
        invariant
            n == n0 * stride,
            1 <= stride,
            n <= x@.len(),
            x@ == x0,
            ordery_inv@ == ordery_inv_seq(),
            hadamard ==> hadamard_stride(stride as int),
            forall|s: int, b: int|
                #![trigger ordery_inv_seq()[s - 2 + b]]
                hadamard_stride(s) && 0 <= b < s ==> 0 <= ordery_inv_seq()[s - 2 + b] < s,
            p <= n,
            tmp@.len() == p,
            forall|q: int| 0 <= q < p ==> #[trigger] tmp@[q] == deinterleave_spec(x0, n0 as int, stride as int, hadamard)[q],
        decreases n - p,
    {
        proof {
            lemma_index_parts(p as int, n0 as int, stride as int);
        }
        let b = p / n0;
        let j = p % n0;
        let i = if hadamard {
            ordery_inv[stride - 2 + b]
        } else {
            b
        };
        proof {
            lemma_index_split(j as int, stride as int, i as int, n0 as int);
        }
        tmp.push(x[j * stride + i]);
        p += 1;
    }
    let mut q: usize = 0;
    while q < n
        invariant
            n == n0 * stride,
            n <= x@.len(),
            x@.len() == x0.len(),
            tmp@.len() == n,
            forall|r: int| 0 <= r < n ==> #[trigger] tmp@[r] == deinterleave_spec(x0, n0 as int, stride as int, hadamard)[r],
            q <= n,
            forall|r: int| 0 <= r < q ==> #[trigger] x@[r] == tmp@[r],
            forall|r: int| q <= r < x@.len() ==> #[trigger] x@[r] == x0[r],
        decreases n - q,
    {
        x[q] = tmp[q];
        q += 1;
    }
    assert(x@ =~= deinterleave_spec(x0, n0 as int, stride as int, hadamard));
}

/// `interleave_hadamard`: scatters contiguous blocks of `n0` back into the
/// `stride` interleaved sub-sequences of `x[0..n0 * stride]`, taking
/// sub-sequence `i` from block `ordery[i]` when `hadamard` is set (else from
/// block `i`).
pub fn interleave_hadamard<T: Copy>(x: &mut [T], n0: usize, stride: usize, hadamard: bool)
    requires
        1 <= stride,
        n0 * stride <= old(x)@.len(),
        hadamard ==> hadamard_stride(stride as int),
    ensures
        final(x)@ == interleave_spec(old(x)@, n0 as int, stride as int, hadamard),
{
    let len = x.len();
    assert(n0 * stride <= len);
    let n = n0 * stride;
    let ordery: [usize; 30] = [1, 0, 3, 0, 2, 1, 7, 0, 4, 3, 6, 1, 5, 2, 15, 0, 8, 7, 12, 3, 11, 4, 14, 1, 9, 6, 13, 2, 10, 5];
    proof {
        assert(ordery@ =~= ordery_seq());
        lemma_ordery_tables();
    }
    let ghost x0 = x@;
    let mut tmp: Vec<T> = Vec::new();
    let mut p: usize = 0;
    while p < n
        invariant
            n == n0 * stride,
            1 <= stride,
            n <= x@.len(),
            x@ == x0,
            ordery@ == ordery_seq(),
            hadamard ==> hadamard_stride(stride as int),
            forall|s: int, i: int|
                #![trigger ordery_seq()[s - 2 + i]]
                hadamard_stride(s) && 0 <= i < s ==> {
                    let b = ordery_seq()[s - 2 + i] as int;
                    &&& 0 <= b < s
                    &&& ordery_inv_seq()[s - 2 + b] == i
                },
            p <= n,
            tmp@.len() == p,
            forall|q: int| 0 <= q < p ==> #[trigger] tmp@[q] == interleave_spec(x0, n0 as int, stride as int, hadamard)[q],
        decreases n - p,
    {
        proof {
            lemma_index_parts(p as int, stride as int, n0 as int);
            assert(n0 * stride == stride * n0) by (nonlinear_arith);
        }
        let j = p / stride;
        let i = p % stride;
        let b = if hadamard {
            ordery[stride - 2 + i]
        } else {
            i
        };
        proof {
            lemma_index_split(b as int, n0 as int, j as int, stride as int);
        }
        tmp.push(x[b * n0 + j]);
        p += 1;
    }
    let mut q: usize = 0;
    while q < n
        invariant
            n == n0 * stride,
            n <= x@.len(),
            x@.len() == x0.len(),
            tmp@.len() == n,
            forall|r: int| 0 <= r < n ==> #[trigger] tmp@[r] == interleave_spec(x0, n0 as int, stride as int, hadamard)[r],
            q <= n,
            forall|r: int| 0 <= r < q ==> #[trigger] x@[r] == tmp@[r],
            forall|r: int| q <= r < x@.len() ==> #[trigger] x@[r] == x0[r],
        decreases n - q,
    {
        x[q] = tmp[q];
        q += 1;
    }
    assert(x@ =~= interleave_spec(x0, n0 as int, stride as int, hadamard));
}

/// Interleaving undoes deinterleaving: the blocks go back to the
/// sub-sequences they came from.
pub proof fn lemma_interleave_inverts_deinterleave<T>(x: Seq<T>, n0: int, stride: int, hadamard: bool)
    requires
        1 <= stride,
        0 <= n0,
        n0 * stride <= x.len(),
        hadamard ==> hadamard_stride(stride),
    ensures
        interleave_spec(deinterleave_spec(x, n0, stride, hadamard), n0, stride, hadamard) == x,
{
    lemma_ordery_tables();
    let d = deinterleave_spec(x, n0, stride, hadamard);
    let y = interleave_spec(d, n0, stride, hadamard);
    assert forall|p: int| 0 <= p < x.len() implies y[p] == x[p] by {
        if p < n0 * stride {
            assert(n0 * stride == stride * n0) by (nonlinear_arith);
            lemma_index_parts(p, stride, n0);
            let j = p / stride;
            let i = p % stride;
            let b = block_of(stride, i, hadamard);
            lemma_index_split(b, n0, j, stride);
            assert(block_source(stride, b, hadamard) == i);
        }
    }
    assert(y =~= x);
}

} // verus!
