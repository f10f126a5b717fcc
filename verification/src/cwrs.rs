//! PVQ pulse-vector indexing (CWRS): the combinatorial codebook sizes, the
//! index of a pulse vector and its inverse, range-coded as a uniform integer.
use crate::range_coder::{dec_uint_spec, enc_uint_spec, RangeDecoder, RangeEncoder};
use crate::range_coder::{dec_new_spec, dec_ops_all, enc_done_spec, enc_new_spec, enc_ops_all, CodedOp};
use crate::round_trip::{enc_done_state, lemma_uint_ops_ok, lemma_uint_stream_round_trip, range_ops_ok, uint_ops};
use vstd::prelude::*;

verus! {

/// `U(n, k)`: the 2-D recurrence `U(n,k) = U(n-1,k) + U(n,k-1) + U(n-1,k-1)`
/// with `U(0,0) = 1` and zero elsewhere on the axes.
pub open spec fn pvq_u(n: nat, k: nat) -> nat
    decreases n, k,
{
    if n == 0 {
        if k == 0 {
            1
        } else {
            0
        }
    } else if k == 0 {
        0
    } else {
        pvq_u((n - 1) as nat, k) + pvq_u(n, (k - 1) as nat) + pvq_u((n - 1) as nat, (k - 1) as nat)
    }
}

/// `V(n, k)`: the number of pulse vectors of size `n` with `k` pulses.
pub open spec fn pvq_v(n: nat, k: nat) -> nat {
    pvq_u(n, k) + pvq_u(n, k + 1)
}

/// `U` is symmetric in its arguments.
pub proof fn lemma_u_symmetric(n: nat, k: nat)
    ensures
        pvq_u(n, k) == pvq_u(k, n),
    decreases n + k,
{
    if n > 0 && k > 0 {
        lemma_u_symmetric((n - 1) as nat, k);
        lemma_u_symmetric(n, (k - 1) as nat);
        lemma_u_symmetric((n - 1) as nat, (k - 1) as nat);
    }
}

/// Away from the origin, `U` grows along both axes.
pub proof fn lemma_u_monotone(n1: nat, k1: nat, n2: nat, k2: nat)
    requires
        1 <= n1 <= n2,
        k1 <= k2,
    ensures
        pvq_u(n1, k1) <= pvq_u(n2, k2),
    decreases n2 + k2,
{
    if n1 == n2 && k1 == k2 {
    } else if k1 == 0 {
    } else if n2 > n1 {
        lemma_u_monotone(n1, k1, (n2 - 1) as nat, k2);
    } else {
        lemma_u_monotone(n1, k1, n2, (k2 - 1) as nat);
    }
}

/// Closed forms of `U` for one to three dimensions.
pub proof fn lemma_u_closed_forms(k: nat)
    requires
        k >= 1,
    ensures
        pvq_u(1, k) == 1,
        pvq_u(2, k) == 2 * k - 1,
        pvq_u(3, k) == (2 * k - 2) * k + 1,
    decreases k,
{
    if k > 1 {
        lemma_u_closed_forms((k - 1) as nat);
        assert(pvq_u(0, k) == 0);
        assert(pvq_u(0, (k - 1) as nat) == 0);
        assert(pvq_u(1, k) == pvq_u(0, k) + pvq_u(1, (k - 1) as nat) + pvq_u(0, (k - 1) as nat));
        assert(pvq_u(2, k) == pvq_u(1, k) + pvq_u(2, (k - 1) as nat) + pvq_u(1, (k - 1) as nat));
        assert(pvq_u(3, k) == pvq_u(2, k) + pvq_u(3, (k - 1) as nat) + pvq_u(2, (k - 1) as nat));
        assert((2 * k - 2) * k + 1 == (2 * (k - 1) - 2) * (k - 1) + 1 + (2 * k - 1) + (2 * (k - 1)
            - 1)) by (nonlinear_arith);
    } else {
        assert(pvq_u(0, 1) == 0);
        assert(pvq_u(0, 0) == 1);
        assert(pvq_u(1, 0) == 0);
        assert(pvq_u(2, 0) == 0);
        assert(pvq_u(3, 0) == 0);
        assert(pvq_u(1, 1) == 1);
        assert(pvq_u(2, 1) == 1);
        assert(pvq_u(3, 1) == 1);
    }
}

/// Closed forms of `V` for two and three dimensions.
pub proof fn lemma_v_closed_forms(k: nat)
    requires
        k >= 1,
    ensures
        pvq_v(2, k) == 4 * k,
        pvq_v(3, k) == 4 * k * k + 2,
{
    lemma_u_closed_forms(k);
    lemma_u_closed_forms(k + 1);
    assert((2 * k - 2) * k + 1 + (2 * (k + 1) - 2) * (k + 1) + 1 == 4 * k * k + 2)
        by (nonlinear_arith);
}

/// `CELT_PVQ_U(n, k)`, computed by rolling the recurrence row by row in 64-bit
/// arithmetic and truncated to 32 bits.
pub fn u(n: u32, k: u32) -> (res: u32)
    requires
        pvq_u(n as nat, k as nat) <= u64::MAX,
        k < u32::MAX,
    ensures
        res == pvq_u(n as nat, k as nat) % 0x1_0000_0000,
{
    let ku = k as usize;
    let mut prev = vec![0u64; ku + 1];
    prev.set(0, 1);
    proof {
        assert forall|j: int| 0 <= j <= k implies prev@[j] == pvq_u(0, j as nat) by {
            if j > 0 {
                assert(cloned(0u64, prev@[j]));
            }
        }
    }
    if n == 0 {
        return prev[ku] as u32;
    }
    proof {
        assert(pvq_u((0 + 1) as nat, 0) == 0);
    }
    let mut cur = vec![0u64; ku + 1];
    let mut i: u32 = 0;
    while i < n
        invariant
            0 <= i <= n,
            k < u32::MAX,
            prev@.len() == ku + 1,
            cur@.len() == ku + 1,
            ku == k,
            n >= 1,
            pvq_u(n as nat, k as nat) <= u64::MAX,
            forall|j: int| 0 <= j <= k ==> prev@[j] == pvq_u(i as nat, j as nat),
        decreases n - i,
    {
        cur.set(0, 0);
        let mut j: usize = 1;
        while j <= ku
            invariant
                1 <= j <= ku + 1,
                0 <= i < n,
                k < u32::MAX,
                prev@.len() == ku + 1,
                cur@.len() == ku + 1,
                ku == k,
                pvq_u(n as nat, k as nat) <= u64::MAX,
                forall|jj: int| 0 <= jj <= k ==> prev@[jj] == pvq_u(i as nat, jj as nat),
                forall|jj: int| 0 <= jj < j ==> cur@[jj] == pvq_u((i + 1) as nat, jj as nat),
            decreases ku + 1 - j,
        {
            proof {
                lemma_u_monotone((i + 1) as nat, j as nat, n as nat, k as nat);
                assert(pvq_u((i + 1) as nat, j as nat) == pvq_u(i as nat, j as nat) + pvq_u(
                    (i + 1) as nat,
                    (j - 1) as nat,
                ) + pvq_u(i as nat, (j - 1) as nat));
            }
            let val = prev[j] + cur[j - 1] + prev[j - 1];
            cur.set(j, val);
            j += 1;
        }
        std::mem::swap(&mut prev, &mut cur);
        i += 1;
    }
    let r = prev[ku];
    proof {
        assert(r as u32 == r % 0x1_0000_0000) by (bit_vector);
    }
    r as u32
}

/// `CELT_PVQ_V(n, k)`: number of PVQ codewords for a size-`n` band with `k`
/// pulses.
pub fn v(n: u32, k: u32) -> (res: u32)
    requires
        pvq_v(n as nat, k as nat) <= u32::MAX,
        k < u32::MAX - 1,
    ensures
        res == pvq_v(n as nat, k as nat),
{
    u(n, k) + u(n, k + 1)
}

/// The L1 norm of the pulse vector `y[from..n]`.
pub open spec fn l1_from(y: Seq<i32>, from: int, n: int) -> nat
    decreases n - from,
{
    if from >= n {
        0
    } else {
        abs_i32(y[from]) + l1_from(y, from + 1, n)
    }
}

pub open spec fn abs_i32(x: i32) -> nat {
    if x < 0 {
        (-x) as nat
    } else {
        x as nat
    }
}

/// The CWRS index of the suffix `y[j..n]`: the last entry contributes its
/// sign; each earlier entry `y[j]` skips past the codewords of the suffix
/// with a smaller leading magnitude and, for a negative entry, past the
/// positive ones.
pub open spec fn icwrs_spec(y: Seq<i32>, j: int, n: int) -> nat
    decreases n - j,
{
    if j >= n - 1 {
        if y[n - 1] < 0 {
            1
        } else {
            0
        }
    } else {
        let k = l1_from(y, j + 1, n);
        let k2 = k + abs_i32(y[j]);
        icwrs_spec(y, j + 1, n) + pvq_u((n - j) as nat, k) + if y[j] < 0 {
            pvq_u((n - j) as nat, k2 + 1)
        } else {
            0
        }
    }
}

} // verus!

verus! {

pub proof fn lemma_l1_suffix_le(y: Seq<i32>, j: int, n: int)
    requires
        0 <= j <= n,
    ensures
        l1_from(y, j, n) <= l1_from(y, 0, n),
    decreases j,
{
    if j > 0 {
        lemma_l1_suffix_le(y, j - 1, n);
    }
}

/// The CWRS index of a suffix lies below the number of codewords for that
/// suffix length and norm.
pub proof fn lemma_icwrs_bound(y: Seq<i32>, j: int, n: int)
    requires
        0 <= j < n,
    ensures
        icwrs_spec(y, j, n) < pvq_v((n - j) as nat, l1_from(y, j, n)),
    decreases n - j,
{
    if j >= n - 1 {
        let a = abs_i32(y[n - 1]);
        assert(l1_from(y, j, n) == a) by {
            assert(l1_from(y, j + 1, n) == 0);
        }
        assert(pvq_u(0, a) == if a == 0 { 1nat } else { 0nat });
        assert(pvq_u(0, a + 1) == 0);
        assert(pvq_u(1, a + 1) == pvq_u(0, a + 1) + pvq_u(1, a) + pvq_u(0, a));
        if a > 0 {
            lemma_u_closed_forms(a);
        }
    } else {
        lemma_icwrs_bound(y, j + 1, n);
        let m = (n - j) as nat;
        let k = l1_from(y, j + 1, n);
        let a = abs_i32(y[j]);
        let k2 = k + a;
        assert(pvq_u(m, k + 1) == pvq_u((m - 1) as nat, k + 1) + pvq_u(m, k) + pvq_u(
            (m - 1) as nat,
            k,
        ));
        lemma_u_monotone(m, k + 1, m, k2 + 1);
        if a >= 1 {
            lemma_u_monotone(m, k + 1, m, k2);
        }
    }
}

/// `|x|` as an unsigned value.
fn abs_u32(x: i32) -> (res: u32)
    ensures
        res == abs_i32(x),
{
    if x < 0 {
        (-(x as i64)) as u32
    } else {
        x as u32
    }
}

/// Indexes a pulse vector `y` (length `n >= 2`) into `[0, V(n, |y|_1))`.
pub fn icwrs(n: usize, y: &[i32]) -> (res: u32)
    requires
        2 <= n <= y@.len(),
        n <= u32::MAX,
        l1_from(y@, 0, n as int) < u32::MAX - 1,
        pvq_v(n as nat, l1_from(y@, 0, n as int)) <= u32::MAX,
    ensures
        res == icwrs_spec(y@, 0, n as int),
{
    let ghost total = l1_from(y@, 0, n as int);
    let mut j = n - 1;
    let mut i: u32 = if y[j] < 0 {
        1
    } else {
        0
    };
    let mut k = abs_u32(y[j]);
    proof {
        lemma_l1_suffix_le(y@, j as int, n as int);
        assert(l1_from(y@, j as int + 1, n as int) == 0);
        lemma_icwrs_bound(y@, 0, n as int);
    }
    while j > 0
        invariant
            0 <= j < n,
            2 <= n <= y@.len(),
            n <= u32::MAX,
            total == l1_from(y@, 0, n as int),
            total < u32::MAX - 1,
            pvq_v(n as nat, total) <= u32::MAX,
            k == l1_from(y@, j as int, n as int),
            i == icwrs_spec(y@, j as int, n as int),
            icwrs_spec(y@, 0, n as int) < pvq_v(n as nat, total),
        decreases j,
    {
        j -= 1;
        let ghost a_j = abs_i32(y@[j as int]);
        proof {
            lemma_icwrs_step(y@, j as int, n as int);
            lemma_l1_suffix_le(y@, j as int, n as int);
            lemma_u_monotone((n - j) as nat, k as nat, n as nat, total + 1);
            lemma_u_monotone((n - j) as nat, (k + a_j + 1) as nat, n as nat, total + 1);
            lemma_icwrs_suffix_le(y@, j as int, n as int);
        }
        let a = u((n - j) as u32, k);
        i = i + a;
        k += abs_u32(y[j]);
        if y[j] < 0 {
            let b = u((n - j) as u32, k + 1);
            i = i + b;
        }
    }
    i
}

/// One step of the suffix recurrences.
pub proof fn lemma_icwrs_step(y: Seq<i32>, j: int, n: int)
    requires
        0 <= j < n - 1,
    ensures
        l1_from(y, j, n) == l1_from(y, j + 1, n) + abs_i32(y[j]),
        icwrs_spec(y, j, n) == icwrs_spec(y, j + 1, n) + pvq_u((n - j) as nat, l1_from(y, j + 1, n))
            + if y[j] < 0 {
            pvq_u((n - j) as nat, l1_from(y, j + 1, n) + abs_i32(y[j]) + 1)
        } else {
            0
        },
{
}

/// A suffix index never exceeds the index of the whole vector.
pub proof fn lemma_icwrs_suffix_le(y: Seq<i32>, j: int, n: int)
    requires
        0 <= j < n,
    ensures
        icwrs_spec(y, j, n) <= icwrs_spec(y, 0, n),
    decreases j,
{
    if j > 0 {
        lemma_icwrs_suffix_le(y, j - 1, n);
    }
}

/// Range-codes the pulse vector `y` of size `n` with `k` pulses as a uniform
/// integer below `V(n, k)`.
pub fn encode_pulses(y: &[i32], n: usize, k: u32, enc: &mut RangeEncoder)
    requires
        2 <= n <= y@.len(),
        n <= u32::MAX,
        k > 0,
        k == l1_from(y@, 0, n as int),
        k < u32::MAX - 1,
        pvq_v(n as nat, k as nat) <= u32::MAX,
        old(enc)@.wf(),
        old(enc)@.has_room(),
    ensures
        final(enc)@ == enc_uint_spec(
            old(enc)@,
            icwrs_spec(y@, 0, n as int) as u32,
            pvq_v(n as nat, k as nat) as u32,
        ),
        final(enc)@.wf(),
        final(enc)@.nbits_total <= old(enc)@.nbits_total + 48,
{
    proof {
        lemma_icwrs_bound(y@, 0, n as int);
        lemma_u_monotone(n as nat, 1, n as nat, k as nat);
        lemma_u_monotone(n as nat, 1, n as nat, (k + 1) as nat);
        assert(pvq_u(n as nat, 1) == pvq_u((n - 1) as nat, 1) + pvq_u(n as nat, 0) + pvq_u(
            (n - 1) as nat,
            0,
        ));
        lemma_u_pos_row(n as nat);
    }
    enc.enc_uint(icwrs(n, y), v(n as u32, k));
}

/// Every row past the origin has `U(n, 1) >= 1`.
pub proof fn lemma_u_pos_row(n: nat)
    requires
        n >= 1,
    ensures
        pvq_u(n, 1) >= 1,
    decreases n,
{
    assert(pvq_u(n, 1) == pvq_u((n - 1) as nat, 1) + pvq_u(n, 0) + pvq_u((n - 1) as nat, 0));
    if n > 1 {
        lemma_u_pos_row((n - 1) as nat);
    } else {
        assert(pvq_u(0, 0) == 1);
    }
}

} // verus!

verus! {

/// The sum of squares of the pulse vector `y[from..n]`.
pub open spec fn sq_sum(y: Seq<i32>, from: int, n: int) -> nat
    decreases n - from,
{
    if from >= n {
        0
    } else {
        (y[from] * y[from]) as nat + sq_sum(y, from + 1, n)
    }
}

/// What the entries `y[0..idx]` add to the CWRS index of `y[0..n]` when the
/// suffix from `idx` on has norm `ksuf`.
pub open spec fn icwrs_prefix(y: Seq<i32>, idx: int, n: int, ksuf: nat) -> nat
    decreases idx,
{
    if idx <= 0 {
        0
    } else {
        let j = idx - 1;
        let a = abs_i32(y[j]);
        icwrs_prefix(y, j, n, ksuf + a) + pvq_u((n - j) as nat, ksuf) + if y[j] < 0 {
            pvq_u((n - j) as nat, ksuf + a + 1)
        } else {
            0
        }
    }
}

proof fn lemma_l1_split(y: Seq<i32>, a: int, b: int, c: int)
    requires
        a <= b <= c,
    ensures
        l1_from(y, a, c) == l1_from(y, a, b) + l1_from(y, b, c),
    decreases b - a,
{
    if a < b {
        lemma_l1_split(y, a + 1, b, c);
    }
}

proof fn lemma_sq_split(y: Seq<i32>, a: int, b: int, c: int)
    requires
        a <= b <= c,
    ensures
        sq_sum(y, a, c) == sq_sum(y, a, b) + sq_sum(y, b, c),
    decreases b - a,
{
    if a < b {
        lemma_sq_split(y, a + 1, b, c);
    }
}

proof fn lemma_prefix_sums_ext(y: Seq<i32>, z: Seq<i32>, a: int, b: int)
    requires
        0 <= a <= b,
        forall|j: int| a <= j < b ==> y[j] == z[j],
    ensures
        l1_from(y, a, b) == l1_from(z, a, b),
        sq_sum(y, a, b) == sq_sum(z, a, b),
    decreases b - a,
{
    if a < b {
        lemma_prefix_sums_ext(y, z, a + 1, b);
    }
}

proof fn lemma_icwrs_prefix_ext(y: Seq<i32>, z: Seq<i32>, idx: int, n: int, ksuf: nat)
    requires
        0 <= idx,
        forall|j: int| 0 <= j < idx ==> y[j] == z[j],
    ensures
        icwrs_prefix(y, idx, n, ksuf) == icwrs_prefix(z, idx, n, ksuf),
    decreases idx,
{
    if idx > 0 {
        let a = abs_i32(y[idx - 1]);
        lemma_icwrs_prefix_ext(y, z, idx - 1, n, ksuf + a);
    }
}

/// The index of `y[0..n]` splits into what the prefix before `idx` adds and
/// the index of the suffix from `idx` on.
proof fn lemma_icwrs_split(y: Seq<i32>, idx: int, n: int)
    requires
        0 <= idx <= n - 1,
    ensures
        icwrs_spec(y, 0, n) == icwrs_prefix(y, idx, n, l1_from(y, idx, n)) + icwrs_spec(y, idx, n),
    decreases idx,
{
    if idx > 0 {
        lemma_icwrs_split(y, idx - 1, n);
        lemma_icwrs_step(y, idx - 1, n);
    }
}

/// Stepping the norm up by one adds `V(m - 1, k)` codewords.
proof fn lemma_u_row_step(m: nat, k: nat)
    requires
        m >= 1,
    ensures
        pvq_u(m, k + 1) == pvq_u(m, k) + pvq_v((m - 1) as nat, k),
{
    assert(pvq_u(m, k + 1) == pvq_u((m - 1) as nat, k + 1) + pvq_u(m, k) + pvq_u(
        (m - 1) as nat,
        k,
    ));
}

/// From two dimensions on, `U(m, .)` grows strictly.
proof fn lemma_u_strict(m: nat, a: nat, b: nat)
    requires
        m >= 2,
        a < b,
    ensures
        pvq_u(m, a) < pvq_u(m, b),
    decreases b - a,
{
    lemma_u_row_step(m, a);
    lemma_u_pos_row((m - 1) as nat);
    lemma_u_monotone((m - 1) as nat, 1, (m - 1) as nat, a + 1);
    if a + 1 < b {
        lemma_u_strict(m, a + 1, b);
    }
}

/// An index `i` with `U(m, kn) <= i < U(m, kn + 1)` leaves a remainder
/// below `V(m - 1, kn)` once `U(m, kn)` is taken off.
proof fn lemma_found_norm(m: nat, kn: nat, i: nat)
    requires
        m >= 1,
        pvq_u(m, kn) <= i < pvq_u(m, kn + 1),
    ensures
        i - pvq_u(m, kn) < pvq_v((m - 1) as nat, kn),
{
    lemma_u_row_step(m, kn);
}

/// The last two entries: `y[n - 2]` and `y[n - 1]` decoded from `ii` with
/// norm `kk` index back to `ii` and have norm `kk`.
proof fn lemma_cwrsi_tail(y: Seq<i32>, n: int, kk: nat, ii: nat, k1: nat, r: nat, neg: bool)
    requires
        n >= 2,
        y.len() >= n,
        ii < pvq_v(2, kk),
        neg == (ii >= 2 * kk + 1),
        k1 == ((if neg { ii - (2 * kk + 1) } else { ii as int }) + 1) / 2,
        r == (if neg { ii - (2 * kk + 1) } else { ii as int }) - (if k1 != 0 { 2 * k1 - 1 } else { 0 }),
        y[n - 2] == (if neg { -(kk - k1) } else { kk - k1 }),
        y[n - 1] == (if r == 1 { -k1 } else { k1 as int }),
    ensures
        icwrs_spec(y, n - 2, n) == ii,
        l1_from(y, n - 2, n) == kk,
        k1 <= kk,
        r <= 1,
        neg ==> k1 < kk,
{
    let ia: int = if neg { ii - (2 * kk + 1) } else { ii as int };
    if kk == 0 {
        assert(pvq_u(2, 0) == 0);
        assert(pvq_u(1, 1) == pvq_u(0, 1) + pvq_u(1, 0) + pvq_u(0, 0));
        assert(pvq_u(2, 1) == pvq_u(1, 1) + pvq_u(2, 0) + pvq_u(1, 0));
    } else {
        lemma_u_closed_forms(kk);
        lemma_u_closed_forms(kk + 1);
    }
    assert(0 <= ia);
    assert(k1 <= kk);
    assert(l1_from(y, n, n) == 0);
    assert(l1_from(y, n - 1, n) == k1);
    if k1 >= 1 {
        lemma_u_closed_forms(k1);
    } else {
        assert(pvq_u(2, 0) == 0);
    }
    assert(icwrs_spec(y, n - 1, n) == r);
    lemma_icwrs_step(y, n - 2, n);
}


/// Writing entry `idx` of the vector moves the decoder's bookkeeping one
/// position on.
proof fn lemma_cwrsi_advance(
    y: Seq<i32>,
    idx: int,
    n0: int,
    kk: nat,
    kn: nat,
    val: i32,
    ii: nat,
    inew: nat,
    i0: nat,
    k0: nat,
    yy: nat,
)
    requires
        0 <= idx < n0,
        y.len() >= n0,
        i0 == icwrs_prefix(y, idx, n0, kk) + ii,
        k0 == l1_from(y, 0, idx) + kk,
        yy == sq_sum(y, 0, idx),
        kn + abs_i32(val) == kk,
        ii == inew + pvq_u((n0 - idx) as nat, kn) + (if val < 0 {
            pvq_u((n0 - idx) as nat, kk + 1)
        } else {
            0
        }),
    ensures
        ({
            let y2 = y.update(idx, val);
            &&& i0 == icwrs_prefix(y2, idx + 1, n0, kn) + inew
            &&& k0 == l1_from(y2, 0, idx + 1) + kn
            &&& yy + val * val == sq_sum(y2, 0, idx + 1)
        }),
{
    let y2 = y.update(idx, val);
    lemma_icwrs_prefix_ext(y, y2, idx, n0, kk);
    lemma_prefix_sums_ext(y, y2, 0, idx);
    lemma_l1_split(y2, 0, idx, idx + 1);
    lemma_sq_split(y2, 0, idx, idx + 1);
    assert(l1_from(y2, idx + 1, idx + 1) == 0);
    assert(sq_sum(y2, idx + 1, idx + 1) == 0);
    assert(y2[idx] == val);
    assert(l1_from(y2, idx, idx + 1) == abs_i32(val));
    assert(val * val >= 0) by (nonlinear_arith);
    assert(sq_sum(y2, idx, idx + 1) == val * val);
    assert(icwrs_prefix(y2, idx + 1, n0, kn) == icwrs_prefix(y2, idx, n0, kk) + pvq_u(
        (n0 - idx) as nat,
        kn,
    ) + if val < 0 {
        pvq_u((n0 - idx) as nat, kk + 1)
    } else {
        0
    });
}


/// `U(a, b)` for arguments that stay below a codebook size that fits 32 bits.
fn u_within(a: u32, b: u32, Ghost(m): Ghost<nat>, Ghost(kmax): Ghost<nat>) -> (res: u32)
    requires
        m >= 1,
        pvq_u(m, kmax) <= u32::MAX,
        (a == m && b <= kmax) || (b == m && a <= kmax),
        a < u32::MAX,
        b < u32::MAX,
    ensures
        res == pvq_u(a as nat, b as nat),
        res == pvq_u(b as nat, a as nat),
{
    proof {
        lemma_u_symmetric(a as nat, b as nat);
        if a == m {
            lemma_u_monotone(m, b as nat, m, kmax);
        } else {
            lemma_u_monotone(m, a as nat, m, kmax);
        }
    }
    u(a, b)
}

/// Decodes the leading entry of a pulse vector of size `m >= 3` and norm `k`
/// from its index `i`: its value, the norm `kn` of the rest, and the index
/// of the rest.
fn cwrsi_entry(m: u32, k: u32, i: u32) -> (res: (i32, u32, u32))
    requires
        3 <= m < u32::MAX,
        k <= i32::MAX,
        pvq_v(m as nat, k as nat) <= u32::MAX,
        i < pvq_v(m as nat, k as nat),
    ensures
        res.1 + abs_i32(res.0) == k,
        i == res.2 + pvq_u(m as nat, res.1 as nat) + (if res.0 < 0 {
            pvq_u(m as nat, k as nat + 1)
        } else {
            0
        }),
        res.2 < pvq_v((m - 1) as nat, res.1 as nat),
{
    let ghost mm = m as nat;
    let ghost kk = k as nat;
    let ghost top = (k + 1) as nat;
    let mut i = i;
    let mut k = k;
    if k >= m {
        let p = u_within(m, k + 1, Ghost(mm), Ghost(top));
        let neg = i >= p;
        if neg {
            i = i - p;
        }
        let prev_k = k;
        proof {
            lemma_u_monotone(mm, mm, mm, kk);
        }
        let q = u_within(m, m, Ghost(mm), Ghost(top));
        let mut p2: u32;
        if q > i {
            k = m - 1;
            p2 = u_within(k, m, Ghost(mm), Ghost(top));
            while p2 > i
                invariant
                    3 <= m < u32::MAX,
                    mm == m,
                    top == prev_k + 1,
                    prev_k >= m,
                    pvq_u(mm, top) <= u32::MAX,
                    k < m,
                    p2 == pvq_u(mm, k as nat),
                    i < pvq_u(mm, k as nat + 1),
                decreases k,
            {
                proof {
                    if k == 0 {
                        assert(pvq_u(mm, 0) == 0);
                    }
                }
                k -= 1;
                p2 = u_within(k, m, Ghost(mm), Ghost(top));
            }
        } else {
            p2 = u_within(m, k, Ghost(mm), Ghost(top));
            while p2 > i
                invariant
                    3 <= m < u32::MAX,
                    mm == m,
                    top == prev_k + 1,
                    m <= k <= prev_k,
                    pvq_u(mm, top) <= u32::MAX,
                    pvq_u(mm, mm) <= i,
                    p2 == pvq_u(mm, k as nat),
                    k < prev_k ==> i < pvq_u(mm, k as nat + 1),
                decreases k,
            {
                k -= 1;
                p2 = u_within(m, k, Ghost(mm), Ghost(top));
            }
        }
        proof {
            lemma_u_row_step(mm, kk);
            if neg {
                if k >= prev_k {
                    if k > prev_k {
                        lemma_u_strict(mm, kk, k as nat);
                    }
                    assert(false);
                }
            } else if k > prev_k {
                lemma_u_strict(mm, kk + 1, k as nat);
                assert(false);
            }
            if k == prev_k {
                assert(i < pvq_u(mm, kk + 1));
            }
            lemma_found_norm(mm, k as nat, i as nat);
        }
        i = i - p2;
        let d = (prev_k - k) as i32;
        let val = if neg {
            -d
        } else {
            d
        };
        (val, k, i)
    } else {
        let p = u_within(k, m, Ghost(mm), Ghost(top));
        let q = u_within(k + 1, m, Ghost(mm), Ghost(top));
        proof {
            lemma_u_row_step(mm, kk);
        }
        if p <= i && i < q {
            proof {
                lemma_found_norm(mm, kk, i as nat);
            }
            (0, k, i - p)
        } else {
            let neg = i >= q;
            if neg {
                i = i - q;
            }
            let prev_k = k;
            proof {
                if k == 0 {
                    assert(pvq_u(mm, 0) == 0);
                    assert(pvq_v(mm, 0) == pvq_u(mm, 1));
                }
            }
            k = k - 1;
            let mut p2 = u_within(k, m, Ghost(mm), Ghost(top));
            while p2 > i
                invariant
                    3 <= m < u32::MAX,
                    mm == m,
                    top == prev_k + 1,
                    k < prev_k,
                    pvq_u(mm, top) <= u32::MAX,
                    p2 == pvq_u(mm, k as nat),
                    i < pvq_u(mm, k as nat + 1),
                decreases k,
            {
                proof {
                    if k == 0 {
                        assert(pvq_u(mm, 0) == 0);
                    }
                }
                k -= 1;
                p2 = u_within(k, m, Ghost(mm), Ghost(top));
            }
            proof {
                lemma_found_norm(mm, k as nat, i as nat);
            }
            i = i - p2;
            let d = (prev_k - k) as i32;
            let val = if neg {
                -d
            } else {
                d
            };
            (val, k, i)
        }
    }
}


proof fn lemma_square_sum_bound(l: int, a: int, b: int)
    requires
        0 <= l,
        0 <= a,
        0 <= b,
    ensures
        l * l + a * a <= (l + a) * (l + a),
        l * l + a * a + b * b <= (l + a + b) * (l + a + b),
{
    assert(l * l + a * a <= (l + a) * (l + a)) by (nonlinear_arith)
        requires
            0 <= l,
            0 <= a,
    ;
    assert(l * l + a * a + b * b <= (l + a + b) * (l + a + b)) by (nonlinear_arith)
        requires
            0 <= l,
            0 <= a,
            0 <= b,
    ;
}

proof fn lemma_sq_abs(x: i32)
    ensures
        x * x == abs_i32(x) * abs_i32(x),
        x * x >= 0,
{
    let a = abs_i32(x) as int;
    assert(a == x || a == -x);
    assert(x * x == a * a) by (nonlinear_arith)
        requires
            a == x || a == -x,
    ;
    assert(x * x >= 0) by (nonlinear_arith);
}

proof fn lemma_sq_le(a: int, b: int)
    requires
        0 <= a <= b,
    ensures
        a * a <= b * b,
{
    assert(a * a <= b * b) by (nonlinear_arith)
        requires
            0 <= a <= b,
    ;
}

/// `|x|` of an entry known to fit, as a 64-bit value.
fn abs_u64(x: i32) -> (res: u64)
    ensures
        res == abs_i32(x),
{
    if x < 0 {
        (-(x as i64)) as u64
    } else {
        x as u64
    }
}

/// `cwrsi`: reconstructs into `y[0..n0]` the pulse vector of size `n0` and
/// norm `k0` whose CWRS index is `i0`, and returns the sum of its squares.
/// The entries past `n0` are left alone.
pub fn cwrsi(n0: usize, k0: u32, i0: u32, y: &mut [i32]) -> (yy: u64)
    requires
        2 <= n0 <= old(y)@.len(),
        n0 < u32::MAX,
        k0 <= i32::MAX,
        pvq_v(n0 as nat, k0 as nat) <= u32::MAX,
        i0 < pvq_v(n0 as nat, k0 as nat),
    ensures
        final(y)@.len() == old(y)@.len(),
        forall|j: int| n0 <= j < old(y)@.len() ==> final(y)@[j] == old(y)@[j],
        l1_from(final(y)@, 0, n0 as int) == k0,
        icwrs_spec(final(y)@, 0, n0 as int) == i0,
        yy == sq_sum(final(y)@, 0, n0 as int),
{
    let ghost y0 = y@;
    let mut n: u32 = n0 as u32;
    let mut k: u32 = k0;
    let mut i: u32 = i0;
    let mut yy: u64 = 0;
    let mut idx: usize = 0;
    while n > 2
        invariant
            2 <= n0 <= y@.len(),
            n0 < u32::MAX,
            y@.len() == y0.len(),
            2 <= n <= n0,
            n + idx == n0,
            k <= k0,
            k0 <= i32::MAX,
            pvq_v(n0 as nat, k0 as nat) <= u32::MAX,
            pvq_v(n as nat, k as nat) <= u32::MAX,
            i < pvq_v(n as nat, k as nat),
            i0 == icwrs_prefix(y@, idx as int, n0 as int, k as nat) + i,
            k0 == l1_from(y@, 0, idx as int) + k,
            yy == sq_sum(y@, 0, idx as int),
            yy <= (k0 - k) * (k0 - k),
            forall|j: int| idx <= j < y0.len() ==> y@[j] == y0[j],
        decreases n,
    {
        let res = cwrsi_entry(n, k, i);
        let val = res.0;
        let kn = res.1;
        let inew = res.2;
        proof {
            lemma_cwrsi_advance(
                y@,
                idx as int,
                n0 as int,
                k as nat,
                kn as nat,
                val,
                i as nat,
                inew as nat,
                i0 as nat,
                k0 as nat,
                yy as nat,
            );
            lemma_square_sum_bound((k0 - k) as int, abs_i32(val) as int, 0);
            lemma_sq_abs(val);
            lemma_sq_le((k0 - kn) as int, k0 as int);
            lemma_sq_le(k0 as int, 0x8000_0000);
            lemma_sq_le(abs_i32(val) as int, k0 as int);
            lemma_u_monotone((n - 1) as nat, kn as nat, n as nat, k as nat);
            lemma_u_monotone((n - 1) as nat, kn as nat + 1, n as nat, k as nat + 1);
        }
        y[idx] = val;
        let a = abs_u64(val);
        yy = yy + a * a;
        i = inew;
        k = kn;
        n = n - 1;
        idx = idx + 1;
    }
    proof {
        if k >= 1 {
            lemma_u_closed_forms(k as nat);
            lemma_u_closed_forms(k as nat + 1);
        } else {
            assert(pvq_u(2, 0) == 0);
            assert(pvq_u(1, 1) == pvq_u(0, 1) + pvq_u(1, 0) + pvq_u(0, 0));
            assert(pvq_u(2, 1) == pvq_u(1, 1) + pvq_u(2, 0) + pvq_u(1, 0));
        }
    }
    let ghost kk = k as nat;
    let ghost ii = i as nat;
    let ghost ybefore = y@;
    let ghost yy0 = yy;
    let p = 2 * k + 1;
    let neg = i >= p;
    if neg {
        i = i - p;
    }
    let prev_k = k;
    k = (i + 1) / 2;
    if k != 0 {
        i = i - (2 * k - 1);
    }
    let d = (prev_k - k) as i32;
    let v2 = if neg {
        -d
    } else {
        d
    };
    y[idx] = v2;
    let v1 = if i == 1 {
        -(k as i32)
    } else {
        k as i32
    };
    y[idx + 1] = v1;
    proof {
        lemma_cwrsi_tail(y@, n0 as int, kk, ii, k as nat, i as nat, neg);
        lemma_square_sum_bound((k0 - kk) as int, d as int, k as int);
        lemma_sq_abs(v1);
        lemma_sq_abs(v2);
        lemma_sq_le(k0 as int, 0x8000_0000);
        lemma_sq_le(d as int, k0 as int);
        lemma_sq_le(k as int, k0 as int);
        assert(abs_i32(v2) == d);
        assert(abs_i32(v1) == k);
    }
    let a2 = abs_u64(v2);
    let a1 = abs_u64(v1);
    yy = yy + a2 * a2 + a1 * a1;
    proof {
        let yf = y@;
        let n = n0 as int;
        lemma_icwrs_prefix_ext(ybefore, yf, n - 2, n, kk);
        lemma_prefix_sums_ext(ybefore, yf, 0, n - 2);
        lemma_icwrs_split(yf, n - 2, n);
        lemma_l1_split(yf, 0, n - 2, n);
        lemma_sq_split(yf, 0, n - 2, n);
        assert(sq_sum(yf, n, n) == 0);
        assert(yf[n - 2] == v2);
        assert(yf[n - 1] == v1);
        assert(sq_sum(yf, n - 1, n) == v1 * v1);
        assert(sq_sum(yf, n - 2, n) == v2 * v2 + v1 * v1);
    }
    yy
}


proof fn lemma_icwrs_injective_from(y: Seq<i32>, z: Seq<i32>, j: int, n: int)
    requires
        0 <= j < n,
        l1_from(y, j, n) == l1_from(z, j, n),
        icwrs_spec(y, j, n) == icwrs_spec(z, j, n),
    ensures
        forall|t: int| j <= t < n ==> y[t] == z[t],
    decreases n - j,
{
    if j == n - 1 {
        assert(l1_from(y, n, n) == 0 && l1_from(z, n, n) == 0);
        assert(y[j] == z[j]);
    } else {
        let m = (n - j) as nat;
        let kk = l1_from(y, j, n);
        lemma_icwrs_step(y, j, n);
        lemma_icwrs_step(z, j, n);
        let ky = l1_from(y, j + 1, n);
        let kz = l1_from(z, j + 1, n);
        lemma_icwrs_bound(y, j + 1, n);
        lemma_icwrs_bound(z, j + 1, n);
        lemma_u_row_step(m, ky);
        lemma_u_row_step(m, kz);
        lemma_u_row_step(m, kk);
        if ky + 1 <= kk {
            lemma_u_monotone(m, ky + 1, m, kk);
        }
        if kz + 1 <= kk {
            lemma_u_monotone(m, kz + 1, m, kk);
        }
        lemma_u_monotone(m, ky + 1, m, kk + 1);
        lemma_u_monotone(m, kz + 1, m, kk + 1);
        if ky < kz {
            lemma_u_monotone(m, ky + 1, m, kz);
        }
        if kz < ky {
            lemma_u_monotone(m, kz + 1, m, ky);
        }
        assert(ky == kz);
        assert(y[j] == z[j]);
        lemma_icwrs_injective_from(y, z, j + 1, n);
    }
}

/// A pulse vector is determined by its size, its norm and its CWRS index:
/// whatever `cwrsi` rebuilds from the index of `y` with the norm of `y` is
/// `y` itself.
pub proof fn lemma_cwrs_round_trip(y: Seq<i32>, decoded: Seq<i32>, n: int)
    requires
        1 <= n <= y.len(),
        n <= decoded.len(),
        l1_from(decoded, 0, n) == l1_from(y, 0, n),
        icwrs_spec(decoded, 0, n) == icwrs_spec(y, 0, n),
    ensures
        decoded.subrange(0, n) == y.subrange(0, n),
{
    lemma_icwrs_injective_from(decoded, y, 0, n);
    assert(decoded.subrange(0, n) =~= y.subrange(0, n));
}


/// Range-decodes a pulse vector of size `n` with `k` pulses into `y[0..n]`:
/// reads its index as a uniform integer below `V(n, k)` and rebuilds the
/// vector with [`cwrsi`]; returns the sum of its squares.
pub fn decode_pulses(y: &mut [i32], n: usize, k: u32, dec: &mut RangeDecoder) -> (yy: u64)
    requires
        2 <= n <= old(y)@.len(),
        n < u32::MAX,
        1 <= k <= i32::MAX,
        pvq_v(n as nat, k as nat) <= u32::MAX,
        old(dec)@.wf(),
        old(dec)@.has_room(),
    ensures
        ({
            let (d2, index) = dec_uint_spec(old(dec)@, pvq_v(n as nat, k as nat) as u32);
            &&& final(dec)@ == d2
            &&& l1_from(final(y)@, 0, n as int) == k
            &&& icwrs_spec(final(y)@, 0, n as int) == index
        }),
        yy == sq_sum(final(y)@, 0, n as int),
        final(dec)@.wf(),
        final(y)@.len() == old(y)@.len(),
        forall|j: int| n <= j < old(y)@.len() ==> final(y)@[j] == old(y)@[j],
{
    proof {
        lemma_u_pos_row(n as nat);
        lemma_u_monotone(n as nat, 1, n as nat, k as nat);
        lemma_u_monotone(n as nat, 1, n as nat, k as nat + 1);
    }
    let i = dec.dec_uint(v(n as u32, k));
    cwrsi(n, k, i, y)
}

/// Pulse vectors come back through the range coder: in any stream a fresh
/// encoder writes (the calls of `before`, then the index `encode_pulses`
/// codes for `y`, then those of `after`) and `done` hands out in full, the
/// index a decoder over the bytes that mirrors `before` reads with
/// `dec_uint`, and so any vector with `k` pulses that `decode_pulses`
/// rebuilds from it, is `y`.
pub proof fn lemma_pulses_stream_round_trip(
    size: nat,
    before: Seq<CodedOp>,
    after: Seq<CodedOp>,
    y: Seq<i32>,
    out: Seq<i32>,
    n: int,
    k: int,
)
    requires
        size < 0x1_0000_0000,
        2 <= n <= y.len(),
        n <= out.len(),
        k >= 1,
        k == l1_from(y, 0, n),
        pvq_v(n as nat, k as nat) <= u32::MAX,
        ({
            let u = uint_ops(icwrs_spec(y, 0, n) as u32, pvq_v(n as nat, k as nat) as u32);
            let ops = before + u + after;
            &&& range_ops_ok(ops)
            &&& ops.len() <= 0x1000_0000
            &&& !enc_done_state(enc_ops_all(enc_new_spec(size), ops)).error
        }),
        l1_from(out, 0, n) == k,
        icwrs_spec(out, 0, n) == dec_uint_spec(
            dec_ops_all(
                dec_new_spec(
                    enc_done_spec(
                        enc_ops_all(
                            enc_new_spec(size),
                            before + uint_ops(icwrs_spec(y, 0, n) as u32, pvq_v(n as nat, k as nat) as u32)
                                + after,
                        ),
                    ),
                ),
                before,
            ),
            pvq_v(n as nat, k as nat) as u32,
        ).1,
    ensures
        out.subrange(0, n) == y.subrange(0, n),
{
    lemma_icwrs_bound(y, 0, n);
    lemma_u_pos_row(n as nat);
    lemma_u_monotone(n as nat, 1, n as nat, k as nat);
    lemma_u_monotone(n as nat, 1, n as nat, k as nat + 1);
    lemma_uint_ops_ok(icwrs_spec(y, 0, n) as u32, pvq_v(n as nat, k as nat) as u32);
    lemma_uint_stream_round_trip(
        size,
        before,
        after,
        icwrs_spec(y, 0, n) as u32,
        pvq_v(n as nat, k as nat) as u32,
    );
    lemma_cwrs_round_trip(y, out, n);
}

} // verus!
