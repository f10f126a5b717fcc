//! The per-band time-frequency resolution flags: delta-coded against the
//! running value with a budget-aware probability, then mapped through
//! `tf_select_table`.
use crate::range_coder::{
    dec_bit_logp_spec, enc_bit_logp_spec, lemma_bit_counts_agree, DecState, EncState, RangeDecoder,
    RangeEncoder, EC_NBITS_LIMIT,
};
use crate::range_coder::{dec_new_spec, dec_ops_all, dec_reads_back, enc_done_spec, enc_new_spec, enc_ops_all, CodedOp};
use crate::round_trip::{
    dec_op, enc_done_state, enc_op, lemma_enc_ops_cons, lemma_reads_back_cons, lemma_reads_back_prefix,
    lemma_reads_back_split, lemma_round_trip_at, op_read_back, range_ops_ok,
};
use vstd::prelude::*;

verus! {

/// `tf_select_table[LM][4*isTransient + 2*tf_select + tf_change]`.
pub open spec fn tf_select_table(lm: int, idx: int) -> int {
    let row: Seq<int> = if lm == 0 {
        seq![0, -1, 0, -1, 0, -1, 0, -1]
    } else if lm == 1 {
        seq![0, -1, 0, -2, 1, 0, 1, -1]
    } else if lm == 2 {
        seq![0, -2, 0, -3, 2, 0, 1, -1]
    } else {
        seq![0, -2, 0, -3, 3, 0, 1, -1]
    };
    row[idx]
}

fn table_entry(lm: usize, idx: usize) -> (res: i8)
    requires
        lm <= 3,
        idx < 8,
    ensures
        res == tf_select_table(lm as int, idx as int),
{
    let table: [[i8; 8]; 4] = [
        [0, -1, 0, -1, 0, -1, 0, -1],
        [0, -1, 0, -2, 1, 0, 1, -1],
        [0, -2, 0, -3, 2, 0, 1, -1],
        [0, -2, 0, -3, 3, 0, 1, -1],
    ];
    table[lm][idx]
}

proof fn lemma_flag_ops(a: i32, b: i32)
    requires
        0 <= a <= 1,
        0 <= b <= 1,
    ensures
        ((a ^ b) != 0) == (a != b),
        a | b == (if a == 1 || b == 1 {
            1i32
        } else {
            0i32
        }),
{
    assert(0 <= a <= 1 && 0 <= b <= 1 ==> ((a ^ b) != 0) == (a != b)) by (bit_vector);
    assert(0 <= a <= 1 && 0 <= b <= 1 ==> a | b == (if a == 1 || b == 1 {
        1i32
    } else {
        0i32
    })) by (bit_vector);
}

pub open spec fn tf_flags(res: Seq<i32>, start: int, end: int) -> bool {
    forall|j: int| start <= j < end ==> 0 <= #[trigger] res[j] <= 1
}

/// The encoder's pass over the bands `j..end`: each flag is coded as a change
/// against the running value while the budget allows, otherwise it is
/// replaced by the running value.
pub open spec fn tf_enc_loop(
    enc: EncState,
    res: Seq<i32>,
    j: int,
    end: int,
    budget: int,
    logp: int,
    next_logp: int,
    curr: int,
    changed: int,
) -> (EncState, Seq<i32>, int)
    decreases end - j,
{
    if j >= end {
        (enc, res, changed)
    } else if enc.tell() + logp <= budget {
        let e2 = enc_bit_logp_spec(enc, res[j] != curr, logp as nat);
        tf_enc_loop(
            e2,
            res,
            j + 1,
            end,
            budget,
            next_logp,
            next_logp,
            res[j] as int,
            if res[j] == 1 {
                1
            } else {
                changed
            },
        )
    } else {
        tf_enc_loop(enc, res.update(j, curr as i32), j + 1, end, budget, next_logp, next_logp, curr, changed)
    }
}

/// Maps the raw flags `start..end` through the table row for `lm`.
pub open spec fn tf_map(res: Seq<i32>, start: int, end: int, lm: int, it: int, sel: int) -> Seq<i32> {
    Seq::new(
        res.len(),
        |j: int|
            if start <= j < end {
                tf_select_table(lm, 4 * it + 2 * sel + res[j]) as i32
            } else {
                res[j]
            },
    )
}

/// Whether `tf_select` is worth a bit: only when the two table options differ
/// for the coded change pattern.
pub open spec fn tf_select_matters(lm: int, it: int, changed: int) -> bool {
    tf_select_table(lm, 4 * it + changed) != tf_select_table(lm, 4 * it + 2 + changed)
}

/// The coder state and flags [`tf_encode`] produces.
pub open spec fn tf_encode_spec(
    enc: EncState,
    res: Seq<i32>,
    start: int,
    end: int,
    is_transient: bool,
    lm: int,
    tf_select: int,
) -> (EncState, Seq<i32>) {
    let budget0 = enc.storage * 8;
    let logp: int = if is_transient {
        2
    } else {
        4
    };
    let next_logp: int = if is_transient {
        4
    } else {
        5
    };
    let rsv: int = if lm > 0 && enc.tell() + logp < budget0 {
        1
    } else {
        0
    };
    let it: int = if is_transient {
        1
    } else {
        0
    };
    let (e1, r1, changed) = tf_enc_loop(enc, res, start, end, budget0 - rsv, logp, next_logp, 0, 0);
    if rsv != 0 && tf_select_matters(lm, it, changed) {
        (enc_bit_logp_spec(e1, tf_select != 0, 1), tf_map(r1, start, end, lm, it, tf_select))
    } else {
        (e1, tf_map(r1, start, end, lm, it, 0))
    }
}

/// Bits a coding pass over `n` bands may add to the bit counter.
pub open spec fn tf_room(nbits_total: int, n: int) -> bool {
    nbits_total + 24 * (n + 1) <= EC_NBITS_LIMIT - 64
}

/// `tf_encode`: delta-codes the per-band tf-change flags `tf_res[start..end]`
/// (each `0`/`1`) into `enc`, then rewrites `tf_res` through `tf_select_table`.
pub fn tf_encode(
    start: usize,
    end: usize,
    is_transient: bool,
    tf_res: &mut [i32],
    lm: i32,
    tf_select: i32,
    enc: &mut RangeEncoder,
)
    requires
        start <= end <= old(tf_res)@.len(),
        0 <= lm <= 3,
        0 <= tf_select <= 1,
        tf_flags(old(tf_res)@, start as int, end as int),
        old(enc)@.wf(),
        old(enc)@.storage * 8 <= u32::MAX,
        tf_room(old(enc)@.nbits_total as int, end - start),
    ensures
        (final(enc)@, final(tf_res)@) == tf_encode_spec(
            old(enc)@,
            old(tf_res)@,
            start as int,
            end as int,
            is_transient,
            lm as int,
            tf_select as int,
        ),
        final(enc)@.wf(),
        final(tf_res)@.len() == old(tf_res)@.len(),
{
    let ghost e0 = enc@;
    let ghost r0 = tf_res@;
    let budget0 = enc.storage_bits();
    let mut tell = enc.ec_tell() as u32;
    let mut logp: u32 = if is_transient {
        2
    } else {
        4
    };
    let next_logp: u32 = if is_transient {
        4
    } else {
        5
    };
    let tf_select_rsv = (lm > 0 && tell + logp < budget0) as u32;
    let budget = budget0 - tf_select_rsv;
    let mut curr = 0i32;
    let mut tf_changed = 0i32;
    let ghost target = tf_enc_loop(e0, r0, start as int, end as int, budget as int, logp as int, next_logp as int, 0, 0);
    let mut j = start;
    while j < end
        invariant
            start <= j <= end <= tf_res@.len(),
            tf_res@.len() == r0.len(),
            enc@.wf(),
            tell == enc@.tell(),
            enc@.storage == e0.storage,
            tf_room(enc@.nbits_total as int, end - j),
            0 <= curr <= 1,
            0 <= tf_changed <= 1,
            tf_flags(tf_res@, j as int, end as int),
            forall|x: int| j <= x < end ==> tf_res@[x] == r0[x],
            forall|x: int| 0 <= x < start ==> tf_res@[x] == r0[x],
            forall|x: int| end <= x < r0.len() ==> tf_res@[x] == r0[x],
            logp == 2 || logp == 4 || logp == 5,
            next_logp == (if is_transient { 4u32 } else { 5u32 }),
            tf_enc_loop(enc@, tf_res@, j as int, end as int, budget as int, logp as int, next_logp as int, curr as int, tf_changed as int) == target,
            forall|x: int| start <= x < j ==> 0 <= #[trigger] tf_res@[x] <= 1,
        decreases end - j,
    {
        let r = tf_res[j];
        proof {
            lemma_flag_ops(r, curr);
        }
        if tell + logp <= budget {
            enc.enc_bit_logp((r ^ curr) != 0, logp);
            tell = enc.ec_tell() as u32;
            curr = r;
            proof {
                lemma_flag_ops(tf_changed, curr);
            }
            tf_changed |= curr;
        } else {
            tf_res[j] = curr;
        }
        logp = next_logp;
        j += 1;
    }
    let lmu = lm as usize;
    let it: usize = is_transient as usize;
    let ghost r1 = tf_res@;
    let mut sel = tf_select;
    if tf_select_rsv != 0 && table_entry(lmu, 4 * it + tf_changed as usize) != table_entry(
        lmu,
        4 * it + 2 + tf_changed as usize,
    ) {
        enc.enc_bit_logp(sel != 0, 1);
    } else {
        sel = 0;
    }
    let mut j = start;
    while j < end
        invariant
            start <= j <= end <= tf_res@.len(),
            tf_res@.len() == r1.len(),
            0 <= sel <= 1,
            0 <= lmu <= 3,
            it <= 1,
            lmu == lm,
            forall|x: int| start <= x < end ==> 0 <= #[trigger] r1[x] <= 1,
            forall|x: int| j <= x < r1.len() ==> tf_res@[x] == r1[x],
            forall|x: int| 0 <= x < start ==> tf_res@[x] == r1[x],
            forall|x: int| start <= x < j ==> tf_res@[x] == tf_select_table(lm as int, 4 * it + 2 * sel + r1[x]),
        decreases end - j,
    {
        assert(tf_res@[j as int] == r1[j as int]);
        assert(0 <= r1[j as int] <= 1);
        let v = table_entry(lmu, 4 * it + 2 * sel as usize + tf_res[j] as usize);
        tf_res[j] = v as i32;
        j += 1;
    }
    proof {
        assert(tf_res@ =~= tf_map(r1, start as int, end as int, lm as int, it as int, sel as int));
    }
}

} // verus!

verus! {

proof fn lemma_flip(a: i32)
    requires
        0 <= a <= 1,
    ensures
        a ^ 1i32 == 1 - a,
        a ^ 0i32 == a,
{
    assert(0 <= a <= 1 ==> a ^ 1i32 == 1 - a && a ^ 0i32 == a) by (bit_vector);
}

/// The decoder's pass over the bands `j..end`, mirroring [`tf_enc_loop`].
pub open spec fn tf_dec_loop(
    dec: DecState,
    res: Seq<i32>,
    j: int,
    end: int,
    budget: int,
    logp: int,
    next_logp: int,
    curr: int,
    changed: int,
) -> (DecState, Seq<i32>, int)
    decreases end - j,
{
    if j >= end {
        (dec, res, changed)
    } else if dec.tell() + logp <= budget {
        let (d2, bit) = dec_bit_logp_spec(dec, logp as nat);
        let c2 = if bit {
            1 - curr
        } else {
            curr
        };
        tf_dec_loop(
            d2,
            res.update(j, c2 as i32),
            j + 1,
            end,
            budget,
            next_logp,
            next_logp,
            c2,
            if c2 == 1 {
                1
            } else {
                changed
            },
        )
    } else {
        tf_dec_loop(dec, res.update(j, curr as i32), j + 1, end, budget, next_logp, next_logp, curr, changed)
    }
}

/// The decoder state and flags [`tf_decode`] produces.
pub open spec fn tf_decode_spec(
    dec: DecState,
    res: Seq<i32>,
    start: int,
    end: int,
    is_transient: bool,
    lm: int,
) -> (DecState, Seq<i32>) {
    let budget0 = dec.storage * 8;
    let logp: int = if is_transient {
        2
    } else {
        4
    };
    let next_logp: int = if is_transient {
        4
    } else {
        5
    };
    let rsv: int = if lm > 0 && dec.tell() + logp < budget0 {
        1
    } else {
        0
    };
    let it: int = if is_transient {
        1
    } else {
        0
    };
    let (d1, r1, changed) = tf_dec_loop(dec, res, start, end, budget0 - rsv, logp, next_logp, 0, 0);
    if rsv != 0 && tf_select_matters(lm, it, changed) {
        let (d2, bit) = dec_bit_logp_spec(d1, 1);
        (d2, tf_map(r1, start, end, lm, it, if bit {
            1
        } else {
            0
        }))
    } else {
        (d1, tf_map(r1, start, end, lm, it, 0))
    }
}

/// `tf_decode`: the inverse of [`tf_encode`] — reconstructs `tf_res[start..end]`
/// from `dec` and maps them through `tf_select_table`.
pub fn tf_decode(
    start: usize,
    end: usize,
    is_transient: bool,
    tf_res: &mut [i32],
    lm: i32,
    dec: &mut RangeDecoder,
)
    requires
        start <= end <= old(tf_res)@.len(),
        0 <= lm <= 3,
        old(dec)@.wf(),
        old(dec)@.storage * 8 <= u32::MAX,
        tf_room(old(dec)@.nbits_total as int, end - start),
    ensures
        (final(dec)@, final(tf_res)@) == tf_decode_spec(
            old(dec)@,
            old(tf_res)@,
            start as int,
            end as int,
            is_transient,
            lm as int,
        ),
        final(dec)@.wf(),
        final(tf_res)@.len() == old(tf_res)@.len(),
{
    let ghost d0 = dec@;
    let ghost r0 = tf_res@;
    let budget0 = dec.storage_bits();
    let mut tell = dec.ec_tell() as u32;
    let mut logp: u32 = if is_transient {
        2
    } else {
        4
    };
    let next_logp: u32 = if is_transient {
        4
    } else {
        5
    };
    let tf_select_rsv = (lm > 0 && tell + logp < budget0) as u32;
    let budget = budget0 - tf_select_rsv;
    let mut curr = 0i32;
    let mut tf_changed = 0i32;
    let ghost target = tf_dec_loop(d0, r0, start as int, end as int, budget as int, logp as int, next_logp as int, 0, 0);
    let mut j = start;
    while j < end
        invariant
            start <= j <= end <= tf_res@.len(),
            tf_res@.len() == r0.len(),
            dec@.wf(),
            tell == dec@.tell(),
            dec@.storage == d0.storage,
            tf_room(dec@.nbits_total as int, end - j),
            0 <= curr <= 1,
            0 <= tf_changed <= 1,
            logp == 2 || logp == 4 || logp == 5,
            next_logp == (if is_transient { 4u32 } else { 5u32 }),
            tf_dec_loop(dec@, tf_res@, j as int, end as int, budget as int, logp as int, next_logp as int, curr as int, tf_changed as int) == target,
            forall|x: int| start <= x < j ==> 0 <= #[trigger] tf_res@[x] <= 1,
        decreases end - j,
    {
        if tell + logp <= budget {
            let bit = dec.dec_bit_logp(logp);
            proof {
                lemma_flip(curr);
            }
            curr ^= bit as i32;
            tell = dec.ec_tell() as u32;
            proof {
                lemma_flag_ops(tf_changed, curr);
            }
            tf_changed |= curr;
        }
        tf_res[j] = curr;
        logp = next_logp;
        j += 1;
    }
    let lmu = lm as usize;
    let it: usize = is_transient as usize;
    let ghost r1 = tf_res@;
    let mut tf_select = 0i32;
    if tf_select_rsv != 0 && table_entry(lmu, 4 * it + tf_changed as usize) != table_entry(
        lmu,
        4 * it + 2 + tf_changed as usize,
    ) {
        tf_select = dec.dec_bit_logp(1) as i32;
    }
    let mut j = start;
    while j < end
        invariant
            start <= j <= end <= tf_res@.len(),
            tf_res@.len() == r1.len(),
            0 <= tf_select <= 1,
            0 <= lmu <= 3,
            it <= 1,
            lmu == lm,
            forall|x: int| start <= x < end ==> 0 <= #[trigger] r1[x] <= 1,
            forall|x: int| j <= x < r1.len() ==> tf_res@[x] == r1[x],
            forall|x: int| 0 <= x < start ==> tf_res@[x] == r1[x],
            forall|x: int| start <= x < j ==> tf_res@[x] == tf_select_table(lm as int, 4 * it + 2 * tf_select + r1[x]),
        decreases end - j,
    {
        assert(tf_res@[j as int] == r1[j as int]);
        assert(0 <= r1[j as int] <= 1);
        let v = table_entry(lmu, 4 * it + 2 * tf_select as usize + tf_res[j] as usize);
        tf_res[j] = v as i32;
        j += 1;
    }
    proof {
        assert(tf_res@ =~= tf_map(r1, start as int, end as int, lm as int, it as int, tf_select as int));
    }
}

/// Walking the encoder's pass over bands `j..end`: the decoder, reading with
/// the same probabilities wherever the encoder codes a change bit, reads back
/// the very bit the encoder wrote.
pub open spec fn tf_loop_reads_back(
    e: EncState,
    d: DecState,
    res: Seq<i32>,
    j: int,
    end: int,
    budget: int,
    logp: int,
    next_logp: int,
    curr: int,
) -> bool
    decreases end - j,
{
    if j >= end {
        true
    } else if e.tell() + logp <= budget {
        let bit = res[j] != curr;
        &&& dec_bit_logp_spec(d, logp as nat).1 == bit
        &&& tf_loop_reads_back(
            enc_bit_logp_spec(e, bit, logp as nat),
            dec_bit_logp_spec(d, logp as nat).0,
            res,
            j + 1,
            end,
            budget,
            next_logp,
            next_logp,
            res[j] as int,
        )
    } else {
        tf_loop_reads_back(e, d, res.update(j, curr as i32), j + 1, end, budget, next_logp, next_logp, curr)
    }
}

/// The decoder's pass reads the same bits whatever flags it starts from.
proof fn lemma_tf_dec_loop_state(
    d: DecState,
    r1: Seq<i32>,
    r2: Seq<i32>,
    j: int,
    end: int,
    budget: int,
    logp: int,
    next_logp: int,
    curr: int,
    changed: int,
)
    ensures
        tf_dec_loop(d, r1, j, end, budget, logp, next_logp, curr, changed).0 == tf_dec_loop(
            d,
            r2,
            j,
            end,
            budget,
            logp,
            next_logp,
            curr,
            changed,
        ).0,
        tf_dec_loop(d, r1, j, end, budget, logp, next_logp, curr, changed).2 == tf_dec_loop(
            d,
            r2,
            j,
            end,
            budget,
            logp,
            next_logp,
            curr,
            changed,
        ).2,
    decreases end - j,
{
    if j < end {
        if d.tell() + logp <= budget {
            let (d2, bit) = dec_bit_logp_spec(d, logp as nat);
            let c2 = if bit {
                1 - curr
            } else {
                curr
            };
            lemma_tf_dec_loop_state(
                d2,
                r1.update(j, c2 as i32),
                r2.update(j, c2 as i32),
                j + 1,
                end,
                budget,
                next_logp,
                next_logp,
                c2,
                if c2 == 1 {
                    1
                } else {
                    changed
                },
            );
        } else {
            lemma_tf_dec_loop_state(
                d,
                r1.update(j, curr as i32),
                r2.update(j, curr as i32),
                j + 1,
                end,
                budget,
                next_logp,
                next_logp,
                curr,
                changed,
            );
        }
    }
}

/// When the decoder reads back every change bit, its pass rebuilds the flags
/// of the encoder's pass, and both sides end with the same range and bit
/// count.
proof fn lemma_tf_loops_agree(
    e: EncState,
    d: DecState,
    re: Seq<i32>,
    rd: Seq<i32>,
    j: int,
    end: int,
    budget: int,
    logp: int,
    next_logp: int,
    curr: int,
    changed: int,
)
    requires
        e.rng == d.rng,
        e.nbits_total == d.nbits_total,
        0 <= j,
        end <= re.len(),
        re.len() == rd.len(),
        tf_flags(re, j, end),
        0 <= curr <= 1,
        tf_loop_reads_back(e, d, re, j, end, budget, logp, next_logp, curr),
    ensures
        ({
            let (e1, r1, c1) = tf_enc_loop(e, re, j, end, budget, logp, next_logp, curr, changed);
            let (d1, q1, c2) = tf_dec_loop(d, rd, j, end, budget, logp, next_logp, curr, changed);
            &&& e1.rng == d1.rng
            &&& e1.nbits_total == d1.nbits_total
            &&& c1 == c2
            &&& r1.len() == re.len()
            &&& q1.len() == rd.len()
            &&& forall|k: int| j <= k < end ==> #[trigger] q1[k] == r1[k]
            &&& forall|k: int| 0 <= k < re.len() && !(j <= k < end) ==> #[trigger] r1[k] == re[k]
            &&& forall|k: int| 0 <= k < re.len() && !(j <= k < end) ==> #[trigger] q1[k] == rd[k]
        }),
    decreases end - j,
{
    if j < end {
        if e.tell() + logp <= budget {
            let bit = re[j] != curr;
            let (d2, b) = dec_bit_logp_spec(d, logp as nat);
            lemma_bit_counts_agree(e, d, bit, logp as nat);
            let e2 = enc_bit_logp_spec(e, bit, logp as nat);
            let c2 = if b {
                1 - curr
            } else {
                curr
            };
            assert(c2 == re[j]);
            let ch2 = if re[j] == 1 {
                1
            } else {
                changed
            };
            lemma_tf_loops_agree(e2, d2, re, rd.update(j, c2 as i32), j + 1, end, budget, next_logp, next_logp, re[j] as int, ch2);
            assert(d.tell() + logp <= budget);
            let (e1, r1, c1) = tf_enc_loop(e2, re, j + 1, end, budget, next_logp, next_logp, re[j] as int, ch2);
            let (d1, q1, cc) = tf_dec_loop(d2, rd.update(j, c2 as i32), j + 1, end, budget, next_logp, next_logp, c2, ch2);
            assert(tf_enc_loop(e, re, j, end, budget, logp, next_logp, curr, changed) == (e1, r1, c1));
            assert(tf_dec_loop(d, rd, j, end, budget, logp, next_logp, curr, changed) == (d1, q1, cc));
            assert(q1[j] == r1[j]);
            assert forall|k: int| j <= k < end implies #[trigger] q1[k] == r1[k] by {
                if k > j {
                    assert(j + 1 <= k < end);
                }
            }
            assert forall|k: int| 0 <= k < re.len() && !(j <= k < end) implies #[trigger] r1[k] == re[k] by {
                assert(!(j + 1 <= k < end));
            }
            assert forall|k: int| 0 <= k < re.len() && !(j <= k < end) implies #[trigger] q1[k] == rd[k] by {
                assert(!(j + 1 <= k < end));
                assert(rd.update(j, c2 as i32)[k] == rd[k]);
            }
        } else {
            lemma_tf_loops_agree(e, d, re.update(j, curr as i32), rd.update(j, curr as i32), j + 1, end, budget, next_logp, next_logp, curr, changed);
            assert(!(d.tell() + logp <= budget));
            let (e1, r1, c1) = tf_enc_loop(e, re.update(j, curr as i32), j + 1, end, budget, next_logp, next_logp, curr, changed);
            let (d1, q1, cc) = tf_dec_loop(d, rd.update(j, curr as i32), j + 1, end, budget, next_logp, next_logp, curr, changed);
            assert(tf_enc_loop(e, re, j, end, budget, logp, next_logp, curr, changed) == (e1, r1, c1));
            assert(tf_dec_loop(d, rd, j, end, budget, logp, next_logp, curr, changed) == (d1, q1, cc));
            assert(q1[j] == r1[j]);
            assert forall|k: int| j <= k < end implies #[trigger] q1[k] == r1[k] by {
                if k > j {
                    assert(j + 1 <= k < end);
                }
            }
            assert forall|k: int| 0 <= k < re.len() && !(j <= k < end) implies #[trigger] r1[k] == re[k] by {
                assert(!(j + 1 <= k < end));
                assert(re.update(j, curr as i32)[k] == re[k]);
            }
            assert forall|k: int| 0 <= k < re.len() && !(j <= k < end) implies #[trigger] q1[k] == rd[k] by {
                assert(!(j + 1 <= k < end));
                assert(rd.update(j, curr as i32)[k] == rd[k]);
            }
        }
    }
}

/// Both sides of the tf coding agree on the budget split: the decoder reads
/// back each change bit and the select bit the encoder wrote.
pub open spec fn tf_reads_back(
    e: EncState,
    d: DecState,
    res: Seq<i32>,
    start: int,
    end: int,
    is_transient: bool,
    lm: int,
    tf_select: int,
) -> bool {
    let budget0 = e.storage * 8;
    let logp: int = if is_transient {
        2
    } else {
        4
    };
    let next_logp: int = if is_transient {
        4
    } else {
        5
    };
    let rsv: int = if lm > 0 && e.tell() + logp < budget0 {
        1
    } else {
        0
    };
    let it: int = if is_transient {
        1
    } else {
        0
    };
    let (e1, r1, changed) = tf_enc_loop(e, res, start, end, budget0 - rsv, logp, next_logp, 0, 0);
    let d1 = tf_dec_loop(d, res, start, end, budget0 - rsv, logp, next_logp, 0, 0).0;
    &&& tf_loop_reads_back(e, d, res, start, end, budget0 - rsv, logp, next_logp, 0)
    &&& (rsv != 0 && tf_select_matters(lm, it, changed) ==> dec_bit_logp_spec(d1, 1).1 == (tf_select
        != 0))
}

/// `tf_decode` rebuilds what `tf_encode` coded: over a decoder that starts
/// where the encoder started (same range, bit count and buffer size) and reads
/// back each bit the encoder wrote, the decoded resolutions of bands
/// `start..end` are the encoder's, and both sides end in step.
pub proof fn lemma_tf_round_trip(
    e: EncState,
    d: DecState,
    res: Seq<i32>,
    res_d: Seq<i32>,
    start: int,
    end: int,
    is_transient: bool,
    lm: int,
    tf_select: int,
)
    requires
        e.rng == d.rng,
        e.nbits_total == d.nbits_total,
        e.storage == d.storage,
        0 <= start <= end <= res.len(),
        res_d.len() == res.len(),
        tf_flags(res, start, end),
        0 <= tf_select <= 1,
        tf_reads_back(e, d, res, start, end, is_transient, lm, tf_select),
    ensures
        ({
            let (e2, re) = tf_encode_spec(e, res, start, end, is_transient, lm, tf_select);
            let (d2, rd) = tf_decode_spec(d, res_d, start, end, is_transient, lm);
            &&& forall|k: int| start <= k < end ==> #[trigger] rd[k] == re[k]
            &&& e2.rng == d2.rng
            &&& e2.nbits_total == d2.nbits_total
        }),
{
    let budget0 = e.storage * 8;
    let logp: int = if is_transient {
        2
    } else {
        4
    };
    let next_logp: int = if is_transient {
        4
    } else {
        5
    };
    let rsv: int = if lm > 0 && e.tell() + logp < budget0 {
        1
    } else {
        0
    };
    let it: int = if is_transient {
        1
    } else {
        0
    };
    lemma_tf_loops_agree(e, d, res, res_d, start, end, budget0 - rsv, logp, next_logp, 0, 0);
    lemma_tf_dec_loop_state(d, res, res_d, start, end, budget0 - rsv, logp, next_logp, 0, 0);
    let (e1, r1, changed) = tf_enc_loop(e, res, start, end, budget0 - rsv, logp, next_logp, 0, 0);
    let (d1, q1, c2) = tf_dec_loop(d, res_d, start, end, budget0 - rsv, logp, next_logp, 0, 0);
    assert(d.tell() == e.tell());
    if rsv != 0 && tf_select_matters(lm, it, changed) {
        lemma_bit_counts_agree(e1, d1, tf_select != 0, 1);
        let sel_d: int = if dec_bit_logp_spec(d1, 1).1 {
            1
        } else {
            0
        };
        assert(sel_d == tf_select);
        assert forall|k: int| start <= k < end implies #[trigger] tf_map(q1, start, end, lm, it, sel_d)[k] == tf_map(
            r1,
            start,
            end,
            lm,
            it,
            tf_select,
        )[k] by {
            assert(q1[k] == r1[k]);
        }
    } else {
        assert forall|k: int| start <= k < end implies #[trigger] tf_map(q1, start, end, lm, it, 0)[k] == tf_map(
            r1,
            start,
            end,
            lm,
            it,
            0,
        )[k] by {
            assert(q1[k] == r1[k]);
        }
    }
}

/// The calls the encoder's pass over bands `j..end` makes: one change bit for
/// each band the budget still covers.
pub open spec fn tf_trace(
    e: EncState,
    res: Seq<i32>,
    j: int,
    end: int,
    budget: int,
    logp: int,
    next_logp: int,
    curr: int,
) -> Seq<CodedOp>
    decreases end - j,
{
    if j >= end {
        Seq::empty()
    } else if e.tell() + logp <= budget {
        let bit = res[j] != curr;
        seq![CodedOp::Bit(bit, logp as nat)] + tf_trace(
            enc_bit_logp_spec(e, bit, logp as nat),
            res,
            j + 1,
            end,
            budget,
            next_logp,
            next_logp,
            res[j] as int,
        )
    } else {
        tf_trace(e, res.update(j, curr as i32), j + 1, end, budget, next_logp, next_logp, curr)
    }
}

/// Every call `tf_encode` makes on `e`: the pass over the bands, then the
/// select bit where it is coded.
pub open spec fn tf_ops(
    e: EncState,
    res: Seq<i32>,
    start: int,
    end: int,
    is_transient: bool,
    lm: int,
    tf_select: int,
) -> Seq<CodedOp> {
    let budget0 = e.storage * 8;
    let logp: int = if is_transient {
        2
    } else {
        4
    };
    let next_logp: int = if is_transient {
        4
    } else {
        5
    };
    let rsv: int = if lm > 0 && e.tell() + logp < budget0 {
        1
    } else {
        0
    };
    let it: int = if is_transient {
        1
    } else {
        0
    };
    let trace = tf_trace(e, res, start, end, budget0 - rsv, logp, next_logp, 0);
    let (e1, r1, changed) = tf_enc_loop(e, res, start, end, budget0 - rsv, logp, next_logp, 0, 0);
    if rsv != 0 && tf_select_matters(lm, it, changed) {
        trace.push(CodedOp::Bit(tf_select != 0, 1))
    } else {
        trace
    }
}

/// The decoder's pass reads the same bits whatever running value and change
/// flag it starts from.
proof fn lemma_tf_dec_state_any(
    d: DecState,
    r: Seq<i32>,
    j: int,
    end: int,
    budget: int,
    logp: int,
    next_logp: int,
    c1: int,
    ch1: int,
    c2: int,
    ch2: int,
)
    ensures
        tf_dec_loop(d, r, j, end, budget, logp, next_logp, c1, ch1).0 == tf_dec_loop(
            d,
            r,
            j,
            end,
            budget,
            logp,
            next_logp,
            c2,
            ch2,
        ).0,
    decreases end - j,
{
    if j < end {
        if d.tell() + logp <= budget {
            let (d2, bit) = dec_bit_logp_spec(d, logp as nat);
            let a1 = if bit {
                1 - c1
            } else {
                c1
            };
            let a2 = if bit {
                1 - c2
            } else {
                c2
            };
            let h1 = if a1 == 1 {
                1
            } else {
                ch1
            };
            let h2 = if a2 == 1 {
                1
            } else {
                ch2
            };
            lemma_tf_dec_state_any(d2, r.update(j, a1 as i32), j + 1, end, budget, next_logp, next_logp, a1, h1, a2, h2);
            lemma_tf_dec_loop_state(d2, r.update(j, a1 as i32), r.update(j, a2 as i32), j + 1, end, budget, next_logp, next_logp, a2, h2);
        } else {
            lemma_tf_dec_state_any(d, r.update(j, c1 as i32), j + 1, end, budget, next_logp, next_logp, c1, ch1, c2, ch2);
            lemma_tf_dec_loop_state(d, r.update(j, c1 as i32), r.update(j, c2 as i32), j + 1, end, budget, next_logp, next_logp, c2, ch2);
        }
    }
}

/// Reading back the pass's calls is reading back its change bits, and the
/// decoder's pass then ends where mirroring the calls does.
proof fn lemma_tf_trace(
    e: EncState,
    d: DecState,
    res: Seq<i32>,
    rd: Seq<i32>,
    j: int,
    end: int,
    budget: int,
    logp: int,
    next_logp: int,
    curr: int,
    changed: int,
)
    requires
        e.rng == d.rng,
        e.nbits_total == d.nbits_total,
        dec_reads_back(d, tf_trace(e, res, j, end, budget, logp, next_logp, curr)),
    ensures
        tf_loop_reads_back(e, d, res, j, end, budget, logp, next_logp, curr),
        tf_dec_loop(d, rd, j, end, budget, logp, next_logp, curr, changed).0 == dec_ops_all(
            d,
            tf_trace(e, res, j, end, budget, logp, next_logp, curr),
        ),
        enc_ops_all(e, tf_trace(e, res, j, end, budget, logp, next_logp, curr)) == tf_enc_loop(
            e,
            res,
            j,
            end,
            budget,
            logp,
            next_logp,
            curr,
            changed,
        ).0,
    decreases end - j,
{
    if j >= end {
        assert(dec_ops_all(d, Seq::<CodedOp>::empty()) == d);
        assert(enc_ops_all(e, Seq::<CodedOp>::empty()) == e);
    } else if e.tell() + logp <= budget {
        let bit = res[j] != curr;
        let op = CodedOp::Bit(bit, logp as nat);
        let e2 = enc_bit_logp_spec(e, bit, logp as nat);
        let rest = tf_trace(e2, res, j + 1, end, budget, next_logp, next_logp, res[j] as int);
        lemma_reads_back_cons(d, op, rest);
        lemma_enc_ops_cons(e, op, rest);
        let (d2, b) = dec_bit_logp_spec(d, logp as nat);
        assert(b == bit);
        assert(dec_op(d, op) == d2);
        assert(enc_op(e, op) == e2);
        lemma_bit_counts_agree(e, d, bit, logp as nat);
        assert(d.tell() == e.tell());
        let c2 = if b {
            1 - curr
        } else {
            curr
        };
        let ch2 = if c2 == 1 {
            1
        } else {
            changed
        };
        let ch1 = if res[j] == 1 {
            1
        } else {
            changed
        };
        lemma_tf_trace(e2, d2, res, rd.update(j, c2 as i32), j + 1, end, budget, next_logp, next_logp, res[j] as int, ch1);
        lemma_tf_dec_state_any(d2, rd.update(j, c2 as i32), j + 1, end, budget, next_logp, next_logp, c2, ch2, res[j] as int, ch1);
        assert(tf_dec_loop(d, rd, j, end, budget, logp, next_logp, curr, changed) == tf_dec_loop(d2, rd.update(j, c2 as i32), j + 1, end, budget, next_logp, next_logp, c2, ch2));
    } else {
        assert(d.tell() == e.tell());
        lemma_tf_trace(e, d, res.update(j, curr as i32), rd.update(j, curr as i32), j + 1, end, budget, next_logp, next_logp, curr, changed);
    }
}

/// `tf_decode` rebuilds what `tf_encode` coded, through the range coder: in a
/// stream a fresh encoder of `size` bytes writes (the calls of `before`, then
/// `tf_encode`'s, then those of `after`) and `done` hands out in full, a
/// decoder over the bytes that mirrors `before` decodes the resolutions of
/// bands `start..end` that the encoder's pass produced, whatever flags it
/// starts from.
pub proof fn lemma_tf_stream_round_trip(
    size: nat,
    before: Seq<CodedOp>,
    after: Seq<CodedOp>,
    res: Seq<i32>,
    res_d: Seq<i32>,
    start: int,
    end: int,
    is_transient: bool,
    lm: int,
    tf_select: int,
)
    requires
        size < 0x1_0000_0000,
        0 <= start <= end <= res.len(),
        res_d.len() == res.len(),
        tf_flags(res, start, end),
        0 <= tf_select <= 1,
        ({
            let e = enc_ops_all(enc_new_spec(size), before);
            let ops = before + tf_ops(e, res, start, end, is_transient, lm, tf_select) + after;
            &&& range_ops_ok(ops)
            &&& ops.len() <= 0x1000_0000
            &&& !enc_done_state(enc_ops_all(enc_new_spec(size), ops)).error
        }),
    ensures
        ({
            let e = enc_ops_all(enc_new_spec(size), before);
            let ops = before + tf_ops(e, res, start, end, is_transient, lm, tf_select) + after;
            let buf = enc_done_spec(enc_ops_all(enc_new_spec(size), ops));
            let d = dec_ops_all(dec_new_spec(buf), before);
            let re = tf_encode_spec(e, res, start, end, is_transient, lm, tf_select).1;
            let rd = tf_decode_spec(d, res_d, start, end, is_transient, lm).1;
            forall|k: int| start <= k < end ==> #[trigger] rd[k] == re[k]
        }),
{
    let e = enc_ops_all(enc_new_spec(size), before);
    let tops = tf_ops(e, res, start, end, is_transient, lm, tf_select);
    let ops = before + tops + after;
    assert(ops =~= before + (tops + after));
    lemma_round_trip_at(size, before, tops + after);
    let buf = enc_done_spec(enc_ops_all(enc_new_spec(size), ops));
    let d = dec_ops_all(dec_new_spec(buf), before);
    lemma_reads_back_split(d, tops, after);
    let budget0 = e.storage * 8;
    let logp: int = if is_transient {
        2
    } else {
        4
    };
    let next_logp: int = if is_transient {
        4
    } else {
        5
    };
    let rsv: int = if lm > 0 && e.tell() + logp < budget0 {
        1
    } else {
        0
    };
    let it: int = if is_transient {
        1
    } else {
        0
    };
    let trace = tf_trace(e, res, start, end, budget0 - rsv, logp, next_logp, 0);
    let (e1, r1, changed) = tf_enc_loop(e, res, start, end, budget0 - rsv, logp, next_logp, 0, 0);
    if rsv != 0 && tf_select_matters(lm, it, changed) {
        let bitop = CodedOp::Bit(tf_select != 0, 1);
        assert(tops == trace.push(bitop));
        assert(tops.take(trace.len() as int) =~= trace);
        lemma_reads_back_prefix(d, tops, trace.len() as int);
        crate::round_trip::lemma_reads_back_at(d, tops, trace.len() as int);
        assert(tops[trace.len() as int] == bitop);
    } else {
        assert(tops == trace);
    }
    lemma_tf_trace(e, d, res, res, start, end, budget0 - rsv, logp, next_logp, 0, 0);
    assert(d.tell() == e.tell());
    assert(tf_reads_back(e, d, res, start, end, is_transient, lm, tf_select));
    lemma_tf_round_trip(e, d, res, res_d, start, end, is_transient, lm, tf_select);
}

/// The mapped resolution of a band is the entry of RFC 6716's
/// `tf_select_table` for the frame size `lm`, the transient flag `it`, the
/// table half `sel` and the band's flag, the table being (one row per `lm`)
/// `0,-1,0,-1,0,-1,0,-1`; `0,-1,0,-2,1,0,1,-1`; `0,-2,0,-3,2,0,1,-1`;
/// `0,-2,0,-3,3,0,1,-1`, indexed by `4 it + 2 sel + flag`. Bands outside
/// `start..end` keep their value.
pub proof fn lemma_tf_map_is_rfc_table(res: Seq<i32>, start: int, end: int, lm: int, it: int, sel: int, j: int)
    requires
        0 <= lm <= 3,
        0 <= it <= 1,
        0 <= sel <= 1,
        0 <= j < res.len(),
        start <= j < end ==> 0 <= res[j] <= 1,
    ensures
        tf_map(res, start, end, lm, it, sel).len() == res.len(),
        start <= j < end ==> tf_map(res, start, end, lm, it, sel)[j] as int == seq![
            seq![0int, -1, 0, -1, 0, -1, 0, -1],
            seq![0int, -1, 0, -2, 1, 0, 1, -1],
            seq![0int, -2, 0, -3, 2, 0, 1, -1],
            seq![0int, -2, 0, -3, 3, 0, 1, -1],
        ][lm][4 * it + 2 * sel + res[j]],
        !(start <= j < end) ==> tf_map(res, start, end, lm, it, sel)[j] == res[j],
{
}

/// The encoder's pass keeps the flags of `lo..end` at 0 or 1 and leaves the
/// bands outside `j..end` alone.
proof fn lemma_tf_enc_loop_flags(
    enc: EncState,
    res: Seq<i32>,
    lo: int,
    j: int,
    end: int,
    budget: int,
    logp: int,
    next_logp: int,
    curr: int,
    changed: int,
)
    requires
        0 <= lo <= j,
        end <= res.len(),
        0 <= curr <= 1,
        tf_flags(res, lo, end),
    ensures
        ({
            let r = tf_enc_loop(enc, res, j, end, budget, logp, next_logp, curr, changed).1;
            &&& r.len() == res.len()
            &&& tf_flags(r, lo, end)
            &&& forall|x: int| 0 <= x < res.len() && !(j <= x < end) ==> r[x] == res[x]
        }),
    decreases end - j,
{
    if j < end {
        if enc.tell() + logp <= budget {
            let e2 = enc_bit_logp_spec(enc, res[j] != curr, logp as nat);
            let c2: int = if res[j] == 1 { 1 } else { changed };
            lemma_tf_enc_loop_flags(e2, res, lo, j + 1, end, budget, next_logp, next_logp, res[j] as int, c2);
        } else {
            let r2 = res.update(j, curr as i32);
            assert(tf_flags(r2, lo, end));
            lemma_tf_enc_loop_flags(enc, r2, lo, j + 1, end, budget, next_logp, next_logp, curr, changed);
        }
    }
}

/// After `tf_encode`, each band of `start..end` holds the RFC 6716
/// `tf_select_table` entry (rows as in [`lemma_tf_map_is_rfc_table`]) for
/// the frame size, the transient flag, a table half no larger than the
/// requested `tf_select`, and a flag of 0 or 1 (the band's coded flag, or
/// the running one where the budget ran out); the other bands are kept.
pub proof fn lemma_tf_encode_rfc_table(
    enc: EncState,
    res: Seq<i32>,
    start: int,
    end: int,
    is_transient: bool,
    lm: int,
    tf_select: int,
)
    requires
        0 <= start <= end <= res.len(),
        0 <= lm <= 3,
        0 <= tf_select <= 1,
        tf_flags(res, start, end),
    ensures
        ({
            let out = tf_encode_spec(enc, res, start, end, is_transient, lm, tf_select).1;
            let it: int = if is_transient { 1 } else { 0 };
            &&& out.len() == res.len()
            &&& exists|flags: Seq<i32>, s: int|
                #![trigger tf_flags(flags, start, end), s + 0]
                0 <= s <= tf_select && flags.len() == res.len() && tf_flags(flags, start, end) && forall|j: int|
                    start <= j < end ==> #[trigger] out[j] as int == seq![
                        seq![0int, -1, 0, -1, 0, -1, 0, -1],
                        seq![0int, -1, 0, -2, 1, 0, 1, -1],
                        seq![0int, -2, 0, -3, 2, 0, 1, -1],
                        seq![0int, -2, 0, -3, 3, 0, 1, -1],
                    ][lm][4 * it + 2 * s + flags[j]]
            &&& forall|j: int| 0 <= j < res.len() && !(start <= j < end) ==> out[j] == res[j]
        }),
{
    let budget0 = enc.storage * 8;
    let logp: int = if is_transient { 2 } else { 4 };
    let next_logp: int = if is_transient { 4 } else { 5 };
    let rsv: int = if lm > 0 && enc.tell() + logp < budget0 { 1 } else { 0 };
    let it: int = if is_transient { 1 } else { 0 };
    let (e1, r1, changed) = tf_enc_loop(enc, res, start, end, budget0 - rsv, logp, next_logp, 0, 0);
    lemma_tf_enc_loop_flags(enc, res, start, start, end, budget0 - rsv, logp, next_logp, 0, 0);
    let s: int = if rsv != 0 && tf_select_matters(lm, it, changed) { tf_select } else { 0 };
    let out = tf_encode_spec(enc, res, start, end, is_transient, lm, tf_select).1;
    assert(out == tf_map(r1, start, end, lm, it, s));
    assert forall|j: int| start <= j < end implies #[trigger] out[j] as int == seq![
        seq![0int, -1, 0, -1, 0, -1, 0, -1],
        seq![0int, -1, 0, -2, 1, 0, 1, -1],
        seq![0int, -2, 0, -3, 2, 0, 1, -1],
        seq![0int, -2, 0, -3, 3, 0, 1, -1],
    ][lm][4 * it + 2 * s + r1[j]] by {
        assert(0 <= r1[j] <= 1);
        lemma_tf_map_is_rfc_table(r1, start, end, lm, it, s, j);
    }
    assert(tf_flags(r1, start, end));
    assert(s + 0 == s);
    assert forall|j: int| 0 <= j < res.len() && !(start <= j < end) implies out[j] == res[j] by {
        lemma_tf_map_is_rfc_table(r1, start, end, lm, it, s, j);
    }
}

} // verus!
