//! Band-energy coding decisions read from the stream.
use crate::laplace::{ec_laplace_decode, laplace_dec_symbol};
use crate::range_coder::{
    dec_bit_logp_spec, dec_bits_spec, dec_decode_spec, dec_icdf_spec, dec_update_spec, DecState, RangeDecoder,
    EC_NBITS_LIMIT, EC_STEP_BITS,
};
use crate::celt_frame::{dec_after, stream_ok};
use crate::range_coder::{enc_new_spec, enc_ops_all, CodedOp};
use crate::round_trip::{lemma_single_call, lemma_stretch_round_trip};
use vstd::arithmetic::power2::*;
use vstd::prelude::*;

verus! {

/// Reads the intra-prediction flag at the point in the stream the encoder
/// wrote it: it is present only when three more bits fit in `budget`.
pub fn decode_intra_flag(dec: &mut RangeDecoder, budget: i32) -> (res: bool)
    requires
        old(dec)@.wf(),
        old(dec)@.has_room(),
    ensures
        old(dec)@.tell() + 3 <= budget ==> (final(dec)@, res) == dec_bit_logp_spec(old(dec)@, 3),
        old(dec)@.tell() + 3 > budget ==> final(dec)@ == old(dec)@ && !res,
        final(dec)@.wf(),
{
    if dec.ec_tell() + 3 <= budget {
        dec.dec_bit_logp(3)
    } else {
        false
    }
}

} // verus!

verus! {

/// `small_energy_icdf`: the three small energy steps (0, -1, +1) coded when
/// too few bits remain for the Laplace model.
pub open spec fn small_energy_icdf() -> Seq<u8> {
    seq![2u8, 1, 0]
}

/// The energy step a small-energy symbol stands for: 0, -1, +1.
pub open spec fn small_energy_step(q: int) -> int {
    if q == 0 {
        0
    } else if q == 1 {
        -1
    } else {
        1
    }
}

/// One coarse-energy step read at the decoder `d` for band `i`, with `budget`
/// bits in the frame: the Laplace model of the band (from `prob`, the model
/// of the frame size and prediction mode) while 15 bits remain, the small
/// three-step model while 2 remain, a single "down" bit while 1 remains, and
/// a step down without reading past the end.
pub open spec fn coarse_qi_step(d: DecState, prob: Seq<u8>, i: int, budget: int) -> (DecState, int) {
    let tell = d.tell();
    if budget - tell >= 15 {
        let pi = 2 * (if i < 20 {
            i
        } else {
            20
        });
        let (d1, fm) = dec_decode_spec(d, 32768);
        let (fl, fh, v) = laplace_dec_symbol(fm, prob[pi] * 128, prob[pi + 1] * 64);
        (dec_update_spec(d1, fl, fh, 32768), v)
    } else if budget - tell >= 2 {
        let (d1, q) = dec_icdf_spec(d, small_energy_icdf(), 2);
        (d1, small_energy_step(q as int))
    } else if budget - tell >= 1 {
        let (d1, b) = dec_bit_logp_spec(d, 1);
        (
            d1,
            if b {
                -1
            } else {
                0
            },
        )
    } else {
        (d, -1)
    }
}

/// The first `k` coarse-energy steps of bands `start..`, `channels` per band
/// in band order, and the decoder after them.
pub open spec fn coarse_qi_all(d: DecState, prob: Seq<u8>, start: int, channels: int, budget: int, k: nat) -> (
    DecState,
    Seq<i32>,
)
    decreases k,
{
    if k == 0 {
        (d, Seq::empty())
    } else {
        let (d1, q) = coarse_qi_all(d, prob, start, channels, budget, (k - 1) as nat);
        let (d2, v) = coarse_qi_step(d1, prob, start + (k - 1) / channels, budget);
        (d2, q.push(v as i32))
    }
}

/// The Laplace model of a frame size and prediction mode: 21 pairs of the
/// probability of a zero step (scaled by `2^7` into the 15-bit total) and a
/// decay (scaled by `2^6`), each decay one the coder accepts.
pub open spec fn prob_model_ok(prob: Seq<u8>) -> bool {
    &&& prob.len() >= 42
    &&& forall|j: int| 0 <= j < 21 ==> 1 <= #[trigger] prob[2 * j + 1] <= 179
}

/// Reads the coarse-energy steps of bands `start..end` (`channels` per band,
/// in band order) from `dec`, as the decoder does before it predicts the
/// band energies from them; `budget` is the frame's size in bits.
pub fn decode_coarse_qi(
    dec: &mut RangeDecoder,
    prob: &[u8],
    start: usize,
    end: usize,
    channels: usize,
    budget: i32,
) -> (qi: Vec<i32>)
    requires
        old(dec)@.wf(),
        prob_model_ok(prob@),
        start <= end <= 64,
        1 <= channels <= 2,
        old(dec)@.nbits_total + 24 * 128 <= EC_NBITS_LIMIT - EC_STEP_BITS,
    ensures
        (final(dec)@, qi@) == coarse_qi_all(
            old(dec)@,
            prob@,
            start as int,
            channels as int,
            budget as int,
            ((end - start) * channels) as nat,
        ),
        final(dec)@.wf(),
{
    let ghost d0 = dec@;
    let mut qi: Vec<i32> = Vec::new();
    let icdf: [u8; 3] = [2, 1, 0];
    proof {
        assert(icdf@ =~= small_energy_icdf());
        lemma2_to64();
    }
    let mut i = start;
    while i < end
        invariant
            start <= i <= end <= 64,
            1 <= channels <= 2,
            prob_model_ok(prob@),
            icdf@ == small_energy_icdf(),
            dec@.wf(),
            dec@.nbits_total <= d0.nbits_total + 24 * ((i - start) * channels),
            d0.nbits_total + 24 * 128 <= EC_NBITS_LIMIT - EC_STEP_BITS,
            (dec@, qi@) == coarse_qi_all(d0, prob@, start as int, channels as int, budget as int, ((i - start) * channels) as nat),
        decreases end - i,
    {
        let mut c: usize = 0;
        while c < channels
            invariant
                start <= i < end <= 64,
                0 <= c <= channels <= 2,
                prob_model_ok(prob@),
                icdf@ == small_energy_icdf(),
                dec@.wf(),
                dec@.nbits_total <= d0.nbits_total + 24 * ((i - start) * channels + c),
                d0.nbits_total + 24 * 128 <= EC_NBITS_LIMIT - EC_STEP_BITS,
                (dec@, qi@) == coarse_qi_all(
                    d0,
                    prob@,
                    start as int,
                    channels as int,
                    budget as int,
                    ((i - start) * channels + c) as nat,
                ),
            decreases channels - c,
        {
            let ghost k = ((i - start) * channels + c) as nat;
            proof {
                assert((i - start) * channels + c < 128) by (nonlinear_arith)
                    requires
                        i - start < 64,
                        c < channels <= 2,
                ;
                assert(start + (k as int) / (channels as int) == i) by (nonlinear_arith)
                    requires
                        k == (i - start) * channels + c,
                        0 <= c < channels,
                ;
            }
            let tell = dec.ec_tell();
            let v: i32 = if budget as i64 - tell as i64 >= 15 {
                let pi = 2 * (if i < 20 {
                    i
                } else {
                    20
                });
                proof {
                    let j = pi / 2;
                    assert(prob@[2 * j + 1] <= 179);
                    assert(pi == 2 * j);
                }
                ec_laplace_decode(dec, (prob[pi] as u32) * 128, (prob[pi + 1] as i32) * 64)
            } else if budget as i64 - tell as i64 >= 2 {
                proof {
                    lemma2_to64();
                }
                let q = dec.dec_icdf(&icdf, 2);
                if q == 0 {
                    0
                } else if q == 1 {
                    -1
                } else {
                    1
                }
            } else if budget as i64 - tell as i64 >= 1 {
                if dec.dec_bit_logp(1) {
                    -1
                } else {
                    0
                }
            } else {
                -1
            };
            qi.push(v);
            c = c + 1;
        }
        proof {
            assert((i - start) * channels + channels == (i + 1 - start) * channels) by (nonlinear_arith);
        }
        i = i + 1;
    }
    qi
}

} // verus!

verus! {

/// The finest refinement a band's energy gets, in bits per channel.
pub const MAX_FINE_BITS: i32 = 8;

/// The fine-energy fields of one band: `channels` raw fields of `bits` bits.
pub open spec fn fine_band(d: DecState, bits: u32, channels: int) -> (DecState, Seq<u32>) {
    let (d1, a) = dec_bits_spec(d, bits);
    if channels == 1 {
        (d1, seq![a])
    } else {
        let (d2, b) = dec_bits_spec(d1, bits);
        (d2, seq![a, b])
    }
}

/// The fine-energy fields of bands `i..end`: the bands with fine bits give
/// `channels` fields each, in band order.
pub open spec fn fine_from(d: DecState, fine_quant: Seq<i32>, i: int, end: int, channels: int) -> (DecState, Seq<u32>)
    decreases end - i,
{
    if i >= end {
        (d, Seq::empty())
    } else {
        let (d1, q) = if fine_quant[i] > 0 {
            fine_band(d, fine_quant[i] as u32, channels)
        } else {
            (d, Seq::empty())
        };
        let (d2, rest) = fine_from(d1, fine_quant, i + 1, end, channels);
        (d2, q + rest)
    }
}

/// Reads the fine-energy refinement fields of bands `start..end`: for each
/// band with `fine_quant` bits, one raw field of that many bits per channel.
pub fn decode_fine_bits(dec: &mut RangeDecoder, fine_quant: &[i32], start: usize, end: usize, channels: usize) -> (q: Vec<u32>)
    requires
        old(dec)@.wf(),
        start <= end <= fine_quant@.len(),
        end <= 64,
        1 <= channels <= 2,
        forall|j: int| start <= j < end ==> #[trigger] fine_quant@[j] <= MAX_FINE_BITS,
        old(dec)@.nbits_total + 16 * 64 <= EC_NBITS_LIMIT,
    ensures
        (final(dec)@, q@) == fine_from(old(dec)@, fine_quant@, start as int, end as int, channels as int),
        final(dec)@.wf(),
{
    let ghost d0 = dec@;
    let mut q: Vec<u32> = Vec::new();
    let mut i = start;
    while i < end
        invariant
            start <= i <= end <= fine_quant@.len(),
            end <= 64,
            1 <= channels <= 2,
            forall|j: int| start <= j < end ==> #[trigger] fine_quant@[j] <= MAX_FINE_BITS,
            dec@.wf(),
            dec@.nbits_total <= d0.nbits_total + 16 * (i - start),
            d0.nbits_total + 16 * 64 <= EC_NBITS_LIMIT,
            fine_from(d0, fine_quant@, start as int, end as int, channels as int) == ({
                let (d1, done) = (dec@, q@);
                let (d2, rest) = fine_from(d1, fine_quant@, i as int, end as int, channels as int);
                (d2, done + rest)
            }),
        decreases end - i,
    {
        let ghost dprev = dec@;
        let ghost qprev = q@;
        if fine_quant[i] > 0 {
            let bits = fine_quant[i] as u32;
            let a = dec.dec_bits(bits);
            q.push(a);
            if channels == 2 {
                let b = dec.dec_bits(bits);
                q.push(b);
            }
        }
        proof {
            let (d1, qb) = if fine_quant@[i as int] > 0 {
                fine_band(dprev, fine_quant@[i as int] as u32, channels as int)
            } else {
                (dprev, Seq::<u32>::empty())
            };
            assert(dec@ == d1);
            assert(q@ =~= qprev + qb);
            let (d2, rest) = fine_from(d1, fine_quant@, i + 1, end as int, channels as int);
            assert(fine_from(dprev, fine_quant@, i as int, end as int, channels as int) == (d2, qb + rest));
            assert(qprev + (qb + rest) =~= q@ + rest);
        }
        i = i + 1;
    }
    proof {
        assert(q@ + Seq::<u32>::empty() =~= q@);
    }
    q
}

} // verus!

verus! {

/// One priority pass of the final energy refinement over bands `i..end`:
/// while at least a bit per channel is left, each band of priority `prio`
/// below the finest resolution reads one more bit per channel.
pub open spec fn finalise_pass(
    d: DecState,
    fine_quant: Seq<i32>,
    fine_priority: Seq<i32>,
    prio: int,
    i: int,
    end: int,
    channels: int,
    left: int,
) -> (DecState, Seq<u32>, int)
    decreases end - i,
{
    if i >= end || left < channels {
        (d, Seq::empty(), left)
    } else if fine_quant[i] >= MAX_FINE_BITS || fine_priority[i] != prio {
        finalise_pass(d, fine_quant, fine_priority, prio, i + 1, end, channels, left)
    } else {
        let (d1, q) = fine_band(d, 1, channels);
        let (d2, rest, left2) = finalise_pass(d1, fine_quant, fine_priority, prio, i + 1, end, channels, left - channels);
        (d2, q + rest, left2)
    }
}

/// Reads the final one-bit energy refinements of bands `start..end` with
/// `bits_left` bits to spend: first the bands of priority 0, then those of
/// priority 1, a bit per channel each, while the bits last. Returns the bits
/// read, in that order.
pub fn decode_fine_finalise(
    dec: &mut RangeDecoder,
    fine_quant: &[i32],
    fine_priority: &[i32],
    start: usize,
    end: usize,
    channels: usize,
    bits_left: i32,
) -> (q: Vec<u32>)
    requires
        old(dec)@.wf(),
        start <= end <= fine_quant@.len(),
        end <= fine_priority@.len(),
        end <= 64,
        1 <= channels <= 2,
        old(dec)@.nbits_total + 4 * 64 <= EC_NBITS_LIMIT,
    ensures
        ({
            let (d1, q1, left1) = finalise_pass(
                old(dec)@,
                fine_quant@,
                fine_priority@,
                0,
                start as int,
                end as int,
                channels as int,
                bits_left as int,
            );
            let (d2, q2, left2) = finalise_pass(
                d1,
                fine_quant@,
                fine_priority@,
                1,
                start as int,
                end as int,
                channels as int,
                left1,
            );
            final(dec)@ == d2 && q@ == q1 + q2
        }),
        final(dec)@.wf(),
{
    let ghost d0 = dec@;
    let mut q: Vec<u32> = Vec::new();
    let mut left = bits_left;
    let mut prio: i32 = 0;
    let ghost mut d_start = dec@;
    let ghost mut q_start = q@;
    let ghost mut l_start = left as int;
    while prio < 2
        invariant
            0 <= prio <= 2,
            start <= end <= fine_quant@.len(),
            end <= fine_priority@.len(),
            end <= 64,
            1 <= channels <= 2,
            dec@.wf(),
            dec@.nbits_total <= d0.nbits_total + 2 * prio * 64,
            d0.nbits_total + 4 * 64 <= EC_NBITS_LIMIT,
            left <= bits_left,
            prio == 0 ==> dec@ == d0 && q@ == Seq::<u32>::empty() && left == bits_left,
            prio >= 1 ==> ({
                let (d1, q1, left1) = finalise_pass(
                    d0,
                    fine_quant@,
                    fine_priority@,
                    0,
                    start as int,
                    end as int,
                    channels as int,
                    bits_left as int,
                );
                &&& prio == 1 ==> dec@ == d1 && q@ == q1 && left == left1
                &&& prio == 2 ==> ({
                    let (d2, q2, left2) = finalise_pass(
                        d1,
                        fine_quant@,
                        fine_priority@,
                        1,
                        start as int,
                        end as int,
                        channels as int,
                        left1,
                    );
                    dec@ == d2 && q@ == q1 + q2
                })
            }),
        decreases 2 - prio,
    {
        let ghost dp = dec@;
        let ghost qp = q@;
        let ghost lp = left as int;
        let mut i = start;
        while i < end && left >= channels as i32
            invariant
                0 <= prio < 2,
                start <= i <= end <= fine_quant@.len(),
                end <= fine_priority@.len(),
                end <= 64,
                1 <= channels <= 2,
                dec@.wf(),
                dec@.nbits_total <= dp.nbits_total + 2 * (i - start),
                dp.nbits_total <= d0.nbits_total + 2 * prio * 64,
                d0.nbits_total + 4 * 64 <= EC_NBITS_LIMIT,
                left <= lp,
                lp <= bits_left,
                ({
                    let (df, qf, lf) = finalise_pass(
                        dec@,
                        fine_quant@,
                        fine_priority@,
                        prio as int,
                        i as int,
                        end as int,
                        channels as int,
                        left as int,
                    );
                    finalise_pass(
                        dp,
                        fine_quant@,
                        fine_priority@,
                        prio as int,
                        start as int,
                        end as int,
                        channels as int,
                        lp,
                    ) == (df, q@.subrange(qp.len() as int, q@.len() as int) + qf, lf)
                }),
                q@.subrange(0, qp.len() as int) == qp,
                qp.len() <= q@.len(),
            decreases end - i,
        {
            if fine_quant[i] >= MAX_FINE_BITS || fine_priority[i] != prio {
                i = i + 1;
            } else {
                let ghost dprev = dec@;
                let ghost qprev = q@;
                let a = dec.dec_bits(1);
                q.push(a);
                if channels == 2 {
                    let b = dec.dec_bits(1);
                    q.push(b);
                }
                left = left - channels as i32;
                proof {
                    let (d1, qb) = fine_band(dprev, 1, channels as int);
                    assert(dec@ == d1);
                    assert(q@ =~= qprev + qb);
                    assert(q@.subrange(0, qp.len() as int) =~= qp) by {
                        assert(qprev.subrange(0, qp.len() as int) == qp);
                    }
                    let (df, qf, lf) = finalise_pass(
                        d1,
                        fine_quant@,
                        fine_priority@,
                        prio as int,
                        i + 1,
                        end as int,
                        channels as int,
                        left as int,
                    );
                    assert(q@.subrange(qp.len() as int, q@.len() as int) + qf =~= qprev.subrange(
                        qp.len() as int,
                        qprev.len() as int,
                    ) + (qb + qf));
                }
                i = i + 1;
            }
        }
        proof {
            assert(q@.subrange(qp.len() as int, q@.len() as int) + Seq::<u32>::empty() =~= q@.subrange(
                qp.len() as int,
                q@.len() as int,
            ));
            assert(q@ =~= qp + q@.subrange(qp.len() as int, q@.len() as int));
            if prio == 1 {
                let (d1, q1, left1) = finalise_pass(
                    d0,
                    fine_quant@,
                    fine_priority@,
                    0,
                    start as int,
                    end as int,
                    channels as int,
                    bits_left as int,
                );
                assert(qp == q1);
            } else {
                assert(qp =~= Seq::<u32>::empty());
            }
        }
        prio = prio + 1;
    }
    proof {
        let (d1, q1, left1) = finalise_pass(
            d0,
            fine_quant@,
            fine_priority@,
            0,
            start as int,
            end as int,
            channels as int,
            bits_left as int,
        );
        assert(q1 + Seq::<u32>::empty() =~= q1);
    }
    q
}

/// The encoder's symbol for a small coarse-energy step `v` (one of -1, 0,
/// +1): its zig-zag code, `(2 v) ^ -(v < 0)`, so 0 codes 0, -1 codes 1 and
/// +1 codes 2.
pub open spec fn small_energy_symbol(v: int) -> nat {
    if v < 0 {
        (-2 * v - 1) as nat
    } else {
        (2 * v) as nat
    }
}

/// A small coarse-energy step comes back: where a stream holds, after the
/// calls of `before`, a step `v` of -1, 0 or +1 coded as its zig-zag symbol
/// with the three-symbol table at a point with 2 to 14 bits left of
/// `budget`, one coarse-energy step the decoder that mirrors `before` reads
/// there is `v`, and both sides step past it together.
pub proof fn lemma_small_energy_round_trip(
    size: nat,
    before: Seq<CodedOp>,
    after: Seq<CodedOp>,
    v: int,
    prob: Seq<u8>,
    i: int,
    budget: int,
)
    requires
        -1 <= v <= 1,
        ({
            let e = enc_ops_all(enc_new_spec(size), before);
            let mid = seq![CodedOp::Icdf(small_energy_symbol(v), small_energy_icdf(), 2)];
            &&& 2 <= budget - e.tell() < 15
            &&& stream_ok(size, before + mid + after)
        }),
    ensures
        ({
            let mid = seq![CodedOp::Icdf(small_energy_symbol(v), small_energy_icdf(), 2)];
            let ops = before + mid + after;
            coarse_qi_step(dec_after(size, ops, before), prob, i, budget) == (dec_after(size, ops, before + mid), v)
        }),
{
    let e = enc_ops_all(enc_new_spec(size), before);
    let op = CodedOp::Icdf(small_energy_symbol(v), small_energy_icdf(), 2);
    let mid = seq![op];
    lemma_stretch_round_trip(size, before, mid, after);
    let d = dec_after(size, before + mid + after, before);
    lemma_single_call(e, d, op);
}

} // verus!
