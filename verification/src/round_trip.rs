//! The range coder's round trip: a decoder over the bytes the encoder wrote
//! reads back each call, range-coded or raw. The proof follows the code value the
//! bytes spell: every call narrows an interval the code must lie in, and the
//! decoder's register is the distance from the top of that interval to the
//! code, read byte by byte.
use crate::range_coder::{
    enc_bit_logp_spec, enc_carry_out, enc_done_carry, enc_done_spec, enc_encode_spec, enc_flush_end, enc_icdf_spec, enc_narrow, enc_new_spec,
    enc_normalize, enc_ops_all, enc_put_byte, enc_put_repeat, ilog, lemma_ilog_bounds, EncState,
    dec_uint_spec, enc_uint_spec, dec_bit_logp_spec, dec_bits_spec, dec_decode_spec, dec_icdf_spec, dec_new_spec, dec_normalize,
    dec_ops_all, dec_read_byte, dec_reads_back, dec_update_spec, icdf_search, CodedOp, DecState,
};
use crate::range_coder::{
    back_inv, back_same, back_value, ends_ok, lemma_back_inv_keep, lemma_carry_out_back, lemma_done_constants,
    lemma_flush_back, lemma_back_same_trans, lemma_dec_bits_back,
    lemma_dec_bits_keeps_front, lemma_dec_new_raw, lemma_dec_normalize_back, lemma_enc_bits_back,
    lemma_low_bits_agree, lemma_normalize_back, lemma_raw_field, lemma_raw_value_bound, lemma_tail_bound,
    lemma_tail_ext, lemma_tail_mod, raw_dec_inv, raw_value, raw_width, tail_value,
};
use vstd::arithmetic::div_mod::*;
use vstd::arithmetic::power2::*;
use vstd::bits::*;
use vstd::prelude::*;

verus! {

/// Byte `i` of the code: the buffer's byte, zero past its end.
pub open spec fn code_byte(buf: Seq<u8>, i: int) -> nat {
    if 0 <= i < buf.len() {
        buf[i] as nat
    } else {
        0
    }
}

/// The first `j` bytes of the code as a big-endian number.
pub open spec fn code_digits(buf: Seq<u8>, j: nat) -> nat
    decreases j,
{
    if j == 0 {
        0
    } else {
        code_digits(buf, (j - 1) as nat) * 256 + code_byte(buf, j - 1)
    }
}

/// The code to `8 j - 1` bits: the first `j` bytes less the last bit, the
/// precision of a decoder that has read `j` bytes.
pub open spec fn code_at(buf: Seq<u8>, j: nat) -> nat {
    code_digits(buf, j) / 2
}

/// `256^k`.
pub open spec fn p256(k: nat) -> nat
    decreases k,
{
    if k == 0 {
        1
    } else {
        256 * p256((k - 1) as nat)
    }
}

pub open spec fn norm_measure(rng: nat) -> nat {
    if 0 < rng <= 0x80_0000 {
        (0x80_0001 - rng) as nat
    } else {
        0
    }
}

/// How many bytes renormalisation shifts for a range of `rng`.
pub open spec fn norm_steps(rng: nat) -> nat
    decreases norm_measure(rng),
{
    if 0 < rng <= 0x80_0000 {
        1 + norm_steps(rng * 256)
    } else {
        0
    }
}

/// The code lies in `[lo, lo + rng)` at the precision of `j` bytes.
pub open spec fn within(buf: Seq<u8>, j: nat, lo: int, rng: int) -> bool {
    lo <= code_at(buf, j) < lo + rng
}

/// The decoder has read `j` bytes of `buf` and its register is the distance
/// from the top of `[lo, lo + rng)` to the code, less one.
pub open spec fn dec_tracks(d: DecState, buf: Seq<u8>, j: nat, lo: int) -> bool {
    &&& d.buf == buf
    &&& d.storage == buf.len()
    &&& d.offs == (if j < buf.len() {
        j
    } else {
        buf.len()
    })
    &&& j >= 1
    &&& d.rem == code_byte(buf, j - 1)
    &&& d.val + code_at(buf, j) == lo + d.rng - 1
}

proof fn lemma_p256_pos(k: nat)
    ensures
        p256(k) >= 1,
    decreases k,
{
    if k > 0 {
        lemma_p256_pos((k - 1) as nat);
    }
}

proof fn lemma_p256_adds(a: nat, b: nat)
    ensures
        p256(a + b) == p256(a) * p256(b),
    decreases b,
{
    if b > 0 {
        lemma_p256_adds(a, (b - 1) as nat);
        assert((a + b - 1) as nat == a + (b - 1) as nat);
        assert(p256(a + b) == 256 * p256((a + b - 1) as nat));
        assert(p256(a) * p256(b) == p256(a) * (256 * p256((b - 1) as nat)));
        assert(p256(a) * (256 * p256((b - 1) as nat)) == 256 * (p256(a) * p256((b - 1) as nat))) by (nonlinear_arith);
    } else {
        assert(p256(0) == 1);
        assert(p256(a) * 1 == p256(a));
    }
}

/// The first `j + k` bytes are the first `j` followed by `k` more.
proof fn lemma_digits_extend(buf: Seq<u8>, j: nat, k: nat)
    ensures
        code_digits(buf, j + k) >= code_digits(buf, j) * p256(k),
        code_digits(buf, j + k) < (code_digits(buf, j) + 1) * p256(k),
    decreases k,
{
    if k > 0 {
        lemma_digits_extend(buf, j, (k - 1) as nat);
        let a = code_digits(buf, (j + k - 1) as nat);
        let d = code_digits(buf, j);
        let p = p256((k - 1) as nat);
        assert(p256(k) == 256 * p);
        assert((j + (k - 1) as nat) == (j + k - 1) as nat);
        assert(code_digits(buf, j + k) == a * 256 + code_byte(buf, j + k - 1));
        assert(code_byte(buf, j + k - 1) < 256);
        assert(a * 256 + code_byte(buf, j + k - 1) >= d * (256 * p)) by (nonlinear_arith)
            requires
                a >= d * p,
                code_byte(buf, j + k - 1) >= 0,
        ;
        assert(a * 256 + code_byte(buf, j + k - 1) < (d + 1) * (256 * p)) by (nonlinear_arith)
            requires
                a < (d + 1) * p,
                code_byte(buf, j + k - 1) < 256,
        ;
    } else {
        assert(p256(0) == 1);
        assert(code_digits(buf, j) * p256(0) == code_digits(buf, j));
        assert((code_digits(buf, j) + 1) * p256(0) == code_digits(buf, j) + 1);
    }
}

/// Reading `k` more bytes refines the code: at `j` bytes it is the code at
/// `j + k` bytes divided by `256^k`.
proof fn lemma_code_at_extend(buf: Seq<u8>, j: nat, k: nat)
    ensures
        code_at(buf, j + k) as int / (p256(k) as int) == code_at(buf, j) as int,
{
    lemma_digits_extend(buf, j, k);
    lemma_p256_pos(k);
    let d = code_digits(buf, j);
    let e = code_digits(buf, j + k);
    let p = p256(k) as int;
    let q = d / 2;
    let b = d % 2;
    lemma_fundamental_div_mod(d as int, 2);
    let w = e as int / 2;
    lemma_fundamental_div_mod(e as int, 2);
    assert(q * p <= w < (q + 1) * p) by (nonlinear_arith)
        requires
            d == 2 * q + b,
            0 <= b < 2,
            e >= d * p,
            e < (d + 1) * p,
            e == 2 * w + e % 2,
            0 <= e % 2 < 2,
            p >= 1,
    ;
    assert(0 <= w - q * p < p) by (nonlinear_arith)
        requires
            q * p <= w < (q + 1) * p,
    ;
    assert(w == q * p + (w - q * p));
    lemma_fundamental_div_mod_converse(w, p, q as int, w - q * p);
}

/// An interval at `j + k` bytes, scaled by `256^k`, holds the code only if
/// the interval at `j` bytes does.
proof fn lemma_within_shrink(buf: Seq<u8>, j: nat, k: nat, lo: int, rng: int)
    requires
        lo >= 0,
        within(buf, j + k, lo * p256(k), rng * p256(k)),
    ensures
        within(buf, j, lo, rng),
{
    lemma_code_at_extend(buf, j, k);
    lemma_p256_pos(k);
    let p = p256(k) as int;
    let w = code_at(buf, j + k) as int;
    lemma_fundamental_div_mod(w, p);
    assert(lo * p <= w);
    assert(w < (lo + rng) * p) by (nonlinear_arith)
        requires
            w < lo * p + rng * p,
    ;
    let q = w / p;
    assert(lo <= q < lo + rng) by (nonlinear_arith)
        requires
            w == p * q + w % p,
            0 <= w % p < p,
            lo * p <= w,
            w < (lo + rng) * p,
            p >= 1,
    ;
}

/// One more byte of code: the decoder's next symbol is the byte straddling
/// the bit offset.
proof fn lemma_code_at_step(buf: Seq<u8>, j: nat)
    requires
        j >= 1,
    ensures
        code_at(buf, j + 1) == code_at(buf, j) * 256 + ((code_byte(buf, j - 1) * 256 + code_byte(buf, j as int)) / 2)
            % 256,
{
    let d = code_digits(buf, j);
    let dp = code_digits(buf, (j - 1) as nat);
    let rem = code_byte(buf, j - 1);
    let b = code_byte(buf, j as int);
    assert(d == dp * 256 + rem);
    assert(code_digits(buf, j + 1) == d * 256 + b);
    assert(rem < 256 && b < 256);
    let q = d / 2;
    lemma_fundamental_div_mod(d as int, 2);
    lemma_fundamental_div_mod(rem as int, 2);
    let rq = rem / 2;
    let rb = rem % 2;
    assert(d % 2 == rb) by (nonlinear_arith)
        requires
            d == dp * 256 + rem,
            rem == 2 * rq + rb,
            0 <= rb < 2,
            d == 2 * q + d % 2,
            0 <= d % 2 < 2,
    ;
    let hb = b / 2;
    lemma_fundamental_div_mod(b as int, 2);
    assert((d * 256 + b) / 2 == q * 256 + rb * 128 + hb) by (nonlinear_arith)
        requires
            d == 2 * q + rb,
            b == 2 * hb + b % 2,
            0 <= b % 2 < 2,
    ;
    assert((rem * 256 + b) / 2 == rq * 256 + rb * 128 + hb) by (nonlinear_arith)
        requires
            rem == 2 * rq + rb,
            b == 2 * hb + b % 2,
            0 <= b % 2 < 2,
    ;
    assert(0 <= rb * 128 + hb < 256);
    lemma_fundamental_div_mod_converse((rq * 256 + rb * 128 + hb) as int, 256, rq as int, (rb * 128 + hb) as int);
}

/// Renormalisation keeps the decoder on the code: after the `k` bytes the
/// range needs, the register tracks the interval scaled by `256^k`.
proof fn lemma_dec_normalize_tracks(d: DecState, buf: Seq<u8>, j: nat, lo: int)
    requires
        dec_tracks(d, buf, j, lo),
        lo >= 0,
        0 < d.rng <= 0x8000_0000,
        buf.len() < 0x1_0000_0000,
        within(
            buf,
            j + norm_steps(d.rng as nat),
            lo * p256(norm_steps(d.rng as nat)),
            d.rng * p256(norm_steps(d.rng as nat)),
        ),
    ensures
        ({
            let k = norm_steps(d.rng as nat);
            let d2 = dec_normalize(d);
            &&& dec_tracks(d2, buf, j + k, lo * p256(k))
            &&& d2.rng == d.rng * p256(k)
        }),
    decreases norm_measure(d.rng as nat),
{
    let k = norm_steps(d.rng as nat);
    if 0 < d.rng <= 0x80_0000 {
        lemma_within_shrink(buf, j, k, lo, d.rng as int);
        let (d1, byte) = dec_read_byte(d);
        assert(byte == code_byte(buf, j as int));
        let sym = (d.rem * 256 + byte) / 2;
        lemma_code_at_step(buf, j);
        assert(d.val <= d.rng - 1);
        let t = sym % 256;
        let dn = DecState {
            nbits_total: (d.nbits_total + 8) as i32,
            rng: (d.rng * 256) as u32,
            rem: byte as i32,
            val: ((d.val * 256 + 255 - sym % 256) % 0x8000_0000) as u32,
            ..d1
        };
        assert(d.val * 256 + 255 - t < 0x8000_0000);
        assert(dn.val == d.val * 256 + 255 - t);
        assert(dec_normalize(d) == dec_normalize(dn));
        assert(dec_tracks(dn, buf, j + 1, lo * 256));
        let k1 = norm_steps(dn.rng as nat);
        assert(k == 1 + k1);
        assert(p256(k) == 256 * p256(k1));
        assert((lo * 256) * p256(k1) == lo * p256(k)) by (nonlinear_arith)
            requires
                p256(k) == 256 * p256(k1),
        ;
        assert((dn.rng as int) * p256(k1) == (d.rng as int) * p256(k)) by (nonlinear_arith)
            requires
                p256(k) == 256 * p256(k1),
                dn.rng == d.rng * 256,
        ;
        assert(j + 1 + k1 == j + k);
        lemma_dec_normalize_tracks(dn, buf, j + 1, lo * 256);
        assert(dec_tracks(dec_normalize(dn), buf, j + k, lo * p256(k)));
        assert(dec_normalize(dn).rng == d.rng * p256(k));
    } else {
        assert(k == 0);
        assert(p256(0) == 1);
        assert(p256(k) == 1);
        assert(lo * p256(k) == lo) by (nonlinear_arith)
            requires
                p256(k) == 1,
        ;
        assert(d.rng * p256(k) == d.rng) by (nonlinear_arith)
            requires
                p256(k) == 1,
        ;
        assert(dec_normalize(d) == d);
    }
}

/// The interval a range-coded call narrows `[lo, lo + rng)` to, before
/// renormalisation: the arithmetic the encoder applies to its low end and
/// range. Raw bits leave it alone.
pub open spec fn iv_narrow(lo: int, rng: int, op: CodedOp) -> (int, int) {
    match op {
        CodedOp::Symbol(fl, fh, ft) => {
            let r = rng / ft;
            if fl > 0 {
                (lo + rng - r * (ft - fl), r * (fh - fl))
            } else {
                (lo, rng - r * (ft - fh))
            }
        },
        CodedOp::Bit(v, logp) => {
            let small = rng / (pow2(logp) as int);
            if v {
                (lo + rng - small, small)
            } else {
                (lo, rng - small)
            }
        },
        CodedOp::Icdf(sym, icdf, ftb) => {
            let r = rng / (pow2(ftb) as int);
            if sym > 0 {
                (lo + rng - r * icdf[sym - 1], r * (icdf[sym - 1] - icdf[sym as int]))
            } else {
                (lo, rng - r * icdf[0])
            }
        },
        CodedOp::Raw(_, _) => (lo, rng),
    }
}

/// The interval `(lo, rng)` at the precision of `j` bytes after one call,
/// renormalised.
pub open spec fn iv_step(iv: (int, int, nat), op: CodedOp) -> (int, int, nat) {
    let (lo2, r2) = iv_narrow(iv.0, iv.1, op);
    let k = norm_steps(r2 as nat);
    (lo2 * p256(k), r2 * p256(k), iv.2 + k)
}

/// The interval the code must lie in after the calls of `ops`, starting from
/// the whole of `[0, 2^31)` at four bytes.
pub open spec fn iv_ops(ops: Seq<CodedOp>) -> (int, int, nat)
    decreases ops.len(),
{
    if ops.len() == 0 {
        (0, 0x8000_0000, 4)
    } else {
        iv_step(iv_ops(ops.drop_last()), ops.last())
    }
}

/// A call with the parameters the coder accepts: a range-coded symbol, bit
/// or table symbol, or a raw field of 1 to 25 bits that fits its width.
pub open spec fn range_op_ok(op: CodedOp) -> bool {
    match op {
        CodedOp::Symbol(fl, fh, ft) => 0 <= fl < fh <= ft <= 0x40_0000,
        CodedOp::Bit(_, logp) => 1 <= logp <= 23,
        CodedOp::Icdf(sym, icdf, ftb) => {
            &&& ftb <= 15
            &&& sym < icdf.len()
            &&& icdf[icdf.len() - 1] == 0
            &&& icdf[0] < pow2(ftb)
            &&& forall|a: int, b: int| 0 <= a < b < icdf.len() ==> icdf[a] > icdf[b]
        },
        CodedOp::Raw(v, bits) => 1 <= bits <= 25 && (v as nat) < pow2(bits as nat),
    }
}

/// Every call of `ops` is a call the coder accepts.
pub open spec fn range_ops_ok(ops: Seq<CodedOp>) -> bool {
    forall|i: int| 0 <= i < ops.len() ==> range_op_ok(#[trigger] ops[i])
}

/// The raw fields `(value, width)` among the calls of `ops`, in order.
pub open spec fn raw_fields(ops: Seq<CodedOp>) -> Seq<(u32, u32)>
    decreases ops.len(),
{
    if ops.len() == 0 {
        Seq::empty()
    } else {
        match ops.last() {
            CodedOp::Raw(v, bits) => raw_fields(ops.drop_last()).push((v, bits)),
            _ => raw_fields(ops.drop_last()),
        }
    }
}

/// A live interval: nonnegative low end, range as after renormalisation.
pub open spec fn iv_ok(iv: (int, int, nat)) -> bool {
    iv.0 >= 0 && 0x80_0000 < iv.1 <= 0x8000_0000
}

/// Renormalising a range in `1..=2^31` lands it in `(2^23, 2^31]`.
proof fn lemma_norm_range(r: nat)
    requires
        1 <= r <= 0x8000_0000,
    ensures
        0x80_0000 < r * p256(norm_steps(r)) <= 0x8000_0000,
    decreases norm_measure(r),
{
    if r <= 0x80_0000 {
        lemma_norm_range(r * 256);
        let k1 = norm_steps(r * 256);
        assert(norm_steps(r) == 1 + k1);
        assert(p256(1 + k1) == 256 * p256(k1));
        assert((r * 256) * p256(k1) == r * p256(norm_steps(r))) by (nonlinear_arith)
            requires
                p256(norm_steps(r)) == 256 * p256(k1),
        ;
    } else {
        assert(norm_steps(r) == 0);
        assert(p256(0) == 1);
        assert(r * p256(0) == r);
    }
}

/// A call narrows a live interval to a nonempty sub-interval.
proof fn lemma_narrow_inside(lo: int, rng: int, op: CodedOp)
    requires
        lo >= 0,
        0x80_0000 < rng <= 0x8000_0000,
        range_op_ok(op),
    ensures
        lo <= iv_narrow(lo, rng, op).0,
        1 <= iv_narrow(lo, rng, op).1,
        iv_narrow(lo, rng, op).0 + iv_narrow(lo, rng, op).1 <= lo + rng,
{
    lemma2_to64();
    match op {
        CodedOp::Symbol(fl, fh, ft) => {
            let r = rng / ft;
            lemma_fundamental_div_mod(rng, ft);
            assert(r >= 1) by (nonlinear_arith)
                requires
                    rng == ft * r + rng % ft,
                    0 <= rng % ft < ft,
                    ft <= 0x40_0000,
                    rng > 0x80_0000,
            ;
            assert(r * ft <= rng) by (nonlinear_arith)
                requires
                    rng == ft * r + rng % ft,
                    0 <= rng % ft,
            ;
            assert(r * (ft - fl) >= r * (fh - fl)) by (nonlinear_arith)
                requires
                    r >= 1,
                    fh <= ft,
            ;
            assert(r * (fh - fl) >= 1) by (nonlinear_arith)
                requires
                    r >= 1,
                    fl < fh,
            ;
            assert(r * (ft - fl) <= rng) by (nonlinear_arith)
                requires
                    r * ft <= rng,
                    fl >= 0,
                    r >= 1,
            ;
            assert(r * (ft - fh) + r * fh == r * ft) by (nonlinear_arith);
            assert(r * fh >= 1) by (nonlinear_arith)
                requires
                    r >= 1,
                    fh >= 1,
            ;
        },
        CodedOp::Bit(v, logp) => {
            let p = pow2(logp) as int;
            lemma_pow2_pos(logp);
            if logp < 23 {
                lemma_pow2_strictly_increases(logp, 23);
            }
            lemma_fundamental_div_mod(rng, p);
            let small = rng / p;
            assert(1 <= small < rng) by (nonlinear_arith)
                requires
                    rng == p * small + rng % p,
                    0 <= rng % p < p,
                    2 <= p <= 0x80_0000,
                    rng > 0x80_0000,
            ;
        },
        CodedOp::Icdf(sym, icdf, ftb) => {
            let p = pow2(ftb) as int;
            lemma_pow2_pos(ftb);
            if ftb < 23 {
                lemma_pow2_strictly_increases(ftb, 23);
            }
            lemma_fundamental_div_mod(rng, p);
            let r = rng / p;
            assert(r >= 1 && r * p <= rng) by (nonlinear_arith)
                requires
                    rng == p * r + rng % p,
                    0 <= rng % p < p,
                    1 <= p <= 0x80_0000,
                    rng > 0x80_0000,
            ;
            assert(icdf[0] <= p - 1);
            if sym > 0 {
                assert(icdf[sym - 1] > icdf[sym as int]);
                assert(icdf[sym - 1] <= icdf[0]) by {
                    if sym - 1 > 0 {
                        assert(icdf[0] > icdf[sym - 1]);
                    }
                }
                assert(r * icdf[sym - 1] <= rng) by (nonlinear_arith)
                    requires
                        r * p <= rng,
                        icdf[sym - 1] <= p - 1,
                        r >= 1,
                ;
                assert(r * (icdf[sym - 1] - icdf[sym as int]) >= 1) by (nonlinear_arith)
                    requires
                        r >= 1,
                        icdf[sym - 1] > icdf[sym as int],
                ;
                assert(r * (icdf[sym - 1] - icdf[sym as int]) <= r * icdf[sym - 1]) by (nonlinear_arith)
                    requires
                        r >= 1,
                        icdf[sym as int] >= 0,
                ;
            } else {
                assert(r * icdf[0] <= r * (p - 1)) by (nonlinear_arith)
                    requires
                        r >= 1,
                        icdf[0] <= p - 1,
                ;
                assert(r * (p - 1) == r * p - r) by (nonlinear_arith);
                assert(r * icdf[0] >= 0) by (nonlinear_arith)
                    requires
                        r >= 1,
                        icdf[0] >= 0,
                ;
            }
        },
        CodedOp::Raw(_, _) => {},
    }
}

/// A call keeps the interval live, and the code lies in the interval before
/// the call whenever it lies in the one after.
proof fn lemma_iv_step(buf: Seq<u8>, iv: (int, int, nat), op: CodedOp)
    requires
        iv_ok(iv),
        range_op_ok(op),
    ensures
        iv_ok(iv_step(iv, op)),
        iv_step(iv, op).2 >= iv.2,
        within(buf, iv_step(iv, op).2, iv_step(iv, op).0, iv_step(iv, op).1) ==> within(buf, iv.2, iv.0, iv.1),
{
    lemma_narrow_inside(iv.0, iv.1, op);
    let (lo2, r2) = iv_narrow(iv.0, iv.1, op);
    let k = norm_steps(r2 as nat);
    lemma_norm_range(r2 as nat);
    lemma_p256_pos(k);
    assert(lo2 * p256(k) >= 0) by (nonlinear_arith)
        requires
            lo2 >= 0,
            p256(k) >= 1,
    ;
    if within(buf, iv.2 + k, lo2 * p256(k), r2 * p256(k)) {
        lemma_within_shrink(buf, iv.2, k, lo2, r2);
    }
}

/// After any prefix of the calls the interval is live, and it holds the code
/// whenever the final interval does.
proof fn lemma_iv_ops(buf: Seq<u8>, ops: Seq<CodedOp>, n: int)
    requires
        range_ops_ok(ops),
        0 <= n <= ops.len(),
    ensures
        iv_ok(iv_ops(ops.take(n))),
        iv_ops(ops.take(n)).2 <= iv_ops(ops).2,
        within(buf, iv_ops(ops).2, iv_ops(ops).0, iv_ops(ops).1) ==> within(
            buf,
            iv_ops(ops.take(n)).2,
            iv_ops(ops.take(n)).0,
            iv_ops(ops.take(n)).1,
        ),
    decreases ops.len() - n,
{
    lemma_iv_ok_all(ops, n);
    if n < ops.len() {
        lemma_iv_ops(buf, ops, n + 1);
        lemma_iv_tail(buf, ops, n);
    } else {
        assert(ops.take(n) =~= ops);
    }
}

proof fn lemma_iv_ok_all(ops: Seq<CodedOp>, n: int)
    requires
        range_ops_ok(ops),
        0 <= n <= ops.len(),
    ensures
        iv_ok(iv_ops(ops.take(n))),
    decreases n,
{
    if n == 0 {
        assert(ops.take(0).len() == 0);
    } else {
        lemma_iv_ok_all(ops, n - 1);
        assert(ops.take(n).drop_last() =~= ops.take(n - 1));
        assert(ops.take(n).last() == ops[n - 1]);
        lemma_iv_step(Seq::empty(), iv_ops(ops.take(n - 1)), ops[n - 1]);
    }
}

proof fn lemma_iv_tail(buf: Seq<u8>, ops: Seq<CodedOp>, n: int)
    requires
        range_ops_ok(ops),
        0 <= n < ops.len(),
    ensures
        iv_ops(ops.take(n)).2 <= iv_ops(ops.take(n + 1)).2,
        within(buf, iv_ops(ops.take(n + 1)).2, iv_ops(ops.take(n + 1)).0, iv_ops(ops.take(n + 1)).1)
            ==> within(buf, iv_ops(ops.take(n)).2, iv_ops(ops.take(n)).0, iv_ops(ops.take(n)).1),
{
    lemma_iv_ok_all(ops, n);
    assert(ops.take(n + 1).drop_last() =~= ops.take(n));
    assert(ops.take(n + 1).last() == ops[n]);
    lemma_iv_step(buf, iv_ops(ops.take(n)), ops[n]);
}

/// The decoder's step for one mirrored call.
pub open spec fn dec_op(d: DecState, op: CodedOp) -> DecState {
    match op {
        CodedOp::Symbol(fl, fh, ft) => dec_update_spec(dec_decode_spec(d, ft).0, fl, fh, ft),
        CodedOp::Bit(_, logp) => dec_bit_logp_spec(d, logp).0,
        CodedOp::Icdf(_, icdf, ftb) => dec_icdf_spec(d, icdf, ftb).0,
        CodedOp::Raw(_, bits) => dec_bits_spec(d, bits).0,
    }
}

/// The decoder reads back one call: the symbol's frequency lies in its
/// interval, the bit and the table symbol are the ones written.
pub open spec fn op_read_back(d: DecState, op: CodedOp) -> bool {
    match op {
        CodedOp::Bit(v, logp) => dec_bit_logp_spec(d, logp).1 == v,
        CodedOp::Icdf(sym, icdf, ftb) => dec_icdf_spec(d, icdf, ftb).1 == sym,
        CodedOp::Symbol(fl, fh, ft) => ft >= 1 && fl <= dec_decode_spec(d, ft).1 < fh,
        CodedOp::Raw(v, bits) => dec_bits_spec(d, bits).1 == v,
    }
}

/// `r a <= x < r b` puts `x / r` in `[a, b)`.
proof fn lemma_div_between(x: int, r: int, a: int, b: int)
    requires
        r >= 1,
        r * a <= x < r * b,
    ensures
        a <= x / r < b,
{
    lemma_fundamental_div_mod(x, r);
    let q = x / r;
    assert(a <= q < b) by (nonlinear_arith)
        requires
            x == r * q + x % r,
            0 <= x % r < r,
            r * a <= x < r * b,
            r >= 1,
    ;
}

/// The table search stops at the first threshold at or below `d`.
proof fn lemma_icdf_search_at(icdf: Seq<u8>, r: nat, d: nat, i: nat, sym: nat)
    requires
        i <= sym < icdf.len(),
        forall|t: int| i <= t < sym ==> r * icdf[t] > d,
        r * icdf[sym as int] <= d,
    ensures
        icdf_search(icdf, r, d, i) == sym,
    decreases sym - i,
{
    if i < sym {
        assert(r * icdf[i as int] > d);
        lemma_icdf_search_at(icdf, r, d, i + 1, sym);
    }
}

/// Decoding a symbol over a decoder on the code: the frequency falls in the
/// symbol's interval, and the decoder stays on the code.
proof fn lemma_dec_symbol_op(d: DecState, buf: Seq<u8>, j: nat, lo: int, fl: int, fh: int, ft: int)
    requires
        dec_tracks(d, buf, j, lo),
        lo >= 0,
        0x80_0000 < d.rng <= 0x8000_0000,
        0 <= fl < fh <= ft <= 0x40_0000,
        buf.len() < 0x1_0000_0000,
        within(
            buf,
            iv_step((lo, d.rng as int, j), CodedOp::Symbol(fl, fh, ft)).2,
            iv_step((lo, d.rng as int, j), CodedOp::Symbol(fl, fh, ft)).0,
            iv_step((lo, d.rng as int, j), CodedOp::Symbol(fl, fh, ft)).1,
        ),
    ensures
        ({
            let iv = iv_step((lo, d.rng as int, j), CodedOp::Symbol(fl, fh, ft));
            let d2 = dec_op(d, CodedOp::Symbol(fl, fh, ft));
            &&& dec_tracks(d2, buf, iv.2, iv.0)
            &&& d2.rng == iv.1
            &&& op_read_back(d, CodedOp::Symbol(fl, fh, ft))
        }),
{
    let op = CodedOp::Symbol(fl, fh, ft);
    let rng = d.rng as int;
    lemma_narrow_inside(lo, rng, op);
    let (lo2, r2) = iv_narrow(lo, rng, op);
    let k = norm_steps(r2 as nat);
    lemma_within_shrink(buf, j, k, lo2, r2);
    let w = code_at(buf, j) as int;
    let val = d.val as int;
    assert(val == lo + rng - 1 - w);
    let r = rng / ft;
    lemma_fundamental_div_mod(rng, ft);
    assert(r >= 1) by (nonlinear_arith)
        requires
            rng == ft * r + rng % ft,
            0 <= rng % ft < ft,
            ft <= 0x40_0000,
            rng > 0x80_0000,
    ;
    let (d1, fs) = dec_decode_spec(d, ft);
    assert(d1.ext == r);
    let q = val / r;
    assert(lo2 <= w < lo2 + r2);
    assert(r * (ft - fl) - r * (fh - fl) == r * (ft - fh)) by (nonlinear_arith);
    if fl > 0 {
        assert(lo2 == lo + rng - r * (ft - fl) && r2 == r * (fh - fl));
        assert(r * (ft - fh) <= val < r * (ft - fl));
        lemma_div_between(val, r, ft - fh, ft - fl);
        assert(fs == ft - (q + 1));
    } else {
        assert(lo2 == lo && r2 == rng - r * (ft - fh));
        assert(r * (ft - fh) <= val);
        assert(val <= rng - 1);
        if val < r * ft {
            lemma_div_between(val, r, ft - fh, ft);
        } else {
            lemma_div_is_ordered(r * ft, val, r);
            lemma_div_multiples_vanish(ft, r);
            assert(q >= ft);
        }
    }
    let sub = r * (ft - fh);
    assert(0 <= sub <= val) by (nonlinear_arith)
        requires
            r * (ft - fh) <= val,
            r >= 1,
            ft >= fh,
            sub == r * (ft - fh),
    ;
    let dm = DecState {
        val: ((d1.val - d1.ext * (ft - fh)) % 0x1_0000_0000) as u32,
        rng: (if fl > 0 {
            d1.ext * (fh - fl)
        } else {
            d1.rng - d1.ext * (ft - fh)
        }) as u32,
        ..d1
    };
    assert(dm.val == val - sub);
    assert(dm.rng == r2);
    assert(lo2 + r2 == lo + rng - sub);
    assert(dec_op(d, op) == dec_normalize(dm));
    assert(dec_tracks(dm, buf, j, lo2));
    lemma_dec_normalize_tracks(dm, buf, j, lo2);
}

/// Decoding a bit over a decoder on the code.
proof fn lemma_dec_bit_op(d: DecState, buf: Seq<u8>, j: nat, lo: int, v: bool, logp: nat)
    requires
        dec_tracks(d, buf, j, lo),
        lo >= 0,
        0x80_0000 < d.rng <= 0x8000_0000,
        1 <= logp <= 23,
        buf.len() < 0x1_0000_0000,
        within(
            buf,
            iv_step((lo, d.rng as int, j), CodedOp::Bit(v, logp)).2,
            iv_step((lo, d.rng as int, j), CodedOp::Bit(v, logp)).0,
            iv_step((lo, d.rng as int, j), CodedOp::Bit(v, logp)).1,
        ),
    ensures
        ({
            let iv = iv_step((lo, d.rng as int, j), CodedOp::Bit(v, logp));
            let d2 = dec_op(d, CodedOp::Bit(v, logp));
            &&& dec_tracks(d2, buf, iv.2, iv.0)
            &&& d2.rng == iv.1
            &&& op_read_back(d, CodedOp::Bit(v, logp))
        }),
{
    let op = CodedOp::Bit(v, logp);
    let rng = d.rng as int;
    lemma_narrow_inside(lo, rng, op);
    let (lo2, r2) = iv_narrow(lo, rng, op);
    let k = norm_steps(r2 as nat);
    lemma_within_shrink(buf, j, k, lo2, r2);
    let w = code_at(buf, j) as int;
    let val = d.val as int;
    let small = d.rng as nat / pow2(logp);
    assert(small == rng / (pow2(logp) as int));
    let ret = d.val < small;
    assert(ret == v);
    let dm = if ret {
        DecState { rng: small as u32, ..d }
    } else {
        DecState { val: (d.val - small) as u32, rng: (d.rng - small) as u32, ..d }
    };
    assert(dm.rng == r2);
    assert(dec_tracks(dm, buf, j, lo2));
    lemma_dec_normalize_tracks(dm, buf, j, lo2);
}

/// Decoding a table symbol over a decoder on the code.
proof fn lemma_dec_icdf_op(d: DecState, buf: Seq<u8>, j: nat, lo: int, sym: nat, icdf: Seq<u8>, ftb: nat)
    requires
        dec_tracks(d, buf, j, lo),
        lo >= 0,
        0x80_0000 < d.rng <= 0x8000_0000,
        range_op_ok(CodedOp::Icdf(sym, icdf, ftb)),
        buf.len() < 0x1_0000_0000,
        within(
            buf,
            iv_step((lo, d.rng as int, j), CodedOp::Icdf(sym, icdf, ftb)).2,
            iv_step((lo, d.rng as int, j), CodedOp::Icdf(sym, icdf, ftb)).0,
            iv_step((lo, d.rng as int, j), CodedOp::Icdf(sym, icdf, ftb)).1,
        ),
    ensures
        ({
            let iv = iv_step((lo, d.rng as int, j), CodedOp::Icdf(sym, icdf, ftb));
            let d2 = dec_op(d, CodedOp::Icdf(sym, icdf, ftb));
            &&& dec_tracks(d2, buf, iv.2, iv.0)
            &&& d2.rng == iv.1
            &&& op_read_back(d, CodedOp::Icdf(sym, icdf, ftb))
        }),
{
    let op = CodedOp::Icdf(sym, icdf, ftb);
    let rng = d.rng as int;
    lemma_narrow_inside(lo, rng, op);
    let (lo2, r2) = iv_narrow(lo, rng, op);
    let k = norm_steps(r2 as nat);
    lemma_within_shrink(buf, j, k, lo2, r2);
    let w = code_at(buf, j) as int;
    let val = d.val as int;
    let r = d.rng as nat / pow2(ftb);
    assert(r == rng / (pow2(ftb) as int));
    assert(r >= 1) by {
        lemma2_to64();
        lemma_pow2_pos(ftb);
        if ftb < 23 {
            lemma_pow2_strictly_increases(ftb, 23);
        }
        lemma_fundamental_div_mod(rng, pow2(ftb) as int);
        assert(r >= 1) by (nonlinear_arith)
            requires
                rng == pow2(ftb) * r + rng % (pow2(ftb) as int),
                0 <= rng % (pow2(ftb) as int) < pow2(ftb),
                1 <= pow2(ftb) <= 0x80_0000,
                rng > 0x80_0000,
        ;
    }
    assert(lo2 <= w < lo2 + r2);
    if sym > 0 {
        assert(r * icdf[sym - 1] - r * icdf[sym as int] == r * (icdf[sym - 1] - icdf[sym as int])) by (nonlinear_arith);
        assert(lo2 == lo + rng - r * icdf[sym - 1]);
        assert(r2 == r * (icdf[sym - 1] - icdf[sym as int]));
        assert(val <= r * icdf[sym - 1] - 1);
    } else {
        assert(lo2 == lo && r2 == rng - r * icdf[0]);
    }
    assert(lo2 + r2 == lo + rng - r * icdf[sym as int]);
    assert(r * icdf[sym as int] <= val);
    assert forall|t: int| 0 <= t < sym implies r * icdf[t] > val by {
        assert(icdf[t] >= icdf[sym - 1]) by {
            if t < sym - 1 {
                assert(icdf[t] > icdf[sym - 1]);
            }
        }
        assert(r * icdf[t] >= r * icdf[sym - 1]) by (nonlinear_arith)
            requires
                icdf[t] >= icdf[sym - 1],
                r >= 1,
        ;
    }
    lemma_icdf_search_at(icdf, r, d.val as nat, 0, sym);
    let t: int = if sym == 0 {
        rng
    } else {
        r * icdf[sym - 1]
    };
    let low = r * icdf[sym as int];
    let dm = DecState { val: (d.val - low) as u32, rng: (t - low) as u32, ..d };
    assert(dm.val == val - low);
    assert(dm.rng == r2);
    assert(dec_op(d, op) == dec_normalize(dm));
    assert(dec_tracks(dm, buf, j, lo2));
    lemma_dec_normalize_tracks(dm, buf, j, lo2);
}

/// A fresh decoder has read four bytes and its register is the distance from
/// the top of `[0, 2^31)` to the code.
proof fn lemma_dec_new_tracks(buf: Seq<u8>)
    requires
        buf.len() < 0x1_0000_0000,
    ensures
        dec_tracks(dec_new_spec(buf), buf, 4, 0),
        dec_new_spec(buf).rng == 0x8000_0000,
{
    let s0 = DecState {
        buf,
        storage: buf.len() as u32,
        end_offs: 0,
        end_window: 0,
        nend_bits: 0,
        nbits_total: 9,
        offs: 0,
        rng: 128,
        val: 0,
        ext: 0,
        rem: 0,
        error: false,
    };
    let (s1, byte) = dec_read_byte(s0);
    let sm = DecState { rem: byte as i32, val: (127 - byte / 2) as u32, ..s1 };
    assert(dec_new_spec(buf) == dec_normalize(sm));
    assert(code_digits(buf, 1) == byte) by {
        assert(code_digits(buf, 0) == 0);
    }
    assert(dec_tracks(sm, buf, 1, 0));
    assert(norm_steps(128) == 3) by {
        reveal_with_fuel(norm_steps, 4);
    }
    assert(p256(3) == 0x100_0000) by {
        reveal_with_fuel(p256, 4);
    }
    lemma_digits_extend(buf, 0, 4);
    assert(p256(4) == 0x1_0000_0000) by {
        reveal_with_fuel(p256, 5);
    }
    assert(code_digits(buf, 0) == 0);
    assert(code_digits(buf, 4) < 0x1_0000_0000) by {
        assert(0nat + 4 == 4nat);
        assert((code_digits(buf, 0) + 1) * p256(4) == 0x1_0000_0000);
    }
    assert(code_at(buf, 4) == code_digits(buf, 4) / 2);
    assert(within(buf, 4, 0, 0x8000_0000));
    assert(0 * p256(3) == 0);
    assert(1 + 3 == 4);
    lemma_dec_normalize_tracks(sm, buf, 1, 0);
    assert(sm.rng == 128);
    assert(dec_normalize(sm).rng == 128 * p256(3));
    assert(128 * p256(3) == 0x8000_0000);
}

/// The range coder's decoder side: a decoder over any buffer whose code lies
/// in the interval the range-coded calls of `ops` narrow `[0, 2^31)` to, and
/// whose bytes read from the end hold the raw fields of `ops` packed in their
/// low bits, reads back every call (each symbol's frequency in its interval,
/// each bit, table symbol and raw field the one written), and ends on the
/// code with the calls' range.
pub proof fn lemma_decoder_reads_back(buf: Seq<u8>, ops: Seq<CodedOp>)
    requires
        buf.len() < 0x1_0000_0000,
        range_ops_ok(ops),
        within(buf, iv_ops(ops).2, iv_ops(ops).0, iv_ops(ops).1),
        back_value(buf) % pow2(raw_width(raw_fields(ops))) == raw_value(raw_fields(ops)),
    ensures
        dec_reads_back(dec_new_spec(buf), ops),
        iv_ok(iv_ops(ops)),
        dec_tracks(dec_ops_all(dec_new_spec(buf), ops), buf, iv_ops(ops).2, iv_ops(ops).0),
        dec_ops_all(dec_new_spec(buf), ops).rng == iv_ops(ops).1,
        raw_dec_inv(dec_ops_all(dec_new_spec(buf), ops), back_value(buf), raw_width(raw_fields(ops)), buf.len(), buf),
    decreases ops.len(),
{
    if ops.len() == 0 {
        lemma_dec_new_tracks(buf);
        lemma_dec_new_raw(buf);
    } else {
        let rest = ops.drop_last();
        let op = ops.last();
        assert(range_op_ok(op)) by {
            assert(op == ops[ops.len() - 1]);
        }
        assert(range_ops_ok(rest)) by {
            assert forall|i: int| 0 <= i < rest.len() implies range_op_ok(#[trigger] rest[i]) by {
                assert(rest[i] == ops[i]);
            }
        }
        let iv = iv_ops(rest);
        lemma_iv_ok_prefix(rest);
        lemma_iv_step(buf, iv, op);
        assert(iv_ops(ops) == iv_step(iv, op));
        let fr = raw_fields(rest);
        let fa = raw_fields(ops);
        let v_all = back_value(buf);
        lemma_raw_fields_ok(ops);
        lemma_raw_fields_ok(rest);
        match op {
            CodedOp::Raw(v, bits) => {
                assert(fa == fr.push((v, bits)));
                assert(fa.drop_last() =~= fr);
                lemma_raw_prefix_mod(v_all, fr, v, bits);
            },
            _ => {
                assert(fa == fr);
            },
        }
        lemma_decoder_reads_back(buf, rest);
        let s0 = dec_new_spec(buf);
        let d = dec_ops_all(s0, rest);
        assert(dec_ops_all(s0, ops) == dec_op(d, op));
        match op {
            CodedOp::Symbol(fl, fh, ft) => {
                lemma_dec_symbol_op(d, buf, iv.2, iv.0, fl, fh, ft);
                let d1 = dec_decode_spec(d, ft).0;
                let sub = d1.ext * (ft - fh);
                lemma_dec_normalize_back(
                    DecState {
                        val: ((d1.val - sub) % 0x1_0000_0000) as u32,
                        rng: (if fl > 0 {
                            d1.ext * (fh - fl)
                        } else {
                            d1.rng - sub
                        }) as u32,
                        ..d1
                    },
                );
            },
            CodedOp::Bit(v, logp) => {
                lemma_dec_bit_op(d, buf, iv.2, iv.0, v, logp);
                let small = d.rng as nat / pow2(logp);
                let ret = d.val < small;
                lemma_dec_normalize_back(
                    if ret {
                        DecState { rng: small as u32, ..d }
                    } else {
                        DecState { val: (d.val - small) as u32, rng: (d.rng - small) as u32, ..d }
                    },
                );
            },
            CodedOp::Icdf(sym, icdf, ftb) => {
                lemma_dec_icdf_op(d, buf, iv.2, iv.0, sym, icdf, ftb);
                let r = d.rng as nat / pow2(ftb);
                let k = icdf_search(icdf, r, d.val as nat, 0);
                let t: int = if k == 0 {
                    d.rng as int
                } else {
                    r * icdf[k - 1]
                };
                let lo = r * icdf[k as int];
                lemma_dec_normalize_back(DecState { val: (d.val - lo) as u32, rng: (t - lo) as u32, ..d });
            },
            CodedOp::Raw(v, bits) => {
                let c = raw_width(fr);
                lemma_dec_bits_back(d, c, buf, bits);
                lemma_dec_bits_keeps_front(d, bits);
                assert(raw_width(fa) == c + bits);
                lemma_raw_value_bound(fa);
                vstd::arithmetic::div_mod::lemma_small_mod(raw_value(fa), pow2(raw_width(fa)));
                lemma_low_bits_agree(v_all, raw_value(fa), raw_width(fa), c, bits as nat);
                assert(fa.take(fa.len() - 1) =~= fr);
                lemma_raw_field(fa, fa.len() - 1);
                assert(fa[fa.len() - 1] == (v, bits));
                assert(norm_steps(iv.1 as nat) == 0);
                assert(p256(0) == 1);
                assert(iv_step(iv, op) == iv) by {
                    assert(iv.0 * p256(0) == iv.0) by (nonlinear_arith)
                        requires
                            p256(0) == 1,
                    ;
                    assert(iv.1 * p256(0) == iv.1) by (nonlinear_arith)
                        requires
                            p256(0) == 1,
                    ;
                }
            },
        }
        assert(dec_reads_back(s0, ops) == (dec_reads_back(s0, rest) && op_read_back(d, op)));
    }
}

/// The raw fields of accepted calls have widths of 1 to 25 bits and fit them.
proof fn lemma_raw_fields_ok(ops: Seq<CodedOp>)
    requires
        range_ops_ok(ops),
    ensures
        forall|i: int| 0 <= i < raw_fields(ops).len() ==> 1 <= (#[trigger] raw_fields(ops)[i]).1 <= 25,
        forall|i: int|
            0 <= i < raw_fields(ops).len() ==> ((#[trigger] raw_fields(ops)[i]).0 as nat) < pow2(
                raw_fields(ops)[i].1 as nat,
            ),
    decreases ops.len(),
{
    if ops.len() > 0 {
        let rest = ops.drop_last();
        assert(range_ops_ok(rest)) by {
            assert forall|i: int| 0 <= i < rest.len() implies range_op_ok(#[trigger] rest[i]) by {
                assert(rest[i] == ops[i]);
            }
        }
        assert(range_op_ok(ops.last())) by {
            assert(ops.last() == ops[ops.len() - 1]);
        }
        lemma_raw_fields_ok(rest);
        let fr = raw_fields(rest);
        match ops.last() {
            CodedOp::Raw(v, bits) => {
                let fa = fr.push((v, bits));
                assert(raw_fields(ops) == fa);
                assert forall|i: int| 0 <= i < fa.len() implies 1 <= (#[trigger] fa[i]).1 <= 25 && (
                fa[i].0 as nat) < pow2(fa[i].1 as nat) by {
                    if i < fr.len() {
                        assert(fa[i] == fr[i]);
                    }
                }
            },
            _ => {
                assert(raw_fields(ops) == fr);
            },
        }
    }
}

/// The fields before the last are the low bits of all of them.
proof fn lemma_raw_prefix_mod(x: nat, fields: Seq<(u32, u32)>, v: u32, bits: u32)
    requires
        forall|i: int| 0 <= i < fields.len() ==> ((#[trigger] fields[i]).0 as nat) < pow2(fields[i].1 as nat),
        x % pow2(raw_width(fields.push((v, bits)))) == raw_value(fields.push((v, bits))),
    ensures
        x % pow2(raw_width(fields)) == raw_value(fields),
{
    let f2 = fields.push((v, bits));
    assert(f2.drop_last() =~= fields);
    let w = raw_width(fields);
    let w2 = raw_width(f2);
    assert(w2 == w + bits);
    lemma_raw_value_bound(fields);
    lemma_pow2_adds(w, bits as nat);
    lemma_pow2_pos(w);
    lemma_pow2_pos(bits as nat);
    lemma_mod_mod(x as int, pow2(w) as int, pow2(bits as nat) as int);
    assert(raw_value(f2) == raw_value(fields) + v * pow2(w));
    lemma_mod_multiples_vanish(v as int, raw_value(fields) as int, pow2(w) as int);
    lemma_small_mod(raw_value(fields), pow2(w));
}

/// Every prefix of accepted calls leaves a live interval.
proof fn lemma_iv_ok_prefix(ops: Seq<CodedOp>)
    requires
        range_ops_ok(ops),
    ensures
        iv_ok(iv_ops(ops)),
{
    lemma_iv_ok_all(ops, ops.len() as int);
    assert(ops.take(ops.len() as int) =~= ops);
}

/// Whether the encoder holds a pending (not yet written) symbol.
pub open spec fn rem_digits(e: EncState) -> nat {
    if e.rem >= 0 {
        1
    } else {
        0
    }
}

/// The bytes the encoder has shifted out of its low end: written, pending,
/// and the run of pending `0xFF`.
pub open spec fn enc_digits(e: EncState) -> nat {
    (e.offs + rem_digits(e) + e.ext) as nat
}

/// The pending part of the shifted-out bytes: the held symbol and the run of
/// `0xFF` after it.
pub open spec fn pend_tail(e: EncState) -> int {
    (if e.rem >= 0 {
        e.rem as int
    } else {
        0
    }) * p256(e.ext as nat) + p256(e.ext as nat) - 1
}

/// All shifted-out bytes as one number: the written ones, then the pending.
pub open spec fn enc_pend(e: EncState) -> int {
    code_digits(e.buf, e.offs as nat) * p256((e.ext + rem_digits(e)) as nat) + pend_tail(e)
}

/// A carry out of the low end `v` of an interval of `rng` cannot reach the
/// bytes already written.
pub open spec fn carry_room(e: EncState, v: int, rng: int) -> bool {
    pend_tail(e) * 0x8000_0000 + v + rng <= p256((e.ext + rem_digits(e)) as nat) * 0x8000_0000
}

/// The front of the buffer as the carry logic keeps it.
pub open spec fn enc_front_ok(e: EncState) -> bool {
    &&& e.buf.len() == e.storage
    &&& e.offs + e.end_offs <= e.storage
    &&& -1 <= e.rem <= 255
}

/// Writing byte `x` at `i` leaves the bytes before it and appends `x`.
proof fn lemma_digits_update(buf: Seq<u8>, i: int, x: u8, n: nat)
    requires
        0 <= i < buf.len(),
        n <= i + 1,
    ensures
        n <= i ==> code_digits(buf.update(i, x), n) == code_digits(buf, n),
        n == i + 1 ==> code_digits(buf.update(i, x), n) == code_digits(buf, i as nat) * 256 + x,
    decreases n,
{
    if n > 0 {
        lemma_digits_update(buf, i, x, (n - 1) as nat);
    }
}

/// Storing one byte: an error once the buffer is full, else one more written
/// byte.
proof fn lemma_put_byte(s: EncState, x: u32)
    requires
        enc_front_ok(s),
        x < 256,
    ensures
        s.error ==> enc_put_byte(s, x).error,
        !enc_put_byte(s, x).error ==> ({
            let t = enc_put_byte(s, x);
            &&& t.offs == s.offs + 1
            &&& code_digits(t.buf, t.offs as nat) == code_digits(s.buf, s.offs as nat) * 256 + x
            &&& enc_front_ok(t)
            &&& t.rem == s.rem && t.ext == s.ext && t.end_offs == s.end_offs && t.storage == s.storage
            &&& t.end_window == s.end_window && t.nend_bits == s.nend_bits
        }),
{
    if s.offs + s.end_offs < s.storage {
        lemma_digits_update(s.buf, s.offs as int, x as u8, (s.offs + 1) as nat);
    }
}

/// Storing `n` copies of `sym` (`0` or `0xFF`).
proof fn lemma_put_repeat(s: EncState, sym: u32, n: nat)
    requires
        enc_front_ok(s),
        sym == 0 || sym == 255,
    ensures
        s.error ==> enc_put_repeat(s, sym, n).error,
        !enc_put_repeat(s, sym, n).error ==> ({
            let t = enc_put_repeat(s, sym, n);
            &&& t.offs == s.offs + n
            &&& code_digits(t.buf, t.offs as nat) == code_digits(s.buf, s.offs as nat) * p256(n) + (if sym == 255 {
                p256(n) - 1
            } else {
                0
            })
            &&& enc_front_ok(t)
            &&& t.rem == s.rem && t.ext == s.ext && t.end_offs == s.end_offs && t.storage == s.storage
            &&& t.end_window == s.end_window && t.nend_bits == s.nend_bits
        }),
    decreases n,
{
    if n > 0 {
        lemma_put_byte(s, sym);
        let s1 = enc_put_byte(s, sym);
        if s1.error {
            lemma_put_repeat(s1, sym, (n - 1) as nat);
        } else {
            lemma_put_repeat(s1, sym, (n - 1) as nat);
            let t = enc_put_repeat(s1, sym, (n - 1) as nat);
            if !t.error {
                let a = code_digits(s.buf, s.offs as nat);
                let p = p256((n - 1) as nat);
                assert(p256(n) == 256 * p);
                if sym == 255 {
                    assert((a * 256 + 255) * p + (p - 1) == a * (256 * p) + (256 * p - 1)) by (nonlinear_arith);
                } else {
                    assert((a * 256 + 0) * p + 0 == a * (256 * p) + 0) by (nonlinear_arith);
                }
            }
        }
    } else {
        assert(p256(0) == 1);
    }
}

/// One byte shifted out of a low end `v` (of an interval of `rng <= 2^23`)
/// through the carry logic: the shifted-out bytes gain the top byte of `v`
/// (with its carry), and no carry can reach the written bytes afterwards.
proof fn lemma_carry_step(s: EncState, v: int, rng: int)
    requires
        !s.error,
        enc_front_ok(s),
        0 <= v,
        1 <= rng <= 0x80_0000,
        v + rng <= 0x1_0000_0000,
        carry_room(s, v, rng),
        s.ext < 0xffff_fff0,
    ensures
        s.error ==> enc_carry_out(s, v / 0x80_0000).error,
        !enc_carry_out(s, v / 0x80_0000).error ==> ({
            let t = enc_carry_out(s, v / 0x80_0000);
            &&& enc_front_ok(t)
            &&& enc_pend(t) == enc_pend(s) * 256 + v / 0x80_0000
            &&& enc_digits(t) == enc_digits(s) + 1
            &&& carry_room(t, (v % 0x80_0000) * 256, rng * 256)
            &&& t.end_offs == s.end_offs && t.storage == s.storage
            &&& t.end_window == s.end_window && t.nend_bits == s.nend_bits
        }),
{
    let c = v / 0x80_0000;
    lemma_fundamental_div_mod(v, 0x80_0000);
    let lowv = v % 0x80_0000;
    assert(0 <= c <= 511);
    let e = s.ext as nat;
    let ee = p256(e);
    lemma_p256_pos(e);
    let f = code_digits(s.buf, s.offs as nat);
    let rr = rem_digits(s);
    assert(p256(e + 1) == 256 * ee);
    let t = enc_carry_out(s, c);
    if c == 255 {
        assert(t == EncState { ext: (s.ext + 1) as u32, ..s });
        assert((t.ext + rem_digits(t)) as nat == (e + rr) + 1);
        assert(p256((e + rr) + 1) == 256 * p256(e + rr));
        let rm: int = if s.rem >= 0 {
            s.rem as int
        } else {
            0
        };
        assert(pend_tail(t) == rm * (256 * ee) + 256 * ee - 1);
        assert(pend_tail(t) == 256 * pend_tail(s) + 255) by (nonlinear_arith)
            requires
                pend_tail(t) == rm * (256 * ee) + 256 * ee - 1,
                pend_tail(s) == rm * ee + ee - 1,
        ;
        assert(enc_pend(t) == f * (256 * p256(e + rr)) + pend_tail(t));
        assert(enc_pend(t) == enc_pend(s) * 256 + 255) by (nonlinear_arith)
            requires
                enc_pend(t) == f * (256 * p256(e + rr)) + pend_tail(t),
                enc_pend(s) == f * p256(e + rr) + pend_tail(s),
                pend_tail(t) == 256 * pend_tail(s) + 255,
        ;
        assert(pend_tail(t) * 0x8000_0000 + lowv * 256 + rng * 256 <= p256((e + rr) + 1) * 0x8000_0000) by (nonlinear_arith)
            requires
                pend_tail(t) == 256 * pend_tail(s) + 255,
                pend_tail(s) * 0x8000_0000 + v + rng <= p256(e + rr) * 0x8000_0000,
                v == 0x80_0000 * 255 + lowv,
                p256((e + rr) + 1) == 256 * p256(e + rr),
        ;
    } else {
        let carry = c / 256;
        let cl = c % 256;
        assert(c == 256 * carry + cl && 0 <= carry <= 1 && 0 <= cl < 256);
        if carry == 1 {
            assert(v >= 0x8000_0000);
        } else {
            assert(c <= 254);
            assert(v < 255 * 0x80_0000);
        }
        let rm: int = if s.rem >= 0 {
            s.rem as int
        } else {
            0
        };
        if s.rem >= 0 {
            assert(rr == 1);
            assert(p256(e + 1) == 256 * ee);
            if carry == 1 {
                assert(rm + 1 < 256) by (nonlinear_arith)
                    requires
                        (rm * ee + ee - 1) * 0x8000_0000 + v + rng <= (256 * ee) * 0x8000_0000,
                        v >= 0x8000_0000,
                        rng >= 1,
                        ee >= 1,
                ;
            }
        } else {
            assert(rr == 0);
            if carry == 1 {
                assert(false) by (nonlinear_arith)
                    requires
                        (0 * ee + ee - 1) * 0x8000_0000 + v + rng <= ee * 0x8000_0000,
                        v >= 0x8000_0000,
                        rng >= 1,
                ;
            }
        }
        let s1 = if s.rem >= 0 {
            enc_put_byte(s, (s.rem + carry) as u32)
        } else {
            s
        };
        if s.rem >= 0 {
            lemma_put_byte(s, (s.rem + carry) as u32);
        }
        let sym: u32 = if carry == 0 {
            255u32
        } else {
            0u32
        };
        let s2 = if s1.ext > 0 {
            EncState { ext: 0, ..enc_put_repeat(s1, sym, s1.ext as nat) }
        } else {
            s1
        };
        assert(t == EncState { rem: (c % 256) as i32, ..s2 });
        if !s1.error {
            lemma_put_repeat(s1, sym, s1.ext as nat);
        } else {
            lemma_put_repeat(s1, sym, s1.ext as nat);
        }
        if !t.error {
            assert(!s1.error);
            let f1 = code_digits(s1.buf, s1.offs as nat);
            assert(f1 == if s.rem >= 0 {
                f * 256 + rm + carry
            } else {
                f as int
            });
            let f2 = code_digits(s2.buf, s2.offs as nat);
            assert(f2 == f1 * ee + (if sym == 255 {
                ee - 1
            } else {
                0int
            })) by {
                if s1.ext == 0 {
                    assert(ee == 1);
                }
            }
            assert(rem_digits(t) == 1 && t.ext == 0);
            assert(p256(1) == 256) by {
                assert(p256(0) == 1);
            }
            assert(pend_tail(t) == cl) by {
                assert(p256(0) == 1);
            }
            assert(enc_pend(t) == f2 * 256 + cl);
            assert(enc_pend(s) == f * p256(e + rr) + rm * ee + ee - 1);
            if s.rem >= 0 {
                if carry == 0 {
                    assert(f2 * 256 + cl == (f * 256 * ee + rm * ee + ee - 1) * 256 + c) by (nonlinear_arith)
                        requires
                            f2 == (f * 256 + rm) * ee + ee - 1,
                            cl == c,
                    ;
                } else {
                    assert(f2 * 256 + cl == (f * 256 * ee + rm * ee + ee - 1) * 256 + c) by (nonlinear_arith)
                        requires
                            f2 == (f * 256 + rm + 1) * ee,
                            c == 256 + cl,
                    ;
                }
                assert(p256(e + rr) == 256 * ee);
                assert(f * p256(e + rr) == f * 256 * ee) by (nonlinear_arith)
                    requires
                        p256(e + rr) == 256 * ee,
                ;
            } else {
                assert(carry == 0);
                assert(f2 * 256 + cl == (f * ee + ee - 1) * 256 + c) by (nonlinear_arith)
                    requires
                        f2 == f * ee + ee - 1,
                        cl == c,
                ;
                assert(e + rr == e);
                assert(rm == 0);
            }
            assert(t.offs == s.offs + rr + e);
            assert(cl * 0x8000_0000 + lowv * 256 + rng * 256 <= 256 * 0x8000_0000) by (nonlinear_arith)
                requires
                    v == 0x80_0000 * c + lowv,
                    c == 256 * carry + cl,
                    0 <= carry <= 1,
                    carry == 1 ==> v + rng <= 0x1_0000_0000,
                    carry == 0 ==> v < 255 * 0x80_0000,
                    rng <= 0x80_0000,
                    0 <= lowv,
            ;
        }
    }
}

/// A latched error stays latched through the carry logic.
proof fn lemma_carry_sticky(s: EncState, c: int)
    requires
        s.error,
    ensures
        enc_carry_out(s, c).error,
{
    if c != 255 {
        let carry = c / 256;
        let s1 = if s.rem >= 0 {
            enc_put_byte(s, (s.rem + carry) as u32)
        } else {
            s
        };
        assert(s1.error);
        lemma_put_repeat_sticky(s1, if carry == 0 {
            255u32
        } else {
            0u32
        }, s1.ext as nat);
    }
}

proof fn lemma_put_repeat_sticky(s: EncState, sym: u32, n: nat)
    requires
        s.error,
    ensures
        enc_put_repeat(s, sym, n).error,
    decreases n,
{
    if n > 0 {
        lemma_put_repeat_sticky(enc_put_byte(s, sym), sym, (n - 1) as nat);
    }
}

/// A latched error stays latched through renormalisation.
proof fn lemma_normalize_sticky(s: EncState)
    requires
        s.error,
    ensures
        enc_normalize(s).error,
    decreases norm_measure(s.rng as nat),
{
    if 0 < s.rng <= 0x80_0000 {
        let c = (s.val / 0x80_0000) as int;
        if c != 255 {
            let carry = c / 256;
            let s1 = if s.rem >= 0 {
                enc_put_byte(s, (s.rem + carry) as u32)
            } else {
                s
            };
            lemma_put_repeat_sticky(s1, if carry == 0 {
                255u32
            } else {
                0u32
            }, s1.ext as nat);
        }
        let s1 = enc_carry_out(s, c);
        assert(s1.error);
        lemma_normalize_sticky(
            EncState {
                val: ((s.val % 0x80_0000) * 256) as u32,
                rng: (s.rng * 256) as u32,
                nbits_total: (s.nbits_total + 8) as i32,
                ..s1
            },
        );
    }
}

/// The encoder's renormalisation follows the interval: each byte it shifts
/// out scales the low end and the range by 256 and joins the shifted-out
/// bytes, carry included.
proof fn lemma_enc_normalize(s: EncState)
    requires
        !s.error,
        enc_front_ok(s),
        1 <= s.rng <= 0x8000_0000,
        s.val + s.rng <= 0x1_0000_0000,
        carry_room(s, s.val as int, s.rng as int),
        s.ext + norm_steps(s.rng as nat) < 0xffff_fff0,
    ensures
        ({
            let k = norm_steps(s.rng as nat);
            let t = enc_normalize(s);
            !t.error ==> {
                &&& enc_front_ok(t)
                &&& enc_pend(t) * 0x8000_0000 + t.val == (enc_pend(s) * 0x8000_0000 + s.val) * p256(k)
                &&& t.rng == s.rng * p256(k)
                &&& enc_digits(t) == enc_digits(s) + k
                &&& carry_room(t, t.val as int, t.rng as int)
                &&& t.val + t.rng <= 0x1_0000_0000
                &&& t.ext <= s.ext + k
                &&& t.end_offs == s.end_offs && t.storage == s.storage
                &&& t.end_window == s.end_window && t.nend_bits == s.nend_bits
            }
        }),
    decreases norm_measure(s.rng as nat),
{
    let k = norm_steps(s.rng as nat);
    if 0 < s.rng <= 0x80_0000 {
        let v = s.val as int;
        let c = v / 0x80_0000;
        lemma_carry_step(s, v, s.rng as int);
        let s1 = enc_carry_out(s, c);
        let sn = EncState {
            val: ((s.val % 0x80_0000) * 256) as u32,
            rng: (s.rng * 256) as u32,
            nbits_total: (s.nbits_total + 8) as i32,
            ..s1
        };
        assert(enc_normalize(s) == enc_normalize(sn));
        if s1.error {
            lemma_normalize_sticky(sn);
        } else {
            lemma_fundamental_div_mod(v, 0x80_0000);
            assert(sn.val == (v % 0x80_0000) * 256);
            assert(enc_pend(sn) == enc_pend(s1));
            assert(enc_pend(sn) * 0x8000_0000 + sn.val == (enc_pend(s) * 0x8000_0000 + v) * 256) by (nonlinear_arith)
                requires
                    enc_pend(sn) == enc_pend(s) * 256 + c,
                    sn.val == (v % 0x80_0000) * 256,
                    v == 0x80_0000 * c + v % 0x80_0000,
            ;
            assert(s1.ext <= s.ext + 1);
            let k1 = norm_steps(sn.rng as nat);
            assert(k == 1 + k1);
            lemma_enc_normalize(sn);
            assert(p256(k) == 256 * p256(k1));
            let t = enc_normalize(sn);
            if !t.error {
                assert((enc_pend(s) * 0x8000_0000 + v) * 256 * p256(k1) == (enc_pend(s) * 0x8000_0000 + v) * p256(k)) by (nonlinear_arith)
                    requires
                        p256(k) == 256 * p256(k1),
                ;
                assert((sn.rng as int) * p256(k1) == (s.rng as int) * p256(k)) by (nonlinear_arith)
                    requires
                        p256(k) == 256 * p256(k1),
                        sn.rng == s.rng * 256,
                ;
            }
        }
    } else {
        assert(k == 0);
        assert(p256(0) == 1);
        assert((enc_pend(s) * 0x8000_0000 + s.val) * p256(k) == enc_pend(s) * 0x8000_0000 + s.val);
        assert(s.rng * p256(k) == s.rng);
    }
}

/// The encoder's state as the round trip follows it.
pub open spec fn enc_inv(e: EncState) -> bool {
    &&& enc_front_ok(e)
    &&& 0x80_0000 < e.rng <= 0x8000_0000
    &&& e.val + e.rng <= 0x1_0000_0000
    &&& carry_room(e, e.val as int, e.rng as int)
}

/// The interval an encoder stands for: its low end below all shifted-out
/// bytes, its range, and the bytes a decoder reads to match its precision.
pub open spec fn enc_iv(e: EncState) -> (int, int, nat) {
    (enc_pend(e) * 0x8000_0000 + e.val, e.rng as int, (4 + enc_digits(e)) as nat)
}

/// The encoder's step for one call.
pub open spec fn enc_op(e: EncState, op: CodedOp) -> EncState {
    match op {
        CodedOp::Symbol(fl, fh, ft) => enc_encode_spec(e, fl, fh, ft),
        CodedOp::Bit(v, logp) => enc_bit_logp_spec(e, v, logp),
        CodedOp::Icdf(sym, icdf, ftb) => enc_icdf_spec(e, sym as int, icdf, ftb),
        CodedOp::Raw(v, bits) => crate::range_coder::enc_bits_spec(e, v, bits),
    }
}

/// The shifted-out bytes are a natural number.
proof fn lemma_pend_nonneg(e: EncState)
    ensures
        enc_pend(e) >= 0,
        pend_tail(e) >= 0,
{
    lemma_p256_pos(e.ext as nat);
    lemma_p256_pos((e.ext + rem_digits(e)) as nat);
    let rm: int = if e.rem >= 0 {
        e.rem as int
    } else {
        0
    };
    assert(rm * p256(e.ext as nat) >= 0) by (nonlinear_arith)
        requires
            rm >= 0,
    ;
    assert(code_digits(e.buf, e.offs as nat) * p256((e.ext + rem_digits(e)) as nat) >= 0) by (nonlinear_arith);
}

/// Renormalising a range of at least one shifts at most three bytes.
proof fn lemma_norm_steps_le3(r: nat)
    requires
        1 <= r,
    ensures
        norm_steps(r) <= 3,
{
    if r <= 0x80_0000 {
        let r1 = r * 256;
        assert(norm_steps(r) == 1 + norm_steps(r1));
        if r1 <= 0x80_0000 {
            let r2 = r1 * 256;
            assert(norm_steps(r1) == 1 + norm_steps(r2));
            if r2 <= 0x80_0000 {
                let r3 = r2 * 256;
                assert(norm_steps(r2) == 1 + norm_steps(r3));
                assert(r3 > 0x80_0000);
                assert(norm_steps(r3) == 0);
            } else {
                assert(norm_steps(r2) == 0);
            }
        } else {
            assert(norm_steps(r1) == 0);
        }
    }
}

/// One call on an encoder that follows its interval: the encoder follows the
/// narrowed, renormalised interval, unless it runs out of buffer.
proof fn lemma_enc_op(e: EncState, op: CodedOp)
    requires
        !e.error,
        enc_inv(e),
        range_op_ok(op),
        !(op is Raw),
        e.ext + 3 < 0xffff_fff0,
    ensures
        !enc_op(e, op).error ==> {
            &&& enc_inv(enc_op(e, op))
            &&& enc_iv(enc_op(e, op)) == iv_step(enc_iv(e), op)
            &&& enc_op(e, op).ext <= e.ext + 3
            &&& enc_op(e, op).end_offs == e.end_offs && enc_op(e, op).storage == e.storage
            &&& enc_op(e, op).end_window == e.end_window && enc_op(e, op).nend_bits == e.nend_bits
        },
{
    let lo = enc_pend(e) * 0x8000_0000 + e.val;
    let rng = e.rng as int;
    lemma_pend_nonneg(e);
    lemma_narrow_inside(lo, rng, op);
    let (lo2, r2) = iv_narrow(lo, rng, op);
    let en = match op {
        CodedOp::Symbol(fl, fh, ft) => enc_narrow(e, fl, fh, ft),
        CodedOp::Bit(v, logp) => {
            let small = e.rng as nat / pow2(logp);
            let big = e.rng - small;
            if v {
                EncState { val: (e.val + big) as u32, rng: small as u32, ..e }
            } else {
                EncState { rng: big as u32, ..e }
            }
        },
        CodedOp::Icdf(sym, icdf, ftb) => {
            let r = e.rng as nat / pow2(ftb);
            if sym > 0 {
                EncState {
                    val: (e.val + e.rng - r * icdf[sym - 1]) as u32,
                    rng: (r * (icdf[sym - 1] - icdf[sym as int])) as u32,
                    ..e
                }
            } else {
                EncState { rng: (e.rng - r * icdf[sym as int]) as u32, ..e }
            }
        },
        CodedOp::Raw(_, _) => e,
    };
    assert(enc_op(e, op) == enc_normalize(en));
    assert(en.val == e.val + (lo2 - lo));
    assert(en.rng == r2);
    assert(enc_pend(en) == enc_pend(e));
    assert(enc_digits(en) == enc_digits(e));
    lemma_norm_steps_le3(r2 as nat);
    lemma_enc_normalize(en);
    let k = norm_steps(r2 as nat);
    lemma_norm_range(r2 as nat);
}

/// A latched error stays latched through a call.
proof fn lemma_enc_op_sticky(e: EncState, op: CodedOp)
    requires
        e.error,
        range_op_ok(op),
    ensures
        enc_op(e, op).error,
{
    match op {
        CodedOp::Symbol(fl, fh, ft) => {
            lemma_normalize_sticky(enc_narrow(e, fl, fh, ft));
        },
        CodedOp::Bit(v, logp) => {
            let small = e.rng as nat / pow2(logp);
            let big = e.rng - small;
            lemma_normalize_sticky(
                if v {
                    EncState { val: (e.val + big) as u32, rng: small as u32, ..e }
                } else {
                    EncState { rng: big as u32, ..e }
                },
            );
        },
        CodedOp::Icdf(sym, icdf, ftb) => {
            let r = e.rng as nat / pow2(ftb);
            lemma_normalize_sticky(
                if sym > 0 {
                    EncState {
                        val: (e.val + e.rng - r * icdf[sym - 1]) as u32,
                        rng: (r * (icdf[sym - 1] - icdf[sym as int])) as u32,
                        ..e
                    }
                } else {
                    EncState { rng: (e.rng - r * icdf[sym as int]) as u32, ..e }
                },
            );
        },
        CodedOp::Raw(v, bits) => {
            if e.nend_bits + bits > 32 {
                let s0 = crate::range_coder::enc_put_byte_at_end(e, e.end_window % 256);
                lemma_flush_sticky(s0, e.end_window / 256, e.nend_bits - 8);
            }
        },
    }
}

/// A raw field leaves the front of the encoder, and so the interval it
/// stands for, alone, and packs the field at the back.
proof fn lemma_enc_raw_op(e: EncState, fields: Seq<(u32, u32)>, v: u32, bits: u32)
    requires
        !e.error,
        enc_inv(e),
        back_inv(e, fields),
        1 <= bits <= 25,
        (v as nat) < pow2(bits as nat),
    ensures
        ({
            let r = enc_op(e, CodedOp::Raw(v, bits));
            !r.error ==> {
                &&& enc_inv(r)
                &&& enc_iv(r) == enc_iv(e)
                &&& r.ext == e.ext
                &&& r.storage == e.storage
                &&& back_inv(r, fields.push((v, bits)))
            }
        }),
{
    let r = enc_op(e, CodedOp::Raw(v, bits));
    lemma_enc_bits_back(e, fields, v, bits);
    if !r.error {
        assert forall|i: int| 0 <= i < e.offs implies code_byte(r.buf, i) == code_byte(e.buf, i) by {
            assert(r.buf[i] == e.buf[i]);
        }
        lemma_digits_prefix(r.buf, e.buf, e.offs as nat);
    }
}

/// The range coder's encoder side: a fresh encoder of `size` bytes that makes
/// the calls of `ops` without running out of buffer stands for the interval
/// the calls narrow `[0, 2^31)` to: its low end below all the bytes it has
/// shifted out, and its range.
pub proof fn lemma_encoder_follows(size: nat, ops: Seq<CodedOp>)
    requires
        size < 0x1_0000_0000,
        range_ops_ok(ops),
        ops.len() <= 0x1000_0000,
    ensures
        ({
            let e = enc_ops_all(enc_new_spec(size), ops);
            !e.error ==> {
                &&& enc_inv(e)
                &&& enc_iv(e) == iv_ops(ops)
                &&& e.ext <= 3 * ops.len()
                &&& e.storage == size
                &&& back_inv(e, raw_fields(ops))
            }
        }),
    decreases ops.len(),
{
    let e0 = enc_new_spec(size);
    if ops.len() == 0 {
        assert(p256(0) == 1);
        assert(enc_pend(e0) == 0);
        assert(enc_digits(e0) == 0);
        assert(enc_iv(e0) == (0int, 0x8000_0000int, 4nat));
        assert(raw_fields(ops) =~= Seq::<(u32, u32)>::empty());
        assert(raw_width(raw_fields(ops)) == 0);
        assert(raw_value(raw_fields(ops)) == 0);
        assert(tail_value(e0.buf, 0) == 0);
        assert(pow2(0) == 1) by {
            lemma2_to64();
        }
    } else {
        let rest = ops.drop_last();
        let op = ops.last();
        assert(range_op_ok(op)) by {
            assert(op == ops[ops.len() - 1]);
        }
        assert(range_ops_ok(rest)) by {
            assert forall|i: int| 0 <= i < rest.len() implies range_op_ok(#[trigger] rest[i]) by {
                assert(rest[i] == ops[i]);
            }
        }
        lemma_encoder_follows(size, rest);
        let e = enc_ops_all(e0, rest);
        assert(enc_ops_all(e0, ops) == enc_op(e, op));
        if e.error {
            lemma_enc_op_sticky(e, op);
        } else {
            match op {
                CodedOp::Raw(v, bits) => {
                    assert(raw_fields(ops) == raw_fields(rest).push((v, bits)));
                    lemma_enc_raw_op(e, raw_fields(rest), v, bits);
                    let k = norm_steps(e.rng as nat);
                    assert(k == 0);
                    assert(p256(0) == 1);
                    let iv = enc_iv(e);
                    assert(iv_narrow(iv.0, iv.1, op) == (iv.0, iv.1));
                    assert(iv_step(iv, op) == iv) by {
                        assert(iv.0 * p256(0) == iv.0) by (nonlinear_arith)
                            requires
                                p256(0) == 1,
                        ;
                        assert(iv.1 * p256(0) == iv.1) by (nonlinear_arith)
                            requires
                                p256(0) == 1,
                        ;
                    }
                },
                _ => {
                    assert(raw_fields(ops) == raw_fields(rest));
                    lemma_enc_op(e, op);
                    let en = match op {
                        CodedOp::Symbol(fl, fh, ft) => enc_narrow(e, fl, fh, ft),
                        CodedOp::Bit(v, logp) => {
                            let small = e.rng as nat / pow2(logp);
                            let big = e.rng - small;
                            if v {
                                EncState { val: (e.val + big) as u32, rng: small as u32, ..e }
                            } else {
                                EncState { rng: big as u32, ..e }
                            }
                        },
                        CodedOp::Icdf(sym, icdf, ftb) => {
                            let r = e.rng as nat / pow2(ftb);
                            if sym > 0 {
                                EncState {
                                    val: (e.val + e.rng - r * icdf[sym - 1]) as u32,
                                    rng: (r * (icdf[sym - 1] - icdf[sym as int])) as u32,
                                    ..e
                                }
                            } else {
                                EncState { rng: (e.rng - r * icdf[sym as int]) as u32, ..e }
                            }
                        },
                        CodedOp::Raw(_, _) => e,
                    };
                    assert(enc_op(e, op) == enc_normalize(en));
                    assert(back_same(e, en));
                    lemma_normalize_back(en);
                    lemma_back_same_trans(e, en, enc_normalize(en));
                    lemma_back_inv_keep(e, enc_op(e, op), raw_fields(rest));
                },
            }
        }
    }
}

/// Masking off the low bits of `x` below `0x7fff_ffff >> l`.
proof fn lemma_mask_split(x: u32, l: u32)
    by (bit_vector)
    requires
        l < 31,
    ensures
        (x & !(0x7fff_ffffu32 >> l)) == x - (x & (0x7fff_ffffu32 >> l)),
        (x & (0x7fff_ffffu32 >> l)) <= (0x7fff_ffffu32 >> l),
        ((x & !(0x7fff_ffffu32 >> l)) | (0x7fff_ffffu32 >> l)) == (x & !(0x7fff_ffffu32 >> l)) + (
        0x7fff_ffffu32 >> l),
        (0x7fff_ffffu32 >> l) >> 1u32 == 0x7fff_ffffu32 >> (l + 1),
{
}

/// `0x7fff_ffff >> l` is `2^(31 - l) - 1`, and masking with it is taking the
/// remainder by `2^(31 - l)`.
proof fn lemma_low_mask(x: u32, l: u32)
    requires
        l < 31,
    ensures
        (0x7fff_ffffu32 >> l) as int == pow2((31 - l) as nat) - 1,
        (x & (0x7fff_ffffu32 >> l)) as int == x as int % (pow2((31 - l) as nat) as int),
{
    lemma_u32_shr_is_div(0x7fff_ffffu32, l);
    lemma2_to64();
    lemma_pow2_adds((31 - l) as nat, l as nat);
    lemma_pow2_pos(l as nat);
    lemma_pow2_pos((31 - l) as nat);
    let a = pow2((31 - l) as nat) as int;
    let b = pow2(l as nat) as int;
    assert(0x7fff_ffff == b * (a - 1) + (b - 1)) by (nonlinear_arith)
        requires
            a * b == 0x8000_0000,
    ;
    lemma_fundamental_div_mod_converse(0x7fff_ffff, b, a - 1, b - 1);
    assert(low_bits_mask((31 - l) as nat) == a - 1);
    lemma_u32_low_bits_mask_is_mod(x, (31 - l) as nat);
}

/// The codeword `done` picks: the low end rounded up to as few significant
/// bits `l` as keep it, with every continuation of those bits, inside the
/// final interval.
pub open spec fn done_end(val: u32, rng: u32) -> (int, u32) {
    let l0: int = 32 - ilog(rng as nat);
    let msk0: u32 = 0x7fff_ffffu32 >> (l0 as u32);
    let end0: u32 = (((val + msk0) % 0x1_0000_0000) as u32) & !msk0;
    let top: u32 = ((val + rng) % 0x1_0000_0000) as u32;
    if (end0 | msk0) >= top {
        let msk1 = msk0 >> 1u32;
        (l0 + 1, (((val + msk1) % 0x1_0000_0000) as u32) & !msk1)
    } else {
        (l0, end0)
    }
}

/// The codeword lies in `[val, val + rng)` and its bits below `l` are zero.
proof fn lemma_done_end(val: u32, rng: u32)
    requires
        0x80_0000 < rng <= 0x8000_0000,
        val + rng <= 0x1_0000_0000,
    ensures
        ({
            let (l1, end1) = done_end(val, rng);
            &&& 0 <= l1 <= 9
            &&& val <= end1 < val + rng
            &&& end1 as int % (pow2((31 - l1) as nat) as int) == 0
            &&& l1 == 0 ==> end1 < 0x8000_0000
            &&& end1 + pow2((31 - l1) as nat) <= val + rng
        }),
{
    lemma2_to64();
    lemma_ilog_bounds(rng as nat);
    let il = ilog(rng as nat);
    if il < 24 {
        lemma_pow2_strictly_increases(il, 24);
        assert(false);
    }
    if il > 32 {
        lemma_pow2_strictly_increases(31, (il - 1) as nat);
        assert(false);
    }
    let l0: int = 32 - il;
    assert(0 <= l0 <= 8);
    let msk0: u32 = 0x7fff_ffffu32 >> (l0 as u32);
    let t0 = (31 - l0) as nat;
    assert(t0 == (il - 1) as nat);
    lemma_low_mask(0, l0 as u32);
    let p0 = pow2(t0) as int;
    assert(msk0 == p0 - 1);
    assert(msk0 < rng);
    let x0: u32 = ((val + msk0) % 0x1_0000_0000) as u32;
    assert(x0 == val + msk0);
    lemma_mask_split(x0, l0 as u32);
    lemma_low_mask(x0, l0 as u32);
    let end0: u32 = x0 & !msk0;
    lemma_fundamental_div_mod(x0 as int, p0);
    assert(end0 == x0 - x0 as int % p0);
    assert(end0 >= val);
    assert(end0 as int % p0 == 0) by {
        lemma_fundamental_div_mod_converse(end0 as int, p0, x0 as int / p0, 0);
    }
    let top: u32 = ((val + rng) % 0x1_0000_0000) as u32;
    if (end0 | msk0) >= top {
        let msk1 = msk0 >> 1u32;
        assert(msk1 == 0x7fff_ffffu32 >> ((l0 + 1) as u32));
        lemma_low_mask(0, (l0 + 1) as u32);
        let p1 = pow2((31 - (l0 + 1)) as nat) as int;
        assert(msk1 == p1 - 1);
        lemma_pow2_adds((31 - (l0 + 1)) as nat, 1);
        assert(p0 == 2 * p1);
        let x1: u32 = ((val + msk1) % 0x1_0000_0000) as u32;
        assert(x1 == val + msk1);
        lemma_mask_split(x1, (l0 + 1) as u32);
        lemma_low_mask(x1, (l0 + 1) as u32);
        let end1: u32 = x1 & !msk1;
        lemma_fundamental_div_mod(x1 as int, p1);
        assert(end1 == x1 - x1 as int % p1);
        assert(end1 as int % p1 == 0) by {
            lemma_fundamental_div_mod_converse(end1 as int, p1, x1 as int / p1, 0);
        }
        assert(done_end(val, rng) == (l0 + 1, end1));
        assert(p0 <= rng);
        assert(end1 + p1 <= val + rng);
    } else {
        assert(end0 + msk0 < top);
        assert(top <= val + rng);
        assert(end0 + p0 <= val + rng);
        assert(done_end(val, rng) == (l0, end0));
        if l0 == 0 {
            assert(end0 < 0x8000_0000);
        }
    }
}

/// The encoder state `done` ends in before it hands the buffer out: the
/// codeword flushed through the carry logic, the last symbol pushed out, the
/// raw bits moved to the back; its error flag also counts a last partial raw
/// byte that finds no byte of its own between the two ends.
pub open spec fn enc_done_state(s: EncState) -> EncState {
    let (l1, end1) = done_end(s.val, s.rng);
    let (s1, lf) = enc_done_carry(s, end1, l1);
    let s2 = if s1.rem >= 0 || s1.ext > 0 {
        enc_carry_out(s1, 0)
    } else {
        s1
    };
    let (s3, window, used) = enc_flush_end(s2, s2.end_window, s2.nend_bits as int);
    EncState { error: s3.error || (used > 0 && s3.offs + s3.end_offs >= s3.storage), ..s3 }
}

/// A latched error stays latched while raw bytes move to the back.
proof fn lemma_flush_sticky(s: EncState, w: u32, used: int)
    requires
        s.error,
    ensures
        enc_flush_end(s, w, used).0.error,
    decreases (if used > 0 {
        used
    } else {
        0
    }),
{
    if used >= 8 {
        lemma_flush_sticky(crate::range_coder::enc_put_byte_at_end(s, w % 256), w / 256, used - 8);
    }
}

/// Byte-for-byte equal prefixes spell the same number.
proof fn lemma_digits_prefix(a: Seq<u8>, b: Seq<u8>, n: nat)
    requires
        forall|i: int| 0 <= i < n ==> code_byte(a, i) == code_byte(b, i),
    ensures
        code_digits(a, n) == code_digits(b, n),
    decreases n,
{
    if n > 0 {
        lemma_digits_prefix(a, b, (n - 1) as nat);
        assert(code_byte(a, n - 1) == code_byte(b, n - 1));
    }
}

/// Zero bytes past `n` only scale the number.
proof fn lemma_digits_zero_tail(a: Seq<u8>, n: nat, z: nat)
    requires
        forall|i: int| n <= i ==> code_byte(a, i) == 0,
    ensures
        code_digits(a, n + z) == code_digits(a, n) * p256(z),
    decreases z,
{
    let d = code_digits(a, n);
    if z > 0 {
        let z1 = (z - 1) as nat;
        lemma_digits_zero_tail(a, n, z1);
        let m = n + z1;
        assert(code_byte(a, m as int) == 0);
        assert(n + z == m + 1);
        assert(code_digits(a, m + 1) == code_digits(a, m) * 256 + code_byte(a, m as int));
        assert(code_digits(a, m) == d * p256(z1));
        assert(p256(z) == 256 * p256(z1));
        assert(d * p256(z1) * 256 == d * p256(z)) by (nonlinear_arith)
            requires
                p256(z) == 256 * p256(z1),
        ;
    } else {
        assert(p256(0) == 1);
        assert(d * p256(0) == d) by (nonlinear_arith)
            requires
                p256(0) == 1,
        ;
        assert(n + z == n);
    }
}

/// A remainder by `2^a` is zero when the remainder by `2^b` is, `a <= b`.
proof fn lemma_pow2_mod_weaken(x: int, a: nat, b: nat)
    requires
        a <= b,
        x % (pow2(b) as int) == 0,
    ensures
        x % (pow2(a) as int) == 0,
{
    lemma_pow2_adds(a, (b - a) as nat);
    lemma_pow2_pos(a);
    lemma_pow2_pos((b - a) as nat);
    let pa = pow2(a) as int;
    let pb = pow2((b - a) as nat) as int;
    assert(pow2(b) == pa * pb);
    lemma_mod_mod(x, pa, pb);
    assert(x % (pa * pb) == 0);
    assert(0int % pa == 0);
}

/// The codeword `done` flushes: the bytes it shifts out join the shifted-out
/// bytes exactly, with no bits left over.
proof fn lemma_done_carry_code(s: EncState)
    requires
        !s.error,
        enc_inv(s),
        s.ext + 4 < 0xffff_fff0,
    ensures
        ({
            let (l1, end1) = done_end(s.val, s.rng);
            let (s1, lf) = enc_done_carry(s, end1, l1);
            let jj: nat = if l1 <= 0 {
                0
            } else if l1 <= 8 {
                1
            } else {
                2
            };
            &&& s.error ==> s1.error
            &&& !s1.error ==> {
                &&& enc_front_ok(s1)
                &&& enc_pend(s1) * 0x8000_0000 == (enc_pend(s) * 0x8000_0000 + end1) * p256(jj)
                &&& enc_digits(s1) == enc_digits(s) + jj
                &&& carry_room(s1, 0, 1)
                &&& s1.ext <= s.ext + 2
                &&& s1.end_offs == s.end_offs && s1.storage == s.storage
                &&& s1.end_window == s.end_window && s1.nend_bits == s.nend_bits
            }
            &&& s.val <= end1 < s.val + s.rng
        }),
{
    lemma2_to64();
    lemma_done_end(s.val, s.rng);
    let (l1, end1) = done_end(s.val, s.rng);
    let pend = enc_pend(s);
    lemma_pend_nonneg(s);
    if l1 <= 0 {
        assert(l1 == 0);
        assert(pow2(31) == 0x8000_0000);
        lemma_fundamental_div_mod(end1 as int, 0x8000_0000);
        assert(end1 == 0);
        assert(enc_done_carry(s, end1, l1) == (s, l1));
        assert(p256(0) == 1);
        assert(pend_tail(s) * 0x8000_0000 + 0 + 1 <= pend_tail(s) * 0x8000_0000 + s.val + s.rng);
    } else {
        lemma_pow2_mod_weaken(end1 as int, 22, (31 - l1) as nat);
        let v = end1 as int;
        assert(carry_room(s, v, 1));
        lemma_carry_step(s, v, 1);
        let sa = enc_carry_out(s, v / 0x80_0000);
        let v2 = (v % 0x80_0000) * 256;
        lemma_fundamental_div_mod(v, 0x80_0000);
        assert(enc_done_carry(s, end1, l1) == enc_done_carry(sa, v2 as u32, l1 - 8));
        if l1 <= 8 {
            lemma_pow2_mod_weaken(end1 as int, 23, (31 - l1) as nat);
            assert(v % 0x80_0000 == 0);
            assert(enc_done_carry(sa, v2 as u32, l1 - 8) == (sa, l1 - 8));
            assert(p256(1) == 256) by {
                assert(p256(0) == 1);
            }
            if !sa.error {
                assert(enc_pend(sa) * 0x8000_0000 == (pend * 0x8000_0000 + v) * 256) by (nonlinear_arith)
                    requires
                        enc_pend(sa) == pend * 256 + v / 0x80_0000,
                        v == 0x80_0000 * (v / 0x80_0000),
                ;
                assert(carry_room(sa, 0, 1));
            }
        } else {
            assert(l1 == 9);
            assert(pow2(22) == 0x40_0000);
            let lowv = v % 0x80_0000;
            lemma_fundamental_div_mod(v, 0x40_0000);
            assert(lowv == 0 || lowv == 0x40_0000) by {
                assert(v % 0x40_0000 == 0);
                lemma_mod_mod(v, 0x40_0000, 2);
                assert(lowv % 0x40_0000 == 0);
                lemma_fundamental_div_mod(lowv, 0x40_0000);
            }
            if sa.error {
                lemma_carry_sticky(sa, v2 / 0x80_0000);
                assert(enc_done_carry(sa, v2 as u32, 1) == enc_done_carry(
                    enc_carry_out(sa, v2 / 0x80_0000),
                    ((v2 % 0x80_0000) * 256) as u32,
                    -7,
                ));
            } else {
                assert(v2 == 0 || v2 == 0x4000_0000);
                lemma_carry_step(sa, v2, 256);
                let sb = enc_carry_out(sa, v2 / 0x80_0000);
                assert(v2 % 0x80_0000 == 0);
                assert(enc_done_carry(sa, v2 as u32, 1) == enc_done_carry(sb, 0, -7));
                assert(enc_done_carry(sb, 0, -7) == (sb, -7));
                assert(p256(2) == 65536) by {
                    assert(p256(0) == 1);
                    assert(p256(1) == 256);
                }
                if !sb.error {
                    assert(enc_pend(sb) * 0x8000_0000 == (pend * 0x8000_0000 + v) * 65536) by (nonlinear_arith)
                        requires
                            enc_pend(sb) == enc_pend(sa) * 256 + v2 / 0x80_0000,
                            enc_pend(sa) == pend * 256 + v / 0x80_0000,
                            v == 0x80_0000 * (v / 0x80_0000) + lowv,
                            v2 == lowv * 256,
                            lowv == 0 || lowv == 0x40_0000,
                            v2 == 0 || v2 == 0x4000_0000,
                            v2 == 0 ==> v2 / 0x80_0000 == 0,
                            v2 == 0x4000_0000 ==> v2 / 0x80_0000 == 128,
                    ;
                    assert(carry_room(sb, 0, 1));
                }
            }
        }
    }
}

/// What `done` hands out spells, at the precision of the encoder's shifted-
/// out bytes, a code inside the encoder's final interval (for a stream with
/// no raw bits, when `done` does not run out of buffer).
proof fn lemma_done_within(s: EncState, fields: Seq<(u32, u32)>)
    requires
        !s.error,
        enc_inv(s),
        s.ext + 4 < 0xffff_fff0,
        back_inv(s, fields),
        !enc_done_state(s).error,
    ensures
        enc_done_spec(s).len() == s.storage,
        within(enc_done_spec(s), (4 + enc_digits(s)) as nat, enc_pend(s) * 0x8000_0000 + s.val, s.rng as int),
{
    lemma_done_carry_code(s);
    let (l1, end1) = done_end(s.val, s.rng);
    let (s1, lf) = enc_done_carry(s, end1, l1);
    let jj: nat = if l1 <= 0 {
        0
    } else if l1 <= 8 {
        1
    } else {
        2
    };
    let s2 = if s1.rem >= 0 || s1.ext > 0 {
        enc_carry_out(s1, 0)
    } else {
        s1
    };
    let fl3 = enc_flush_end(s2, s2.end_window, s2.nend_bits as int);
    if s1.error {
        if s1.rem >= 0 || s1.ext > 0 {
            lemma_carry_sticky(s1, 0);
        }
        lemma_flush_sticky(s2, s2.end_window, s2.nend_bits as int);
        assert(false);
    }
    if s2.error {
        lemma_flush_sticky(s2, s2.end_window, s2.nend_bits as int);
        assert(false);
    }
    let pend1 = enc_pend(s1);
    let d2 = code_digits(s2.buf, s2.offs as nat);
    if s1.rem >= 0 || s1.ext > 0 {
        lemma_carry_step(s1, 0, 1);
        assert(0int / 0x80_0000 == 0);
        assert(s2 == enc_carry_out(s1, 0int / 0x80_0000));
        assert(s2.rem == 0 && s2.ext == 0);
        assert(p256(0) == 1);
        assert(p256(1) == 256);
        assert(pend_tail(s2) == 0);
        assert(enc_pend(s2) == d2 * 256);
        assert(enc_pend(s2) == pend1 * 256);
        assert(s2.offs == enc_digits(s1));
    } else {
        assert(p256(0) == 1);
        assert(rem_digits(s1) == 0);
        assert(pend_tail(s1) == 0);
        assert(d2 * p256(0) == d2) by (nonlinear_arith)
            requires
                p256(0) == 1,
        ;
        assert(d2 == pend1);
        assert(s2.offs == enc_digits(s1));
    }
    assert(d2 == pend1);
    lemma_done_end(s.val, s.rng);
    assert(ends_ok(s1));
    if s1.rem >= 0 || s1.ext > 0 {
        lemma_carry_out_back(s1, 0);
    }
    assert(ends_ok(s2));
    lemma_flush_back(s2, s2.end_window, s2.nend_bits as int);
    let s3 = fl3.0;
    let used = fl3.2;
    assert(!s3.error);
    let out = enc_done_spec(s);
    let o2 = s2.offs as nat;
    if used > 0 {
        assert(s3.offs + s3.end_offs < s3.storage);
    }
    assert(out.len() == s.storage);
    assert forall|i: int| 0 <= i < o2 implies code_byte(out, i) == code_byte(s2.buf, i) by {
        assert(s3.buf[i] == s2.buf[i]);
    }
    lemma_digits_prefix(out, s2.buf, o2);
    let z = (4 - jj) as nat;
    lemma_digits_extend(out, o2, z);
    assert(o2 + z == (4 + enc_digits(s)) as nat);
    lemma_p256_adds(jj, z);
    assert(jj + z == 4);
    assert(p256(4) == 0x1_0000_0000 && p256(3) == 0x100_0000 && p256(2) == 0x1_0000) by {
        reveal_with_fuel(p256, 5);
    }
    let lo = enc_pend(s) * 0x8000_0000 + end1;
    let c = code_digits(out, o2 + z);
    assert(d2 * 0x8000_0000 == lo * p256(jj));
    assert(d2 * p256(z) == 2 * lo) by (nonlinear_arith)
        requires
            d2 * 0x8000_0000 == lo * p256(jj),
            p256(jj) * p256(z) == 0x1_0000_0000,
    ;
    assert(c >= 2 * lo && c < 2 * lo + p256(z)) by (nonlinear_arith)
        requires
            c >= d2 * p256(z),
            c < (d2 + 1) * p256(z),
            d2 * p256(z) == 2 * lo,
    ;
    let big = pow2((31 - l1) as nat);
    assert(p256(z) <= 2 * big) by {
        lemma2_to64();
        if l1 == 0 {
        } else if l1 <= 8 {
            if 31 - l1 > 23 {
                lemma_pow2_strictly_increases(23, (31 - l1) as nat);
            }
        } else {
            assert(l1 == 9);
        }
    }
    assert(code_at(out, o2 + z) == c / 2);
}

/// A latched error stays latched through the codeword flush.
proof fn lemma_done_carry_sticky(s: EncState, end: u32, l: int)
    requires
        s.error,
    ensures
        enc_done_carry(s, end, l).0.error,
    decreases (if l > 0 {
        l
    } else {
        0
    }),
{
    if l > 0 {
        lemma_carry_sticky(s, (end / 0x80_0000) as int);
        lemma_done_carry_sticky(
            enc_carry_out(s, (end / 0x80_0000) as int),
            ((end % 0x80_0000) * 256) as u32,
            l - 8,
        );
    }
}

/// A latched error stays latched through `done`.
proof fn lemma_done_sticky(s: EncState)
    requires
        s.error,
    ensures
        enc_done_state(s).error,
{
    let (l1, end1) = done_end(s.val, s.rng);
    lemma_done_carry_sticky(s, end1, l1);
    let (s1, lf) = enc_done_carry(s, end1, l1);
    if s1.rem >= 0 || s1.ext > 0 {
        lemma_carry_sticky(s1, 0);
    }
    let s2 = if s1.rem >= 0 || s1.ext > 0 {
        enc_carry_out(s1, 0)
    } else {
        s1
    };
    lemma_flush_sticky(s2, s2.end_window, s2.nend_bits as int);
}

/// The range coder reads back what it wrote: a fresh encoder of `size` bytes
/// makes the calls of `ops` (range-coded symbols, bits and table symbols, and
/// raw fields, with the parameters the coder accepts) and `done` hands out
/// its buffer without running out of room (the last partial raw byte getting
/// a byte of its own); a decoder over that buffer making the same calls reads
/// back each of them (each symbol's frequency falls in its interval, each
/// bit, table symbol and raw field is the one written) and ends with the
/// encoder's range.
pub proof fn lemma_range_coder_round_trip(size: nat, ops: Seq<CodedOp>)
    requires
        size < 0x1_0000_0000,
        range_ops_ok(ops),
        ops.len() <= 0x1000_0000,
        !enc_done_state(enc_ops_all(enc_new_spec(size), ops)).error,
    ensures
        ({
            let e = enc_ops_all(enc_new_spec(size), ops);
            let buf = enc_done_spec(e);
            &&& buf.len() == size
            &&& dec_reads_back(dec_new_spec(buf), ops)
            &&& dec_ops_all(dec_new_spec(buf), ops).rng == e.rng
        }),
{
    let e = enc_ops_all(enc_new_spec(size), ops);
    if e.error {
        lemma_done_sticky(e);
    }
    lemma_encoder_follows(size, ops);
    lemma_done_within(e, raw_fields(ops));
    lemma_done_back(e, raw_fields(ops));
    let buf = enc_done_spec(e);
    lemma_decoder_reads_back(buf, ops);
}

/// Reading back a stream reads back each of its prefixes.
pub proof fn lemma_reads_back_prefix(s: DecState, ops: Seq<CodedOp>, n: int)
    requires
        dec_reads_back(s, ops),
        0 <= n <= ops.len(),
    ensures
        dec_reads_back(s, ops.take(n)),
    decreases ops.len() - n,
{
    if n < ops.len() {
        lemma_reads_back_prefix(s, ops, n + 1);
        assert(ops.take(n + 1).drop_last() =~= ops.take(n));
    } else {
        assert(ops.take(n) =~= ops);
    }
}

/// Reading back a stream reads back its call at `k`, from the state the
/// decoder reaches after the calls before it.
pub proof fn lemma_reads_back_at(s: DecState, ops: Seq<CodedOp>, k: int)
    requires
        dec_reads_back(s, ops),
        0 <= k < ops.len(),
    ensures
        op_read_back(dec_ops_all(s, ops.take(k)), ops[k]),
        dec_ops_all(s, ops.take(k + 1)) == dec_op(dec_ops_all(s, ops.take(k)), ops[k]),
{
    lemma_reads_back_prefix(s, ops, k + 1);
    assert(ops.take(k + 1).drop_last() =~= ops.take(k));
    assert(ops.take(k + 1).last() == ops[k]);
}

/// The encoder's state after the calls up to `k` is its step for call `k`
/// from the state before it.
pub proof fn lemma_enc_ops_at(s: EncState, ops: Seq<CodedOp>, k: int)
    requires
        0 <= k < ops.len(),
    ensures
        enc_ops_all(s, ops.take(k + 1)) == enc_op(enc_ops_all(s, ops.take(k)), ops[k]),
{
    assert(ops.take(k + 1).drop_last() =~= ops.take(k));
    assert(ops.take(k + 1).last() == ops[k]);
}

/// Calls in two stretches: the decoder's state after both is its state after
/// the second from where the first left it, and reading back both reads back
/// each.
pub proof fn lemma_reads_back_split(s: DecState, p: Seq<CodedOp>, q: Seq<CodedOp>)
    ensures
        dec_ops_all(s, p + q) == dec_ops_all(dec_ops_all(s, p), q),
        dec_reads_back(s, p + q) ==> dec_reads_back(s, p) && dec_reads_back(dec_ops_all(s, p), q),
    decreases q.len(),
{
    if q.len() == 0 {
        assert(p + q =~= p);
    } else {
        lemma_reads_back_split(s, p, q.drop_last());
        assert((p + q).drop_last() =~= p + q.drop_last());
        assert((p + q).last() == q.last());
    }
}

/// The encoder's state after two stretches of calls.
pub proof fn lemma_enc_ops_split(s: EncState, p: Seq<CodedOp>, q: Seq<CodedOp>)
    ensures
        enc_ops_all(s, p + q) == enc_ops_all(enc_ops_all(s, p), q),
    decreases q.len(),
{
    if q.len() == 0 {
        assert(p + q =~= p);
    } else {
        lemma_enc_ops_split(s, p, q.drop_last());
        assert((p + q).drop_last() =~= p + q.drop_last());
        assert((p + q).last() == q.last());
    }
}

/// One call in front of a stretch.
pub proof fn lemma_reads_back_cons(s: DecState, op: CodedOp, q: Seq<CodedOp>)
    ensures
        dec_ops_all(s, seq![op] + q) == dec_ops_all(dec_op(s, op), q),
        dec_reads_back(s, seq![op] + q) ==> op_read_back(s, op) && dec_reads_back(dec_op(s, op), q),
{
    lemma_reads_back_split(s, seq![op], q);
    assert(seq![op].drop_last() =~= Seq::<CodedOp>::empty());
    assert(seq![op].last() == op);
    assert(dec_ops_all(s, seq![op]) == dec_op(s, op)) by {
        reveal_with_fuel(dec_ops_all, 2);
        assert(dec_ops_all(s, seq![op].drop_last()) == s);
    }
    assert(dec_reads_back(s, seq![op]) == op_read_back(s, op)) by {
        reveal_with_fuel(dec_reads_back, 2);
        assert(dec_reads_back(s, seq![op].drop_last()));
        assert(dec_ops_all(s, seq![op].drop_last()) == s);
    }
}

/// One call in front of a stretch, for the encoder.
pub proof fn lemma_enc_ops_cons(s: EncState, op: CodedOp, q: Seq<CodedOp>)
    ensures
        enc_ops_all(s, seq![op] + q) == enc_ops_all(enc_op(s, op), q),
{
    lemma_enc_ops_split(s, seq![op], q);
    assert(seq![op].drop_last() =~= Seq::<CodedOp>::empty());
    assert(seq![op].last() == op);
    assert(enc_ops_all(s, seq![op]) == enc_op(s, op)) by {
        reveal_with_fuel(enc_ops_all, 2);
        assert(enc_ops_all(s, seq![op].drop_last()) == s);
    }
}

/// What the range coder carries from a fresh encoder to a decoder over its
/// finished buffer, at the point of any prefix of the stream: both sides in
/// step (range, bit count, buffer size), and the rest of the stream read back
/// from there.
/// Every call of a prefix is an accepted call.
proof fn lemma_ops_ok_prefix(ops: Seq<CodedOp>, n: int)
    requires
        range_ops_ok(ops),
        0 <= n <= ops.len(),
    ensures
        range_ops_ok(ops.take(n)),
        range_ops_ok(ops.skip(n)),
{
    assert forall|i: int| 0 <= i < ops.take(n).len() implies range_op_ok(#[trigger] ops.take(n)[i]) by {
        assert(ops.take(n)[i] == ops[i]);
    }
    assert forall|i: int| 0 <= i < ops.skip(n).len() implies range_op_ok(#[trigger] ops.skip(n)[i]) by {
        assert(ops.skip(n)[i] == ops[n + i]);
    }
}

/// Before any call of a stream `done` finishes in full, the encoder has not
/// run out of buffer and still has its size.
proof fn lemma_prefix_encoder(size: nat, ops: Seq<CodedOp>, n: int)
    requires
        size < 0x1_0000_0000,
        range_ops_ok(ops),
        ops.len() <= 0x1000_0000,
        !enc_done_state(enc_ops_all(enc_new_spec(size), ops)).error,
        0 <= n <= ops.len(),
    ensures
        !enc_ops_all(enc_new_spec(size), ops.take(n)).error,
        enc_ops_all(enc_new_spec(size), ops.take(n)).storage == size,
{
    lemma_ops_ok_prefix(ops, n);
    let e = enc_ops_all(enc_new_spec(size), ops.take(n));
    lemma_enc_ops_split(enc_new_spec(size), ops.take(n), ops.skip(n));
    assert(ops.take(n) + ops.skip(n) =~= ops);
    if e.error {
        lemma_enc_ops_sticky(e, ops.skip(n));
        lemma_done_sticky(enc_ops_all(e, ops.skip(n)));
    }
    lemma_encoder_follows(size, ops.take(n));
}

/// A decoder over the finished buffer holds the buffer's size at every point
/// of the stream.
proof fn lemma_prefix_decoder(size: nat, ops: Seq<CodedOp>, n: int)
    requires
        size < 0x1_0000_0000,
        range_ops_ok(ops),
        ops.len() <= 0x1000_0000,
        !enc_done_state(enc_ops_all(enc_new_spec(size), ops)).error,
        0 <= n <= ops.len(),
    ensures
        enc_done_spec(enc_ops_all(enc_new_spec(size), ops)).len() == size,
        dec_ops_all(dec_new_spec(enc_done_spec(enc_ops_all(enc_new_spec(size), ops))), ops.take(n)).storage
            == size,
{
    let buf = enc_done_spec(enc_ops_all(enc_new_spec(size), ops));
    lemma_ops_ok_prefix(ops, n);
    lemma_prefix_encoder(size, ops, ops.len() as int);
    assert(ops.take(ops.len() as int) =~= ops);
    lemma_encoder_follows(size, ops);
    lemma_done_within(enc_ops_all(enc_new_spec(size), ops), raw_fields(ops));
    lemma_done_back(enc_ops_all(enc_new_spec(size), ops), raw_fields(ops));
    lemma_iv_ops(buf, ops, n);
    lemma_raw_fields_take_mod(back_value(buf), ops, n);
    lemma_decoder_reads_back(buf, ops.take(n));
}

/// What the range coder carries from a fresh encoder to a decoder over its
/// finished buffer, at the point of any prefix of the stream: both sides in
/// step (range, bit count, buffer size), and the rest of the stream read back
/// from there.
pub proof fn lemma_round_trip_at(size: nat, before: Seq<CodedOp>, rest: Seq<CodedOp>)
    requires
        size < 0x1_0000_0000,
        range_ops_ok(before + rest),
        before.len() + rest.len() <= 0x1000_0000,
        !enc_done_state(enc_ops_all(enc_new_spec(size), before + rest)).error,
    ensures
        ({
            let buf = enc_done_spec(enc_ops_all(enc_new_spec(size), before + rest));
            let e = enc_ops_all(enc_new_spec(size), before);
            let d = dec_ops_all(dec_new_spec(buf), before);
            &&& e.rng == d.rng
            &&& e.nbits_total == d.nbits_total
            &&& e.storage == size
            &&& d.storage == size
            &&& dec_reads_back(d, rest)
            &&& enc_ops_all(enc_new_spec(size), before + rest) == enc_ops_all(e, rest)
            &&& dec_ops_all(dec_new_spec(buf), before + rest) == dec_ops_all(d, rest)
        }),
{
    let ops = before + rest;
    let n = before.len() as int;
    assert(ops.take(n) =~= before);
    let buf = enc_done_spec(enc_ops_all(enc_new_spec(size), ops));
    let e = enc_ops_all(enc_new_spec(size), before);
    let d = dec_ops_all(dec_new_spec(buf), before);
    assert(dec_reads_back(d, rest) && dec_ops_all(dec_new_spec(buf), ops) == dec_ops_all(d, rest)) by {
        lemma_range_coder_round_trip(size, ops);
        lemma_reads_back_split(dec_new_spec(buf), before, rest);
    }
    assert(enc_ops_all(enc_new_spec(size), ops) == enc_ops_all(e, rest)) by {
        lemma_enc_ops_split(enc_new_spec(size), before, rest);
    }
    assert(e.storage == size) by {
        lemma_prefix_encoder(size, ops, n);
    }
    assert(d.storage == size) by {
        lemma_prefix_decoder(size, ops, n);
    }
    assert(e.rng == d.rng && e.nbits_total == d.nbits_total) by {
        lemma_prefix_agree(size, ops, n);
    }
}

/// Encoder and decoder over the finished buffer hold the same range and bit
/// count at every point of the stream.
proof fn lemma_prefix_agree(size: nat, ops: Seq<CodedOp>, n: int)
    requires
        size < 0x1_0000_0000,
        range_ops_ok(ops),
        ops.len() <= 0x1000_0000,
        !enc_done_state(enc_ops_all(enc_new_spec(size), ops)).error,
        0 <= n <= ops.len(),
    ensures
        enc_ops_all(enc_new_spec(size), ops.take(n)).rng == dec_ops_all(
            dec_new_spec(enc_done_spec(enc_ops_all(enc_new_spec(size), ops))),
            ops.take(n),
        ).rng,
        enc_ops_all(enc_new_spec(size), ops.take(n)).nbits_total == dec_ops_all(
            dec_new_spec(enc_done_spec(enc_ops_all(enc_new_spec(size), ops))),
            ops.take(n),
        ).nbits_total,
{
    let buf = enc_done_spec(enc_ops_all(enc_new_spec(size), ops));
    lemma_range_coder_round_trip(size, ops);
    lemma_reads_back_prefix(dec_new_spec(buf), ops, n);
    assert(dec_new_spec(buf).rng == 0x8000_0000 && dec_new_spec(buf).nbits_total == 33) by {
        reveal_with_fuel(dec_normalize, 4);
    }
    assert(enc_new_spec(size).rng == 0x8000_0000 && enc_new_spec(size).nbits_total == 33);
    crate::range_coder::lemma_ops_agree(enc_new_spec(size), dec_new_spec(buf), ops.take(n));
}

/// A latched error stays latched through a stretch of calls.
proof fn lemma_enc_ops_sticky(e: EncState, ops: Seq<CodedOp>)
    requires
        e.error,
        range_ops_ok(ops),
    ensures
        enc_ops_all(e, ops).error,
    decreases ops.len(),
{
    if ops.len() > 0 {
        let rest = ops.drop_last();
        assert(range_ops_ok(rest)) by {
            assert forall|i: int| 0 <= i < rest.len() implies range_op_ok(#[trigger] rest[i]) by {
                assert(rest[i] == ops[i]);
            }
        }
        lemma_enc_ops_sticky(e, rest);
        assert(range_op_ok(ops.last())) by {
            assert(ops.last() == ops[ops.len() - 1]);
        }
        lemma_enc_op_sticky(enc_ops_all(e, rest), ops.last());
        assert(enc_ops_all(e, ops) == enc_op(enc_ops_all(e, rest), ops.last()));
    }
}

/// The call a uniform integer `val` below `ft <= 256` is coded as.
pub open spec fn uint_symbol(val: int, ft: int) -> CodedOp {
    CodedOp::Symbol(val, val + 1, ft)
}

/// The calls a uniform integer `val` below `ft` is coded as: below 257
/// values one symbol; above, the top eight significant bits of `ft - 1` as a
/// symbol and the bits below them as a raw field.
pub open spec fn uint_ops(val: u32, ft: u32) -> Seq<CodedOp> {
    let ftb = ilog((ft - 1) as nat);
    if ftb > 8 {
        let sh = (ftb - 8) as nat;
        let ftn = (ft - 1) as nat / pow2(sh) + 1;
        let fln = val as nat / pow2(sh);
        seq![
            CodedOp::Symbol(fln as int, (fln + 1) as int, ftn as int),
            CodedOp::Raw((val as nat % pow2(sh)) as u32, sh as u32),
        ]
    } else {
        seq![uint_symbol(val as int, ft as int)]
    }
}

/// The calls of a uniform integer are calls the coder accepts.
pub proof fn lemma_uint_ops_ok(val: u32, ft: u32)
    requires
        2 <= ft,
        val < ft,
    ensures
        range_ops_ok(uint_ops(val, ft)),
        1 <= uint_ops(val, ft).len() <= 2,
{
    let ftm = (ft - 1) as nat;
    lemma_ilog_bounds(ftm);
    lemma2_to64();
    let ftb = ilog(ftm);
    if ftb > 8 {
        let sh = (ftb - 8) as nat;
        if ftb > 32 {
            lemma_pow2_strictly_increases(32, (ftb - 1) as nat);
            assert(false);
        }
        lemma_pow2_pos(sh);
        lemma_pow2_adds(sh, 8);
        assert(pow2(ftb) == pow2(sh) * 256);
        let ftn = ftm / pow2(sh) + 1;
        let fln = val as nat / pow2(sh);
        lemma_div_is_ordered(val as int, ftm as int, pow2(sh) as int);
        assert(ftm / pow2(sh) < 256) by {
            lemma_multiply_divide_lt(ftm as int, pow2(sh) as int, 256);
        }
        lemma_mod_pos_bound(val as int, pow2(sh) as int);
        if sh < 32 {
            lemma_pow2_strictly_increases(sh, 32);
        }
        let ops = uint_ops(val, ft);
        assert forall|i: int| 0 <= i < ops.len() implies range_op_ok(#[trigger] ops[i]) by {}
    } else {
        if ftb < 8 {
            lemma_pow2_strictly_increases(ftb, 8);
        }
        let ops = uint_ops(val, ft);
        assert forall|i: int| 0 <= i < ops.len() implies range_op_ok(#[trigger] ops[i]) by {}
    }
}

/// A uniform integer comes back on its own: where a decoder reads back the
/// calls the integer is coded as, `dec_uint` gives the integer and steps past
/// those calls, and `enc_uint` made them.
pub proof fn lemma_uint_reads_back(e: EncState, d: DecState, val: u32, ft: u32)
    requires
        2 <= ft,
        val < ft,
        dec_reads_back(d, uint_ops(val, ft)),
    ensures
        dec_uint_spec(d, ft) == (dec_ops_all(d, uint_ops(val, ft)), val),
        enc_uint_spec(e, val, ft) == enc_ops_all(e, uint_ops(val, ft)),
{
    let ftm = (ft - 1) as nat;
    lemma_ilog_bounds(ftm);
    lemma2_to64();
    let ftb = ilog(ftm);
    let ops = uint_ops(val, ft);
    if ftb > 8 {
        let sh = (ftb - 8) as nat;
        let ftn = ftm / pow2(sh) + 1;
        let fln = val as nat / pow2(sh);
        let sym = CodedOp::Symbol(fln as int, (fln + 1) as int, ftn as int);
        let raw = CodedOp::Raw((val as nat % pow2(sh)) as u32, sh as u32);
        assert(ops =~= seq![sym] + seq![raw]);
        lemma_reads_back_cons(d, sym, seq![raw]);
        lemma_enc_ops_cons(e, sym, seq![raw]);
        let d1 = dec_op(d, sym);
        let e1 = enc_op(e, sym);
        assert(seq![raw] =~= seq![raw] + Seq::<CodedOp>::empty());
        lemma_reads_back_cons(d1, raw, Seq::<CodedOp>::empty());
        lemma_enc_ops_cons(e1, raw, Seq::<CodedOp>::empty());
        assert(dec_ops_all(dec_op(d1, raw), Seq::<CodedOp>::empty()) == dec_op(d1, raw));
        assert(enc_ops_all(enc_op(e1, raw), Seq::<CodedOp>::empty()) == enc_op(e1, raw));
        lemma_pow2_pos(sh);
        lemma_fundamental_div_mod(val as int, pow2(sh) as int);
        lemma_mod_pos_bound(val as int, pow2(sh) as int);
        if ftb > 32 {
            lemma_pow2_strictly_increases(32, (ftb - 1) as nat);
            assert(false);
        }
        if sh < 32 {
            lemma_pow2_strictly_increases(sh, 32);
        }
        let (s1, v) = dec_decode_spec(d, ftn as int);
        assert(v == fln);
        let low = dec_bits_spec(d1, sh as u32).1;
        assert(low == val as nat % pow2(sh));
        assert(v * pow2(sh) + low == val) by (nonlinear_arith)
            requires
                v == fln,
                fln == val as nat / pow2(sh),
                val == pow2(sh) * (val as nat / pow2(sh)) + val as nat % pow2(sh),
                low == val as nat % pow2(sh),
        ;
    } else {
        if ftb < 8 {
            lemma_pow2_strictly_increases(ftb, 8);
        }
        let sym = uint_symbol(val as int, ft as int);
        assert(ops =~= seq![sym] + Seq::<CodedOp>::empty());
        lemma_reads_back_cons(d, sym, Seq::<CodedOp>::empty());
        lemma_enc_ops_cons(e, sym, Seq::<CodedOp>::empty());
        assert(dec_ops_all(dec_op(d, sym), Seq::<CodedOp>::empty()) == dec_op(d, sym));
        assert(enc_ops_all(enc_op(e, sym), Seq::<CodedOp>::empty()) == enc_op(e, sym));
        lemma_small_uint(e, d, val, ft);
    }
}

/// Uniform integers come back through the range coder: in any stream a fresh
/// encoder writes (the calls of `before`, then the integer `val` below `ft`
/// as `enc_uint` codes it, then those of `after`) and `done` hands out in
/// full, a decoder over the bytes that mirrors `before` reads `val` back with
/// `dec_uint` and stays in step with the stream.
pub proof fn lemma_uint_stream_round_trip(size: nat, before: Seq<CodedOp>, after: Seq<CodedOp>, val: u32, ft: u32)
    requires
        size < 0x1_0000_0000,
        2 <= ft,
        val < ft,
        range_ops_ok(before + uint_ops(val, ft) + after),
        before.len() + uint_ops(val, ft).len() + after.len() <= 0x1000_0000,
        !enc_done_state(enc_ops_all(enc_new_spec(size), before + uint_ops(val, ft) + after)).error,
    ensures
        ({
            let ops = before + uint_ops(val, ft) + after;
            let buf = enc_done_spec(enc_ops_all(enc_new_spec(size), ops));
            let d = dec_ops_all(dec_new_spec(buf), before);
            &&& dec_uint_spec(d, ft) == (dec_ops_all(dec_new_spec(buf), before + uint_ops(val, ft)), val)
            &&& enc_uint_spec(enc_ops_all(enc_new_spec(size), before), val, ft) == enc_ops_all(
                enc_new_spec(size),
                before + uint_ops(val, ft),
            )
        }),
{
    let u = uint_ops(val, ft);
    let ops = before + u + after;
    assert(ops =~= before + (u + after));
    lemma_round_trip_at(size, before, u + after);
    let buf = enc_done_spec(enc_ops_all(enc_new_spec(size), ops));
    let d = dec_ops_all(dec_new_spec(buf), before);
    lemma_reads_back_split(d, u, after);
    lemma_reads_back_split(dec_new_spec(buf), before, u);
    lemma_enc_ops_split(enc_new_spec(size), before, u);
    lemma_uint_reads_back(enc_ops_all(enc_new_spec(size), before), d, val, ft);
}

} // verus!

verus! {

/// A uniform integer below `ft <= 256` is a single symbol on both sides: the
/// encoder codes it as that symbol, and a decoder that reads the symbol back
/// gets the integer from `dec_uint`.
pub proof fn lemma_small_uint(e: EncState, d: DecState, val: u32, ft: u32)
    requires
        2 <= ft <= 256,
        val < ft,
    ensures
        enc_uint_spec(e, val, ft) == enc_op(e, uint_symbol(val as int, ft as int)),
        op_read_back(d, uint_symbol(val as int, ft as int)) ==> dec_uint_spec(d, ft) == (
            dec_op(d, uint_symbol(val as int, ft as int)),
            val,
        ),
{
    lemma_ilog_bounds((ft - 1) as nat);
    lemma2_to64();
    if ilog((ft - 1) as nat) > 8 {
        lemma_pow2_strictly_increases(8, (ilog((ft - 1) as nat) - 1) as nat);
        assert(false);
    }
}

} // verus!

verus! {

/// Flushing the codeword writes only at the front.
proof fn lemma_done_carry_back(s: EncState, end: u32, l: int)
    requires
        ends_ok(s),
    ensures
        back_same(s, enc_done_carry(s, end, l).0),
        ends_ok(enc_done_carry(s, end, l).0),
    decreases (if l > 0 {
        l
    } else {
        0
    }),
{
    if l > 0 {
        let s1 = enc_carry_out(s, (end / 0x80_0000) as int);
        lemma_carry_out_back(s, (end / 0x80_0000) as int);
        let e2 = ((end % 0x80_0000) * 256) as u32;
        lemma_done_carry_back(s1, e2, l - 8);
        lemma_back_same_trans(s, s1, enc_done_carry(s1, e2, l - 8).0);
    }
}

/// The buffer `done` hands out holds the raw fields packed at its back: read
/// from the end as one number, its low bits are the fields.
proof fn lemma_done_back(s: EncState, fields: Seq<(u32, u32)>)
    requires
        !s.error,
        enc_inv(s),
        s.ext + 4 < 0xffff_fff0,
        back_inv(s, fields),
        !enc_done_state(s).error,
    ensures
        back_value(enc_done_spec(s)) % pow2(raw_width(fields)) == raw_value(fields),
{
    lemma_done_carry_code(s);
    let (l1, end1) = done_end(s.val, s.rng);
    let (s1, lf) = enc_done_carry(s, end1, l1);
    let s2 = if s1.rem >= 0 || s1.ext > 0 {
        enc_carry_out(s1, 0)
    } else {
        s1
    };
    let fl3 = enc_flush_end(s2, s2.end_window, s2.nend_bits as int);
    if s1.error {
        if s1.rem >= 0 || s1.ext > 0 {
            lemma_carry_sticky(s1, 0);
        }
        lemma_flush_sticky(s2, s2.end_window, s2.nend_bits as int);
        assert(false);
    }
    if s2.error {
        lemma_flush_sticky(s2, s2.end_window, s2.nend_bits as int);
        assert(false);
    }
    assert(ends_ok(s));
    lemma_done_carry_back(s, end1, l1);
    if s1.rem >= 0 || s1.ext > 0 {
        lemma_carry_out_back(s1, 0);
        lemma_back_same_trans(s, s1, s2);
    }
    assert(back_same(s, s2));
    lemma_back_inv_keep(s, s2, fields);
    lemma_flush_back(s2, s2.end_window, s2.nend_bits as int);
    let s3 = fl3.0;
    let w3 = fl3.1;
    let used = fl3.2;
    assert(!s3.error);
    let k3 = s3.end_offs as nat;
    let r = raw_value(fields);
    let wd = raw_width(fields);
    assert(tail_value(s3.buf, k3) + w3 * pow2(8 * k3) == r);
    assert(8 * k3 + used == wd);
    let out = enc_done_spec(s);
    let cleared = Seq::new(
        s3.storage as nat,
        |i: int|
            if s3.offs <= i < s3.storage - s3.end_offs {
                0u8
            } else {
                s3.buf[i]
            },
    );
    lemma_tail_bound(s3.buf, k3);
    lemma_pow2_pos(8 * k3);
    lemma_pow2_adds(8 * k3, used as nat);
    let p = pow2(8 * k3);
    assert(r < pow2(wd)) by (nonlinear_arith)
        requires
            r == tail_value(s3.buf, k3) + w3 * p,
            tail_value(s3.buf, k3) < p,
            w3 < pow2(used as nat),
            pow2(wd) == p * pow2(used as nat),
    ;
    lemma_small_mod(r, pow2(wd));
    if used > 0 {
        assert(s3.offs + s3.end_offs < s3.storage);
        let idx = s3.storage - k3 - 1;
        lemma2_to64();
        if used < 8 {
            lemma_pow2_strictly_increases(used as nat, 8);
        }
        assert(w3 < 256);
        lemma_done_constants(w3 as u8);
        assert(out == cleared.update(idx, cleared[idx] | (w3 as u8)));
        assert(cleared[idx] == 0u8);
        assert(out[idx] == w3);
        lemma_tail_ext(s3.buf, out, k3);
        assert(tail_value(out, k3 + 1) == tail_value(out, k3) + out[idx] * pow2(8 * k3));
        assert(tail_value(out, k3 + 1) == r);
        lemma_tail_mod(out, k3 + 1, out.len());
        lemma_pow2_adds(wd, (8 * (k3 + 1) - wd) as nat);
        lemma_pow2_pos(wd);
        lemma_pow2_pos((8 * (k3 + 1) - wd) as nat);
        assert(8 * (k3 + 1) == 8 * k3 + 8);
        let rr = (8 * (k3 + 1) - wd) as nat;
        assert(wd + rr == 8 * (k3 + 1));
        assert(pow2(8 * (k3 + 1)) == pow2(wd) * pow2(rr));
        let vv = back_value(out);
        assert(vv == tail_value(out, out.len()));
        assert(vv % pow2(8 * (k3 + 1)) == r);
        lemma_mod_mod(vv as int, pow2(wd) as int, pow2(rr) as int);
        assert((vv % (pow2(wd) * pow2(rr))) % pow2(wd) == vv % pow2(wd));
        assert(vv % (pow2(wd) * pow2(rr)) == r);
        assert(r % pow2(wd) == r);
        assert(vv % pow2(wd) == r);
    } else {
        assert(used == 0);
        assert(pow2(0) == 1) by {
            lemma2_to64();
        }
        assert(w3 == 0);
        assert(out == cleared);
        lemma_tail_ext(s3.buf, out, k3);
        assert(wd == 8 * k3);
        assert(w3 * p == 0) by (nonlinear_arith)
            requires
                w3 == 0,
        ;
        assert(tail_value(s3.buf, k3) == r);
        assert(tail_value(out, k3) == r);
        lemma_tail_mod(out, k3, out.len());
        assert(tail_value(out, out.len()) % pow2(8 * k3) == r);
        assert(back_value(out) == tail_value(out, out.len()));
        assert(back_value(out) % pow2(wd) == r);
    }
    assert(back_value(out) % pow2(wd) == r);
}

} // verus!

verus! {

/// A number whose low bits hold the raw fields of a stream holds those of
/// each of its prefixes.
proof fn lemma_raw_fields_take_mod(x: nat, ops: Seq<CodedOp>, n: int)
    requires
        range_ops_ok(ops),
        0 <= n <= ops.len(),
        x % pow2(raw_width(raw_fields(ops))) == raw_value(raw_fields(ops)),
    ensures
        x % pow2(raw_width(raw_fields(ops.take(n)))) == raw_value(raw_fields(ops.take(n))),
    decreases ops.len(),
{
    if n == ops.len() {
        assert(ops.take(n) =~= ops);
    } else {
        let rest = ops.drop_last();
        assert(range_ops_ok(rest)) by {
            assert forall|i: int| 0 <= i < rest.len() implies range_op_ok(#[trigger] rest[i]) by {
                assert(rest[i] == ops[i]);
            }
        }
        lemma_raw_fields_ok(rest);
        match ops.last() {
            CodedOp::Raw(v, bits) => {
                assert(raw_fields(ops) == raw_fields(rest).push((v, bits)));
                lemma_raw_prefix_mod(x, raw_fields(rest), v, bits);
            },
            _ => {
                assert(raw_fields(ops) == raw_fields(rest));
            },
        }
        assert(ops.take(n) =~= rest.take(n));
        lemma_raw_fields_take_mod(x, rest, n);
    }
}

} // verus!

verus! {

/// A stretch of calls inside a stream: in a stream a fresh encoder of `size`
/// bytes writes (the calls of `before`, then `mid`, then `after`) and `done`
/// hands out in full, a decoder over the bytes that mirrors `before` reports
/// the encoder's bit counts there, reads `mid` back, and both sides step past
/// `mid` together.
pub proof fn lemma_stretch_round_trip(size: nat, before: Seq<CodedOp>, mid: Seq<CodedOp>, after: Seq<CodedOp>)
    requires
        size < 0x1_0000_0000,
        range_ops_ok(before + mid + after),
        before.len() + mid.len() + after.len() <= 0x1000_0000,
        !enc_done_state(enc_ops_all(enc_new_spec(size), before + mid + after)).error,
    ensures
        ({
            let buf = enc_done_spec(enc_ops_all(enc_new_spec(size), before + mid + after));
            let e = enc_ops_all(enc_new_spec(size), before);
            let d = dec_ops_all(dec_new_spec(buf), before);
            &&& e.tell() == d.tell()
            &&& e.tell_frac() == d.tell_frac()
            &&& e.rng == d.rng
            &&& e.nbits_total == d.nbits_total
            &&& dec_reads_back(d, mid)
            &&& dec_ops_all(d, mid) == dec_ops_all(dec_new_spec(buf), before + mid)
            &&& enc_ops_all(e, mid) == enc_ops_all(enc_new_spec(size), before + mid)
        }),
{
    let ops = before + mid + after;
    assert(ops =~= before + (mid + after));
    lemma_round_trip_at(size, before, mid + after);
    let buf = enc_done_spec(enc_ops_all(enc_new_spec(size), ops));
    let d = dec_ops_all(dec_new_spec(buf), before);
    lemma_reads_back_split(d, mid, after);
    lemma_reads_back_split(dec_new_spec(buf), before, mid);
    lemma_enc_ops_split(enc_new_spec(size), before, mid);
}

} // verus!

verus! {

/// A stretch of one call is that call on both sides.
pub proof fn lemma_single_call(e: EncState, d: DecState, op: CodedOp)
    ensures
        enc_ops_all(e, seq![op]) == enc_op(e, op),
        dec_ops_all(d, seq![op]) == dec_op(d, op),
        dec_reads_back(d, seq![op]) ==> op_read_back(d, op),
{
    lemma_reads_back_cons(d, op, Seq::<CodedOp>::empty());
    lemma_enc_ops_cons(e, op, Seq::<CodedOp>::empty());
    assert(seq![op] + Seq::<CodedOp>::empty() =~= seq![op]);
    assert(dec_ops_all(dec_op(d, op), Seq::<CodedOp>::empty()) == dec_op(d, op));
    assert(enc_ops_all(enc_op(e, op), Seq::<CodedOp>::empty()) == enc_op(e, op));
}

} // verus!
