//! The CELT Laplace coder for energy deltas, on top of the range coder.
use crate::range_coder::{
    dec_decode_spec, dec_update_spec, enc_encode_spec, lemma_symbol_counts_agree, DecState, EncState,
    RangeDecoder, RangeEncoder,
};
use crate::range_coder::{dec_new_spec, dec_ops_all, enc_new_spec, enc_ops_all, CodedOp};
use crate::round_trip::{
    enc_done_state, lemma_range_coder_round_trip, lemma_reads_back_at, range_ops_ok,
};
use crate::range_coder::enc_done_spec;
use vstd::arithmetic::power2::*;
use vstd::prelude::*;

verus! {

/// `ec_laplace_get_freq1`: the frequency of the first non-zero magnitude.
pub open spec fn get_freq1_spec(fs0: int, decay: int) -> int {
    ((32768 - 32 - fs0) * (16384 - decay)) / 32768
}

fn get_freq1(fs0: u32, decay: i32) -> (res: u32)
    requires
        fs0 <= 32736,
        0 < decay <= 11456,
    ensures
        res == get_freq1_spec(fs0 as int, decay as int),
        res <= (32736 - fs0) / 2,
{
    let ft = 32768 - 32 - fs0;
    proof {
        assert(ft * (16384 - decay) <= 32736 * 16384) by (nonlinear_arith)
            requires
                ft <= 32736,
                0 < decay,
        ;
        assert(ft * (16384 - decay) <= ft * 16384) by (nonlinear_arith)
            requires
                0 < decay,
        ;
        let x: u32 = (ft * (16384 - decay as u32)) as u32;
        assert(x >> 15u32 == x / 32768) by (bit_vector);
        vstd::arithmetic::div_mod::lemma_div_is_ordered(x as int, ft * 16384, 32768);
        vstd::arithmetic::div_mod::lemma_div_multiples_vanish_fancy(ft as int, 0, 2);
    }
    (ft.wrapping_mul((16384 - decay) as u32)) >> 15
}

/// The search through the decaying part of the distribution: from magnitude
/// `i` with cumulative `fl` and per-sign frequency `fs`, walk up towards
/// `val` while the frequency stays positive.
pub open spec fn laplace_enc_walk(fl: int, fs: int, i: int, val: int, decay: int) -> (int, int, int)
    decreases (if val > i { val - i } else { 0 }),
{
    if fs > 0 && i < val {
        laplace_enc_walk(fl + 2 * fs + 2, (2 * fs * decay) / 32768, i + 1, val, decay)
    } else {
        (fl, fs, i)
    }
}

/// The interval `[fl, fl + fs)` (of 32768) that codes `value`, and the value
/// actually coded (clamped to the representable range).
pub open spec fn laplace_enc_interval(value: int, fs0: int, decay: int) -> (int, int, int) {
    if value == 0 {
        (0, fs0, 0)
    } else {
        let s: int = if value < 0 {
            -1
        } else {
            0
        };
        let mag = if value < 0 {
            -value
        } else {
            value
        };
        let (fl, fs, i) = laplace_enc_walk(fs0, get_freq1_spec(fs0, decay), 1, mag, decay);
        if fs == 0 {
            let ndi_max = (32768 - fl - s) / 2;
            let di = if mag - i < ndi_max - 1 {
                mag - i
            } else {
                ndi_max - 1
            };
            let fl2 = fl + 2 * di + 1 + s;
            let fs2 = if 1 < 32768 - fl2 {
                1
            } else {
                32768 - fl2
            };
            let coded = if value < 0 {
                -(i + di)
            } else {
                i + di
            };
            (fl2, fs2, coded)
        } else {
            let fs2 = fs + 1;
            (if value < 0 {
                fl
            } else {
                fl + fs2
            }, fs2, value)
        }
    }
}

/// The inputs the encoder codes without tripping its interval checks: the
/// search stays inside the 15-bit total and the coded interval is non-empty.
pub open spec fn laplace_enc_ok(value: int, fs0: int, decay: int) -> bool {
    let mag = if value < 0 {
        -value
    } else {
        value
    };
    let s: int = if value < 0 {
        -1
    } else {
        0
    };
    let (wfl, wfs, wi) = laplace_enc_walk(fs0, get_freq1_spec(fs0, decay), 1, mag, decay);
    let (fl, fs, coded) = laplace_enc_interval(value, fs0, decay);
    &&& i32::MIN < value
    &&& 0 <= fs0 <= 32736
    &&& 0 < decay <= 11456
    &&& (value != 0 ==> wfl <= 32768)
    &&& (value != 0 && wfs == 0 ==> fl >= wfl)
    &&& 0 < fs
    &&& fl + fs <= 32768
}

proof fn lemma_walk_monotone(fl: int, fs: int, i: int, val: int, decay: int)
    requires
        fs >= 0,
        fl >= 0,
        0 < decay <= 11456,
    ensures
        ({
            let (fl2, fs2, i2) = laplace_enc_walk(fl, fs, i, val, decay);
            &&& fl2 >= fl
            &&& fs2 >= 0
            &&& i2 >= i
            &&& (fl2 == fl ==> fs2 == fs && i2 == i)
            &&& (fs2 > 0 ==> i2 >= val)
            &&& (i2 <= val || i2 == i)
            &&& (fl2 > fl ==> fl2 >= fl + 2 * fs + 2)
        }),
    decreases (if val > i { val - i } else { 0 }),
{
    if fs > 0 && i < val {
        assert(2 * fs * decay >= 0) by (nonlinear_arith)
            requires
                fs >= 0,
                decay > 0,
        ;
        lemma_walk_monotone(fl + 2 * fs + 2, (2 * fs * decay) / 32768, i + 1, val, decay);
    }
}

/// Encodes a signed energy delta, clamping and writing back through `value`.
pub fn ec_laplace_encode(enc: &mut RangeEncoder, value: &mut i32, fs: u32, decay: i32)
    requires
        old(enc)@.wf(),
        old(enc)@.has_room(),
        laplace_enc_ok(*old(value) as int, fs as int, decay as int),
    ensures
        ({
            let (fl, fsz, coded) = laplace_enc_interval(*old(value) as int, fs as int, decay as int);
            &&& final(enc)@ == enc_encode_spec(old(enc)@, fl, fl + fsz, 32768)
            &&& *final(value) == coded
        }),
        final(enc)@.wf(),
        final(enc)@.nbits_total <= old(enc)@.nbits_total + 24,
{
    let ghost v0 = *value as int;
    let mut fs = fs;
    let ghost fs0 = fs as int;
    let mut fl: u32 = 0;
    let mut val = *value;
    if val != 0 {
        let s = -((val < 0) as i32);
        val = if s == -1 {
            -val
        } else {
            val
        };
        fl = fs;
        fs = get_freq1(fs, decay);
        let mut i: i32 = 1;
        let ghost target = laplace_enc_walk(fl as int, fs as int, 1, val as int, decay as int);
        proof {
            lemma_walk_monotone(fl as int, fs as int, 1, val as int, decay as int);
        }
        while fs > 0 && i < val
            invariant
                0 < decay <= 11456,
                1 <= i <= val,
                laplace_enc_walk(fl as int, fs as int, i as int, val as int, decay as int) == target,
                target.0 <= 32768,
                fl <= target.0,
                fs <= 32768,
            decreases val - i,
        {
            proof {
                lemma_walk_monotone(fl as int, fs as int, i as int, val as int, decay as int);
                lemma_walk_monotone(
                    fl + 2 * fs + 2,
                    (2 * fs * decay) / 32768,
                    i + 1,
                    val as int,
                    decay as int,
                );
            }
            fs *= 2;
            fl += fs + 2;
            proof {
                assert(fs * decay <= 0x1_0000 * 11456) by (nonlinear_arith)
                    requires
                        fs <= 0x1_0000,
                        0 < decay <= 11456,
                ;
                assert(fs * decay <= 32768 * fs) by (nonlinear_arith)
                    requires
                        fs >= 0,
                        0 < decay <= 11456,
                ;
                let x: u32 = (fs * decay as u32) as u32;
                assert(x >> 15u32 == x / 32768) by (bit_vector);
                vstd::arithmetic::div_mod::lemma_div_is_ordered(x as int, 32768 * fs, 32768);
                vstd::arithmetic::div_mod::lemma_div_multiples_vanish(fs as int, 32768);
            }
            fs = (fs.wrapping_mul(decay as u32)) >> 15;
            i += 1;
        }
        assert(target == (fl as int, fs as int, i as int));
        if fs == 0 {
            let ndi_max = 32768 - fl;
            let ndi_max = (ndi_max as i32 - s) / 2;
            let di = (val - i).min(ndi_max - 1);
            fl += (2 * di + 1 + s) as u32;
            fs = 1u32.min(32768 - fl);
            *value = if s == -1 {
                -(i + di)
            } else {
                i + di
            };
        } else {
            fs += 1;
            if s == 0 {
                fl += fs;
            }
        }
    }
    proof {
        lemma2_to64();
        assert((fl as int, fs as int, *value as int) == laplace_enc_interval(v0, fs0, decay as int));
    }
    enc.encode_bin(fl, fl + fs, 15);
}

} // verus!

verus! {

/// The decoder's walk through the decaying part of the distribution towards
/// the cumulative frequency `fm` it read.
pub open spec fn laplace_dec_walk(fl: int, fs: int, val: int, fm: int, decay: int) -> (int, int, int)
    decreases (if fm >= fl { fm - fl } else { 0 }),
{
    if fs > 1 && fm >= fl + 2 * fs {
        laplace_dec_walk(fl + 2 * fs, ((2 * fs - 2) * decay) / 32768 + 1, val + 1, fm, decay)
    } else {
        (fl, fs, val)
    }
}

/// The symbol interval `[fl, fh)` (of 32768) containing `fm` and the value it
/// stands for.
pub open spec fn laplace_dec_symbol(fm: int, fs0: int, decay: int) -> (int, int, int) {
    if fm >= fs0 {
        let (fl, fs, v) = laplace_dec_walk(fs0, get_freq1_spec(fs0, decay) + 1, 1, fm, decay);
        let (fl2, v2) = if fs <= 1 {
            let di = (fm - fl) / 2;
            (fl + 2 * di, v + di)
        } else {
            (fl, v)
        };
        if fm < fl2 + fs {
            (fl2, if fl2 + fs < 32768 {
                fl2 + fs
            } else {
                32768
            }, -v2)
        } else {
            (fl2 + fs, if fl2 + 2 * fs < 32768 {
                fl2 + 2 * fs
            } else {
                32768
            }, v2)
        }
    } else {
        (0, if fs0 < 32768 {
            fs0
        } else {
            32768
        }, 0)
    }
}

proof fn lemma_dec_walk_bounds(fl: int, fs: int, val: int, fm: int, decay: int)
    requires
        0 <= fl <= fm < 32768,
        1 <= fs <= 32768,
        0 < decay <= 11456,
        1 <= val <= fl + 1,
    ensures
        ({
            let (fl2, fs2, v2) = laplace_dec_walk(fl, fs, val, fm, decay);
            &&& fl <= fl2 <= fm
            &&& 1 <= fs2 <= 32768
            &&& 1 <= v2 <= fl2 + 1
            &&& (fs2 > 1 ==> fm < fl2 + 2 * fs2)
        }),
    decreases (if fm >= fl { fm - fl } else { 0 }),
{
    if fs > 1 && fm >= fl + 2 * fs {
        assert((2 * fs - 2) * decay <= 32768 * (2 * fs - 2)) by (nonlinear_arith)
            requires
                fs >= 1,
                0 < decay <= 11456,
        ;
        assert((2 * fs - 2) * decay >= 0) by (nonlinear_arith)
            requires
                fs >= 1,
                0 < decay,
        ;
        vstd::arithmetic::div_mod::lemma_div_is_ordered((2 * fs - 2) * decay, 32768 * (2 * fs - 2), 32768);
        vstd::arithmetic::div_mod::lemma_div_multiples_vanish(2 * fs - 2, 32768);
        lemma_dec_walk_bounds(fl + 2 * fs, ((2 * fs - 2) * decay) / 32768 + 1, val + 1, fm, decay);
    }
}

/// Decodes a signed energy delta encoded by [`ec_laplace_encode`].
pub fn ec_laplace_decode(dec: &mut RangeDecoder, fs: u32, decay: i32) -> (res: i32)
    requires
        old(dec)@.wf(),
        old(dec)@.has_room(),
        fs <= 32736,
        0 < decay <= 11456,
    ensures
        ({
            let (d1, fm) = dec_decode_spec(old(dec)@, 32768);
            let (fl, fh, v) = laplace_dec_symbol(fm, fs as int, decay as int);
            &&& final(dec)@ == dec_update_spec(d1, fl, fh, 32768)
            &&& res == v
        }),
        final(dec)@.wf(),
        final(dec)@.nbits_total <= old(dec)@.nbits_total + 24,
{
    let ghost fs0 = fs as int;
    let mut fs = fs;
    let mut val = 0i32;
    let mut fl: u32 = 0;
    proof {
        lemma2_to64();
    }
    let fm = dec.decode_bin(15);
    if fm >= fs {
        val += 1;
        fl = fs;
        fs = get_freq1(fs, decay) + 1;
        let ghost target = laplace_dec_walk(fl as int, fs as int, 1, fm as int, decay as int);
        proof {
            lemma_dec_walk_bounds(fl as int, fs as int, 1, fm as int, decay as int);
        }
        while fs > 1 && fm >= fl + 2 * fs
            invariant
                0 < decay <= 11456,
                0 <= fl <= fm < 32768,
                1 <= fs <= 32768,
                1 <= val <= fl + 1,
                laplace_dec_walk(fl as int, fs as int, val as int, fm as int, decay as int)
                    == target,
            decreases fm - fl,
        {
            proof {
                lemma_dec_walk_bounds(fl as int, fs as int, val as int, fm as int, decay as int);
                assert((fs - 2) * decay <= 32768 * 11456) by (nonlinear_arith)
                    requires
                        2 <= fs <= 32768,
                        0 < decay <= 11456,
                ;
                assert((2 * fs - 2) * decay <= 32768 * (2 * fs - 2)) by (nonlinear_arith)
                    requires
                        fs >= 1,
                        0 < decay <= 11456,
                ;
                assert((2 * fs - 2) * decay >= 0) by (nonlinear_arith)
                    requires
                        fs >= 1,
                        0 < decay,
                ;
                vstd::arithmetic::div_mod::lemma_div_is_ordered((2 * fs - 2) * decay, 32768 * (2 * fs - 2), 32768);
                vstd::arithmetic::div_mod::lemma_div_multiples_vanish(2 * fs - 2, 32768);
            }
            fs *= 2;
            fl += fs;
            proof {
                let x: u32 = ((fs - 2) * decay as u32) as u32;
                assert(x >> 15u32 == x / 32768) by (bit_vector);
            }
            fs = ((fs - 2).wrapping_mul(decay as u32)) >> 15;
            fs += 1;
            val += 1;
        }
        assert(target == (fl as int, fs as int, val as int));
        if fs <= 1 {
            proof {
                vstd::bits::lemma_u32_shr_is_div((fm - fl) as u32, 1);
            }
            let di = ((fm - fl) >> 1) as i32;
            val += di;
            fl += (2 * di as u32) * 1;
        }
        if fm < fl + fs {
            val = -val;
        } else {
            fl += fs;
        }
    }
    dec.dec_update(fl, (fl + fs).min(32768), 32768);
    val
}

/// The decoder's walk retraces the encoder's: it carries each per-sign
/// frequency plus one, and stops where the encoder stopped when the frequency
/// it read lies at or past the encoder's last step and, if the encoder stopped
/// on a live frequency, inside that step's two intervals.
proof fn lemma_walks_agree(fl: int, fs: int, i: int, mag: int, fm: int, decay: int)
    requires
        fs >= 0,
        fl >= 0,
        0 < decay <= 11456,
        fm >= laplace_enc_walk(fl, fs, i, mag, decay).0,
        laplace_enc_walk(fl, fs, i, mag, decay).1 > 0 ==> fm < laplace_enc_walk(fl, fs, i, mag, decay).0 + 2
            * laplace_enc_walk(fl, fs, i, mag, decay).1 + 2,
    ensures
        ({
            let (wfl, wfs, wi) = laplace_enc_walk(fl, fs, i, mag, decay);
            laplace_dec_walk(fl, fs + 1, i, fm, decay) == (wfl, wfs + 1, wi)
        }),
    decreases (if mag > i { mag - i } else { 0 }),
{
    if fs > 0 && i < mag {
        assert(2 * fs * decay >= 0) by (nonlinear_arith)
            requires
                fs >= 0,
                decay > 0,
        ;
        lemma_walk_monotone(fl + 2 * fs + 2, (2 * fs * decay) / 32768, i + 1, mag, decay);
        assert((2 * (fs + 1) - 2) * decay == 2 * fs * decay) by (nonlinear_arith);
        lemma_walks_agree(fl + 2 * fs + 2, (2 * fs * decay) / 32768, i + 1, mag, fm, decay);
    }
}

/// The Laplace pdf is shared by both sides: a frequency read inside the
/// interval the encoder coded for `value` gives back that interval and the
/// value the encoder wrote back (clamped where the distribution runs out).
pub proof fn lemma_laplace_pdf_inverts(value: int, fs0: int, decay: int, fm: int)
    requires
        laplace_enc_ok(value, fs0, decay),
        laplace_enc_interval(value, fs0, decay).0 <= fm < laplace_enc_interval(value, fs0, decay).0
            + laplace_enc_interval(value, fs0, decay).1,
    ensures
        ({
            let (fl, fs, coded) = laplace_enc_interval(value, fs0, decay);
            laplace_dec_symbol(fm, fs0, decay) == (fl, fl + fs, coded)
        }),
{
    if value != 0 {
        let mag = if value < 0 {
            -value
        } else {
            value
        };
        let f1 = get_freq1_spec(fs0, decay);
        assert(0 <= f1) by (nonlinear_arith)
            requires
                f1 == ((32768 - 32 - fs0) * (16384 - decay)) / 32768,
                0 <= fs0 <= 32736,
                0 < decay <= 11456,
        ;
        lemma_walk_monotone(fs0, f1, 1, mag, decay);
        let (wfl, wfs, wi) = laplace_enc_walk(fs0, f1, 1, mag, decay);
        lemma_walks_agree(fs0, f1, 1, mag, fm, decay);
        assert(laplace_dec_walk(fs0, f1 + 1, 1, fm, decay) == (wfl, wfs + 1, wi));
        if wfs == 0 {
            let s: int = if value < 0 {
                -1
            } else {
                0
            };
            let ndi_max = (32768 - wfl - s) / 2;
            let di = if mag - wi < ndi_max - 1 {
                mag - wi
            } else {
                ndi_max - 1
            };
            let fl2 = wfl + 2 * di + 1 + s;
            assert(fm == fl2);
            assert((fm - wfl) / 2 == di);
        } else {
            assert(wi == mag);
        }
    }
}

/// `ec_laplace_decode` returns what `ec_laplace_encode` wrote back: over a
/// decoder that starts where the encoder started (same range and bit count)
/// and reads a frequency inside the interval the encoder coded (what the range
/// coder carries from one side to the other), the decoder's state step and
/// result are those its contract gives for the encoder's interval and value,
/// and both sides end in step.
pub proof fn lemma_laplace_round_trip(e: EncState, d: DecState, value: int, fs0: int, decay: int)
    requires
        e.rng == d.rng,
        e.nbits_total == d.nbits_total,
        laplace_enc_ok(value, fs0, decay),
        laplace_enc_interval(value, fs0, decay).0 <= dec_decode_spec(d, 32768).1 < laplace_enc_interval(
            value,
            fs0,
            decay,
        ).0 + laplace_enc_interval(value, fs0, decay).1,
    ensures
        ({
            let (fl, fsz, coded) = laplace_enc_interval(value, fs0, decay);
            let (d1, fm) = dec_decode_spec(d, 32768);
            let (dfl, dfh, v) = laplace_dec_symbol(fm, fs0, decay);
            let e2 = enc_encode_spec(e, fl, fl + fsz, 32768);
            let d2 = dec_update_spec(d1, dfl, dfh, 32768);
            &&& v == coded
            &&& dfl == fl
            &&& dfh == fl + fsz
            &&& e2.rng == d2.rng
            &&& e2.nbits_total == d2.nbits_total
        }),
{
    let (fl, fsz, coded) = laplace_enc_interval(value, fs0, decay);
    lemma_laplace_pdf_inverts(value, fs0, decay, dec_decode_spec(d, 32768).1);
    lemma_symbol_counts_agree(e, d, fl, fl + fsz, 32768);
}

/// The call the Laplace coder makes for `value`: its interval of the 15-bit
/// total.
pub open spec fn laplace_symbol(value: int, fs0: int, decay: int) -> CodedOp {
    let (fl, fs, coded) = laplace_enc_interval(value, fs0, decay);
    CodedOp::Symbol(fl, fl + fs, 32768)
}

/// Energy deltas come back through the range coder: in any stream a fresh
/// encoder writes and `done` hands out in full, where call `k` is the Laplace
/// symbol of `value`, a decoder over the bytes that mirrors the calls before
/// it gets back, from `ec_laplace_decode`'s step, the value the encoder wrote
/// back, and stays in step with the stream.
pub proof fn lemma_laplace_stream_round_trip(
    size: nat,
    ops: Seq<CodedOp>,
    k: int,
    value: int,
    fs0: int,
    decay: int,
)
    requires
        size < 0x1_0000_0000,
        range_ops_ok(ops),
        ops.len() <= 0x1000_0000,
        !enc_done_state(enc_ops_all(enc_new_spec(size), ops)).error,
        0 <= k < ops.len(),
        laplace_enc_ok(value, fs0, decay),
        ops[k] == laplace_symbol(value, fs0, decay),
    ensures
        ({
            let buf = enc_done_spec(enc_ops_all(enc_new_spec(size), ops));
            let d = dec_ops_all(dec_new_spec(buf), ops.take(k));
            let (d1, fm) = dec_decode_spec(d, 32768);
            let (fl, fh, v) = laplace_dec_symbol(fm, fs0, decay);
            &&& v == laplace_enc_interval(value, fs0, decay).2
            &&& dec_update_spec(d1, fl, fh, 32768) == dec_ops_all(dec_new_spec(buf), ops.take(k + 1))
        }),
{
    lemma_range_coder_round_trip(size, ops);
    let buf = enc_done_spec(enc_ops_all(enc_new_spec(size), ops));
    lemma_reads_back_at(dec_new_spec(buf), ops, k);
    let d = dec_ops_all(dec_new_spec(buf), ops.take(k));
    lemma_laplace_pdf_inverts(value, fs0, decay, dec_decode_spec(d, 32768).1);
}

} // verus!
