//! The Opus range coder (entropy coder) used by CELT.
use vstd::arithmetic::power2::*;
use vstd::bits::*;
use vstd::prelude::*;
use vstd::std_specs::bits::*;

verus! {

pub const EC_SYM_BITS: u32 = 8;

pub const EC_CODE_BITS: u32 = 32;

pub const EC_SYM_MAX: u32 = 255;

pub const EC_CODE_SHIFT: u32 = 23;

pub const EC_CODE_TOP: u32 = 0x8000_0000;

pub const EC_CODE_BOT: u32 = 0x0080_0000;

pub const EC_CODE_EXTRA: u32 = 7;

pub const EC_UINT_BITS: u32 = 8;

pub const EC_WINDOW_SIZE: u32 = 32;

/// Number of significant bits of `v` (`0` for `v == 0`).
pub open spec fn ilog(v: nat) -> nat
    decreases v,
{
    if v == 0 {
        0
    } else {
        1 + ilog(v / 2)
    }
}

pub proof fn lemma_ilog_bounds(v: nat)
    requires
        v > 0,
    ensures
        ilog(v) >= 1,
        pow2((ilog(v) - 1) as nat) <= v < pow2(ilog(v)),
    decreases v,
{
    if v / 2 == 0 {
        assert(v == 1);
        assert(ilog(0) == 0);
        lemma2_to64();
    } else {
        lemma_ilog_bounds(v / 2);
        let k = ilog(v / 2);
        lemma_pow2_unfold(k);
        lemma_pow2_unfold(k + 1);
        assert(ilog(v) == k + 1);
    }
}

pub proof fn lemma_ilog_unique(v: nat, n: nat)
    requires
        n >= 1,
        pow2((n - 1) as nat) <= v < pow2(n),
    ensures
        ilog(v) == n,
{
    lemma_pow2_pos((n - 1) as nat);
    lemma_ilog_bounds(v);
    let m = ilog(v);
    if m < n {
        if m < n - 1 {
            lemma_pow2_strictly_increases(m, (n - 1) as nat);
        }
    } else if m > n {
        if m - 1 > n {
            lemma_pow2_strictly_increases(n, (m - 1) as nat);
        }
    }
}

pub proof fn lemma_ilog_monotone(a: nat, b: nat)
    requires
        a <= b,
    ensures
        ilog(a) <= ilog(b),
    decreases b,
{
    if a > 0 {
        lemma_ilog_monotone(a / 2, b / 2);
    }
}

/// `32 - leading_zeros` counts significant bits.
pub proof fn lemma_leading_zeros_ilog(v: u32)
    ensures
        32 - u32_leading_zeros(v) == ilog(v as nat),
        ilog(v as nat) <= 32,
{
    axiom_u32_leading_zeros(v);
    let lz = u32_leading_zeros(v);
    if v == 0 {
    } else {
        let k: u32 = (31 - lz) as u32;
        assert((v >> k) & 1u32 != 0u32 ==> (v >> k) != 0u32) by (bit_vector);
        lemma_u32_shr_is_div(v, k);
        lemma_pow2_pos(k as nat);
        assert(v as nat >= pow2(k as nat)) by {
            if (v as nat) < pow2(k as nat) {
                vstd::arithmetic::div_mod::lemma_basic_div(v as int, pow2(k as nat) as int);
            }
        }
        if k < 31 {
            let k1: u32 = (k + 1) as u32;
            lemma_u32_shr_is_div(v, k1);
            lemma_pow2_pos(k1 as nat);
            assert((v as nat) < pow2(k1 as nat)) by {
                if v as nat >= pow2(k1 as nat) {
                    vstd::arithmetic::div_mod::lemma_div_is_ordered(
                        pow2(k1 as nat) as int,
                        v as int,
                        pow2(k1 as nat) as int,
                    );
                    vstd::arithmetic::div_mod::lemma_div_by_self(pow2(k1 as nat) as int);
                }
            }
            lemma_ilog_unique(v as nat, k1 as nat);
        } else {
            lemma2_to64();
            assert(k == 31);
            assert(pow2(31) <= v as nat);
            assert((v as nat) < pow2(32));
            lemma_ilog_unique(v as nat, 32);
        }
    }
}

/// `ec_ilog`: number of significant bits in `v` (`ec_ilog(0) == 0`).
pub fn ec_ilog(v: u32) -> (r: u32)
    ensures
        r == ilog(v as nat),
        r <= 32,
{
    proof {
        lemma_leading_zeros_ilog(v);
    }
    EC_CODE_BITS - v.leading_zeros()
}

} // verus!

verus! {

/// Upper bound on the bit counter that keeps `ec_tell_frac` within `u32`.
pub const EC_NBITS_LIMIT: i32 = 0x1000_0000;

/// Headroom each coding call asks for below [`EC_NBITS_LIMIT`].
pub const EC_STEP_BITS: i32 = 64;

/// `EC_TELL_FRAC_CORRECTION`: rounding thresholds for the sub-bit fraction.
pub open spec fn tell_frac_correction(b: int) -> int {
    if b == 0 {
        35733
    } else if b == 1 {
        38967
    } else if b == 2 {
        42495
    } else if b == 3 {
        46340
    } else if b == 4 {
        50535
    } else if b == 5 {
        55109
    } else if b == 6 {
        60097
    } else {
        65535
    }
}

/// The eighth-bit position of a coder whose bit counter is `nbits_total` and
/// whose range register is `rng`: whole bits used, minus the fractional
/// logarithm of the range rounded through the correction table.
pub open spec fn tell_frac_spec(nbits_total: int, rng: u32) -> int {
    let l = ilog(rng as nat);
    let r = rng as nat / pow2((l - 16) as nat);
    let b0 = r / 4096 - 8;
    let b = if r > tell_frac_correction(b0) {
        b0 + 1
    } else {
        b0
    };
    nbits_total * 8 - (l * 8 + b)
}

/// The whole-bit position: bits used, rounded up.
pub open spec fn tell_spec(nbits_total: int, rng: u32) -> int {
    nbits_total - ilog(rng as nat)
}

proof fn lemma_tell_frac_parts(rng: u32)
    requires
        rng >= 0x8000,
    ensures
        ilog(rng as nat) >= 16,
        0x8000 <= rng as nat / pow2((ilog(rng as nat) - 16) as nat) < 0x10000,
{
    lemma_ilog_bounds(rng as nat);
    let l = ilog(rng as nat);
    lemma2_to64();
    if l < 16 {
        if l < 16 {
            lemma_pow2_strictly_increases((l - 1) as nat, 15);
        }
    }
    let k = (l - 16) as nat;
    lemma_pow2_adds(k, 15);
    lemma_pow2_adds(k, 16);
    lemma_pow2_pos(k);
    assert((l - 1) as nat == k + 15);
    vstd::arithmetic::div_mod::lemma_div_is_ordered(
        pow2(k + 15) as int,
        rng as int,
        pow2(k) as int,
    );
    vstd::arithmetic::div_mod::lemma_div_multiples_vanish(pow2(15) as int, pow2(k) as int);
    vstd::arithmetic::mul::lemma_mul_is_commutative(pow2(15) as int, pow2(k) as int);
    vstd::arithmetic::div_mod::lemma_multiply_divide_lt(rng as int, pow2(k) as int, pow2(16) as int);
}

/// The fractional part `b` of the tell computation lies in `0..=7`.
pub proof fn lemma_tell_frac_fraction(nbits_total: int, rng: u32)
    requires
        rng >= 0x8000,
    ensures
        tell_frac_spec(nbits_total, rng) <= 8 * tell_spec(nbits_total, rng),
        8 * tell_spec(nbits_total, rng) - 7 <= tell_frac_spec(nbits_total, rng),
{
    lemma_tell_frac_parts(rng);
}

/// The whole-bit position is the eighth-bit position rounded up to whole
/// bits: `ec_tell == (ec_tell_frac + 7) >> 3` for every coder state.
pub proof fn lemma_tell_rounds_up_tell_frac(nbits_total: int, rng: u32)
    requires
        rng >= 0x8000,
    ensures
        tell_spec(nbits_total, rng) == (tell_frac_spec(nbits_total, rng) + 7) / 8,
{
    lemma_tell_frac_fraction(nbits_total, rng);
}

/// `ec_tell_frac`: bits used so far in eighth-of-a-bit resolution.
fn ec_tell_frac_impl(nbits_total: i32, rng: u32) -> (res: u32)
    requires
        33 <= nbits_total <= EC_NBITS_LIMIT,
        rng >= 0x8000,
    ensures
        res == tell_frac_spec(nbits_total as int, rng),
{
    proof {
        lemma_tell_frac_parts(rng);
        lemma_ilog_bounds(rng as nat);
    }
    proof {
        lemma2_to64();
        assert(nbits_total as u32 <= 0x1000_0000);
        lemma_u32_shl_is_mul(nbits_total as u32, 3);
    }
    let nbits = (nbits_total as u32) << 3;
    let l = ec_ilog(rng);
    let r = rng >> (l - 16);
    proof {
        lemma_u32_shr_is_div(rng, (l - 16) as u32);
    }
    proof {
        lemma_u32_shr_is_div(r, 12);
        vstd::arithmetic::div_mod::lemma_div_is_ordered(0x8000, r as int, 4096);
        vstd::arithmetic::div_mod::lemma_div_is_ordered(r as int, 0xffff, 4096);
    }
    let mut b = (r >> 12) - 8;
    let table: [u32; 8] = [35733, 38967, 42495, 46340, 50535, 55109, 60097, 65535];
    if r > table[b as usize] {
        b += 1;
    }
    proof {
        lemma_u32_shl_is_mul(l, 3);
    }
    let l2 = (l << 3) + b;
    nbits - l2
}

/// The modelled state of a [`RangeEncoder`].
pub struct EncState {
    pub buf: Seq<u8>,
    pub storage: u32,
    pub end_offs: u32,
    pub end_window: u32,
    pub nend_bits: i32,
    pub nbits_total: i32,
    pub offs: u32,
    pub rng: u32,
    pub val: u32,
    pub ext: u32,
    pub rem: i32,
    pub error: bool,
}

impl EncState {
    /// The buffer and byte bookkeeping that hold at every step.
    pub open spec fn core_wf(self) -> bool {
        &&& self.buf.len() == self.storage
        &&& self.offs + self.end_offs <= self.storage
        &&& -1 <= self.rem <= 255
        &&& 0 <= self.nend_bits <= 32
    }

    /// The invariant every encoder keeps between calls.
    pub open spec fn wf(self) -> bool {
        &&& self.core_wf()
        &&& EC_CODE_BOT < self.rng <= EC_CODE_TOP
        &&& self.val + self.rng <= 0x1_0000_0000
        &&& 8 * self.ext + 33 <= self.nbits_total <= EC_NBITS_LIMIT
    }

    /// Room for one more coding call below the bit-counter limit.
    pub open spec fn has_room(self) -> bool {
        self.nbits_total <= EC_NBITS_LIMIT - EC_STEP_BITS
    }

    pub open spec fn tell(self) -> int {
        tell_spec(self.nbits_total as int, self.rng)
    }

    pub open spec fn tell_frac(self) -> int {
        tell_frac_spec(self.nbits_total as int, self.rng)
    }
}

/// Stores one range-coded byte at the front, or latches the error flag when
/// the front and the back of the buffer have met.
pub open spec fn enc_put_byte(s: EncState, value: u32) -> EncState {
    if s.offs + s.end_offs >= s.storage {
        EncState { error: true, ..s }
    } else {
        EncState { buf: s.buf.update(s.offs as int, value as u8), offs: (s.offs + 1) as u32, ..s }
    }
}

/// Stores one raw-bits byte at the back, or latches the error flag.
pub open spec fn enc_put_byte_at_end(s: EncState, value: u32) -> EncState {
    if s.offs + s.end_offs >= s.storage {
        EncState { error: true, ..s }
    } else {
        EncState {
            buf: s.buf.update(s.storage - s.end_offs - 1, value as u8),
            end_offs: (s.end_offs + 1) as u32,
            ..s
        }
    }
}

/// Stores `n` copies of `sym` at the front.
pub open spec fn enc_put_repeat(s: EncState, sym: u32, n: nat) -> EncState
    decreases n,
{
    if n == 0 {
        s
    } else {
        enc_put_repeat(enc_put_byte(s, sym), sym, (n - 1) as nat)
    }
}

/// `carry_out`: emits the buffered symbol and the run of pending `0xFF`
/// symbols once the carry into them is known, or extends the run.
pub open spec fn enc_carry_out(s: EncState, c: int) -> EncState {
    if c != 255 {
        let carry = c / 256;
        let s1 = if s.rem >= 0 {
            enc_put_byte(s, (s.rem + carry) as u32)
        } else {
            s
        };
        let s2 = if s1.ext > 0 {
            EncState {
                ext: 0,
                ..enc_put_repeat(s1, if carry == 0 { 255u32 } else { 0u32 }, s1.ext as nat)
            }
        } else {
            s1
        };
        EncState { rem: (c % 256) as i32, ..s2 }
    } else {
        EncState { ext: (s.ext + 1) as u32, ..s }
    }
}

/// Writing bytes only touches the buffer, the front offset and the error flag.
pub proof fn lemma_put_repeat_frame(s: EncState, sym: u32, n: nat)
    requires
        s.core_wf(),
    ensures
        ({
            let t = enc_put_repeat(s, sym, n);
            &&& t.core_wf()
            &&& t.storage == s.storage
            &&& t.end_offs == s.end_offs
            &&& t.end_window == s.end_window
            &&& t.nend_bits == s.nend_bits
            &&& t.nbits_total == s.nbits_total
            &&& t.rng == s.rng
            &&& t.val == s.val
            &&& t.ext == s.ext
            &&& t.rem == s.rem
            &&& t.offs >= s.offs
        }),
    decreases n,
{
    if n > 0 {
        lemma_put_repeat_frame(enc_put_byte(s, sym), sym, (n - 1) as nat);
    }
}

pub open spec fn enc_normalize_measure(s: EncState) -> int {
    if s.rng > EC_CODE_BOT {
        0
    } else {
        EC_CODE_BOT + 1 - s.rng
    }
}

/// Renormalisation: while the range is at most `EC_CODE_BOT`, shift the top
/// symbol of the low end out and scale the range by 256.
pub open spec fn enc_normalize(s: EncState) -> EncState
    decreases enc_normalize_measure(s),
{
    if 0 < s.rng <= EC_CODE_BOT {
        let s1 = enc_carry_out(s, (s.val / 0x80_0000) as int);
        enc_normalize(
            EncState {
                val: ((s.val % 0x80_0000) * 256) as u32,
                rng: (s.rng * 256) as u32,
                nbits_total: (s.nbits_total + 8) as i32,
                ..s1
            },
        )
    } else {
        s
    }
}

/// Narrowing the interval to the symbol `[fl, fh)` of total `ft`, before
/// renormalisation; the first symbol absorbs the rounding slack.
pub open spec fn enc_narrow(s: EncState, fl: int, fh: int, ft: int) -> EncState {
    let r = s.rng as int / ft;
    if fl > 0 {
        EncState { val: (s.val + s.rng - r * (ft - fl)) as u32, rng: (r * (fh - fl)) as u32, ..s }
    } else {
        EncState { rng: (s.rng - r * (ft - fh)) as u32, ..s }
    }
}

pub open spec fn enc_encode_spec(s: EncState, fl: int, fh: int, ft: int) -> EncState {
    enc_normalize(enc_narrow(s, fl, fh, ft))
}

/// One bit with probability of a one equal to `1/(1<<logp)`.
pub open spec fn enc_bit_logp_spec(s: EncState, val: bool, logp: nat) -> EncState {
    let small = s.rng as nat / pow2(logp);
    let big = s.rng - small;
    enc_normalize(
        if val {
            EncState { val: (s.val + big) as u32, rng: small as u32, ..s }
        } else {
            EncState { rng: big as u32, ..s }
        },
    )
}

/// Symbol `sym` against an inverse-CDF table with a `2^ftb` total.
pub open spec fn enc_icdf_spec(s: EncState, sym: int, icdf: Seq<u8>, ftb: nat) -> EncState {
    let r = s.rng as nat / pow2(ftb);
    enc_normalize(
        if sym > 0 {
            EncState {
                val: (s.val + s.rng - r * icdf[sym - 1]) as u32,
                rng: (r * (icdf[sym - 1] - icdf[sym])) as u32,
                ..s
            }
        } else {
            EncState { rng: (s.rng - r * icdf[sym]) as u32, ..s }
        },
    )
}

/// Moves whole bytes of the raw-bits `window` (holding `used` bits) to the
/// back of the buffer while at least a byte is pending.
pub open spec fn enc_flush_end(s: EncState, window: u32, used: int) -> (EncState, u32, int)
    decreases (if used > 0 { used } else { 0 }),
{
    if used >= 8 {
        enc_flush_end(enc_put_byte_at_end(s, window % 256), window / 256, used - 8)
    } else {
        (s, window, used)
    }
}

/// Appends `bits` raw bits `fl` to the window kept at the end of the buffer.
pub open spec fn enc_bits_spec(s: EncState, fl: u32, bits: u32) -> EncState {
    let (s1, w1, u1) = if s.nend_bits + bits > 32 {
        enc_flush_end(
            enc_put_byte_at_end(s, s.end_window % 256),
            s.end_window / 256,
            s.nend_bits - 8,
        )
    } else {
        (s, s.end_window, s.nend_bits as int)
    };
    EncState {
        end_window: w1 | (fl << (u1 as u32)),
        nend_bits: (u1 + bits) as i32,
        nbits_total: (s1.nbits_total + bits) as i32,
        ..s1
    }
}

/// Raw unsigned integer in `[0, ft)`: the top 8 significant bits are range
/// coded, the rest are written as raw bits.
pub open spec fn enc_uint_spec(s: EncState, fl: u32, ft: u32) -> EncState {
    let ftb = ilog((ft - 1) as nat);
    if ftb > 8 {
        let sh = (ftb - 8) as nat;
        let ftn = (ft - 1) as nat / pow2(sh) + 1;
        let fln = fl as nat / pow2(sh);
        enc_bits_spec(
            enc_encode_spec(s, fln as int, fln + 1 as int, ftn as int),
            (fl as nat % pow2(sh)) as u32,
            sh as u32,
        )
    } else {
        enc_encode_spec(s, fl as int, fl + 1, ft as int)
    }
}

} // verus!

verus! {

proof fn lemma_symbol_split(c: i32)
    requires
        0 <= c < 512,
    ensures
        c >> 8u32 == c / 256,
        c & 255i32 == c % 256,
        (255u32 + (c >> 8u32) as u32) as u32 & 255u32 == if c / 256 == 0 {
            255u32
        } else {
            0u32
        },
{
    assert(0 <= c < 512 ==> c >> 8u32 == c / 256) by (bit_vector);
    assert(0 <= c < 512 ==> c & 255i32 == c % 256) by (bit_vector);
    assert(0 <= c < 512 ==> (255u32 + (c >> 8u32) as u32) as u32 & 255u32 == if c / 256 == 0 {
        255u32
    } else {
        0u32
    }) by (bit_vector);
}

proof fn lemma_shift_out(val: u32, rng: u32)
    requires
        rng <= EC_CODE_BOT,
    ensures
        val >> 23u32 == val / 0x80_0000,
        (val << 8u32) & 0x7fff_ffffu32 == (val % 0x80_0000) * 256,
        rng << 8u32 == rng * 256,
{
    assert(val >> 23u32 == val / 0x80_0000) by (bit_vector);
    assert((val << 8u32) & 0x7fff_ffffu32 == (val % 0x80_0000) * 256) by (bit_vector);
    assert(rng <= 0x80_0000 ==> rng << 8u32 == rng * 256) by (bit_vector);
}

/// Range encoder, equivalent to libopus `ec_enc`.
pub struct RangeEncoder {
    buf: Vec<u8>,
    storage: u32,
    end_offs: u32,
    end_window: u32,
    nend_bits: i32,
    nbits_total: i32,
    offs: u32,
    rng: u32,
    val: u32,
    /// Number of outstanding carry-propagating symbols.
    ext: u32,
    /// Buffered output symbol awaiting carry propagation (`-1` = none).
    rem: i32,
    error: bool,
}

impl View for RangeEncoder {
    type V = EncState;

    closed spec fn view(&self) -> EncState {
        EncState {
            buf: self.buf@,
            storage: self.storage,
            end_offs: self.end_offs,
            end_window: self.end_window,
            nend_bits: self.nend_bits,
            nbits_total: self.nbits_total,
            offs: self.offs,
            rng: self.rng,
            val: self.val,
            ext: self.ext,
            rem: self.rem,
            error: self.error,
        }
    }
}

impl RangeEncoder {
    /// A fresh encoder writing into a zeroed buffer of `size` bytes.
    pub fn new(size: u32) -> (res: Self)
        ensures
            res@ == enc_new_spec(size as nat),
            res@.wf(),
            res@.buf == Seq::new(size as nat, |i: int| 0u8),
            res@.storage == size,
            res@.end_offs == 0,
            res@.end_window == 0,
            res@.nend_bits == 0,
            res@.nbits_total == 33,
            res@.offs == 0,
            res@.rng == EC_CODE_TOP,
            res@.val == 0,
            res@.ext == 0,
            res@.rem == -1,
            !res@.error,
    {
        let buf = vec![0u8; size as usize];
        let res = RangeEncoder {
            buf,
            storage: size,
            end_offs: 0,
            end_window: 0,
            nend_bits: 0,
            nbits_total: (EC_CODE_BITS + 1) as i32,
            offs: 0,
            rng: EC_CODE_TOP,
            val: 0,
            ext: 0,
            rem: -1,
            error: false,
        };
        proof {
            assert forall|i: int| 0 <= i < size implies res@.buf[i] == 0u8 by {
                assert(cloned(0u8, buf@[i]));
            }
            assert(res@.buf =~= Seq::new(size as nat, |i: int| 0u8));
        }
        res
    }

    /// Whether a write hit the end of the buffer.
    pub fn is_error(&self) -> (res: bool)
        ensures
            res == self@.error,
    {
        self.error
    }

    /// Number of whole range-coder bytes written so far.
    pub fn range_bytes(&self) -> (res: u32)
        ensures
            res == self@.offs,
    {
        self.offs
    }

    /// `ec_tell`: bits used so far (rounded up to the next whole bit).
    pub fn ec_tell(&self) -> (res: i32)
        requires
            self@.wf(),
        ensures
            res == self@.tell(),
            1 <= res <= EC_NBITS_LIMIT,
    {
        proof {
            lemma2_to64();
            lemma_ilog_bounds(self.rng as nat);
            lemma_ilog_monotone(self.rng as nat, 0x8000_0000);
            lemma_ilog_unique(0x8000_0000, 32);
        }
        self.nbits_total - ec_ilog(self.rng) as i32
    }

    /// `ec_tell_frac`: bits used so far in eighth-of-a-bit resolution.
    pub fn ec_tell_frac(&self) -> (res: u32)
        requires
            self@.wf(),
        ensures
            res == self@.tell_frac(),
    {
        ec_tell_frac_impl(self.nbits_total, self.rng)
    }

    /// The current range register.
    pub fn rng(&self) -> (res: u32)
        ensures
            res == self@.rng,
    {
        self.rng
    }

    /// Total buffer capacity expressed in bits (`storage * 8`).
    pub fn storage_bits(&self) -> (res: u32)
        requires
            self@.storage * 8 <= u32::MAX,
        ensures
            res == self@.storage * 8,
    {
        self.storage * 8
    }

    fn write_byte(&mut self, value: u32) -> (full: bool)
        requires
            old(self)@.core_wf(),
        ensures
            full == (old(self)@.offs + old(self)@.end_offs >= old(self)@.storage),
            final(self)@ == (EncState { error: old(self)@.error, ..enc_put_byte(old(self)@, value) }),
    {
        if self.offs + self.end_offs >= self.storage {
            return true;
        }
        self.buf.set(self.offs as usize, value as u8);
        self.offs += 1;
        false
    }

    fn write_byte_at_end(&mut self, value: u32) -> (full: bool)
        requires
            old(self)@.core_wf(),
        ensures
            full == (old(self)@.offs + old(self)@.end_offs >= old(self)@.storage),
            final(self)@ == (EncState {
                error: old(self)@.error,
                ..enc_put_byte_at_end(old(self)@, value)
            }),
    {
        if self.offs + self.end_offs >= self.storage {
            return true;
        }
        self.end_offs += 1;
        self.buf.set((self.storage - self.end_offs) as usize, value as u8);
        false
    }

    fn carry_out(&mut self, c: i32)
        requires
            old(self)@.core_wf(),
            0 <= c < 512,
            old(self)@.ext < u32::MAX,
        ensures
            final(self)@ == enc_carry_out(old(self)@, c as int),
            final(self)@.core_wf(),
            final(self)@.ext <= old(self)@.ext + 1,
            final(self)@.storage == old(self)@.storage,
            final(self)@.end_window == old(self)@.end_window,
            final(self)@.nend_bits == old(self)@.nend_bits,
            final(self)@.nbits_total == old(self)@.nbits_total,
            final(self)@.rng == old(self)@.rng,
            final(self)@.val == old(self)@.val,
    {
        proof {
            lemma_symbol_split(c);
        }
        if c as u32 != EC_SYM_MAX {
            let carry = c >> EC_SYM_BITS;
            if self.rem >= 0 {
                let byte = (self.rem + carry) as u32;
                let e = self.write_byte(byte);
                self.error = self.error || e;
            }
            let ghost s1 = self@;
            if self.ext > 0 {
                let sym = (EC_SYM_MAX.wrapping_add(carry as u32)) & EC_SYM_MAX;
                let mut pending = self.ext;
                loop
                    invariant_except_break
                        pending > 0,
                        enc_put_repeat(self@, sym, pending as nat) == enc_put_repeat(s1, sym, s1.ext as nat),
                    invariant
                        self@.core_wf(),
                        self.ext == s1.ext,
                        sym == (if carry == 0 { 255u32 } else { 0u32 }),
                    ensures
                        self@ == enc_put_repeat(s1, sym, s1.ext as nat),
                    decreases pending,
                {
                    let ghost before = self@;
                    let e = self.write_byte(sym);
                    self.error = self.error || e;
                    assert(self@ == enc_put_byte(before, sym));
                    assert(enc_put_repeat(before, sym, pending as nat) == enc_put_repeat(
                        self@,
                        sym,
                        (pending - 1) as nat,
                    ));
                    pending -= 1;
                    if pending == 0 {
                        break;
                    }
                }
                proof {
                    lemma_put_repeat_frame(s1, sym, s1.ext as nat);
                }
                self.ext = 0;
            }
            self.rem = c & EC_SYM_MAX as i32;
        } else {
            self.ext += 1;
        }
    }
}

} // verus!

verus! {

/// The state between narrowing the interval and renormalising it.
pub open spec fn enc_pre_norm(s: EncState) -> bool {
    &&& s.core_wf()
    &&& 0 < s.rng <= EC_CODE_TOP
    &&& s.val + s.rng <= 0x1_0000_0000
    &&& 8 * s.ext + 33 <= s.nbits_total <= EC_NBITS_LIMIT - 24
}

impl RangeEncoder {
    fn normalize(&mut self)
        requires
            enc_pre_norm(old(self)@),
        ensures
            final(self)@ == enc_normalize(old(self)@),
            final(self)@.wf(),
            old(self)@.nbits_total <= final(self)@.nbits_total <= old(self)@.nbits_total + 24,
            final(self)@.storage == old(self)@.storage,
    {
        let ghost s0 = self@;
        let ghost mut i: int = 0;
        while self.rng <= EC_CODE_BOT
            invariant
                self@.core_wf(),
                0 < self.rng <= EC_CODE_TOP,
                self.val + self.rng <= 0x1_0000_0000,
                8 * self.ext + 33 <= self.nbits_total,
                enc_normalize(self@) == enc_normalize(s0),
                self.nbits_total == s0.nbits_total + 8 * i,
                0 <= i <= 3,
                i >= 1 ==> self.rng >= 256,
                i >= 2 ==> self.rng >= 0x1_0000,
                i >= 3 ==> self.rng > EC_CODE_BOT,
                s0.nbits_total <= EC_NBITS_LIMIT - 24,
                self.storage == s0.storage,
            decreases enc_normalize_measure(self@),
        {
            let ghost before = self@;
            proof {
                lemma_shift_out(self.val, self.rng);
            }
            self.carry_out((self.val >> EC_CODE_SHIFT) as i32);
            self.val = (self.val << EC_SYM_BITS) & (EC_CODE_TOP - 1);
            self.rng = self.rng << EC_SYM_BITS;
            self.nbits_total += EC_SYM_BITS as i32;
            proof {
                i = i + 1;
                assert(self@ == (EncState {
                    val: ((before.val % 0x80_0000) * 256) as u32,
                    rng: (before.rng * 256) as u32,
                    nbits_total: (before.nbits_total + 8) as i32,
                    ..enc_carry_out(before, (before.val / 0x80_0000) as int)
                }));
            }
        }
    }

    /// Encodes a symbol with cumulative frequencies `[fl, fh)` of total `ft`.
    pub fn encode(&mut self, fl: u32, fh: u32, ft: u32)
        requires
            old(self)@.wf(),
            old(self)@.has_room(),
            fl < fh <= ft,
            ft <= EC_CODE_BOT,
        ensures
            final(self)@ == enc_encode_spec(old(self)@, fl as int, fh as int, ft as int),
            final(self)@.wf(),
            old(self)@.nbits_total <= final(self)@.nbits_total <= old(self)@.nbits_total + 24,
            final(self)@.storage == old(self)@.storage,
            final(self)@.offs >= old(self)@.offs,
            final(self)@.tell_frac() >= old(self)@.tell_frac(),
    {
        let ghost rng0 = self.rng;
        let r = self.rng / ft;
        proof {
            lemma_narrow_bounds(self.rng as int, ft as int, fl as int, fh as int);
        }
        if fl > 0 {
            self.val = self.val + (self.rng - r * (ft - fl));
            self.rng = r * (fh - fl);
        } else {
            self.rng = self.rng - r * (ft - fh);
        }
        proof {
            lemma_normalize_forward(self@, rng0);
        }
        self.normalize();
    }

    /// Encodes a symbol with total frequency `1 << bits`.
    pub fn encode_bin(&mut self, fl: u32, fh: u32, bits: u32)
        requires
            old(self)@.wf(),
            old(self)@.has_room(),
            bits <= 23,
            fl < fh <= pow2(bits as nat),
        ensures
            final(self)@ == enc_encode_spec(
                old(self)@,
                fl as int,
                fh as int,
                pow2(bits as nat) as int,
            ),
            final(self)@.wf(),
            old(self)@.nbits_total <= final(self)@.nbits_total <= old(self)@.nbits_total + 24,
            final(self)@.storage == old(self)@.storage,
            final(self)@.offs >= old(self)@.offs,
            final(self)@.tell_frac() >= old(self)@.tell_frac(),
    {
        let ghost rng0 = self.rng;
        proof {
            lemma2_to64();
            lemma_pow2_pos(bits as nat);
            lemma_pow2_strictly_increases(bits as nat, 24);
            lemma_u32_shl_is_mul(1, bits);
            lemma_u32_shr_is_div(self.rng, bits);
        }
        let ft = 1u32 << bits;
        let r = self.rng >> bits;
        proof {
            lemma_narrow_bounds(self.rng as int, ft as int, fl as int, fh as int);
        }
        if fl > 0 {
            self.val = self.val + (self.rng - r * (ft - fl));
            self.rng = r * (fh - fl);
        } else {
            self.rng = self.rng - r * (ft - fh);
        }
        proof {
            lemma_normalize_forward(self@, rng0);
        }
        self.normalize();
    }

    /// Encodes one bit with probability of a one equal to `1/(1<<logp)`.
    pub fn enc_bit_logp(&mut self, val: bool, logp: u32)
        requires
            old(self)@.wf(),
            old(self)@.has_room(),
            1 <= logp <= 23,
        ensures
            final(self)@ == enc_bit_logp_spec(old(self)@, val, logp as nat),
            final(self)@.wf(),
            old(self)@.nbits_total <= final(self)@.nbits_total <= old(self)@.nbits_total + 24,
            final(self)@.storage == old(self)@.storage,
            final(self)@.offs >= old(self)@.offs,
            final(self)@.tell_frac() >= old(self)@.tell_frac(),
    {
        let ghost rng0 = self.rng;
        let r = self.rng;
        let l = self.val;
        proof {
            lemma_u32_shr_is_div(r, logp);
            lemma_pow2_strictly_increases(logp as nat, 24);
            lemma_pow2_pos(logp as nat);
            lemma2_to64();
            lemma_logp_split(r as int, pow2(logp as nat) as int);
        }
        let s = r >> logp;
        let r = r - s;
        if val {
            self.val = l + r;
        }
        self.rng = if val {
            s
        } else {
            r
        };
        proof {
            lemma_normalize_forward(self@, rng0);
        }
        self.normalize();
    }

    /// Encodes symbol `s` against an inverse-CDF table with `ftb`-bit total.
    pub fn enc_icdf(&mut self, s: usize, icdf: &[u8], ftb: u32)
        requires
            old(self)@.wf(),
            old(self)@.has_room(),
            ftb <= 23,
            s < icdf@.len(),
            s == 0 ==> icdf@[0] < pow2(ftb as nat),
            s > 0 ==> icdf@[s - 1] <= pow2(ftb as nat) && icdf@[s - 1] > icdf@[s as int],
        ensures
            final(self)@ == enc_icdf_spec(old(self)@, s as int, icdf@, ftb as nat),
            final(self)@.wf(),
            old(self)@.nbits_total <= final(self)@.nbits_total <= old(self)@.nbits_total + 24,
            final(self)@.storage == old(self)@.storage,
            final(self)@.offs >= old(self)@.offs,
            final(self)@.tell_frac() >= old(self)@.tell_frac(),
    {
        let ghost rng0 = self.rng;
        proof {
            lemma_u32_shr_is_div(self.rng, ftb);
            lemma_pow2_strictly_increases(ftb as nat, 24);
            lemma_pow2_pos(ftb as nat);
            lemma2_to64();
        }
        let r = self.rng >> ftb;
        if s > 0 {
            let prev = icdf[s - 1] as u32;
            proof {
                lemma_narrow_bounds(
                    self.rng as int,
                    pow2(ftb as nat) as int,
                    pow2(ftb as nat) - prev,
                    pow2(ftb as nat) - icdf@[s as int],
                );
            }
            self.val = self.val + (self.rng - r * prev);
            self.rng = r * (prev - icdf[s] as u32);
        } else {
            proof {
                lemma_narrow_bounds(
                    self.rng as int,
                    pow2(ftb as nat) as int,
                    0,
                    pow2(ftb as nat) - icdf@[0],
                );
            }
            self.rng = self.rng - r * (icdf[s] as u32);
        }
        proof {
            lemma_normalize_forward(self@, rng0);
        }
        self.normalize();
    }
}

/// Bounds behind narrowing the interval `[0, rng)` to `[fl, fh)` of `ft`.
proof fn lemma_narrow_bounds(rng: int, ft: int, fl: int, fh: int)
    requires
        EC_CODE_BOT < rng,
        0 < ft <= EC_CODE_BOT,
        0 <= fl < fh <= ft,
    ensures
        rng / ft >= 1,
        (rng / ft) * ft <= rng,
        (rng / ft) * (ft - fl) <= rng,
        (rng / ft) * (fh - fl) >= 1,
        (rng / ft) * (fh - fl) <= (rng / ft) * (ft - fl),
        rng - (rng / ft) * (ft - fh) >= 1,
        (rng / ft) * (ft - fh) <= (rng / ft) * (ft - fl),
{
    let r = rng / ft;
    vstd::arithmetic::div_mod::lemma_fundamental_div_mod(rng, ft);
    vstd::arithmetic::div_mod::lemma_div_is_ordered(ft, rng, ft);
    vstd::arithmetic::div_mod::lemma_div_by_self(ft);
    assert(r * (ft - fl) <= r * ft) by (nonlinear_arith)
        requires
            r >= 1,
            0 <= fl,
            fl <= ft,
    ;
    assert(r * (fh - fl) >= 1) by (nonlinear_arith)
        requires
            r >= 1,
            fh - fl >= 1,
    ;
    assert(r * (fh - fl) <= r * (ft - fl)) by (nonlinear_arith)
        requires
            r >= 1,
            fh <= ft,
    ;
    assert(r * (ft - fh) <= r * (ft - fl)) by (nonlinear_arith)
        requires
            r >= 1,
            fl <= fh,
    ;
    assert(r * (ft - fh) <= r * (ft - 1)) by (nonlinear_arith)
        requires
            r >= 1,
            1 <= fh,
    ;
    assert(r * ft == r * (ft - 1) + r) by (nonlinear_arith);
    assert(r * ft == ft * r) by (nonlinear_arith);
}

proof fn lemma_logp_split(r: int, p: int)
    requires
        EC_CODE_BOT < r,
        2 <= p <= EC_CODE_BOT,
    ensures
        r / p >= 1,
        r - r / p >= 1,
{
    vstd::arithmetic::div_mod::lemma_div_is_ordered(p, r, p);
    vstd::arithmetic::div_mod::lemma_div_by_self(p);
    vstd::arithmetic::div_mod::lemma_fundamental_div_mod(r, p);
    assert(p * (r / p) >= 2 * (r / p)) by (nonlinear_arith)
        requires
            p >= 2,
            r / p >= 1,
    ;
}

} // verus!

verus! {

proof fn lemma_byte_split(w: u32)
    ensures
        w & 255u32 == w % 256,
        w >> 8u32 == w / 256,
{
    assert(w & 255u32 == w % 256) by (bit_vector);
    assert(w >> 8u32 == w / 256) by (bit_vector);
}

pub proof fn lemma_put_byte_at_end_frame(s: EncState, value: u32)
    requires
        s.core_wf(),
    ensures
        ({
            let t = enc_put_byte_at_end(s, value);
            &&& t.core_wf()
            &&& t.offs == s.offs
            &&& t.storage == s.storage
            &&& t.nbits_total == s.nbits_total
            &&& t.rng == s.rng
            &&& t.val == s.val
            &&& t.ext == s.ext
            &&& t.rem == s.rem
            &&& t.end_window == s.end_window
            &&& t.nend_bits == s.nend_bits
        }),
{
}

pub proof fn lemma_flush_end_frame(s: EncState, window: u32, used: int)
    requires
        s.core_wf(),
    ensures
        ({
            let (t, w, u) = enc_flush_end(s, window, used);
            &&& t.core_wf()
            &&& t.offs == s.offs
            &&& t.storage == s.storage
            &&& t.nbits_total == s.nbits_total
            &&& t.rng == s.rng
            &&& t.val == s.val
            &&& t.ext == s.ext
            &&& t.rem == s.rem
            &&& t.end_window == s.end_window
            &&& t.nend_bits == s.nend_bits
            &&& (used >= 8 ==> 0 <= u < 8)
            &&& (used < 8 ==> u == used)
        }),
    decreases (if used > 0 { used } else { 0 }),
{
    if used >= 8 {
        lemma_flush_end_frame(enc_put_byte_at_end(s, window % 256), window / 256, used - 8);
    }
}

impl RangeEncoder {
    /// Encodes `bits` raw bits, buffered at the end of the stream.
    #[verifier::spinoff_prover]
    pub fn enc_bits(&mut self, fl: u32, bits: u32)
        requires
            old(self)@.wf(),
            old(self)@.nbits_total + bits <= EC_NBITS_LIMIT,
            1 <= bits <= 25,
        ensures
            final(self)@ == enc_bits_spec(old(self)@, fl, bits),
            final(self)@.wf(),
            final(self)@.nbits_total == old(self)@.nbits_total + bits,
            final(self)@.storage == old(self)@.storage,
            final(self)@.offs >= old(self)@.offs,
            final(self)@.tell_frac() >= old(self)@.tell_frac(),
    {
        let ghost s0 = self@;
        let mut window = self.end_window;
        let mut used = self.nend_bits;
        if used as u32 + bits > EC_WINDOW_SIZE {
            let ghost s_first = self@;
            loop
                invariant_except_break
                    used >= 8,
                invariant
                    self@.core_wf(),
                    self@.storage == s0.storage,
                    self@.nbits_total == s0.nbits_total,
                    self@.rng == s0.rng,
                    self@.val == s0.val,
                    self@.ext == s0.ext,
                    self@.end_window == s0.end_window,
                    self@.nend_bits == s0.nend_bits,
                    self@.offs == s0.offs,
                    enc_flush_end(self@, window, used as int) == enc_flush_end(
                        s0,
                        s0.end_window,
                        s0.nend_bits as int,
                    ),
                ensures
                    0 <= used < 8,
                    self@.core_wf(),
                    self@.storage == s0.storage,
                    self@.nbits_total == s0.nbits_total,
                    self@.rng == s0.rng,
                    self@.val == s0.val,
                    self@.ext == s0.ext,
                    self@.offs == s0.offs,
                    (self@, window, used as int) == enc_flush_end(
                        s0,
                        s0.end_window,
                        s0.nend_bits as int,
                    ),
                decreases used,
            {
                let ghost before = self@;
                proof {
                    lemma_byte_split(window);
                    lemma_put_byte_at_end_frame(before, window % 256);
                }
                let e = self.write_byte_at_end(window & EC_SYM_MAX);
                self.error = self.error || e;
                assert(self@ == enc_put_byte_at_end(before, window % 256));
                window >>= EC_SYM_BITS;
                used -= EC_SYM_BITS as i32;
                if used < EC_SYM_BITS as i32 {
                    assert(enc_flush_end(self@, window, used as int) == (self@, window, used as int));
                    break;
                }
            }
        }
        proof {
            if !(s0.nend_bits + bits > 32) {
                assert(used == s0.nend_bits);
            } else {
                assert(enc_flush_end(s0, s0.end_window, s0.nend_bits as int) == enc_flush_end(
                    enc_put_byte_at_end(s0, s0.end_window % 256),
                    s0.end_window / 256,
                    s0.nend_bits - 8,
                ));
            }
        }
        window |= fl << used;
        used += bits as i32;
        self.end_window = window;
        self.nend_bits = used;
        self.nbits_total += bits as i32;
    }

    /// Encodes a raw unsigned integer in `[0, ft)`.
    pub fn enc_uint(&mut self, fl: u32, ft: u32)
        requires
            old(self)@.wf(),
            old(self)@.has_room(),
            1 < ft,
            fl < ft,
        ensures
            final(self)@ == enc_uint_spec(old(self)@, fl, ft),
            final(self)@.wf(),
            old(self)@.nbits_total <= final(self)@.nbits_total <= old(self)@.nbits_total + 48,
            final(self)@.storage == old(self)@.storage,
            final(self)@.offs >= old(self)@.offs,
            final(self)@.tell_frac() >= old(self)@.tell_frac(),
    {
        let ft = ft - 1;
        let ftb = ec_ilog(ft);
        if ftb > EC_UINT_BITS {
            let ftb = ftb - EC_UINT_BITS;
            proof {
                lemma2_to64();
                lemma_pow2_pos(ftb as nat);
                lemma_u32_shr_is_div(ft, ftb);
                lemma_u32_shr_is_div(fl, ftb);
                lemma_pow2_strictly_increases(ftb as nat, 32);
                lemma_u32_shl_is_mul(1, ftb);
                lemma_ilog_bounds(ft as nat);
                vstd::arithmetic::div_mod::lemma_div_is_ordered(fl as int, ft as int, pow2(ftb as nat) as int);
                lemma_pow2_adds(ftb as nat, 8);
                lemma_pow2_adds((ftb - 1) as nat, 8);
                vstd::arithmetic::div_mod::lemma_multiply_divide_lt(ft as int, pow2(ftb as nat) as int, 256);
            }
            let ftn = (ft >> ftb) + 1;
            let fln = fl >> ftb;
            self.encode(fln, fln + 1, ftn);
            proof {
                lemma_low_mask(fl, ftb);
            }
            self.enc_bits(fl & ((1u32 << ftb) - 1), ftb);
        } else {
            proof {
                lemma_ilog_bounds(ft as nat);
                lemma2_to64();
                if ilog(ft as nat) < 8 {
                    lemma_pow2_strictly_increases(ilog(ft as nat), 8);
                }
            }
            self.encode(fl, fl + 1, ft + 1);
        }
    }
}

proof fn lemma_low_mask(fl: u32, b: u32)
    requires
        1 <= b < 32,
    ensures
        fl & (((1u32 << b) - 1) as u32) == fl as nat % pow2(b as nat),
{
    lemma_u32_low_bits_mask_is_mod(fl, b as nat);
    lemma2_to64();
    lemma_pow2_pos(b as nat);
    lemma_pow2_strictly_increases(b as nat, 32);
    lemma_u32_shl_is_mul(1, b);
}

} // verus!

verus! {

/// Flushes the top symbols of the final codeword `end` while `l > 0` bits of
/// it remain significant; returns the state and the final (non-positive) `l`.
pub open spec fn enc_done_carry(s: EncState, end: u32, l: int) -> (EncState, int)
    decreases (if l > 0 { l } else { 0 }),
{
    if l > 0 {
        enc_done_carry(
            enc_carry_out(s, (end / 0x80_0000) as int),
            ((end % 0x80_0000) * 256) as u32,
            l - 8,
        )
    } else {
        (s, l)
    }
}

/// The buffer [`RangeEncoder::done`] returns: the shortest codeword inside the
/// final interval is flushed through the carry logic, the raw-bits window is
/// flushed to the back, the unused middle is zeroed and a partial raw byte is
/// merged into the last free byte.
pub open spec fn enc_done_spec(s: EncState) -> Seq<u8> {
    let l0: int = 32 - ilog(s.rng as nat);
    let msk0: u32 = 0x7fff_ffffu32 >> (l0 as u32);
    let end0: u32 = (((s.val + msk0) % 0x1_0000_0000) as u32) & !msk0;
    let top: u32 = ((s.val + s.rng) % 0x1_0000_0000) as u32;
    let (l1, end1) = if (end0 | msk0) >= top {
        let msk1 = msk0 >> 1u32;
        (l0 + 1, (((s.val + msk1) % 0x1_0000_0000) as u32) & !msk1)
    } else {
        (l0, end0)
    };
    let (s1, lf) = enc_done_carry(s, end1, l1);
    let s2 = if s1.rem >= 0 || s1.ext > 0 {
        enc_carry_out(s1, 0)
    } else {
        s1
    };
    let (s3, window, used) = enc_flush_end(s2, s2.end_window, s2.nend_bits as int);
    if s3.error {
        s3.buf
    } else {
        let cleared = Seq::new(
            s3.storage as nat,
            |i: int|
                if s3.offs <= i < s3.storage - s3.end_offs {
                    0u8
                } else {
                    s3.buf[i]
                },
        );
        if used > 0 && s3.end_offs < s3.storage {
            let ll = -lf;
            let w = if s3.offs + s3.end_offs >= s3.storage && ll < used {
                window & (((1u32 << (ll as u32)) - 1) as u32)
            } else {
                window
            };
            let idx = s3.storage - s3.end_offs - 1;
            cleared.update(idx, cleared[idx] | (w as u8))
        } else {
            cleared
        }
    }
}

proof fn lemma_wrap_add(x: u32, y: u32)
    ensures
        x.wrapping_add(y) == (x + y) as u32,
{
    assert((x + y) as u32 == if x + y > 0xffff_ffff {
        (x + y - 0x1_0000_0000) as u32
    } else {
        (x + y) as u32
    }) by (bit_vector);
}

proof fn lemma_done_wrap(a: u32, b: u32)
    ensures
        a.wrapping_add(b) == ((a + b) % 0x1_0000_0000) as u32,
{
}

impl RangeEncoder {
    /// Finalizes the stream and returns the encoded buffer.
    pub fn done(self) -> (res: Vec<u8>)
        requires
            self@.wf(),
        ensures
            res@ == enc_done_spec(self@),
            res@.len() == self@.storage,
    {
        let mut st = self;
        let ghost s0 = st@;
        proof {
            lemma2_to64();
            lemma_ilog_monotone(EC_CODE_BOT as nat + 1, st.rng as nat);
            lemma_ilog_unique(EC_CODE_BOT as nat + 1, 24);
            lemma_ilog_monotone(st.rng as nat, EC_CODE_TOP as nat);
            lemma_ilog_unique(EC_CODE_TOP as nat, 32);
            lemma_done_wrap(st.val, st.rng);
        }
        let mut l: i32 = EC_CODE_BITS as i32 - ec_ilog(st.rng) as i32;
        let mut msk: u32 = (EC_CODE_TOP - 1) >> l;
        proof {
            lemma_done_wrap(st.val, msk);
        }
        let mut end: u32 = st.val.wrapping_add(msk) & !msk;
        if (end | msk) >= st.val.wrapping_add(st.rng) {
            l += 1;
            msk >>= 1;
            proof {
                lemma_done_wrap(st.val, msk);
            }
            end = st.val.wrapping_add(msk) & !msk;
        }
        let ghost l1 = l as int;
        let ghost end1 = end;
        while l > 0
            invariant
                st@.core_wf(),
                st@.storage == s0.storage,
                st@.ext <= s0.ext + (9 - l) / 8,
                8 * s0.ext + 33 <= s0.nbits_total <= EC_NBITS_LIMIT,
                -8 < l <= 9,
                enc_done_carry(st@, end, l as int) == enc_done_carry(s0, end1, l1),
            decreases l + 8,
        {
            let ghost before = st@;
            proof {
                lemma_shift_out(end, 0);
            }
            st.carry_out((end >> EC_CODE_SHIFT) as i32);
            end = (end << EC_SYM_BITS) & (EC_CODE_TOP - 1);
            l -= EC_SYM_BITS as i32;
        }
        let ghost lf = l as int;
        let ghost s1 = st@;
        assert(enc_done_carry(s0, end1, l1) == (s1, lf));
        if st.rem >= 0 || st.ext > 0 {
            st.carry_out(0);
        }
        let ghost s2 = st@;
        let mut window = st.end_window;
        let mut used = st.nend_bits;
        while used >= EC_SYM_BITS as i32
            invariant
                st@.core_wf(),
                st@.storage == s0.storage,
                0 <= used <= 32,
                enc_flush_end(st@, window, used as int) == enc_flush_end(
                    s2,
                    s2.end_window,
                    s2.nend_bits as int,
                ),
            decreases used,
        {
            let ghost before = st@;
            proof {
                lemma_byte_split(window);
            }
            let e = st.write_byte_at_end(window & EC_SYM_MAX);
            st.error = st.error || e;
            assert(st@ == enc_put_byte_at_end(before, window % 256));
            window >>= EC_SYM_BITS;
            used -= EC_SYM_BITS as i32;
        }
        let ghost s3 = st@;
        assert(enc_flush_end(s2, s2.end_window, s2.nend_bits as int) == (s3, window, used as int));
        if !st.error {
            let clear_from = st.offs as usize;
            let clear_to = (st.storage - st.end_offs) as usize;
            let mut i = clear_from;
            while i < clear_to
                invariant
                    clear_from <= i <= clear_to,
                    clear_from == s3.offs,
                    clear_to == s3.storage - s3.end_offs,
                    st@ == (EncState { buf: st@.buf, ..s3 }),
                    st.buf@.len() == s3.storage,
                    forall|j: int|
                        0 <= j < s3.storage ==> #[trigger] st.buf@[j] == (if clear_from <= j < i {
                            0u8
                        } else {
                            s3.buf[j]
                        }),
                decreases clear_to - i,
            {
                st.buf.set(i, 0);
                i += 1;
            }
            let ghost cleared = st.buf@;
            assert(cleared =~= Seq::new(
                s3.storage as nat,
                |j: int|
                    if s3.offs <= j < s3.storage - s3.end_offs {
                        0u8
                    } else {
                        s3.buf[j]
                    },
            ));
            if used > 0 {
                if st.end_offs >= st.storage {
                    st.error = true;
                } else {
                    l = -l;
                    if st.offs + st.end_offs >= st.storage && l < used {
                        let sh = l as u32;
                        proof {
                            lemma_pow2_pos(sh as nat);
                            lemma_pow2_strictly_increases(sh as nat, 8);
                            lemma_u32_shl_is_mul(1, sh);
                        }
                        window &= (1u32 << sh) - 1;
                        st.error = true;
                    }
                    let idx = (st.storage - st.end_offs - 1) as usize;
                    let b = st.buf[idx];
                    st.buf.set(idx, b | (window as u8));
                }
            }
        }
        st.buf
    }
}

} // verus!

verus! {

/// The modelled state of a [`RangeDecoder`].
pub struct DecState {
    pub buf: Seq<u8>,
    pub storage: u32,
    pub end_offs: u32,
    pub end_window: u32,
    pub nend_bits: i32,
    pub nbits_total: i32,
    pub offs: u32,
    pub rng: u32,
    pub val: u32,
    pub ext: u32,
    pub rem: i32,
    pub error: bool,
}

impl DecState {
    pub open spec fn core_wf(self) -> bool {
        &&& self.buf.len() == self.storage
        &&& self.offs <= self.storage
        &&& self.end_offs <= self.storage
        &&& 0 <= self.rem <= 255
        &&& 0 <= self.nend_bits <= 32
    }

    /// The invariant every decoder keeps between calls.
    pub open spec fn wf(self) -> bool {
        &&& self.core_wf()
        &&& EC_CODE_BOT < self.rng <= EC_CODE_TOP
        &&& 33 <= self.nbits_total <= EC_NBITS_LIMIT
    }

    pub open spec fn has_room(self) -> bool {
        self.nbits_total <= EC_NBITS_LIMIT - EC_STEP_BITS
    }

    pub open spec fn tell(self) -> int {
        tell_spec(self.nbits_total as int, self.rng)
    }

    pub open spec fn tell_frac(self) -> int {
        tell_frac_spec(self.nbits_total as int, self.rng)
    }

    /// The last `decode` step fixed the scale for a total of `ft`.
    pub open spec fn scaled_for(self, ft: int) -> bool {
        ft > 0 && self.ext == self.rng as int / ft
    }
}

/// Reads the next range-coded byte from the front (zero past the end).
pub open spec fn dec_read_byte(s: DecState) -> (DecState, int) {
    if s.offs < s.storage {
        (DecState { offs: (s.offs + 1) as u32, ..s }, s.buf[s.offs as int] as int)
    } else {
        (s, 0)
    }
}

/// Reads the next raw-bits byte from the back (zero past the front).
pub open spec fn dec_read_byte_from_end(s: DecState) -> (DecState, int) {
    if s.end_offs < s.storage {
        (
            DecState { end_offs: (s.end_offs + 1) as u32, ..s },
            s.buf[s.storage - s.end_offs - 1] as int,
        )
    } else {
        (s, 0)
    }
}

pub open spec fn dec_normalize_measure(s: DecState) -> int {
    if s.rng > EC_CODE_BOT {
        0
    } else {
        EC_CODE_BOT + 1 - s.rng
    }
}

/// Renormalisation: scale the range by 256 and shift the next (inverted)
/// input symbol into the low end of `val`.
pub open spec fn dec_normalize(s: DecState) -> DecState
    decreases dec_normalize_measure(s),
{
    if 0 < s.rng <= EC_CODE_BOT {
        let (s1, byte) = dec_read_byte(s);
        let sym = (s.rem * 256 + byte) / 2;
        dec_normalize(
            DecState {
                nbits_total: (s.nbits_total + 8) as i32,
                rng: (s.rng * 256) as u32,
                rem: byte as i32,
                val: ((s.val * 256 + 255 - sym % 256) % 0x8000_0000) as u32,
                ..s1
            },
        )
    } else {
        s
    }
}

/// The state right after construction over `buf`.
pub open spec fn dec_new_spec(buf: Seq<u8>) -> DecState {
    let s0 = DecState {
        buf,
        storage: buf.len() as u32,
        end_offs: 0,
        end_window: 0,
        nend_bits: 0,
        nbits_total: 9,
        offs: 0,
        rng: 128,
        val: 0,
        ext: 0,
        rem: 0,
        error: false,
    };
    let (s1, byte) = dec_read_byte(s0);
    dec_normalize(DecState { rem: byte as i32, val: (127 - byte / 2) as u32, ..s1 })
}

/// `decode(ft)`: the cumulative frequency the next symbol falls at.
pub open spec fn dec_decode_spec(s: DecState, ft: int) -> (DecState, int) {
    let ext = s.rng as int / ft;
    let q = s.val as int / ext;
    (DecState { ext: ext as u32, ..s }, ft - if q + 1 < ft { q + 1 } else { ft })
}

/// `dec_update`: steps past the symbol `[fl, fh)` of total `ft`.
pub open spec fn dec_update_spec(s: DecState, fl: int, fh: int, ft: int) -> DecState {
    let sub = s.ext * (ft - fh);
    dec_normalize(
        DecState {
            val: ((s.val - sub) % 0x1_0000_0000) as u32,
            rng: (if fl > 0 {
                s.ext * (fh - fl)
            } else {
                s.rng - sub
            }) as u32,
            ..s
        },
    )
}

pub open spec fn dec_bit_logp_spec(s: DecState, logp: nat) -> (DecState, bool) {
    let small = s.rng as nat / pow2(logp);
    let ret = s.val < small;
    (
        dec_normalize(
            if ret {
                DecState { rng: small as u32, ..s }
            } else {
                DecState { val: (s.val - small) as u32, rng: (s.rng - small) as u32, ..s }
            },
        ),
        ret,
    )
}

/// The first table index whose scaled threshold is at most `d`.
pub open spec fn icdf_search(icdf: Seq<u8>, r: nat, d: nat, i: nat) -> nat
    decreases icdf.len() - i,
{
    if i >= icdf.len() || r * icdf[i as int] <= d {
        i
    } else {
        icdf_search(icdf, r, d, i + 1)
    }
}

pub open spec fn dec_icdf_spec(s: DecState, icdf: Seq<u8>, ftb: nat) -> (DecState, nat) {
    let r = s.rng as nat / pow2(ftb);
    let k = icdf_search(icdf, r, s.val as nat, 0);
    let t: int = if k == 0 {
        s.rng as int
    } else {
        r * icdf[k - 1]
    };
    let lo = r * icdf[k as int];
    (dec_normalize(DecState { val: (s.val - lo) as u32, rng: (t - lo) as u32, ..s }), k)
}

/// Pulls bytes from the back into the raw-bits window until it holds more
/// than 24 bits.
pub open spec fn dec_fill_window(s: DecState, window: u32, available: int) -> (DecState, u32, int)
    decreases 32 - available,
{
    if available > 24 || available < 0 {
        (s, window, available)
    } else {
        let (s1, byte) = dec_read_byte_from_end(s);
        dec_fill_window(s1, window | ((byte as u32) << (available as u32)), available + 8)
    }
}

pub open spec fn dec_bits_spec(s: DecState, bits: u32) -> (DecState, u32) {
    let (s1, w1, a1) = if s.nend_bits < bits {
        dec_fill_window(s, s.end_window, s.nend_bits as int)
    } else {
        (s, s.end_window, s.nend_bits as int)
    };
    let ret = w1 as nat % pow2(bits as nat);
    (
        DecState {
            end_window: (w1 as nat / pow2(bits as nat)) as u32,
            nend_bits: (a1 - bits) as i32,
            nbits_total: (s1.nbits_total + bits) as i32,
            ..s1
        },
        ret as u32,
    )
}

pub open spec fn dec_uint_spec(s: DecState, ft: u32) -> (DecState, u32) {
    let ftm = (ft - 1) as nat;
    let ftb = ilog(ftm);
    if ftb > 8 {
        let sh = (ftb - 8) as nat;
        let ftn = ftm / pow2(sh) + 1;
        let (s1, v) = dec_decode_spec(s, ftn as int);
        let s2 = dec_update_spec(s1, v, v + 1, ftn as int);
        let (s3, low) = dec_bits_spec(s2, sh as u32);
        let t = v * pow2(sh) + low;
        if t <= ftm {
            (s3, t as u32)
        } else {
            (DecState { error: true, ..s3 }, ftm as u32)
        }
    } else {
        let (s1, v) = dec_decode_spec(s, ft as int);
        (dec_update_spec(s1, v, v + 1, ft as int), v as u32)
    }
}

} // verus!

verus! {

proof fn lemma_dec_symbol(sym0: i32, byte: i32, val: u32)
    requires
        0 <= sym0 <= 255,
        0 <= byte <= 255,
    ensures
        ((sym0 << 8u32) | byte) >> 1u32 == (sym0 * 256 + byte) / 2,
        ((val << 8u32) as u32 + (255u32 & !((((sym0 << 8u32) | byte) >> 1u32) as u32))) as u32
            & 0x7fff_ffffu32 == ((val * 256 + 255 - ((sym0 * 256 + byte) / 2) % 256)
            % 0x8000_0000) as u32,
{
    assert(0 <= sym0 <= 255 && 0 <= byte <= 255 ==> ((sym0 << 8u32) | byte) >> 1u32 == (sym0
        * 256 + byte) / 2) by (bit_vector);
    let sym: u32 = (((sym0 << 8u32) | byte) >> 1u32) as u32;
    assert(((val << 8u32) as u32 + (255u32 & !sym)) as u32 & 0x7fff_ffffu32 == ((val * 256 + 255
        - sym % 256) % 0x8000_0000) as u32) by (bit_vector);
}

/// Range decoder, equivalent to libopus `ec_dec`.
pub struct RangeDecoder<'a> {
    buf: &'a [u8],
    storage: u32,
    end_offs: u32,
    end_window: u32,
    nend_bits: i32,
    nbits_total: i32,
    offs: u32,
    rng: u32,
    val: u32,
    /// Saved normalization factor from the last `decode`.
    ext: u32,
    rem: i32,
    error: bool,
}

impl<'a> View for RangeDecoder<'a> {
    type V = DecState;

    closed spec fn view(&self) -> DecState {
        DecState {
            buf: self.buf@,
            storage: self.storage,
            end_offs: self.end_offs,
            end_window: self.end_window,
            nend_bits: self.nend_bits,
            nbits_total: self.nbits_total,
            offs: self.offs,
            rng: self.rng,
            val: self.val,
            ext: self.ext,
            rem: self.rem,
            error: self.error,
        }
    }
}

impl<'a> RangeDecoder<'a> {
    fn read_byte(&mut self) -> (b: i32)
        requires
            old(self)@.core_wf(),
        ensures
            (final(self)@, b as int) == dec_read_byte(old(self)@),
            0 <= b <= 255,
    {
        if self.offs < self.storage {
            let b = self.buf[self.offs as usize];
            self.offs += 1;
            b as i32
        } else {
            0
        }
    }

    fn read_byte_from_end(&mut self) -> (b: i32)
        requires
            old(self)@.core_wf(),
        ensures
            (final(self)@, b as int) == dec_read_byte_from_end(old(self)@),
            0 <= b <= 255,
    {
        if self.end_offs < self.storage {
            self.end_offs += 1;
            self.buf[(self.storage - self.end_offs) as usize] as i32
        } else {
            0
        }
    }

    fn normalize(&mut self)
        requires
            old(self)@.core_wf(),
            0 < old(self)@.rng <= EC_CODE_TOP,
            0 <= old(self)@.nbits_total <= EC_NBITS_LIMIT - 24,
        ensures
            final(self)@ == dec_normalize(old(self)@),
            final(self)@.core_wf(),
            EC_CODE_BOT < final(self)@.rng <= EC_CODE_TOP,
            old(self)@.nbits_total <= final(self)@.nbits_total <= old(self)@.nbits_total + 24,
            final(self)@.nbits_total >= old(self)@.nbits_total,
            final(self)@.storage == old(self)@.storage,
            final(self)@.buf == old(self)@.buf,
            final(self)@.ext == old(self)@.ext,
    {
        let ghost s0 = self@;
        let ghost mut i: int = 0;
        while self.rng <= EC_CODE_BOT
            invariant
                self@.core_wf(),
                0 < self.rng <= EC_CODE_TOP,
                dec_normalize(self@) == dec_normalize(s0),
                self.nbits_total == s0.nbits_total + 8 * i,
                0 <= i <= 3,
                i >= 1 ==> self.rng >= 256,
                i >= 2 ==> self.rng >= 0x1_0000,
                i >= 3 ==> self.rng > EC_CODE_BOT,
                0 <= s0.nbits_total <= EC_NBITS_LIMIT - 24,
                self.storage == s0.storage,
                self@.buf == s0.buf,
                self.ext == s0.ext,
            decreases dec_normalize_measure(self@),
        {
            let ghost before = self@;
            self.nbits_total += EC_SYM_BITS as i32;
            proof {
                lemma_shift_out(0, self.rng);
            }
            self.rng = self.rng << EC_SYM_BITS;
            let sym0 = self.rem;
            self.rem = self.read_byte();
            proof {
                lemma_dec_symbol(sym0, self.rem, self.val);
            }
            let sym = ((sym0 << EC_SYM_BITS | self.rem) >> (EC_SYM_BITS - EC_CODE_EXTRA)) as u32;
            let ghost v0 = self.val;
            proof {
                lemma_wrap_add(v0 << 8u32, 255u32 & !sym);
                assert(v0.wrapping_shl(8) == v0 << 8u32);
            }
            self.val = (self.val.wrapping_shl(EC_SYM_BITS).wrapping_add(EC_SYM_MAX & !sym)) & (
            EC_CODE_TOP - 1);
            proof {
                i = i + 1;
                let (s1, byte) = dec_read_byte(before);
                assert(byte == self.rem);
                assert(self@ == (DecState {
                    nbits_total: (before.nbits_total + 8) as i32,
                    rng: (before.rng * 256) as u32,
                    rem: byte as i32,
                    val: ((before.val * 256 + 255 - ((before.rem * 256 + byte) / 2) % 256)
                        % 0x8000_0000) as u32,
                    ..s1
                }));
            }
        }
    }

    /// A decoder reading the range-coded stream `buf`.
    pub fn new(buf: &'a [u8]) -> (res: Self)
        requires
            buf@.len() <= u32::MAX,
        ensures
            res@ == dec_new_spec(buf@),
            res@.wf(),
    {
        let storage = buf.len() as u32;
        proof {
            lemma2_to64();
            lemma_u32_shl_is_mul(1, 7);
        }
        let mut this = RangeDecoder {
            buf,
            storage,
            end_offs: 0,
            end_window: 0,
            nend_bits: 0,
            nbits_total: (EC_CODE_BITS + 1 - ((EC_CODE_BITS - EC_CODE_EXTRA) / EC_SYM_BITS)
                * EC_SYM_BITS) as i32,
            offs: 0,
            rng: 1u32 << EC_CODE_EXTRA,
            val: 0,
            ext: 0,
            rem: 0,
            error: false,
        };
        this.rem = this.read_byte();
        proof {
            let x: u32 = this.rem as u32;
            assert(x >> 1u32 == x / 2) by (bit_vector);
        }
        this.val = this.rng - 1 - (this.rem as u32 >> (EC_SYM_BITS - EC_CODE_EXTRA));
        this.normalize();
        proof {
            assert(this.nbits_total >= 33) by {
                reveal_with_fuel(dec_normalize, 4);
            }
        }
        this
    }
}

} // verus!

verus! {

impl<'a> RangeDecoder<'a> {
    /// `ec_tell`: bits consumed so far (rounded up to the next whole bit).
    pub fn ec_tell(&self) -> (res: i32)
        requires
            self@.wf(),
        ensures
            res == self@.tell(),
            1 <= res <= EC_NBITS_LIMIT,
    {
        proof {
            lemma2_to64();
            lemma_ilog_bounds(self.rng as nat);
            lemma_ilog_monotone(self.rng as nat, 0x8000_0000);
            lemma_ilog_unique(0x8000_0000, 32);
        }
        self.nbits_total - ec_ilog(self.rng) as i32
    }

    /// `ec_tell_frac`: bits consumed so far in eighth-of-a-bit resolution.
    pub fn ec_tell_frac(&self) -> (res: u32)
        requires
            self@.wf(),
        ensures
            res == self@.tell_frac(),
    {
        ec_tell_frac_impl(self.nbits_total, self.rng)
    }

    /// The current range register.
    pub fn rng(&self) -> (res: u32)
        ensures
            res == self@.rng,
    {
        self.rng
    }

    /// Total capacity of the backing buffer in bytes.
    pub fn storage(&self) -> (res: u32)
        ensures
            res == self@.storage,
    {
        self.storage
    }

    /// Total buffer capacity expressed in bits (`storage * 8`).
    pub fn storage_bits(&self) -> (res: u32)
        requires
            self@.storage * 8 <= u32::MAX,
        ensures
            res == self@.storage * 8,
    {
        self.storage * 8
    }

    /// Returns the cumulative frequency of the next symbol given total `ft`.
    pub fn decode(&mut self, ft: u32) -> (res: u32)
        requires
            old(self)@.wf(),
            1 <= ft <= EC_CODE_BOT / 2,
        ensures
            (final(self)@, res as int) == dec_decode_spec(old(self)@, ft as int),
            final(self)@.wf(),
            final(self)@.scaled_for(ft as int),
            res < ft,
    {
        proof {
            lemma_scale_at_least_two(self.rng as int, ft as int, self.val as int);
        }
        self.ext = self.rng / ft;
        let s = self.val / self.ext;
        ft - (s + 1).min(ft)
    }

    /// As [`decode`](Self::decode) with total frequency `1 << bits`.
    pub fn decode_bin(&mut self, bits: u32) -> (res: u32)
        requires
            old(self)@.wf(),
            bits <= 22,
        ensures
            (final(self)@, res as int) == dec_decode_spec(old(self)@, pow2(bits as nat) as int),
            final(self)@.wf(),
            final(self)@.scaled_for(pow2(bits as nat) as int),
            res < pow2(bits as nat),
    {
        proof {
            lemma2_to64();
            lemma_pow2_pos(bits as nat);
            lemma_pow2_strictly_increases(bits as nat, 23);
            lemma_u32_shl_is_mul(1, bits);
            lemma_u32_shr_is_div(self.rng, bits);
            lemma_scale_at_least_two(self.rng as int, pow2(bits as nat) as int, self.val as int);
        }
        self.ext = self.rng >> bits;
        let s = self.val / self.ext;
        (1u32 << bits) - (s + 1).min(1u32 << bits)
    }

    /// Advances past a symbol with cumulative frequencies `[fl, fh)`, total `ft`.
    pub fn dec_update(&mut self, fl: u32, fh: u32, ft: u32)
        requires
            old(self)@.wf(),
            old(self)@.has_room(),
            old(self)@.scaled_for(ft as int),
            fl < fh <= ft,
            ft <= EC_CODE_BOT / 2,
        ensures
            final(self)@ == dec_update_spec(old(self)@, fl as int, fh as int, ft as int),
            final(self)@.wf(),
            old(self)@.nbits_total <= final(self)@.nbits_total <= old(self)@.nbits_total + 24,
            final(self)@.storage == old(self)@.storage,
            final(self)@.buf == old(self)@.buf,
            final(self)@.tell_frac() >= old(self)@.tell_frac(),
    {
        let ghost rng0 = self.rng;
        proof {
            lemma_narrow_bounds(self.rng as int, ft as int, fl as int, fh as int);
        }
        let s = self.ext * (ft - fh);
        proof {
            lemma_wrap_sub(self.val, s);
        }
        self.val = self.val.wrapping_sub(s);
        self.rng = if fl > 0 {
            self.ext * (fh - fl)
        } else {
            self.rng - s
        };
        proof {
            lemma_dec_normalize_forward(self@, rng0);
        }
        self.normalize();
    }

    /// Decodes one bit with probability of a one equal to `1/(1<<logp)`.
    pub fn dec_bit_logp(&mut self, logp: u32) -> (res: bool)
        requires
            old(self)@.wf(),
            old(self)@.has_room(),
            1 <= logp <= 23,
        ensures
            (final(self)@, res) == dec_bit_logp_spec(old(self)@, logp as nat),
            final(self)@.wf(),
            old(self)@.nbits_total <= final(self)@.nbits_total <= old(self)@.nbits_total + 24,
            final(self)@.storage == old(self)@.storage,
            final(self)@.buf == old(self)@.buf,
            final(self)@.tell_frac() >= old(self)@.tell_frac(),
    {
        let ghost rng0 = self.rng;
        let r = self.rng;
        let d = self.val;
        proof {
            lemma_u32_shr_is_div(r, logp);
            lemma_pow2_strictly_increases(logp as nat, 24);
            lemma_pow2_pos(logp as nat);
            lemma2_to64();
            lemma_logp_split(r as int, pow2(logp as nat) as int);
        }
        let s = r >> logp;
        let ret = d < s;
        if !ret {
            self.val = d - s;
        }
        self.rng = if ret {
            s
        } else {
            r - s
        };
        proof {
            lemma_dec_normalize_forward(self@, rng0);
        }
        self.normalize();
        ret
    }
}

proof fn lemma_scale_at_least_two(rng: int, ft: int, val: int)
    requires
        EC_CODE_BOT < rng,
        1 <= ft <= EC_CODE_BOT / 2,
        0 <= val <= u32::MAX,
    ensures
        rng / ft >= 2,
        val / (rng / ft) <= val / 2,
        val / (rng / ft) < 0x8000_0000,
{
    vstd::arithmetic::div_mod::lemma_div_is_ordered(ft * 2, rng, ft);
    vstd::arithmetic::div_mod::lemma_div_multiples_vanish(2, ft);
    vstd::arithmetic::div_mod::lemma_div_is_ordered_by_denominator(val, 2, rng / ft);
}

proof fn lemma_wrap_sub(x: u32, y: u32)
    ensures
        x.wrapping_sub(y) == ((x - y) % 0x1_0000_0000) as u32,
{
}

} // verus!

verus! {

proof fn lemma_or_is_plus(a: u32, b: u32, c: u32)
    by (bit_vector)
    requires
        b < 32,
        c < (1u32 << b),
        a <= (0xffff_ffffu32 >> b),
    ensures
        (a << b) | c == (a << b) + c,
{
}

/// Scaled thresholds of a strictly decreasing table are ordered as the table.
proof fn lemma_scaled_decreasing(r: nat, hi: int, lo: int)
    requires
        r >= 1,
        hi > lo >= 0,
    ensures
        r * hi >= r * lo + r,
{
    assert(r * hi >= r * lo + r) by (nonlinear_arith)
        requires
            r >= 1,
            hi >= lo + 1,
    ;
}

proof fn lemma_icdf_search_found(icdf: Seq<u8>, r: nat, d: nat, i: nat)
    requires
        i < icdf.len(),
        icdf[icdf.len() - 1] == 0,
    ensures
        icdf_search(icdf, r, d, i) < icdf.len(),
        r * icdf[icdf_search(icdf, r, d, i) as int] <= d,
        forall|j: int| i <= j < icdf_search(icdf, r, d, i) ==> r * icdf[j] > d,
    decreases icdf.len() - i,
{
    if r * icdf[i as int] <= d {
    } else {
        if i + 1 < icdf.len() {
            lemma_icdf_search_found(icdf, r, d, i + 1);
        } else {
            assert(r * icdf[i as int] == 0) by (nonlinear_arith)
                requires
                    icdf[i as int] == 0,
            ;
        }
    }
}

impl<'a> RangeDecoder<'a> {
    /// Decodes a symbol against an inverse-CDF table with `ftb`-bit total.
    pub fn dec_icdf(&mut self, icdf: &[u8], ftb: u32) -> (res: usize)
        requires
            old(self)@.wf(),
            old(self)@.has_room(),
            ftb <= 23,
            icdf@.len() >= 1,
            icdf@[icdf@.len() - 1] == 0,
            icdf@[0] < pow2(ftb as nat),
            forall|i: int, j: int| 0 <= i < j < icdf@.len() ==> icdf@[i] > icdf@[j],
        ensures
            (final(self)@, res as nat) == dec_icdf_spec(old(self)@, icdf@, ftb as nat),
            res < icdf@.len(),
            final(self)@.wf(),
            old(self)@.nbits_total <= final(self)@.nbits_total <= old(self)@.nbits_total + 24,
            final(self)@.storage == old(self)@.storage,
            final(self)@.buf == old(self)@.buf,
            final(self)@.tell_frac() >= old(self)@.tell_frac(),
    {
        let ghost rng0 = self.rng;
        let mut s = self.rng;
        let d = self.val;
        proof {
            lemma_u32_shr_is_div(s, ftb);
            lemma_pow2_strictly_increases(ftb as nat, 24);
            lemma_pow2_pos(ftb as nat);
            lemma2_to64();
            vstd::arithmetic::div_mod::lemma_fundamental_div_mod(s as int, pow2(ftb as nat) as int);
            vstd::arithmetic::div_mod::lemma_div_is_ordered(pow2(23) as int, s as int, pow2(ftb as nat) as int);
            lemma_pow2_adds((23 - ftb) as nat, ftb as nat);
            vstd::arithmetic::mul::lemma_mul_is_commutative(pow2((23 - ftb) as nat) as int, pow2(ftb as nat) as int);
            vstd::arithmetic::div_mod::lemma_div_multiples_vanish(pow2((23 - ftb) as nat) as int, pow2(ftb as nat) as int);
            lemma_pow2_pos((23 - ftb) as nat);
        }
        let r = s >> ftb;
        let ghost rn = r as nat;
        let ghost k = icdf_search(icdf@, rn, d as nat, 0);
        proof {
            lemma_icdf_search_found(icdf@, rn, d as nat, 0);
            assert(rn * pow2(ftb as nat) <= s) by (nonlinear_arith)
                requires
                    rn == s as int / pow2(ftb as nat) as int,
                    pow2(ftb as nat) > 0,
            {
                vstd::arithmetic::div_mod::lemma_fundamental_div_mod(s as int, pow2(ftb as nat) as int);
            }
            assert(rn * icdf@[0] + rn <= rn * pow2(ftb as nat)) by (nonlinear_arith)
                requires
                    icdf@[0] + 1 <= pow2(ftb as nat),
            ;
        }
        let mut ret: usize = 0;
        let mut t = s;
        s = r * icdf[0] as u32;
        while d < s
            invariant
                ret <= k,
                k < icdf@.len(),
                icdf@.len() == icdf.len(),
                rn * icdf@[k as int] <= d,
                forall|j: int| 0 <= j < k ==> rn * icdf@[j] > d,
                forall|i: int, j: int| 0 <= i < j < icdf@.len() ==> icdf@[i] > icdf@[j],
                rn * icdf@[0] + rn <= self.rng,
                rn >= 1,
                r == rn,
                d == self.val,
                s == rn * icdf@[ret as int],
                t == (if ret == 0 {
                    self.rng as int
                } else {
                    rn * icdf@[ret - 1]
                }),
            decreases k - ret,
        {
            proof {
                if ret == k {
                    assert(false);
                }
                lemma_scaled_decreasing(rn, icdf@[0] as int, icdf@[ret + 1] as int);
                lemma_scaled_decreasing(rn, icdf@[ret as int] as int, icdf@[ret + 1] as int);
            }
            t = s;
            ret += 1;
            s = r * icdf[ret] as u32;
        }
        proof {
            if ret < k {
                assert(rn * icdf@[ret as int] > d);
            }
            assert(ret == k);
            if ret > 0 {
                lemma_scaled_decreasing(rn, icdf@[ret - 1] as int, icdf@[ret as int] as int);
                if ret > 1 {
                    lemma_scaled_decreasing(rn, icdf@[0] as int, icdf@[ret - 1] as int);
                }
            } else {
                assert(rn * icdf@[0] + rn <= self.rng);
            }
        }
        self.val = d - s;
        self.rng = t - s;
        proof {
            lemma_dec_normalize_forward(self@, rng0);
        }
        self.normalize();
        ret
    }

    /// Decodes `bits` raw bits from the end of the stream.
    #[verifier::spinoff_prover]
    pub fn dec_bits(&mut self, bits: u32) -> (res: u32)
        requires
            old(self)@.wf(),
            old(self)@.nbits_total + bits <= EC_NBITS_LIMIT,
            bits <= 25,
        ensures
            (final(self)@, res) == dec_bits_spec(old(self)@, bits),
            final(self)@.wf(),
            final(self)@.nbits_total == old(self)@.nbits_total + bits,
            final(self)@.storage == old(self)@.storage,
            final(self)@.buf == old(self)@.buf,
            res < pow2(bits as nat),
            final(self)@.tell_frac() >= old(self)@.tell_frac(),
    {
        let ghost s0 = self@;
        let mut window = self.end_window;
        let mut available = self.nend_bits;
        if (available as u32) < bits {
            loop
                invariant_except_break
                    available <= 24,
                invariant
                    self@.core_wf(),
                    0 <= available <= 32,
                    self@ == (DecState { end_offs: self@.end_offs, ..s0 }),
                    dec_fill_window(self@, window, available as int) == dec_fill_window(
                        s0,
                        s0.end_window,
                        s0.nend_bits as int,
                    ),
                ensures
                    24 < available <= 32,
                    (self@, window, available as int) == dec_fill_window(
                        s0,
                        s0.end_window,
                        s0.nend_bits as int,
                    ),
                    self@ == (DecState { end_offs: self@.end_offs, ..s0 }),
                    self@.core_wf(),
                decreases 32 - available,
            {
                let b = self.read_byte_from_end();
                window |= (b as u32) << available;
                available += EC_SYM_BITS as i32;
                if available > (EC_WINDOW_SIZE - EC_SYM_BITS) as i32 {
                    assert(dec_fill_window(self@, window, available as int) == (
                        self@,
                        window,
                        available as int,
                    ));
                    break;
                }
            }
        }
        proof {
            lemma2_to64();
            lemma_pow2_pos(bits as nat);
            lemma_pow2_strictly_increases(bits as nat, 32);
            lemma_u32_shl_is_mul(1, bits);
            lemma_u32_low_bits_mask_is_mod(window, bits as nat);
            lemma_u32_shr_is_div(window, bits);
        }
        let ret = window & ((1u32 << bits) - 1);
        window >>= bits;
        available -= bits as i32;
        self.end_window = window;
        self.nend_bits = available;
        self.nbits_total += bits as i32;
        ret
    }

    /// Decodes a raw unsigned integer in `[0, ft)`.
    pub fn dec_uint(&mut self, ft: u32) -> (res: u32)
        requires
            old(self)@.wf(),
            old(self)@.has_room(),
            1 < ft,
        ensures
            (final(self)@, res) == dec_uint_spec(old(self)@, ft),
            res < ft,
            final(self)@.wf(),
            old(self)@.nbits_total <= final(self)@.nbits_total <= old(self)@.nbits_total + 48,
            final(self)@.storage == old(self)@.storage,
            final(self)@.buf == old(self)@.buf,
            final(self)@.tell_frac() >= old(self)@.tell_frac(),
    {
        let ft = ft - 1;
        let ftb = ec_ilog(ft);
        if ftb > EC_UINT_BITS {
            let ftb = ftb - EC_UINT_BITS;
            proof {
                lemma2_to64();
                lemma_pow2_pos(ftb as nat);
                lemma_u32_shr_is_div(ft, ftb);
                lemma_pow2_strictly_increases(ftb as nat, 32);
                lemma_ilog_bounds(ft as nat);
                lemma_pow2_adds(ftb as nat, 8);
                vstd::arithmetic::div_mod::lemma_multiply_divide_lt(ft as int, pow2(ftb as nat) as int, 256);
            }
            let ftn = (ft >> ftb) + 1;
            let s = self.decode(ftn);
            self.dec_update(s, s + 1, ftn);
            let low = self.dec_bits(ftb);
            proof {
                assert(s as nat * pow2(ftb as nat) <= ft) by (nonlinear_arith)
                    requires
                        s <= ft as nat / pow2(ftb as nat),
                        pow2(ftb as nat) > 0,
                {
                    vstd::arithmetic::div_mod::lemma_fundamental_div_mod(ft as int, pow2(ftb as nat) as int);
                    vstd::arithmetic::mul::lemma_mul_inequality(s as int, ft as int / pow2(ftb as nat) as int, pow2(ftb as nat) as int);
                }
                lemma_u32_shl_is_mul(s, ftb);
                lemma_u32_shr_is_div(0xffff_ffffu32, ftb);
                vstd::arithmetic::div_mod::lemma_div_is_ordered(ft as int, 0xffff_ffff, pow2(ftb as nat) as int);
                lemma_u32_shl_is_mul(1, ftb);
                lemma_or_is_plus(s, ftb, low);
            }
            let t = (s << ftb) | low;
            if t <= ft {
                t
            } else {
                self.error = true;
                ft
            }
        } else {
            proof {
                lemma_ilog_bounds(ft as nat);
                lemma2_to64();
                if ilog(ft as nat) < 8 {
                    lemma_pow2_strictly_increases(ilog(ft as nat), 8);
                }
            }
            let ft = ft + 1;
            let s = self.decode(ft);
            self.dec_update(s, s + 1, ft);
            s
        }
    }
}

} // verus!

verus! {

/// The state of a fresh encoder over a zeroed buffer of `size` bytes.
pub open spec fn enc_new_spec(size: nat) -> EncState {
    EncState {
        buf: Seq::new(size, |i: int| 0u8),
        storage: size as u32,
        end_offs: 0,
        end_window: 0,
        nend_bits: 0,
        nbits_total: 33,
        offs: 0,
        rng: EC_CODE_TOP,
        val: 0,
        ext: 0,
        rem: -1i32,
        error: false,
    }
}

/// Encodes the symbols `(fl, fh, ft)` of `syms` in turn.
pub open spec fn enc_encode_all(s: EncState, syms: Seq<(int, int, int)>) -> EncState
    decreases syms.len(),
{
    if syms.len() == 0 {
        s
    } else {
        let (fl, fh, ft) = syms.last();
        enc_encode_spec(enc_encode_all(s, syms.drop_last()), fl, fh, ft)
    }
}

/// Decodes the symbols `(fl, fh, ft)` of `syms` in turn: `decode(ft)`, then
/// `dec_update(fl, fh, ft)`.
pub open spec fn dec_update_all(s: DecState, syms: Seq<(int, int, int)>) -> DecState
    decreases syms.len(),
{
    if syms.len() == 0 {
        s
    } else {
        let (fl, fh, ft) = syms.last();
        dec_update_spec(dec_decode_spec(dec_update_all(s, syms.drop_last()), ft).0, fl, fh, ft)
    }
}

/// Renormalisation moves the range and the bit count of the encoder and of
/// the decoder alike.
proof fn lemma_normalize_counts_agree(e: EncState, d: DecState)
    requires
        e.rng == d.rng,
        e.nbits_total == d.nbits_total,
    ensures
        enc_normalize(e).rng == dec_normalize(d).rng,
        enc_normalize(e).nbits_total == dec_normalize(d).nbits_total,
    decreases enc_normalize_measure(e),
{
    if 0 < e.rng <= EC_CODE_BOT {
        let s1 = enc_carry_out(e, (e.val / 0x80_0000) as int);
        let e2 = EncState {
            val: ((e.val % 0x80_0000) * 256) as u32,
            rng: (e.rng * 256) as u32,
            nbits_total: (e.nbits_total + 8) as i32,
            ..s1
        };
        let (d1, byte) = dec_read_byte(d);
        let sym = (d.rem * 256 + byte) / 2;
        let d2 = DecState {
            nbits_total: (d.nbits_total + 8) as i32,
            rng: (d.rng * 256) as u32,
            rem: byte as i32,
            val: ((d.val * 256 + 255 - sym % 256) % 0x8000_0000) as u32,
            ..d1
        };
        lemma_normalize_counts_agree(e2, d2);
    }
}

/// One symbol: after the encoder codes `[fl, fh)` of `ft` and the decoder
/// steps past the same symbol, both hold the same range and have used the
/// same number of bits.
pub proof fn lemma_symbol_counts_agree(e: EncState, d: DecState, fl: int, fh: int, ft: int)
    requires
        e.rng == d.rng,
        e.nbits_total == d.nbits_total,
        ft >= 1,
    ensures
        ({
            let e2 = enc_encode_spec(e, fl, fh, ft);
            let d2 = dec_update_spec(dec_decode_spec(d, ft).0, fl, fh, ft);
            &&& e2.rng == d2.rng
            &&& e2.nbits_total == d2.nbits_total
            &&& e2.tell() == d2.tell()
            &&& e2.tell_frac() == d2.tell_frac()
        }),
{
    let d1 = dec_decode_spec(d, ft).0;
    assert(d1.ext == d.rng as int / ft) by {
        vstd::arithmetic::div_mod::lemma_div_is_ordered_by_denominator(d.rng as int, 1, ft);
    }
    let sub = d1.ext * (ft - fh);
    let dn = DecState {
        val: ((d1.val - sub) % 0x1_0000_0000) as u32,
        rng: (if fl > 0 { d1.ext * (fh - fl) } else { d1.rng - sub }) as u32,
        ..d1
    };
    lemma_normalize_counts_agree(enc_narrow(e, fl, fh, ft), dn);
}

/// The bit accounting of the range coder is symmetric: fed the same symbols,
/// a fresh encoder and a decoder over any buffer hold the same range and
/// report the same `ec_tell` and `ec_tell_frac` after every symbol.
pub proof fn lemma_encoder_decoder_counts_agree(
    size: nat,
    buf: Seq<u8>,
    syms: Seq<(int, int, int)>,
)
    requires
        forall|i: int| 0 <= i < syms.len() ==> (#[trigger] syms[i]).2 >= 1,
    ensures
        forall|i: int|
            0 <= i <= syms.len() ==> {
                let e = enc_encode_all(enc_new_spec(size), #[trigger] syms.take(i));
                let d = dec_update_all(dec_new_spec(buf), syms.take(i));
                &&& e.rng == d.rng
                &&& e.tell() == d.tell()
                &&& e.tell_frac() == d.tell_frac()
            },
{
    assert(dec_new_spec(buf).rng == EC_CODE_TOP && dec_new_spec(buf).nbits_total == 33) by {
        reveal_with_fuel(dec_normalize, 4);
    }
    assert forall|i: int| 0 <= i <= syms.len() implies {
        let e = enc_encode_all(enc_new_spec(size), #[trigger] syms.take(i));
        let d = dec_update_all(dec_new_spec(buf), syms.take(i));
        &&& e.rng == d.rng
        &&& e.tell() == d.tell()
        &&& e.tell_frac() == d.tell_frac()
    } by {
        lemma_all_counts_agree(enc_new_spec(size), dec_new_spec(buf), syms.take(i));
    }
}

proof fn lemma_all_counts_agree(e: EncState, d: DecState, syms: Seq<(int, int, int)>)
    requires
        e.rng == d.rng,
        e.nbits_total == d.nbits_total,
        forall|i: int| 0 <= i < syms.len() ==> (#[trigger] syms[i]).2 >= 1,
    ensures
        enc_encode_all(e, syms).rng == dec_update_all(d, syms).rng,
        enc_encode_all(e, syms).nbits_total == dec_update_all(d, syms).nbits_total,
    decreases syms.len(),
{
    if syms.len() > 0 {
        let rest = syms.drop_last();
        assert forall|i: int| 0 <= i < rest.len() implies (#[trigger] rest[i]).2 >= 1 by {
            assert(rest[i] == syms[i]);
        }
        lemma_all_counts_agree(e, d, rest);
        let (fl, fh, ft) = syms.last();
        assert(syms[syms.len() - 1].2 >= 1);
        lemma_symbol_counts_agree(enc_encode_all(e, rest), dec_update_all(d, rest), fl, fh, ft);
    }
}

} // verus!

verus! {

/// The total width of raw fields `(value, width)`.
pub open spec fn raw_width(fields: Seq<(u32, u32)>) -> nat
    decreases fields.len(),
{
    if fields.len() == 0 {
        0
    } else {
        raw_width(fields.drop_last()) + fields.last().1 as nat
    }
}

/// Raw fields packed least significant first: each value sits above the
/// fields before it.
pub open spec fn raw_value(fields: Seq<(u32, u32)>) -> nat
    decreases fields.len(),
{
    if fields.len() == 0 {
        0
    } else {
        raw_value(fields.drop_last()) + (fields.last().0 as nat) * pow2(raw_width(fields.drop_last()))
    }
}

/// Writes each field of `fields` with `enc_bits`, in turn.
pub open spec fn enc_bits_all(s: EncState, fields: Seq<(u32, u32)>) -> EncState
    decreases fields.len(),
{
    if fields.len() == 0 {
        s
    } else {
        enc_bits_spec(enc_bits_all(s, fields.drop_last()), fields.last().0, fields.last().1)
    }
}

/// Reads fields of the widths in `fields` with `dec_bits`, in turn; gives the
/// state and the values read.
pub open spec fn dec_bits_all(s: DecState, fields: Seq<(u32, u32)>) -> (DecState, Seq<u32>)
    decreases fields.len(),
{
    if fields.len() == 0 {
        (s, Seq::empty())
    } else {
        let (s1, vals) = dec_bits_all(s, fields.drop_last());
        let (s2, v) = dec_bits_spec(s1, fields.last().1);
        (s2, vals.push(v))
    }
}

/// The last `k` bytes of `buf` as a little-endian number read from the end.
pub open spec fn tail_value(buf: Seq<u8>, k: nat) -> nat
    decreases k,
{
    if k == 0 {
        0
    } else {
        tail_value(buf, (k - 1) as nat) + (buf[buf.len() - k] as nat) * pow2(8 * (k - 1) as nat)
    }
}

pub proof fn lemma_tail_bound(buf: Seq<u8>, k: nat)
    ensures
        tail_value(buf, k) < pow2(8 * k),
    decreases k,
{
    lemma2_to64();
    if k > 0 {
        lemma_tail_bound(buf, (k - 1) as nat);
        let p = pow2(8 * (k - 1) as nat);
        lemma_pow2_adds(8 * (k - 1) as nat, 8);
        assert(8 * k == 8 * (k - 1) as nat + 8);
        let b = buf[buf.len() - k] as int;
        assert(tail_value(buf, (k - 1) as nat) + b * p < 256 * p) by (nonlinear_arith)
            requires
                tail_value(buf, (k - 1) as nat) < p,
                0 <= b <= 255,
        ;
    }
}

pub proof fn lemma_tail_ext(a: Seq<u8>, b: Seq<u8>, k: nat)
    requires
        a.len() == b.len(),
        k <= a.len(),
        forall|i: int| a.len() - k <= i < a.len() ==> a[i] == b[i],
    ensures
        tail_value(a, k) == tail_value(b, k),
    decreases k,
{
    if k > 0 {
        lemma_tail_ext(a, b, (k - 1) as nat);
    }
}

/// Byte `t` from the end of a tail, with anything stacked above the tail.
proof fn lemma_tail_digit(buf: Seq<u8>, k: nat, x: nat, t: nat)
    requires
        t < k,
    ensures
        ((tail_value(buf, k) + x * pow2(8 * k)) / pow2(8 * t)) % 256 == buf[buf.len() - 1 - t],
    decreases k,
{
    lemma2_to64();
    let j = (k - 1) as nat;
    let p = pow2(8 * j);
    let b = buf[buf.len() - k] as nat;
    lemma_pow2_adds(8 * j, 8);
    assert(8 * k == 8 * j + 8);
    let x2 = b + 256 * x;
    assert(tail_value(buf, k) + x * pow2(8 * k) == tail_value(buf, j) + x2 * p) by (nonlinear_arith)
        requires
            tail_value(buf, k) == tail_value(buf, j) + b * p,
            pow2(8 * k) == p * 256,
            x2 == b + 256 * x,
    ;
    if t < j {
        lemma_tail_digit(buf, j, x2, t);
    } else {
        assert(t == j);
        lemma_tail_bound(buf, j);
        lemma_pow2_pos(8 * j);
        vstd::arithmetic::div_mod::lemma_div_multiples_vanish_fancy(x2 as int, tail_value(buf, j) as int, p as int);
        assert(p * x2 + tail_value(buf, j) == tail_value(buf, j) + x2 * p) by (nonlinear_arith);
        vstd::arithmetic::div_mod::lemma_mod_multiples_vanish(x as int, b as int, 256);
        vstd::arithmetic::div_mod::lemma_small_mod(b, 256);
        assert(256 * x + b == x2);
    }
}


/// An encoder that has written only raw fields, all still in its buffer's
/// back or its raw-bits window.
pub open spec fn raw_enc_inv(e: EncState, size: nat, fields: Seq<(u32, u32)>) -> bool {
    &&& e.storage == size
    &&& e.buf.len() == size
    &&& e.offs == 0
    &&& !e.error
    &&& e.rng == EC_CODE_TOP
    &&& e.val == 0
    &&& e.rem == -1
    &&& e.ext == 0
    &&& 0 <= e.nend_bits <= 32
    &&& (e.end_window as nat) < pow2(e.nend_bits as nat)
    &&& 8 * e.end_offs + e.nend_bits == raw_width(fields)
    &&& tail_value(e.buf, e.end_offs as nat) + e.end_window * pow2(8 * e.end_offs as nat)
        == raw_value(fields)
}

/// Disjoint bit fields combine by addition.
proof fn lemma_or_above(w: u32, x: u32, u: u32)
    by (bit_vector)
    requires
        u < 32,
        w < (1u32 << u),
        x <= (0xffff_ffffu32 >> u),
    ensures
        w | (x << u) == (x << u) + w,
{
}

/// A field of `bits` bits fits above a window of `u` bits as a product.
proof fn lemma_field_shift(w: u32, x: u32, u: nat, bits: nat)
    requires
        1 <= bits,
        u + bits <= 32,
        (w as nat) < pow2(u),
        (x as nat) < pow2(bits),
    ensures
        w | (x << (u as u32)) == x * pow2(u) + w,
        x * pow2(u) + w < pow2(u + bits),
{
    lemma2_to64();
    lemma_pow2_adds(u, bits);
    lemma_pow2_pos(u);
    lemma_pow2_pos(bits);
    {
        assert(x * pow2(u) + w < pow2(u + bits)) by (nonlinear_arith)
            requires
                x < pow2(bits),
                w < pow2(u),
                pow2(u + bits) == pow2(u) * pow2(bits),
        ;
        lemma_pow2_adds(u, (32 - u) as nat);
        if u + bits < 32 {
            lemma_pow2_strictly_increases(u + bits, 32);
        }
        lemma_u32_shl_is_mul(1, u as u32);
        lemma_u32_shl_is_mul(x, u as u32);
        lemma_u32_shr_is_div(0xffff_ffff, u as u32);
        let pu = pow2(u) as int;
        let pr = pow2((32 - u) as nat) as int;
        if bits < 32 - u {
            lemma_pow2_strictly_increases(bits, (32 - u) as nat);
        }
        vstd::arithmetic::div_mod::lemma_div_multiples_vanish_fancy(pr - 1, pu - 1, pu);
        assert(pu * (pr - 1) + (pu - 1) == 0xffff_ffff) by (nonlinear_arith)
            requires
                pu * pr == 0x1_0000_0000,
        ;
        lemma_or_above(w, x, u as u32);
    }
}

/// Flushing whole bytes of the raw window to the back keeps the packed value
/// of back bytes and window.
proof fn lemma_flush_raw(s: EncState, w: u32, u: int)
    requires
        s.buf.len() == s.storage,
        s.offs == 0,
        !s.error,
        0 <= u <= 32,
        (w as nat) < pow2(u as nat),
        8 * s.end_offs + u <= 8 * s.storage,
    ensures
        ({
            let (s2, w2, u2) = enc_flush_end(s, w, u);
            &&& s2.storage == s.storage
            &&& s2.buf.len() == s.storage
            &&& s2.offs == 0
            &&& !s2.error
            &&& 0 <= u2 < 8
            &&& (w2 as nat) < pow2(u2 as nat)
            &&& 8 * s2.end_offs + u2 == 8 * s.end_offs + u
            &&& tail_value(s2.buf, s2.end_offs as nat) + w2 * pow2(8 * s2.end_offs as nat)
                == tail_value(s.buf, s.end_offs as nat) + w * pow2(8 * s.end_offs as nat)
            &&& s2.rng == s.rng
            &&& s2.val == s.val
            &&& s2.rem == s.rem
            &&& s2.ext == s.ext
            &&& s2.end_window == s.end_window
            &&& s2.nend_bits == s.nend_bits
            &&& s2.nbits_total == s.nbits_total
        }),
    decreases u,
{
    lemma2_to64();
    if u >= 8 {
        let k = s.end_offs as nat;
        let s1 = enc_put_byte_at_end(s, w % 256);
        assert(s1.buf == s.buf.update(s.storage - k - 1, (w % 256) as u8));
        lemma_tail_ext(s.buf, s1.buf, k);
        assert(tail_value(s1.buf, k + 1) == tail_value(s1.buf, k) + (w % 256) * pow2(8 * k));
        lemma_pow2_adds((u - 8) as nat, 8);
        assert((w / 256) < pow2((u - 8) as nat));
        lemma_flush_raw(s1, w / 256, u - 8);
        lemma_pow2_adds(8 * k, 8);
        assert(8 * (k + 1) == 8 * k + 8);
        let p = pow2(8 * k);
        assert(tail_value(s1.buf, k + 1) + (w / 256) * pow2(8 * (k + 1)) == tail_value(s.buf, k)
            + w * p) by (nonlinear_arith)
            requires
                tail_value(s1.buf, k + 1) == tail_value(s.buf, k) + (w % 256) * p,
                pow2(8 * (k + 1)) == p * 256,
                w == 256 * (w / 256) + w % 256,
        ;
    }
}

/// Writing one more raw field keeps the packing invariant.
proof fn lemma_enc_bits_raw(e: EncState, size: nat, fields: Seq<(u32, u32)>, fl: u32, bits: u32)
    requires
        raw_enc_inv(e, size, fields),
        1 <= bits <= 25,
        (fl as nat) < pow2(bits as nat),
        raw_width(fields) + bits <= 8 * size,
    ensures
        raw_enc_inv(enc_bits_spec(e, fl, bits), size, fields.push((fl, bits))),
{
    lemma2_to64();
    let f2 = fields.push((fl, bits));
    assert(f2.drop_last() =~= fields);
    let (s1, w1, u1) = if e.nend_bits + bits > 32 {
        enc_flush_end(
            enc_put_byte_at_end(e, e.end_window % 256),
            e.end_window / 256,
            e.nend_bits - 8,
        )
    } else {
        (e, e.end_window, e.nend_bits as int)
    };
    if e.nend_bits + bits > 32 {
        assert(enc_flush_end(e, e.end_window, e.nend_bits as int) == (s1, w1, u1));
        lemma_flush_raw(e, e.end_window, e.nend_bits as int);
    }
    let k1 = s1.end_offs as nat;
    lemma_field_shift(w1, fl, u1 as nat, bits as nat);
    lemma_pow2_adds(u1 as nat, 8 * k1);
    let p = pow2(8 * k1);
    assert(tail_value(s1.buf, k1) + (fl * pow2(u1 as nat) + w1) * p == raw_value(fields) + fl
        * pow2(raw_width(fields))) by (nonlinear_arith)
        requires
            tail_value(s1.buf, k1) + w1 * p == raw_value(fields),
            pow2(u1 as nat) * p == pow2(raw_width(fields)),
    ;
}

/// A fresh encoder that writes only raw fields keeps them packed at the back.
proof fn lemma_enc_bits_all_raw(size: nat, fields: Seq<(u32, u32)>)
    requires
        size <= u32::MAX,
        forall|i: int| 0 <= i < fields.len() ==> 1 <= (#[trigger] fields[i]).1 <= 25,
        forall|i: int| 0 <= i < fields.len() ==> ((#[trigger] fields[i]).0 as nat) < pow2(fields[i].1 as nat),
        raw_width(fields) <= 8 * size,
    ensures
        raw_enc_inv(enc_bits_all(enc_new_spec(size), fields), size, fields),
    decreases fields.len(),
{
    lemma2_to64();
    if fields.len() > 0 {
        let rest = fields.drop_last();
        assert forall|i: int| 0 <= i < rest.len() implies 1 <= (#[trigger] rest[i]).1 <= 25 && (
        rest[i].0 as nat) < pow2(rest[i].1 as nat) by {
            assert(rest[i] == fields[i]);
        }
        lemma_enc_bits_all_raw(size, rest);
        let last = fields.last();
        assert(fields[fields.len() - 1] == last);
        assert(rest.push(last) =~= fields);
        lemma_enc_bits_raw(enc_bits_all(enc_new_spec(size), rest), size, rest, last.0, last.1);
    } else {
        assert(tail_value(enc_new_spec(size).buf, 0) == 0);
    }
}


/// The constants `done` works with on an untouched range, and OR-ing into a
/// zero byte.
pub proof fn lemma_done_constants(x: u8)
    by (bit_vector)
    ensures
        0x7fff_ffffu32 >> 0u32 == 0x7fff_ffffu32,
        0x7fff_ffffu32 & !0x7fff_ffffu32 == 0u32,
        0u32 | 0x7fff_ffffu32 == 0x7fff_ffffu32,
        0u8 | x == x,
{
}

/// Byte `t` of the little-endian number `r`.
pub open spec fn byte_of(r: nat, t: nat) -> nat {
    (r / pow2(8 * t)) % 256
}

/// The packed raw fields, as the byte `t` from the end of the buffer holds
/// them.
pub open spec fn raw_digits_match(buf: Seq<u8>, size: nat, r: nat) -> bool {
    &&& buf.len() == size
    &&& r < pow2(8 * size)
    &&& forall|t: nat| t < size ==> #[trigger] byte_of(r, t) == buf[size - 1 - t]
}

/// Digits of a number below `2^(8k)` past byte `k` are zero.
proof fn lemma_high_digit_zero(r: nat, k: nat, t: nat)
    requires
        r < pow2(8 * k),
        k <= t,
    ensures
        (r / pow2(8 * t)) % 256 == 0,
{
    lemma_pow2_pos(8 * t);
    if k < t {
        lemma_pow2_strictly_increases(8 * k, 8 * t);
    }
    vstd::arithmetic::div_mod::lemma_basic_div(r as int, pow2(8 * t) as int);
}

/// `done` on an encoder holding only raw fields: the range coder adds no
/// bytes, and the buffer's bytes from the end spell out the packed fields.
proof fn lemma_done_raw(e: EncState, size: nat, fields: Seq<(u32, u32)>)
    requires
        raw_enc_inv(e, size, fields),
        raw_width(fields) <= 8 * size,
    ensures
        raw_digits_match(enc_done_spec(e), size, raw_value(fields)),
{
    lemma2_to64();
    lemma_ilog_unique(0x8000_0000, 32);
    let l0: int = 32 - ilog(e.rng as nat);
    assert(l0 == 0);
    let msk0: u32 = 0x7fff_ffffu32 >> (l0 as u32);
    let end0: u32 = (((e.val + msk0) % 0x1_0000_0000) as u32) & !msk0;
    let top: u32 = ((e.val + e.rng) % 0x1_0000_0000) as u32;
    lemma_done_constants(0);
    assert(msk0 == 0x7fff_ffffu32);
    assert(end0 == 0);
    assert(top == 0x8000_0000u32);
    assert(!((end0 | msk0) >= top));
    assert(enc_done_carry(e, 0, 0) == (e, 0int));
    let (s3, window, used) = enc_flush_end(e, e.end_window, e.nend_bits as int);
    lemma_flush_raw(e, e.end_window, e.nend_bits as int);
    let k3 = s3.end_offs as nat;
    let r = raw_value(fields);
    let f = enc_done_spec(e);
    lemma_tail_bound(s3.buf, k3);
    lemma_pow2_adds(8 * k3, used as nat);
    lemma_pow2_pos(8 * k3);
    let p = pow2(8 * k3);
    assert(r < pow2(8 * k3 + used as nat)) by (nonlinear_arith)
        requires
            r == tail_value(s3.buf, k3) + window * p,
            tail_value(s3.buf, k3) < p,
            window < pow2(used as nat),
            pow2(8 * k3 + used as nat) == p * pow2(used as nat),
    ;
    if 8 * k3 + used < 8 * size {
        lemma_pow2_strictly_increases(8 * k3 + used as nat, 8 * size);
    }
    let cleared = Seq::new(
        s3.storage as nat,
        |i: int|
            if s3.offs <= i < s3.storage - s3.end_offs {
                0u8
            } else {
                s3.buf[i]
            },
    );
    if used > 0 {
        assert(k3 < size);
        let i0 = size - k3 - 1;
        lemma_done_constants(window as u8);
        assert(f == cleared.update(i0, (window as u8)));
        lemma_tail_ext(s3.buf, f, k3);
        assert(tail_value(f, k3 + 1) == r);
        assert forall|t: nat| t < size implies #[trigger] byte_of(r, t) == f[size - 1 - t] by {
            if t < k3 + 1 {
                lemma_tail_digit(f, k3 + 1, 0, t);
            } else {
                lemma_pow2_strictly_increases(8 * k3 + used as nat, 8 * (k3 + 1));
                lemma_high_digit_zero(r, k3 + 1, t);
            }
        }
    } else {
        assert(window == 0);
        assert(window * p == 0) by (nonlinear_arith)
            requires
                window == 0,
        ;
        assert(f == cleared);
        lemma_tail_ext(s3.buf, f, k3);
        assert(tail_value(f, k3) == r);
        assert forall|t: nat| t < size implies #[trigger] byte_of(r, t) == f[size - 1 - t] by {
            if t < k3 {
                lemma_tail_digit(f, k3, 0, t);
            } else {
                lemma_high_digit_zero(r, k3, t);
            }
        }
    }
}


/// Renormalising reads only from the front: the back of the decoder is
/// untouched.
proof fn lemma_dec_normalize_keeps_back(s: DecState)
    ensures
        dec_normalize(s).buf == s.buf,
        dec_normalize(s).storage == s.storage,
        dec_normalize(s).end_offs == s.end_offs,
        dec_normalize(s).end_window == s.end_window,
        dec_normalize(s).nend_bits == s.nend_bits,
    decreases dec_normalize_measure(s),
{
    if 0 < s.rng <= EC_CODE_BOT {
        let (s1, byte) = dec_read_byte(s);
        let sym = (s.rem * 256 + byte) / 2;
        lemma_dec_normalize_keeps_back(
            DecState {
                nbits_total: (s.nbits_total + 8) as i32,
                rng: (s.rng * 256) as u32,
                rem: byte as i32,
                val: ((s.val * 256 + 255 - sym % 256) % 0x8000_0000) as u32,
                ..s1
            },
        );
    }
}

/// A decoder that has consumed `c` raw bits of the packed number `r`: its
/// window holds the next bits of `r`, and it has read whole bytes from the
/// back (past the front only zeros).
pub open spec fn raw_dec_inv(d: DecState, r: nat, c: nat, size: nat, buf: Seq<u8>) -> bool {
    &&& d.buf == buf
    &&& d.storage == size
    &&& 0 <= d.nend_bits <= 32
    &&& (c + d.nend_bits) % 8 == 0
    &&& d.end_offs == if (c + d.nend_bits) / 8 < size {
        ((c + d.nend_bits) / 8) as int
    } else {
        size as int
    }
    &&& d.end_window == (r / pow2(c)) % pow2(d.nend_bits as nat)
}

/// `(y % 2^(b + m)) / 2^b == (y / 2^b) % 2^m`.
proof fn lemma_mod_div_pow2(y: nat, b: nat, m: nat)
    ensures
        (y % pow2(b + m)) / pow2(b) == (y / pow2(b)) % pow2(m),
        (y % pow2(b + m)) % pow2(b) == y % pow2(b),
{
    lemma_pow2_pos(b);
    lemma_pow2_pos(m);
    lemma_pow2_adds(b, m);
    vstd::arithmetic::div_mod::lemma_breakdown(y as int, pow2(b) as int, pow2(m) as int);
    vstd::arithmetic::div_mod::lemma_mod_pos_bound(y as int, pow2(b) as int);
    vstd::arithmetic::div_mod::lemma_mod_pos_bound((y / pow2(b)) as int, pow2(m) as int);
    vstd::arithmetic::div_mod::lemma_div_multiples_vanish_fancy(
        ((y / pow2(b)) % pow2(m)) as int,
        (y % pow2(b)) as int,
        pow2(b) as int,
    );
    vstd::arithmetic::div_mod::lemma_mod_mod(y as int, pow2(b) as int, pow2(m) as int);
}

/// Filling the raw window from the back brings in the next bytes of `r`.
proof fn lemma_fill_raw(d: DecState, window: u32, avail: int, r: nat, c: nat, size: nat, buf: Seq<u8>)
    requires
        raw_digits_match(buf, size, r),
        d.buf == buf,
        d.storage == size,
        0 <= avail <= 32,
        (c + avail) % 8 == 0,
        d.end_offs == if (c + avail) / 8 < size {
            ((c + avail) / 8) as int
        } else {
            size as int
        },
        window == (r / pow2(c)) % pow2(avail as nat),
    ensures
        ({
            let (d2, w2, a2) = dec_fill_window(d, window, avail);
            &&& avail <= a2 <= 32
            &&& avail <= 24 ==> a2 > 24
            &&& d2.buf == buf
            &&& d2.storage == size
            &&& d2.end_window == d.end_window
            &&& d2.nend_bits == d.nend_bits
            &&& (c + a2) % 8 == 0
            &&& d2.end_offs == if (c + a2) / 8 < size {
                ((c + a2) / 8) as int
            } else {
                size as int
            }
            &&& w2 == (r / pow2(c)) % pow2(a2 as nat)
        }),
    decreases 32 - avail,
{
    lemma2_to64();
    if avail <= 24 {
        let q = ((c + avail) / 8) as nat;
        assert(8 * q == c + avail);
        let (d1, byte) = dec_read_byte_from_end(d);
        assert(byte == byte_of(r, q)) by {
            if q < size {
                assert(d.end_offs == q);
                assert(buf[size - 1 - q] == byte_of(r, q));
            } else {
                lemma_high_digit_zero(r, size, q);
            }
        }
        let y = r / pow2(c);
        lemma_pow2_pos(c);
        lemma_pow2_pos(avail as nat);
        vstd::arithmetic::div_mod::lemma_mod_pos_bound(y as int, pow2(avail as nat) as int);
        lemma_field_shift(window, byte as u32, avail as nat, 8);
        let w2 = window | ((byte as u32) << (avail as u32));
        lemma_pow2_adds(c, avail as nat);
        vstd::arithmetic::div_mod::lemma_div_denominator(r as int, pow2(c) as int, pow2(avail as nat) as int);
        assert(y / pow2(avail as nat) == r / pow2(8 * q));
        lemma_pow2_adds(avail as nat, 8);
        vstd::arithmetic::div_mod::lemma_breakdown(y as int, pow2(avail as nat) as int, 256);
        assert(w2 == y % pow2((avail + 8) as nat));
        lemma_fill_raw(d1, w2, avail + 8, r, c, size, buf);
    }
}

/// Reading `bits` raw bits gives the next `bits` bits of `r`.
proof fn lemma_dec_bits_raw(d: DecState, r: nat, c: nat, size: nat, buf: Seq<u8>, bits: u32)
    requires
        raw_dec_inv(d, r, c, size, buf),
        raw_digits_match(buf, size, r),
        1 <= bits <= 25,
    ensures
        ({
            let (d2, v) = dec_bits_spec(d, bits);
            &&& raw_dec_inv(d2, r, (c + bits) as nat, size, buf)
            &&& v == (r / pow2(c)) % pow2(bits as nat)
        }),
{
    lemma2_to64();
    let (s1, w1, a1) = if d.nend_bits < bits {
        dec_fill_window(d, d.end_window, d.nend_bits as int)
    } else {
        (d, d.end_window, d.nend_bits as int)
    };
    if d.nend_bits < bits {
        lemma_fill_raw(d, d.end_window, d.nend_bits as int, r, c, size, buf);
    }
    assert(bits <= a1 <= 32);
    let y = r / pow2(c);
    lemma_mod_div_pow2(y, bits as nat, (a1 - bits) as nat);
    lemma_pow2_pos(c);
    lemma_pow2_adds(c, bits as nat);
    vstd::arithmetic::div_mod::lemma_div_denominator(r as int, pow2(c) as int, pow2(bits as nat) as int);
    lemma_pow2_pos(bits as nat);
    lemma_pow2_pos((a1 - bits) as nat);
    vstd::arithmetic::div_mod::lemma_mod_pos_bound(y as int, pow2(bits as nat) as int);
    vstd::arithmetic::div_mod::lemma_mod_pos_bound((y / pow2(bits as nat)) as int, pow2((a1 - bits) as nat) as int);
    if a1 - bits < 32 {
        lemma_pow2_strictly_increases((a1 - bits) as nat, 32);
    }
    lemma_pow2_strictly_increases(bits as nat, 32);
}

/// The packed value of fields lies below two to their total width.
pub proof fn lemma_raw_value_bound(fields: Seq<(u32, u32)>)
    requires
        forall|i: int| 0 <= i < fields.len() ==> ((#[trigger] fields[i]).0 as nat) < pow2(fields[i].1 as nat),
    ensures
        raw_value(fields) < pow2(raw_width(fields)),
    decreases fields.len(),
{
    lemma2_to64();
    if fields.len() > 0 {
        let rest = fields.drop_last();
        assert forall|i: int| 0 <= i < rest.len() implies ((#[trigger] rest[i]).0 as nat) < pow2(
            rest[i].1 as nat,
        ) by {
            assert(rest[i] == fields[i]);
        }
        lemma_raw_value_bound(rest);
        let last = fields.last();
        assert(fields[fields.len() - 1] == last);
        let w = raw_width(rest);
        lemma_pow2_adds(w, last.1 as nat);
        assert(raw_value(rest) + (last.0 as nat) * pow2(w) < pow2(w + last.1 as nat))
            by (nonlinear_arith)
            requires
                raw_value(rest) < pow2(w),
                (last.0 as nat) < pow2(last.1 as nat),
                pow2(w + last.1 as nat) == pow2(w) * pow2(last.1 as nat),
        ;
    }
}

/// Field `i` sits at the bit offset of the fields before it.
pub proof fn lemma_raw_field(fields: Seq<(u32, u32)>, i: int)
    requires
        0 <= i < fields.len(),
        forall|j: int| 0 <= j < fields.len() ==> ((#[trigger] fields[j]).0 as nat) < pow2(fields[j].1 as nat),
    ensures
        (raw_value(fields) / pow2(raw_width(fields.take(i)))) % pow2(fields[i].1 as nat) == fields[i].0,
    decreases fields.len(),
{
    lemma2_to64();
    let rest = fields.drop_last();
    let last = fields.last();
    assert(fields[fields.len() - 1] == last);
    assert forall|j: int| 0 <= j < rest.len() implies ((#[trigger] rest[j]).0 as nat) < pow2(
        rest[j].1 as nat,
    ) by {
        assert(rest[j] == fields[j]);
    }
    let w = raw_width(rest);
    lemma_raw_value_bound(rest);
    lemma_pow2_pos(w);
    if i == fields.len() - 1 {
        assert(fields.take(i) =~= rest);
        vstd::arithmetic::div_mod::lemma_div_multiples_vanish_fancy(
            last.0 as int,
            raw_value(rest) as int,
            pow2(w) as int,
        );
        assert(pow2(w) * last.0 + raw_value(rest) == raw_value(fields));
        vstd::arithmetic::div_mod::lemma_small_mod(last.0 as nat, pow2(last.1 as nat));
    } else {
        assert(fields.take(i) =~= rest.take(i));
        assert(rest[i] == fields[i]);
        lemma_raw_field(rest, i);
        let ci = raw_width(fields.take(i));
        let bi = fields[i].1 as nat;
        lemma_raw_width_take(rest, i + 1);
        assert(rest.take(i + 1).drop_last() =~= rest.take(i));
        assert(rest.take(i + 1).last() == fields[i]);
        assert(raw_width(rest.take(i + 1)) == ci + bi);
        let gap = (w - ci - bi) as nat;
        lemma_pow2_adds(ci, bi);
        lemma_pow2_adds(ci + bi, gap);
        lemma_pow2_pos(ci);
        lemma_pow2_pos(bi);
        let x = ((last.0 as nat) * pow2(gap)) as int;
        let pc = pow2(ci) as int;
        let pb = pow2(bi) as int;
        assert(raw_value(fields) == raw_value(rest) + pc * (pb * x)) by (nonlinear_arith)
            requires
                raw_value(fields) == raw_value(rest) + (last.0 as nat) * pow2(w),
                pow2(w) == pow2(ci + bi) * pow2(gap),
                pow2(ci + bi) == pc * pb,
                x == (last.0 as nat) * pow2(gap),
        ;
        let rv = raw_value(rest) as int;
        vstd::arithmetic::div_mod::lemma_fundamental_div_mod(rv, pc as int);
        vstd::arithmetic::div_mod::lemma_mod_pos_bound(rv, pc as int);
        vstd::arithmetic::div_mod::lemma_div_pos_is_pos(rv, pc as int);
        assert(raw_value(fields) == pc * (rv / pc + pb * x) + rv % pc) by (nonlinear_arith)
            requires
                raw_value(fields) == rv + pc * (pb * x),
                rv == pc * (rv / pc) + rv % pc,
        ;
        vstd::arithmetic::div_mod::lemma_div_multiples_vanish_fancy(rv / pc + pb * x, rv % pc, pc as int);
        vstd::arithmetic::div_mod::lemma_mod_multiples_vanish(x as int, rv / pc, pb as int);
        assert(pb * x + rv / pc == rv / pc + pb * x);
    }
}

/// The width of the first `i` fields grows by field `i - 1`.
proof fn lemma_raw_width_take(fields: Seq<(u32, u32)>, i: int)
    requires
        0 <= i <= fields.len(),
    ensures
        raw_width(fields.take(i)) <= raw_width(fields),
    decreases fields.len(),
{
    if i < fields.len() {
        assert(fields.take(i) =~= fields.drop_last().take(i));
        lemma_raw_width_take(fields.drop_last(), i);
    } else {
        assert(fields.take(i) =~= fields);
    }
}

/// Reading the widths of the first `j` fields gives back their values.
proof fn lemma_dec_bits_all_raw(
    d0: DecState,
    fields: Seq<(u32, u32)>,
    j: int,
    size: nat,
    buf: Seq<u8>,
)
    requires
        raw_dec_inv(d0, raw_value(fields), 0, size, buf),
        raw_digits_match(buf, size, raw_value(fields)),
        forall|i: int| 0 <= i < fields.len() ==> 1 <= (#[trigger] fields[i]).1 <= 25,
        forall|i: int| 0 <= i < fields.len() ==> ((#[trigger] fields[i]).0 as nat) < pow2(fields[i].1 as nat),
        0 <= j <= fields.len(),
    ensures
        ({
            let (d, vals) = dec_bits_all(d0, fields.take(j));
            &&& raw_dec_inv(d, raw_value(fields), raw_width(fields.take(j)), size, buf)
            &&& vals == fields.take(j).map_values(|f: (u32, u32)| f.0)
        }),
    decreases j,
{
    let r = raw_value(fields);
    if j > 0 {
        lemma_dec_bits_all_raw(d0, fields, j - 1, size, buf);
        let g = fields.take(j);
        assert(g.drop_last() =~= fields.take(j - 1));
        assert(g.last() == fields[j - 1]);
        let (d1, vals1) = dec_bits_all(d0, fields.take(j - 1));
        let c = raw_width(fields.take(j - 1));
        lemma_dec_bits_raw(d1, r, c, size, buf, fields[j - 1].1);
        assert(raw_width(g) == c + fields[j - 1].1);
        lemma_raw_field(fields, j - 1);
        let (d2, v) = dec_bits_spec(d1, fields[j - 1].1);
        assert(vals1.push(v) =~= g.map_values(|f: (u32, u32)| f.0));
    } else {
        assert(fields.take(0) =~= Seq::<(u32, u32)>::empty());
        assert(fields.take(0).map_values(|f: (u32, u32)| f.0) =~= Seq::<u32>::empty());
    }
}

/// Raw bits read back as they were written: a fresh encoder of `size` bytes
/// that writes only raw fields `(value, width)` with `enc_bits` and is
/// finished with `done` gives a buffer from which a decoder reads the same
/// values back with `dec_bits` of the same widths, in the same order.
pub proof fn lemma_raw_bits_round_trip(size: nat, fields: Seq<(u32, u32)>)
    requires
        size <= u32::MAX,
        forall|i: int| 0 <= i < fields.len() ==> 1 <= (#[trigger] fields[i]).1 <= 25,
        forall|i: int| 0 <= i < fields.len() ==> ((#[trigger] fields[i]).0 as nat) < pow2(fields[i].1 as nat),
        raw_width(fields) <= 8 * size,
    ensures
        dec_bits_all(
            dec_new_spec(enc_done_spec(enc_bits_all(enc_new_spec(size), fields))),
            fields,
        ).1 == fields.map_values(|f: (u32, u32)| f.0),
{
    lemma2_to64();
    let e = enc_bits_all(enc_new_spec(size), fields);
    lemma_enc_bits_all_raw(size, fields);
    lemma_done_raw(e, size, fields);
    let buf = enc_done_spec(e);
    let r = raw_value(fields);
    let s0 = DecState {
        buf,
        storage: buf.len() as u32,
        end_offs: 0,
        end_window: 0,
        nend_bits: 0,
        nbits_total: 9,
        offs: 0,
        rng: 128,
        val: 0,
        ext: 0,
        rem: 0,
        error: false,
    };
    let (s1, byte) = dec_read_byte(s0);
    lemma_dec_normalize_keeps_back(DecState { rem: byte as i32, val: (127 - byte / 2) as u32, ..s1 });
    let d0 = dec_new_spec(buf);
    assert(d0.end_window == 0 && d0.nend_bits == 0 && d0.end_offs == 0);
    lemma_pow2_pos(0);
    assert((r / pow2(0)) % pow2(0) == 0) by {
        vstd::arithmetic::div_mod::lemma_mod_pos_bound((r / pow2(0)) as int, 1);
    }
    lemma_dec_bits_all_raw(d0, fields, fields.len() as int, size, buf);
    assert(fields.take(fields.len() as int) =~= fields);
}


/// The eighth-bit logarithm `ec_tell_frac` subtracts: `8 * ilog(r)` plus the
/// sub-bit fraction read from the top 16 bits of `r` against the correction
/// table.
pub open spec fn frac_log(r: nat) -> int {
    let l = ilog(r);
    let m = r / pow2((l - 16) as nat);
    let b0 = m / 4096 - 8;
    l * 8 + if m > tell_frac_correction(b0) {
        b0 + 1
    } else {
        b0
    }
}

/// The top 16 bits of `r`, as `frac_log` reads them.
proof fn lemma_frac_log_parts(r: nat)
    requires
        r >= 0x8000,
    ensures
        ilog(r) >= 16,
        0x8000 <= r / pow2((ilog(r) - 16) as nat) < 0x10000,
        8 * ilog(r) <= frac_log(r) <= 8 * ilog(r) + 7,
{
    lemma_ilog_bounds(r);
    let l = ilog(r);
    lemma2_to64();
    if l < 16 {
        lemma_pow2_strictly_increases((l - 1) as nat, 15);
    }
    let k = (l - 16) as nat;
    lemma_pow2_adds(k, 15);
    lemma_pow2_adds(k, 16);
    lemma_pow2_pos(k);
    assert((l - 1) as nat == k + 15);
    vstd::arithmetic::div_mod::lemma_div_is_ordered(pow2(k + 15) as int, r as int, pow2(k) as int);
    vstd::arithmetic::div_mod::lemma_div_multiples_vanish(pow2(15) as int, pow2(k) as int);
    vstd::arithmetic::mul::lemma_mul_is_commutative(pow2(15) as int, pow2(k) as int);
    vstd::arithmetic::div_mod::lemma_multiply_divide_lt(r as int, pow2(k) as int, pow2(16) as int);
}

/// `frac_log` grows with its argument.
proof fn lemma_frac_log_monotone(r1: nat, r2: nat)
    requires
        0x8000 <= r1 <= r2,
    ensures
        frac_log(r1) <= frac_log(r2),
{
    lemma_frac_log_parts(r1);
    lemma_frac_log_parts(r2);
    lemma_ilog_monotone(r1, r2);
    if ilog(r1) == ilog(r2) {
        let k = (ilog(r1) - 16) as nat;
        lemma_pow2_pos(k);
        vstd::arithmetic::div_mod::lemma_div_is_ordered(r1 as int, r2 as int, pow2(k) as int);
        let m1 = r1 / pow2(k);
        let m2 = r2 / pow2(k);
        vstd::arithmetic::div_mod::lemma_div_is_ordered(m1 as int, m2 as int, 4096);
    }
}

/// Scaling by 256 adds eight whole bits.
proof fn lemma_frac_log_scale(r: nat)
    requires
        r >= 0x8000,
    ensures
        frac_log(256 * r) == frac_log(r) + 64,
{
    lemma_frac_log_parts(r);
    lemma_ilog_bounds(r);
    let l = ilog(r);
    lemma2_to64();
    lemma_pow2_adds((l - 1) as nat, 8);
    lemma_pow2_adds(l as nat, 8);
    lemma_ilog_unique(256 * r, l + 8);
    let k = (l - 16) as nat;
    lemma_pow2_adds(k, 8);
    lemma_pow2_pos(k);
    assert(((l + 8) - 16) as nat == k + 8);
    vstd::arithmetic::div_mod::lemma_div_denominator((256 * r) as int, 256, pow2(k) as int);
    vstd::arithmetic::div_mod::lemma_div_by_multiple(r as int, 256);
    assert((256 * r) / 256 == r);
}

/// Renormalising after a narrowing of the range `v` never moves the eighth-bit
/// position back, and only adds bytes at the front.
proof fn lemma_normalize_forward_from(s: EncState, v: nat)
    requires
        0 < s.rng <= v,
        v >= 0x8000,
        0 <= s.nbits_total + 8 * (4 - ilog(s.rng as nat) / 8) <= i32::MAX,
        s.rng <= EC_CODE_TOP,
    ensures
        enc_normalize(s).offs >= s.offs,
        enc_normalize(s).nbits_total * 8 - frac_log(enc_normalize(s).rng as nat) >= s.nbits_total
            * 8 - frac_log(v),
    decreases enc_normalize_measure(s),
{
    lemma2_to64();
    if 0 < s.rng <= EC_CODE_BOT {
        let s1 = enc_carry_out(s, (s.val / 0x80_0000) as int);
        lemma_carry_out_offs(s, (s.val / 0x80_0000) as int);
        let s2 = EncState {
            val: ((s.val % 0x80_0000) * 256) as u32,
            rng: (s.rng * 256) as u32,
            nbits_total: (s.nbits_total + 8) as i32,
            ..s1
        };
        lemma_ilog_bounds(s.rng as nat);
        lemma_ilog_monotone(s.rng as nat, 0x80_0000);
        lemma_ilog_unique(0x80_0000, 24);
        lemma_pow2_adds((ilog(s.rng as nat) - 1) as nat, 8);
        lemma_pow2_adds(ilog(s.rng as nat), 8);
        lemma_ilog_unique(256 * s.rng as nat, ilog(s.rng as nat) + 8);
        assert(s2.rng == 256 * s.rng);
        lemma_normalize_forward_from(s2, 256 * v);
        lemma_frac_log_scale(v);
    } else {
        lemma_frac_log_monotone(s.rng as nat, v);
    }
}

proof fn lemma_put_repeat_offs(s: EncState, sym: u32, n: nat)
    ensures
        enc_put_repeat(s, sym, n).offs >= s.offs,
    decreases n,
{
    if n > 0 {
        lemma_put_repeat_offs(enc_put_byte(s, sym), sym, (n - 1) as nat);
    }
}

proof fn lemma_carry_out_offs(s: EncState, c: int)
    ensures
        enc_carry_out(s, c).offs >= s.offs,
{
    if c != 255 {
        let carry = c / 256;
        let s1 = if s.rem >= 0 {
            enc_put_byte(s, (s.rem + carry) as u32)
        } else {
            s
        };
        if s1.ext > 0 {
            lemma_put_repeat_offs(s1, if carry == 0 { 255u32 } else { 0u32 }, s1.ext as nat);
        }
    }
}

/// A range narrowed from an encoder's `v` and then renormalised leaves the
/// encoder at or past its old eighth-bit position and front byte count.
pub proof fn lemma_normalize_forward(s: EncState, v: u32)
    requires
        0 < s.rng <= v,
        EC_CODE_BOT < v,
        0 <= s.nbits_total <= EC_NBITS_LIMIT,
        s.rng <= EC_CODE_TOP,
    ensures
        enc_normalize(s).offs >= s.offs,
        tell_frac_spec(enc_normalize(s).nbits_total as int, enc_normalize(s).rng) >= tell_frac_spec(
            s.nbits_total as int,
            v,
        ),
{
    lemma_ilog_bounds(s.rng as nat);
    lemma2_to64();
    lemma_ilog_monotone(s.rng as nat, 0x8000_0000);
    lemma_ilog_unique(0x8000_0000, 32);
    lemma_normalize_forward_from(s, v as nat);
}


proof fn lemma_dec_normalize_forward_from(s: DecState, v: nat)
    requires
        0 < s.rng <= v,
        v >= 0x8000,
        0 <= s.nbits_total + 8 * (4 - ilog(s.rng as nat) / 8) <= i32::MAX,
        s.rng <= EC_CODE_TOP,
    ensures
        dec_normalize(s).nbits_total * 8 - frac_log(dec_normalize(s).rng as nat) >= s.nbits_total
            * 8 - frac_log(v),
    decreases dec_normalize_measure(s),
{
    lemma2_to64();
    if 0 < s.rng <= EC_CODE_BOT {
        let (s1, byte) = dec_read_byte(s);
        let sym = (s.rem * 256 + byte) / 2;
        let s2 = DecState {
            nbits_total: (s.nbits_total + 8) as i32,
            rng: (s.rng * 256) as u32,
            rem: byte as i32,
            val: ((s.val * 256 + 255 - sym % 256) % 0x8000_0000) as u32,
            ..s1
        };
        lemma_ilog_bounds(s.rng as nat);
        lemma_ilog_monotone(s.rng as nat, 0x80_0000);
        lemma_ilog_unique(0x80_0000, 24);
        lemma_pow2_adds((ilog(s.rng as nat) - 1) as nat, 8);
        lemma_pow2_adds(ilog(s.rng as nat), 8);
        lemma_ilog_unique(256 * s.rng as nat, ilog(s.rng as nat) + 8);
        assert(s2.rng == 256 * s.rng);
        lemma_dec_normalize_forward_from(s2, 256 * v);
        lemma_frac_log_scale(v);
    } else {
        lemma_frac_log_monotone(s.rng as nat, v);
    }
}

/// A decoder range narrowed from `v` and then renormalised leaves the
/// decoder at or past its old eighth-bit position.
pub proof fn lemma_dec_normalize_forward(s: DecState, v: u32)
    requires
        0 < s.rng <= v,
        EC_CODE_BOT < v,
        0 <= s.nbits_total <= EC_NBITS_LIMIT,
        s.rng <= EC_CODE_TOP,
    ensures
        tell_frac_spec(dec_normalize(s).nbits_total as int, dec_normalize(s).rng) >= tell_frac_spec(
            s.nbits_total as int,
            v,
        ),
{
    lemma_ilog_bounds(s.rng as nat);
    lemma2_to64();
    lemma_ilog_monotone(s.rng as nat, 0x8000_0000);
    lemma_ilog_unique(0x8000_0000, 32);
    lemma_dec_normalize_forward_from(s, v as nat);
}


/// A bit: when the decoder reads back the bit the encoder wrote (with the
/// same probability), both hold the same range and bit count.
pub proof fn lemma_bit_counts_agree(e: EncState, d: DecState, val: bool, logp: nat)
    requires
        e.rng == d.rng,
        e.nbits_total == d.nbits_total,
        dec_bit_logp_spec(d, logp).1 == val,
    ensures
        enc_bit_logp_spec(e, val, logp).rng == dec_bit_logp_spec(d, logp).0.rng,
        enc_bit_logp_spec(e, val, logp).nbits_total == dec_bit_logp_spec(d, logp).0.nbits_total,
{
    let small = e.rng as nat / pow2(logp);
    let big = e.rng - small;
    let en = if val {
        EncState { val: (e.val + big) as u32, rng: small as u32, ..e }
    } else {
        EncState { rng: big as u32, ..e }
    };
    let dn = if val {
        DecState { rng: small as u32, ..d }
    } else {
        DecState { val: (d.val - small) as u32, rng: (d.rng - small) as u32, ..d }
    };
    lemma_normalize_counts_agree(en, dn);
}

/// An inverse-CDF symbol: when the decoder reads back the symbol the encoder
/// wrote (with the same table), both hold the same range and bit count.
pub proof fn lemma_icdf_counts_agree(e: EncState, d: DecState, sym: nat, icdf: Seq<u8>, ftb: nat)
    requires
        e.rng == d.rng,
        e.nbits_total == d.nbits_total,
        dec_icdf_spec(d, icdf, ftb).1 == sym,
    ensures
        enc_icdf_spec(e, sym as int, icdf, ftb).rng == dec_icdf_spec(d, icdf, ftb).0.rng,
        enc_icdf_spec(e, sym as int, icdf, ftb).nbits_total == dec_icdf_spec(d, icdf, ftb).0.nbits_total,
{
    let r = e.rng as nat / pow2(ftb);
    let en = if sym > 0 {
        EncState {
            val: (e.val + e.rng - r * icdf[sym - 1]) as u32,
            rng: (r * (icdf[sym - 1] - icdf[sym as int])) as u32,
            ..e
        }
    } else {
        EncState { rng: (e.rng - r * icdf[sym as int]) as u32, ..e }
    };
    let t: int = if sym == 0 {
        d.rng as int
    } else {
        r * icdf[sym - 1]
    };
    let lo = r * icdf[sym as int];
    let dn = DecState { val: (d.val - lo) as u32, rng: (t - lo) as u32, ..d };
    if sym > 0 {
        assert(r * (icdf[sym - 1] - icdf[sym as int]) == r * icdf[sym - 1] - r * icdf[sym as int])
            by (nonlinear_arith);
    }
    lemma_normalize_counts_agree(en, dn);
}

proof fn lemma_dec_fill_keeps_counts(s: DecState, window: u32, available: int)
    ensures
        dec_fill_window(s, window, available).0.rng == s.rng,
        dec_fill_window(s, window, available).0.nbits_total == s.nbits_total,
    decreases 32 - available,
{
    if !(available > 24 || available < 0) {
        let (s1, byte) = dec_read_byte_from_end(s);
        lemma_dec_fill_keeps_counts(s1, window | ((byte as u32) << (available as u32)), available + 8);
    }
}

proof fn lemma_enc_flush_keeps_counts(s: EncState, window: u32, used: int)
    ensures
        enc_flush_end(s, window, used).0.rng == s.rng,
        enc_flush_end(s, window, used).0.nbits_total == s.nbits_total,
    decreases (if used > 0 { used } else { 0 }),
{
    if used >= 8 {
        lemma_enc_flush_keeps_counts(enc_put_byte_at_end(s, window % 256), window / 256, used - 8);
    }
}

/// Raw bits leave the range alone on both sides and count the same bits.
pub proof fn lemma_raw_counts_agree(e: EncState, d: DecState, fl: u32, bits: u32)
    requires
        e.rng == d.rng,
        e.nbits_total == d.nbits_total,
    ensures
        enc_bits_spec(e, fl, bits).rng == dec_bits_spec(d, bits).0.rng,
        enc_bits_spec(e, fl, bits).nbits_total == dec_bits_spec(d, bits).0.nbits_total,
{
    lemma_dec_fill_keeps_counts(d, d.end_window, d.nend_bits as int);
    lemma_enc_flush_keeps_counts(
        enc_put_byte_at_end(e, e.end_window % 256),
        e.end_window / 256,
        e.nend_bits - 8,
    );
}

/// One coding call, as both sides make it.
pub enum CodedOp {
    /// A symbol `[fl, fh)` of total `ft` (`encode`, or `decode` and `dec_update`).
    Symbol(int, int, int),
    /// A bit with probability `1/2^logp` of a one.
    Bit(bool, nat),
    /// Symbol `sym` of an inverse-CDF table with a `2^ftb` total.
    Icdf(nat, Seq<u8>, nat),
    /// Raw bits `(value, width)`.
    Raw(u32, u32),
}

/// The encoder after making the calls of `ops` in turn.
pub open spec fn enc_ops_all(s: EncState, ops: Seq<CodedOp>) -> EncState
    decreases ops.len(),
{
    if ops.len() == 0 {
        s
    } else {
        let e = enc_ops_all(s, ops.drop_last());
        match ops.last() {
            CodedOp::Symbol(fl, fh, ft) => enc_encode_spec(e, fl, fh, ft),
            CodedOp::Bit(v, logp) => enc_bit_logp_spec(e, v, logp),
            CodedOp::Icdf(sym, icdf, ftb) => enc_icdf_spec(e, sym as int, icdf, ftb),
            CodedOp::Raw(v, bits) => enc_bits_spec(e, v, bits),
        }
    }
}

/// The decoder after mirroring the calls of `ops` in turn.
pub open spec fn dec_ops_all(s: DecState, ops: Seq<CodedOp>) -> DecState
    decreases ops.len(),
{
    if ops.len() == 0 {
        s
    } else {
        let d = dec_ops_all(s, ops.drop_last());
        match ops.last() {
            CodedOp::Symbol(fl, fh, ft) => dec_update_spec(dec_decode_spec(d, ft).0, fl, fh, ft),
            CodedOp::Bit(v, logp) => dec_bit_logp_spec(d, logp).0,
            CodedOp::Icdf(sym, icdf, ftb) => dec_icdf_spec(d, icdf, ftb).0,
            CodedOp::Raw(v, bits) => dec_bits_spec(d, bits).0,
        }
    }
}

/// Whether the decoder, mirroring the calls of `ops`, reads back each of
/// them: the frequency of each symbol falls in its interval, and each bit,
/// table symbol and raw field is the one the encoder wrote.
pub open spec fn dec_reads_back(s: DecState, ops: Seq<CodedOp>) -> bool
    decreases ops.len(),
{
    if ops.len() == 0 {
        true
    } else {
        let d = dec_ops_all(s, ops.drop_last());
        &&& dec_reads_back(s, ops.drop_last())
        &&& match ops.last() {
            CodedOp::Bit(v, logp) => dec_bit_logp_spec(d, logp).1 == v,
            CodedOp::Icdf(sym, icdf, ftb) => dec_icdf_spec(d, icdf, ftb).1 == sym,
            CodedOp::Symbol(fl, fh, ft) => ft >= 1 && fl <= dec_decode_spec(d, ft).1 < fh,
            CodedOp::Raw(v, bits) => dec_bits_spec(d, bits).1 == v,
        }
    }
}

/// The range register and the bit accounting are the same on both sides: a
/// fresh encoder and a decoder over any buffer that mirror the same calls,
/// the decoder reading back each bit and table symbol the encoder wrote, hold
/// the same range and report the same `ec_tell` and `ec_tell_frac` after
/// every call.
pub proof fn lemma_mirrored_calls_agree(size: nat, buf: Seq<u8>, ops: Seq<CodedOp>)
    requires
        dec_reads_back(dec_new_spec(buf), ops),
    ensures
        ({
            let e = enc_ops_all(enc_new_spec(size), ops);
            let d = dec_ops_all(dec_new_spec(buf), ops);
            &&& e.rng == d.rng
            &&& e.tell() == d.tell()
            &&& e.tell_frac() == d.tell_frac()
        }),
{
    assert(dec_new_spec(buf).rng == EC_CODE_TOP && dec_new_spec(buf).nbits_total == 33) by {
        reveal_with_fuel(dec_normalize, 4);
    }
    lemma_ops_agree(enc_new_spec(size), dec_new_spec(buf), ops);
}

/// Encoder and decoder that start with the same range and bit count and
/// mirror calls the decoder reads back keep the same range and bit count.
pub proof fn lemma_ops_agree(e0: EncState, d0: DecState, ops: Seq<CodedOp>)
    requires
        e0.rng == d0.rng,
        e0.nbits_total == d0.nbits_total,
        dec_reads_back(d0, ops),
    ensures
        enc_ops_all(e0, ops).rng == dec_ops_all(d0, ops).rng,
        enc_ops_all(e0, ops).nbits_total == dec_ops_all(d0, ops).nbits_total,
    decreases ops.len(),
{
    if ops.len() > 0 {
        let rest = ops.drop_last();
        lemma_ops_agree(e0, d0, rest);
        let e = enc_ops_all(e0, rest);
        let d = dec_ops_all(d0, rest);
        match ops.last() {
            CodedOp::Symbol(fl, fh, ft) => {
                lemma_symbol_counts_agree(e, d, fl, fh, ft);
            },
            CodedOp::Bit(v, logp) => {
                lemma_bit_counts_agree(e, d, v, logp);
            },
            CodedOp::Icdf(sym, icdf, ftb) => {
                lemma_icdf_counts_agree(e, d, sym, icdf, ftb);
            },
            CodedOp::Raw(v, bits) => {
                lemma_raw_counts_agree(e, d, v, bits);
            },
        }
    }
}

} // verus!

verus! {

/// The back of the buffer (the raw-bits bytes, window and count) is the same
/// in both states.
pub open spec fn back_same(a: EncState, b: EncState) -> bool {
    &&& a.storage == b.storage
    &&& a.buf.len() == b.buf.len()
    &&& a.end_offs == b.end_offs
    &&& a.end_window == b.end_window
    &&& a.nend_bits == b.nend_bits
    &&& forall|i: int| a.storage - a.end_offs <= i < a.storage ==> #[trigger] a.buf[i] == b.buf[i]
}

/// The buffer's bookkeeping: its length is the storage and the two ends do
/// not overlap.
pub open spec fn ends_ok(s: EncState) -> bool {
    &&& s.buf.len() == s.storage
    &&& s.offs + s.end_offs <= s.storage
}

pub proof fn lemma_back_same_trans(a: EncState, b: EncState, c: EncState)
    requires
        back_same(a, b),
        back_same(b, c),
    ensures
        back_same(a, c),
{
    assert forall|i: int| a.storage - a.end_offs <= i < a.storage implies #[trigger] a.buf[i] == c.buf[i] by {
        assert(a.buf[i] == b.buf[i]);
        assert(b.buf[i] == c.buf[i]);
    }
}

proof fn lemma_put_byte_back(s: EncState, x: u32)
    requires
        ends_ok(s),
    ensures
        back_same(s, enc_put_byte(s, x)),
        ends_ok(enc_put_byte(s, x)),
{
}

proof fn lemma_put_repeat_back(s: EncState, sym: u32, n: nat)
    requires
        ends_ok(s),
    ensures
        back_same(s, enc_put_repeat(s, sym, n)),
        ends_ok(enc_put_repeat(s, sym, n)),
    decreases n,
{
    if n > 0 {
        let s1 = enc_put_byte(s, sym);
        lemma_put_byte_back(s, sym);
        lemma_put_repeat_back(s1, sym, (n - 1) as nat);
        lemma_back_same_trans(s, s1, enc_put_repeat(s1, sym, (n - 1) as nat));
    }
}

pub proof fn lemma_carry_out_back(s: EncState, c: int)
    requires
        ends_ok(s),
    ensures
        back_same(s, enc_carry_out(s, c)),
        ends_ok(enc_carry_out(s, c)),
{
    if c != 255 {
        let carry = c / 256;
        let s1 = if s.rem >= 0 {
            enc_put_byte(s, (s.rem + carry) as u32)
        } else {
            s
        };
        if s.rem >= 0 {
            lemma_put_byte_back(s, (s.rem + carry) as u32);
        }
        if s1.ext > 0 {
            let sym = if carry == 0 {
                255u32
            } else {
                0u32
            };
            lemma_put_repeat_back(s1, sym, s1.ext as nat);
            lemma_back_same_trans(s, s1, enc_put_repeat(s1, sym, s1.ext as nat));
        }
    }
}

/// Renormalising writes only at the front.
pub proof fn lemma_normalize_back(s: EncState)
    requires
        ends_ok(s),
    ensures
        back_same(s, enc_normalize(s)),
        ends_ok(enc_normalize(s)),
    decreases enc_normalize_measure(s),
{
    if 0 < s.rng <= EC_CODE_BOT {
        let s1 = enc_carry_out(s, (s.val / 0x80_0000) as int);
        lemma_carry_out_back(s, (s.val / 0x80_0000) as int);
        let s2 = EncState {
            val: ((s.val % 0x80_0000) * 256) as u32,
            rng: (s.rng * 256) as u32,
            nbits_total: (s.nbits_total + 8) as i32,
            ..s1
        };
        lemma_normalize_back(s2);
        lemma_back_same_trans(s, s2, enc_normalize(s2));
    }
}

/// The raw fields written so far sit packed at the back of the buffer and in
/// the raw-bits window.
pub open spec fn back_inv(e: EncState, fields: Seq<(u32, u32)>) -> bool {
    &&& 0 <= e.nend_bits <= 32
    &&& (e.end_window as nat) < pow2(e.nend_bits as nat)
    &&& 8 * e.end_offs + e.nend_bits == raw_width(fields)
    &&& tail_value(e.buf, e.end_offs as nat) + e.end_window * pow2(8 * e.end_offs as nat) == raw_value(fields)
}

/// Calls that keep the back keep the packed raw fields.
pub proof fn lemma_back_inv_keep(a: EncState, b: EncState, fields: Seq<(u32, u32)>)
    requires
        back_inv(a, fields),
        back_same(a, b),
        ends_ok(a),
    ensures
        back_inv(b, fields),
{
    lemma_tail_ext(a.buf, b.buf, a.end_offs as nat);
}

/// Flushing whole bytes of the raw window to the back keeps the packed value
/// of back bytes and window, and leaves the front alone, unless the buffer
/// runs out.
pub proof fn lemma_flush_back(s: EncState, w: u32, u: int)
    requires
        ends_ok(s),
        0 <= u <= 32,
        (w as nat) < pow2(u as nat),
    ensures
        ({
            let (s2, w2, u2) = enc_flush_end(s, w, u);
            &&& s.error ==> s2.error
            &&& !s2.error ==> {
                &&& ends_ok(s2)
                &&& s2.storage == s.storage
                &&& s2.offs == s.offs
                &&& 0 <= u2 < 8
                &&& (w2 as nat) < pow2(u2 as nat)
                &&& 8 * s2.end_offs + u2 == 8 * s.end_offs + u
                &&& tail_value(s2.buf, s2.end_offs as nat) + w2 * pow2(8 * s2.end_offs as nat)
                    == tail_value(s.buf, s.end_offs as nat) + w * pow2(8 * s.end_offs as nat)
                &&& forall|i: int| 0 <= i < s.offs ==> #[trigger] s2.buf[i] == s.buf[i]
                &&& s2.rng == s.rng
                &&& s2.val == s.val
                &&& s2.rem == s.rem
                &&& s2.ext == s.ext
                &&& s2.end_window == s.end_window
                &&& s2.nend_bits == s.nend_bits
                &&& s2.nbits_total == s.nbits_total
            }
        }),
    decreases u,
{
    lemma2_to64();
    if u >= 8 {
        let k = s.end_offs as nat;
        let s1 = enc_put_byte_at_end(s, w % 256);
        lemma_pow2_adds((u - 8) as nat, 8);
        assert((w / 256) < pow2((u - 8) as nat));
        lemma_flush_back(s1, w / 256, u - 8);
        if !s1.error {
            assert(s1.buf == s.buf.update(s.storage - k - 1, (w % 256) as u8));
            lemma_tail_ext(s.buf, s1.buf, k);
            assert(tail_value(s1.buf, k + 1) == tail_value(s1.buf, k) + (w % 256) * pow2(8 * k));
            lemma_pow2_adds(8 * k, 8);
            assert(8 * (k + 1) == 8 * k + 8);
            let p = pow2(8 * k);
            assert(tail_value(s1.buf, k + 1) + (w / 256) * pow2(8 * (k + 1)) == tail_value(s.buf, k)
                + w * p) by (nonlinear_arith)
                requires
                    tail_value(s1.buf, k + 1) == tail_value(s.buf, k) + (w % 256) * p,
                    pow2(8 * (k + 1)) == p * 256,
                    w == 256 * (w / 256) + w % 256,
            ;
        }
    }
}

/// Writing one more raw field packs it above the fields before it and leaves
/// the front alone, unless the buffer runs out.
pub proof fn lemma_enc_bits_back(e: EncState, fields: Seq<(u32, u32)>, fl: u32, bits: u32)
    requires
        back_inv(e, fields),
        ends_ok(e),
        1 <= bits <= 25,
        (fl as nat) < pow2(bits as nat),
    ensures
        ({
            let r = enc_bits_spec(e, fl, bits);
            &&& e.error ==> r.error
            &&& !r.error ==> {
                &&& back_inv(r, fields.push((fl, bits)))
                &&& ends_ok(r)
                &&& r.storage == e.storage
                &&& r.offs == e.offs
                &&& forall|i: int| 0 <= i < e.offs ==> #[trigger] r.buf[i] == e.buf[i]
                &&& r.rng == e.rng
                &&& r.val == e.val
                &&& r.rem == e.rem
                &&& r.ext == e.ext
            }
        }),
{
    lemma2_to64();
    let f2 = fields.push((fl, bits));
    assert(f2.drop_last() =~= fields);
    let (s1, w1, u1) = if e.nend_bits + bits > 32 {
        enc_flush_end(
            enc_put_byte_at_end(e, e.end_window % 256),
            e.end_window / 256,
            e.nend_bits - 8,
        )
    } else {
        (e, e.end_window, e.nend_bits as int)
    };
    if e.nend_bits + bits > 32 {
        assert(enc_flush_end(e, e.end_window, e.nend_bits as int) == (s1, w1, u1));
        lemma_flush_back(e, e.end_window, e.nend_bits as int);
    }
    let r = enc_bits_spec(e, fl, bits);
    if !r.error {
        assert(!s1.error);
        let k1 = s1.end_offs as nat;
        lemma_field_shift(w1, fl, u1 as nat, bits as nat);
        lemma_pow2_adds(u1 as nat, 8 * k1);
        let p = pow2(8 * k1);
        assert(tail_value(s1.buf, k1) + (fl * pow2(u1 as nat) + w1) * p == raw_value(fields) + fl
            * pow2(raw_width(fields))) by (nonlinear_arith)
            requires
                tail_value(s1.buf, k1) + w1 * p == raw_value(fields),
                pow2(u1 as nat) * p == pow2(raw_width(fields)),
        ;
    }
}

} // verus!

verus! {

/// The last `m` bytes are the low digits of the last `k`.
pub proof fn lemma_tail_mod(buf: Seq<u8>, m: nat, k: nat)
    requires
        m <= k,
    ensures
        tail_value(buf, k) % pow2(8 * m) == tail_value(buf, m),
    decreases k,
{
    lemma_pow2_pos(8 * m);
    lemma_tail_bound(buf, m);
    if k == m {
        vstd::arithmetic::div_mod::lemma_small_mod(tail_value(buf, m), pow2(8 * m));
    } else {
        lemma_tail_mod(buf, m, (k - 1) as nat);
        let j = (k - 1) as nat;
        let b = buf[buf.len() - k] as nat;
        lemma_pow2_adds(8 * m, (8 * j - 8 * m) as nat);
        let q = pow2((8 * j - 8 * m) as nat);
        let pm = pow2(8 * m);
        assert(tail_value(buf, k) == tail_value(buf, j) + b * pow2(8 * j));
        assert(b * pow2(8 * j) == pm * (b * q)) by (nonlinear_arith)
            requires
                pow2(8 * j) == pm * q,
        ;
        vstd::arithmetic::div_mod::lemma_mod_multiples_vanish((b * q) as int, tail_value(buf, j) as int, pm as int);
        vstd::arithmetic::div_mod::lemma_mod_mod(tail_value(buf, k) as int, pm as int, 1);
    }
}

/// Two numbers that agree below bit `w` agree on every field below it.
pub proof fn lemma_low_bits_agree(v: nat, r: nat, w: nat, c: nat, b: nat)
    requires
        v % pow2(w) == r % pow2(w),
        c + b <= w,
    ensures
        (v / pow2(c)) % pow2(b) == (r / pow2(c)) % pow2(b),
{
    lemma_mod_div_pow2(v, c, b);
    lemma_mod_div_pow2(r, c, b);
    let cb = c + b;
    lemma_pow2_adds(cb, (w - cb) as nat);
    lemma_pow2_pos(cb);
    lemma_pow2_pos((w - cb) as nat);
    vstd::arithmetic::div_mod::lemma_mod_mod(v as int, pow2(cb) as int, pow2((w - cb) as nat) as int);
    vstd::arithmetic::div_mod::lemma_mod_mod(r as int, pow2(cb) as int, pow2((w - cb) as nat) as int);
}

/// The whole buffer read from the end as one little-endian number.
pub open spec fn back_value(buf: Seq<u8>) -> nat {
    tail_value(buf, buf.len())
}

/// A fresh decoder has read no raw bits.
pub proof fn lemma_dec_new_raw(buf: Seq<u8>)
    requires
        buf.len() <= u32::MAX,
    ensures
        raw_dec_inv(dec_new_spec(buf), back_value(buf), 0, buf.len(), buf),
{
    lemma2_to64();
    let s0 = DecState {
        buf,
        storage: buf.len() as u32,
        end_offs: 0,
        end_window: 0,
        nend_bits: 0,
        nbits_total: 9,
        offs: 0,
        rng: 128,
        val: 0,
        ext: 0,
        rem: 0,
        error: false,
    };
    let (s1, byte) = dec_read_byte(s0);
    lemma_dec_normalize_keeps_back(DecState { rem: byte as i32, val: (127 - byte / 2) as u32, ..s1 });
    let r = back_value(buf);
    lemma_pow2_pos(0);
    vstd::arithmetic::div_mod::lemma_mod_pos_bound((r / pow2(0)) as int, 1);
}

/// Reading `bits` raw bits from the back gives the next `bits` bits of the
/// buffer read from the end.
pub proof fn lemma_dec_bits_back(d: DecState, c: nat, buf: Seq<u8>, bits: u32)
    requires
        buf.len() <= u32::MAX,
        raw_dec_inv(d, back_value(buf), c, buf.len(), buf),
        1 <= bits <= 25,
    ensures
        ({
            let (d2, v) = dec_bits_spec(d, bits);
            &&& raw_dec_inv(d2, back_value(buf), (c + bits) as nat, buf.len(), buf)
            &&& v == (back_value(buf) / pow2(c)) % pow2(bits as nat)
        }),
{
    let size = buf.len();
    let r = back_value(buf);
    lemma_tail_bound(buf, size);
    assert forall|t: nat| t < size implies #[trigger] byte_of(r, t) == buf[size - 1 - t] by {
        lemma_tail_digit(buf, size, 0, t);
    }
    lemma_dec_bits_raw(d, r, c, size, buf, bits);
}

/// Filling the raw window reads only from the back.
proof fn lemma_fill_keeps_front(s: DecState, window: u32, available: int)
    ensures
        ({
            let t = dec_fill_window(s, window, available).0;
            &&& t.buf == s.buf && t.storage == s.storage && t.offs == s.offs
            &&& t.rem == s.rem && t.val == s.val && t.rng == s.rng && t.ext == s.ext
        }),
    decreases 32 - available,
{
    if !(available > 24 || available < 0) {
        let (s1, byte) = dec_read_byte_from_end(s);
        lemma_fill_keeps_front(s1, window | ((byte as u32) << (available as u32)), available + 8);
    }
}

/// Reading raw bits leaves the range decoder's state alone.
pub proof fn lemma_dec_bits_keeps_front(d: DecState, bits: u32)
    ensures
        ({
            let t = dec_bits_spec(d, bits).0;
            &&& t.buf == d.buf && t.storage == d.storage && t.offs == d.offs
            &&& t.rem == d.rem && t.val == d.val && t.rng == d.rng && t.ext == d.ext
        }),
{
    if d.nend_bits < bits {
        lemma_fill_keeps_front(d, d.end_window, d.nend_bits as int);
    }
}

/// The range decoder's steps leave the raw side of the decoder alone.
pub proof fn lemma_dec_normalize_back(s: DecState)
    ensures
        dec_normalize(s).buf == s.buf,
        dec_normalize(s).storage == s.storage,
        dec_normalize(s).end_offs == s.end_offs,
        dec_normalize(s).end_window == s.end_window,
        dec_normalize(s).nend_bits == s.nend_bits,
{
    lemma_dec_normalize_keeps_back(s);
}

} // verus!
