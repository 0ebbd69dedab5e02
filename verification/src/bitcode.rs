//! Boolean arithmetic coding as defined by RFC 6386 (VP8), section 7.
//!
//! The encoder turns a sequence of probability-weighted binary decisions into
//! a byte stream; the decoder is the inverse transform.  The probability is
//! an 8-bit renormalization coefficient in `[1, 255]`, applied through the
//! exact integer formula `split = 1 + (((range - 1) * probability) >> 8)`.
//!
//! Each executable step is specified against a mathematical model
//! ([`EncState`], [`DecState`]) whose transition functions state the integer
//! formulas directly.

use vstd::arithmetic::power2::pow2;
use vstd::prelude::*;

use crate::Vp8Error;

verus! {

/// Mathematical model of the encoder: the bytes committed so far, the current
/// interval width `range`, the interval position accumulator `bottom` (a
/// 32-bit accumulator of committed output bits), and the number of shifts
/// left before the next byte is flushed.
pub ghost struct EncState {
    pub output: Seq<u8>,
    pub range: int,
    pub bottom: int,
    pub bit_count: int,
}

/// Mathematical model of the decoder: the partition bytes with the read
/// position, the coded interval window `value`, the interval width `range`,
/// and the number of shifts since the last byte was pulled in.
pub ghost struct DecState {
    pub input: Seq<u8>,
    pub pos: int,
    pub value: int,
    pub range: int,
    pub bit_count: int,
}

/// The interval subdivision point shared by encoder and decoder:
/// `1 + (((range - 1) * probability) >> 8)`.
pub open spec fn bool_split(range: int, prob: int) -> int {
    1 + ((range - 1) * prob) / 256
}

/// Propagating a carry into already-committed bytes: the last byte is
/// incremented, with trailing `255` bytes rolling over to `0`.
pub open spec fn carry_into(output: Seq<u8>) -> Seq<u8>
    decreases output.len(),
{
    if output.len() == 0 {
        output
    } else if output.last() == 255 {
        carry_into(output.drop_last()).push(0)
    } else {
        output.update(output.len() - 1, (output.last() + 1) as u8)
    }
}

/// One renormalization shift of the encoder: a pending carry (bit 31 of
/// `bottom`) is propagated into the output, `bottom` and `range` double, and
/// every eighth shift commits the top byte of `bottom`.
pub open spec fn enc_shift(s: EncState) -> EncState {
    let carried = if s.bottom >= 0x8000_0000 {
        carry_into(s.output)
    } else {
        s.output
    };
    let bottom = (s.bottom * 2) % 0x1_0000_0000;
    let range = s.range * 2;
    let bit_count = s.bit_count - 1;
    if bit_count == 0 {
        EncState {
            output: carried.push((bottom / 0x100_0000) as u8),
            range,
            bottom: bottom % 0x100_0000,
            bit_count: 8,
        }
    } else {
        EncState { output: carried, range, bottom, bit_count }
    }
}

/// Encoder renormalization: shift until the interval width is back above 128.
pub open spec fn enc_renorm(s: EncState) -> EncState
    decreases 256 - s.range,
{
    if 1 <= s.range < 128 {
        enc_renorm(enc_shift(s))
    } else {
        s
    }
}

/// One encoded decision: subdivide the interval at `split`, keep the upper
/// part for a set bit (moving the interval position up) or the lower part for
/// a clear bit, then renormalize.
pub open spec fn enc_write(s: EncState, prob: int, bit: bool) -> EncState {
    let split = bool_split(s.range, prob);
    let after = if bit {
        EncState {
            output: s.output,
            range: s.range - split,
            bottom: (s.bottom + split) % 0x1_0000_0000,
            bit_count: s.bit_count,
        }
    } else {
        EncState { output: s.output, range: split, bottom: s.bottom, bit_count: s.bit_count }
    };
    enc_renorm(after)
}

/// The byte sequence produced by flushing: after a final carry check, the
/// remaining `bit_count` bits of `bottom` are shifted out and exactly four
/// trailing bytes (the high-to-low bytes of the shifted accumulator) are
/// appended.
pub open spec fn enc_flush(s: EncState) -> Seq<u8> {
    let carried = if (s.bottom / pow2((32 - s.bit_count) as nat) as int) % 2 == 1 {
        carry_into(s.output)
    } else {
        s.output
    };
    let v = (s.bottom * pow2(s.bit_count as nat) as int) % 0x1_0000_0000;
    carried.push((v / 0x100_0000) as u8)
        .push(((v / 0x1_0000) % 0x100) as u8)
        .push(((v / 0x100) % 0x100) as u8)
        .push((v % 0x100) as u8)
}

/// The model of a freshly built encoder.
pub open spec fn enc_init() -> EncState {
    EncState { output: Seq::empty(), range: 255, bottom: 0, bit_count: 24 }
}

/// The byte the decoder pulls in next: input bytes in order, then zeros once
/// the partition is exhausted (a header may end exactly on a byte boundary).
pub open spec fn dec_next_byte(s: DecState) -> int {
    if s.pos < s.input.len() {
        s.input[s.pos] as int
    } else {
        0
    }
}

/// One renormalization shift of the decoder: `value` and `range` double, and
/// every eighth shift pulls in the next input byte.
pub open spec fn dec_shift(s: DecState) -> DecState {
    let value = (s.value * 2) % 0x1_0000_0000;
    let range = s.range * 2;
    let bit_count = s.bit_count + 1;
    if bit_count == 8 {
        DecState {
            input: s.input,
            pos: if s.pos < s.input.len() { s.pos + 1 } else { s.pos },
            value: value + dec_next_byte(s),
            range,
            bit_count: 0,
        }
    } else {
        DecState { input: s.input, pos: s.pos, value, range, bit_count }
    }
}

/// Decoder renormalization: shift until the interval width is back above 128.
pub open spec fn dec_renorm(s: DecState) -> DecState
    decreases 256 - s.range,
{
    if 1 <= s.range < 128 {
        dec_renorm(dec_shift(s))
    } else {
        s
    }
}

/// One decoded decision: compare the coded window against the scaled
/// subdivision point `split << 8`, reduce the interval accordingly, then
/// renormalize.
pub open spec fn dec_read_bool(s: DecState, prob: int) -> (bool, DecState) {
    let split = bool_split(s.range, prob);
    let big_split = split * 256;
    if s.value >= big_split {
        (
            true,
            dec_renorm(
                DecState {
                    input: s.input,
                    pos: s.pos,
                    value: s.value - big_split,
                    range: s.range - split,
                    bit_count: s.bit_count,
                },
            ),
        )
    } else {
        (
            false,
            dec_renorm(
                DecState {
                    input: s.input,
                    pos: s.pos,
                    value: s.value,
                    range: split,
                    bit_count: s.bit_count,
                },
            ),
        )
    }
}

/// `n` uniform decisions folded most-significant-bit first into an
/// accumulator (truncated to 32 bits, as the executable accumulator is).
pub open spec fn dec_literal_loop(s: DecState, n: nat, acc: int) -> (int, DecState)
    decreases n,
{
    if n == 0 {
        (acc, s)
    } else {
        let (b, s1) = dec_read_bool(s, 128);
        dec_literal_loop(s1, (n - 1) as nat, (acc * 2 + if b { 1int } else { 0int }) % 0x1_0000_0000)
    }
}

/// An `n`-bit unsigned literal: `n` probability-128 decisions, most
/// significant bit first.
pub open spec fn dec_read_literal(s: DecState, n: nat) -> (int, DecState) {
    dec_literal_loop(s, n, 0)
}

/// An `n`-bit signed literal: a sign decision followed by `n` magnitude bits;
/// a set sign bit offsets the magnitude by `-2^n` (the RFC's `-1`-seeded
/// shift-in).  Zero width reads nothing at all.
pub open spec fn dec_read_signed_literal(s: DecState, n: nat) -> (int, DecState) {
    if n == 0 {
        (0, s)
    } else {
        let (sign, s1) = dec_read_bool(s, 128);
        let (mag, s2) = dec_read_literal(s1, n);
        (if sign { mag - pow2(n) as int } else { mag }, s2)
    }
}

/// The model of a freshly built decoder: the first two bytes fill the coded
/// window.
pub open spec fn dec_init(input: Seq<u8>) -> DecState {
    DecState {
        input,
        pos: 2,
        value: input[0] as int * 256 + input[1] as int,
        range: 255,
        bit_count: 0,
    }
}

impl EncState {
    /// What holds of the encoder between operations.
    pub open spec fn wf(self) -> bool {
        &&& 128 <= self.range <= 255
        &&& 1 <= self.bit_count <= 24
        &&& 0 <= self.bottom < 0x1_0000_0000
    }
}

impl DecState {
    /// What holds of the decoder between operations: the window keeps a whole
    /// number of shifted-in bytes, so its low `bit_count` bits are clear.
    pub open spec fn wf(self) -> bool {
        &&& 128 <= self.range <= 255
        &&& 0 <= self.bit_count <= 7
        &&& 0 <= self.value < 0x1_0000_0000
        &&& self.value % pow2(self.bit_count as nat) as int == 0
        &&& 0 <= self.pos <= self.input.len()
    }
}

proof fn lemma_shr8_is_div(x: u32)
    by (bit_vector)
    ensures
        x >> 8u32 == x / 256,
{
}

proof fn lemma_shl1_doubles(x: u32)
    by (bit_vector)
    ensures
        x << 1u32 == (x * 2) % 0x1_0000_0000,
{
}

proof fn lemma_top_bit_is_ge(x: u32)
    by (bit_vector)
    ensures
        (x & 0x8000_0000) != 0 <==> x >= 0x8000_0000,
{
}

proof fn lemma_shr24_is_div(x: u32)
    by (bit_vector)
    ensures
        x >> 24u32 == x / 0x100_0000,
{
}

proof fn lemma_mask24_is_mod(x: u32)
    by (bit_vector)
    ensures
        x & 0xFF_FFFF == x % 0x100_0000,
{
}

proof fn lemma_bit_test(x: u32, k: u32)
    by (bit_vector)
    requires
        k < 32,
    ensures
        (x & (1u32 << k) != 0) <==> ((x >> k) % 2 == 1),
{
}

proof fn lemma_flush_bytes(x: u32)
    by (bit_vector)
    ensures
        x >> 24u32 == x / 0x100_0000,
        (x << 8u32) >> 24u32 == (x / 0x1_0000) % 0x100,
        ((x << 8u32) << 8u32) >> 24u32 == (x / 0x100) % 0x100,
        (((x << 8u32) << 8u32) << 8u32) >> 24u32 == x % 0x100,
{
}

proof fn lemma_shl8_is_mul(x: u32)
    by (bit_vector)
    requires
        x < 0x100_0000,
    ensures
        (x << 8u32) == x * 256,
{
}

proof fn lemma_or_byte(v: u32, b: u32)
    by (bit_vector)
    requires
        v % 256 == 0,
        b < 256,
    ensures
        (v | b) == v + b,
{
}

proof fn lemma_zero_mod(d: int)
    requires
        0 < d,
    ensures
        0int % d == 0,
{
    vstd::arithmetic::div_mod::lemma_mod_multiples_basic(0, d);
}

proof fn lemma_mul_of_multiple_mod(x: int, y: int, m: int)
    requires
        0 < m,
        y % m == 0,
    ensures
        (x * y) % m == 0,
{
    vstd::arithmetic::div_mod::lemma_fundamental_div_mod(y, m);
    assert(x * y == m * (x * (y / m))) by (nonlinear_arith)
        requires
            y == m * (y / m) + 0,
    ;
    vstd::arithmetic::div_mod::lemma_mod_multiples_vanish(x * (y / m), 0, m);
}

proof fn lemma_pow2_divides_pow2(a: nat, b: nat)
    requires
        a <= b,
    ensures
        pow2(b) as int % pow2(a) as int == 0,
{
    vstd::arithmetic::power2::lemma_pow2_adds(a, (b - a) as nat);
    vstd::arithmetic::power2::lemma_pow2_pos(a);
    vstd::arithmetic::div_mod::lemma_mod_multiples_basic(
        pow2((b - a) as nat) as int,
        pow2(a) as int,
    );
    assert(pow2((b - a) as nat) as int * pow2(a) as int == pow2(a) as int * pow2(
        (b - a) as nat,
    ) as int) by (nonlinear_arith);
}

proof fn lemma_mod_of_truncate(x: int, d: int)
    requires
        0 < d,
        0x1_0000_0000int % d == 0,
        x % d == 0,
    ensures
        (x % 0x1_0000_0000int) % d == 0,
{
    let m: int = 0x1_0000_0000;
    let q: int = x / m;
    vstd::arithmetic::div_mod::lemma_fundamental_div_mod(x, m);
    assert(x % m == x - q * m);
    lemma_mul_of_multiple_mod(q, m, d);
    assert((q * m) % d == 0);
    vstd::arithmetic::div_mod::lemma_sub_mod_noop(x, q * m, d);
    lemma_zero_mod(d);
    assert((x - q * m) % d == 0);
}

proof fn lemma_double_multiple(v: int, p: int)
    requires
        0 < p,
        v % p == 0,
    ensures
        (2 * v) % (2 * p) == 0,
{
    vstd::arithmetic::div_mod::lemma_fundamental_div_mod(v, p);
    assert(2 * v == (2 * p) * (v / p)) by (nonlinear_arith)
        requires
            v == p * (v / p) + 0,
    ;
    vstd::arithmetic::div_mod::lemma_mod_multiples_basic(v / p, 2 * p);
    assert((v / p) * (2 * p) == (2 * p) * (v / p)) by (nonlinear_arith);
}

proof fn lemma_split_bounds(range: u32, prob: u32, rp: u32)
    by (bit_vector)
    requires
        2 <= range <= 255,
        1 <= prob <= 255,
        rp == (range - 1) * prob,
    ensures
        1 <= 1 + (rp >> 8u32) <= range - 1,
{
}

/// The sequence of probability-weighted binary decisions turned into a byte
/// stream by the boolean arithmetic encoder (RFC 6386 section 7).  Single
/// use: `flush` consumes the encoder and returns the bytes.
pub struct BoolEncoder {
    output: Vec<u8>,
    range: u32,
    bottom: u32,
    bit_count: u32,
}

impl View for BoolEncoder {
    type V = EncState;

    closed spec fn view(&self) -> EncState {
        EncState {
            output: self.output@,
            range: self.range as int,
            bottom: self.bottom as int,
            bit_count: self.bit_count as int,
        }
    }
}

impl BoolEncoder {
    /// A fresh encoder: empty output, full-width interval.
    pub fn new() -> (r: Self)
        ensures
            r@ == enc_init(),
            r@.wf(),
    {
        let r = Self { output: Vec::new(), range: 255, bottom: 0, bit_count: 24 };
        proof {
            assert(r@.output =~= enc_init().output);
        }
        r
    }

    /// Increment the last committed byte, rolling trailing `255` bytes over
    /// to `0`: the carry propagation of the renormalization step.
    fn add_one_to_output(&mut self)
        ensures
            final(self)@ == (EncState { output: carry_into(old(self)@.output), ..old(self)@ }),
    {
        let ghost orig: Seq<u8> = self.output@;
        let mut i: usize = self.output.len();
        proof {
            assert(orig.subrange(0, i as int) =~= orig);
            assert(carry_into(orig).add(Seq::new(0nat, |k: int| 0u8)) =~= carry_into(orig));
        }
        while i > 0
            invariant
                orig == old(self)@.output,
                i <= orig.len(),
                self.output@.len() == orig.len(),
                self.output@.subrange(0, i as int) == orig.subrange(0, i as int),
                forall|j: int| i <= j < orig.len() ==> self.output@[j] == 0,
                carry_into(orig) == carry_into(orig.subrange(0, i as int)).add(
                    Seq::new((orig.len() - i) as nat, |k: int| 0u8),
                ),
                self.range == old(self).range,
                self.bottom == old(self).bottom,
                self.bit_count == old(self).bit_count,
            decreases i,
        {
            let ghost prev: Seq<u8> = self.output@;
            i = i - 1;
            let b = self.output[i];
            if b == 255 {
                self.output[i] = 0;
                proof {
                    let pre = orig.subrange(0, i as int + 1);
                    assert(pre.last() == 255);
                    assert(pre.drop_last() =~= orig.subrange(0, i as int));
                    assert(carry_into(pre) == carry_into(orig.subrange(0, i as int)).push(0));
                    assert(carry_into(pre).add(Seq::new((orig.len() - i - 1) as nat, |k: int| 0u8))
                        =~= carry_into(orig.subrange(0, i as int)).add(
                        Seq::new((orig.len() - i) as nat, |k: int| 0u8),
                    ));
                    assert(self.output@.subrange(0, i as int) =~= orig.subrange(0, i as int));
                }
            } else {
                self.output[i] = b + 1;
                proof {
                    let pre = orig.subrange(0, i as int + 1);
                    assert(pre.last() == b);
                    assert(carry_into(pre) =~= pre.update(i as int, (b + 1) as u8));
                    assert(self.output@ =~= carry_into(pre).add(
                        Seq::new((orig.len() - i - 1) as nat, |k: int| 0u8),
                    ));
                    assert(self.output@ =~= carry_into(orig));
                    assert(self@ == (EncState {
                        output: carry_into(old(self)@.output),
                        ..old(self)@
                    }));
                }
                return ;
            }
        }
        proof {
            assert(orig.subrange(0, 0) =~= Seq::<u8>::empty());
            assert(carry_into(orig) =~= self.output@);
        }
    }

    /// Encode one decision with the given probability coefficient.
    pub fn write_bool(&mut self, prob: u32, value: u8)
        requires
            old(self)@.wf(),
            1 <= prob <= 255,
        ensures
            final(self)@ == enc_write(old(self)@, prob as int, value != 0),
            final(self)@.wf(),
    {
        proof {
            assert((self.range - 1) * prob <= 254 * 255) by (nonlinear_arith)
                requires
                    128 <= self.range <= 255 && 1 <= prob <= 255,
            ;
        }
        let rp: u32 = (self.range - 1) * prob;
        proof {
            lemma_shr8_is_div(rp);
            lemma_split_bounds(self.range, prob, rp);
        }
        let split: u32 = 1 + (rp >> 8);
        proof {
            assert(split == bool_split(self@.range, prob as int));
        }

        if value != 0 {
            self.bottom = self.bottom.wrapping_add(split);
            self.range = self.range - split;
        } else {
            self.range = split;
        }
        let ghost decided: EncState = self@;
        proof {
            assert(decided == (if value != 0 {
                EncState {
                    output: old(self)@.output,
                    range: old(self)@.range - bool_split(old(self)@.range, prob as int),
                    bottom: (old(self)@.bottom + bool_split(old(self)@.range, prob as int))
                        % 0x1_0000_0000,
                    bit_count: old(self)@.bit_count,
                }
            } else {
                EncState {
                    output: old(self)@.output,
                    range: bool_split(old(self)@.range, prob as int),
                    bottom: old(self)@.bottom,
                    bit_count: old(self)@.bit_count,
                }
            }));
        }

        while self.range < 128
            invariant
                1 <= self.range <= 255,
                1 <= self.bit_count <= 24,
                enc_renorm(self@) == enc_renorm(decided),
            decreases 256 - self.range,
        {
            let ghost prev: EncState = self@;
            if (self.bottom & 0x8000_0000) != 0 {
                proof {
                    lemma_top_bit_is_ge(self.bottom);
                }
                self.add_one_to_output();
            } else {
                proof {
                    lemma_top_bit_is_ge(self.bottom);
                }
            }
            proof {
                lemma_shl1_doubles(self.bottom);
            }
            self.bottom = self.bottom << 1;
            self.range = self.range << 1;
            proof {
                lemma_shl1_doubles((prev.range) as u32);
            }
            self.bit_count = self.bit_count - 1;
            if self.bit_count == 0 {
                proof {
                    lemma_shr24_is_div(self.bottom);
                    lemma_mask24_is_mod(self.bottom);
                }
                let byte: u8 = (self.bottom >> 24) as u8;
                self.output.push(byte);
                self.bottom = self.bottom & 0xFF_FFFF;
                self.bit_count = 8;
            }
            proof {
                assert(self@ == enc_shift(prev));
                assert(enc_renorm(prev) == enc_renorm(enc_shift(prev)));
            }
        }
        proof {
            assert(enc_renorm(self@) == self@);
            assert(final(self)@ == enc_write(old(self)@, prob as int, value != 0));
        }
    }

    /// Close the coded interval: shift out the pending bits of `bottom` and
    /// append four trailing bytes, so that any value the decoder
    /// reconstructs from the returned bytes lies inside the final interval.
    pub fn flush(self) -> (r: Vec<u8>)
        requires
            self@.wf(),
        ensures
            r@ == enc_flush(self@),
    {
        let ghost s0: EncState = self@;
        let mut this = self;
        let c: u32 = this.bit_count;
        let mut v: u32 = this.bottom;

        let test: u32 = v & (1u32 << (32 - c));
        proof {
            lemma_bit_test(v, (32 - c) as u32);
            vstd::bits::lemma_u32_shr_is_div(v, (32 - c) as u32);
        }
        if test != 0 {
            this.add_one_to_output();
        }
        proof {
            assert(this.output@ == (if (s0.bottom / pow2((32 - s0.bit_count) as nat) as int) % 2
                == 1 {
                carry_into(s0.output)
            } else {
                s0.output
            }));
            assert(pow2(0) == 1) by {
                vstd::arithmetic::power2::lemma2_to64();
            };
            assert(s0.bottom * pow2(0) as int == s0.bottom) by {
                vstd::arithmetic::mul::lemma_mul_basics(s0.bottom);
            };
            assert(v == (s0.bottom * pow2(0) as int) % 0x1_0000_0000);
        }

        let mut j: u32 = c;
        while j > 0
            invariant
                j <= c <= 24,
                0 <= s0.bottom < 0x1_0000_0000,
                v == (s0.bottom * pow2((c - j) as nat) as int) % 0x1_0000_0000,
            decreases j,
        {
            proof {
                lemma_shl1_doubles(v);
                let p: int = pow2((c - j) as nat) as int;
                vstd::arithmetic::div_mod::lemma_mul_mod_noop_left(
                    s0.bottom * p,
                    2,
                    0x1_0000_0000,
                );
                assert((s0.bottom * p) * 2 == s0.bottom * (2 * p)) by (nonlinear_arith);
                vstd::arithmetic::power2::lemma_pow2_unfold((c - j) as nat + 1);
                assert(pow2((c - j) as nat + 1) as int == 2 * p);
                assert((v * 2) % 0x1_0000_0000 == (s0.bottom * pow2((c - j) as nat + 1) as int)
                    % 0x1_0000_0000);
            }
            v = v << 1;
            j = j - 1;
        }
        proof {
            assert(v == (s0.bottom * pow2(s0.bit_count as nat) as int) % 0x1_0000_0000);
        }

        let v1: u32 = v << 8;
        let v2: u32 = v1 << 8;
        let v3: u32 = v2 << 8;
        proof {
            lemma_flush_bytes(v);
        }
        this.output.push((v >> 24) as u8);
        this.output.push((v1 >> 24) as u8);
        this.output.push((v2 >> 24) as u8);
        this.output.push((v3 >> 24) as u8);
        proof {
            assert(this.output@ =~= enc_flush(s0));
        }
        this.output
    }
}

/// Turns one compressed partition back into probability-weighted binary
/// decisions.  Construction needs at least two bytes; after that no read can
/// fail: once the partition is exhausted, renormalization shifts in zero
/// bytes, since a header may end exactly on a byte boundary.
pub struct BoolDecoder<'a> {
    input: &'a [u8],
    pos: usize,
    value: u32,
    range: u32,
    bit_count: u32,
}

impl<'a> View for BoolDecoder<'a> {
    type V = DecState;

    closed spec fn view(&self) -> DecState {
        DecState {
            input: self.input@,
            pos: self.pos as int,
            value: self.value as int,
            range: self.range as int,
            bit_count: self.bit_count as int,
        }
    }
}

impl<'a> BoolDecoder<'a> {
    /// A decoder over one partition.  The initial fill needs two bytes;
    /// anything shorter is a truncated partition.
    pub fn new(input: &'a [u8]) -> (r: Result<Self, Vp8Error>)
        ensures
            input@.len() >= 2 ==> (r matches Ok(d) && d@ == dec_init(input@) && d@.wf()),
            input@.len() < 2 ==> r == Result::<Self, Vp8Error>::Err(Vp8Error::TruncatedInput),
    {
        if input.len() < 2 {
            return Err(Vp8Error::TruncatedInput);
        }
        let hi: u32 = input[0] as u32;
        let lo: u32 = input[1] as u32;
        proof {
            lemma_init_value(hi, lo);
            vstd::arithmetic::power2::lemma2_to64();
        }
        let value: u32 = (hi << 8) | lo;
        Ok(Self { input, pos: 2, value, range: 255, bit_count: 0 })
    }

    /// Decode one decision with the given probability coefficient.
    pub fn read_bool(&mut self, prob: u32) -> (r: bool)
        requires
            old(self)@.wf(),
            1 <= prob <= 255,
        ensures
            r == dec_read_bool(old(self)@, prob as int).0,
            final(self)@ == dec_read_bool(old(self)@, prob as int).1,
            final(self)@.wf(),
    {
        proof {
            assert((self.range - 1) * prob <= 254 * 255) by (nonlinear_arith)
                requires
                    128 <= self.range <= 255 && 1 <= prob <= 255,
            ;
        }
        let rp: u32 = (self.range - 1) * prob;
        proof {
            lemma_shr8_is_div(rp);
            lemma_split_bounds(self.range, prob, rp);
        }
        let split: u32 = 1 + (rp >> 8);
        proof {
            assert(split == bool_split(self@.range, prob as int));
            lemma_shl8_is_mul(split);
        }
        let big_split: u32 = split << 8;

        let retval: bool;
        if self.value >= big_split {
            retval = true;
            self.range = self.range - split;
            self.value = self.value - big_split;
        } else {
            retval = false;
            self.range = split;
        }
        let ghost decided: DecState = self@;
        proof {
            let d: int = pow2(old(self)@.bit_count as nat) as int;
            vstd::arithmetic::power2::lemma_pow2_pos(old(self)@.bit_count as nat);
            lemma_pow2_divides_pow2(old(self)@.bit_count as nat, 8);
            vstd::arithmetic::power2::lemma2_to64();
            lemma_mul_of_multiple_mod(split as int, 256, d);
            vstd::arithmetic::div_mod::lemma_sub_mod_noop(
                old(self)@.value,
                split as int * 256,
                d,
            );
            lemma_zero_mod(d);
            assert(decided.value % pow2(decided.bit_count as nat) as int == 0);
            assert(retval == dec_read_bool(old(self)@, prob as int).0);
            assert(dec_renorm(decided) == dec_read_bool(old(self)@, prob as int).1);
        }

        while self.range < 128
            invariant
                1 <= self.range <= 255,
                0 <= self.bit_count <= 7,
                self@.value % pow2(self@.bit_count as nat) as int == 0,
                self@.pos <= self@.input.len(),
                dec_renorm(self@) == dec_renorm(decided),
            decreases 256 - self.range,
        {
            let ghost prev: DecState = self@;
            proof {
                lemma_shl1_doubles(self.value);
                let p: int = pow2(prev.bit_count as nat) as int;
                vstd::arithmetic::power2::lemma_pow2_pos(prev.bit_count as nat);
                lemma_double_multiple(prev.value, p);
                vstd::arithmetic::power2::lemma_pow2_unfold(prev.bit_count as nat + 1);
                lemma_pow2_divides_pow2(prev.bit_count as nat + 1, 32);
                vstd::arithmetic::power2::lemma2_to64();
                lemma_mod_of_truncate(2 * prev.value, pow2(prev.bit_count as nat + 1) as int);
                assert(((prev.value * 2) % 0x1_0000_0000) % pow2(
                    prev.bit_count as nat + 1,
                ) as int == 0);
            }
            self.value = self.value << 1;
            proof {
                lemma_shl1_doubles(self.range);
            }
            self.range = self.range << 1;
            self.bit_count = self.bit_count + 1;
            if self.bit_count == 8 {
                self.bit_count = 0;
                let b: u8;
                if self.pos < self.input.len() {
                    b = self.input[self.pos];
                    self.pos = self.pos + 1;
                } else {
                    b = 0;
                }
                proof {
                    lemma_or_byte(self.value, b as u32);
                }
                self.value = self.value | (b as u32);
            }
            proof {
                assert(self@ == dec_shift(prev));
                assert(dec_renorm(prev) == dec_renorm(dec_shift(prev)));
            }
        }
        proof {
            assert(dec_renorm(self@) == self@);
            assert(final(self)@ == dec_read_bool(old(self)@, prob as int).1);
        }
        retval
    }

    /// One uniform decision: `read_bool` with probability 128.
    pub fn read_bit(&mut self) -> (r: bool)
        requires
            old(self)@.wf(),
        ensures
            r == dec_read_bool(old(self)@, 128).0,
            final(self)@ == dec_read_bool(old(self)@, 128).1,
            final(self)@.wf(),
    {
        self.read_bool(128)
    }

    /// An unsigned literal of `num_bits` uniform decisions, most significant
    /// bit first.
    pub fn read_literal(&mut self, num_bits: u32) -> (r: u32)
        requires
            old(self)@.wf(),
        ensures
            r == dec_read_literal(old(self)@, num_bits as nat).0,
            final(self)@ == dec_read_literal(old(self)@, num_bits as nat).1,
            final(self)@.wf(),
            num_bits <= 32 ==> r < pow2(num_bits as nat),
    {
        proof {
            if num_bits <= 32 {
                vstd::arithmetic::power2::lemma2_to64();
                lemma_literal_loop_bound(old(self)@, num_bits as nat, 0, 0);
            }
        }
        let mut v: u32 = 0;
        let mut i: u32 = 0;
        while i < num_bits
            invariant
                i <= num_bits,
                self@.wf(),
                dec_literal_loop(old(self)@, num_bits as nat, 0) == dec_literal_loop(
                    self@,
                    (num_bits - i) as nat,
                    v as int,
                ),
            decreases num_bits - i,
        {
            let ghost prev: DecState = self@;
            let ghost v0: int = v as int;
            let b = self.read_bool(128);
            proof {
                lemma_shl1_doubles(v);
                assert((v << 1u32) % 2 == 0) by (bit_vector);
                vstd::arithmetic::div_mod::lemma_fundamental_div_mod(
                    2 * v0 + if b { 1int } else { 0int },
                    0x1_0000_0000,
                );
            }
            v = (v << 1) + (if b { 1u32 } else { 0u32 });
            proof {
                assert(v as int == (v0 * 2 + if b { 1int } else { 0int }) % 0x1_0000_0000);
                assert(dec_literal_loop(prev, (num_bits - i) as nat, v0) == dec_literal_loop(
                    self@,
                    (num_bits - i - 1) as nat,
                    v as int,
                ));
            }
            i = i + 1;
        }
        v
    }

    /// A signed literal: one sign decision, then `num_bits` magnitude bits; a
    /// set sign bit offsets the magnitude by `-2^num_bits`.  Zero width reads
    /// nothing and returns 0.
    pub fn read_signed_literal(&mut self, num_bits: u32) -> (r: i32)
        requires
            old(self)@.wf(),
            num_bits <= 31,
        ensures
            r == dec_read_signed_literal(old(self)@, num_bits as nat).0,
            final(self)@ == dec_read_signed_literal(old(self)@, num_bits as nat).1,
            final(self)@.wf(),
    {
        if num_bits == 0 {
            return 0;
        }
        let sign = self.read_bool(128);
        let ghost s1: DecState = self@;
        let mag: u32 = self.read_literal(num_bits);
        proof {
            vstd::arithmetic::power2::lemma2_to64();
            lemma_literal_loop_bound(s1, num_bits as nat, 0, 0);
            vstd::bits::lemma_u32_pow2_no_overflow(num_bits as nat);
            vstd::bits::lemma_u32_shl_is_mul(1u32, num_bits);
            if num_bits < 31 {
                vstd::arithmetic::power2::lemma_pow2_strictly_increases(
                    num_bits as nat,
                    31,
                );
            }
        }
        if sign {
            let pow: u32 = 1u32 << num_bits;
            (mag as i64 - pow as i64) as i32
        } else {
            mag as i32
        }
    }
}

/// Bound on decoded literals: starting from an accumulator below `2^k`,
/// folding in `n` more bits stays below `2^(k + n)`, with no 32-bit
/// truncation as long as `k + n <= 32`.
proof fn lemma_literal_loop_bound(s: DecState, n: nat, acc: int, k: nat)
    requires
        0 <= acc < pow2(k),
        n + k <= 32,
    ensures
        0 <= dec_literal_loop(s, n, acc).0 < pow2((k + n) as nat),
    decreases n,
{
    vstd::arithmetic::power2::lemma2_to64();
    if n == 0 {
    } else {
        let (b, s1) = dec_read_bool(s, 128);
        let acc2: int = acc * 2 + if b { 1int } else { 0int };
        vstd::arithmetic::power2::lemma_pow2_unfold(k + 1);
        assert(acc2 < pow2(k + 1));
        if k + 1 < 32 {
            vstd::arithmetic::power2::lemma_pow2_strictly_increases(k + 1, 32);
        }
        assert(acc2 % 0x1_0000_0000 == acc2) by {
            vstd::arithmetic::div_mod::lemma_small_mod(acc2 as nat, 0x1_0000_0000nat);
        };
        lemma_literal_loop_bound(s1, (n - 1) as nat, acc2, k + 1);
    }
}

/// Zero-width literals read nothing at all: the result is 0 and the decoder
/// state, including its position in the partition, is untouched.
pub proof fn lemma_literal_zero_width(s: DecState)
    ensures
        dec_read_literal(s, 0) == (0int, s),
{
}

/// Zero-width signed literals read nothing at all: the result is 0 and the
/// decoder state, including its position in the partition, is untouched.
pub proof fn lemma_signed_literal_zero_width(s: DecState)
    ensures
        dec_read_signed_literal(s, 0) == (0int, s),
{
}

/// The round-trip pipeline for a single `(probability, bit)` pair: encode
/// the bit, flush, and decode the first decision of the resulting bytes with
/// the same probability.
pub open spec fn single_decision_round_trips(prob: int, bit: bool) -> bool {
    let bytes = enc_flush(enc_write(enc_init(), prob, bit));
    bytes.len() >= 2 && dec_read_bool(dec_init(bytes), prob).0 == bit
}

proof fn lemma_flush_small_bottom(s: EncState, b: int, k: nat)
    requires
        s.output == Seq::<u8>::empty(),
        0 <= b < 256,
        k <= 7,
        s.bit_count == 24 - k,
        s.bottom == b * pow2(k) as int,
    ensures
        enc_flush(s) =~= seq![b as u8, 0u8, 0u8, 0u8],
{
    vstd::arithmetic::power2::lemma2_to64();
    vstd::arithmetic::power2::lemma_pow2_pos(k);
    vstd::arithmetic::power2::lemma_pow2_adds(k, (24 - k) as nat);
    vstd::arithmetic::power2::lemma_pow2_adds(8, k);
    assert(b * pow2(k) as int * pow2((24 - k) as nat) as int == b * 0x100_0000)
        by (nonlinear_arith)
        requires
            pow2(k) as int * pow2((24 - k) as nat) as int == 0x100_0000,
    ;
    assert(s.bottom * pow2(s.bit_count as nat) as int == b * 0x100_0000);
    vstd::arithmetic::div_mod::lemma_small_mod((b * 0x100_0000) as nat, 0x1_0000_0000nat);
    // no pending carry: the accumulator is below the tested bit
    assert(b * (pow2(k) as int) < 256 * (pow2(k) as int)) by (nonlinear_arith)
        requires
            b < 256 && pow2(k) as int > 0,
    ;
    vstd::arithmetic::div_mod::lemma_basic_div(s.bottom, pow2((8 + k) as nat) as int);
    // the four flushed bytes
    vstd::arithmetic::div_mod::lemma_div_multiples_vanish(b, 0x100_0000);
    vstd::arithmetic::div_mod::lemma_div_multiples_vanish(b * 0x100, 0x1_0000);
    vstd::arithmetic::div_mod::lemma_div_multiples_vanish(b * 0x1_0000, 0x100);
    vstd::arithmetic::div_mod::lemma_mod_multiples_vanish(b, 0int, 0x100);
    vstd::arithmetic::div_mod::lemma_mod_multiples_vanish(b * 0x100, 0int, 0x100);
    vstd::arithmetic::div_mod::lemma_mod_multiples_vanish(b * 0x1_0000, 0int, 0x100);
    vstd::arithmetic::div_mod::lemma_mod_multiples_vanish(b * 0x10000, 0int, 0x100);
}

#[verifier::rlimit(100)]
#[verifier::spinoff_prover]
proof fn lemma_first_write_flush(after: EncState, sbot: int)
    requires
        after.output == Seq::<u8>::empty(),
        after.bit_count == 24,
        after.bottom == sbot,
        0 <= sbot < 256,
        1 <= after.range <= 254,
    ensures
        enc_flush(enc_renorm(after)) =~= seq![sbot as u8, 0u8, 0u8, 0u8],
{
    vstd::arithmetic::power2::lemma2_to64();
    if after.range >= 128 {
        assert(enc_renorm(after) == after);
        assert(after.bottom == sbot * pow2(0) as int);
        lemma_flush_small_bottom(after, sbot, 0);
    }
    else if after.range >= 64 {
        let mut a = after;
        assert(enc_renorm(a) == enc_renorm(enc_shift(a)));
        a = enc_shift(a);
        assert(enc_renorm(after) == a);
        assert(a.bottom == sbot * pow2(1) as int);
        assert(a.bit_count == 24 - 1);
        lemma_flush_small_bottom(a, sbot, 1);
    }
    else if after.range >= 32 {
        let mut a = after;
        assert(enc_renorm(a) == enc_renorm(enc_shift(a)));
        a = enc_shift(a);
        assert(enc_renorm(a) == enc_renorm(enc_shift(a)));
        a = enc_shift(a);
        assert(enc_renorm(after) == a);
        assert(a.bottom == sbot * pow2(2) as int);
        assert(a.bit_count == 24 - 2);
        lemma_flush_small_bottom(a, sbot, 2);
    }
    else if after.range >= 16 {
        let mut a = after;
        assert(enc_renorm(a) == enc_renorm(enc_shift(a)));
        a = enc_shift(a);
        assert(enc_renorm(a) == enc_renorm(enc_shift(a)));
        a = enc_shift(a);
        assert(enc_renorm(a) == enc_renorm(enc_shift(a)));
        a = enc_shift(a);
        assert(enc_renorm(after) == a);
        assert(a.bottom == sbot * pow2(3) as int);
        assert(a.bit_count == 24 - 3);
        lemma_flush_small_bottom(a, sbot, 3);
    }
    else if after.range >= 8 {
        let mut a = after;
        assert(enc_renorm(a) == enc_renorm(enc_shift(a)));
        a = enc_shift(a);
        assert(enc_renorm(a) == enc_renorm(enc_shift(a)));
        a = enc_shift(a);
        assert(enc_renorm(a) == enc_renorm(enc_shift(a)));
        a = enc_shift(a);
        assert(enc_renorm(a) == enc_renorm(enc_shift(a)));
        a = enc_shift(a);
        assert(enc_renorm(after) == a);
        assert(a.bottom == sbot * pow2(4) as int);
        assert(a.bit_count == 24 - 4);
        lemma_flush_small_bottom(a, sbot, 4);
    }
    else if after.range >= 4 {
        let mut a = after;
        assert(enc_renorm(a) == enc_renorm(enc_shift(a)));
        a = enc_shift(a);
        assert(enc_renorm(a) == enc_renorm(enc_shift(a)));
        a = enc_shift(a);
        assert(enc_renorm(a) == enc_renorm(enc_shift(a)));
        a = enc_shift(a);
        assert(enc_renorm(a) == enc_renorm(enc_shift(a)));
        a = enc_shift(a);
        assert(enc_renorm(a) == enc_renorm(enc_shift(a)));
        a = enc_shift(a);
        assert(enc_renorm(after) == a);
        assert(a.bottom == sbot * pow2(5) as int);
        assert(a.bit_count == 24 - 5);
        lemma_flush_small_bottom(a, sbot, 5);
    }
    else if after.range >= 2 {
        let mut a = after;
        assert(enc_renorm(a) == enc_renorm(enc_shift(a)));
        a = enc_shift(a);
        assert(enc_renorm(a) == enc_renorm(enc_shift(a)));
        a = enc_shift(a);
        assert(enc_renorm(a) == enc_renorm(enc_shift(a)));
        a = enc_shift(a);
        assert(enc_renorm(a) == enc_renorm(enc_shift(a)));
        a = enc_shift(a);
        assert(enc_renorm(a) == enc_renorm(enc_shift(a)));
        a = enc_shift(a);
        assert(enc_renorm(a) == enc_renorm(enc_shift(a)));
        a = enc_shift(a);
        assert(enc_renorm(after) == a);
        assert(a.bottom == sbot * pow2(6) as int);
        assert(a.bit_count == 24 - 6);
        lemma_flush_small_bottom(a, sbot, 6);
    }
    else {
        let mut a = after;
        assert(enc_renorm(a) == enc_renorm(enc_shift(a)));
        a = enc_shift(a);
        assert(enc_renorm(a) == enc_renorm(enc_shift(a)));
        a = enc_shift(a);
        assert(enc_renorm(a) == enc_renorm(enc_shift(a)));
        a = enc_shift(a);
        assert(enc_renorm(a) == enc_renorm(enc_shift(a)));
        a = enc_shift(a);
        assert(enc_renorm(a) == enc_renorm(enc_shift(a)));
        a = enc_shift(a);
        assert(enc_renorm(a) == enc_renorm(enc_shift(a)));
        a = enc_shift(a);
        assert(enc_renorm(a) == enc_renorm(enc_shift(a)));
        a = enc_shift(a);
        assert(enc_renorm(after) == a);
        assert(a.bottom == sbot * pow2(7) as int);
        assert(a.bit_count == 24 - 7);
        lemma_flush_small_bottom(a, sbot, 7);
    }
}

/// Round-trip law for one decision: for every probability in `[1, 255]` and
/// either bit value, encoding the bit and then decoding the flushed bytes
/// with the same probability yields the bit back.
pub proof fn lemma_single_decision_round_trip(prob: int, bit: bool)
    requires
        1 <= prob <= 255,
    ensures
        single_decision_round_trips(prob, bit),
{
    let split = bool_split(255, prob);
    assert(254 * prob <= 64770) by (nonlinear_arith)
        requires
            prob <= 255,
    ;
    assert(254 * prob >= 254) by (nonlinear_arith)
        requires
            prob >= 1,
    ;
    vstd::arithmetic::div_mod::lemma_div_is_ordered(254 * prob, 64770int, 256);
    vstd::arithmetic::div_mod::lemma_div_is_ordered(0int, 254 * prob, 256);
    assert(1 <= split <= 254);
    let sbot: int = if bit {
        split
    } else {
        0
    };
    let first: u8 = if bit {
        split as u8
    } else {
        0u8
    };
    let after = if bit {
        EncState { output: Seq::empty(), range: 255 - split, bottom: split, bit_count: 24 }
    } else {
        EncState { output: Seq::empty(), range: split, bottom: 0, bit_count: 24 }
    };
    assert(enc_write(enc_init(), prob, bit) == enc_renorm(after));
    lemma_first_write_flush(after, sbot);
    let bytes = enc_flush(enc_write(enc_init(), prob, bit));
    assert(bytes =~= seq![first, 0u8, 0u8, 0u8]);
    assert(bytes.len() == 4);
    assert(dec_init(bytes).value == first * 256);
    assert(dec_read_bool(dec_init(bytes), prob).0 == bit);
}

/// The one-bit instance of the literal round trip: a value encoded as a
/// single probability-128 decision is returned by `read_literal(1)`.
pub proof fn lemma_one_bit_literal_round_trip(bit: bool)
    ensures
        ({
            let bytes = enc_flush(enc_write(enc_init(), 128, bit));
            dec_read_literal(dec_init(bytes), 1).0 == (if bit {
                1int
            } else {
                0int
            })
        }),
{
    lemma_single_decision_round_trip(128, bit);
    let bytes = enc_flush(enc_write(enc_init(), 128, bit));
    let s0 = dec_init(bytes);
    let step = dec_read_bool(s0, 128);
    let acc: int = (if step.0 {
        1int
    } else {
        0int
    }) % 0x1_0000_0000;
    assert(dec_literal_loop(step.1, 0, acc) == (acc, step.1));
    assert(dec_literal_loop(s0, 1, 0) == (acc, step.1));
}

proof fn lemma_init_value(hi: u32, lo: u32)
    by (bit_vector)
    requires
        hi < 256,
        lo < 256,
    ensures
        ((hi << 8u32) | lo) == hi * 256 + lo,
{
}

} // verus!
