//! A bit vector of the `bitvec` crate, seen as a sequence of bits.
//!
//! The vector is a `BitVec<u64, Lsb0>`: it stores its bits in 64-bit words and
//! numbers the bits of a word from the least significant up. The functions of
//! `Bits` are not proved; each states what the crate's source shows of one of
//! its functions. The arithmetic below them is proved.
//!
//! The functions that change a vector are stated not to unwind: the crate
//! panics in them on the inputs that their `requires` leave out and on no
//! others. That the allocator may refuse to let a vector grow is not
//! modelled.

use vstd::prelude::*;
use vstd::arithmetic::div_mod::{
    lemma_basic_div, lemma_hoist_over_denominator, lemma_mod_breakdown, lemma_small_mod,
};
use vstd::arithmetic::power2::{
    lemma2_to64, lemma_pow2_adds, lemma_pow2_pos, lemma_pow2_unfold, pow2,
};
use vstd::bits::lemma_u64_shr_is_div;
use vstd::bytes::{spec_u64_to_le_bytes, spec_u64_to_le_bytes_open, spec_u64_to_le_bytes_to_open};
use bitvec::order::Lsb0;
use bitvec::vec::BitVec;

verus! {

/// The most bits that a bit vector of the crate holds: an eighth of `usize`.
pub const MAX_BITS: usize = usize::MAX / 8;

/// A growable run of bits. Every value is made by `from_word` and changed by
/// the functions below alone, so its first bit is the lowest bit of its first
/// word.
#[verifier::external_body]
pub struct Bits {
    inner: BitVec<u64, Lsb0>,
}

/// The bits that a `Bits` holds, first to last.
pub uninterp spec fn bits_seq(b: Bits) -> Seq<bool>;

/// Bit `i` of the word `w`, counted from the least significant.
pub open spec fn word_bit(w: u64, i: int) -> bool {
    (w as nat / pow2(i as nat)) % 2 == 1
}

/// Bit `k` of the byte `b`, counted from the least significant.
pub open spec fn byte_bit(b: u8, k: int) -> bool {
    (b as nat / pow2(k as nat)) % 2 == 1
}

/// The sixty-four bits of a word, least significant first.
pub open spec fn word_bits(w: u64) -> Seq<bool> {
    Seq::new(64, |i: int| word_bit(w, i))
}

/// The number whose binary digits are `bits`, least significant first.
pub open spec fn bits_value(bits: Seq<bool>) -> nat
    decreases bits.len(),
{
    if bits.len() == 0 {
        0
    } else {
        bits_value(bits.drop_last()) + if bits.last() {
            pow2((bits.len() - 1) as nat)
        } else {
            0
        }
    }
}

impl Bits {
    /// `BitVec::from_element`: the bits of one word, least significant first.
    #[verifier::external_body]
    pub(crate) fn from_word(w: u64) -> (b: Bits)
        ensures
            bits_seq(b) == word_bits(w),
    {
        Bits { inner: BitVec::from_element(w) }
    }

    /// `BitVec::len`: the number of bits held.
    #[verifier::external_body]
    pub(crate) fn len(&self) -> (n: usize)
        ensures
            n == bits_seq(*self).len(),
    {
        self.inner.len()
    }

    /// Indexing with `[idx]`: the bit at `idx`. The crate panics where `idx`
    /// is beyond the last bit.
    #[verifier::external_body]
    pub(crate) fn get(&self, idx: usize) -> (bit: bool)
        requires
            idx < bits_seq(*self).len(),
        ensures
            bit == bits_seq(*self)[idx as int],
    {
        self.inner[idx]
    }

    /// `BitSlice::set`: the bit at `idx` becomes `value` and the others stay.
    /// The crate panics where `idx` is beyond the last bit.
    #[verifier::external_body]
    pub(crate) fn set(&mut self, idx: usize, value: bool)
        requires
            idx < bits_seq(*old(self)).len(),
        ensures
            bits_seq(*final(self)) == bits_seq(*old(self)).update(idx as int, value),
        no_unwind
    {
        self.inner.set(idx, value)
    }

    /// `BitVec::resize`: the vector is cut to `new_len` bits, or filled up to
    /// it with `value`. The crate panics where `new_len` is over `MAX_BITS`.
    #[verifier::external_body]
    pub(crate) fn resize(&mut self, new_len: usize, value: bool)
        requires
            new_len <= MAX_BITS,
        ensures
            bits_seq(*final(self)) == if new_len <= bits_seq(*old(self)).len() {
                bits_seq(*old(self)).take(new_len as int)
            } else {
                bits_seq(*old(self)) + Seq::new(
                    (new_len - bits_seq(*old(self)).len()) as nat,
                    |i: int| value,
                )
            },
        no_unwind
    {
        self.inner.resize(new_len, value)
    }

    /// `BitVec::append`: the bits of `other` move to the end of `self`, and
    /// `other` is left empty. The crate panics where the sum of the lengths
    /// is over `MAX_BITS`.
    #[verifier::external_body]
    pub(crate) fn append(&mut self, other: &mut Bits)
        requires
            bits_seq(*old(self)).len() + bits_seq(*old(other)).len() <= MAX_BITS,
        ensures
            bits_seq(*final(self)) == bits_seq(*old(self)) + bits_seq(*old(other)),
            bits_seq(*final(other)) == Seq::<bool>::empty(),
        no_unwind
    {
        self.inner.append(&mut other.inner)
    }

    /// `BitVec::as_raw_slice`: the words that store the bits. Where the
    /// length is a multiple of sixty-four, each word holds sixty-four bits of
    /// the vector, in order, and no others.
    #[verifier::external_body]
    pub(crate) fn words(&self) -> (ws: &[u64])
        requires
            bits_seq(*self).len() % 64 == 0,
        ensures
            ws@.len() == bits_seq(*self).len() / 64,
            forall|k: int|
                0 <= k < ws@.len() ==> #[trigger] word_bits(ws@[k]) == bits_seq(*self).subrange(
                    64 * k,
                    64 * k + 64,
                ),
    {
        self.inner.as_raw_slice()
    }
}

proof fn lemma_low_bits_value(w: u64, n: nat)
    requires
        n <= 64,
    ensures
        bits_value(word_bits(w).take(n as int)) == w as nat % pow2(n),
    decreases n,
{
    let low = word_bits(w).take(n as int);
    if n == 0 {
        lemma2_to64();
    } else {
        let m = (n - 1) as nat;
        lemma_low_bits_value(w, m);
        assert(low.drop_last() == word_bits(w).take(m as int));
        assert(low.last() == word_bit(w, m as int));
        lemma_pow2_pos(m);
        lemma_pow2_unfold(n);
        lemma_mod_breakdown(w as int, pow2(m) as int, 2);
        assert(pow2(n) == pow2(m) * 2) by (nonlinear_arith)
            requires
                pow2(n) == 2 * pow2(m),
        ;
        let bit = (w as int / pow2(m) as int) % 2;
        assert(w as int % (pow2(m) as int * 2) == pow2(m) as int * bit + w as int % (pow2(
            m,
        ) as int));
        if bit == 1 {
            assert(pow2(m) as int * bit == pow2(m)) by (nonlinear_arith)
                requires
                    bit == 1,
            ;
        } else {
            assert(pow2(m) as int * bit == 0) by (nonlinear_arith)
                requires
                    bit == 0,
            ;
        }
    }
}

/// The bits of a word, read back as binary digits, give the word.
pub proof fn lemma_word_bits_value(w: u64)
    ensures
        bits_value(word_bits(w)) == w,
{
    lemma_low_bits_value(w, 64);
    assert(word_bits(w).take(64) == word_bits(w));
    lemma2_to64();
    lemma_small_mod(w as nat, pow2(64));
}

/// The binary digits of a number, read back one by one, are the digits it
/// was made of; and so many digits give a number below that power of two.
pub proof fn lemma_bits_value_digits(bits: Seq<bool>)
    ensures
        bits_value(bits) < pow2(bits.len()),
        forall|k: int|
            0 <= k < bits.len() ==> ((bits_value(bits) / pow2(k as nat)) % 2 == 1) == #[trigger] bits[k],
    decreases bits.len(),
{
    if bits.len() == 0 {
        lemma2_to64();
    } else {
        let front = bits.drop_last();
        let m = front.len();
        let low = bits_value(front);
        let value = bits_value(bits);
        lemma_bits_value_digits(front);
        lemma_pow2_unfold(bits.len());
        lemma_pow2_pos(m);
        assert forall|k: int| 0 <= k < bits.len() implies ((value / pow2(k as nat)) % 2 == 1)
            == #[trigger] bits[k] by {
            lemma_pow2_pos(k as nat);
            if !bits.last() {
                if k < m {
                    assert(bits[k] == front[k]);
                } else {
                    lemma_basic_div(low as int, pow2(m) as int);
                }
            } else if k == m {
                lemma_hoist_over_denominator(low as int, 1, pow2(m));
                lemma_basic_div(low as int, pow2(m) as int);
            } else {
                let above = (m - k) as nat;
                assert(bits[k] == front[k]);
                lemma_pow2_adds(above, k as nat);
                lemma_pow2_unfold(above);
                lemma_hoist_over_denominator(low as int, pow2(above) as int, pow2(k as nat));
            }
        }
    }
}

/// Sixty-four binary digits, made into a word, are the bits of that word.
pub proof fn lemma_bits_value_word(bits: Seq<bool>)
    requires
        bits.len() == 64,
    ensures
        bits_value(bits) <= u64::MAX,
        word_bits(bits_value(bits) as u64) == bits,
{
    lemma_bits_value_digits(bits);
    lemma2_to64();
    assert forall|k: int| 0 <= k < 64 implies word_bits(bits_value(bits) as u64)[k] == bits[k] by {
        assert(((bits_value(bits) / pow2(k as nat)) % 2 == 1) == bits[k]);
    }
}

proof fn lemma_word_bit_in_byte(w: u64, c: u64, k: u64)
    requires
        k < 8,
        c % 8 == 0,
        c <= 56,
    ensures
        word_bit(w, (c + k) as int) == byte_bit(((w >> c) & 0xff) as u8, k as int),
{
    let byte: u64 = (w >> c) & 0xff;
    let high: u64 = w >> ((c + k) as u64);
    let low: u64 = byte >> k;
    assert(byte < 256) by (bit_vector)
        requires
            byte == (w >> c) & 0xff,
    ;
    assert(high & 1 == low & 1) by (bit_vector)
        requires
            k < 8,
            c % 8 == 0,
            c <= 56,
            byte == (w >> c) & 0xff,
            high == w >> ((c + k) as u64),
            low == byte >> k,
    ;
    assert(high & 1 == high % 2) by (bit_vector);
    assert(low & 1 == low % 2) by (bit_vector);
    lemma_u64_shr_is_div(w, (c + k) as u64);
    lemma_u64_shr_is_div(byte, k);
}

/// The bits of a word are the bits of its eight bytes in little-endian
/// order: bit `i` of the word is bit `i % 8` of byte `i / 8`.
pub proof fn lemma_le_bytes_bits(w: u64)
    ensures
        spec_u64_to_le_bytes(w).len() == 8,
        forall|i: int|
            0 <= i < 64 ==> byte_bit(spec_u64_to_le_bytes(w)[i / 8], i % 8) == #[trigger] word_bit(
                w,
                i,
            ),
{
    spec_u64_to_le_bytes_to_open(w);
    let bytes = spec_u64_to_le_bytes_open(w);
    assert(w & 0xff == (w >> 0) & 0xff) by (bit_vector);
    assert forall|i: int| 0 <= i < 64 implies byte_bit(bytes[i / 8], i % 8) == #[trigger] word_bit(
        w,
        i,
    ) by {
        let j = i / 8;
        let k = (i % 8) as u64;
        let c = (8 * j) as u64;
        lemma_word_bit_in_byte(w, c, k);
        if j == 0 {
            assert(bytes[j] == ((w >> 0) & 0xff) as u8);
        } else if j == 1 {
            assert(bytes[j] == ((w >> 8) & 0xff) as u8);
        } else if j == 2 {
            assert(bytes[j] == ((w >> 16) & 0xff) as u8);
        } else if j == 3 {
            assert(bytes[j] == ((w >> 24) & 0xff) as u8);
        } else if j == 4 {
            assert(bytes[j] == ((w >> 32) & 0xff) as u8);
        } else if j == 5 {
            assert(bytes[j] == ((w >> 40) & 0xff) as u8);
        } else if j == 6 {
            assert(bytes[j] == ((w >> 48) & 0xff) as u8);
        } else {
            assert(bytes[j] == ((w >> 56) & 0xff) as u8);
        }
    }
}

} // verus!
