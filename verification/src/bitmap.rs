//! The bitmap of a message: one bit for each data element, in chunks of
//! sixty-four. The first bit of a chunk is its continuation bit: it says that
//! another chunk follows on the wire.

use vstd::prelude::*;
use vstd::arithmetic::div_mod::lemma_basic_div;
use vstd::arithmetic::power2::{lemma_pow2_pos, pow2};
use vstd::bytes::{
    lemma_auto_spec_u64_to_from_le_bytes, spec_u64_from_le_bytes, spec_u64_to_le_bytes,
};
use bytes::{Bytes, BytesMut};
use crate::bits::{
    bits_seq, bits_value, byte_bit, lemma_bits_value_word, lemma_le_bytes_bits,
    lemma_word_bits_value, word_bit, word_bits, Bits, MAX_BITS,
};
use crate::buf::{bytes_mut_seq, bytes_seq, put_u64_le, take_u64_le};
use crate::error::{truncated_bitmap, truncated_bitmap_text, RS8583Error};

verus! {

/// The bits of a message's bitmap. Its length is a positive multiple of
/// sixty-four.
pub struct BitMap {
    inner: Bits,
}

impl View for BitMap {
    type V = Seq<bool>;

    closed spec fn view(&self) -> Seq<bool> {
        bits_seq(self.inner)
    }
}

/// The bitmap at the head of `data`: chunks of eight bytes, each a
/// little-endian word whose bits count from the least significant, up to
/// and with the first chunk whose first bit is clear. `None` where `data` ends
/// before such a chunk is complete.
pub open spec fn read_bitmap(data: Seq<u8>) -> Option<Seq<bool>>
    decreases data.len(),
{
    if data.len() < 8 {
        None
    } else {
        let chunk = word_bits(spec_u64_from_le_bytes(data.take(8)));
        if chunk[0] {
            match read_bitmap(data.skip(8)) {
                Some(rest) => Some(chunk + rest),
                None => None,
            }
        } else {
            Some(chunk)
        }
    }
}

/// The number of whole chunks that reading the bitmap at the head of `data`
/// takes in, whether it ends with a chunk whose first bit is clear or with
/// the end of `data`.
pub open spec fn chunks_read(data: Seq<u8>) -> nat
    decreases data.len(),
{
    if data.len() < 8 {
        0
    } else if word_bits(spec_u64_from_le_bytes(data.take(8)))[0] {
        1 + chunks_read(data.skip(8))
    } else {
        1
    }
}

/// Reading takes in no more chunks than `data` holds: eight bytes for each.
pub proof fn lemma_chunks_read_bound(data: Seq<u8>)
    ensures
        8 * chunks_read(data) <= data.len(),
    decreases data.len(),
{
    if data.len() >= 8 {
        lemma_chunks_read_bound(data.skip(8));
    }
}

/// While a bitmap is read: `seen` are the bits of the chunks read so far
/// from `data`, and `here` is what follows them. Where `more` chunks are due,
/// the bitmap of `data` is `seen` and then the bitmap of `here`; where none
/// is, it is `seen`.
spec fn read_continues(data: Seq<u8>, seen: Seq<bool>, here: Seq<u8>, more: bool) -> bool {
    if more {
        &&& read_bitmap(data) == match read_bitmap(here) {
            Some(rest) => Some(seen + rest),
            None => None,
        }
        &&& 64 * chunks_read(data) == seen.len() + 64 * chunks_read(here)
    } else {
        &&& read_bitmap(data) == Some(seen)
        &&& 64 * chunks_read(data) == seen.len()
    }
}

proof fn lemma_read_continues(data: Seq<u8>, seen: Seq<bool>, here: Seq<u8>)
    requires
        read_continues(data, seen, here, true),
        here.len() >= 8,
    ensures
        ({
            let chunk = word_bits(spec_u64_from_le_bytes(here.take(8)));
            read_continues(data, seen + chunk, here.skip(8), chunk[0])
        }),
{
    let chunk = word_bits(spec_u64_from_le_bytes(here.take(8)));
    if chunk[0] {
        match read_bitmap(here.skip(8)) {
            Some(rest) => {
                assert(seen + (chunk + rest) == (seen + chunk) + rest);
            },
            None => {},
        }
    }
}

/// The bytes of a bitmap on the wire: each full chunk as a little-endian
/// word, first chunk first.
pub open spec fn bitmap_wire(bits: Seq<bool>) -> Seq<u8>
    decreases bits.len(),
{
    if bits.len() < 64 {
        Seq::empty()
    } else {
        bitmap_wire(bits.take(bits.len() - 64)) + spec_u64_to_le_bytes(
            bits_value(bits.skip(bits.len() - 64)) as u64,
        )
    }
}

/// `bits` after bit `idx` is set: the bitmap grows to the chunk that holds
/// `idx` where it was shorter, bit `idx` is set, and so is the first bit of
/// every chunk before that of `idx`.
pub open spec fn with_bit_set(bits: Seq<bool>, idx: nat) -> Seq<bool> {
    Seq::new(
        if idx < bits.len() {
            bits.len()
        } else {
            ((idx / 64 + 1) * 64) as nat
        },
        |i: int| i == idx || (i % 64 == 0 && i + 64 <= idx) || (i < bits.len() && bits[i]),
    )
}

/// `bits` after bit `idx` is cleared. The length stays, and a bit beyond it
/// is clear already.
pub open spec fn with_bit_cleared(bits: Seq<bool>, idx: nat) -> Seq<bool> {
    if idx < bits.len() {
        bits.update(idx as int, false)
    } else {
        bits
    }
}

/// The set bits among the first `n` that are no continuation bits, ascending.
pub open spec fn set_indices_below(bits: Seq<bool>, n: nat) -> Seq<nat>
    decreases n,
{
    if n == 0 {
        Seq::empty()
    } else {
        let i = (n - 1) as nat;
        let before = set_indices_below(bits, i);
        if i < bits.len() && bits[i as int] && i % 64 != 0 {
            before.push(i)
        } else {
            before
        }
    }
}

/// The data elements that a bitmap marks as present: its set bits but for
/// the continuation bits, ascending.
pub open spec fn set_indices(bits: Seq<bool>) -> Seq<nat> {
    set_indices_below(bits, bits.len())
}

/// What the set bits below `n` are: each is below `n` and within the
/// bitmap, is set and is no continuation bit; they ascend; and every such
/// bit is among them.
pub proof fn lemma_set_indices_below(bits: Seq<bool>, n: nat)
    ensures
        forall|k: int|
            0 <= k < set_indices_below(bits, n).len() ==> {
                let i = #[trigger] set_indices_below(bits, n)[k];
                i < n && i < bits.len() && bits[i as int] && i % 64 != 0
            },
        forall|k: int, l: int|
            0 <= k < l < set_indices_below(bits, n).len() ==> set_indices_below(bits, n)[k]
                < set_indices_below(bits, n)[l],
        forall|i: nat|
            i < n && i < bits.len() && bits[i as int] && i % 64 != 0 ==> set_indices_below(
                bits,
                n,
            ).contains(i),
    decreases n,
{
    if n > 0 {
        let m = (n - 1) as nat;
        let before = set_indices_below(bits, m);
        let now = set_indices_below(bits, n);
        lemma_set_indices_below(bits, m);
        assert forall|i: nat|
            i < n && i < bits.len() && bits[i as int] && i % 64 != 0 implies now.contains(i) by {
            if i < m {
                let k = choose|k: int| 0 <= k < before.len() && before[k] == i;
                assert(now[k] == i);
            } else {
                assert(now[now.len() - 1] == i);
            }
        }
    }
}

proof fn lemma_wire_push(bits: Seq<bool>, chunk: Seq<bool>)
    requires
        chunk.len() == 64,
    ensures
        bitmap_wire(bits + chunk) == bitmap_wire(bits) + spec_u64_to_le_bytes(
            bits_value(chunk) as u64,
        ),
{
    let all = bits + chunk;
    assert(all.take(all.len() - 64) == bits);
    assert(all.skip(all.len() - 64) == chunk);
}

/// The wire form of two runs of whole chunks, one behind the other, is the
/// wire form of the first and then that of the second.
pub proof fn lemma_wire_concat(a: Seq<bool>, b: Seq<bool>)
    requires
        b.len() % 64 == 0,
    ensures
        bitmap_wire(a + b) == bitmap_wire(a) + bitmap_wire(b),
    decreases b.len(),
{
    if b.len() < 64 {
        assert(a + b == a);
        assert(bitmap_wire(a) + bitmap_wire(b) == bitmap_wire(a));
    } else {
        let front = b.take(b.len() - 64);
        let last = b.skip(b.len() - 64);
        assert(b == front + last);
        assert(a + b == (a + front) + last);
        lemma_wire_concat(a, front);
        lemma_wire_push(a + front, last);
        lemma_wire_push(front, last);
        assert((bitmap_wire(a) + bitmap_wire(front)) + spec_u64_to_le_bytes(
            bits_value(last) as u64,
        ) == bitmap_wire(a) + (bitmap_wire(front) + spec_u64_to_le_bytes(bits_value(last) as u64)));
    }
}

/// The continuation chain holds: before every set bit that stands for a
/// data element, the first bit of each earlier chunk is set.
pub open spec fn chained(bits: Seq<bool>) -> bool {
    forall|i: int, c: int|
        0 <= c && c % 64 == 0 && c + 64 <= i && i < bits.len() && #[trigger] bits[i] && i % 64 != 0
            ==> #[trigger] bits[c]
}

/// A bitmap of whole chunks is sealed where the first bit of each chunk but
/// the last is set and that of the last is clear: reading its wire form ends
/// with its last chunk.
pub open spec fn sealed(bits: Seq<bool>) -> bool {
    &&& bits.len() >= 64
    &&& bits.len() % 64 == 0
    &&& forall|c: int|
        0 <= c < bits.len() && c % 64 == 0 ==> (#[trigger] bits[c] <==> c + 64 < bits.len())
}

/// A sealed bitmap keeps the continuation chain.
pub proof fn lemma_sealed_chained(bits: Seq<bool>)
    requires
        sealed(bits),
    ensures
        chained(bits),
{
}

/// What a bitmap read from the wire is: as many whole chunks as were read,
/// and no more of them than `data` holds; it is sealed, so the chain holds;
/// and written back it gives the bytes it was read from.
pub proof fn lemma_read_bitmap(data: Seq<u8>)
    requires
        read_bitmap(data) is Some,
    ensures
        ({
            let bits = read_bitmap(data)->Some_0;
            &&& bits.len() >= 64
            &&& bits.len() == 64 * chunks_read(data)
            &&& bits.len() / 8 <= data.len()
            &&& sealed(bits)
            &&& chained(bits)
            &&& bitmap_wire(bits) == data.take(bits.len() as int / 8)
        }),
    decreases data.len(),
{
    let bits = read_bitmap(data)->Some_0;
    let word = spec_u64_from_le_bytes(data.take(8));
    let chunk = word_bits(word);
    lemma_auto_spec_u64_to_from_le_bytes();
    lemma_word_bits_value(word);
    assert(bitmap_wire(chunk) == data.take(8)) by {
        lemma_wire_push(Seq::empty(), chunk);
        assert(Seq::<bool>::empty() + chunk == chunk);
        assert(bitmap_wire(Seq::<bool>::empty()) == Seq::<u8>::empty());
        assert(Seq::<u8>::empty() + data.take(8) == data.take(8));
    }
    if chunk[0] {
        let rest = read_bitmap(data.skip(8))->Some_0;
        lemma_read_bitmap(data.skip(8));
        lemma_wire_concat(chunk, rest);
        assert(bits == chunk + rest);
        assert(data.take(8) + data.skip(8).take(rest.len() as int / 8) == data.take(
            bits.len() as int / 8,
        ));
        assert forall|c: int| 0 <= c && c % 64 == 0 && c < bits.len() implies (#[trigger] bits[c]
            <==> c + 64 < bits.len()) by {
            if c >= 64 {
                assert(bits[c] == rest[c - 64]);
            }
        }
    } else {
        assert(bits == chunk);
        assert(data.take(bits.len() as int / 8) == data.take(8));
        assert forall|c: int| 0 <= c && c % 64 == 0 && c < bits.len() implies (#[trigger] bits[c]
            <==> c + 64 < bits.len()) by {
            assert(c == 0);
        }
    }
}

/// A sealed bitmap that is written and then read stays as it was, whatever
/// follows it on the wire.
pub proof fn lemma_bitmap_reads_back(bits: Seq<bool>, tail: Seq<u8>)
    requires
        sealed(bits),
    ensures
        read_bitmap(bitmap_wire(bits) + tail) == Some(bits),
    decreases bits.len(),
{
    let chunk = bits.take(64);
    let rest = bits.skip(64);
    let word = bits_value(chunk) as u64;
    let head = spec_u64_to_le_bytes(word);
    let data = bitmap_wire(bits) + tail;
    assert(bits == chunk + rest);
    lemma_wire_concat(chunk, rest);
    lemma_wire_push(Seq::empty(), chunk);
    assert(Seq::<bool>::empty() + chunk == chunk);
    assert(bitmap_wire(chunk) == head);
    lemma_auto_spec_u64_to_from_le_bytes();
    lemma_bits_value_word(chunk);
    assert(data.take(8) == head);
    assert(chunk[0] == bits[0]);
    if bits.len() > 64 {
        assert(data.skip(8) == bitmap_wire(rest) + tail);
        assert forall|c: int| 0 <= c < rest.len() && c % 64 == 0 implies (#[trigger] rest[c] <==> c
            + 64 < rest.len()) by {
            assert(rest[c] == bits[c + 64]);
        }
        lemma_bitmap_reads_back(rest, tail);
    } else {
        assert(rest == Seq::<bool>::empty());
        assert(chunk + rest == chunk);
    }
}

/// Bit by bit, reading: a bitmap read from the wire holds the bits of the
/// bytes it was read from, eight to a byte, each byte from its least
/// significant bit up. Bit `i` of the bitmap is bit `i % 8` of byte `i / 8`.
pub proof fn lemma_read_bitmap_bits(data: Seq<u8>)
    requires
        read_bitmap(data) is Some,
    ensures
        forall|i: int|
            0 <= i < read_bitmap(data)->Some_0.len() ==> #[trigger] read_bitmap(data)->Some_0[i]
                == byte_bit(data[i / 8], i % 8),
    decreases data.len(),
{
    let bits = read_bitmap(data)->Some_0;
    let word = spec_u64_from_le_bytes(data.take(8));
    let chunk = word_bits(word);
    lemma_auto_spec_u64_to_from_le_bytes();
    lemma_le_bytes_bits(word);
    lemma_read_bitmap(data);
    if chunk[0] {
        lemma_read_bitmap_bits(data.skip(8));
    }
    assert forall|i: int| 0 <= i < bits.len() implies #[trigger] bits[i] == byte_bit(
        data[i / 8],
        i % 8,
    ) by {
        if i < 64 {
            assert(bits[i] == word_bit(word, i));
            assert(data.take(8)[i / 8] == data[i / 8]);
        } else {
            let rest = read_bitmap(data.skip(8))->Some_0;
            assert(bits[i] == rest[i - 64]);
            assert(data.skip(8)[(i - 64) / 8] == data[i / 8]);
        }
    }
}

/// Bit by bit, writing: the bytes written for a bitmap of whole chunks hold
/// its bits, eight to a byte, each byte from its least significant bit up.
pub proof fn lemma_bitmap_wire_bits(bits: Seq<bool>)
    requires
        bits.len() % 64 == 0,
    ensures
        bitmap_wire(bits).len() == bits.len() / 8,
        forall|i: int|
            0 <= i < bits.len() ==> byte_bit(bitmap_wire(bits)[i / 8], i % 8) == #[trigger] bits[i],
    decreases bits.len(),
{
    if bits.len() >= 64 {
        let front = bits.take(bits.len() - 64);
        let last = bits.skip(bits.len() - 64);
        let word = bits_value(last) as u64;
        lemma_bitmap_wire_bits(front);
        lemma_bits_value_word(last);
        lemma_le_bytes_bits(word);
        let wire = bitmap_wire(bits);
        assert forall|i: int| 0 <= i < bits.len() implies byte_bit(wire[i / 8], i % 8)
            == #[trigger] bits[i] by {
            if i < front.len() {
                assert(bits[i] == front[i]);
                assert(wire[i / 8] == bitmap_wire(front)[i / 8]);
            } else {
                let at = i - front.len();
                assert(bits[i] == last[at]);
                assert(last[at] == word_bit(word, at));
                assert(wire[i / 8] == spec_u64_to_le_bytes(word)[at / 8]);
            }
        }
    }
}

/// What setting a bit does: the bit is set, and so is the first bit of every
/// chunk before its own; the bits that were set stay set; and the bitmap is
/// as long as it was, or ends with the chunk of the bit where it was shorter.
pub proof fn lemma_with_bit_set(bits: Seq<bool>, idx: nat)
    requires
        bits.len() % 64 == 0,
    ensures
        with_bit_set(bits, idx).len() % 64 == 0,
        with_bit_set(bits, idx).len() >= bits.len(),
        idx < with_bit_set(bits, idx).len(),
        with_bit_set(bits, idx).len() == bits.len() || with_bit_set(bits, idx).len() <= idx + 64,
        with_bit_set(bits, idx)[idx as int],
        forall|c: int|
            0 <= c && c % 64 == 0 && c + 64 <= idx ==> #[trigger] with_bit_set(bits, idx)[c],
        forall|i: int| 0 <= i < bits.len() && bits[i] ==> #[trigger] with_bit_set(bits, idx)[i],
{
    assert(((idx / 64 + 1) * 64) as nat % 64 == 0) by (nonlinear_arith);
    assert((idx / 64 + 1) * 64 == 64 * (idx / 64) + 64) by (nonlinear_arith);
}

/// The data elements that a bitmap marks: each is a set bit of the bitmap
/// and no continuation bit; they ascend; and every such bit is among them.
pub proof fn lemma_set_indices(bits: Seq<bool>)
    ensures
        forall|k: int|
            0 <= k < set_indices(bits).len() ==> {
                let i = #[trigger] set_indices(bits)[k];
                i < bits.len() && bits[i as int] && i % 64 != 0
            },
        forall|k: int, l: int|
            0 <= k < l < set_indices(bits).len() ==> set_indices(bits)[k] < set_indices(bits)[l],
        forall|i: nat|
            i < bits.len() && bits[i as int] && i % 64 != 0 ==> set_indices(bits).contains(i),
{
    lemma_set_indices_below(bits, bits.len());
}

/// Setting a bit keeps the continuation chain.
pub proof fn lemma_set_keeps_chain(bits: Seq<bool>, idx: nat)
    requires
        chained(bits),
    ensures
        chained(with_bit_set(bits, idx)),
{
    let after = with_bit_set(bits, idx);
    assert forall|i: int, c: int|
        0 <= c && c % 64 == 0 && c + 64 <= i && i < after.len() && #[trigger] after[i] && i % 64
            != 0 implies #[trigger] after[c] by {
        if i != idx {
            assert(bits[i]);
            assert(bits[c]);
        }
    }
}

/// Clearing the bit of a data element keeps the continuation chain.
pub proof fn lemma_clear_keeps_chain(bits: Seq<bool>, idx: nat)
    requires
        chained(bits),
        idx % 64 != 0,
    ensures
        chained(with_bit_cleared(bits, idx)),
{
    let after = with_bit_cleared(bits, idx);
    assert forall|i: int, c: int|
        0 <= c && c % 64 == 0 && c + 64 <= i && i < after.len() && #[trigger] after[i] && i % 64
            != 0 implies #[trigger] after[c] by {
        assert(bits[i]);
        assert(bits[c]);
    }
}

impl BitMap {
    #[verifier::type_invariant]
    spec fn chunked(self) -> bool {
        bits_seq(self.inner).len() >= 64 && bits_seq(self.inner).len() % 64 == 0
    }

    /// A bitmap of one chunk with no bit set.
    pub fn new() -> (b: Self)
        ensures
            b@ == Seq::new(64, |i: int| false),
            chained(b@),
    {
        let inner = Bits::from_word(0);
        proof {
            assert forall|i: int| 0 <= i < 64 implies !#[trigger] word_bits(0)[i] by {
                lemma_pow2_pos(i as nat);
                lemma_basic_div(0, pow2(i as nat) as int);
            }
            assert(word_bits(0) == Seq::new(64, |i: int| false));
        }
        BitMap { inner }
    }

    /// The number of bits: sixty-four for each chunk.
    pub fn len(&self) -> (n: usize)
        ensures
            n == self@.len(),
            n >= 64,
            n % 64 == 0,
    {
        proof {
            use_type_invariant(self);
        }
        self.inner.len()
    }

    /// Reads the bitmap at the cursor: chunk after chunk, as long as the
    /// first bit of the last one read is set. The cursor moves past the
    /// chunks read; where the input ends before a chunk that has to follow,
    /// it is left at the bytes of the incomplete chunk. The chunks read must
    /// not be more than a bit vector holds, which is so of every input of
    /// up to `MAX_BITS / 8` bytes (`lemma_chunks_read_bound`).
    pub fn from_cursor(cursor: &mut Bytes) -> (r: Result<Self, RS8583Error>)
        requires
            64 * chunks_read(bytes_seq(*old(cursor))) <= MAX_BITS,
        ensures
            match read_bitmap(bytes_seq(*old(cursor))) {
                Some(bits) => r is Ok && r->Ok_0@ == bits,
                None => r is Err && r->Err_0.message() == truncated_bitmap_text(),
            },
            bytes_seq(*final(cursor)) == bytes_seq(*old(cursor)).skip(
                8 * chunks_read(bytes_seq(*old(cursor))) as int,
            ),
            r is Ok ==> chained(r->Ok_0@),
    {
        let ghost data = bytes_seq(*cursor);
        if cursor.len() < 8 {
            assert(data.skip(0) == data);
            return Err(truncated_bitmap());
        }
        let mut inner = Bits::from_word(take_u64_le(cursor));
        let mut more = inner.get(0);
        let ghost mut chunks: int = 1;
        while more
            invariant
                data == bytes_seq(*old(cursor)),
                64 * chunks_read(data) <= MAX_BITS,
                chunks >= 1,
                bits_seq(inner).len() == 64 * chunks,
                8 * chunks <= data.len(),
                bytes_seq(*cursor) == data.skip(8 * chunks),
                read_continues(data, bits_seq(inner), bytes_seq(*cursor), more),
            decreases data.len() - 8 * chunks,
        {
            let ghost here = bytes_seq(*cursor);
            let ghost seen = bits_seq(inner);
            if cursor.len() < 8 {
                assert(read_bitmap(here) is None && chunks_read(here) == 0);
                return Err(truncated_bitmap());
            }
            let mut chunk = Bits::from_word(take_u64_le(cursor));
            more = chunk.get(0);
            inner.append(&mut chunk);
            proof {
                lemma_read_continues(data, seen, here);
                assert(here.skip(8) == data.skip(8 * (chunks + 1)));
                chunks = chunks + 1;
            }
        }
        proof {
            lemma_read_bitmap(data);
        }
        Ok(BitMap { inner })
    }

    /// Writes the chunks to the end of `buf`, each as a little-endian word.
    pub fn serialize(&self, buf: &mut BytesMut)
        ensures
            bytes_mut_seq(*final(buf)) == bytes_mut_seq(*old(buf)) + bitmap_wire(self@),
    {
        proof {
            use_type_invariant(self);
        }
        let words = self.inner.words();
        let mut k: usize = 0;
        while k < words.len()
            invariant
                k <= words.len(),
                words@.len() == self@.len() / 64,
                self@.len() % 64 == 0,
                forall|j: int|
                    0 <= j < words@.len() ==> #[trigger] word_bits(words@[j]) == self@.subrange(
                        64 * j,
                        64 * j + 64,
                    ),
                bytes_mut_seq(*buf) == bytes_mut_seq(*old(buf)) + bitmap_wire(
                    self@.take(64 * k),
                ),
            decreases words.len() - k,
        {
            proof {
                let chunk = self@.subrange(64 * k, 64 * k + 64);
                assert(word_bits(words@[k as int]) == chunk);
                lemma_word_bits_value(words@[k as int]);
                lemma_wire_push(self@.take(64 * k), chunk);
                assert(self@.take(64 * k) + chunk == self@.take(64 * (k + 1)));
            }
            put_u64_le(buf, words[k]);
            k += 1;
        }
        assert(self@.take(64 * k) == self@);
    }

    fn resize_for_idx(&mut self, idx: usize)
        requires
            idx >= old(self)@.len(),
            idx + 64 <= MAX_BITS,
        ensures
            final(self)@ == old(self)@ + Seq::new(
                ((idx / 64 + 1) * 64 - old(self)@.len()) as nat,
                |i: int| false,
            ),
    {
        proof {
            use_type_invariant(&*self);
        }
        let new_size = (idx / 64 + 1) * 64;
        self.inner.resize(new_size, false);
    }

    /// Whether bit `idx` is set. A bit beyond the length is clear.
    pub fn test(&self, idx: usize) -> (bit: bool)
        ensures
            bit == (idx < self@.len() && self@[idx as int]),
    {
        if self.inner.len() > idx {
            self.inner.get(idx)
        } else {
            false
        }
    }

    /// Sets bit `idx`, and with it the continuation bit of every chunk before
    /// its own. The bitmap grows where `idx` is beyond it.
    pub fn set(&mut self, idx: usize)
        requires
            idx < old(self)@.len() || idx + 64 <= MAX_BITS,
        ensures
            final(self)@ == with_bit_set(old(self)@, idx as nat),
            chained(old(self)@) ==> chained(final(self)@),
    {
        proof {
            use_type_invariant(&*self);
            if chained(self@) {
                lemma_set_keeps_chain(self@, idx as nat);
            }
        }
        if self.inner.len() <= idx {
            self.resize_for_idx(idx);
        }
        let ghost grown = self@;
        let n = self.inner.len();
        self.inner.set(idx, true);
        let mut k: usize = 0;
        while k + 64 <= idx
            invariant
                k % 64 == 0,
                k <= idx,
                idx < n,
                n % 64 == 0,
                n == self@.len(),
                n == grown.len(),
                n == with_bit_set(old(self)@, idx as nat).len(),
                forall|i: int|
                    0 <= i < n ==> #[trigger] grown[i] == (i < old(self)@.len() && old(self)@[i]),
                forall|i: int|
                    0 <= i < n ==> #[trigger] self@[i] == (i == idx || (i % 64 == 0 && i < k)
                        || grown[i]),
            decreases idx - k,
        {
            self.inner.set(k, true);
            assert forall|i: int| 0 <= i < n implies #[trigger] self@[i] == (i == idx || (i % 64
                == 0 && i < k + 64) || grown[i]) by {
                // a first bit below `k + 64` is at `k` or below it
                assert(i == 64 * (i / 64) + i % 64 && k == 64 * (k / 64));
            }
            k += 64;
        }
        assert forall|i: int| 0 <= i < n implies #[trigger] self@[i] == with_bit_set(
            old(self)@,
            idx as nat,
        )[i] by {
            // a first bit is below `k` where its chunk is before that of `idx`
            assert(i == 64 * (i / 64) + i % 64 && k == 64 * (k / 64));
        }
    }

    /// Clears bit `idx`. The bitmap keeps its length and its other bits.
    pub fn clear(&mut self, idx: usize)
        ensures
            final(self)@ == with_bit_cleared(old(self)@, idx as nat),
            chained(old(self)@) && idx % 64 != 0 ==> chained(final(self)@),
    {
        proof {
            use_type_invariant(&*self);
            if chained(self@) && idx % 64 != 0 {
                lemma_clear_keeps_chain(self@, idx as nat);
            }
        }
        if self.inner.len() > idx && self.inner.get(idx) {
            self.inner.set(idx, false);
        }
        assert(self@ == with_bit_cleared(old(self)@, idx as nat));
    }

    /// The data elements marked as present, ascending: every set bit that is
    /// no continuation bit.
    pub fn iter_set(&self) -> (idxs: Vec<usize>)
        ensures
            idxs@.len() == set_indices(self@).len(),
            forall|k: int| 0 <= k < idxs@.len() ==> idxs@[k] as nat == set_indices(self@)[k],
            forall|k: int| 0 <= k < idxs@.len() ==> #[trigger] idxs@[k] % 64 != 0,
    {
        proof {
            lemma_set_indices(self@);
        }
        let n = self.inner.len();
        let mut idxs: Vec<usize> = Vec::new();
        let mut i: usize = 0;
        while i < n
            invariant
                i <= n,
                n == self@.len(),
                idxs@.len() == set_indices_below(self@, i as nat).len(),
                forall|k: int|
                    0 <= k < idxs@.len() ==> idxs@[k] as nat == set_indices_below(
                        self@,
                        i as nat,
                    )[k],
            decreases n - i,
        {
            if i % 64 != 0 && self.inner.get(i) {
                idxs.push(i);
            }
            i += 1;
        }
        idxs
    }
}

} // verus!
