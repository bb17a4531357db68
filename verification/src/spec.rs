//! Field schemas: what a data element holds and how its length is given, and
//! from that how many bytes to read for it and what to write.

use vstd::prelude::*;
use vstd::arithmetic::power::pow;
use bytes::{Bytes, BytesMut};
use crate::buf::{bytes_mut_seq, bytes_seq, take_u8};
use crate::codec::{digit_base, Codec, VariableLengthFormat};
use crate::error::{
    field_length, field_length_text, over_max, over_max_text, prefix_short, prefix_short_text,
    length_byte_text, RS8583Error,
};
use crate::field::Field;

verus! {

/// The character class of a data element.
pub enum FieldType {
    A,
    N,
    S,
    NS,
    AN,
    ANS,
    B,
}

impl Default for FieldType {
    fn default() -> (t: Self)
        ensures
            t == FieldType::ANS,
    {
        FieldType::ANS
    }
}

/// How the length of a data element is given.
pub enum LengthType {
    /// The schema gives the length.
    Fixed,
    /// A prefix of one decimal digit gives it.
    LVar,
    /// A prefix of two decimal digits gives it.
    LLVar,
    /// A prefix of three decimal digits gives it.
    LLLVar,
    /// A prefix of four decimal digits gives it.
    LLLLVar,
    /// The element is a bitmap, which is read apart from the fields.
    BitMap,
}

impl LengthType {
    /// The number of decimal digits of the length prefix; none for a fixed
    /// field and for a bitmap.
    pub open spec fn digits(self) -> nat {
        match self {
            LengthType::LVar => 1,
            LengthType::LLVar => 2,
            LengthType::LLLVar => 3,
            LengthType::LLLLVar => 4,
            _ => 0,
        }
    }

    /// The largest length that a prefix of so many decimal digits can say:
    /// as many nines.
    pub open spec fn largest(self) -> nat {
        match self {
            LengthType::LVar => 9,
            LengthType::LLVar => 99,
            LengthType::LLLVar => 999,
            LengthType::LLLLVar => 9999,
            _ => 0,
        }
    }

    /// The number of decimal digits of the length prefix.
    pub fn length_size(&self) -> (n: usize)
        ensures
            n == self.digits(),
    {
        match self {
            Self::LVar => 1,
            Self::LLVar => 2,
            Self::LLLVar => 3,
            Self::LLLLVar => 4,
            _ => 0,
        }
    }
}

impl Default for LengthType {
    fn default() -> (t: Self)
        ensures
            t == LengthType::Fixed,
    {
        LengthType::Fixed
    }
}

/// How a data element is shown.
pub enum SensitivityType {
    Normal,
    MaskPAN,
    MaskAll,
}

impl Default for SensitivityType {
    fn default() -> (t: Self)
        ensures
            t == SensitivityType::Normal,
    {
        SensitivityType::Normal
    }
}

/// The schema of one data element. `length` is the exact size of a fixed
/// field and the largest size of a variable one.
pub struct FieldSpec {
    pub name: String,
    pub field_type: FieldType,
    pub length_type: LengthType,
    pub sensitivity: SensitivityType,
    pub length: usize,
}

impl Default for FieldSpec {
    fn default() -> (s: Self)
        ensures
            s.name@ == Seq::<char>::empty(),
            s.field_type == FieldType::ANS,
            s.length_type == LengthType::Fixed,
            s.sensitivity == SensitivityType::Normal,
            s.length == 0,
    {
        FieldSpec {
            name: String::new(),
            field_type: FieldType::ANS,
            length_type: LengthType::Fixed,
            sensitivity: SensitivityType::Normal,
            length: 0,
        }
    }
}

/// The number written with `digits` nines: the largest that so many decimal
/// digits give.
pub open spec fn all_nines(digits: nat) -> nat
    decreases digits,
{
    if digits == 0 {
        0
    } else {
        all_nines((digits - 1) as nat) * 10 + 9
    }
}

/// The place of the first byte of `s` that counts for nothing in a length
/// prefix; the length of `s` where every byte counts.
pub open spec fn first_invalid(codec: Codec, s: Seq<u8>) -> nat
    decreases s.len(),
{
    if s.len() == 0 {
        0
    } else if codec.digit_value(s[0]) is None {
        0
    } else {
        1 + first_invalid(codec, s.skip(1))
    }
}

/// The number that the bytes of a length prefix give: each byte counts for
/// its digit, the first byte most. A byte that is no digit counts for zero.
pub open spec fn prefix_value(codec: Codec, s: Seq<u8>) -> nat
    decreases s.len(),
{
    if s.len() == 0 {
        0
    } else {
        prefix_value(codec, s.drop_last()) * 10 + match codec.digit_value(s.last()) {
            Some(d) => d,
            None => 0,
        }
    }
}

/// Where every byte before place `k` counts and the byte at `k`, if there
/// is one, does not, `k` is the first place that does not count.
pub proof fn lemma_first_invalid(codec: Codec, s: Seq<u8>, k: nat)
    requires
        k <= s.len(),
        forall|j: int| 0 <= j < k ==> codec.digit_value(#[trigger] s[j]) is Some,
        k < s.len() ==> codec.digit_value(s[k as int]) is None,
    ensures
        first_invalid(codec, s) == k,
    decreases k,
{
    if k > 0 {
        let t = s.skip(1);
        assert forall|j: int| 0 <= j < k - 1 implies codec.digit_value(#[trigger] t[j]) is Some by {
            assert(t[j] == s[j + 1]);
        }
        lemma_first_invalid(codec, t, (k - 1) as nat);
    }
}

/// The number written with `digits` nines is one less than ten to the power
/// of `digits`.
pub proof fn lemma_all_nines_power(digits: nat)
    ensures
        all_nines(digits) == pow(10, digits) - 1,
    decreases digits,
{
    reveal(pow);
    if digits > 0 {
        lemma_all_nines_power((digits - 1) as nat);
    }
}

/// The largest length that the prefix of a length type can say is the number
/// written with as many nines as the prefix has digits.
pub proof fn lemma_largest_is_all_nines(length_type: LengthType)
    ensures
        length_type.largest() == all_nines(length_type.digits()),
{
    reveal_with_fuel(all_nines, 5);
}

/// A prefix of `n` decimal digits that are all nine is read as the number
/// written with `n` nines where the field allows a payload of that size, and
/// is refused as over the largest length where it does not.
pub proof fn lemma_all_nines_prefix(fs: FieldSpec, codec: Codec, data: Seq<u8>, n: nat)
    requires
        codec.ll_format() == VariableLengthFormat::Symbolic,
        n <= data.len(),
        forall|i: int| 0 <= i < n ==> #[trigger] data[i] == digit_base(codec.length_encoding()) + 9,
    ensures
        fs.read_prefix(codec, data, n).0 == Ok::<nat, Seq<char>>(all_nines(n)) <==> all_nines(n)
            <= fs.length,
        all_nines(n) > fs.length ==> fs.read_prefix(codec, data, n).0 == Err::<nat, Seq<char>>(
            over_max_text(all_nines(n), fs.length as nat),
        ),
        all_nines(n) == pow(10, n) - 1,
{
    lemma_all_nines_power(n);
    let prefix = data.take(n as int);
    lemma_first_invalid(codec, prefix, n);
    lemma_nines_value(codec, prefix);
}

proof fn lemma_nines_value(codec: Codec, s: Seq<u8>)
    requires
        codec.ll_format() == VariableLengthFormat::Symbolic,
        forall|i: int| 0 <= i < s.len() ==> #[trigger] s[i] == digit_base(codec.length_encoding()) + 9,
    ensures
        prefix_value(codec, s) == all_nines(s.len()),
    decreases s.len(),
{
    if s.len() > 0 {
        assert(s.last() == s[s.len() - 1]);
        assert forall|i: int| 0 <= i < s.drop_last().len() implies #[trigger] s.drop_last()[i]
            == digit_base(codec.length_encoding()) + 9 by {
            assert(s.drop_last()[i] == s[i]);
        }
        lemma_nines_value(codec, s.drop_last());
    }
}

impl FieldSpec {
    /// The outcome of reading a length prefix of `n` bytes at the head of
    /// `data`, and what is left of `data` after it: the length, or the text
    /// of the error. Nothing is read where `n` is zero or `data` is too short;
    /// reading stops behind the first byte that is no digit.
    pub open spec fn read_prefix(self, codec: Codec, data: Seq<u8>, n: nat) -> (
        Result<nat, Seq<char>>,
        Seq<u8>,
    ) {
        if n == 0 {
            (Ok(0), data)
        } else if data.len() < n {
            (Err(prefix_short_text(n, data.len())), data)
        } else {
            let prefix = data.take(n as int);
            let bad = first_invalid(codec, prefix);
            let size = prefix_value(codec, prefix);
            if bad < n {
                (Err(length_byte_text(prefix[bad as int])), data.skip(bad as int + 1))
            } else if size > self.length {
                (Err(over_max_text(size, self.length as nat)), data.skip(n as int))
            } else {
                (Ok(size), data.skip(n as int))
            }
        }
    }

    /// The outcome of finding the size of the payload at the head of `data`,
    /// and what is left of `data` after the length prefix, if there is one.
    pub open spec fn read_length(self, codec: Codec, data: Seq<u8>) -> (
        Result<nat, Seq<char>>,
        Seq<u8>,
    ) {
        match self.length_type {
            LengthType::BitMap => (Ok(0), data),
            LengthType::Fixed => (Ok(self.length as nat), data),
            _ => self.read_prefix(codec, data, codec.prefix_width(self.length_type.digits())),
        }
    }

    /// The bytes of a field with this schema on the wire: the payload, behind
    /// its length prefix where the length varies; or the text of the error.
    pub open spec fn field_wire(self, codec: Codec, payload: Seq<u8>) -> Result<
        Seq<u8>,
        Seq<char>,
    > {
        match self.length_type {
            LengthType::BitMap => Ok(Seq::empty()),
            LengthType::Fixed => if payload.len() == self.length {
                Ok(payload)
            } else {
                Err(field_length_text())
            },
            _ => match codec.prefix_bytes(self.length_type.digits(), payload.len()) {
                Ok(prefix) => Ok(prefix + payload),
                Err(text) => Err(text),
            },
        }
    }

    /// Whether a payload can be written as a field of this schema and read
    /// back: it has the length of a fixed field, or no more than a variable
    /// field allows and its prefix can say, and a bitmap has no payload.
    pub open spec fn holds(self, codec: Codec, payload: Seq<u8>) -> bool {
        match self.length_type {
            LengthType::BitMap => payload.len() == 0,
            LengthType::Fixed => payload.len() == self.length,
            _ => payload.len() <= self.length && payload.len() <= match codec.ll_format() {
                VariableLengthFormat::Symbolic => self.length_type.largest(),
                VariableLengthFormat::Byte => 255,
            },
        }
    }

    /// The smallest payload that the schema announces: the length of a fixed
    /// field, one for a variable field, nothing for a bitmap.
    pub open spec fn min_size(self) -> nat {
        match self.length_type {
            LengthType::Fixed => self.length as nat,
            LengthType::BitMap => 0,
            _ => 1,
        }
    }

    /// The largest payload that the schema allows: the length of a fixed
    /// field; for a variable field its length, or what its prefix can say
    /// if that is less; nothing for a bitmap.
    pub open spec fn max_size(self) -> nat {
        match self.length_type {
            LengthType::Fixed => self.length as nat,
            LengthType::BitMap => 0,
            _ => if self.length <= self.length_type.largest() {
                self.length as nat
            } else {
                self.length_type.largest()
            },
        }
    }

    /// The smallest payload that the schema announces.
    pub fn min_value_size(&self) -> (n: usize)
        ensures
            n == self.min_size(),
    {
        match self.length_type {
            LengthType::Fixed => self.length,
            LengthType::LVar => 1,
            LengthType::LLVar => 1,
            LengthType::LLLVar => 1,
            LengthType::LLLLVar => 1,
            _ => 0,
        }
    }

    /// The largest payload that the schema allows.
    pub fn max_value_size(&self) -> (n: usize)
        ensures
            n == self.max_size(),
    {
        match self.length_type {
            LengthType::Fixed => self.length,
            LengthType::LVar => if self.length < 9 {
                self.length
            } else {
                9
            },
            LengthType::LLVar => if self.length < 99 {
                self.length
            } else {
                99
            },
            LengthType::LLLVar => if self.length < 999 {
                self.length
            } else {
                999
            },
            LengthType::LLLLVar => if self.length < 9999 {
                self.length
            } else {
                9999
            },
            _ => 0,
        }
    }

    /// Reads a length prefix of `len` bytes at the cursor and checks the
    /// length it gives against the largest that the schema allows.
    pub fn parse_length_prefix(&self, codec: &Codec, cursor: &mut Bytes, len: usize) -> (r: Result<
        usize,
        RS8583Error,
    >)
        requires
            len <= 4,
        ensures
            bytes_seq(*final(cursor)) == self.read_prefix(
                *codec,
                bytes_seq(*old(cursor)),
                len as nat,
            ).1,
            match self.read_prefix(*codec, bytes_seq(*old(cursor)), len as nat).0 {
                Ok(size) => r == Ok::<usize, RS8583Error>(size as usize),
                Err(text) => r is Err && r->Err_0.message() == text,
            },
    {
        let ghost data = bytes_seq(*cursor);
        if len == 0 {
            return Ok(0);
        }
        let have = cursor.len();
        if have < len {
            return Err(prefix_short(len, have));
        }
        let ghost prefix = data.take(len as int);
        let mut sz: usize = 0;
        let mut i: usize = 0;
        while i < len
            invariant
                i <= len <= 4,
                len <= data.len(),
                data == bytes_seq(*old(cursor)),
                prefix == data.take(len as int),
                bytes_seq(*cursor) == data.skip(i as int),
                forall|j: int| 0 <= j < i ==> codec.digit_value(#[trigger] prefix[j]) is Some,
                sz == prefix_value(*codec, prefix.take(i as int)),
                i == 0 ==> sz == 0,
                i <= 1 ==> sz <= 255,
                i <= 2 ==> sz <= 2805,
                i <= 3 ==> sz <= 28305,
                sz <= 283305,
            decreases len - i,
        {
            let b = take_u8(cursor);
            assert(b == prefix[i as int]);
            assert(bytes_seq(*cursor) == data.skip(i + 1));
            match codec.byte_to_length(b) {
                Ok(d) => {
                    assert(prefix.take(i + 1).drop_last() == prefix.take(i as int));
                    sz = sz * 10 + d;
                },
                Err(e) => {
                    proof {
                        lemma_first_invalid(*codec, prefix, i as nat);
                    }
                    return Err(e);
                },
            }
            i += 1;
        }
        proof {
            lemma_first_invalid(*codec, prefix, len as nat);
            assert(prefix.take(len as int) == prefix);
        }
        if sz > self.length {
            return Err(over_max(sz, self.length));
        }
        Ok(sz)
    }

    /// Finds how many bytes of payload follow at the cursor, reading the
    /// length prefix where the schema has one.
    pub fn to_read(&self, codec: &Codec, cursor: &mut Bytes) -> (r: Result<usize, RS8583Error>)
        ensures
            bytes_seq(*final(cursor)) == self.read_length(*codec, bytes_seq(*old(cursor))).1,
            match self.read_length(*codec, bytes_seq(*old(cursor))).0 {
                Ok(size) => r == Ok::<usize, RS8583Error>(size as usize),
                Err(text) => r is Err && r->Err_0.message() == text,
            },
    {
        match &self.length_type {
            LengthType::BitMap => Ok(0),
            LengthType::Fixed => Ok(self.length),
            n => self.parse_length_prefix(codec, cursor, codec.length_size_bytes(n.length_size())),
        }
    }

    /// Writes a field to the end of `buf`: its length prefix, where the
    /// length varies, and its payload. On an error `buf` is left as it was.
    pub fn serialize_field(&self, codec: &Codec, buf: &mut BytesMut, field: &Field) -> (r: Result<
        (),
        RS8583Error,
    >)
        ensures
            match self.field_wire(*codec, field@) {
                Ok(wire) => r is Ok && bytes_mut_seq(*final(buf)) == bytes_mut_seq(*old(buf))
                    + wire,
                Err(text) => r is Err && r->Err_0.message() == text && bytes_mut_seq(*final(buf))
                    == bytes_mut_seq(*old(buf)),
            },
    {
        match &self.length_type {
            LengthType::BitMap => {
                assert(bytes_mut_seq(*buf) + Seq::<u8>::empty() == bytes_mut_seq(*buf));
                Ok(())
            },
            LengthType::Fixed => {
                if self.length == field.len() {
                    buf.extend_from_slice(field.as_slice());
                    Ok(())
                } else {
                    Err(field_length())
                }
            },
            n => {
                match codec.serialize_prefix(buf, n.length_size(), field.len()) {
                    Ok(()) => {
                        buf.extend_from_slice(field.as_slice());
                        assert(bytes_mut_seq(*buf) == bytes_mut_seq(*old(buf)) + (
                        codec.prefix_bytes(n.digits(), field@.len())->Ok_0 + field@));
                        Ok(())
                    },
                    Err(e) => Err(e),
                }
            },
        }
    }
}

/// The schema of a message: for each bit of the bitmap, the schema of its
/// data element, or nothing where the element is not described.
pub struct MessageSpec {
    pub fields: Vec<Option<FieldSpec>>,
}

impl Default for MessageSpec {
    fn default() -> (s: Self)
        ensures
            s.fields@.len() == 0,
    {
        MessageSpec { fields: Vec::new() }
    }
}

impl MessageSpec {
    /// The schema of the data element at `idx`; nothing where the table ends
    /// before `idx` or holds nothing there.
    pub open spec fn slot(self, idx: nat) -> Option<FieldSpec> {
        if idx < self.fields@.len() {
            self.fields@[idx as int]
        } else {
            None
        }
    }

    /// The schema of the data element at `idx`, if there is one.
    pub fn get(&self, idx: usize) -> (s: Option<&FieldSpec>)
        ensures
            match self.slot(idx as nat) {
                Some(fs) => s == Some(&fs),
                None => s is None,
            },
    {
        if idx < self.fields.len() {
            self.fields[idx].as_ref()
        } else {
            None
        }
    }
}

} // verus!
