//! The codec: which characters a length prefix is written in, and whether it
//! is written as decimal digits or as one binary byte.

use vstd::prelude::*;
use bytes::BytesMut;
use encoding8::ascii;
use crate::buf::bytes_mut_seq;
use crate::error::{length_byte, length_byte_text, length_range, length_range_text, RS8583Error};
use crate::text::{
    decimal_digits, digit_bytes, lemma_zero_padded_range, zero_padded, zero_padded_decimal,
};

verus! {

/// A character set.
#[derive(Clone, Copy, Debug, PartialEq, Eq)]
pub enum Encoding {
    ASCII,
    EBCDIC,
}

impl Default for Encoding {
    fn default() -> (e: Self)
        ensures
            e == Encoding::ASCII,
    {
        Encoding::ASCII
    }
}

/// How a message is framed by the transport. Recorded, and not used here.
#[derive(Clone, Copy, Debug, PartialEq, Eq)]
pub enum Framing {
    Unframed,
    MHeader,
    VHeader,
}

impl Default for Framing {
    fn default() -> (f: Self)
        ensures
            f == Framing::Unframed,
    {
        Framing::Unframed
    }
}

/// How the length of a variable field is written before it.
#[derive(Clone, Copy, Debug, PartialEq, Eq)]
pub enum VariableLengthFormat {
    /// As decimal digits in the length encoding.
    Symbolic,
    /// As one byte that holds the length.
    Byte,
}

impl Default for VariableLengthFormat {
    fn default() -> (f: Self)
        ensures
            f == VariableLengthFormat::Symbolic,
    {
        VariableLengthFormat::Symbolic
    }
}

/// The choices that govern how lengths and data are written.
#[derive(Clone, Copy, Debug)]
pub struct Codec {
    length_encoding: Encoding,
    data_encoding: Encoding,
    framing: Framing,
    ll_format: VariableLengthFormat,
}

impl Default for Codec {
    fn default() -> (c: Self)
        ensures
            c.length_encoding() == Encoding::ASCII,
            c.data_encoding() == Encoding::ASCII,
            c.framing() == Framing::Unframed,
            c.ll_format() == VariableLengthFormat::Symbolic,
    {
        Codec {
            length_encoding: Encoding::ASCII,
            data_encoding: Encoding::ASCII,
            framing: Framing::Unframed,
            ll_format: VariableLengthFormat::Symbolic,
        }
    }
}

/// The byte that stands for the digit zero in an encoding.
pub open spec fn digit_base(encoding: Encoding) -> u8 {
    match encoding {
        Encoding::ASCII => 0x30,
        Encoding::EBCDIC => 0xf0,
    }
}

/// The EBCDIC byte that `encoding8` has for an ASCII byte.
pub uninterp spec fn ebcdic_of(b: u8) -> u8;

/// `encoding8::ascii::to_ebcdic`: a table from each byte to a byte. For the
/// ASCII digits `0x30..=0x39` the table holds `0xf0..=0xf9`, in order.
#[verifier::external_body]
fn ascii_to_ebcdic(b: u8) -> (e: u8)
    ensures
        e == ebcdic_of(b),
        0x30 <= b <= 0x39 ==> e == b + 0xc0,
{
    ascii::to_ebcdic(b)
}

impl Codec {
    /// A codec with the four choices given.
    pub fn new(
        length_encoding: Encoding,
        data_encoding: Encoding,
        framing: Framing,
        ll_format: VariableLengthFormat,
    ) -> (c: Self)
        ensures
            c.length_encoding() == length_encoding,
            c.data_encoding() == data_encoding,
            c.framing() == framing,
            c.ll_format() == ll_format,
    {
        Codec { length_encoding, data_encoding, framing, ll_format }
    }

    /// The character set of length prefixes.
    pub closed spec fn length_encoding(self) -> Encoding {
        self.length_encoding
    }

    /// The character set of payloads.
    pub closed spec fn data_encoding(self) -> Encoding {
        self.data_encoding
    }

    /// The framing of the transport.
    pub closed spec fn framing(self) -> Framing {
        self.framing
    }

    /// The form of length prefixes.
    pub closed spec fn ll_format(self) -> VariableLengthFormat {
        self.ll_format
    }

    /// The number of bytes that a prefix of `digits` decimal digits takes.
    pub open spec fn prefix_width(self, digits: nat) -> nat {
        match self.ll_format() {
            VariableLengthFormat::Symbolic => digits,
            VariableLengthFormat::Byte => 1,
        }
    }

    /// What one byte of a length prefix counts for: any byte its own value in
    /// the binary form, a digit of the length encoding its digit, and any
    /// other byte nothing.
    pub open spec fn digit_value(self, b: u8) -> Option<nat> {
        match self.ll_format() {
            VariableLengthFormat::Byte => Some(b as nat),
            VariableLengthFormat::Symbolic => {
                let base = digit_base(self.length_encoding());
                if base <= b && b <= base + 9 {
                    Some((b - base) as nat)
                } else {
                    None
                }
            },
        }
    }

    /// The prefix that announces a payload of `data_len` bytes, for a field
    /// whose prefix has `prefix_len` digits; or the text of the error.
    pub open spec fn prefix_bytes(self, prefix_len: nat, data_len: nat) -> Result<
        Seq<u8>,
        Seq<char>,
    > {
        match self.ll_format() {
            VariableLengthFormat::Byte => if data_len > 255 {
                Err(length_range_text(data_len))
            } else {
                Ok(seq![data_len as u8])
            },
            VariableLengthFormat::Symbolic => Ok(
                digit_bytes(
                    digit_base(self.length_encoding()),
                    zero_padded(decimal_digits(data_len), prefix_len),
                ),
            ),
        }
    }

    /// The number of bytes to read for a prefix of `len` decimal digits.
    pub fn length_size_bytes(&self, len: usize) -> (n: usize)
        ensures
            n == self.prefix_width(len as nat),
    {
        match self.ll_format {
            VariableLengthFormat::Symbolic => len,
            VariableLengthFormat::Byte => 1,
        }
    }

    /// Decodes one byte of a length prefix.
    pub fn byte_to_length(&self, len_byte: u8) -> (r: Result<usize, RS8583Error>)
        ensures
            match self.digit_value(len_byte) {
                Some(d) => r == Ok::<usize, RS8583Error>(d as usize),
                None => r is Err && r->Err_0.message() == length_byte_text(len_byte),
            },
    {
        if let VariableLengthFormat::Byte = self.ll_format {
            return Ok(len_byte as usize);
        }
        let offset: u8 = match self.length_encoding {
            Encoding::ASCII => 0x30,
            Encoding::EBCDIC => 0xf0,
        };
        if len_byte > offset + 9 || len_byte < offset {
            Err(length_byte(len_byte))
        } else {
            Ok((len_byte - offset) as usize)
        }
    }

    /// Writes the prefix that announces `data_len` bytes to the end of `buf`.
    /// On an error `buf` is left as it was.
    pub fn serialize_prefix(&self, buf: &mut BytesMut, prefix_len: usize, data_len: usize) -> (r:
        Result<(), RS8583Error>)
        ensures
            match self.prefix_bytes(prefix_len as nat, data_len as nat) {
                Ok(prefix) => r is Ok && bytes_mut_seq(*final(buf)) == bytes_mut_seq(*old(buf))
                    + prefix,
                Err(text) => r is Err && r->Err_0.message() == text && bytes_mut_seq(*final(buf))
                    == bytes_mut_seq(*old(buf)),
            },
    {
        match self.ll_format {
            VariableLengthFormat::Byte => {
                if data_len > 255 {
                    Err(length_range(data_len))
                } else {
                    let mut prefix: Vec<u8> = Vec::new();
                    prefix.push(data_len as u8);
                    buf.extend_from_slice(prefix.as_slice());
                    Ok(())
                }
            },
            VariableLengthFormat::Symbolic => {
                let mut prefix = zero_padded_decimal(data_len, prefix_len);
                let ghost padded = zero_padded(decimal_digits(data_len as nat), prefix_len as nat);
                proof {
                    lemma_zero_padded_range(data_len as nat, prefix_len as nat);
                }
                if let Encoding::EBCDIC = self.length_encoding {
                    let mut j: usize = 0;
                    while j < prefix.len()
                        invariant
                            j <= prefix.len(),
                            prefix.len() == padded.len(),
                            forall|k: int| 0 <= k < padded.len() ==> #[trigger] padded[k] < 10,
                            forall|k: int|
                                0 <= k < j ==> #[trigger] prefix[k] == 0xf0 + padded[k],
                            forall|k: int|
                                j <= k < prefix.len() ==> #[trigger] prefix[k] == 0x30 + padded[k],
                        decreases prefix.len() - j,
                    {
                        let e = ascii_to_ebcdic(prefix[j]);
                        prefix.set(j, e);
                        j += 1;
                    }
                    assert(prefix@ == digit_bytes(0xf0, padded));
                }
                buf.extend_from_slice(prefix.as_slice());
                Ok(())
            },
        }
    }
}

} // verus!
