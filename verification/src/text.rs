//! Numbers as decimal digits and as text.

use vstd::prelude::*;
use vstd::string::*;

verus! {

/// The decimal digits of `n`, most significant first, with no leading zero
/// (zero itself is the single digit `0`).
pub open spec fn decimal_digits(n: nat) -> Seq<u8>
    decreases n,
{
    if n < 10 {
        seq![n as u8]
    } else {
        decimal_digits(n / 10).push((n % 10) as u8)
    }
}

/// `ds`, with zeros put before it until it is `width` long. A longer run is
/// left as it is.
pub open spec fn zero_padded(ds: Seq<u8>, width: nat) -> Seq<u8> {
    if ds.len() >= width {
        ds
    } else {
        Seq::new((width - ds.len()) as nat, |i: int| 0u8) + ds
    }
}

/// The bytes that stand for the digits `ds`, counted up from `base`.
pub open spec fn digit_bytes(base: u8, ds: Seq<u8>) -> Seq<u8> {
    Seq::new(ds.len(), |i: int| (base + ds[i]) as u8)
}

/// One digit below sixteen as text, in lower case.
pub open spec fn digit_text(d: u8) -> Seq<char> {
    match d {
        0 => "0"@,
        1 => "1"@,
        2 => "2"@,
        3 => "3"@,
        4 => "4"@,
        5 => "5"@,
        6 => "6"@,
        7 => "7"@,
        8 => "8"@,
        9 => "9"@,
        10 => "a"@,
        11 => "b"@,
        12 => "c"@,
        13 => "d"@,
        14 => "e"@,
        _ => "f"@,
    }
}

/// A run of digits as text, in the order given.
pub open spec fn digits_text(ds: Seq<u8>) -> Seq<char>
    decreases ds.len(),
{
    if ds.len() == 0 {
        Seq::empty()
    } else {
        digits_text(ds.drop_last()) + digit_text(ds.last())
    }
}

/// `n` written in decimal.
pub open spec fn decimal_text(n: nat) -> Seq<char> {
    digits_text(decimal_digits(n))
}

/// A byte written as two hexadecimal digits, in lower case.
pub open spec fn hex_byte_text(b: u8) -> Seq<char> {
    digit_text(b / 16) + digit_text(b % 16)
}

/// Every decimal digit of a number is below ten.
pub proof fn lemma_decimal_digits_range(n: nat)
    ensures
        decimal_digits(n).len() >= 1,
        forall|i: int| 0 <= i < decimal_digits(n).len() ==> #[trigger] decimal_digits(n)[i] < 10,
    decreases n,
{
    if n >= 10 {
        lemma_decimal_digits_range(n / 10);
    }
}

fn push_decimal_digits(n: usize, out: &mut Vec<u8>)
    ensures
        final(out)@ == old(out)@ + decimal_digits(n as nat),
    decreases n,
{
    if n >= 10 {
        push_decimal_digits(n / 10, out);
    }
    out.push((n % 10) as u8);
}

/// Computes the decimal digits of `n`.
pub(crate) fn decimal_digits_of(n: usize) -> (ds: Vec<u8>)
    ensures
        ds@ == decimal_digits(n as nat),
{
    let mut ds: Vec<u8> = Vec::new();
    push_decimal_digits(n, &mut ds);
    ds
}

/// Every digit of a zero-padded decimal number is below ten.
pub proof fn lemma_zero_padded_range(n: nat, width: nat)
    ensures
        forall|i: int|
            0 <= i < zero_padded(decimal_digits(n), width).len() ==> #[trigger] zero_padded(
                decimal_digits(n),
                width,
            )[i] < 10,
{
    lemma_decimal_digits_range(n);
}

/// `n` in ASCII decimal digits, with zeros before it up to `width` digits.
pub(crate) fn zero_padded_decimal(n: usize, width: usize) -> (text: Vec<u8>)
    ensures
        text@ == digit_bytes(0x30, zero_padded(decimal_digits(n as nat), width as nat)),
{
    let digits = decimal_digits_of(n);
    proof {
        lemma_decimal_digits_range(n as nat);
    }
    let ghost padded = zero_padded(digits@, width as nat);
    let mut text: Vec<u8> = Vec::new();
    let mut zeros: usize = 0;
    while digits.len() < width && zeros < width - digits.len()
        invariant
            digits.len() < width ==> zeros <= width - digits.len(),
            digits.len() >= width ==> zeros == 0,
            text@ == Seq::new(zeros as nat, |i: int| 0x30u8),
        decreases width - zeros,
    {
        text.push(0x30);
        zeros += 1;
    }
    let mut i: usize = 0;
    while i < digits.len()
        invariant
            i <= digits.len(),
            padded.len() == zeros + digits.len(),
            padded == zero_padded(digits@, width as nat),
            forall|k: int| 0 <= k < digits.len() ==> #[trigger] digits[k] < 10,
            text@ == digit_bytes(0x30, padded.take(zeros + i)),
        decreases digits.len() - i,
    {
        text.push(0x30 + digits[i]);
        i += 1;
    }
    assert(padded.take(zeros + i) == padded);
    text
}

fn digit_str(d: u8) -> (s: &'static str)
    requires
        d < 16,
    ensures
        s@ == digit_text(d),
{
    match d {
        0 => "0",
        1 => "1",
        2 => "2",
        3 => "3",
        4 => "4",
        5 => "5",
        6 => "6",
        7 => "7",
        8 => "8",
        9 => "9",
        10 => "a",
        11 => "b",
        12 => "c",
        13 => "d",
        14 => "e",
        _ => "f",
    }
}

/// Appends `n` in decimal to `out`.
pub(crate) fn push_decimal(out: &mut String, n: usize)
    ensures
        final(out)@ == old(out)@ + decimal_text(n as nat),
{
    let ds = decimal_digits_of(n);
    proof {
        lemma_decimal_digits_range(n as nat);
    }
    let mut i: usize = 0;
    while i < ds.len()
        invariant
            i <= ds.len(),
            forall|k: int| 0 <= k < ds.len() ==> #[trigger] ds[k] < 10,
            out@ == old(out)@ + digits_text(ds@.take(i as int)),
        decreases ds.len() - i,
    {
        assert(ds@.take(i + 1).drop_last() == ds@.take(i as int));
        out.append(digit_str(ds[i]));
        i += 1;
    }
    assert(ds@.take(i as int) == ds@);
}

/// Appends `b` as two hexadecimal digits to `out`.
pub(crate) fn push_hex_byte(out: &mut String, b: u8)
    ensures
        final(out)@ == old(out)@ + hex_byte_text(b),
{
    out.append(digit_str(b / 16));
    out.append(digit_str(b % 16));
}

} // verus!
