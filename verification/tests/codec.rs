use bytes::BytesMut;
use rs8583::codec::{Codec, Encoding, Framing, VariableLengthFormat};
use rs8583::error::RS8583Error;

fn codec(length_encoding: Encoding, ll_format: VariableLengthFormat) -> Codec {
    Codec::new(length_encoding, Encoding::ASCII, Framing::Unframed, ll_format)
}

fn failure(text: &str) -> RS8583Error {
    RS8583Error::ParseError { error: String::from(text) }
}

fn prefix(codec: &Codec, prefix_len: usize, data_len: usize) -> Vec<u8> {
    let mut buf = BytesMut::new();
    codec.serialize_prefix(&mut buf, prefix_len, data_len).unwrap();
    buf.to_vec()
}

#[test]
fn defaults_are_ascii_unframed_symbolic() {
    assert_eq!(Encoding::default(), Encoding::ASCII);
    assert_eq!(Framing::default(), Framing::Unframed);
    assert_eq!(VariableLengthFormat::default(), VariableLengthFormat::Symbolic);
    let codec = Codec::default();
    assert_eq!(codec.length_size_bytes(3), 3);
    assert_eq!(codec.byte_to_length(0x37), Ok(7));
    assert_eq!(prefix(&codec, 2, 5), b"05");
}

#[test]
fn length_size_bytes_by_format() {
    let symbolic = codec(Encoding::ASCII, VariableLengthFormat::Symbolic);
    let binary = codec(Encoding::ASCII, VariableLengthFormat::Byte);
    for digits in 0..5 {
        assert_eq!(symbolic.length_size_bytes(digits), digits);
        assert_eq!(binary.length_size_bytes(digits), 1);
    }
}

#[test]
fn byte_to_length_ascii() {
    let codec = codec(Encoding::ASCII, VariableLengthFormat::Symbolic);
    for digit in 0..10u8 {
        assert_eq!(codec.byte_to_length(0x30 + digit), Ok(digit as usize));
    }
    assert_eq!(codec.byte_to_length(0x2f), Err(failure("Length byte out of range: 0x2f")));
    assert_eq!(codec.byte_to_length(0x3a), Err(failure("Length byte out of range: 0x3a")));
    assert_eq!(codec.byte_to_length(0xf0), Err(failure("Length byte out of range: 0xf0")));
    assert_eq!(codec.byte_to_length(0x00), Err(failure("Length byte out of range: 0x00")));
}

#[test]
fn byte_to_length_ebcdic() {
    let codec = codec(Encoding::EBCDIC, VariableLengthFormat::Symbolic);
    for digit in 0..10u8 {
        assert_eq!(codec.byte_to_length(0xf0 + digit), Ok(digit as usize));
    }
    assert_eq!(codec.byte_to_length(0xef), Err(failure("Length byte out of range: 0xef")));
    assert_eq!(codec.byte_to_length(0xfa), Err(failure("Length byte out of range: 0xfa")));
    assert_eq!(codec.byte_to_length(0xff), Err(failure("Length byte out of range: 0xff")));
    assert_eq!(codec.byte_to_length(0x31), Err(failure("Length byte out of range: 0x31")));
}

#[test]
fn byte_to_length_binary_takes_every_byte() {
    for encoding in [Encoding::ASCII, Encoding::EBCDIC] {
        let codec = codec(encoding, VariableLengthFormat::Byte);
        for byte in 0..=255u8 {
            assert_eq!(codec.byte_to_length(byte), Ok(byte as usize));
        }
    }
}

#[test]
fn serialize_prefix_pads_with_zeros() {
    let codec = codec(Encoding::ASCII, VariableLengthFormat::Symbolic);
    assert_eq!(prefix(&codec, 1, 5), b"5");
    assert_eq!(prefix(&codec, 2, 5), b"05");
    assert_eq!(prefix(&codec, 3, 5), b"005");
    assert_eq!(prefix(&codec, 4, 5), b"0005");
    assert_eq!(prefix(&codec, 4, 0), b"0000");
    assert_eq!(prefix(&codec, 4, 1234), b"1234");
    assert_eq!(prefix(&codec, 3, 120), b"120");
    assert_eq!(prefix(&codec, 7, 120), b"0000120");
}

#[test]
fn serialize_prefix_keeps_every_digit_of_a_long_length() {
    let codec = codec(Encoding::ASCII, VariableLengthFormat::Symbolic);
    assert_eq!(prefix(&codec, 2, 12345), b"12345");
    assert_eq!(prefix(&codec, 0, 7), b"7");
    assert_eq!(prefix(&codec, 0, 0), b"0");
    assert_eq!(prefix(&codec, 1, 10), b"10");
}

#[test]
fn serialize_prefix_ebcdic_digits() {
    let codec = codec(Encoding::EBCDIC, VariableLengthFormat::Symbolic);
    assert_eq!(prefix(&codec, 2, 5), b"\xf0\xf5");
    assert_eq!(prefix(&codec, 4, 1234), b"\xf1\xf2\xf3\xf4");
    assert_eq!(prefix(&codec, 3, 67), b"\xf0\xf6\xf7");
    assert_eq!(prefix(&codec, 2, 89), b"\xf8\xf9");
}

#[test]
fn serialize_prefix_binary_is_one_byte() {
    for encoding in [Encoding::ASCII, Encoding::EBCDIC] {
        let codec = codec(encoding, VariableLengthFormat::Byte);
        assert_eq!(prefix(&codec, 2, 0), [0u8]);
        assert_eq!(prefix(&codec, 4, 5), [5u8]);
        assert_eq!(prefix(&codec, 1, 255), [255u8]);
    }
}

#[test]
fn serialize_prefix_binary_over_a_byte_fails() {
    let codec = codec(Encoding::ASCII, VariableLengthFormat::Byte);
    let mut buf = BytesMut::new();
    buf.extend_from_slice(b"kept");
    assert_eq!(
        codec.serialize_prefix(&mut buf, 3, 256),
        Err(failure("Length out of range: 256"))
    );
    assert_eq!(
        codec.serialize_prefix(&mut buf, 3, 100000),
        Err(failure("Length out of range: 100000"))
    );
    assert_eq!(buf.as_ref(), b"kept");
}

#[test]
fn serialize_prefix_writes_behind_what_is_there() {
    let codec = codec(Encoding::ASCII, VariableLengthFormat::Symbolic);
    let mut buf = BytesMut::new();
    buf.extend_from_slice(b"0120");
    assert_eq!(codec.serialize_prefix(&mut buf, 2, 12), Ok(()));
    assert_eq!(buf.as_ref(), b"012012");
}

#[test]
fn a_written_prefix_reads_back() {
    for encoding in [Encoding::ASCII, Encoding::EBCDIC] {
        let codec = codec(encoding, VariableLengthFormat::Symbolic);
        for length in [0usize, 7, 10, 99, 100, 999, 1000, 9999] {
            let written = prefix(&codec, 4, length);
            assert_eq!(written.len(), 4);
            let mut value = 0;
            for byte in written {
                value = value * 10 + codec.byte_to_length(byte).unwrap();
            }
            assert_eq!(value, length);
        }
    }
}

#[test]
fn error_texts() {
    let error = RS8583Error::parse_error("Truncated MTI");
    assert_eq!(error, failure("Truncated MTI"));
    assert_eq!(error.to_string(), "ISO8583 parse error: Truncated MTI");
    assert_eq!(RS8583Error::parse_error(&String::from("x y")), failure("x y"));
    assert_eq!(RS8583Error::parse_error(""), failure(""));
}
