use bytes::{Bytes, BytesMut};
use rs8583::codec::{Codec, Encoding, Framing, VariableLengthFormat};
use rs8583::error::RS8583Error;
use rs8583::field::Field;
use rs8583::spec::{FieldSpec, FieldType, LengthType, MessageSpec, SensitivityType};

fn schema(length_type: LengthType, length: usize) -> FieldSpec {
    FieldSpec {
        name: String::from("TEST"),
        field_type: FieldType::ANS,
        length_type,
        sensitivity: SensitivityType::Normal,
        length,
    }
}

fn failure(text: &str) -> RS8583Error {
    RS8583Error::ParseError { error: String::from(text) }
}

fn ebcdic() -> Codec {
    Codec::new(Encoding::EBCDIC, Encoding::ASCII, Framing::Unframed, VariableLengthFormat::Symbolic)
}

fn binary() -> Codec {
    Codec::new(Encoding::ASCII, Encoding::ASCII, Framing::Unframed, VariableLengthFormat::Byte)
}

#[test]
fn fs_to_read_fixed() {
    let codec = Codec::default();

    let fs = FieldSpec {
        name: String::from("TEST"),
        field_type: FieldType::ANS,
        length_type: LengthType::Fixed,
        sensitivity: SensitivityType::Normal,
        length: 8,
    };

    let mut bytes = Bytes::from("TEST1234");

    assert_eq!(fs.to_read(&codec, &mut bytes).unwrap(), 8);
}

#[test]
fn fs_to_read_lvar() {
    let codec = Codec::default();

    let fs = FieldSpec {
        name: String::from("TEST"),
        field_type: FieldType::ANS,
        length_type: LengthType::LVar,
        sensitivity: SensitivityType::Normal,
        length: 8,
    };

    let mut bytes = Bytes::from("3ABC");
    assert_eq!(fs.to_read(&codec, &mut bytes), Ok(3));

    let mut bytes = Bytes::from("0ABC");
    assert_eq!(fs.to_read(&codec, &mut bytes), Ok(0));

    let mut bytes = Bytes::from("9ABC");
    assert_eq!(
        fs.to_read(&codec, &mut bytes),
        Err(RS8583Error::ParseError {
            error: String::from("Variable length field over max length (9 > 8)"),
        })
    );

    let mut bytes = Bytes::from("");
    assert_eq!(
        fs.to_read(&codec, &mut bytes),
        Err(RS8583Error::ParseError {
            error: String::from("Unable to read length prefix (1 chars needed, 0 available)"),
        })
    );

    let mut bytes = Bytes::from("!ABC");
    assert_eq!(
        fs.to_read(&codec, &mut bytes),
        Err(RS8583Error::ParseError {
            error: String::from("Length byte out of range: 0x21"),
        })
    );

    let mut bytes = Bytes::from("ABC");
    assert_eq!(
        fs.to_read(&codec, &mut bytes),
        Err(RS8583Error::ParseError {
            error: String::from("Length byte out of range: 0x41"),
        })
    );
}

#[test]
fn fs_to_read_llvar() {
    let codec = Codec::default();

    let fs = FieldSpec {
        name: String::from("TEST"),
        field_type: FieldType::ANS,
        length_type: LengthType::LLVar,
        sensitivity: SensitivityType::Normal,
        length: 12,
    };

    let mut bytes = Bytes::from("03ABC");
    assert_eq!(fs.to_read(&codec, &mut bytes), Ok(3));

    let mut bytes = Bytes::from("11ABCABCABCAB");
    assert_eq!(fs.to_read(&codec, &mut bytes), Ok(11));

    let mut bytes = Bytes::from("00ABC");
    assert_eq!(fs.to_read(&codec, &mut bytes), Ok(0));

    let mut bytes = Bytes::from("13ABC");
    assert_eq!(
        fs.to_read(&codec, &mut bytes),
        Err(RS8583Error::ParseError {
            error: String::from("Variable length field over max length (13 > 12)"),
        })
    );

    let mut bytes = Bytes::from("");
    assert_eq!(
        fs.to_read(&codec, &mut bytes),
        Err(RS8583Error::ParseError {
            error: String::from("Unable to read length prefix (2 chars needed, 0 available)"),
        })
    );

    let mut bytes = Bytes::from("1");
    assert_eq!(
        fs.to_read(&codec, &mut bytes),
        Err(RS8583Error::ParseError {
            error: String::from("Unable to read length prefix (2 chars needed, 1 available)"),
        })
    );

    let mut bytes = Bytes::from("!1ABC");
    assert_eq!(
        fs.to_read(&codec, &mut bytes),
        Err(RS8583Error::ParseError {
            error: String::from("Length byte out of range: 0x21"),
        })
    );

    let mut bytes = Bytes::from("1!ABC");
    assert_eq!(
        fs.to_read(&codec, &mut bytes),
        Err(RS8583Error::ParseError {
            error: String::from("Length byte out of range: 0x21"),
        })
    );

    let mut bytes = Bytes::from("ABC");
    assert_eq!(
        fs.to_read(&codec, &mut bytes),
        Err(RS8583Error::ParseError {
            error: String::from("Length byte out of range: 0x41"),
        })
    );

    let mut bytes = Bytes::from("1ABC");
    assert_eq!(
        fs.to_read(&codec, &mut bytes),
        Err(RS8583Error::ParseError {
            error: String::from("Length byte out of range: 0x41"),
        })
    );
}

#[test]
fn fs_to_read_lllvar() {
    let codec = Codec::default();

    let fs = FieldSpec {
        name: String::from("TEST"),
        field_type: FieldType::ANS,
        length_type: LengthType::LLLVar,
        sensitivity: SensitivityType::Normal,
        length: 110,
    };

    let mut bytes = Bytes::from("003ABC");
    assert_eq!(fs.to_read(&codec, &mut bytes), Ok(3));

    let mut bytes = Bytes::from("011ABCABCABCAB");
    assert_eq!(fs.to_read(&codec, &mut bytes), Ok(11));

    let mut bytes = Bytes::from("000ABC");
    assert_eq!(fs.to_read(&codec, &mut bytes), Ok(0));

    let mut bytes = Bytes::from("111ABC");
    assert_eq!(
        fs.to_read(&codec, &mut bytes),
        Err(RS8583Error::ParseError {
            error: String::from("Variable length field over max length (111 > 110)"),
        })
    );

    let mut bytes = Bytes::from("");
    assert_eq!(
        fs.to_read(&codec, &mut bytes),
        Err(RS8583Error::ParseError {
            error: String::from("Unable to read length prefix (3 chars needed, 0 available)"),
        })
    );

    let mut bytes = Bytes::from("1");
    assert_eq!(
        fs.to_read(&codec, &mut bytes),
        Err(RS8583Error::ParseError {
            error: String::from("Unable to read length prefix (3 chars needed, 1 available)"),
        })
    );

    let mut bytes = Bytes::from("11");
    assert_eq!(
        fs.to_read(&codec, &mut bytes),
        Err(RS8583Error::ParseError {
            error: String::from("Unable to read length prefix (3 chars needed, 2 available)"),
        })
    );

    let mut bytes = Bytes::from("!10ABC");
    assert_eq!(
        fs.to_read(&codec, &mut bytes),
        Err(RS8583Error::ParseError {
            error: String::from("Length byte out of range: 0x21"),
        })
    );

    let mut bytes = Bytes::from("1!0ABC");
    assert_eq!(
        fs.to_read(&codec, &mut bytes),
        Err(RS8583Error::ParseError {
            error: String::from("Length byte out of range: 0x21"),
        })
    );

    let mut bytes = Bytes::from("11!ABC");
    assert_eq!(
        fs.to_read(&codec, &mut bytes),
        Err(RS8583Error::ParseError {
            error: String::from("Length byte out of range: 0x21"),
        })
    );

    let mut bytes = Bytes::from("ABC");
    assert_eq!(
        fs.to_read(&codec, &mut bytes),
        Err(RS8583Error::ParseError {
            error: String::from("Length byte out of range: 0x41"),
        })
    );

    let mut bytes = Bytes::from("1ABC");
    assert_eq!(
        fs.to_read(&codec, &mut bytes),
        Err(RS8583Error::ParseError {
            error: String::from("Length byte out of range: 0x41"),
        })
    );

    let mut bytes = Bytes::from("11ABC");
    assert_eq!(
        fs.to_read(&codec, &mut bytes),
        Err(RS8583Error::ParseError {
            error: String::from("Length byte out of range: 0x41"),
        })
    );
}

#[test]
fn to_read_llllvar_reads_four_digits() {
    let fs = schema(LengthType::LLLLVar, 9999);
    let mut bytes = Bytes::from("1234rest");
    assert_eq!(fs.to_read(&Codec::default(), &mut bytes), Ok(1234));
    assert_eq!(bytes.as_ref(), b"rest");
}

#[test]
fn to_read_moves_the_cursor_past_the_prefix_only() {
    let fs = schema(LengthType::LLVar, 12);
    let mut bytes = Bytes::from("03ABC");
    assert_eq!(fs.to_read(&Codec::default(), &mut bytes), Ok(3));
    assert_eq!(bytes.as_ref(), b"ABC");
}

#[test]
fn to_read_leaves_the_cursor_for_fixed_and_bitmap() {
    let codec = Codec::default();
    let mut bytes = Bytes::from("TEST1234");
    assert_eq!(schema(LengthType::Fixed, 8).to_read(&codec, &mut bytes), Ok(8));
    assert_eq!(bytes.as_ref(), b"TEST1234");
    assert_eq!(schema(LengthType::BitMap, 8).to_read(&codec, &mut bytes), Ok(0));
    assert_eq!(bytes.as_ref(), b"TEST1234");
}

#[test]
fn to_read_fixed_does_not_look_at_the_input() {
    let mut bytes = Bytes::from("");
    assert_eq!(schema(LengthType::Fixed, 8).to_read(&Codec::default(), &mut bytes), Ok(8));
}

#[test]
fn to_read_stops_behind_the_first_bad_byte() {
    let fs = schema(LengthType::LLLVar, 110);
    let mut bytes = Bytes::from("1!0ABC");
    assert_eq!(
        fs.to_read(&Codec::default(), &mut bytes),
        Err(failure("Length byte out of range: 0x21"))
    );
    assert_eq!(bytes.as_ref(), b"0ABC");
}

#[test]
fn to_read_short_prefix_leaves_the_cursor() {
    let fs = schema(LengthType::LLLVar, 110);
    let mut bytes = Bytes::from("11");
    assert!(fs.to_read(&Codec::default(), &mut bytes).is_err());
    assert_eq!(bytes.as_ref(), b"11");
}

#[test]
fn length_prefix_over_max() {
    let fs = schema(LengthType::LVar, 8);
    let mut bytes = Bytes::from("9ABC");
    assert_eq!(
        fs.to_read(&Codec::default(), &mut bytes),
        Err(failure("Variable length field over max length (9 > 8)"))
    );
    assert_eq!(bytes.as_ref(), b"ABC");
}

#[test]
fn invalid_length_digit() {
    let fs = schema(LengthType::LLVar, 12);
    let mut bytes = Bytes::from("!1AB");
    assert_eq!(
        fs.to_read(&Codec::default(), &mut bytes),
        Err(failure("Length byte out of range: 0x21"))
    );
}

#[test]
fn invalid_length_digit_is_shown_in_two_lower_case_hex_digits() {
    let fs = schema(LengthType::LVar, 8);
    let mut bytes = Bytes::from(vec![0x0au8, 0x41]);
    assert_eq!(
        fs.to_read(&Codec::default(), &mut bytes),
        Err(failure("Length byte out of range: 0x0a"))
    );
    let mut bytes = Bytes::from(vec![0xfeu8, 0x41]);
    assert_eq!(
        fs.to_read(&Codec::default(), &mut bytes),
        Err(failure("Length byte out of range: 0xfe"))
    );
}

#[test]
fn ebcdic_length_prefix() {
    let fs = schema(LengthType::LLVar, 12);
    let mut bytes = Bytes::from(b"\xF0\xF3ABC".to_vec());
    assert_eq!(fs.to_read(&ebcdic(), &mut bytes), Ok(3));
    assert_eq!(bytes.as_ref(), b"ABC");
}

#[test]
fn ebcdic_prefix_refuses_ascii_digits() {
    let fs = schema(LengthType::LLVar, 12);
    let mut bytes = Bytes::from("03ABC");
    assert_eq!(
        fs.to_read(&ebcdic(), &mut bytes),
        Err(failure("Length byte out of range: 0x30"))
    );
}

#[test]
fn binary_prefix_is_one_byte_of_any_value() {
    let fs = schema(LengthType::LLLVar, 300);
    let mut bytes = Bytes::from(vec![200u8, 1, 2, 3]);
    assert_eq!(fs.to_read(&binary(), &mut bytes), Ok(200));
    assert_eq!(bytes.as_ref(), &[1u8, 2, 3]);
}

#[test]
fn binary_prefix_over_max() {
    let fs = schema(LengthType::LLVar, 12);
    let mut bytes = Bytes::from(vec![13u8, 1, 2, 3]);
    assert_eq!(
        fs.to_read(&binary(), &mut bytes),
        Err(failure("Variable length field over max length (13 > 12)"))
    );
}

#[test]
fn parse_length_prefix_of_no_bytes_is_zero() {
    let fs = schema(LengthType::LLVar, 12);
    let mut bytes = Bytes::from("99");
    assert_eq!(fs.parse_length_prefix(&Codec::default(), &mut bytes, 0), Ok(0));
    assert_eq!(bytes.as_ref(), b"99");
}

#[test]
fn parse_length_prefix_weighs_the_first_digit_most() {
    let fs = schema(LengthType::LLLLVar, 9999);
    let mut bytes = Bytes::from("0120");
    assert_eq!(fs.parse_length_prefix(&Codec::default(), &mut bytes, 4), Ok(120));
    let mut bytes = Bytes::from("2100");
    assert_eq!(fs.parse_length_prefix(&Codec::default(), &mut bytes, 4), Ok(2100));
}

#[test]
fn all_nines_are_read_where_the_field_allows_them() {
    let codec = Codec::default();
    let nines = [("9", 9usize), ("99", 99), ("999", 999), ("9999", 9999)];
    for (text, value) in nines {
        let allows = schema(LengthType::LLLLVar, value);
        let mut bytes = Bytes::from(text);
        assert_eq!(allows.parse_length_prefix(&codec, &mut bytes, text.len()), Ok(value));

        let refuses = schema(LengthType::LLLLVar, value - 1);
        let mut bytes = Bytes::from(text);
        assert_eq!(
            refuses.parse_length_prefix(&codec, &mut bytes, text.len()),
            Err(failure(&format!(
                "Variable length field over max length ({} > {})",
                value,
                value - 1
            )))
        );
    }
}

#[test]
fn length_size_counts_the_digits() {
    assert_eq!(LengthType::Fixed.length_size(), 0);
    assert_eq!(LengthType::LVar.length_size(), 1);
    assert_eq!(LengthType::LLVar.length_size(), 2);
    assert_eq!(LengthType::LLLVar.length_size(), 3);
    assert_eq!(LengthType::LLLLVar.length_size(), 4);
    assert_eq!(LengthType::BitMap.length_size(), 0);
}

#[test]
fn min_value_size_by_length_type() {
    assert_eq!(schema(LengthType::Fixed, 12).min_value_size(), 12);
    assert_eq!(schema(LengthType::LVar, 12).min_value_size(), 1);
    assert_eq!(schema(LengthType::LLVar, 12).min_value_size(), 1);
    assert_eq!(schema(LengthType::LLLVar, 12).min_value_size(), 1);
    assert_eq!(schema(LengthType::LLLLVar, 12).min_value_size(), 1);
    assert_eq!(schema(LengthType::BitMap, 12).min_value_size(), 0);
}

#[test]
fn max_value_size_by_length_type() {
    assert_eq!(schema(LengthType::Fixed, 12).max_value_size(), 12);
    assert_eq!(schema(LengthType::Fixed, 100000).max_value_size(), 100000);
    assert_eq!(schema(LengthType::LVar, 5).max_value_size(), 5);
    assert_eq!(schema(LengthType::LVar, 12).max_value_size(), 9);
    assert_eq!(schema(LengthType::LLVar, 20).max_value_size(), 20);
    assert_eq!(schema(LengthType::LLVar, 99).max_value_size(), 99);
    assert_eq!(schema(LengthType::LLVar, 100).max_value_size(), 99);
    assert_eq!(schema(LengthType::LLLVar, 1000).max_value_size(), 999);
    assert_eq!(schema(LengthType::LLLVar, 998).max_value_size(), 998);
    assert_eq!(schema(LengthType::LLLLVar, 10000).max_value_size(), 9999);
    assert_eq!(schema(LengthType::LLLLVar, 9998).max_value_size(), 9998);
    assert_eq!(schema(LengthType::BitMap, 12).max_value_size(), 0);
}

#[test]
fn schema_defaults() {
    let fs = FieldSpec::default();
    assert_eq!(fs.name, "");
    assert!(matches!(fs.field_type, FieldType::ANS));
    assert!(matches!(fs.length_type, LengthType::Fixed));
    assert!(matches!(fs.sensitivity, SensitivityType::Normal));
    assert_eq!(fs.length, 0);
    assert!(matches!(FieldType::default(), FieldType::ANS));
    assert!(matches!(LengthType::default(), LengthType::Fixed));
    assert!(matches!(SensitivityType::default(), SensitivityType::Normal));
    assert!(MessageSpec::default().fields.is_empty());
}

#[test]
fn message_spec_get_is_bounds_checked() {
    let spec = MessageSpec { fields: vec![None, Some(schema(LengthType::Fixed, 4))] };
    assert!(spec.get(0).is_none());
    assert_eq!(spec.get(1).unwrap().length, 4);
    assert!(spec.get(2).is_none());
}

#[test]
fn serialize_field_fixed() {
    let mut buf = BytesMut::new();
    buf.extend_from_slice(b"<");
    let field = Field::from_bytes(Bytes::from("ABCD"));
    assert_eq!(
        schema(LengthType::Fixed, 4).serialize_field(&Codec::default(), &mut buf, &field),
        Ok(())
    );
    assert_eq!(buf.as_ref(), b"<ABCD");
}

#[test]
fn serialize_field_fixed_of_another_length_fails() {
    let mut buf = BytesMut::new();
    buf.extend_from_slice(b"<");
    let field = Field::from_bytes(Bytes::from("ABC"));
    assert_eq!(
        schema(LengthType::Fixed, 4).serialize_field(&Codec::default(), &mut buf, &field),
        Err(failure("Invalid field length"))
    );
    assert_eq!(buf.as_ref(), b"<");
}

#[test]
fn serialize_field_llvar() {
    let mut buf = BytesMut::new();
    let field = Field::from_bytes(Bytes::from("LLVAR"));
    assert_eq!(
        schema(LengthType::LLVar, 20).serialize_field(&Codec::default(), &mut buf, &field),
        Ok(())
    );
    assert_eq!(buf.as_ref(), b"05LLVAR");
}

#[test]
fn serialize_field_prefix_widths() {
    let field = Field::from_bytes(Bytes::from("LLVAR"));
    let codec = Codec::default();
    let mut buf = BytesMut::new();
    schema(LengthType::LVar, 9).serialize_field(&codec, &mut buf, &field).unwrap();
    assert_eq!(buf.as_ref(), b"5LLVAR");
    let mut buf = BytesMut::new();
    schema(LengthType::LLLVar, 999).serialize_field(&codec, &mut buf, &field).unwrap();
    assert_eq!(buf.as_ref(), b"005LLVAR");
    let mut buf = BytesMut::new();
    schema(LengthType::LLLLVar, 9999).serialize_field(&codec, &mut buf, &field).unwrap();
    assert_eq!(buf.as_ref(), b"0005LLVAR");
}

#[test]
fn serialize_field_does_not_check_the_largest_length() {
    let mut buf = BytesMut::new();
    let field = Field::from_bytes(Bytes::from("LLVAR"));
    schema(LengthType::LLVar, 3).serialize_field(&Codec::default(), &mut buf, &field).unwrap();
    assert_eq!(buf.as_ref(), b"05LLVAR");
}

#[test]
fn serialize_field_ebcdic_prefix() {
    let mut buf = BytesMut::new();
    let field = Field::from_bytes(Bytes::from("LLVAR"));
    schema(LengthType::LLVar, 20).serialize_field(&ebcdic(), &mut buf, &field).unwrap();
    assert_eq!(buf.as_ref(), b"\xF0\xF5LLVAR");
}

#[test]
fn serialize_field_binary_prefix() {
    let mut buf = BytesMut::new();
    let field = Field::from_bytes(Bytes::from("LLVAR"));
    schema(LengthType::LLVar, 20).serialize_field(&binary(), &mut buf, &field).unwrap();
    assert_eq!(buf.as_ref(), b"\x05LLVAR");
}

#[test]
fn serialize_field_binary_prefix_over_a_byte_fails() {
    let mut buf = BytesMut::new();
    buf.extend_from_slice(b"<");
    let field = Field::from_bytes(Bytes::from(vec![7u8; 256]));
    assert_eq!(
        schema(LengthType::LLLVar, 999).serialize_field(&binary(), &mut buf, &field),
        Err(failure("Length out of range: 256"))
    );
    assert_eq!(buf.as_ref(), b"<");
}

#[test]
fn serialize_field_bitmap_writes_nothing() {
    let mut buf = BytesMut::new();
    let field = Field::from_bytes(Bytes::from("LLVAR"));
    assert_eq!(
        schema(LengthType::BitMap, 8).serialize_field(&Codec::default(), &mut buf, &field),
        Ok(())
    );
    assert!(buf.is_empty());
}

#[test]
fn field_holds_its_payload() {
    let field = Field::from_bytes(Bytes::from("LLVAR"));
    assert_eq!(field.len(), 5);
    assert!(!field.is_empty());
    assert_eq!(field.as_slice(), b"LLVAR");
    let copy = field.clone();
    assert_eq!(copy.as_slice(), b"LLVAR");
    let empty = Field::from_bytes(Bytes::new());
    assert_eq!(empty.len(), 0);
    assert!(empty.is_empty());
    assert_eq!(empty.as_slice(), b"");
}
