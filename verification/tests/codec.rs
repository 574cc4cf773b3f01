use xmmrpc::codec::{
    asn_int, decode_values, decode_would_overflow, pack, pack_u32, unpack, unpack_would_overflow,
    Arg, CodecError, Reader, Value,
};

#[test]
fn integer_encoding_roundtrips() {
    for value in [0u32, 1, 0x0102_0304, u32::MAX] {
        let encoded = asn_int(value);
        let reader = &mut Reader::new(&encoded);
        assert_eq!(reader.take_asn_int().unwrap(), value);
    }
}

#[test]
fn short_string_pads_to_capacity() {
    let out = pack("s4", &[Arg::Bytes(b"ab")]).unwrap();
    assert_eq!(
        out,
        [
            0x55, 0x02, 0x02, 0x04, 0, 0, 0, 4, 0x02, 0x04, 0, 0, 0, 2, b'a', b'b', 0, 0,
        ]
    );
    let decoded = unpack("s", &out).unwrap();
    assert_eq!(decoded[0].as_bytes().unwrap(), b"ab");
}

#[test]
fn long_string_uses_variable_length() {
    // 200 bytes fits in a single extended length byte.
    let value = [0xAAu8; 200];
    let out = pack("s200", &[Arg::Bytes(&value)]).unwrap();
    assert_eq!(out[0], 0x55);
    assert_eq!(out[1], 0x81);
    assert_eq!(out[2], 200);
    let decoded = unpack("s", &out).unwrap();
    assert_eq!(decoded[0].as_bytes().unwrap(), &value);
}

#[test]
fn rejects_overflow() {
    assert!(matches!(
        pack("s2", &[Arg::Bytes(b"abc")]),
        Err(CodecError::StringOverflow { .. })
    ));
}

#[test]
fn asn_int_is_tag_width_and_big_endian_bytes() {
    assert_eq!(asn_int(0x0102_0304), [0x02, 0x04, 0x01, 0x02, 0x03, 0x04]);
    assert_eq!(pack_u32(0xdead_beef), vec![0x02, 0x04, 0xde, 0xad, 0xbe, 0xef]);
}

#[test]
fn pack_u32_equals_pack_l() {
    for v in [0u32, 7, 0x1234_5678, u32::MAX] {
        assert_eq!(pack_u32(v), pack("L", &[Arg::Int(v)]).unwrap());
    }
}

#[test]
fn pack_integer_widths() {
    let out = pack("BHL", &[Arg::Int(0x1234_5678), Arg::Int(0x1234_5678), Arg::Int(0x1234_5678)])
        .unwrap();
    assert_eq!(
        out,
        vec![0x02, 1, 0x78, 0x02, 2, 0x56, 0x78, 0x02, 4, 0x12, 0x34, 0x56, 0x78]
    );
}

#[test]
fn narrow_integer_reads_back_its_low_bytes() {
    let out = pack("H", &[Arg::Int(0x1234_5678)]).unwrap();
    let mut reader = Reader::new(&out);
    assert_eq!(reader.take_asn_int().unwrap(), 0x5678);
    assert!(reader.is_empty());
}

#[test]
fn pack_wide_elements() {
    // Two 16-bit elements in a field of three.
    let out = pack("SH3", &[Arg::Bytes(&[1, 2, 3, 4])]).unwrap();
    assert_eq!(
        out,
        vec![0x56, 2, 0x02, 4, 0, 0, 0, 6, 0x02, 4, 0, 0, 0, 2, 1, 2, 3, 4, 0, 0]
    );
    let decoded = unpack("s", &out).unwrap();
    assert_eq!(decoded, vec![Value::Bytes(vec![1, 2, 3, 4])]);
}

#[test]
fn pack_errors() {
    assert_eq!(pack("L", &[]), Err(CodecError::MissingArgument));
    assert_eq!(pack("", &[Arg::Int(1)]), Err(CodecError::TooManyArguments));
    assert_eq!(pack("L", &[Arg::Bytes(b"x")]), Err(CodecError::WrongArgument));
    assert_eq!(pack("s4", &[Arg::Int(1)]), Err(CodecError::WrongArgument));
    assert_eq!(pack("s", &[Arg::Bytes(b"x")]), Err(CodecError::MissingLength));
    assert_eq!(pack("S", &[Arg::Bytes(b"x")]), Err(CodecError::MissingLength));
    assert_eq!(pack("SX4", &[Arg::Bytes(b"x")]), Err(CodecError::BadFormat('X')));
    assert_eq!(pack("Q", &[Arg::Int(1)]), Err(CodecError::BadFormat('Q')));
    assert_eq!(
        pack("SL4", &[Arg::Bytes(b"abc")]),
        Err(CodecError::StringOverflow { valid: 3, capacity: 3 })
    );
    assert_eq!(
        pack("s99999999999999999999999", &[Arg::Bytes(b"x")]),
        Err(CodecError::MissingLength)
    );
}

#[test]
fn long_element_count_is_big_endian() {
    let value = vec![0u8; 300];
    let out = pack("s300", &[Arg::Bytes(&value)]).unwrap();
    assert_eq!(&out[..4], &[0x55, 0x82, 0x01, 0x2c]);
}

#[test]
fn decode_values_by_tag() {
    let mut data = pack_u32(7);
    data.extend_from_slice(&pack("s2", &[Arg::Bytes(b"hi")]).unwrap());
    let values = decode_values(&data).unwrap();
    assert_eq!(values, vec![Value::Int(7), Value::Bytes(b"hi".to_vec())]);
    assert_eq!(values[0].as_int(), Some(7));
    assert_eq!(values[1].as_int(), None);
    assert_eq!(values[0].as_bytes(), None);
    assert!(!decode_would_overflow(&data));
}

#[test]
fn decode_errors() {
    assert_eq!(decode_values(&[0x99]), Err(CodecError::BadStringTag(0x99)));
    assert_eq!(decode_values(&[0x02, 0x05]), Err(CodecError::BadIntWidth(5)));
    assert_eq!(decode_values(&[0x02, 0x04, 1]), Err(CodecError::UnexpectedEof));
    assert_eq!(unpack("n", &[0x55]), Err(CodecError::BadIntTag(0x55)));
    assert_eq!(unpack("x", &[]), Err(CodecError::BadFormat('x')));
    // Count 5 does not equal valid 1 + padding 1.
    let data = [0x55, 1, 0x02, 1, 5, 0x02, 1, 1, b'a', 0];
    assert_eq!(
        decode_values(&data),
        Err(CodecError::StringLengthMismatch { count: 5, valid: 1, padding: 1 })
    );
    assert_eq!(decode_values(&[]), Ok(vec![]));
}

#[test]
fn oversized_length_prefix_is_outside_the_domain() {
    // A count of fifteen little-endian bytes cannot be held in a usize.
    let mut data = vec![0x55, 0x8f];
    data.extend_from_slice(&[0u8; 20]);
    assert!(decode_would_overflow(&data));
}

#[test]
fn reader_cursor() {
    let data = [1u8, 2, 3];
    let mut reader = Reader::new(&data);
    assert_eq!(reader.peek_u8(), Ok(1));
    assert_eq!(reader.take_u8(), Ok(1));
    assert_eq!(reader.take(2), Ok(&data[1..]));
    assert!(reader.is_empty());
    assert_eq!(reader.take_u8(), Err(CodecError::UnexpectedEof));
    assert_eq!(reader.take(1), Err(CodecError::UnexpectedEof));
}

#[test]
fn decoding_a_packed_payload_gives_back_its_fields() {
    let out = pack(
        "Ls4HSL2B",
        &[
            Arg::Int(7),
            Arg::Bytes(b"ab"),
            Arg::Int(0x0001_2345),
            Arg::Bytes(&[1, 2, 3, 4]),
            Arg::Int(0x1ff),
        ],
    )
    .unwrap();
    assert_eq!(
        decode_values(&out).unwrap(),
        vec![
            Value::Int(7),
            Value::Bytes(b"ab".to_vec()),
            Value::Int(0x2345),
            Value::Bytes(vec![1, 2, 3, 4]),
            Value::Int(0xff),
        ]
    );
}

#[test]
fn long_element_counts_do_not_read_back() {
    // The element count 300 is written big-endian (0x01 0x2c) and read
    // little-endian (0x2c01), so the declared sizes disagree.
    let value = vec![0u8; 300];
    let out = pack("s300", &[Arg::Bytes(&value)]).unwrap();
    assert_eq!(
        unpack("s", &out),
        Err(CodecError::StringLengthMismatch { count: 300, valid: 0x2c01, padding: 0 })
    );
}

#[test]
fn packing_two_formats_joins_their_encodings() {
    let first = pack("L", &[Arg::Int(9)]).unwrap();
    let second = pack("s4B", &[Arg::Bytes(b"ab"), Arg::Int(3)]).unwrap();
    let joined = pack("Ls4B", &[Arg::Int(9), Arg::Bytes(b"ab"), Arg::Int(3)]).unwrap();
    let mut expected = first.clone();
    expected.extend_from_slice(&second);
    assert_eq!(joined, expected);
    let empty = pack("", &[]).unwrap();
    assert!(empty.is_empty());
}

#[test]
fn a_following_digit_extends_the_capacity() {
    let first = pack("s1", &[Arg::Bytes(b"a")]).unwrap();
    let joined = pack("s12", &[Arg::Bytes(b"a")]).unwrap();
    assert_ne!(joined.len(), first.len());
}

#[test]
fn decoding_joined_payloads_joins_their_values() {
    let x = pack("Ls2", &[Arg::Int(1), Arg::Bytes(b"hi")]).unwrap();
    let y = pack("B", &[Arg::Int(4)]).unwrap();
    let mut xy = x.clone();
    xy.extend_from_slice(&y);
    let mut expected = decode_values(&x).unwrap();
    expected.extend(decode_values(&y).unwrap());
    assert_eq!(decode_values(&xy).unwrap(), expected);
    assert_eq!(
        expected,
        vec![Value::Int(1), Value::Bytes(b"hi".to_vec()), Value::Int(4)]
    );
    assert_eq!(decode_values(&[]).unwrap(), Vec::<Value>::new());
}

#[test]
fn overflow_by_format() {
    let mut data = pack_u32(1);
    data.extend_from_slice(&[0x55, 0x8f]);
    data.extend_from_slice(&[0u8; 20]);
    assert!(decode_would_overflow(&data));
    assert!(unpack_would_overflow("ns", &data));
    assert!(!unpack_would_overflow("n", &data));
    assert_eq!(unpack("n", &data).unwrap(), vec![Value::Int(1)]);
    assert!(!unpack_would_overflow("nn", &data));
    assert!(matches!(unpack("nn", &data), Err(CodecError::BadIntTag(0x55))));
}

#[test]
fn values_show_as_hex_integers_and_byte_lists() {
    assert_eq!(Value::Int(0x1234ab).debug_text(), "0x1234ab");
    assert_eq!(Value::Int(0).debug_text(), "0x0");
    assert_eq!(Value::Bytes(vec![1, 20, 255]).debug_text(), "[1, 20, 255]");
    assert_eq!(Value::Bytes(vec![7]).debug_text(), "[7]");
    assert_eq!(Value::Bytes(Vec::new()).debug_text(), "[]");
}

#[test]
fn packed_strings_read_back_whole_fields() {
    let cases: [(&str, Vec<u8>); 4] = [
        ("s", b"ab".to_vec()),
        ("SB", vec![1, 2, 3]),
        ("SH", vec![1, 2, 3, 4]),
        ("SL", vec![1, 2, 3, 4, 5, 6, 7, 8]),
    ];
    let rest = [9u8, 8];
    for (spec, value) in cases {
        let mut bytes = pack(&format!("{spec}6"), &[Arg::Bytes(&value)]).unwrap();
        bytes.extend_from_slice(&rest);
        let mut reader = Reader::new(&bytes);
        assert_eq!(reader.take_string().unwrap(), value);
        assert_eq!(reader.take(rest.len()).unwrap(), &rest[..]);
        assert!(reader.is_empty());
    }
}
