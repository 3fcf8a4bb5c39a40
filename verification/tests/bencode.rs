use hive_tracker::bencode::{
    append_bencoded_bytes, append_bencoded_integer, decode, DecodeError, Value, MAX_NESTING_DEPTH,
};

#[test]
fn given_nested_bencode_when_decoded_then_structure_is_preserved() {
    let decoded = decode(b"d3:cow3:moo4:spamli1ei2eee").expect("value should decode");

    assert_eq!(
        decoded,
        Value::Dictionary(vec![
            (b"cow".as_slice(), Value::Bytes(b"moo")),
            (
                b"spam".as_slice(),
                Value::List(vec![Value::Integer(1), Value::Integer(2)])
            )
        ])
    );
}

#[test]
fn given_binary_bytes_when_decoded_then_no_utf8_conversion_is_required() {
    assert_eq!(
        decode(b"4:\x00\xff\x01\x80").expect("binary bytes should decode"),
        Value::Bytes(&[0, 255, 1, 128])
    );
}

#[test]
fn given_noncanonical_or_truncated_values_when_decoded_then_errors_are_returned() {
    for input in [
        b"i03e".as_slice(),
        b"i-0e",
        b"03:abc",
        b"4:abc",
        b"dli1eee",
        b"i1eextra",
    ] {
        assert!(decode(input).is_err(), "{input:?} should be rejected");
    }
}

#[test]
fn given_excessive_nesting_when_decoded_then_depth_is_bounded() {
    let mut input = vec![b'l'; MAX_NESTING_DEPTH + 1];
    input.extend(std::iter::repeat_n(b'e', MAX_NESTING_DEPTH + 1));

    assert!(matches!(
        decode(&input),
        Err(DecodeError::NestingTooDeep { .. })
    ));
}

#[test]
fn nesting_up_to_the_limit_is_decoded() {
    let mut input = vec![b'l'; MAX_NESTING_DEPTH];
    input.extend(std::iter::repeat_n(b'e', MAX_NESTING_DEPTH));
    assert!(decode(&input).is_ok());
}

#[test]
fn each_decoding_error_says_where_it_is() {
    let mut deep = vec![b'l'; MAX_NESTING_DEPTH + 1];
    deep.extend(std::iter::repeat_n(b'e', MAX_NESTING_DEPTH + 1));
    let cases: Vec<(&[u8], DecodeError, &str)> = vec![
        (
            b"",
            DecodeError::UnexpectedEnd { offset: 0 },
            "unexpected end of bencode input at byte 0",
        ),
        (
            b"l
e",
            DecodeError::InvalidToken {
                offset: 1,
                token: 10,
            },
            "invalid bencode token 0x0a at byte 1",
        ),
        (
            b"i-0e",
            DecodeError::InvalidInteger { offset: 0 },
            "invalid bencode integer at byte 0",
        ),
        (
            b"03:abc",
            DecodeError::InvalidByteStringLength { offset: 0 },
            "invalid byte string length at byte 0",
        ),
        (
            b"4:abc",
            DecodeError::TruncatedByteString { offset: 0 },
            "byte string at byte 0 exceeds the remaining input",
        ),
        (
            b"dli1eee",
            DecodeError::InvalidDictionaryKey { offset: 1 },
            "dictionary key at byte 1 is not a byte string",
        ),
        (
            &deep,
            DecodeError::NestingTooDeep { offset: 128 },
            "bencode nesting exceeds 128 levels at byte 128",
        ),
        (
            b"i1eextra",
            DecodeError::TrailingData { offset: 3 },
            "trailing data begins at byte 3",
        ),
    ];
    for (input, error, message) in cases {
        assert_eq!(decode(input), Err(error));
        assert_eq!(error.message(), message);
    }
}

#[test]
fn integers_keep_their_sign_and_size() {
    assert_eq!(decode(b"i-42e"), Ok(Value::Integer(-42)));
    assert_eq!(decode(b"i0e"), Ok(Value::Integer(0)));
    assert_eq!(
        decode(b"i18446744073709551615e"),
        Ok(Value::Integer(18_446_744_073_709_551_615))
    );
}

#[test]
fn appended_values_are_read_back() {
    let mut output = b"l".to_vec();
    append_bencoded_bytes(&mut output, b"spam");
    append_bencoded_integer(&mut output, 1800);
    output.push(b'e');
    assert_eq!(output, b"l4:spami1800ee");
    assert_eq!(
        decode(&output),
        Ok(Value::List(vec![
            Value::Bytes(b"spam"),
            Value::Integer(1800)
        ]))
    );
}

#[test]
fn longer_and_shorter_inputs_are_refused() {
    let input = b"d3:cow3:moo4:spamli1ei2eee";
    let mut longer = input.to_vec();
    longer.push(b'e');
    assert_eq!(
        decode(&longer),
        Err(DecodeError::TrailingData {
            offset: input.len()
        })
    );
    for count in 0..input.len() {
        assert!(decode(&input[..count]).is_err());
    }
    assert_eq!(
        decode(&input[..12]),
        Err(DecodeError::UnexpectedEnd { offset: 12 })
    );
}
