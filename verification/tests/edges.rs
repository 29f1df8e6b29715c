use scpi::{Block, Discrete, EncodeError, FiniteFloat, Parameter, ScpiFloat};

#[test]
fn test_float_special_values() {
    let mut buf = Vec::new();
    ScpiFloat::NotANumber.encode(&mut buf).unwrap();
    assert_eq!(buf, b"NAN");

    let mut buf = Vec::new();
    ScpiFloat::Infinity.encode(&mut buf).unwrap();
    assert_eq!(buf, b"INF");

    let mut buf = Vec::new();
    ScpiFloat::NegInfinity.encode(&mut buf).unwrap();
    assert_eq!(buf, b"NINF");
}

#[test]
fn test_float_zero() {
    let mut buf = Vec::new();
    let v = ScpiFloat::Finite(FiniteFloat {
        negative: false,
        integer_digit: 0,
        fraction: vec![],
        exp_negative: false,
        exponent: 0,
    });
    v.encode(&mut buf).unwrap();
    assert_eq!(buf, b"0E0");
    assert_eq!(buf, format!("{:E}", 0f32).as_bytes());
}

#[test]
fn test_float_no_point_no_exponent_sign() {
    let mut buf = Vec::new();
    let v = ScpiFloat::Finite(FiniteFloat {
        negative: false,
        integer_digit: 1,
        fraction: vec![],
        exp_negative: false,
        exponent: 0,
    });
    v.encode(&mut buf).unwrap();
    assert_eq!(buf, b"1E0");
    assert_eq!(buf, format!("{:E}", 1f32).as_bytes());
}

#[test]
fn test_float_at_range_limit() {
    let mut buf = Vec::new();
    let v = ScpiFloat::Finite(FiniteFloat {
        negative: false,
        integer_digit: 9,
        fraction: vec![9],
        exp_negative: false,
        exponent: 37,
    });
    v.encode(&mut buf).unwrap();
    assert_eq!(buf, b"9.9E37");
}

#[test]
fn test_float_out_of_range() {
    // Magnitude 1.0E38 exceeds the ±9.9E37 decimal program-data range.
    let mut buf = Vec::new();
    let v = ScpiFloat::Finite(FiniteFloat {
        negative: false,
        integer_digit: 1,
        fraction: vec![],
        exp_negative: false,
        exponent: 38,
    });
    assert_eq!(v.encode(&mut buf), Err(EncodeError::NumericOutOfRange));

    // Just above the limit: 9.91E37.
    let mut buf = Vec::new();
    let v = ScpiFloat::Finite(FiniteFloat {
        negative: true,
        integer_digit: 9,
        fraction: vec![9, 1],
        exp_negative: false,
        exponent: 37,
    });
    assert_eq!(v.encode(&mut buf), Err(EncodeError::NumericOutOfRange));
}

#[test]
fn test_float_malformed_digits_rejected() {
    let mut buf = Vec::new();
    let v = ScpiFloat::Finite(FiniteFloat {
        negative: false,
        integer_digit: 12,
        fraction: vec![],
        exp_negative: false,
        exponent: 0,
    });
    assert_eq!(v.encode(&mut buf), Err(EncodeError::NumericOutOfRange));
}

#[test]
fn test_block_empty() {
    let mut buf = Vec::new();
    Block(&[]).encode(&mut buf).unwrap();
    assert_eq!(buf, b"#10");
}

#[test]
fn test_block_ten_bytes() {
    let data = [7u8; 10];
    let mut buf = Vec::new();
    Block(&data).encode(&mut buf).unwrap();
    assert_eq!(&buf[..4], b"#210");
    assert_eq!(&buf[4..], &data);
}

#[test]
fn test_block_too_large() {
    // One byte over the largest length whose decimal form has nine digits.
    let data = vec![0u8; 1_000_000_000];
    let mut buf = Vec::new();
    assert_eq!(Block(&data).encode(&mut buf), Err(EncodeError::BlockTooLarge));
    assert_eq!(buf, b"");
}

#[test]
fn test_block_at_max_length() {
    let data = vec![0u8; 999_999_999];
    let mut buf = Vec::new();
    Block(&data).encode(&mut buf).unwrap();
    assert_eq!(&buf[..11], b"#9999999999");
    assert_eq!(buf.len(), 11 + 999_999_999);
}

#[test]
fn test_discrete_whitespace_allowed() {
    let mut buf = Vec::new();
    Discrete("TRIG NOW\t").encode(&mut buf).unwrap();
    assert_eq!(buf, b"TRIG NOW\t");
}

#[test]
fn test_discrete_invalid_mnemonic() {
    let mut buf = Vec::new();
    assert_eq!(
        Discrete("BAD\u{1}NAME").encode(&mut buf),
        Err(EncodeError::InvalidMnemonic)
    );
    assert_eq!(buf, b"");

    let mut buf = Vec::new();
    assert_eq!(
        Discrete("D\u{c9}F").encode(&mut buf),
        Err(EncodeError::InvalidMnemonic)
    );
}

#[test]
fn test_str_empty() {
    let mut buf = Vec::new();
    "".encode(&mut buf).unwrap();
    assert_eq!(buf, b"\"\"");
}

#[test]
fn test_str_only_quotes() {
    let mut buf = Vec::new();
    "\"\"".encode(&mut buf).unwrap();
    assert_eq!(buf, b"\"\"\"\"\"\"");
}

#[test]
fn test_str_invalid_character() {
    let mut buf = Vec::new();
    assert_eq!(
        "h\u{e9}llo".encode(&mut buf),
        Err(EncodeError::InvalidStringCharacter)
    );

    let mut buf = Vec::new();
    assert_eq!(
        "bell\u{7}".encode(&mut buf),
        Err(EncodeError::InvalidStringCharacter)
    );
}

#[test]
fn test_tuple_error_propagation() {
    let mut buf = Vec::new();
    assert_eq!(
        (Discrete("BAD\u{1}"), true).encode(&mut buf),
        Err(EncodeError::InvalidMnemonic)
    );

    let mut buf = Vec::new();
    let too_big = ScpiFloat::Finite(FiniteFloat {
        negative: false,
        integer_digit: 2,
        fraction: vec![],
        exp_negative: false,
        exponent: 40,
    });
    assert_eq!(
        (1u8, too_big, Discrete("OK")).encode(&mut buf),
        Err(EncodeError::NumericOutOfRange)
    );
}

#[test]
fn test_reencoding_same_bytes() {
    // Encoding a freshly constructed equal value yields the same bytes.
    let mut first = Vec::new();
    ("a\"b", Discrete("MODE")).encode(&mut first).unwrap();
    let mut second = Vec::new();
    ("a\"b", Discrete("MODE")).encode(&mut second).unwrap();
    assert_eq!(first, second);
    assert_eq!(first, br#""a""b",MODE"#);
}
