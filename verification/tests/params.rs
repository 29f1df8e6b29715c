use scpi::{Block, DefaultValue, Discrete, FiniteFloat, Limit, Parameter, ScpiFloat, Step};

#[test]
fn test_discrete_parameter() {
    let mut buf = Vec::new();
    Discrete("TEST").encode(&mut buf).unwrap();
    assert_eq!(buf, b"TEST");
}

#[test]
fn test_str_parameter() {
    let mut buf = Vec::new();
    "foo".encode(&mut buf).unwrap();
    assert_eq!(buf, b"\"foo\"");
}

#[test]
fn test_str_parameter_escape() {
    let mut buf = Vec::new();
    r#"what if "quotes" break 'stuff'?"#.encode(&mut buf).unwrap();
    assert_eq!(buf, br#""what if ""quotes"" break 'stuff'?""#);
}

#[test]
fn test_block_parameter() {
    let mut buf = Vec::new();
    Block(&[0x11, 0x22, 0x33]).encode(&mut buf).unwrap();
    assert_eq!(buf, b"#13\x11\x22\x33");
}

#[test]
fn test_f32_parameter_positive() {
    let mut buf = Vec::new();
    let v = ScpiFloat::Finite(FiniteFloat {
        negative: false,
        integer_digit: 1,
        fraction: vec![2, 3, 4, 5, 6, 7],
        exp_negative: false,
        exponent: 11,
    });
    v.encode(&mut buf).unwrap();
    assert_eq!(buf, b"1.234567E11");
    assert_eq!(buf, format!("{:E}", 1.234567E11f32).as_bytes());
}

#[test]
fn test_f32_parameter_negative() {
    let mut buf = Vec::new();
    let v = ScpiFloat::Finite(FiniteFloat {
        negative: true,
        integer_digit: 1,
        fraction: vec![2, 3, 4, 5, 6, 7],
        exp_negative: true,
        exponent: 11,
    });
    v.encode(&mut buf).unwrap();
    assert_eq!(buf, b"-1.234567E-11");
    assert_eq!(buf, format!("{:E}", -1.234567E-11f32).as_bytes());
}

#[test]
fn test_tuple2() {
    let mut buf = Vec::new();
    ("mixed", Discrete("BAG")).encode(&mut buf).unwrap();
    assert_eq!(buf, br#""mixed",BAG"#);
}

#[test]
fn test_tuple3() {
    let mut buf = Vec::new();
    let f = ScpiFloat::Finite(FiniteFloat {
        negative: true,
        integer_digit: 4,
        fraction: vec![2],
        exp_negative: false,
        exponent: 5,
    });
    (1u8, -1i8, f).encode(&mut buf).unwrap();
    assert_eq!(buf, b"1,-1,-4.2E5");
    assert_eq!(&buf[5..], format!("{:E}", -420000f32).as_bytes());
}

#[test]
fn test_tuple4() {
    let mut buf = Vec::new();
    (true, Limit::Min, Step::Down, DefaultValue).encode(&mut buf).unwrap();
    assert_eq!(buf, b"1,MIN,DOWN,DEF");
}

#[test]
fn test_nested_tuple() {
    let mut buf = Vec::new();
    ((1u8, 2u8), 3u8).encode(&mut buf).unwrap();
    assert_eq!(buf, b"1,2,3");
}

#[test]
fn test_unit_parameter() {
    let mut buf = Vec::new();
    ().encode(&mut buf).unwrap();
    assert_eq!(buf, b"");
}

#[test]
fn test_boolean_parameter() {
    let mut buf = Vec::new();
    true.encode(&mut buf).unwrap();
    false.encode(&mut buf).unwrap();
    assert_eq!(buf, b"10");
}

#[test]
fn test_default_value_parameter() {
    let mut buf = Vec::new();
    DefaultValue.encode(&mut buf).unwrap();
    assert_eq!(buf, b"DEF");
}

#[test]
fn test_limit_parameter() {
    let mut buf = Vec::new();
    Limit::Min.encode(&mut buf).unwrap();
    buf.push(b',');
    Limit::Max.encode(&mut buf).unwrap();
    assert_eq!(buf, b"MIN,MAX");
}

#[test]
fn test_step_parameter() {
    let mut buf = Vec::new();
    Step::Up.encode(&mut buf).unwrap();
    buf.push(b',');
    Step::Down.encode(&mut buf).unwrap();
    assert_eq!(buf, b"UP,DOWN");
}

#[test]
fn test_integer_parameters() {
    let mut buf = Vec::new();
    0u8.encode(&mut buf).unwrap();
    assert_eq!(buf, b"0");

    let mut buf = Vec::new();
    42u16.encode(&mut buf).unwrap();
    assert_eq!(buf, b"42");

    let mut buf = Vec::new();
    (-1i8).encode(&mut buf).unwrap();
    assert_eq!(buf, b"-1");

    let mut buf = Vec::new();
    i8::MIN.encode(&mut buf).unwrap();
    assert_eq!(buf, b"-128");

    let mut buf = Vec::new();
    i64::MIN.encode(&mut buf).unwrap();
    assert_eq!(buf, b"-9223372036854775808");

    let mut buf = Vec::new();
    u64::MAX.encode(&mut buf).unwrap();
    assert_eq!(buf, b"18446744073709551615");

    let mut buf = Vec::new();
    100000usize.encode(&mut buf).unwrap();
    assert_eq!(buf, b"100000");

    let mut buf = Vec::new();
    (-77isize).encode(&mut buf).unwrap();
    assert_eq!(buf, b"-77");

    let mut buf = Vec::new();
    (-305i16).encode(&mut buf).unwrap();
    assert_eq!(buf, b"-305");

    let mut buf = Vec::new();
    4294967295u32.encode(&mut buf).unwrap();
    assert_eq!(buf, b"4294967295");

    let mut buf = Vec::new();
    (-2147483648i32).encode(&mut buf).unwrap();
    assert_eq!(buf, b"-2147483648");

    let mut buf = Vec::new();
    9223372036854775807i64.encode(&mut buf).unwrap();
    assert_eq!(buf, b"9223372036854775807");
}
