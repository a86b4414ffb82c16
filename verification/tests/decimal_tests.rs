use walrust::decimal::{parse_u128, parse_u32, push_decimal, IntErrorKind};

#[test]
fn parse_u32_values() {
    assert_eq!(parse_u32("8000"), Ok(8000));
    assert_eq!(parse_u32("0"), Ok(0));
    assert_eq!(parse_u32("007"), Ok(7));
    assert_eq!(parse_u32("+5"), Ok(5));
    assert_eq!(parse_u32("4294967295"), Ok(4294967295));
}

#[test]
fn parse_u32_errors() {
    assert_eq!(parse_u32(""), Err(IntErrorKind::Empty));
    assert_eq!(parse_u32("+"), Err(IntErrorKind::InvalidDigit));
    assert_eq!(parse_u32("-"), Err(IntErrorKind::InvalidDigit));
    assert_eq!(parse_u32("-5"), Err(IntErrorKind::InvalidDigit));
    assert_eq!(parse_u32("12a"), Err(IntErrorKind::InvalidDigit));
    assert_eq!(parse_u32(" 1"), Err(IntErrorKind::InvalidDigit));
    assert_eq!(parse_u32("4294967296"), Err(IntErrorKind::PosOverflow));
    assert_eq!(parse_u32("99999999999x"), Err(IntErrorKind::PosOverflow));
}

#[test]
fn parse_agrees_with_std() {
    for s in ["", "+", "-", "0", "+0", "-0", "12", "1a", "a1", "4294967295", "4294967296", "99999999999999x", "++1", "１"] {
        let ours = parse_u32(s);
        let theirs = s.parse::<u32>();
        match (ours, theirs) {
            (Ok(a), Ok(b)) => assert_eq!(a, b),
            (Err(k), Err(e)) => assert_eq!(format!("{:?}", k), format!("{:?}", e.kind())),
            (a, b) => panic!("{:?} {:?} on {:?}", a, b, s),
        }
    }
    for s in ["340282366920938463463374607431768211455", "340282366920938463463374607431768211456", "1000", "x"] {
        let ours = parse_u128(s);
        let theirs = s.parse::<u128>();
        match (ours, theirs) {
            (Ok(a), Ok(b)) => assert_eq!(a, b),
            (Err(k), Err(e)) => assert_eq!(format!("{:?}", k), format!("{:?}", e.kind())),
            (a, b) => panic!("{:?} {:?} on {:?}", a, b, s),
        }
    }
}

#[test]
fn push_decimal_writes_digits() {
    let mut s = String::from("port:");
    push_decimal(&mut s, 0);
    assert_eq!(s, "port:0");
    let mut s = String::new();
    push_decimal(&mut s, 4294967295);
    assert_eq!(s, "4294967295");
    let mut s = String::new();
    push_decimal(&mut s, 8000);
    assert_eq!(s, "8000");
}
