use net15::parse::parse_move;

#[test]
fn parses_plain_and_padded_numbers() {
    assert_eq!(parse_move(b"9"), Some(9));
    assert_eq!(parse_move(b"9\n"), Some(9));
    assert_eq!(parse_move(b"  42 \r\n"), Some(42));
    assert_eq!(parse_move(b"007"), Some(7));
    assert_eq!(parse_move(b"0"), Some(0));
}

#[test]
fn rejects_non_numbers() {
    assert_eq!(parse_move(b"abc"), None);
    assert_eq!(parse_move(b""), None);
    assert_eq!(parse_move(b"   \n"), None);
    assert_eq!(parse_move(b"1x"), None);
    assert_eq!(parse_move(b"-3"), None);
    assert_eq!(parse_move(b"+3"), None);
    assert_eq!(parse_move(b"4 2"), None);
}

#[test]
fn handles_u64_bounds() {
    assert_eq!(parse_move(b"18446744073709551615"), Some(u64::MAX));
    assert_eq!(parse_move(b"18446744073709551616"), None);
    assert_eq!(parse_move(b"99999999999999999999999"), None);
}
