use stampffabrik::claims::{decimal_text, parse_claims, write_claims};

#[test]
fn claims_json_is_compact_and_ordered() {
    let json = write_claims(b"abc", 7200, 3600);
    assert_eq!(json, br#"{"sub":"abc","exp":7200,"iat":3600}"#.to_vec());
}

#[test]
fn claims_json_escapes_quotes_backslashes_and_control_bytes() {
    let json = write_claims(b"a\"b\\c\n", 0, 10);
    assert_eq!(json, br#"{"sub":"a\"b\\c\u000a","exp":0,"iat":10}"#.to_vec());
}

#[test]
fn claims_round_trip() {
    let sub = "3f1c2a9e-0d7b-4c55-9a1e-7f2b6c8d9e10".as_bytes();
    let json = write_claims(sub, usize::MAX, 1_700_000_000);
    assert_eq!(parse_claims(&json), Some((sub.to_vec(), usize::MAX, 1_700_000_000)));
    let odd = "x\"\\\u{1f}é".as_bytes();
    let json = write_claims(odd, 5, 0);
    assert_eq!(parse_claims(&json), Some((odd.to_vec(), 5, 0)));
}

#[test]
fn claims_parser_refuses_other_texts() {
    assert_eq!(parse_claims(b""), None);
    assert_eq!(parse_claims(br#"{"sub":"a","exp":07,"iat":1}"#), None);
    assert_eq!(parse_claims(br#"{"sub":"a","exp":7,"iat":1} "#), None);
    assert_eq!(parse_claims(br#"{"sub":"a","iat":1,"exp":7}"#), None);
    assert_eq!(parse_claims(br#"{"sub":"a\q","exp":7,"iat":1}"#), None);
    assert_eq!(parse_claims(br#"{"sub":"a","exp":99999999999999999999999,"iat":1}"#), None);
    assert_eq!(parse_claims(b"{\"sub\":\"a\x01\",\"exp\":7,\"iat\":1}"), None);
    assert_eq!(parse_claims(br#"{"sub":"a","exp":7,"iat":1}"#), Some((b"a".to_vec(), 7, 1)));
}

#[test]
fn decimal_text_writes_digits() {
    assert_eq!(decimal_text(0), "0");
    assert_eq!(decimal_text(1_700_000_000), "1700000000");
}
