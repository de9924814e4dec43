use dns_codec::hex::parse;

#[test]
fn it_converts_from_valid_hex() {
    let hex = parse("abcdef").unwrap();

    assert_eq!(hex, vec![0xab, 0xcd, 0xef]);
}

#[test]
#[should_panic]
fn it_panics_from_invalid_hex() {
    let _ = parse("ghij").unwrap();
}

#[test]
fn it_converts_from_zero_values() {
    let hex = parse("00000000").unwrap();
    assert_eq!(hex, vec![0x00, 0x00, 0x00, 0x00]);
}

#[test]
fn upper_case_digits_decode_too() {
    let hex = parse("AbCd").unwrap();
    assert_eq!(hex, vec![0xab, 0xcd]);
}

#[test]
fn trailing_unpaired_digit_is_ignored() {
    let hex = parse("abc").unwrap();
    assert_eq!(hex, vec![0xab]);
}
