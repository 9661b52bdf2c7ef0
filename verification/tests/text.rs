use lib::text::{hex_digit_of, push_decimal, push_octal, str_to_chars, trim_chars};

#[test]
fn decimal_and_octal_digits() {
    let mut out = b"x".to_vec();
    push_decimal(&mut out, 0);
    push_decimal(&mut out, 1_700_000_000);
    assert_eq!(out, b"x01700000000".to_vec());
    let mut out = Vec::new();
    push_octal(&mut out, 0o100644);
    push_octal(&mut out, 0o40000);
    push_octal(&mut out, 7);
    assert_eq!(out, b"100644400007".to_vec());
}

#[test]
fn characters_and_hex_digits() {
    assert_eq!(str_to_chars("aé😀"), vec!['a', 'é', '😀']);
    assert_eq!(hex_digit_of(0), '0');
    assert_eq!(hex_digit_of(9), '9');
    assert_eq!(hex_digit_of(10), 'a');
    assert_eq!(hex_digit_of(15), 'f');
}

#[test]
fn trimming_white_space() {
    assert_eq!(trim_chars(&str_to_chars(" \t a b \n\u{3000}")), "a b");
    assert_eq!(trim_chars(&str_to_chars("   ")), "");
    assert_eq!(trim_chars(&str_to_chars("x")), "x");
}
