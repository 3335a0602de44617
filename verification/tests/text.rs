use tracetool::text::{
    append_decimal, append_digits, ascii_bytes, byte_in_class, decimal_value, is_numbered_parameter,
    same_text, scan, scan_amount, scan_number, single_byte, word_is, CharClass,
};

#[test]
fn runs_of_one_class_are_scanned() {
    let text = b"  12ab \t";
    assert_eq!(scan(text, CharClass::Space, 0), 2);
    assert_eq!(scan(text, CharClass::Digit, 2), 4);
    assert_eq!(scan(text, CharClass::Letter, 4), 6);
    assert_eq!(scan(text, CharClass::Space, 6), 8);
    assert_eq!(scan(text, CharClass::Digit, 0), 0);
    assert_eq!(scan(text, CharClass::Digit, 8), 8);
    assert!(byte_in_class(CharClass::Space, 0x0b));
    assert!(byte_in_class(CharClass::Space, 0x0c));
    assert!(!byte_in_class(CharClass::Space, 0xa0));
    assert!(!byte_in_class(CharClass::Digit, b'/'));
    assert!(!byte_in_class(CharClass::Digit, b':'));
    assert!(byte_in_class(CharClass::Letter, b'Z'));
    assert!(!byte_in_class(CharClass::Letter, b'['));
    assert!(!byte_in_class(CharClass::Letter, b'`'));
}

#[test]
fn amounts_and_numbers_have_their_shape() {
    assert_eq!(scan_amount(b" 12 ms "), Some((1, 3, 4, 6)));
    assert_eq!(scan_amount(b"12ms"), Some((0, 2, 2, 4)));
    assert_eq!(scan_amount(b"12"), None);
    assert_eq!(scan_amount(b"ms"), None);
    assert_eq!(scan_amount(b"12 ms 3"), None);
    assert_eq!(scan_number(b" 12 "), Some((1, 3)));
    assert_eq!(scan_number(b"12"), Some((0, 2)));
    assert_eq!(scan_number(b""), None);
    assert_eq!(scan_number(b"12a"), None);
    assert_eq!(scan_number(b"1 2"), None);
}

#[test]
fn digits_stand_for_their_number() {
    assert_eq!(decimal_value(b"x0420y", 1, 5), Some(420));
    assert_eq!(decimal_value(b"7", 0, 1), Some(7));
    assert_eq!(decimal_value(b"7", 0, 0), Some(0));
    assert_eq!(decimal_value(b"18446744073709551615", 0, 20), Some(u64::MAX));
    assert_eq!(decimal_value(b"18446744073709551616", 0, 20), None);
    assert_eq!(decimal_value(b"28446744073709551615", 0, 20), None);
}

#[test]
fn numbers_are_written_in_decimal() {
    let mut out = String::from("n=");
    append_digits(&mut out, 0);
    append_digits(&mut out, 907);
    append_digits(&mut out, u64::MAX);
    assert_eq!(out, "n=090718446744073709551615");
    let mut out = String::new();
    append_decimal(&mut out, -1);
    append_decimal(&mut out, 0);
    append_decimal(&mut out, i64::MIN);
    append_decimal(&mut out, i64::MAX);
    assert_eq!(out, "-10-92233720368547758089223372036854775807");
}

#[test]
fn texts_are_compared() {
    assert!(same_text("", ""));
    assert!(same_text("view id", "view id"));
    assert!(!same_text("view id", "view_id"));
    assert!(!same_text("view", "view id"));
    assert!(same_text("grün", "grün"));
    assert!(!same_text("grün", "grun"));
    assert!(word_is(b"5 minutes", 2, 9, "minutes"));
    assert!(!word_is(b"5 minutes", 2, 8, "minutes"));
    assert!(!word_is(b"5 minutes", 2, 9, "minute"));
    assert!(!word_is(b"5 minutes", 2, 9, "minutez"));
    assert!(!word_is(b"5 m", 2, 3, "µ"));
    assert!(word_is(b"5 m", 2, 2, ""));
    assert_eq!(ascii_bytes("abc"), Some(&b"abc"[..]));
    assert_eq!(ascii_bytes("a\u{e9}"), None);
}

#[test]
fn delimiter_is_one_byte() {
    assert_eq!(single_byte(","), Some(b','));
    assert_eq!(single_byte("\t"), Some(b'\t'));
    assert_eq!(single_byte(""), None);
    assert_eq!(single_byte(",,"), None);
    assert_eq!(single_byte("é"), None);
}

#[test]
fn numbered_parameters_start_with_at_p() {
    assert!(is_numbered_parameter("@P1"));
    assert!(is_numbered_parameter("@P"));
    assert!(is_numbered_parameter("@Pé"));
    assert!(!is_numbered_parameter("@p1"));
    assert!(!is_numbered_parameter("P1"));
    assert!(!is_numbered_parameter("@"));
    assert!(!is_numbered_parameter(""));
    assert!(!is_numbered_parameter("é@P"));
}
