use yep::text::{chars_of, parse_decimal, push_decimal, push_signed_decimal, string_of_chars};

#[test]
fn parse_decimal_reads_runs_of_digits() {
    assert_eq!(parse_decimal("0"), Some(0));
    assert_eq!(parse_decimal("0042"), Some(42));
    assert_eq!(parse_decimal("9223372036854775807"), Some(i64::MAX));
}

#[test]
fn parse_decimal_rejects_other_text() {
    assert_eq!(parse_decimal(""), None);
    assert_eq!(parse_decimal("12a"), None);
    assert_eq!(parse_decimal("-1"), None);
    assert_eq!(parse_decimal("9223372036854775808"), None);
}

#[test]
fn decimal_spelling_of_integers() {
    let mut s = String::from("x=");
    push_decimal(&mut s, 0);
    push_decimal(&mut s, 1907);
    assert_eq!(s, "x=01907");
    let mut t = String::new();
    push_signed_decimal(&mut t, i64::MIN);
    assert_eq!(t, "-9223372036854775808");
    let mut u = String::new();
    push_signed_decimal(&mut u, -7);
    push_signed_decimal(&mut u, 7);
    assert_eq!(u, "-77");
}

#[test]
fn characters_and_slices_of_text() {
    let cs = chars_of("héllo");
    assert_eq!(cs, vec!['h', 'é', 'l', 'l', 'o']);
    assert_eq!(string_of_chars(&cs, 1, 4), "éll");
    assert_eq!(string_of_chars(&cs, 2, 2), "");
}
