use keylogger::key_label;
use keylogger::report::push_decimal;

#[test]
fn every_keycode_of_the_table_has_its_label() {
    let table = [
        ("24", 'q'), ("25", 'w'), ("26", 'e'), ("27", 'r'), ("28", 't'), ("29", 'y'), ("30", 'u'),
        ("31", 'i'), ("32", 'o'), ("33", 'p'), ("34", '{'), ("35", '}'), ("38", 'a'), ("39", 's'),
        ("40", 'd'), ("41", 'f'), ("42", 'g'), ("43", 'h'), ("44", 'j'), ("45", 'k'), ("46", 'l'),
        ("47", ';'), ("48", '\''), ("49", '`'), ("52", 'z'), ("54", 'x'), ("56", 'c'), ("58", 'v'),
        ("60", 'b'), ("62", 'n'), ("64", 'm'), ("66", ','), ("68", '?'),
    ];
    for (code, label) in table {
        assert_eq!(key_label(code), Some(label), "{}", code);
    }
}

#[test]
fn only_the_keycodes_of_the_table_have_a_label() {
    let known = [
        24, 25, 26, 27, 28, 29, 30, 31, 32, 33, 34, 35, 38, 39, 40, 41, 42, 43, 44, 45, 46, 47, 48,
        49, 52, 54, 56, 58, 60, 62, 64, 66, 68,
    ];
    let mut n = 0;
    while n < 1000 {
        let code = format!("{}", n);
        assert_eq!(key_label(&code).is_some(), known.contains(&n), "{}", code);
        n += 1;
    }
}

#[test]
fn a_keycode_is_matched_letter_for_letter() {
    assert_eq!(key_label(""), None);
    assert_eq!(key_label("2"), None);
    assert_eq!(key_label("024"), None);
    assert_eq!(key_label("+24"), None);
    assert_eq!(key_label("24 "), None);
    assert_eq!(key_label("2a"), None);
    assert_eq!(key_label("q"), None);
    assert_eq!(key_label("\u{662}\u{664}"), None);
    assert_eq!(key_label("999"), None);
}

#[test]
fn push_decimal_appends_the_digits() {
    let cases: [(u64, &str); 8] = [
        (0, "0"),
        (7, "7"),
        (10, "10"),
        (99, "99"),
        (100, "100"),
        (1234567890, "1234567890"),
        (9007199254740993, "9007199254740993"),
        (u64::MAX, "18446744073709551615"),
    ];
    for (n, digits) in cases {
        let mut out = String::from("n=");
        push_decimal(&mut out, n);
        assert_eq!(out, format!("n={}", digits));
    }
}
