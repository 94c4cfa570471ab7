use keylogger::text::{char_is_whitespace, split_lines, trimmed};

#[test]
fn whitespace_is_what_the_standard_library_calls_whitespace() {
    let mut code: u32 = 0;
    while code <= 0x10FFFF {
        if let Some(c) = char::from_u32(code) {
            assert_eq!(char_is_whitespace(c), c.is_whitespace(), "U+{:04X}", code);
        }
        code += 1;
    }
}

#[test]
fn trimmed_removes_surrounding_whitespace_only() {
    assert_eq!(trimmed("24"), "24");
    assert_eq!(trimmed("  24\t"), "24");
    assert_eq!(trimmed("\u{a0}2 4\u{3000}\r"), "2 4");
    assert_eq!(trimmed("a  b   c"), "a  b   c");
}

#[test]
fn trimmed_blank_line_is_empty() {
    assert_eq!(trimmed(""), "");
    assert_eq!(trimmed(" "), "");
    assert_eq!(trimmed(" \t\r\u{2003} "), "");
}

#[test]
fn trimmed_agrees_with_str_trim() {
    let samples = [
        "", " ", "x", " x", "x ", " x ", "\tx y\t", "\n\n", "a\u{85}", "\u{1680}a\u{2028}b\u{2029}",
        "\u{200b}x\u{200b}", "  é  ", "\u{feff}x",
    ];
    for sample in samples {
        assert_eq!(trimmed(sample), sample.trim(), "{:?}", sample);
    }
}

#[test]
fn split_lines_ends_lines_at_line_feeds() {
    assert_eq!(split_lines("24\n25\n"), vec!["24", "25"]);
    assert_eq!(split_lines("24\n25"), vec!["24", "25"]);
    assert_eq!(split_lines("\n\n"), vec!["", ""]);
    assert_eq!(split_lines(""), Vec::<String>::new());
    assert_eq!(split_lines("\n"), vec![""]);
}

#[test]
fn split_lines_takes_a_carriage_return_with_the_line_feed() {
    assert_eq!(split_lines("24\r\n25\r\n"), vec!["24", "25"]);
    assert_eq!(split_lines("24\r"), vec!["24\r"]);
    assert_eq!(split_lines("24\r\r\n"), vec!["24\r"]);
    assert_eq!(split_lines("2\r4\n"), vec!["2\r4"]);
    assert_eq!(split_lines("\r\n"), vec![""]);
    assert_eq!(split_lines("\r"), vec!["\r"]);
}

#[test]
fn split_lines_agrees_with_str_lines() {
    let samples = [
        "", "a", "a\n", "a\nb", "a\r\nb\r\n", "\r", "\r\r", "\r\n\r", "\n\r\n", "a\rb\r\nc\n\rd",
        "é\nü\r\n", " 24 \n\t25\n\n26",
    ];
    for sample in samples {
        let expected: Vec<String> = sample.lines().map(String::from).collect();
        assert_eq!(split_lines(sample), expected, "{:?}", sample);
    }
}
