use keylogger::config::parse_usize;
use keylogger::Config;

fn args(words: &[&str]) -> Vec<String> {
    words.iter().map(|word| String::from(*word)).collect()
}

#[test]
fn build_reads_paths_and_worker_count() {
    let config = Config::build(args(&["keylogger", "in.txt", "out.txt", "8"])).unwrap();
    assert_eq!(config.input_file_path(), "in.txt");
    assert_eq!(config.output_file_path(), "out.txt");
    assert_eq!(config.num_threads(), 8);
}

#[test]
fn build_defaults_to_one_worker() {
    let config = Config::build(args(&["keylogger", "in.txt", "out.txt"])).unwrap();
    assert_eq!(config.num_threads(), 1);
}

#[test]
fn build_accepts_zero_workers() {
    let config = Config::build(args(&["keylogger", "in.txt", "out.txt", "0"])).unwrap();
    assert_eq!(config.num_threads(), 0);
}

#[test]
fn build_ignores_further_arguments() {
    let config = Config::build(args(&["keylogger", "a", "b", "2", "x", "y"])).unwrap();
    assert_eq!(config.num_threads(), 2);
}

#[test]
fn build_without_input_path_fails() {
    assert_eq!(Config::build(args(&[])).unwrap_err(), "no input file path provided");
    assert_eq!(Config::build(args(&["keylogger"])).unwrap_err(), "no input file path provided");
}

#[test]
fn build_without_output_path_fails() {
    assert_eq!(
        Config::build(args(&["keylogger", "in.txt"])).unwrap_err(),
        "no output file path provided"
    );
}

#[test]
fn build_with_unreadable_worker_count_fails() {
    for count in ["", "x", "-1", "1.5", " 2", "2 ", "+", "1_000", "0x10"] {
        assert_eq!(
            Config::build(args(&["keylogger", "in.txt", "out.txt", count])).unwrap_err(),
            "Unable to parse number of threads",
            "{:?}",
            count
        );
    }
}

#[test]
fn parse_usize_reads_decimal_numbers() {
    assert_eq!(parse_usize("0"), Some(0));
    assert_eq!(parse_usize("1"), Some(1));
    assert_eq!(parse_usize("+17"), Some(17));
    assert_eq!(parse_usize("007"), Some(7));
    assert_eq!(parse_usize("4096"), Some(4096));
    assert_eq!(parse_usize(&usize::MAX.to_string()), Some(usize::MAX));
    assert_eq!(parse_usize(&format!("000{}", usize::MAX)), Some(usize::MAX));
}

#[test]
fn parse_usize_refuses_what_is_no_number_or_too_large() {
    assert_eq!(parse_usize(""), None);
    assert_eq!(parse_usize("+"), None);
    assert_eq!(parse_usize("-"), None);
    assert_eq!(parse_usize("-0"), None);
    assert_eq!(parse_usize("++1"), None);
    assert_eq!(parse_usize("1+"), None);
    assert_eq!(parse_usize("12a"), None);
    assert_eq!(parse_usize("\u{661}"), None);
    assert_eq!(parse_usize("18446744073709551616"), None);
    assert_eq!(parse_usize("99999999999999999999999999"), None);
    assert_eq!(parse_usize("99999999999999999999999999x"), None);
}

#[test]
fn parse_usize_agrees_with_str_parse() {
    let samples = [
        "", "0", "00", "+0", "-0", "+", "-", "1", "+1", "-1", "10", "1 ", " 1", "1\n", "0x1", "1e3",
        "18446744073709551615", "18446744073709551616", "18446744073709551614",
        "184467440737095516150", "+18446744073709551615", "4294967295", "4294967296", "١٢", "1_0",
    ];
    for sample in samples {
        assert_eq!(parse_usize(sample), sample.parse::<usize>().ok(), "{:?}", sample);
    }
}
