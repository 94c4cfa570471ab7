use keylogger::{count_lines, render, tally, unknown_keycode_message, FrequencyMap, PartitionError};

#[test]
fn one_worker_reports_known_keys_and_names_the_unknown() {
    let counts = tally("24\n24\n25\n999\n", 1).unwrap();
    let report = render(&counts);
    assert!(report.text.contains("\"q\": \"2\",\n"));
    assert!(report.text.contains("\"w\": \"1\",\n"));
    assert!(!report.text.contains("999"));
    assert_eq!(report.text, "{\n\"q\": \"2\",\n\"w\": \"1\",\n}");
    assert_eq!(report.unknown, vec!["999"]);
    assert_eq!(unknown_keycode_message(&report.unknown[0]), "Unknown keycode 999");
}

#[test]
fn empty_input_gives_an_empty_record() {
    let counts = tally("", 1).unwrap();
    let report = render(&counts);
    assert_eq!(report.text, "{\n}");
    assert!(report.unknown.is_empty());
}

#[test]
fn three_workers_count_nine_lines_of_one_key() {
    let input = "24\n".repeat(9);
    let counts = tally(&input, 3).unwrap();
    assert_eq!(counts.get("24"), 9);
    assert_eq!(counts.len(), 1);
    assert_eq!(render(&counts).text, "{\n\"q\": \"9\",\n}");
}

#[test]
fn totals_do_not_depend_on_the_number_of_workers() {
    let input = "24\n25\n24\n38\n24\n25\n99\n24\n".repeat(2);
    assert_eq!(input.len(), 48);
    let single = tally(&input, 1).unwrap();
    let eight = tally(&input, 8).unwrap();
    for key in ["24", "25", "38", "99", ""] {
        assert_eq!(single.get(key), eight.get(key), "{:?}", key);
    }
    assert_eq!(single.get("24"), 8);
    assert_eq!(eight.get("25"), 4);
    assert_eq!(single.len(), eight.len());
}

#[test]
fn tally_folds_the_parts_in_order() {
    let counts = tally("30\n24\n25\n24\n", 2).unwrap();
    assert_eq!(counts.len(), 3);
    assert_eq!((counts.key(0), counts.count(0)), ("30", 1));
    assert_eq!((counts.key(1), counts.count(1)), ("24", 2));
    assert_eq!((counts.key(2), counts.count(2)), ("25", 1));
}

#[test]
fn unknown_keys_never_reach_the_report() {
    let mut counts = FrequencyMap::new();
    counts.add(String::from("999"), 1_000_000);
    counts.add(String::from("24"), 3);
    counts.add(String::from(""), 12);
    counts.add(String::from("36"), u64::MAX);
    let report = render(&counts);
    assert_eq!(report.text, "{\n\"q\": \"3\",\n}");
    assert_eq!(report.unknown, vec!["999", "", "36"]);
}

#[test]
fn report_lists_keys_in_the_order_first_counted() {
    let counts = count_lines("68\n34\n35\n48\n66\n68\n47\n49\n");
    assert_eq!(
        render(&counts).text,
        "{\n\"?\": \"2\",\n\"{\": \"1\",\n\"}\": \"1\",\n\"'\": \"1\",\n\",\": \"1\",\n\";\": \"1\",\n\"`\": \"1\",\n}"
    );
}

#[test]
fn report_writes_counts_in_decimal() {
    let mut counts = FrequencyMap::new();
    counts.add(String::from("24"), 10);
    counts.add(String::from("25"), 18_446_744_073_709_551_615);
    counts.add(String::from("26"), 1_000_000_007);
    assert_eq!(
        render(&counts).text,
        "{\n\"q\": \"10\",\n\"w\": \"18446744073709551615\",\n\"e\": \"1000000007\",\n}"
    );
}

#[test]
fn unknown_keycode_message_names_the_key() {
    assert_eq!(unknown_keycode_message("999"), "Unknown keycode 999");
    assert_eq!(unknown_keycode_message(""), "Unknown keycode ");
}

#[test]
fn tally_without_workers_is_refused() {
    assert_eq!(tally("24\n", 0).err(), Some(PartitionError::NoWorkers));
    assert_eq!(tally("", 0).err(), Some(PartitionError::NoWorkers));
}

#[test]
fn tally_that_would_cut_a_character_is_refused() {
    assert_eq!(tally("\u{e9}\n", 3).err(), Some(PartitionError::SplitInsideCharacter));
    assert_eq!(tally("\u{e9}\n", 1).unwrap().get("\u{e9}"), 1);
}

#[test]
fn more_workers_than_bytes_count_the_same() {
    let counts = tally("24\n", 64).unwrap();
    assert_eq!(counts.get("24"), 1);
    assert_eq!(counts.len(), 1);
}
