use keylogger::{checked_split, split_to_thread_data, splits_cleanly, tally, PartitionError};

#[test]
fn parts_are_of_equal_size_and_the_last_takes_the_remainder() {
    assert_eq!(split_to_thread_data("abcdefghij", 3), vec!["abc", "def", "ghij"]);
    assert_eq!(split_to_thread_data("abcdefghij", 1), vec!["abcdefghij"]);
    assert_eq!(split_to_thread_data("abcdef", 2), vec!["abc", "def"]);
}

#[test]
fn more_workers_than_bytes_leave_all_to_the_last() {
    assert_eq!(split_to_thread_data("ab", 4), vec!["", "", "", "ab"]);
    assert_eq!(split_to_thread_data("", 3), vec!["", "", ""]);
}

#[test]
fn joined_parts_are_the_input() {
    let input = "24\n25\n26\n999\n  30 \r\n\n24";
    let mut workers = 1;
    while workers <= 40 {
        assert!(splits_cleanly(input, workers));
        let parts = split_to_thread_data(input, workers);
        assert_eq!(parts.len(), workers);
        assert_eq!(parts.concat(), input);
        workers += 1;
    }
}

#[test]
fn parts_are_cut_at_bytes_not_at_characters() {
    let input = "a\u{e9}bc";
    assert_eq!(input.len(), 5);
    assert!(splits_cleanly(input, 1));
    assert!(!splits_cleanly(input, 2));
    assert!(!splits_cleanly(input, 3));
    assert!(!splits_cleanly(input, 5));
    assert!(splits_cleanly(input, 6));
    assert!(!splits_cleanly("\u{e9}", 2));
    assert!(splits_cleanly("a\u{e9}", 2));
    assert_eq!(split_to_thread_data("a\u{e9}", 2), vec!["a", "\u{e9}"]);
    assert_eq!(split_to_thread_data("\u{e9}\u{e9}\u{e9}", 3), vec!["\u{e9}", "\u{e9}", "\u{e9}"]);
}

#[test]
fn a_line_across_two_parts_is_counted_as_two_keys() {
    let counts = tally("124\n", 2).unwrap();
    assert_eq!(counts.get("124"), 0);
    assert_eq!(counts.get("12"), 1);
    assert_eq!(counts.get("4"), 1);
    assert_eq!(counts.len(), 2);
}

#[test]
fn checked_split_cuts_where_it_can() {
    assert_eq!(checked_split("abcdefg", 2), Ok(vec![String::from("abc"), String::from("defg")]));
    assert_eq!(checked_split("", 1), Ok(vec![String::new()]));
}

#[test]
fn checked_split_says_why_it_cannot_cut() {
    assert_eq!(checked_split("abc", 0), Err(PartitionError::NoWorkers));
    assert_eq!(checked_split("a\u{20ac}", 2), Err(PartitionError::SplitInsideCharacter));
    assert_eq!(PartitionError::NoWorkers.message(), "the number of threads must be at least 1");
    assert_eq!(
        PartitionError::SplitInsideCharacter.message(),
        "a part of the input would end inside a character"
    );
}
