use keylogger::{count_keys, count_lines, FrequencyMap};

#[test]
fn new_map_is_empty() {
    let map = FrequencyMap::new();
    assert_eq!(map.len(), 0);
    assert_eq!(map.get("24"), 0);
    assert_eq!(map.get(""), 0);
}

#[test]
fn count_keys_counts_the_trimmed_line() {
    let mut map = FrequencyMap::new();
    count_keys("24", &mut map);
    count_keys(" 24", &mut map);
    count_keys("24\t", &mut map);
    count_keys("25", &mut map);
    assert_eq!(map.get("24"), 3);
    assert_eq!(map.get("25"), 1);
    assert_eq!(map.get(" 24"), 0);
    assert_eq!(map.len(), 2);
}

#[test]
fn count_keys_counts_a_blank_line_as_the_empty_key() {
    let mut map = FrequencyMap::new();
    count_keys("", &mut map);
    count_keys("   ", &mut map);
    count_keys("\t\r", &mut map);
    assert_eq!(map.get(""), 3);
    assert_eq!(map.len(), 1);
    assert_eq!(map.key(0), "");
    assert_eq!(map.count(0), 3);
}

#[test]
fn keys_come_in_the_order_first_counted() {
    let mut map = FrequencyMap::new();
    for line in ["30", "24", "30", "25", "24", "30"] {
        count_keys(line, &mut map);
    }
    assert_eq!(map.len(), 3);
    assert_eq!((map.key(0), map.count(0)), ("30", 3));
    assert_eq!((map.key(1), map.count(1)), ("24", 2));
    assert_eq!((map.key(2), map.count(2)), ("25", 1));
}

#[test]
fn add_counts_several_occurrences_at_once() {
    let mut map = FrequencyMap::new();
    map.add(String::from("24"), 5);
    map.add(String::from("24"), 7);
    map.add(String::from("25"), u64::MAX);
    assert_eq!(map.get("24"), 12);
    assert_eq!(map.get("25"), u64::MAX);
}

#[test]
fn merge_sums_per_key() {
    let mut left = count_lines("24\n25\n24\n");
    let right = count_lines("26\n24\n25\n25\n");
    left.merge(&right);
    assert_eq!(left.get("24"), 3);
    assert_eq!(left.get("25"), 3);
    assert_eq!(left.get("26"), 1);
    assert_eq!(left.len(), 3);
    assert_eq!(left.key(0), "24");
    assert_eq!(left.key(1), "25");
    assert_eq!(left.key(2), "26");
    assert_eq!(right.get("24"), 1);
}

#[test]
fn merge_gives_the_same_counts_in_either_order() {
    let texts = ["24\n25\n", "25\n26\n26\n", "24\n\n"];
    let mut forward = FrequencyMap::new();
    for text in texts {
        forward.merge(&count_lines(text));
    }
    let mut backward = FrequencyMap::new();
    for text in texts.iter().rev() {
        backward.merge(&count_lines(text));
    }
    for key in ["24", "25", "26", "", "27"] {
        assert_eq!(forward.get(key), backward.get(key), "{:?}", key);
    }
    assert_eq!(forward.get("26"), 2);
    assert_eq!(forward.get(""), 1);
}

#[test]
fn merge_with_an_empty_map_changes_nothing() {
    let mut map = count_lines("24\n24\n");
    map.merge(&FrequencyMap::new());
    assert_eq!(map.len(), 1);
    assert_eq!(map.get("24"), 2);
}

#[test]
fn count_lines_counts_every_line() {
    let map = count_lines(" 24\n24 \r\n\n25\n   \n24");
    assert_eq!(map.get("24"), 3);
    assert_eq!(map.get("25"), 1);
    assert_eq!(map.get(""), 2);
    assert_eq!(map.len(), 3);
}

#[test]
fn count_lines_of_nothing_is_empty() {
    assert_eq!(count_lines("").len(), 0);
}

#[test]
fn counting_a_block_twice_is_counting_it_doubled() {
    let block = "24\n25\n24\n\n";
    let mut twice = count_lines(block);
    twice.merge(&count_lines(block));
    let doubled = count_lines(&format!("{}{}", block, block));
    for key in ["24", "25", ""] {
        assert_eq!(twice.get(key), doubled.get(key));
    }
    assert_eq!(doubled.get("24"), 4);
    assert_eq!(doubled.get("25"), 2);
    assert_eq!(doubled.get(""), 2);
}

#[test]
fn a_block_without_final_line_feed_runs_into_what_follows() {
    let doubled = count_lines("2424");
    assert_eq!(doubled.get("24"), 0);
    assert_eq!(doubled.get("2424"), 1);
}

#[test]
fn can_merge_tells_whether_the_sums_fit() {
    let mut large = FrequencyMap::new();
    large.add(String::from("24"), u64::MAX - 1);
    large.add(String::from("25"), 5);
    let mut one = FrequencyMap::new();
    one.add(String::from("24"), 1);
    one.add(String::from("26"), u64::MAX);
    let mut two = FrequencyMap::new();
    two.add(String::from("24"), 2);
    assert!(large.can_merge(&one));
    assert!(!large.can_merge(&two));
    assert!(one.can_merge(&two));
    assert!(large.can_merge(&FrequencyMap::new()));
    large.merge(&one);
    assert_eq!(large.get("24"), u64::MAX);
    assert_eq!(large.get("26"), u64::MAX);
}
