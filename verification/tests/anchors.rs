use linehash::anchors::{anchors_for, try_anchors_for};
use linehash::hash::{four_char_hash, lower_half_hex};

fn lines(texts: &[&str]) -> Vec<String> {
    texts.iter().map(|t| t.to_string()).collect()
}

#[test]
fn repeated_lines_get_unique_anchors() {
    let anchors = anchors_for(&["same".to_string(), "same".to_string()]);
    assert_eq!(anchors.len(), 2);
    assert_eq!(anchors[0].len(), 4);
    assert_eq!(anchors[1].len(), 4);
    assert_ne!(anchors[0], anchors[1]);
}

#[test]
fn hash_is_the_lower_half_of_the_digest() {
    assert_eq!(four_char_hash(b""), "5d05");
    assert_eq!(four_char_hash(b"a"), "7456");
    assert_eq!(four_char_hash(b"abc"), "53ff");
    assert_eq!(four_char_hash(b"c"), "0f1b");
    assert_eq!(lower_half_hex(0x0001_000a), "000a");
    assert_eq!(lower_half_hex(0xffff_ffff), "ffff");
}

#[test]
fn lone_lines_get_the_hash_of_their_trimmed_text() {
    assert_eq!(anchors_for(&lines(&["a", "\t b \r", "c"])), vec!["7456", "adbf", "0f1b"]);
    assert_eq!(anchors_for(&lines(&["  fn main() {  "])), vec!["bf9b"]);
    assert_eq!(anchors_for(&lines(&["\u{a0}\u{3000}\u{e9}\u{2028}"])), vec!["2927"]);
    assert_eq!(anchors_for(&[]), Vec::<String>::new());
}

#[test]
fn repeated_lines_are_salted_with_index_and_untrimmed_text() {
    assert_eq!(anchors_for(&lines(&["same", "same"])), vec!["4418", "31ea"]);
    assert_eq!(anchors_for(&lines(&["  same", "same"])), vec!["5137", "31ea"]);
}

#[test]
fn anchor_in_use_is_not_given_again() {
    // The plain anchor of the last line is the salted one of the first.
    assert_eq!(anchors_for(&lines(&["same", "same", "x100256"])), vec!["4418", "31ea", "e041"]);
    // The first salt of the second line gives the plain anchor of the first.
    assert_eq!(anchors_for(&lines(&["x29816", "same", "same"])), vec!["31ea", "bc82", "3fb2"]);
}

#[test]
fn anchors_of_many_equal_lines_are_distinct_hex() {
    let many: Vec<String> = (0..3000).map(|_| "same".to_string()).collect();
    let mut anchors = anchors_for(&many);
    assert!(anchors.iter().all(|a| a.len() == 4 && a.chars().all(|c| "0123456789abcdef".contains(c))));
    anchors.sort();
    anchors.dedup();
    assert_eq!(anchors.len(), 3000);
}

#[test]
fn more_lines_than_anchors_get_none() {
    let many: Vec<String> = (0..65537).map(|i| format!("line {}", i)).collect();
    assert!(try_anchors_for(&many).is_none());
    assert_eq!(try_anchors_for(&lines(&["a"])), Some(vec!["7456".to_string()]));
}

#[test]
fn index_is_salted_in_decimal() {
    let mut texts: Vec<String> = (0..12).map(|i| format!("line {}", i)).collect();
    texts.push("x".to_string());
    texts.push("x".to_string());
    assert_eq!(anchors_for(&texts)[12], "4ec0");
}
