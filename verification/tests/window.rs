use linehash::anchors::anchors_for;
use linehash::window::{read_command, window};

fn lines(texts: &[&str]) -> Vec<String> {
    texts.iter().map(|t| t.to_string()).collect()
}

#[test]
fn window_offset_returns_correct_lines() {
    let lines = vec!["a".to_string(), "b".to_string(), "c".to_string(), "d".to_string(), "e".to_string()];
    // offset 3 (1-indexed) = index 2, limit 2 => lines c, d
    let result = window(&lines, None, Some(3), 2).unwrap();
    assert_eq!(result.len(), 2);
    assert_eq!(result[0].line, 3);
    assert_eq!(result[0].text, "c");
    assert_eq!(result[1].line, 4);
    assert_eq!(result[1].text, "d");
}

#[test]
fn window_offset_beyond_file_returns_from_last_line() {
    let lines = vec!["a".to_string(), "b".to_string()];
    // offset 100 beyond file length - clamps to last line (index 1 = line 2)
    let result = window(&lines, None, Some(100), 5).unwrap();
    assert_eq!(result.len(), 1);
    assert_eq!(result[0].line, 2);
    assert_eq!(result[0].text, "b");
}

#[test]
fn window_empty_file_returns_empty() {
    let lines: Vec<String> = vec![];
    let result = window(&lines, None, Some(1), 5).unwrap();
    assert_eq!(result.len(), 0);
}

#[test]
fn window_offset_invalid_returns_error() {
    let lines = vec!["a".to_string()];
    let result = window(&lines, None, Some(0), 5);
    assert!(result.is_err());
    let err = result.unwrap_err();
    assert!(err.contains(">= 1"), "error was: {}", err);
}

#[test]
fn window_after_returns_lines_after_anchor() {
    let lines = vec!["a".to_string(), "b".to_string(), "c".to_string(), "d".to_string()];
    let anchors = anchors_for(&lines);
    // anchors[1] is the anchor for "b", so after should start at index 2 (line 3)
    let result = window(&lines, Some(&anchors[1]), None, 2).unwrap();
    assert_eq!(result.len(), 2);
    assert_eq!(result[0].line, 3);
    assert_eq!(result[0].text, "c");
}

#[test]
fn window_after_not_found_returns_error() {
    let lines = vec!["a".to_string()];
    let result = window(&lines, Some("zzzz"), None, 5);
    assert!(result.is_err());
    let err = result.unwrap_err();
    assert_eq!(err, "anchor_invalid", "error was: {}", err);
}

#[test]
fn window_no_offset_no_after_returns_from_start() {
    let lines = vec!["a".to_string(), "b".to_string(), "c".to_string()];
    let result = window(&lines, None, None, 2).unwrap();
    assert_eq!(result.len(), 2);
    assert_eq!(result[0].line, 1);
    assert_eq!(result[0].text, "a");
}

#[test]
fn window_behind_the_last_line_is_empty() {
    let lines = lines(&["a", "b"]);
    assert_eq!(window(&lines, Some("adbf"), None, 5).unwrap().len(), 0);
    assert_eq!(window(&lines, None, None, 0).unwrap().len(), 0);
}

#[test]
fn window_shows_the_anchor_of_each_line() {
    let rows = window(&lines(&["a", "same", "same"]), None, None, 2000).unwrap();
    let shown: Vec<(usize, &str, &str)> =
        rows.iter().map(|r| (r.line, r.anchor.as_str(), r.text.as_str())).collect();
    assert_eq!(shown, vec![(1, "7456", "a"), (2, "31ea", "same"), (3, "3fb2", "same")]);
}

#[test]
fn pages_follow_one_another() {
    let lines = lines(&["a", "b", "c", "d", "e"]);
    let page = window(&lines, None, Some(2), 2).unwrap();
    let next = window(&lines, Some(&page[1].anchor), None, 2).unwrap();
    let numbers: Vec<usize> = page.iter().chain(next.iter()).map(|r| r.line).collect();
    let at_once: Vec<usize> = window(&lines, None, Some(2), 4).unwrap().iter().map(|r| r.line).collect();
    assert_eq!(numbers, vec![2, 3, 4, 5]);
    assert_eq!(numbers, at_once);
}

#[test]
fn reading_splits_lines_and_drops_carriage_returns() {
    let rows = read_command(Ok("a\r\nb\n\nlast\r".to_string()), None, None, 2000).unwrap().unwrap();
    let texts: Vec<&str> = rows.iter().map(|r| r.text.as_str()).collect();
    assert_eq!(texts, vec!["a", "b", "", "last\r"]);
    let rows = read_command(Ok("a\n".to_string()), None, None, 2000).unwrap().unwrap();
    assert_eq!(rows.len(), 1);
    let rows = read_command(Ok(String::new()), None, Some(3), 2000).unwrap().unwrap();
    assert_eq!(rows.len(), 0);
}

#[test]
fn reading_refuses_after_with_offset_before_anything_else() {
    let message = read_command(Err("no such file".to_string()), Some("7456"), Some(1), 5).unwrap().unwrap_err();
    assert_eq!(
        message,
        "--after and --offset are mutually exclusive. Use --after for anchor-based windowing, --offset for line-number-based windowing."
    );
    let message = read_command(Err("no such file".to_string()), None, Some(0), 5).unwrap().unwrap_err();
    assert_eq!(message, "no such file");
    let message = read_command(Ok("a\n".to_string()), None, Some(0), 5).unwrap().unwrap_err();
    assert_eq!(message, "--offset must be >= 1");
    let message = read_command(Ok("a\n".to_string()), Some("0000"), None, 5).unwrap().unwrap_err();
    assert_eq!(message, "anchor_invalid");
}

#[test]
fn reading_more_than_can_be_counted_gives_nothing() {
    assert!(read_command(Ok("a\nb\n".to_string()), None, Some(2), usize::MAX).is_none());
    assert_eq!(read_command(Ok("a\nb\n".to_string()), None, Some(1), usize::MAX).unwrap().unwrap().len(), 2);
}
