use linehash::command::{edit_command, edit_reply, EditReply};
use linehash::diff::{can_diff, compute_diff, written_text};
use linehash::edit::Edit;
use linehash::rows::{apply_edits_str, edit_rows, gather_edits, parse_edits};
use linehash::window::read_command;

fn decode(row: &str) -> Result<Edit, String> {
    let value: serde_json::Value = serde_json::from_str(row).map_err(|error| error.to_string())?;
    let field = |name: &str| value.get(name).and_then(|v| v.as_str()).map(|s| s.to_string());
    Ok(Edit {
        op: field("op").ok_or("missing field `op`")?,
        anchor: field("anchor"),
        from: field("from"),
        to: field("to"),
        before: field("before"),
        after: field("after"),
        text: field("text"),
    })
}

#[test]
fn fuzzy_edit_returns_replacement_content() {
    let file = "line one: alpha\nline two: beta\n".to_string();
    let input = r#"{"op":"replace","from":"line   one:   alpha","to":"line   one:   alpha","text":"LINE ONE: ALPHA"}"#;
    let post = apply_edits_str(input, decode, Ok(file.clone()), true)
        .unwrap()
        .expect("apply_edits_str should succeed");
    assert!(post.contains("LINE ONE: ALPHA"), "post_content should contain replacement: {post}");
    // apply_edits_str is read-only; file should be unchanged
    assert!(file.contains("line one: alpha"));
    assert_eq!(post, "LINE ONE: ALPHA\nline two: beta\n");
}

#[test]
fn edit_command_fuzzy_writes_to_disk() {
    let file = "line one: alpha\nline two: beta\n".to_string();
    let input = r#"{"op":"replace","from":"line   one:   alpha","to":"line   one:   alpha","text":"LINE ONE: ALPHA"}"#;
    match edit_command(input, decode, Ok(file), "/tmp/fuzzy.txt", true, false) {
        Some(EditReply::Applied { content, diff, write }) => {
            assert!(content.contains("LINE ONE: ALPHA"), "file should contain replacement: {content}");
            assert!(diff.contains("\n-line one: alpha\n+LINE ONE: ALPHA\n line two: beta\n"));
            assert!(write);
        }
        other => panic!("{:?}", other),
    }
}

#[test]
fn diff_header_uses_full_path() {
    let path = "/tmp/linehash-header.txt";
    let diff = compute_diff("old content\n", "new content\n", path);
    assert!(diff.contains(path), "diff header should use full path: {diff}");
    assert_eq!(
        diff,
        "--- a//tmp/linehash-header.txt\n+++ b//tmp/linehash-header.txt\n@@ -1 +1 @@\n-old content\n+new content\n"
    );
}

#[test]
fn diff_header_new_file_uses_dev_null() {
    let path = "/tmp/linehash-header-new.txt";
    let diff = compute_diff("", "new content\n", path);
    assert!(diff.contains("/dev/null"), "new file diff should have /dev/null: {diff}");
    assert!(diff.contains(path), "new file diff should have full path: {diff}");
    assert!(diff.starts_with("--- /dev/null\n+++ b//tmp/linehash-header-new.txt\n"));
}

#[test]
fn dry_run_does_not_write_file() {
    let input = r#"{"op":"replace","from":"a","to":"a","text":"b"}"#;
    let file = "a\n".to_string();
    match edit_command(input, decode, Ok(file.clone()), "file", true, true) {
        Some(EditReply::Applied { content, write, .. }) => {
            assert!(!write);
            assert_eq!(file, "a\n", "dry_run should not modify file");
            assert!(content.contains("b"), "post_content should have replacement");
        }
        other => panic!("{:?}", other),
    }
}

#[test]
fn without_dry_run_file_is_written() {
    let input = r#"{"op":"replace","from":"a","to":"a","text":"b"}"#;
    match edit_command(input, decode, Ok("a\n".to_string()), "file", true, false) {
        Some(EditReply::Applied { content, write, .. }) => {
            assert!(write);
            assert_eq!(content, "b\n", "file should be written without dry_run");
        }
        other => panic!("{:?}", other),
    }
}

#[test]
fn diff_shows_three_lines_of_context() {
    let old = "1\n2\n3\n4\n5\n6\n7\n8\n9\n";
    let new = "1\n2\n3\n4\nfive\n6\n7\n8\n9\n";
    assert_eq!(
        compute_diff(old, new, "f"),
        "--- a/f\n+++ b/f\n@@ -2,7 +2,7 @@\n 2\n 3\n 4\n-5\n+five\n 6\n 7\n 8\n"
    );
    assert_eq!(compute_diff(old, old, "f"), "");
    assert!(can_diff(old, new));
    assert!(can_diff("", ""));
    assert!(can_diff("a\r\r\nb", "\n\r"));
}

#[test]
fn every_line_of_a_diff_is_marked() {
    let old = "Index: 1\n===\n\nx";
    let new = "Index: 2\n===\n\ny\n\n";
    let diff = compute_diff(old, new, "f");
    assert!(diff.contains("\n-Index: 1\n+Index: 2\n ===\n"), "{}", diff);
    assert!(diff.contains("\n-x\n\\ No newline at end of file\n+y\n+\n"), "{}", diff);
    for line in diff.lines() {
        assert!(line.starts_with(|c: char| "@ -+\\".contains(c)), "{:?}", line);
    }
}

#[test]
fn request_that_changes_nothing_has_an_empty_diff() {
    match edit_reply(Ok(Vec::new()), Ok("a\r\r\nb".to_string()), "file", false, false) {
        Some(EditReply::Applied { content, diff, write }) => {
            assert_eq!((content.as_str(), diff.as_str(), write), ("a\r\r\nb", "", true));
        }
        other => panic!("{:?}", other),
    }
}

#[test]
fn written_bytes_become_text() {
    assert_eq!(written_text(Ok("\u{e9}".as_bytes().to_vec())), "\u{e9}");
    assert_eq!(written_text(Ok(vec![0xff])), "");
    assert_eq!(written_text(Err("disk full".to_string())), "error formatting diff: disk full");
}

#[test]
fn blank_rows_do_not_count() {
    assert_eq!(edit_rows("a\n\n \t\r\n b \r\nc"), vec!["a", " b ", "c"]);
    assert_eq!(edit_rows(""), Vec::<String>::new());
}

#[test]
fn first_bad_row_is_reported() {
    let decode = |row: &str| -> Result<Edit, String> { Err(format!("bad {}", row)) };
    let error = parse_edits("\nx\ny\n", decode).unwrap_err();
    assert_eq!((error.detail, error.message.as_str()), ("input_invalid", "bad x"));
    assert_eq!(parse_edits("\n", decode).unwrap().len(), 0);
}

#[test]
fn gathering_stops_at_the_first_error() {
    let good = || decode(r#"{"op":"replace"}"#);
    assert_eq!(gather_edits(vec![good(), good()]).unwrap().len(), 2);
    let error = gather_edits(vec![good(), Err("one".to_string()), Err("two".to_string())]).unwrap_err();
    assert_eq!((error.detail, error.message.as_str()), ("input_invalid", "one"));
}

#[test]
fn malformed_request_is_answered_with_its_message() {
    match edit_command("{", decode, Ok("a\n".to_string()), "file", false, false) {
        Some(EditReply::Malformed(message)) => assert!(message.contains("EOF"), "{}", message),
        other => panic!("{:?}", other),
    }
}

#[test]
fn unreadable_file_is_answered_as_failed() {
    let input = r#"{"op":"replace","anchor":"7456","text":"b"}"#;
    match edit_command(input, decode, Err("no such file".to_string()), "file", false, false) {
        Some(EditReply::Refused(error)) => {
            assert_eq!((error.detail, error.message.as_str()), ("failed", "no such file"));
        }
        other => panic!("{:?}", other),
    }
}

#[test]
fn replace_all_does_not_need_the_file() {
    let input = "{\"op\":\"replace\",\"anchor\":\"none\"}\n{\"op\":\"replace_all\",\"text\":\"new\\n\"}";
    match edit_command(input, decode, Err("no such file".to_string()), "file", false, false) {
        Some(EditReply::Applied { content, diff, write }) => {
            assert_eq!(content, "new\n");
            assert_eq!(diff, "--- /dev/null\n+++ b/file\n@@ -0,0 +1 @@\n+new\n");
            assert!(write);
        }
        other => panic!("{:?}", other),
    }
}

#[test]
fn edit_past_the_end_is_not_answered() {
    let twice = || decode(r#"{"op":"replace","anchor":"7456","text":""}"#).unwrap();
    assert!(edit_reply(Ok(vec![twice(), twice()]), Ok("a".to_string()), "file", false, false).is_none());
}

#[test]
fn anchor_that_reading_shows_edits_its_line() {
    let file = "a\nsame\nsame\nb\n".to_string();
    let rows = read_command(Ok(file.clone()), None, None, 2000).unwrap().unwrap();
    for row in &rows {
        let input = format!("{{\"op\":\"replace\",\"anchor\":\"{}\",\"text\":\"new\"}}", row.anchor);
        let post = apply_edits_str(&input, decode, Ok(file.clone()), false).unwrap().unwrap();
        let again = read_command(Ok(post), None, None, 2000).unwrap().unwrap();
        assert_eq!(again.len(), rows.len());
        for (before, after) in rows.iter().zip(again.iter()) {
            assert_eq!(after.text, if before.line == row.line { "new" } else { before.text.as_str() });
        }
    }
}
