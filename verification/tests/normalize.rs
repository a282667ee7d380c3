use linehash::edit::find_line_by_normalized_text;
use linehash::normalize::normalize_text;

#[test]
fn quotes_dashes_and_spaces_become_plain() {
    assert_eq!(normalize_text("\u{201c}a\u{201d} \u{2018}b\u{2019}"), "\"a\" 'b'");
    assert_eq!(normalize_text("a\u{2014}b\u{2013}c"), "a-b-c");
    assert_eq!(normalize_text("a\u{a0}b"), "a b");
}

#[test]
fn runs_of_white_space_become_one_space_and_ends_are_trimmed() {
    assert_eq!(normalize_text("  a   b \u{a0} c\t"), "a b c");
    assert_eq!(normalize_text("a\t\tb"), "a b");
    assert_eq!(normalize_text("a \t\u{2003}\r\nb"), "a b");
    assert_eq!(normalize_text("a\tb"), "a\tb");
    assert_eq!(normalize_text(" \u{a0}\u{3000}\n"), "");
    assert_eq!(normalize_text(""), "");
}

#[test]
fn normalizing_twice_changes_nothing() {
    let once = normalize_text(" \u{201c}x\u{201d}  \u{2014}\u{a0}\u{a0}y ");
    assert_eq!(once, "\"x\" - y");
    assert_eq!(normalize_text(&once), once);
}

#[test]
fn first_line_that_reads_alike_is_found() {
    let lines = vec!["x".to_string(), "  it\u{2019}s   here ".to_string(), "it's here".to_string()];
    assert_eq!(find_line_by_normalized_text(&lines, "it's  here").unwrap(), 1);
    let error = find_line_by_normalized_text(&lines, "nowhere").unwrap_err();
    assert_eq!(error.detail, "anchor_invalid");
    assert_eq!(error.message, "fuzzy match: text not found in any line");
}

#[test]
fn white_space_at_the_ends_does_not_count() {
    for text in ["\t\u{a0} a \u{2003}b\r", " \t", "a\t", "\u{a0}a"] {
        assert_eq!(normalize_text(text.trim()), normalize_text(text));
    }
}
