use linehash::anchors::anchors_for;
use linehash::batch::{edit_content, replace_all_text, split_file_lines};
use linehash::edit::{
    anchor_index, apply_edit, edit_fits, edit_start_index, insert_after, insert_before, insert_lines, payload_lines,
    replace_lines, Edit, EditError,
};
use linehash::window::read_command;

fn lines(texts: &[&str]) -> Vec<String> {
    texts.iter().map(|t| t.to_string()).collect()
}

fn edit(op: &str) -> Edit {
    Edit { op: op.to_string(), anchor: None, from: None, to: None, before: None, after: None, text: None }
}

fn at(op: &str, anchor: &str, text: &str) -> Edit {
    Edit { anchor: Some(anchor.to_string()), text: Some(text.to_string()), ..edit(op) }
}

fn range(from: &str, to: &str, text: &str) -> Edit {
    Edit { from: Some(from.to_string()), to: Some(to.to_string()), text: Some(text.to_string()), ..edit("replace") }
}

fn same_error(error: &EditError, detail: &str, message: &str) -> bool {
    error.detail == detail && error.message == message
}

// The anchors of the lines a, b and c.
const A: &str = "7456";
const B: &str = "adbf";
const C: &str = "0f1b";

#[test]
fn empty_replace_text_deletes() {
    assert_eq!(payload_lines(""), Vec::<String>::new());
    assert_eq!(
        payload_lines("a\nb"),
        vec!["a".to_string(), "b".to_string()]
    );
}

#[test]
fn payload_keeps_empty_lines_and_carriage_returns() {
    assert_eq!(payload_lines("\n"), lines(&["", ""]));
    assert_eq!(payload_lines("a\r\n"), lines(&["a\r", ""]));
}

#[test]
fn file_text_is_split_at_line_feeds() {
    assert_eq!(split_file_lines("a\nb\n", true), lines(&["a", "b"]));
    assert_eq!(split_file_lines("a\nb", false), lines(&["a", "b"]));
    assert_eq!(split_file_lines("a\r\n\n", true), lines(&["a\r", ""]));
    assert_eq!(split_file_lines("", false), lines(&[""]));
    assert_eq!(split_file_lines("a\n", false), lines(&["a", ""]));
}

#[test]
fn constructors_set_the_kind_of_error() {
    assert!(same_error(&EditError::anchor("m"), "anchor_invalid", "m"));
    assert!(same_error(&EditError::input("m"), "input_invalid", "m"));
    assert!(same_error(&EditError::failed("m"), "failed", "m"));
}

#[test]
fn anchor_index_finds_the_first() {
    let anchors = lines(&["x", "y", "x"]);
    assert_eq!(anchor_index(&anchors, "x").unwrap(), 0);
    assert_eq!(anchor_index(&anchors, "y").unwrap(), 1);
    assert!(same_error(&anchor_index(&anchors, "z").unwrap_err(), "anchor_invalid", "anchor not found"));
}

#[test]
fn lines_are_put_in_at_an_index() {
    let mut file = lines(&["a", "b"]);
    insert_lines(&mut file, 1, lines(&["x", "y"]));
    assert_eq!(file, lines(&["a", "x", "y", "b"]));
    insert_lines(&mut file, 4, lines(&["z"]));
    assert_eq!(file, lines(&["a", "x", "y", "b", "z"]));
    insert_lines(&mut file, 99, Vec::new());
    assert_eq!(file.len(), 5);
}

#[test]
fn replace_by_anchor_and_by_range() {
    let anchors = lines(&[A, B, C]);
    let mut file = lines(&["a", "b", "c"]);
    replace_lines(&mut file, &anchors, at("replace", B, "x\ny"), false).unwrap();
    assert_eq!(file, lines(&["a", "x", "y", "c"]));
    let mut file = lines(&["a", "b", "c"]);
    replace_lines(&mut file, &anchors, range(A, B, "z"), false).unwrap();
    assert_eq!(file, lines(&["z", "c"]));
    let mut file = lines(&["a", "b", "c"]);
    replace_lines(&mut file, &anchors, range(A, C, ""), false).unwrap();
    assert_eq!(file, lines(&[]));
}

#[test]
fn replace_refuses_what_it_cannot_place() {
    let anchors = lines(&[A, B, C]);
    let mut file = lines(&["a", "b", "c"]);
    let error = replace_lines(&mut file, &anchors, range(C, A, "x"), false).unwrap_err();
    assert!(same_error(&error, "input_invalid", "from anchor is after to anchor"));
    let error = replace_lines(&mut file, &anchors, edit("replace"), false).unwrap_err();
    assert!(same_error(&error, "input_invalid", "replace requires anchor or from/to"));
    let only_from = Edit { from: Some("nowhere".to_string()), ..edit("replace") };
    let error = replace_lines(&mut file, &anchors, only_from, false).unwrap_err();
    assert!(same_error(&error, "input_invalid", "replace requires anchor or from/to"));
    let error = replace_lines(&mut file, &anchors, range("b", B, "x"), false).unwrap_err();
    assert!(same_error(&error, "anchor_invalid", "anchor not found"));
    let error = replace_lines(&mut file, &anchors, range("q", "b", "x"), true).unwrap_err();
    assert!(same_error(&error, "anchor_invalid", "fuzzy match: text not found in any line"));
    assert_eq!(file, lines(&["a", "b", "c"]));
    replace_lines(&mut file, &anchors, range("b", " c ", "x"), true).unwrap();
    assert_eq!(file, lines(&["a", "x"]));
}

#[test]
fn insertions_go_before_and_behind() {
    let anchors = lines(&[A, B]);
    let mut file = lines(&["a", "b"]);
    insert_before(&mut file, &anchors, at("insert_before", A, "x")).unwrap();
    assert_eq!(file, lines(&["x", "a", "b"]));
    let mut file = lines(&["a", "b"]);
    let both = Edit { after: Some(B.to_string()), ..at("insert_after", A, "x") };
    insert_after(&mut file, &anchors, both).unwrap();
    assert_eq!(file, lines(&["a", "b", "x"]));
    let error = insert_before(&mut file, &anchors, edit("insert_before")).unwrap_err();
    assert!(same_error(&error, "input_invalid", "insert_before requires before or anchor"));
    let error = insert_after(&mut file, &anchors, edit("insert_after")).unwrap_err();
    assert!(same_error(&error, "input_invalid", "insert_after requires after or anchor"));
    let error = insert_after(&mut file, &anchors, at("insert_after", "none", "x")).unwrap_err();
    assert!(same_error(&error, "anchor_invalid", "anchor not found"));
}

#[test]
fn unknown_op_is_refused() {
    let mut file = lines(&["a"]);
    let error = apply_edit(&mut file, &lines(&[A]), at("append", A, "x"), false).unwrap_err();
    assert!(same_error(&error, "input_invalid", "unknown op"));
    assert_eq!(file, lines(&["a"]));
}

#[test]
fn start_index_goes_by_the_first_name_given() {
    let anchors = lines(&[A, B, C]);
    let all = Edit {
        anchor: Some(C.to_string()),
        before: Some(A.to_string()),
        after: Some(A.to_string()),
        ..range(B, A, "")
    };
    assert_eq!(edit_start_index(&all, &anchors).unwrap(), 2);
    assert_eq!(edit_start_index(&range(B, A, ""), &anchors).unwrap(), 1);
    let after = Edit { after: Some(C.to_string()), ..edit("insert_after") };
    assert_eq!(edit_start_index(&after, &anchors).unwrap(), 2);
    assert!(same_error(&edit_start_index(&edit("replace"), &anchors).unwrap_err(), "input_invalid", "missing anchor"));
}

#[test]
fn no_edit_changes_nothing() {
    for text in ["", "\n", "a", "a\nb\n", "a\r\n\n\nb"] {
        assert_eq!(edit_content(text, Vec::new(), false).unwrap().unwrap(), text);
    }
}

#[test]
fn edits_find_their_lines_whatever_their_order() {
    let request = |swap: bool| {
        let mut edits =
            vec![at("insert_before", A, "0"), at("replace", B, "x\ny"), at("insert_after", C, "end")];
        if swap {
            edits.reverse();
        }
        edits
    };
    for swap in [false, true] {
        assert_eq!(edit_content("a\nb\nc\n", request(swap), false).unwrap().unwrap(), "0\na\nx\ny\nc\nend\n");
    }
}

#[test]
fn separate_ranges_do_not_disturb_one_another() {
    // The anchors of d and e come from reading.
    let file = "a\nb\nc\nd\ne\n";
    let anchors = anchors_for(&split_file_lines(file, true));
    let request = || {
        vec![
            range(A, B, "1\n2\n3"),
            at("insert_before", C, "4"),
            range(&anchors[3], &anchors[4], ""),
        ]
    };
    for turn in 0..3 {
        let mut edits = request();
        edits.rotate_left(turn);
        assert_eq!(edit_content(file, edits, false).unwrap().unwrap(), "1\n2\n3\n4\nc\n");
    }
}

#[test]
fn edits_of_one_line_run_in_the_order_given() {
    let edits = vec![at("insert_before", B, "1"), at("insert_before", B, "2")];
    assert_eq!(edit_content("a\nb", edits, false).unwrap().unwrap(), "a\n2\n1\nb");
}

#[test]
fn refused_edit_ends_the_work() {
    let edits = vec![at("replace", A, "x"), at("replace", "ffff", "y")];
    let error = edit_content("a\nb\n", edits, false).unwrap().unwrap_err();
    assert!(same_error(&error, "anchor_invalid", "anchor not found"));
}

#[test]
fn line_is_named_by_before_and_after() {
    let before = || Edit { before: Some(B.to_string()), text: Some("x".to_string()), ..edit("insert_before") };
    let after = || Edit { after: Some(B.to_string()), text: Some("x".to_string()), ..edit("insert_after") };
    for fuzzy in [false, true] {
        assert_eq!(edit_content("a\nb\nc\n", vec![before()], fuzzy).unwrap().unwrap(), "a\nx\nb\nc\n");
        assert_eq!(edit_content("a\nb\nc\n", vec![after()], fuzzy).unwrap().unwrap(), "a\nb\nx\nc\n");
        assert_eq!(edit_content("a\nb\nc\n", vec![range(A, B, "x")], fuzzy).unwrap().unwrap(), "x\nc\n");
    }
}

#[test]
fn fuzzy_range_goes_by_what_the_lines_read() {
    let text = "fn\t \u{201c}a\u{201d}\nb\n\tc \u{2014} d\nb\n";
    let edits = || vec![range(" fn \"a\"", "c - d", "x")];
    assert_eq!(edit_content(text, edits(), true).unwrap().unwrap(), "x\nb\n");
    let error = edit_content(text, edits(), false).unwrap().unwrap_err();
    assert!(same_error(&error, "anchor_invalid", "anchor not found"));
}

#[test]
fn unknown_anchor_is_refused_for_every_op() {
    for op in ["replace", "insert_before", "insert_after"] {
        for fuzzy in [false, true] {
            let error = edit_content("a\nb\n", vec![at(op, "ffff", "x")], fuzzy).unwrap().unwrap_err();
            assert!(same_error(&error, "anchor_invalid", "anchor not found"));
        }
    }
}

#[test]
fn edit_past_the_end_is_not_carried_out() {
    let edits = || vec![at("replace", B, ""), at("replace", B, "")];
    assert!(edit_content("a\nb\n", edits(), false).is_none());
    let anchors = lines(&[A, B]);
    assert!(edit_fits(&lines(&["a", "b"]), &anchors, &at("replace", B, ""), false));
    assert!(!edit_fits(&lines(&["a"]), &anchors, &at("replace", B, ""), false));
    assert!(edit_fits(&lines(&["a"]), &anchors, &at("insert_before", B, "x"), false));
    assert!(!edit_fits(&lines(&["a"]), &anchors, &at("insert_after", B, "x"), false));
    assert!(edit_fits(&lines(&["a"]), &anchors, &at("insert_after", B, ""), false));
    assert!(edit_fits(&lines(&[]), &anchors, &at("nonsense", B, ""), false));
}

#[test]
fn deleting_every_line_leaves_the_last_line_feed() {
    assert_eq!(edit_content("a\nb\n", vec![range(A, B, "")], false).unwrap().unwrap(), "\n");
}

#[test]
fn fuzzy_does_not_matter_to_anchors() {
    for fuzzy in [false, true] {
        assert_eq!(edit_content("a\nb\nc", vec![range(A, B, "x")], fuzzy).unwrap().unwrap(), "x\nc");
    }
}

#[test]
fn first_replace_all_gives_the_whole_text() {
    let edits = vec![at("replace", A, "x"), edit("replace_all"), at("replace_all", A, "later")];
    assert_eq!(replace_all_text(&edits), Some(String::new()));
    assert_eq!(replace_all_text(&[at("replace", A, "x")]), None);
}

#[test]
fn carriage_return_of_a_repeated_line_changes_its_anchor_when_read() {
    // Editing salts the text with its carriage return, reading the text without it.
    let edits = |anchor: &str| vec![at("replace", anchor, "x")];
    assert_eq!(edit_content("a\r\na\r\n", edits("1399"), false).unwrap().unwrap(), "x\na\r\n");
    let error = edit_content("a\r\na\r\n", edits("d6d2"), false).unwrap().unwrap_err();
    assert!(same_error(&error, "anchor_invalid", "anchor not found"));
}

#[test]
fn plain_line_among_repeated_ones_has_one_anchor() {
    let file = "a\r\n\r\nb\r\n\r\nc\r\n";
    let rows = read_command(Ok(file.to_string()), None, None, 2000).unwrap().unwrap();
    assert_eq!((rows[2].text.as_str(), rows[2].anchor.as_str()), ("b", B));
    assert_eq!(
        edit_content(file, vec![at("replace", B, "x\r")], false).unwrap().unwrap(),
        "a\r\n\r\nx\r\n\r\nc\r\n"
    );
    assert_eq!(edit_content(file, vec![range(A, C, "x\r")], false).unwrap().unwrap(), "x\r\n");
}
