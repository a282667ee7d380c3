//! Edits: what one edit does to the lines of a file.
use crate::normalize::{law_ends_do_not_count, normalize_text, normalized};
use crate::text::{
    joined, law_joining_undoes_splitting, lemma_split_nonempty, same_text, split_at_each, split_newlines, texts,
};
use vstd::prelude::*;

verus! {

/// One requested change. `op` says what is to be done, `text` what is put in, and the other
/// fields name the lines that it concerns.
#[derive(Debug)]
pub struct Edit {
    pub op: String,
    pub anchor: Option<String>,
    pub from: Option<String>,
    pub to: Option<String>,
    pub before: Option<String>,
    pub after: Option<String>,
    pub text: Option<String>,
}

/// The texts in an edit.
pub struct EditModel {
    pub op: Seq<char>,
    pub anchor: Option<Seq<char>>,
    pub from: Option<Seq<char>>,
    pub to: Option<Seq<char>>,
    pub before: Option<Seq<char>>,
    pub after: Option<Seq<char>>,
    pub text: Option<Seq<char>>,
}

/// The text in an optional string.
pub open spec fn optional_text(string: Option<String>) -> Option<Seq<char>> {
    match string {
        Some(s) => Some(s@),
        None => None,
    }
}

impl View for Edit {
    type V = EditModel;

    open spec fn view(&self) -> EditModel {
        EditModel {
            op: self.op@,
            anchor: optional_text(self.anchor),
            from: optional_text(self.from),
            to: optional_text(self.to),
            before: optional_text(self.before),
            after: optional_text(self.after),
            text: optional_text(self.text),
        }
    }
}

/// Why an edit was refused: the kind of the error, and a message.
#[derive(Debug)]
pub struct EditError {
    pub detail: &'static str,
    pub message: String,
}

/// The texts in an error.
pub struct ErrorModel {
    pub detail: Seq<char>,
    pub message: Seq<char>,
}

impl View for EditError {
    type V = ErrorModel;

    open spec fn view(&self) -> ErrorModel {
        ErrorModel { detail: self.detail@, message: self.message@ }
    }
}

/// The error for a line that is not there.
pub open spec fn anchor_error(message: Seq<char>) -> ErrorModel {
    ErrorModel { detail: "anchor_invalid"@, message }
}

/// The error for a request that makes no sense.
pub open spec fn input_error(message: Seq<char>) -> ErrorModel {
    ErrorModel { detail: "input_invalid"@, message }
}

/// The error for work that failed.
pub open spec fn failed_error(message: Seq<char>) -> ErrorModel {
    ErrorModel { detail: "failed"@, message }
}

impl EditError {
    /// The error for a line that is not there.
    pub fn anchor(message: &str) -> (error: Self)
        ensures
            error@ == anchor_error(message@),
    {
        EditError { detail: "anchor_invalid", message: message.to_owned() }
    }

    /// The error for a request that makes no sense.
    pub fn input(message: &str) -> (error: Self)
        ensures
            error@ == input_error(message@),
    {
        EditError { detail: "input_invalid", message: message.to_owned() }
    }

    /// The error for work that failed.
    pub fn failed(message: &str) -> (error: Self)
        ensures
            error@ == failed_error(message@),
    {
        EditError { detail: "failed", message: message.to_owned() }
    }
}

/// The first position at which `wanted` stands in `items`.
pub open spec fn first_position(items: Seq<Seq<char>>, wanted: Seq<char>) -> Option<nat>
    decreases items.len(),
{
    if items.len() == 0 {
        None
    } else {
        match first_position(items.drop_last(), wanted) {
            Some(i) => Some(i),
            None => if items.last() == wanted {
                Some((items.len() - 1) as nat)
            } else {
                None
            },
        }
    }
}

/// A first position holds what was wanted and no earlier one does; without one, none does.
pub proof fn lemma_first_position(items: Seq<Seq<char>>, wanted: Seq<char>)
    ensures
        first_position(items, wanted) matches Some(i) ==> i < items.len() && items[i as int] == wanted,
        first_position(items, wanted) matches Some(i) ==> forall|j: int| 0 <= j < i ==> items[j] != wanted,
        first_position(items, wanted) is None ==> !items.contains(wanted),
    decreases items.len(),
{
    if items.len() > 0 {
        let init = items.drop_last();
        lemma_first_position(init, wanted);
        assert forall|j: int| 0 <= j < init.len() implies init[j] == items[j] by {}
        if first_position(items, wanted) is None {
            assert forall|j: int| 0 <= j < items.len() implies items[j] != wanted by {
                if j < init.len() {
                    assert(init.contains(init[j]));
                }
            }
        }
    }
}

/// A position is the first one of its item where no earlier one holds the same.
pub proof fn lemma_is_first_position(items: Seq<Seq<char>>, i: int)
    requires
        0 <= i < items.len(),
        forall|j: int| 0 <= j < i ==> items[j] != items[i],
    ensures
        first_position(items, items[i]) == Some(i as nat),
{
    lemma_first_position(items, items[i]);
    assert(items.contains(items[i]));
}

/// What is returned, with an error taken by its texts.
pub open spec fn outcome<T>(result: Result<T, EditError>) -> Result<T, ErrorModel> {
    match result {
        Ok(value) => Ok(value),
        Err(error) => Err(error@),
    }
}

/// A returned index as a number, with an error taken by its texts.
pub open spec fn index_outcome(result: Result<usize, EditError>) -> Result<nat, ErrorModel> {
    match result {
        Ok(index) => Ok(index as nat),
        Err(error) => Err(error@),
    }
}

/// The index of the line that has the anchor `anchor`.
pub open spec fn anchor_site(anchors: Seq<Seq<char>>, anchor: Seq<char>) -> Result<nat, ErrorModel> {
    match first_position(anchors, anchor) {
        Some(i) => Ok(i),
        None => Err(anchor_error("anchor not found"@)),
    }
}

/// Finds the line that has the anchor `anchor`.
pub fn anchor_index(anchors: &[String], anchor: &str) -> (index: Result<usize, EditError>)
    ensures
        index_outcome(index) == anchor_site(texts(anchors@), anchor@),
        index matches Ok(i) ==> i < anchors@.len(),
{
    let wanted: String = anchor.to_owned();
    let ghost all = texts(anchors@);
    let mut i: usize = 0;
    while i < anchors.len()
        invariant
            i <= anchors@.len(),
            all == texts(anchors@),
            wanted@ == anchor@,
            forall|j: int| 0 <= j < i ==> all[j] != anchor@,
        decreases anchors@.len() - i,
    {
        if anchors[i] == wanted {
            proof {
                assert(all[i as int] == anchor@);
                lemma_is_first_position(all, i as int);
            }
            return Ok(i);
        }
        i += 1;
    }
    proof {
        lemma_first_position(all, anchor@);
    }
    Err(EditError::anchor("anchor not found"))
}

/// The normalized forms of the lines, in their order.
pub open spec fn normalized_lines(lines: Seq<Seq<char>>) -> Seq<Seq<char>> {
    Seq::new(lines.len(), |i: int| normalized(lines[i]))
}

/// The index of the first line that reads like `target` once both are normalized.
pub open spec fn text_site(lines: Seq<Seq<char>>, target: Seq<char>) -> Result<nat, ErrorModel> {
    match first_position(normalized_lines(lines), normalized(target)) {
        Some(i) => Ok(i),
        None => Err(anchor_error("fuzzy match: text not found in any line"@)),
    }
}

/// Finds the first line that reads like `target` once both are normalized.
pub fn find_line_by_normalized_text(lines: &[String], target: &str) -> (index: Result<usize, EditError>)
    ensures
        index_outcome(index) == text_site(texts(lines@), target@),
        index matches Ok(i) ==> i < lines@.len(),
{
    let wanted: String = normalize_text(target);
    let ghost all = normalized_lines(texts(lines@));
    let mut i: usize = 0;
    while i < lines.len()
        invariant
            i <= lines@.len(),
            all == normalized_lines(texts(lines@)),
            wanted@ == normalized(target@),
            forall|j: int| 0 <= j < i ==> all[j] != wanted@,
        decreases lines@.len() - i,
    {
        proof {
            law_ends_do_not_count(lines@[i as int]@);
        }
        if normalize_text(lines[i].as_str().trim()) == wanted {
            proof {
                assert(all[i as int] == wanted@);
                lemma_is_first_position(all, i as int);
            }
            return Ok(i);
        }
        i += 1;
    }
    proof {
        lemma_first_position(all, wanted@);
    }
    Err(EditError::anchor("fuzzy match: text not found in any line"))
}

/// The lines that an edit with the text `text` puts in: none for the empty text.
pub open spec fn payload(text: Seq<char>) -> Seq<Seq<char>> {
    if text.len() == 0 {
        Seq::empty()
    } else {
        split_at_each(text, '\n')
    }
}

/// Splits the text of an edit into the lines that it puts in.
pub fn payload_lines(text: &str) -> (lines: Vec<String>)
    ensures
        texts(lines@) == payload(text@),
{
    if text.is_empty() {
        let lines: Vec<String> = Vec::new();
        assert(texts(lines@) =~= Seq::empty());
        lines
    } else {
        split_newlines(text)
    }
}

/// `lines` with `inserted` put in before the line at `index`.
pub open spec fn with_inserted<T>(lines: Seq<T>, index: int, inserted: Seq<T>) -> Seq<T> {
    if inserted.len() == 0 {
        lines
    } else {
        lines.take(index) + inserted + lines.skip(index)
    }
}

/// Puts `inserted` in before the line at `index`.
pub fn insert_lines(lines: &mut Vec<String>, index: usize, inserted: Vec<String>)
    requires
        inserted@.len() > 0 ==> index <= old(lines)@.len(),
    ensures
        final(lines)@ == with_inserted(old(lines)@, index as int, inserted@),
        texts(final(lines)@) == with_inserted(texts(old(lines)@), index as int, texts(inserted@)),
{
    let ghost before = lines@;
    let ghost put = inserted@;
    if inserted.len() > 0 {
        let mut inserted: Vec<String> = inserted;
        let mut tail: Vec<String> = lines.split_off(index);
        lines.append(&mut inserted);
        lines.append(&mut tail);
    }
    assert(lines@ =~= with_inserted(before, index as int, put));
    assert(texts(lines@) =~= with_inserted(texts(before), index as int, texts(put)));
}

/// `lines` with those from `start` to `end`, both included, replaced by `inserted`.
pub open spec fn with_replaced<T>(lines: Seq<T>, start: int, end: int, inserted: Seq<T>) -> Seq<T> {
    lines.take(start) + inserted + lines.skip(end + 1)
}

/// Replaces the lines from `start` to `end`, both included, by `inserted`.
fn splice_lines(lines: &mut Vec<String>, start: usize, end: usize, inserted: Vec<String>)
    requires
        start <= end < old(lines)@.len(),
    ensures
        texts(final(lines)@) == with_replaced(texts(old(lines)@), start as int, end as int, texts(inserted@)),
{
    let ghost before = lines@;
    let ghost put = inserted@;
    let mut inserted: Vec<String> = inserted;
    assert(end < lines.len());
    let mut tail: Vec<String> = lines.split_off(end + 1);
    lines.truncate(start);
    lines.append(&mut inserted);
    lines.append(&mut tail);
    assert(lines@ =~= with_replaced(before, start as int, end as int, put));
    assert(texts(lines@) =~= with_replaced(texts(before), start as int, end as int, texts(put)));
}

/// The index of the line that `key` names: by its anchor, or, where `fuzzy` allows it and there
/// is no such anchor, by its text.
pub open spec fn line_site(lines: Seq<Seq<char>>, anchors: Seq<Seq<char>>, key: Seq<char>, fuzzy: bool) -> Result<
    nat,
    ErrorModel,
> {
    if anchor_site(anchors, key) is Err && fuzzy {
        text_site(lines, key)
    } else {
        anchor_site(anchors, key)
    }
}

/// Finds the line that `key` names.
fn line_index(lines: &[String], anchors: &[String], key: &str, fuzzy: bool) -> (index: Result<usize, EditError>)
    ensures
        index_outcome(index) == line_site(texts(lines@), texts(anchors@), key@, fuzzy),
{
    match anchor_index(anchors, key) {
        Ok(index) => Ok(index),
        Err(error) => if fuzzy {
            find_line_by_normalized_text(lines, key)
        } else {
            Err(error)
        },
    }
}

/// The text of an edit, empty where it has none.
pub open spec fn text_or_empty(text: Option<Seq<char>>) -> Seq<char> {
    match text {
        Some(t) => t,
        None => Seq::empty(),
    }
}

/// The string in `text`, empty where there is none.
fn string_or_empty(text: Option<String>) -> (string: String)
    ensures
        string@ == text_or_empty(optional_text(text)),
{
    match text {
        Some(string) => string,
        None => String::new(),
    }
}

/// The first and the last line that a `replace` takes out: the one that `anchor` names, else those
/// that `from` and `to` name, which must not come in the wrong order.
pub open spec fn replaced_range(
    lines: Seq<Seq<char>>,
    anchors: Seq<Seq<char>>,
    edit: EditModel,
    fuzzy: bool,
) -> Result<(nat, nat), ErrorModel> {
    match (edit.anchor, edit.from, edit.to) {
        (Some(anchor), _, _) => match anchor_site(anchors, anchor) {
            Ok(i) => Ok((i, i)),
            Err(error) => Err(error),
        },
        (None, Some(from), Some(to)) => match (
            line_site(lines, anchors, from, fuzzy),
            line_site(lines, anchors, to, fuzzy),
        ) {
            (Err(error), _) => Err(error),
            (Ok(_), Err(error)) => Err(error),
            (Ok(start), Ok(end)) => if start > end {
                Err(input_error("from anchor is after to anchor"@))
            } else {
                Ok((start, end))
            },
        },
        _ => Err(input_error("replace requires anchor or from/to"@)),
    }
}

/// What a `replace` makes of the lines. `None` where the lines to be taken out reach past the end.
pub open spec fn replaced(
    lines: Seq<Seq<char>>,
    anchors: Seq<Seq<char>>,
    edit: EditModel,
    fuzzy: bool,
) -> Option<Result<Seq<Seq<char>>, ErrorModel>> {
    match replaced_range(lines, anchors, edit, fuzzy) {
        Err(error) => Some(Err(error)),
        Ok((start, end)) => if end < lines.len() {
            Some(Ok(with_replaced(lines, start as int, end as int, payload(text_or_empty(edit.text)))))
        } else {
            None
        },
    }
}

/// A returned range as numbers, with an error taken by its texts.
pub open spec fn range_outcome(result: Result<(usize, usize), EditError>) -> Result<(nat, nat), ErrorModel> {
    match result {
        Ok((start, end)) => Ok((start as nat, end as nat)),
        Err(error) => Err(error@),
    }
}

/// Finds the first and the last line that a `replace` takes out.
fn replace_range(lines: &[String], anchors: &[String], edit: &Edit, fuzzy: bool) -> (range: Result<
    (usize, usize),
    EditError,
>)
    ensures
        range_outcome(range) == replaced_range(texts(lines@), texts(anchors@), edit@, fuzzy),
        range matches Ok((start, end)) ==> start <= end,
{
    match (&edit.anchor, &edit.from, &edit.to) {
        (Some(anchor), _, _) => match anchor_index(anchors, anchor.as_str()) {
            Ok(index) => Ok((index, index)),
            Err(error) => Err(error),
        },
        (None, Some(from), Some(to)) => {
            let start: usize = match line_index(lines, anchors, from.as_str(), fuzzy) {
                Ok(index) => index,
                Err(error) => return Err(error),
            };
            let end: usize = match line_index(lines, anchors, to.as_str(), fuzzy) {
                Ok(index) => index,
                Err(error) => return Err(error),
            };
            if start > end {
                Err(EditError::input("from anchor is after to anchor"))
            } else {
                Ok((start, end))
            }
        },
        _ => Err(EditError::input("replace requires anchor or from/to")),
    }
}

/// Whether a function that changes `before` to `after` and returns `result` does what `expected`
/// says: it makes the lines expected, or gives the error expected and changes nothing.
pub open spec fn achieves(
    expected: Option<Result<Seq<Seq<char>>, ErrorModel>>,
    before: Seq<String>,
    after: Seq<String>,
    result: Result<(), EditError>,
) -> bool {
    match expected {
        Some(Ok(lines)) => result is Ok && texts(after) == lines,
        Some(Err(error)) => outcome(result) == Err::<(), ErrorModel>(error) && after == before,
        None => false,
    }
}

/// Replaces the lines that a `replace` names.
pub fn replace_lines(lines: &mut Vec<String>, anchors: &[String], edit: Edit, fuzzy: bool) -> (result: Result<
    (),
    EditError,
>)
    requires
        replaced(texts(old(lines)@), texts(anchors@), edit@, fuzzy) is Some,
    ensures
        achieves(
            replaced(texts(old(lines)@), texts(anchors@), edit@, fuzzy),
            old(lines)@,
            final(lines)@,
            result,
        ),
{
    match replace_range(lines.as_slice(), anchors, &edit, fuzzy) {
        Ok((start, end)) => {
            let put: Vec<String> = payload_lines(string_or_empty(edit.text).as_str());
            splice_lines(lines, start, end, put);
            Ok(())
        },
        Err(error) => Err(error),
    }
}

/// The first of two optional texts that is there.
pub open spec fn either_text(first: Option<Seq<char>>, second: Option<Seq<char>>) -> Option<Seq<char>> {
    if first is Some {
        first
    } else {
        second
    }
}

/// What an insertion makes of the lines: `text` is put in `shift` lines behind the line that
/// `target` names. `None` where that place lies past the end.
pub open spec fn inserted(
    lines: Seq<Seq<char>>,
    anchors: Seq<Seq<char>>,
    target: Option<Seq<char>>,
    shift: nat,
    text: Seq<char>,
    missing: Seq<char>,
) -> Option<Result<Seq<Seq<char>>, ErrorModel>> {
    match target {
        None => Some(Err(input_error(missing))),
        Some(anchor) => match anchor_site(anchors, anchor) {
            Err(error) => Some(Err(error)),
            Ok(i) => if payload(text).len() == 0 || i + shift <= lines.len() {
                Some(Ok(with_inserted(lines, (i + shift) as int, payload(text))))
            } else {
                None
            },
        },
    }
}

/// What an `insert_before` makes of the lines.
pub open spec fn inserted_before(
    lines: Seq<Seq<char>>,
    anchors: Seq<Seq<char>>,
    edit: EditModel,
) -> Option<Result<Seq<Seq<char>>, ErrorModel>> {
    inserted(
        lines,
        anchors,
        either_text(edit.before, edit.anchor),
        0,
        text_or_empty(edit.text),
        "insert_before requires before or anchor"@,
    )
}

/// What an `insert_after` makes of the lines.
pub open spec fn inserted_after(
    lines: Seq<Seq<char>>,
    anchors: Seq<Seq<char>>,
    edit: EditModel,
) -> Option<Result<Seq<Seq<char>>, ErrorModel>> {
    inserted(
        lines,
        anchors,
        either_text(edit.after, edit.anchor),
        1,
        text_or_empty(edit.text),
        "insert_after requires after or anchor"@,
    )
}

/// Puts the text of the edit in before the line that `before`, else `anchor`, names.
pub fn insert_before(lines: &mut Vec<String>, anchors: &[String], edit: Edit) -> (result: Result<(), EditError>)
    requires
        inserted_before(texts(old(lines)@), texts(anchors@), edit@) is Some,
    ensures
        achieves(
            inserted_before(texts(old(lines)@), texts(anchors@), edit@),
            old(lines)@,
            final(lines)@,
            result,
        ),
{
    let target: Option<String> = match edit.before {
        Some(before) => Some(before),
        None => edit.anchor,
    };
    let anchor: String = match target {
        Some(anchor) => anchor,
        None => return Err(EditError::input("insert_before requires before or anchor")),
    };
    let index: usize = match anchor_index(anchors, anchor.as_str()) {
        Ok(index) => index,
        Err(error) => return Err(error),
    };
    let put: Vec<String> = payload_lines(string_or_empty(edit.text).as_str());
    assert(texts(put@).len() == put@.len());
    insert_lines(lines, index, put);
    Ok(())
}

/// Puts the text of the edit in behind the line that `after`, else `anchor`, names.
pub fn insert_after(lines: &mut Vec<String>, anchors: &[String], edit: Edit) -> (result: Result<(), EditError>)
    requires
        inserted_after(texts(old(lines)@), texts(anchors@), edit@) is Some,
    ensures
        achieves(
            inserted_after(texts(old(lines)@), texts(anchors@), edit@),
            old(lines)@,
            final(lines)@,
            result,
        ),
{
    let target: Option<String> = match edit.after {
        Some(after) => Some(after),
        None => edit.anchor,
    };
    let anchor: String = match target {
        Some(anchor) => anchor,
        None => return Err(EditError::input("insert_after requires after or anchor")),
    };
    let index: usize = match anchor_index(anchors, anchor.as_str()) {
        Ok(index) => {
            assert(index < anchors.len());
            index + 1
        },
        Err(error) => return Err(error),
    };
    let put: Vec<String> = payload_lines(string_or_empty(edit.text).as_str());
    assert(texts(put@).len() == put@.len());
    insert_lines(lines, index, put);
    Ok(())
}

/// What an edit makes of the lines. `None` where it reaches past the end.
pub open spec fn edited(
    lines: Seq<Seq<char>>,
    anchors: Seq<Seq<char>>,
    edit: EditModel,
    fuzzy: bool,
) -> Option<Result<Seq<Seq<char>>, ErrorModel>> {
    if edit.op == "replace"@ {
        replaced(lines, anchors, edit, fuzzy)
    } else if edit.op == "insert_before"@ {
        inserted_before(lines, anchors, edit)
    } else if edit.op == "insert_after"@ {
        inserted_after(lines, anchors, edit)
    } else {
        Some(Err(input_error("unknown op"@)))
    }
}

/// Carries out one edit.
pub fn apply_edit(lines: &mut Vec<String>, anchors: &[String], edit: Edit, fuzzy: bool) -> (result: Result<
    (),
    EditError,
>)
    requires
        edited(texts(old(lines)@), texts(anchors@), edit@, fuzzy) is Some,
    ensures
        achieves(
            edited(texts(old(lines)@), texts(anchors@), edit@, fuzzy),
            old(lines)@,
            final(lines)@,
            result,
        ),
{
    if same_text(edit.op.as_str(), "replace") {
        replace_lines(lines, anchors, edit, fuzzy)
    } else if same_text(edit.op.as_str(), "insert_before") {
        insert_before(lines, anchors, edit)
    } else if same_text(edit.op.as_str(), "insert_after") {
        insert_after(lines, anchors, edit)
    } else {
        Err(EditError::input("unknown op"))
    }
}

/// Tests whether an insertion stays within the lines.
fn insertion_fits(
    lines: &[String],
    anchors: &[String],
    target: Option<&String>,
    shift: usize,
    text: &Option<String>,
    Ghost(missing): Ghost<Seq<char>>,
) -> (fits: bool)
    requires
        shift <= 1,
    ensures
        fits == inserted(
            texts(lines@),
            texts(anchors@),
            (match target {
                Some(t) => Some(t@),
                None => None,
            }),
            shift as nat,
            text_or_empty(optional_text(*text)),
            missing,
        ) is Some,
{
    proof {
        crate::text::lemma_split_nonempty(text_or_empty(optional_text(*text)), '\n');
        assert(texts(lines@).len() == lines@.len());
    }
    match target {
        None => true,
        Some(anchor) => match anchor_index(anchors, anchor.as_str()) {
            Err(_) => true,
            Ok(index) => {
                assert(index < anchors.len());
                let empty: bool = match text {
                    Some(t) => t.as_str().is_empty(),
                    None => true,
                };
                empty || index + shift <= lines.len()
            },
        },
    }
}

/// Tests whether an edit stays within the lines.
pub fn edit_fits(lines: &[String], anchors: &[String], edit: &Edit, fuzzy: bool) -> (fits: bool)
    ensures
        fits == edited(texts(lines@), texts(anchors@), edit@, fuzzy) is Some,
{
    if same_text(edit.op.as_str(), "replace") {
        assert(texts(lines@).len() == lines@.len());
        match replace_range(lines, anchors, edit, fuzzy) {
            Ok((_, end)) => end < lines.len(),
            Err(_) => true,
        }
    } else if same_text(edit.op.as_str(), "insert_before") {
        let target: Option<&String> = match &edit.before {
            Some(before) => Some(before),
            None => edit.anchor.as_ref(),
        };
        insertion_fits(
            lines,
            anchors,
            target,
            0,
            &edit.text,
            Ghost("insert_before requires before or anchor"@),
        )
    } else if same_text(edit.op.as_str(), "insert_after") {
        let target: Option<&String> = match &edit.after {
            Some(after) => Some(after),
            None => edit.anchor.as_ref(),
        };
        insertion_fits(lines, anchors, target, 1, &edit.text, Ghost("insert_after requires after or anchor"@))
    } else {
        true
    }
}

/// The index of the line at which an edit starts, by the first of its names that is there:
/// `anchor`, `from`, `before`, `after`.
pub open spec fn start_site(edit: EditModel, anchors: Seq<Seq<char>>) -> Result<nat, ErrorModel> {
    match either_text(either_text(edit.anchor, edit.from), either_text(edit.before, edit.after)) {
        Some(anchor) => anchor_site(anchors, anchor),
        None => Err(input_error("missing anchor"@)),
    }
}

/// Finds the line at which an edit starts.
pub fn edit_start_index(edit: &Edit, anchors: &[String]) -> (index: Result<usize, EditError>)
    ensures
        index_outcome(index) == start_site(edit@, texts(anchors@)),
        index matches Ok(i) ==> i < anchors@.len(),
{
    match (&edit.anchor, &edit.from, &edit.before, &edit.after) {
        (Some(anchor), _, _, _) => anchor_index(anchors, anchor.as_str()),
        (None, Some(from), _, _) => anchor_index(anchors, from.as_str()),
        (None, None, Some(before), _) => anchor_index(anchors, before.as_str()),
        (None, None, None, Some(after)) => anchor_index(anchors, after.as_str()),
        (None, None, None, None) => Err(EditError::input("missing anchor")),
    }
}

/// An edit is seen by the texts in its fields.
pub proof fn law_edit_is_seen_by_its_fields(edit: Edit)
    ensures
        edit@.op == edit.op@,
        edit@.anchor is Some <==> edit.anchor is Some,
        edit.anchor matches Some(t) ==> edit@.anchor == Some(t@),
        edit@.from is Some <==> edit.from is Some,
        edit.from matches Some(t) ==> edit@.from == Some(t@),
        edit@.to is Some <==> edit.to is Some,
        edit.to matches Some(t) ==> edit@.to == Some(t@),
        edit@.before is Some <==> edit.before is Some,
        edit.before matches Some(t) ==> edit@.before == Some(t@),
        edit@.after is Some <==> edit.after is Some,
        edit.after matches Some(t) ==> edit@.after == Some(t@),
        edit@.text is Some <==> edit.text is Some,
        edit.text matches Some(t) ==> edit@.text == Some(t@),
{
}

/// An error is seen by the texts in its fields, and so is what a function returns.
pub proof fn law_error_is_seen_by_its_fields(error: EditError, index: usize, start: usize, end: usize)
    ensures
        error@.detail == error.detail@,
        error@.message == error.message@,
        outcome(Err::<(), EditError>(error)) == Err::<(), ErrorModel>(error@),
        outcome(Ok::<(), EditError>(())) is Ok,
        index_outcome(Err(error)) == Err::<nat, ErrorModel>(error@),
        index_outcome(Ok(index)) == Ok::<nat, ErrorModel>(index as nat),
        range_outcome(Err(error)) == Err::<(nat, nat), ErrorModel>(error@),
        range_outcome(Ok((start, end))) == Ok::<(nat, nat), ErrorModel>((start as nat, end as nat)),
{
}

/// The three kinds of errors: each keeps its message.
pub proof fn law_kinds_of_errors(message: Seq<char>)
    ensures
        anchor_error(message).detail == "anchor_invalid"@,
        anchor_error(message).message == message,
        input_error(message).detail == "input_invalid"@,
        input_error(message).message == message,
        failed_error(message).detail == "failed"@,
        failed_error(message).message == message,
{
}

/// A function that does what is expected makes just the lines expected, or leaves the lines as they
/// were and gives just the error expected.
pub proof fn law_expected_is_done(
    expected: Result<Seq<Seq<char>>, ErrorModel>,
    before: Seq<String>,
    after: Seq<String>,
    result: Result<(), EditError>,
)
    requires
        achieves(Some(expected), before, after, result),
    ensures
        expected matches Ok(lines) ==> {
            &&& result is Ok
            &&& after.len() == lines.len()
            &&& forall|i: int| 0 <= i < after.len() ==> #[trigger] after[i]@ == lines[i]
        },
        expected matches Err(error) ==> {
            &&& result matches Err(e) && e.detail@ == error.detail && e.message@ == error.message
            &&& after == before
        },
        result is Ok <==> expected is Ok,
{
    if let Ok(lines) = expected {
        assert(texts(after).len() == after.len());
        assert forall|i: int| 0 <= i < after.len() implies #[trigger] after[i]@ == lines[i] by {
            assert(texts(after)[i] == lines[i]);
        }
    }
}

/// The lines that an edit puts in, joined by line feeds, give back its text character by character,
/// and none of them holds a line feed. An empty text puts in no line.
pub proof fn law_lines_put_in_are_the_text(text: Seq<char>)
    ensures
        text.len() > 0 ==> payload(text).len() > 0 && joined(payload(text)) == text,
        text.len() == 0 ==> payload(text).len() == 0,
        forall|i: int| 0 <= i < payload(text).len() ==> !(#[trigger] payload(text)[i]).contains('\n'),
{
    law_joining_undoes_splitting(text);
    lemma_split_nonempty(text, '\n');
}

/// Whether `i` is the first index at which `wanted` stands in `items`.
pub open spec fn stands_first_at(items: Seq<Seq<char>>, wanted: Seq<char>, i: int) -> bool {
    &&& 0 <= i < items.len()
    &&& items[i] == wanted
    &&& forall|k: int| 0 <= k < i ==> #[trigger] items[k] != wanted
}

/// Whether the line at `i` is the first one that reads like `wanted`.
pub open spec fn reads_first_at(lines: Seq<Seq<char>>, wanted: Seq<char>, i: int) -> bool {
    &&& 0 <= i < lines.len()
    &&& normalized(lines[i]) == normalized(wanted)
    &&& forall|k: int| 0 <= k < i ==> normalized(#[trigger] lines[k]) != normalized(wanted)
}

/// Whether `key` is a name of the line at `i`: its anchor, or, with fuzzy matching and where no line
/// has that anchor, what the line reads.
pub open spec fn names_line(
    lines: Seq<Seq<char>>,
    anchors: Seq<Seq<char>>,
    key: Seq<char>,
    fuzzy: bool,
    i: int,
) -> bool {
    ||| stands_first_at(anchors, key, i)
    ||| fuzzy && !anchors.contains(key) && reads_first_at(lines, key, i)
}

/// Whether `key` is a name of no line.
pub open spec fn names_nothing(
    lines: Seq<Seq<char>>,
    anchors: Seq<Seq<char>>,
    key: Seq<char>,
    fuzzy: bool,
) -> bool {
    &&& !anchors.contains(key)
    &&& fuzzy ==> forall|k: int| 0 <= k < lines.len() ==> normalized(#[trigger] lines[k]) != normalized(key)
}

/// A text stands in a list at its first position, and has a position where it is in the list.
pub proof fn law_position_is_the_first(items: Seq<Seq<char>>, wanted: Seq<char>, i: int)
    ensures
        stands_first_at(items, wanted, i) <==> i >= 0 && first_position(items, wanted) == Some(i as nat),
        !items.contains(wanted) <==> first_position(items, wanted) is None,
{
    lemma_first_position(items, wanted);
    if let Some(k) = first_position(items, wanted) {
        assert(items.contains(items[k as int]));
    }
    if stands_first_at(items, wanted, i) {
        lemma_is_first_position(items, i);
    }
}

/// An anchor finds the first line that has it, and a text, with both normalized, the first line that
/// reads like it.
pub proof fn law_names_find_lines(lines: Seq<Seq<char>>, anchors: Seq<Seq<char>>, key: Seq<char>, fuzzy: bool, i: int)
    ensures
        stands_first_at(anchors, key, i) ==> anchor_site(anchors, key) == Ok::<nat, ErrorModel>(i as nat),
        !anchors.contains(key) ==> anchor_site(anchors, key) == Err::<nat, ErrorModel>(
            ErrorModel { detail: "anchor_invalid"@, message: "anchor not found"@ },
        ),
        reads_first_at(lines, key, i) ==> text_site(lines, key) == Ok::<nat, ErrorModel>(i as nat),
        (forall|k: int| 0 <= k < lines.len() ==> normalized(#[trigger] lines[k]) != normalized(key)) ==> text_site(
            lines,
            key,
        ) == Err::<nat, ErrorModel>(
            ErrorModel { detail: "anchor_invalid"@, message: "fuzzy match: text not found in any line"@ },
        ),
        names_line(lines, anchors, key, fuzzy, i) ==> line_site(lines, anchors, key, fuzzy) == Ok::<
            nat,
            ErrorModel,
        >(i as nat),
        names_nothing(lines, anchors, key, fuzzy) ==> line_site(lines, anchors, key, fuzzy) == Err::<
            nat,
            ErrorModel,
        >(
            ErrorModel {
                detail: "anchor_invalid"@,
                message: if fuzzy {
                    "fuzzy match: text not found in any line"@
                } else {
                    "anchor not found"@
                },
            },
        ),
{
    law_position_is_the_first(anchors, key, i);
    let forms = normalized_lines(lines);
    law_position_is_the_first(forms, normalized(key), i);
    if reads_first_at(lines, key, i) {
        assert(stands_first_at(forms, normalized(key), i)) by {
            assert forall|k: int| 0 <= k < i implies #[trigger] forms[k] != normalized(key) by {
                assert(forms[k] == normalized(lines[k]));
            }
        }
    }
    if forall|k: int| 0 <= k < lines.len() ==> normalized(#[trigger] lines[k]) != normalized(key) {
        assert(!forms.contains(normalized(key))) by {
            if forms.contains(normalized(key)) {
                let k = choose|k: int| 0 <= k < forms.len() && forms[k] == normalized(key);
                assert(forms[k] == normalized(lines[k]));
            }
        }
    }
}

/// A `replace` takes out the line that `anchor` names, or else those from the one that `from` names
/// to the one that `to` names, and puts its text in their place. The two must not come in the wrong
/// order. Lines past the end cannot be taken out.
pub proof fn law_replace_puts_its_text_in_place(
    lines: Seq<Seq<char>>,
    anchors: Seq<Seq<char>>,
    edit: EditModel,
    text: Seq<char>,
    i: int,
    j: int,
    fuzzy: bool,
)
    requires
        edit.op == "replace"@,
        edit.text == Some(text) || edit.text is None && text.len() == 0,
        ({
            ||| edit.anchor matches Some(name) && stands_first_at(anchors, name, i) && j == i
            ||| edit.anchor is None && (edit.from matches Some(from) && names_line(lines, anchors, from, fuzzy, i)) && (
            edit.to matches Some(to) && names_line(lines, anchors, to, fuzzy, j))
        }),
    ensures
        i <= j < lines.len() ==> edited(lines, anchors, edit, fuzzy) == Some(
            Ok::<Seq<Seq<char>>, ErrorModel>(lines.take(i) + payload(text) + lines.skip(j + 1)),
        ),
        i > j ==> edited(lines, anchors, edit, fuzzy) == Some(
            Err::<Seq<Seq<char>>, ErrorModel>(
                ErrorModel { detail: "input_invalid"@, message: "from anchor is after to anchor"@ },
            ),
        ),
        i <= j && lines.len() <= j ==> edited(lines, anchors, edit, fuzzy) is None,
{
    if let Some(name) = edit.anchor {
        law_names_find_lines(lines, anchors, name, fuzzy, i);
    } else {
        law_names_find_lines(lines, anchors, edit.from->0, fuzzy, i);
        law_names_find_lines(lines, anchors, edit.to->0, fuzzy, j);
    }
    assert(text_or_empty(edit.text) =~= text);
}

/// An `insert_before` puts its text before the line that `before`, or else `anchor`, names, and an
/// `insert_after` behind the line that `after`, or else `anchor`, names. All lines stay. Nothing can
/// be put in past the end.
pub proof fn law_insertion_puts_its_text_beside_the_line(
    lines: Seq<Seq<char>>,
    anchors: Seq<Seq<char>>,
    edit: EditModel,
    text: Seq<char>,
    i: int,
    fuzzy: bool,
)
    requires
        edit.text == Some(text) || edit.text is None && text.len() == 0,
    ensures
        edit.op == "insert_before"@ && {
            ||| edit.before matches Some(name) && stands_first_at(anchors, name, i)
            ||| edit.before is None && (edit.anchor matches Some(name) && stands_first_at(anchors, name, i))
        } ==> edited(lines, anchors, edit, fuzzy) == (if text.len() == 0 {
            Some(Ok::<Seq<Seq<char>>, ErrorModel>(lines))
        } else if i <= lines.len() {
            Some(Ok(lines.take(i) + payload(text) + lines.skip(i)))
        } else {
            None
        }),
        edit.op == "insert_after"@ && {
            ||| edit.after matches Some(name) && stands_first_at(anchors, name, i)
            ||| edit.after is None && (edit.anchor matches Some(name) && stands_first_at(anchors, name, i))
        } ==> edited(lines, anchors, edit, fuzzy) == (if text.len() == 0 {
            Some(Ok::<Seq<Seq<char>>, ErrorModel>(lines))
        } else if i + 1 <= lines.len() {
            Some(Ok(lines.take(i + 1) + payload(text) + lines.skip(i + 1)))
        } else {
            None
        }),
{
    assert(text_or_empty(edit.text) =~= text);
    law_lines_put_in_are_the_text(text);
    reveal_strlit("replace");
    reveal_strlit("insert_before");
    reveal_strlit("insert_after");
    assert("replace"@.len() == 7 && "insert_before"@.len() == 13 && "insert_after"@.len() == 12);
    if let Some(name) = edit.anchor {
        law_names_find_lines(lines, anchors, name, fuzzy, i);
    }
    if let Some(name) = edit.before {
        law_names_find_lines(lines, anchors, name, fuzzy, i);
    }
    if let Some(name) = edit.after {
        law_names_find_lines(lines, anchors, name, fuzzy, i);
    }
}

/// Why an edit is refused: its operation is unknown, it does not name the lines that it needs, or
/// what it gives is the name of no line.
pub proof fn law_refused_edit_is_told_why(
    lines: Seq<Seq<char>>,
    anchors: Seq<Seq<char>>,
    edit: EditModel,
    fuzzy: bool,
)
    ensures
        edit.op != "replace"@ && edit.op != "insert_before"@ && edit.op != "insert_after"@ ==> edited(
            lines,
            anchors,
            edit,
            fuzzy,
        ) == Some(
            Err::<Seq<Seq<char>>, ErrorModel>(ErrorModel { detail: "input_invalid"@, message: "unknown op"@ }),
        ),
        edit.op == "replace"@ && edit.anchor is None && (edit.from is None || edit.to is None) ==> edited(
            lines,
            anchors,
            edit,
            fuzzy,
        ) == Some(
            Err::<Seq<Seq<char>>, ErrorModel>(
                ErrorModel { detail: "input_invalid"@, message: "replace requires anchor or from/to"@ },
            ),
        ),
        edit.op == "insert_before"@ && edit.before is None && edit.anchor is None ==> edited(
            lines,
            anchors,
            edit,
            fuzzy,
        ) == Some(
            Err::<Seq<Seq<char>>, ErrorModel>(
                ErrorModel { detail: "input_invalid"@, message: "insert_before requires before or anchor"@ },
            ),
        ),
        edit.op == "insert_after"@ && edit.after is None && edit.anchor is None ==> edited(
            lines,
            anchors,
            edit,
            fuzzy,
        ) == Some(
            Err::<Seq<Seq<char>>, ErrorModel>(
                ErrorModel { detail: "input_invalid"@, message: "insert_after requires after or anchor"@ },
            ),
        ),
        ({
            ||| edit.op == "replace"@ && (edit.anchor matches Some(name) && !anchors.contains(name))
            ||| edit.op == "insert_before"@ && (edit.before matches Some(name) && !anchors.contains(name))
            ||| edit.op == "insert_before"@ && edit.before is None && (edit.anchor matches Some(name)
                && !anchors.contains(name))
            ||| edit.op == "insert_after"@ && (edit.after matches Some(name) && !anchors.contains(name))
            ||| edit.op == "insert_after"@ && edit.after is None && (edit.anchor matches Some(name)
                && !anchors.contains(name))
        }) ==> edited(lines, anchors, edit, fuzzy) == Some(
            Err::<Seq<Seq<char>>, ErrorModel>(
                ErrorModel { detail: "anchor_invalid"@, message: "anchor not found"@ },
            ),
        ),
        edit.op == "replace"@ && edit.anchor is None && edit.from is Some && edit.to is Some && (names_nothing(
            lines,
            anchors,
            edit.from->0,
            fuzzy,
        ) || names_nothing(lines, anchors, edit.to->0, fuzzy)) ==> edited(lines, anchors, edit, fuzzy) == Some(
            Err::<Seq<Seq<char>>, ErrorModel>(
                ErrorModel {
                    detail: "anchor_invalid"@,
                    message: if fuzzy {
                        "fuzzy match: text not found in any line"@
                    } else {
                        "anchor not found"@
                    },
                },
            ),
        ),
{
    reveal_strlit("replace");
    reveal_strlit("insert_before");
    reveal_strlit("insert_after");
    assert("replace"@.len() == 7 && "insert_before"@.len() == 13 && "insert_after"@.len() == 12);
    if let Some(name) = edit.anchor {
        law_names_find_lines(lines, anchors, name, fuzzy, 0);
    }
    if let Some(name) = edit.before {
        law_names_find_lines(lines, anchors, name, fuzzy, 0);
    }
    if let Some(name) = edit.after {
        law_names_find_lines(lines, anchors, name, fuzzy, 0);
    }
    if edit.from is Some && edit.to is Some {
        law_names_find_lines(lines, anchors, edit.from->0, fuzzy, 0);
        law_names_find_lines(lines, anchors, edit.to->0, fuzzy, 0);
    }
}

/// An edit starts at the line whose anchor is the first of its names: `anchor`, `from`, `before`,
/// `after`. A name that is no anchor, and no name at all, give an error.
pub proof fn law_edit_starts_at_the_line_it_names(edit: EditModel, anchors: Seq<Seq<char>>, name: Seq<char>, i: int)
    ensures
        ({
            ||| edit.anchor == Some(name)
            ||| edit.anchor is None && edit.from == Some(name)
            ||| edit.anchor is None && edit.from is None && edit.before == Some(name)
            ||| edit.anchor is None && edit.from is None && edit.before is None && edit.after == Some(name)
        }) ==> {
            &&& stands_first_at(anchors, name, i) ==> start_site(edit, anchors) == Ok::<nat, ErrorModel>(i as nat)
            &&& !anchors.contains(name) ==> start_site(edit, anchors) == Err::<nat, ErrorModel>(
                ErrorModel { detail: "anchor_invalid"@, message: "anchor not found"@ },
            )
        },
        edit.anchor is None && edit.from is None && edit.before is None && edit.after is None ==> start_site(
            edit,
            anchors,
        ) == Err::<nat, ErrorModel>(ErrorModel { detail: "input_invalid"@, message: "missing anchor"@ }),
{
    law_position_is_the_first(anchors, name, i);
}

} // verus!
