//! Requests: a text with one edit in each row.
use crate::batch::{applied, apply_edits, models, optional_outcome, read_text};
use crate::edit::{input_error, Edit, EditError, ErrorModel};
use crate::text::{
    law_lines_one_by_one, law_trimming_cuts_white_space, lines_of, text_lines, texts, trimmed, white_space,
};
use vstd::prelude::*;

verus! {

/// Whether a line holds anything but white space.
pub open spec fn is_row(line: Seq<char>) -> bool {
    trimmed(line).len() > 0
}

/// The rows of a request: its lines, without those that hold only white space.
pub open spec fn rows_of(input: Seq<char>) -> Seq<Seq<char>> {
    lines_of(input).filter(|line: Seq<char>| is_row(line))
}

/// Splits a request into its rows.
pub fn edit_rows(input: &str) -> (rows: Vec<String>)
    ensures
        texts(rows@) == rows_of(input@),
{
    let lines: Vec<String> = text_lines(input);
    let ghost all = texts(lines@);
    let ghost pred = |line: Seq<char>| is_row(line);
    let mut rows: Vec<String> = Vec::new();
    let mut i: usize = 0;
    reveal(Seq::filter);
    assert(texts(rows@) =~= all.take(0).filter(pred));
    while i < lines.len()
        invariant
            i <= lines@.len(),
            all == texts(lines@),
            pred == (|line: Seq<char>| is_row(line)),
            texts(rows@) == all.take(i as int).filter(pred),
        decreases lines@.len() - i,
    {
        reveal(Seq::filter);
        let ghost before = texts(rows@);
        assert(all.take(i as int + 1).drop_last() =~= all.take(i as int));
        assert(all.take(i as int + 1).last() == lines@[i as int]@);
        if !lines[i].as_str().trim().is_empty() {
            rows.push(lines[i].clone());
            assert(texts(rows@) =~= before.push(lines@[i as int]@));
        }
        i += 1;
    }
    assert(all.take(i as int) =~= all);
    rows
}

/// The edits in what came of decoding rows, or the error for the first row that is none.
pub open spec fn gathered(decoded: Seq<Result<Edit, String>>) -> Result<Seq<Edit>, ErrorModel>
    decreases decoded.len(),
{
    if decoded.len() == 0 {
        Ok(Seq::empty())
    } else {
        match (gathered(decoded.drop_last()), decoded.last()) {
            (Err(error), _) => Err(error),
            (Ok(_), Err(message)) => Err(input_error(message@)),
            (Ok(edits), Ok(edit)) => Ok(edits.push(edit)),
        }
    }
}

/// A returned list of edits, with an error taken by its texts.
pub open spec fn edits_outcome(result: Result<Vec<Edit>, EditError>) -> Result<Seq<Edit>, ErrorModel> {
    match result {
        Ok(edits) => Ok(edits@),
        Err(error) => Err(error@),
    }
}

/// Gathers the edits in what came of decoding rows.
pub fn gather_edits(decoded: Vec<Result<Edit, String>>) -> (result: Result<Vec<Edit>, EditError>)
    ensures
        edits_outcome(result) == gathered(decoded@),
{
    let ghost all = decoded@;
    let mut edits: Vec<Edit> = Vec::new();
    assert(all.take(0) =~= Seq::empty());
    for row in it: decoded.into_iter()
        invariant
            it.seq() == all,
            all == decoded@,
            gathered(all.take(it.index() as int)) == Ok::<Seq<Edit>, ErrorModel>(edits@),
    {
        let ghost i = it.index() as int;
        assert(all.take(i + 1).drop_last() =~= all.take(i));
        match row {
            Ok(edit) => {
                edits.push(edit);
            },
            Err(message) => {
                let error: EditError = EditError::input(message.as_str());
                proof {
                    assert(gathered(all.take(i + 1)) == Err::<Seq<Edit>, ErrorModel>(error@));
                    lemma_gathered_error(all, i + 1);
                }
                return Err(error);
            },
        }
    }
    assert(all.take(all.len() as int) =~= all);
    Ok(edits)
}

/// Rows behind one that is no edit do not count.
proof fn lemma_gathered_error(decoded: Seq<Result<Edit, String>>, n: int)
    requires
        0 <= n <= decoded.len(),
        gathered(decoded.take(n)) is Err,
    ensures
        gathered(decoded) == gathered(decoded.take(n)),
    decreases decoded.len(),
{
    if n == decoded.len() {
        assert(decoded.take(n) =~= decoded);
    } else {
        assert(decoded.drop_last().take(n) =~= decoded.take(n));
        lemma_gathered_error(decoded.drop_last(), n);
    }
}

/// Whether `decode` may give `decoded` for a row with the text `row`.
pub open spec fn may_decode<F: Fn(&str) -> Result<Edit, String>>(
    decode: F,
    row: Seq<char>,
    decoded: Result<Edit, String>,
) -> bool {
    exists|r: &str| r@ == row && #[trigger] call_ensures(decode, (r,), decoded)
}

/// Whether `decoded` is what came of decoding the rows one by one, up to and with the first that
/// is no edit.
pub open spec fn decoding<F: Fn(&str) -> Result<Edit, String>>(
    decode: F,
    rows: Seq<Seq<char>>,
    decoded: Seq<Result<Edit, String>>,
) -> bool {
    &&& decoded.len() <= rows.len()
    &&& forall|i: int| 0 <= i < decoded.len() ==> may_decode(decode, rows[i], #[trigger] decoded[i])
    &&& forall|i: int| 0 <= i < decoded.len() - 1 ==> (#[trigger] decoded[i]) is Ok
    &&& decoded.len() < rows.len() ==> decoded.len() > 0 && decoded.last() is Err
}

/// Decodes the rows of a request with `decode`, up to the first that is no edit.
pub fn parse_edits<F: Fn(&str) -> Result<Edit, String>>(input: &str, decode: F) -> (result: Result<
    Vec<Edit>,
    EditError,
>)
    requires
        forall|row: &str| #[trigger] call_requires(decode, (row,)),
    ensures
        exists|decoded: Seq<Result<Edit, String>>| #[trigger]
            decoding(decode, rows_of(input@), decoded) && edits_outcome(result) == gathered(decoded),
{
    let rows: Vec<String> = edit_rows(input);
    let ghost all = texts(rows@);
    let mut decoded: Vec<Result<Edit, String>> = Vec::new();
    let mut i: usize = 0;
    while i < rows.len()
        invariant
            i <= rows@.len(),
            i == decoded@.len(),
            all == texts(rows@),
            all == rows_of(input@),
            forall|row: &str| #[trigger] call_requires(decode, (row,)),
            forall|j: int| 0 <= j < decoded@.len() ==> may_decode(decode, all[j], #[trigger] decoded@[j]),
            forall|j: int| 0 <= j < decoded@.len() ==> (#[trigger] decoded@[j]) is Ok,
        decreases rows@.len() - i,
    {
        let row: &str = rows[i].as_str();
        let outcome: Result<Edit, String> = decode(row);
        let failed: bool = outcome.is_err();
        assert(call_ensures(decode, (row,), outcome));
        assert(may_decode(decode, all[i as int], outcome));
        decoded.push(outcome);
        if failed {
            assert(all.len() == rows@.len());
            assert(decoding(decode, all, decoded@));
            return gather_edits(decoded);
        }
        i += 1;
    }
    assert(all.len() == rows@.len());
    assert(decoding(decode, all, decoded@));
    gather_edits(decoded)
}

/// What a request makes of a file, given what came of decoding its rows and of reading the file.
pub open spec fn applied_rows(
    decoded: Seq<Result<Edit, String>>,
    content: Result<Seq<char>, Seq<char>>,
    fuzzy: bool,
) -> Option<Result<Seq<char>, ErrorModel>> {
    match gathered(decoded) {
        Ok(edits) => applied(models(edits), content, fuzzy),
        Err(error) => Some(Err(error)),
    }
}

/// Carries out a request on a file, given what came of reading it. `None` where the lines cannot
/// each get an anchor, or an edit reaches past the end.
pub fn apply_edits_str<F: Fn(&str) -> Result<Edit, String>>(
    input: &str,
    decode: F,
    content: Result<String, String>,
    fuzzy: bool,
) -> (result: Option<Result<String, EditError>>)
    requires
        forall|row: &str| #[trigger] call_requires(decode, (row,)),
    ensures
        exists|decoded: Seq<Result<Edit, String>>| #[trigger]
            decoding(decode, rows_of(input@), decoded) && optional_outcome(result) == applied_rows(
                decoded,
                read_text(content),
                fuzzy,
            ),
{
    match parse_edits(input, decode) {
        Ok(edits) => apply_edits(edits, content, fuzzy),
        Err(error) => Some(Err(error)),
    }
}

/// A decoded request is seen by its edits, or by the texts of its error.
pub proof fn law_request_is_seen_by_its_edits(edits: Vec<Edit>, error: EditError)
    ensures
        edits_outcome(Ok(edits)) == Ok::<Seq<Edit>, ErrorModel>(edits@),
        edits_outcome(Err(error)) == Err::<Seq<Edit>, ErrorModel>(error@),
{
}

/// Whether a text holds nothing but white space.
pub open spec fn is_blank(text: Seq<char>) -> bool {
    forall|i: int| 0 <= i < text.len() ==> white_space(#[trigger] text[i])
}

proof fn lemma_is_row(line: Seq<char>)
    ensures
        is_row(line) <==> !is_blank(line),
{
    let (a, b) = law_trimming_cuts_white_space(line);
    if !is_blank(line) {
        let i = choose|i: int| 0 <= i < line.len() && !white_space(#[trigger] line[i]);
        assert(a <= i < b);
    }
}

/// The rows of a request, line by line: a blank line gives no row, and any other line is a row as it
/// stands, without the line feed, or the carriage return and line feed, that ends it.
pub proof fn law_rows_one_by_one(line: Seq<char>, rest: Seq<char>)
    requires
        !line.contains('\n'),
    ensures
        is_blank(line) ==> rows_of(line.push('\n') + rest) == rows_of(rest),
        is_blank(line) ==> rows_of(line).len() == 0,
        !is_blank(line) ==> rows_of(line.push('\r').push('\n') + rest) == seq![line] + rows_of(rest),
        !is_blank(line) && line.last() != '\r' ==> rows_of(line.push('\n') + rest) == seq![line] + rows_of(rest),
        !is_blank(line) ==> rows_of(line) == seq![line],
{
    let pred = |l: Seq<char>| is_row(l);
    law_lines_one_by_one(line, rest);
    lemma_is_row(line);
    lemma_one_row(line, rest);
    if line.len() > 0 {
        lemma_one_row(line, Seq::empty());
        assert(seq![line] + lines_of(Seq::empty()) =~= seq![line]);
        assert(seq![line] + Seq::<Seq<char>>::empty() =~= seq![line]);
    } else {
        assert(line =~= Seq::empty());
    }
    reveal(Seq::filter);
    assert(lines_of(Seq::empty()) =~= Seq::empty());
    assert(Seq::<Seq<char>>::empty().filter(pred) =~= Seq::empty());
    if is_blank(line) && line.len() > 0 && line.last() == '\r' {
        let init = line.drop_last();
        assert(init.push('\r') =~= line);
        assert(!init.contains('\n')) by {
            if init.contains('\n') {
                let k = choose|k: int| 0 <= k < init.len() && init[k] == '\n';
                assert(line[k] == '\n');
            }
        }
        assert(is_blank(init)) by {
            assert forall|i: int| 0 <= i < init.len() implies white_space(#[trigger] init[i]) by {
                assert(init[i] == line[i]);
            }
        }
        law_lines_one_by_one(init, rest);
        lemma_is_row(init);
        lemma_one_row(init, rest);
    }
}

proof fn lemma_one_row(line: Seq<char>, rest: Seq<char>)
    ensures
        (seq![line] + lines_of(rest)).filter(|l: Seq<char>| is_row(l)) == (if is_row(line) {
            seq![line]
        } else {
            Seq::empty()
        }) + rows_of(rest),
{
    let pred = |l: Seq<char>| is_row(l);
    Seq::filter_distributes_over_add(seq![line], lines_of(rest), pred);
    reveal(Seq::filter);
    assert(seq![line].drop_last() =~= Seq::empty());
    assert(seq![line].drop_last().filter(pred) =~= Seq::empty());
    assert(seq![line].filter(pred) =~= if is_row(line) {
        seq![line]
    } else {
        Seq::empty()
    });
}

/// Where each row is an edit, the request has these edits in their order. Else the message for the
/// first row that is none is its error.
pub proof fn law_request_has_the_edits_of_its_rows(decoded: Seq<Result<Edit, String>>, k: int)
    ensures
        (forall|i: int| 0 <= i < decoded.len() ==> (#[trigger] decoded[i]) is Ok) ==> (gathered(decoded) matches Ok(
            edits,
        ) && {
            &&& edits.len() == decoded.len()
            &&& forall|i: int| 0 <= i < edits.len() ==> decoded[i] == Ok::<Edit, String>(#[trigger] edits[i])
        }),
        0 <= k < decoded.len() && decoded[k] is Err && (forall|i: int|
            0 <= i < k ==> (#[trigger] decoded[i]) is Ok) ==> gathered(decoded) == Err::<Seq<Edit>, ErrorModel>(
            ErrorModel { detail: "input_invalid"@, message: (decoded[k]->Err_0)@ },
        ),
{
    if forall|i: int| 0 <= i < decoded.len() ==> (#[trigger] decoded[i]) is Ok {
        lemma_gathered(decoded);
    }
    if 0 <= k < decoded.len() && decoded[k] is Err && (forall|i: int|
        0 <= i < k ==> (#[trigger] decoded[i]) is Ok) {
        let front = decoded.take(k);
        let through = decoded.take(k + 1);
        assert forall|i: int| 0 <= i < front.len() implies (#[trigger] front[i]) is Ok by {
            assert(front[i] == decoded[i]);
        }
        lemma_gathered(front);
        assert(through.drop_last() =~= front);
        assert(through.last() == decoded[k]);
        lemma_gathered_error(decoded, k + 1);
    }
}

proof fn lemma_gathered(decoded: Seq<Result<Edit, String>>)
    requires
        forall|i: int| 0 <= i < decoded.len() ==> (#[trigger] decoded[i]) is Ok,
    ensures
        gathered(decoded) matches Ok(edits) && {
            &&& edits.len() == decoded.len()
            &&& forall|i: int| 0 <= i < edits.len() ==> decoded[i] == Ok::<Edit, String>(#[trigger] edits[i])
        },
    decreases decoded.len(),
{
    if decoded.len() > 0 {
        let init = decoded.drop_last();
        assert forall|i: int| 0 <= i < init.len() implies (#[trigger] init[i]) is Ok by {
            assert(init[i] == decoded[i]);
        }
        lemma_gathered(init);
        assert(decoded.last() == decoded[decoded.len() - 1]);
        let edits = gathered(decoded)->Ok_0;
        assert forall|i: int| 0 <= i < edits.len() implies decoded[i] == Ok::<Edit, String>(
            #[trigger] edits[i],
        ) by {
            if i < init.len() {
                assert(init[i] == decoded[i]);
                assert(gathered(init)->Ok_0[i] == edits[i]);
            }
        }
    }
}

/// Each row is decoded by itself, in order: what came of the row at `k` is what the decoder gave for
/// its text. Rows are left out only behind one that is no edit.
pub proof fn law_each_row_is_decoded<F: Fn(&str) -> Result<Edit, String>>(
    decode: F,
    rows: Seq<Seq<char>>,
    decoded: Seq<Result<Edit, String>>,
    k: int,
)
    requires
        decoding(decode, rows, decoded),
    ensures
        decoded.len() <= rows.len(),
        0 <= k < decoded.len() ==> exists|r: &str|
            r@ == rows[k] && #[trigger] call_ensures(decode, (r,), decoded[k]),
        (forall|i: int| 0 <= i < decoded.len() ==> (#[trigger] decoded[i]) is Ok) ==> decoded.len() == rows.len(),
        forall|i: int| 0 <= i < decoded.len() && (#[trigger] decoded[i]) is Err ==> i == decoded.len() - 1,
{
    if 0 <= k < decoded.len() {
        assert(may_decode(decode, rows[k], decoded[k]));
    }
    if decoded.len() < rows.len() {
        assert(decoded[decoded.len() - 1] is Err);
    }
}

/// A request that cannot be decoded fails with its error, and any other does what its edits do.
pub proof fn law_request_does_what_its_edits_do(
    decoded: Seq<Result<Edit, String>>,
    content: Result<Seq<char>, Seq<char>>,
    fuzzy: bool,
)
    ensures
        gathered(decoded) matches Err(error) ==> applied_rows(decoded, content, fuzzy) == Some(
            Err::<Seq<char>, ErrorModel>(error),
        ),
        gathered(decoded) matches Ok(edits) ==> applied_rows(decoded, content, fuzzy) == applied(
            models(edits),
            content,
            fuzzy,
        ),
{
}

} // verus!
