//! Reading: the part of a file that is shown, each line with its number and its anchor.
use crate::anchors::{anchorable, anchors_for, anchors_of, law_anchors_are_distinct, try_anchors_for};
use crate::batch::read_text;
use crate::edit::{first_position, lemma_first_position, lemma_is_first_position};
use crate::text::{lines_of, text_lines, texts};
use vstd::prelude::*;

verus! {

/// A line as it is shown.
#[derive(Debug)]
pub struct AnchoredLine {
    pub line: usize,
    pub anchor: String,
    pub text: String,
}

/// The number and the texts of a line as it is shown.
pub struct AnchoredLineModel {
    pub line: nat,
    pub anchor: Seq<char>,
    pub text: Seq<char>,
}

impl View for AnchoredLine {
    type V = AnchoredLineModel;

    open spec fn view(&self) -> AnchoredLineModel {
        AnchoredLineModel { line: self.line as nat, anchor: self.anchor@, text: self.text@ }
    }
}

/// The smaller of two numbers.
pub open spec fn smaller(a: int, b: int) -> int {
    if a < b {
        a
    } else {
        b
    }
}

/// The text in an optional slice.
pub open spec fn slice_text(text: Option<&str>) -> Option<Seq<char>> {
    match text {
        Some(t) => Some(t@),
        None => None,
    }
}

/// The index of the first line that is shown: the one behind the line that `after` names, or the
/// line with the number `offset`, or the last line where there are fewer, or the first line.
pub open spec fn window_start(
    anchors: Seq<Seq<char>>,
    after: Option<Seq<char>>,
    offset: Option<usize>,
) -> Result<nat, Seq<char>> {
    match (after, offset) {
        (Some(anchor), _) => match first_position(anchors, anchor) {
            Some(i) => Ok(i + 1),
            None => Err("anchor_invalid"@),
        },
        (None, Some(number)) => if number < 1 {
            Err("--offset must be >= 1"@)
        } else if anchors.len() == 0 {
            Ok(0)
        } else {
            Ok(smaller(number - 1, anchors.len() - 1) as nat)
        },
        (None, None) => Ok(0),
    }
}

/// The lines from the index `start` on, at most `limit` of them, as they are shown.
pub open spec fn shown(
    lines: Seq<Seq<char>>,
    anchors: Seq<Seq<char>>,
    start: nat,
    limit: nat,
) -> Seq<AnchoredLineModel> {
    let end = smaller((start + limit) as int, lines.len() as int);
    Seq::new(
        (if start < end { end - start } else { 0 }) as nat,
        |k: int| AnchoredLineModel {
            line: (start + k + 1) as nat,
            anchor: anchors[start + k],
            text: lines[start + k],
        },
    )
}

/// What a request to read shows of the lines, or the message with which it is refused.
pub open spec fn windowed(
    lines: Seq<Seq<char>>,
    after: Option<Seq<char>>,
    offset: Option<usize>,
    limit: nat,
) -> Result<Seq<AnchoredLineModel>, Seq<char>> {
    match window_start(anchors_of(lines), after, offset) {
        Ok(start) => Ok(shown(lines, anchors_of(lines), start, limit)),
        Err(message) => Err(message),
    }
}

/// The numbers and texts in a list of lines as they are shown.
pub open spec fn rows_shown(rows: Seq<AnchoredLine>) -> Seq<AnchoredLineModel> {
    Seq::new(rows.len(), |i: int| rows[i]@)
}

/// Returned lines, or a returned message, with texts for strings.
pub open spec fn window_outcome(result: Result<Vec<AnchoredLine>, String>) -> Result<
    Seq<AnchoredLineModel>,
    Seq<char>,
> {
    match result {
        Ok(rows) => Ok(rows_shown(rows@)),
        Err(message) => Err(message@),
    }
}

/// A returned index as a number, or the text of a returned message.
pub open spec fn start_outcome(result: Result<usize, String>) -> Result<nat, Seq<char>> {
    match result {
        Ok(start) => Ok(start as nat),
        Err(message) => Err(message@),
    }
}

/// Finds the first line that is shown.
fn find_start(anchors: &[String], after: Option<&str>, offset: Option<usize>) -> (start: Result<usize, String>)
    ensures
        start_outcome(start) == window_start(texts(anchors@), slice_text(after), offset),
        start matches Ok(s) ==> s <= anchors@.len(),
{
    let ghost all = texts(anchors@);
    assert(all.len() == anchors@.len());
    match (after, offset) {
        (Some(anchor), _) => {
            let wanted: String = anchor.to_owned();
            let mut i: usize = 0;
            while i < anchors.len()
                invariant
                    i <= anchors@.len(),
                    all == texts(anchors@),
                    wanted@ == anchor@,
                    after == Some(anchor),
                    forall|j: int| 0 <= j < i ==> all[j] != anchor@,
                decreases anchors@.len() - i,
            {
                if anchors[i] == wanted {
                    proof {
                        assert(all[i as int] == anchor@);
                        lemma_is_first_position(all, i as int);
                    }
                    return Ok(i + 1);
                }
                i += 1;
            }
            proof {
                lemma_first_position(all, anchor@);
            }
            Err("anchor_invalid".to_owned())
        },
        (None, Some(number)) => if number < 1 {
            Err("--offset must be >= 1".to_owned())
        } else if anchors.len() == 0 {
            Ok(0)
        } else if number - 1 < anchors.len() - 1 {
            Ok(number - 1)
        } else {
            Ok(anchors.len() - 1)
        },
        (None, None) => Ok(0),
    }
}

/// The lines that a request to read shows: those behind the line that the anchor `after` names, or
/// those from the number `offset` on, or those from the first on, at most `limit` of them.
pub fn window(lines: &[String], after: Option<&str>, offset: Option<usize>, limit: usize) -> (result: Result<
    Vec<AnchoredLine>,
    String,
>)
    requires
        anchorable(texts(lines@)),
        after is None || offset is None,
        window_start(anchors_of(texts(lines@)), slice_text(after), offset) matches Ok(start) ==> start + limit
            <= usize::MAX,
    ensures
        window_outcome(result) == windowed(texts(lines@), slice_text(after), offset, limit as nat),
{
    let anchors: Vec<String> = anchors_for(lines);
    let ghost all = texts(lines@);
    proof {
        law_anchors_are_distinct(all);
        assert(all.len() == lines@.len());
        assert(texts(anchors@).len() == anchors@.len());
    }
    let start: usize = match find_start(anchors.as_slice(), after, offset) {
        Ok(start) => start,
        Err(message) => return Err(message),
    };
    let end: usize = if start + limit < lines.len() {
        start + limit
    } else {
        lines.len()
    };
    let ghost expected = shown(all, texts(anchors@), start as nat, limit as nat);
    let mut rows: Vec<AnchoredLine> = Vec::new();
    let mut index: usize = start;
    assert(rows_shown(rows@) =~= expected.take(0));
    while index < end
        invariant
            start <= index <= end,
            end <= lines@.len(),
            lines@.len() == anchors@.len(),
            end == smaller(start + limit, lines@.len() as int),
            all == texts(lines@),
            expected == shown(all, texts(anchors@), start as nat, limit as nat),
            rows_shown(rows@) == expected.take(index - start),
        decreases end - index,
    {
        let ghost before = rows_shown(rows@);
        assert(index < lines.len());
        rows.push(AnchoredLine { line: index + 1, anchor: anchors[index].clone(), text: lines[index].clone() });
        assert(rows_shown(rows@) =~= before.push(expected[index - start]));
        index += 1;
        assert(rows_shown(rows@) =~= expected.take(index - start));
    }
    assert(expected.take(end - start) =~= expected);
    Ok(rows)
}

/// What a request to read gives, given what came of reading the file. `None` where the lines
/// cannot each get an anchor, or where `limit` lines from the first shown on would be more than can
/// be counted.
pub open spec fn read_reply(
    content: Result<Seq<char>, Seq<char>>,
    after: Option<Seq<char>>,
    offset: Option<usize>,
    limit: usize,
) -> Option<Result<Seq<AnchoredLineModel>, Seq<char>>> {
    if after is Some && offset is Some {
        Some(
            Err(
                "--after and --offset are mutually exclusive. Use --after for anchor-based windowing, --offset for line-number-based windowing."@,
            ),
        )
    } else {
        match content {
            Err(message) => Some(Err(message)),
            Ok(text) => {
                let lines = lines_of(text);
                if !anchorable(lines) {
                    None
                } else {
                    match window_start(anchors_of(lines), after, offset) {
                        Ok(start) => if start + limit <= usize::MAX {
                            Some(windowed(lines, after, offset, limit as nat))
                        } else {
                            None
                        },
                        Err(message) => Some(Err(message)),
                    }
                }
            },
        }
    }
}

/// What is returned to a request to read, with texts for strings.
pub open spec fn read_outcome(result: Option<Result<Vec<AnchoredLine>, String>>) -> Option<
    Result<Seq<AnchoredLineModel>, Seq<char>>,
> {
    match result {
        Some(r) => Some(window_outcome(r)),
        None => None,
    }
}

/// Answers a request to read, given what came of reading the file. `None` where the lines cannot
/// each get an anchor, or where `limit` lines from the first shown on would be more than can be
/// counted.
pub fn read_command(
    content: Result<String, String>,
    after: Option<&str>,
    offset: Option<usize>,
    limit: usize,
) -> (result: Option<Result<Vec<AnchoredLine>, String>>)
    ensures
        read_outcome(result) == read_reply(read_text(content), slice_text(after), offset, limit),
{
    if after.is_some() && offset.is_some() {
        return Some(
            Err(
                "--after and --offset are mutually exclusive. Use --after for anchor-based windowing, --offset for line-number-based windowing.".to_owned(),
            ),
        );
    }
    let text: String = match content {
        Ok(text) => text,
        Err(message) => return Some(Err(message)),
    };
    let lines: Vec<String> = text_lines(text.as_str());
    let anchors: Vec<String> = match try_anchors_for(lines.as_slice()) {
        Some(anchors) => anchors,
        None => return None,
    };
    match find_start(anchors.as_slice(), after, offset) {
        Ok(start) => if limit <= usize::MAX - start {
            Some(window(lines.as_slice(), after, offset, limit))
        } else {
            None
        },
        Err(message) => Some(Err(message)),
    }
}

/// A line that is shown is seen by its number and the texts in its fields, and so is what functions
/// return here.
pub proof fn law_shown_line_is_seen_by_its_fields(row: AnchoredLine, rows: Vec<AnchoredLine>, message: String, text: &str)
    ensures
        row@.line == row.line,
        row@.anchor == row.anchor@,
        row@.text == row.text@,
        window_outcome(Err(message)) == Err::<Seq<AnchoredLineModel>, Seq<char>>(message@),
        window_outcome(Ok(rows)) matches Ok(seen) && {
            &&& seen.len() == rows@.len()
            &&& forall|i: int| 0 <= i < rows@.len() ==> #[trigger] seen[i] == rows@[i]@
        },
        read_outcome(None) is None,
        read_outcome(Some(Ok(rows))) == Some(window_outcome(Ok(rows))),
        read_outcome(Some(Err(message))) == Some(window_outcome(Err(message))),
        slice_text(Some(text)) == Some(text@),
        slice_text(None) is None,
{
}

/// Whether `rows` shows the lines from the one with the number `first` on, as many as there are, but
/// at most `limit`: each with its number, its anchor and its text.
pub open spec fn shows_from(lines: Seq<Seq<char>>, rows: Seq<AnchoredLineModel>, first: nat, limit: nat) -> bool {
    &&& rows.len() <= limit
    &&& rows.len() < limit ==> rows.len() + first == lines.len() + 1
    &&& rows.len() + first <= lines.len() + 1
    &&& forall|k: int|
        0 <= k < rows.len() ==> {
            &&& (#[trigger] rows[k]).line == first + k
            &&& rows[k].text == lines[first + k - 1]
            &&& rows[k].anchor == anchors_of(lines)[first + k - 1]
        }
}

/// Reading from the line with the number `n` shows this line and those below it, at most `limit` of
/// them. Where there is no line with this number it shows the last one.
pub proof fn law_reading_starts_at_the_number(lines: Seq<Seq<char>>, n: usize, limit: nat)
    requires
        anchorable(lines),
        lines.len() > 0,
        n >= 1,
    ensures
        windowed(lines, None, Some(n), limit) matches Ok(rows) && {
            &&& n <= lines.len() ==> shows_from(lines, rows, n as nat, limit)
            &&& n > lines.len() ==> shows_from(lines, rows, lines.len(), limit)
        },
{
    law_anchors_are_distinct(lines);
}

/// Reading behind an anchor shows the lines below the one that has it, at most `limit` of them.
pub proof fn law_reading_starts_behind_the_anchor(lines: Seq<Seq<char>>, i: int, limit: nat)
    requires
        anchorable(lines),
        0 <= i < lines.len(),
    ensures
        windowed(lines, Some(anchors_of(lines)[i]), None, limit) matches Ok(rows) && shows_from(
            lines,
            rows,
            (i + 2) as nat,
            limit,
        ),
{
    law_anchors_are_distinct(lines);
    lemma_is_first_position(anchors_of(lines), i);
}

/// Reading without a place to start at shows the lines from the first one on, at most `limit` of
/// them.
pub proof fn law_reading_starts_at_the_top(lines: Seq<Seq<char>>, limit: nat)
    ensures
        windowed(lines, None, None, limit) matches Ok(rows) && shows_from(lines, rows, 1, limit),
{
}

/// Reading is refused where no line has the anchor and where the number is zero. Of a file without
/// lines it shows nothing.
pub proof fn law_reading_is_refused(lines: Seq<Seq<char>>, anchor: Seq<char>, n: usize, limit: nat)
    requires
        anchorable(lines),
    ensures
        !anchors_of(lines).contains(anchor) ==> windowed(lines, Some(anchor), None, limit) == Err::<
            Seq<AnchoredLineModel>,
            Seq<char>,
        >("anchor_invalid"@),
        windowed(lines, None, Some(0), limit) == Err::<Seq<AnchoredLineModel>, Seq<char>>(
            "--offset must be >= 1"@,
        ),
        lines.len() == 0 && n >= 1 ==> (windowed(lines, None, Some(n), limit) matches Ok(rows) && rows.len() == 0),
{
    law_anchors_are_distinct(lines);
    lemma_first_position(anchors_of(lines), anchor);
    if let Some(i) = first_position(anchors_of(lines), anchor) {
        assert(anchors_of(lines).contains(anchors_of(lines)[i as int]));
    }
}

/// The answer to a request to read is what is to be read of the lines of the file. It is refused
/// where the request gives an anchor and a number, and where the file could not be read. There is no
/// answer only where the lines cannot each get an anchor or more lines are asked for than can be
/// counted.
pub proof fn law_reading_shows_the_lines_of_the_file(
    text: Seq<char>,
    message: Seq<char>,
    after: Option<Seq<char>>,
    offset: Option<usize>,
    limit: usize,
)
    ensures
        after is Some && offset is Some ==> read_reply(Ok(text), after, offset, limit) == Some(
            Err::<Seq<AnchoredLineModel>, Seq<char>>(
                "--after and --offset are mutually exclusive. Use --after for anchor-based windowing, --offset for line-number-based windowing."@,
            ),
        ) && read_reply(Err(message), after, offset, limit) == read_reply(Ok(text), after, offset, limit),
        !(after is Some && offset is Some) ==> {
            let lines = lines_of(text);
            &&& read_reply(Err(message), after, offset, limit) == Some(
                Err::<Seq<AnchoredLineModel>, Seq<char>>(message),
            )
            &&& !anchorable(lines) ==> read_reply(Ok(text), after, offset, limit) is None
            &&& anchorable(lines) && limit + lines.len() <= usize::MAX ==> read_reply(
                Ok(text),
                after,
                offset,
                limit,
            ) == Some(windowed(lines, after, offset, limit as nat))
            &&& read_reply(Ok(text), after, offset, limit) matches Some(reply) ==> reply == windowed(
                lines,
                after,
                offset,
                limit as nat,
            )
            &&& anchorable(lines) && windowed(lines, after, offset, limit as nat) is Err ==> read_reply(
                Ok(text),
                after,
                offset,
                limit,
            ) is Some
        },
{
    let lines = lines_of(text);
    if anchorable(lines) {
        law_anchors_are_distinct(lines);
        if let Some(anchor) = after {
            lemma_first_position(anchors_of(lines), anchor);
        }
    }
}

} // verus!
