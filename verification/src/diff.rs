//! The difference between two texts in the unified format.
use crate::text::same_text;
use vstd::hash_set::StringHashSet;
use vstd::prelude::*;
use vstd::utf8::{encode_utf8, encode_utf8_decode_utf8, encode_utf8_valid_utf8, valid_utf8};

verus! {

/// Whether `c` goes on with the last of `lines`: this one has no end yet, or a line feed follows the
/// carriage return that ends it.
pub open spec fn goes_on(lines: Seq<Seq<char>>, c: char) -> bool {
    &&& lines.len() > 0
    &&& {
        let last = lines.last().last();
        (last != '\n' && last != '\r') || (last == '\r' && c == '\n')
    }
}

/// The lines of `text` as they are compared, each with its end: a line feed, a carriage return, or
/// the two in this order.
pub open spec fn compared_lines(text: Seq<char>) -> Seq<Seq<char>>
    decreases text.len(),
{
    if text.len() == 0 {
        Seq::empty()
    } else {
        let before = compared_lines(text.drop_last());
        if goes_on(before, text.last()) {
            before.update(before.len() - 1, before.last().push(text.last()))
        } else {
            before.push(seq![text.last()])
        }
    }
}

/// Whether the different lines of the two texts can be numbered in 32 bits.
pub open spec fn is_diffable(old_text: Seq<char>, new_text: Seq<char>) -> bool {
    compared_lines(old_text).to_set().union(compared_lines(new_text).to_set()).len() <= u32::MAX
}

/// The two lines that name the two texts at the top of a difference.
pub open spec fn header(old_label: Seq<char>, new_label: Seq<char>) -> Seq<char> {
    seq!['-', '-', '-', ' '] + old_label + seq!['\n', '+', '+', '+', ' '] + new_label + seq!['\n']
}

/// The difference between two texts in the unified format, with `radius` lines of context and the
/// two labels at the top.
pub uninterp spec fn unified_diff_text(
    old_text: Seq<char>,
    new_text: Seq<char>,
    radius: usize,
    old_label: Seq<char>,
    new_label: Seq<char>,
) -> Seq<char>;

/// Whether `text` was written.
pub open spec fn writes(written: Result<Vec<u8>, String>, text: Seq<char>) -> bool {
    written matches Ok(bytes) && bytes@ == encode_utf8(text)
}

/// Whether `c` marks a line of a difference: the head of a group of changes, a line of both texts,
/// one of the old text alone, one of the new text alone, or a remark.
pub open spec fn is_mark(c: char) -> bool {
    c == '@' || c == ' ' || c == '-' || c == '+' || c == '\\'
}

/// Whether each line of `text` starts with a mark. A line starts at the start of the text and behind
/// each line feed, unless the text ends there.
pub open spec fn lines_are_marked(text: Seq<char>) -> bool {
    forall|i: int| 0 <= i < text.len() && (i == 0 || text[i - 1] == '\n') ==> is_mark(#[trigger] text[i])
}

/// Whether behind the character at `i` of `text` stands one of `lines`.
pub open spec fn shows_line(text: Seq<char>, i: int, lines: Seq<Seq<char>>) -> bool {
    exists|line: Seq<char>| #[trigger] lines.contains(line) && line.is_prefix_of(text.skip(i + 1))
}

/// Whether each line of `text` with the mark `-` or a space shows a line of the old text, and each
/// with the mark `+` or a space one of the new text.
pub open spec fn marks_are_right(text: Seq<char>, old_text: Seq<char>, new_text: Seq<char>) -> bool {
    forall|i: int|
        0 <= i < text.len() && (i == 0 || text[i - 1] == '\n') ==> {
            &&& #[trigger] text[i] == '-' || text[i] == ' ' ==> shows_line(text, i, compared_lines(old_text))
            &&& text[i] == '+' || text[i] == ' ' ==> shows_line(text, i, compared_lines(new_text))
        }
}

/// Whether a text was written that starts with `top`, with lines behind it that have the right
/// marks for what changed from the old text to the new one.
pub open spec fn writes_below(
    written: Result<Vec<u8>, String>,
    top: Seq<char>,
    old_text: Seq<char>,
    new_text: Seq<char>,
) -> bool {
    exists|rest: Seq<char>| #[trigger]
        writes(written, top + rest) && lines_are_marked(rest) && marks_are_right(rest, old_text, new_text)
}

/// `similar::TextDiff::from_lines` compares the two texts line by line, and
/// `similar::udiff::UnifiedDiff::to_writer` writes what differs, here into a vector of bytes, which
/// takes all that is written to it. The bytes are the UTF-8 form of a text that the arguments alone
/// determine: the one that `unified_diff_text` names. Where the texts differ it begins with the two
/// labels, and each line behind them starts with `@`, a space, `-`, `+` or a backslash. Behind `-`
/// stands a line of the old text, behind `+` one of the new text, and behind a space one of both,
/// where a line is a part of a text that a line feed, a carriage return or both end. Left out are
/// texts with more different lines than can be numbered in 32 bits, and a radius that cannot be
/// doubled.
#[verifier::external_body]
fn write_unified_diff(old_text: &str, new_text: &str, radius: usize, old_label: &str, new_label: &str) -> (written:
    Result<Vec<u8>, String>)
    requires
        is_diffable(old_text@, new_text@),
        radius <= usize::MAX / 2,
    ensures
        writes(written, unified_diff_text(old_text@, new_text@, radius, old_label@, new_label@)),
        old_text@ != new_text@ ==> writes_below(
            written,
            header(old_label@, new_label@),
            old_text@,
            new_text@,
        ),
{
    let text_diff = similar::TextDiff::from_lines(old_text, new_text);
    let mut unified = similar::udiff::UnifiedDiff::from_text_diff(&text_diff);
    unified.context_radius(radius);
    unified.header(old_label, new_label);
    let mut bytes: Vec<u8> = Vec::new();
    match unified.to_writer(&mut bytes) {
        Ok(_) => Ok(bytes),
        Err(error) => Err(error.to_string()),
    }
}

/// `String::from_utf8` gives the string of which `bytes` is the UTF-8 form, if there is one.
#[verifier::external_body]
fn string_from_utf8(bytes: Vec<u8>) -> (string: Option<String>)
    ensures
        string is Some <==> valid_utf8(bytes@),
        string matches Some(s) ==> encode_utf8(s@) == bytes@,
{
    String::from_utf8(bytes).ok()
}

/// The text of a difference, given what came of writing it: the text that was written, nothing
/// where that is no text, or a line that says what went wrong.
pub fn written_text(written: Result<Vec<u8>, String>) -> (text: String)
    ensures
        match written {
            Ok(bytes) => if valid_utf8(bytes@) {
                encode_utf8(text@) == bytes@
            } else {
                text@.len() == 0
            },
            Err(message) => text@ == "error formatting diff: "@ + message@,
        },
{
    match written {
        Ok(bytes) => match string_from_utf8(bytes) {
            Some(text) => text,
            None => String::new(),
        },
        Err(message) => "error formatting diff: ".to_owned().concat(message.as_str()),
    }
}

/// The number of lines of context that a difference shows.
pub const CONTEXT_RADIUS: usize = 3;

/// The label of the text before the change: none is there where it is empty.
pub open spec fn old_label(old_content: Seq<char>, path: Seq<char>) -> Seq<char> {
    if old_content.len() == 0 {
        "/dev/null"@
    } else {
        "a/"@ + path
    }
}

/// The label of the text after the change.
pub open spec fn new_label(path: Seq<char>) -> Seq<char> {
    "b/"@ + path
}

/// The difference that is shown for a change of the file at `path`.
pub open spec fn diff_text(old_content: Seq<char>, new_content: Seq<char>, path: Seq<char>) -> Seq<char> {
    if old_content == new_content {
        Seq::empty()
    } else {
        unified_diff_text(
            old_content,
            new_content,
            CONTEXT_RADIUS,
            old_label(old_content, path),
            new_label(path),
        )
    }
}

/// Computes the unified difference between two texts of the file at `path`: nothing where they are
/// equal, else a text that starts with `--- a/<path>`, or `--- /dev/null` where there was no text
/// before, and `+++ b/<path>`. Each line behind these two starts with a mark, and so do these two
/// where the path holds no line feed. Lines of the old text are marked with `-`, those of the new
/// text with `+`, and those of both with a space.
pub fn compute_diff(old_content: &str, new_content: &str, path: &str) -> (diff: String)
    requires
        old_content@ != new_content@ ==> is_diffable(old_content@, new_content@),
    ensures
        diff@ == diff_text(old_content@, new_content@, path@),
        old_content@ != new_content@ ==> {
            let top = header(old_label(old_content@, path@), new_label(path@));
            top.is_prefix_of(diff@) && lines_are_marked(diff@.skip(top.len() as int))
        },
        old_content@ != new_content@ ==> {
            let top = "--- "@ + (if old_content@.len() == 0 {
                "/dev/null"@
            } else {
                "a/"@ + path@
            }) + "\n+++ b/"@ + path@ + "\n"@;
            top.is_prefix_of(diff@) && marks_are_right(
                diff@.skip(top.len() as int),
                old_content@,
                new_content@,
            )
        },
        old_content@ != new_content@ ==> diff@ == unified_diff_text(
            old_content@,
            new_content@,
            3,
            (if old_content@.len() == 0 {
                "/dev/null"@
            } else {
                "a/"@ + path@
            }),
            "b/"@ + path@,
        ),
        !path@.contains('\n') ==> lines_are_marked(diff@),
        diff@.len() == 0 <==> old_content@ == new_content@,
{
    if same_text(old_content, new_content) {
        return String::new();
    }
    let old_name: String = if old_content.is_empty() {
        "/dev/null".to_owned()
    } else {
        "a/".to_owned().concat(path)
    };
    let new_name: String = "b/".to_owned().concat(path);
    let written: Result<Vec<u8>, String> = write_unified_diff(
        old_content,
        new_content,
        CONTEXT_RADIUS,
        old_name.as_str(),
        new_name.as_str(),
    );
    let diff: String = written_text(written);
    proof {
        let text = diff_text(old_content@, new_content@, path@);
        encode_utf8_valid_utf8(text);
        encode_utf8_decode_utf8(text);
        encode_utf8_decode_utf8(diff@);
        let top = header(old_name@, new_name@);
        law_header_has_two_lines(old_content@, path@);
        let rest = choose|rest: Seq<char>| #[trigger]
            writes(written, top + rest) && lines_are_marked(rest) && marks_are_right(
                rest,
                old_content@,
                new_content@,
            );
        encode_utf8_decode_utf8(top + rest);
        assert(diff@ == top + rest);
        assert(diff@.skip(top.len() as int) =~= rest);
        if !path@.contains('\n') {
            lemma_old_label(old_content@, path@);
            lemma_new_label(path@);
            lemma_marked_below_header(old_name@, new_name@, rest);
        }
    }
    diff
}

/// Where a path holds no line feed, the label of the text before the change holds none.
proof fn lemma_old_label(old_content: Seq<char>, path: Seq<char>)
    requires
        !path.contains('\n'),
    ensures
        !old_label(old_content, path).contains('\n'),
{
    reveal_strlit("/dev/null");
    reveal_strlit("a/");
    let label = old_label(old_content, path);
    if label.contains('\n') {
        let k = choose|k: int| 0 <= k < label.len() && label[k] == '\n';
        if old_content.len() > 0 && k >= 2 {
            assert(path[k - 2] == '\n');
        }
    }
}

/// Where a path holds no line feed, the label of the text after the change holds none.
proof fn lemma_new_label(path: Seq<char>)
    requires
        !path.contains('\n'),
    ensures
        !new_label(path).contains('\n'),
{
    reveal_strlit("b/");
    let label = new_label(path);
    if label.contains('\n') {
        let k = choose|k: int| 0 <= k < label.len() && label[k] == '\n';
        if k >= 2 {
            assert(path[k - 2] == '\n');
        }
    }
}

/// Marked lines below two labels without line feeds make a text of marked lines.
proof fn lemma_marked_below_header(old_name: Seq<char>, new_name: Seq<char>, rest: Seq<char>)
    requires
        !old_name.contains('\n'),
        !new_name.contains('\n'),
        lines_are_marked(rest),
    ensures
        lines_are_marked(header(old_name, new_name) + rest),
{
    let top = header(old_name, new_name);
    let text = top + rest;
    let a = old_name.len() as int;
    let b = new_name.len() as int;
    assert(top.len() == a + b + 10);
    assert forall|i: int| 0 <= i < text.len() && (i == 0 || text[i - 1] == '\n') implies is_mark(
        #[trigger] text[i],
    ) by {
        if i == 0 {
            assert(text[0] == '-');
        } else if i >= top.len() {
            assert(text[i] == rest[i - top.len()]);
            if i > top.len() {
                assert(text[i - 1] == rest[i - 1 - top.len()]);
            }
        } else {
            let k = i - 1;
            assert(text[k] == top[k]);
            if 4 <= k < 4 + a {
                assert(top[k] == old_name[k - 4]);
            } else if a + 9 <= k < a + 9 + b {
                assert(top[k] == new_name[k - a - 9]);
            } else if k == a + 4 {
                assert(text[i] == '+');
            }
        }
    }
}

/// Puts the lines of `text`, as they are compared, into `seen`.
fn collect_lines(seen: &mut StringHashSet, text: &str)
    ensures
        final(seen)@ == old(seen)@.union(compared_lines(text@).to_set()),
{
    let ghost known = seen@;
    let mut line: String = String::new();
    let mut last: char = '\n';
    assert(text@.take(0) =~= Seq::empty());
    assert(seen@ =~= known.union(compared_lines(text@.take(0)).to_set()));
    for c in it: text.chars()
        invariant
            it.seq() == text@,
            it.index() == 0 ==> compared_lines(text@.take(it.index() as int)).len() == 0 && line@.len() == 0
                && last == '\n' && seen@ == known,
            it.index() > 0 ==> {
                let lines = compared_lines(text@.take(it.index() as int));
                &&& lines.len() > 0
                &&& line@ == lines.last()
                &&& line@.len() > 0
                &&& line@.last() == last
                &&& seen@ == known.union(lines.drop_last().to_set())
            },
    {
        let ghost before = compared_lines(text@.take(it.index() as int));
        let ghost kept = seen@;
        let ghost done = line@;
        assert(text@.take(it.index() as int + 1).drop_last() =~= text@.take(it.index() as int));
        if (last != '\n' && last != '\r') || (last == '\r' && c == '\n') {
            line.push(c);
            assert(before.update(before.len() - 1, before.last().push(c)).drop_last() =~= before.drop_last());
        } else {
            if !line.as_str().is_empty() {
                seen.insert(line);
                proof {
                    assert(before =~= before.drop_last().push(done));
                    before.drop_last().lemma_push_to_set_commute(done);
                    assert(seen@ =~= known.union(before.to_set()));
                }
            } else {
                assert(before =~= Seq::empty());
                assert(seen@ =~= known.union(before.to_set()));
            }
            line = String::new();
            line.push(c);
            assert(before.push(seq![c]).drop_last() =~= before);
            assert(line@ =~= seq![c]);
        }
        last = c;
    }
    assert(text@.take(text@.len() as int) =~= text@);
    let ghost lines = compared_lines(text@);
    if !line.as_str().is_empty() {
        let ghost done = line@;
        seen.insert(line);
        proof {
            assert(lines =~= lines.drop_last().push(done));
            lines.drop_last().lemma_push_to_set_commute(done);
        }
    }
    assert(seen@ =~= known.union(lines.to_set()));
}

/// Tests whether the different lines of the two texts can be numbered in 32 bits.
pub fn can_diff(old_text: &str, new_text: &str) -> (res: bool)
    ensures
        res == is_diffable(old_text@, new_text@),
{
    let mut seen: StringHashSet = StringHashSet::new();
    collect_lines(&mut seen, old_text);
    collect_lines(&mut seen, new_text);
    assert(seen@ =~= compared_lines(old_text@).to_set().union(compared_lines(new_text@).to_set()));
    seen.len() <= 0xffff_ffff
}

/// The top of a difference: `---` and the label of the text before, `+++` and the label of the text
/// after, each in a line.
pub proof fn law_header_has_two_lines(old_content: Seq<char>, path: Seq<char>)
    ensures
        header(old_label(old_content, path), new_label(path)) == "--- "@ + (if old_content.len() == 0 {
            "/dev/null"@
        } else {
            "a/"@ + path
        }) + "\n+++ b/"@ + path + "\n"@,
{
    reveal_strlit("--- ");
    reveal_strlit("\n+++ b/");
    reveal_strlit("\n");
    reveal_strlit("b/");
    assert(header(old_label(old_content, path), new_label(path)) =~= "--- "@ + (if old_content.len() == 0 {
        "/dev/null"@
    } else {
        "a/"@ + path
    }) + "\n+++ b/"@ + path + "\n"@);
}

/// The difference that is shown for a change is that of the old text against the new one, in this
/// order, with three lines of context. Where nothing changes nothing is shown.
pub proof fn law_difference_is_of_the_old_text_against_the_new(
    old_content: Seq<char>,
    new_content: Seq<char>,
    path: Seq<char>,
)
    ensures
        old_content == new_content ==> diff_text(old_content, new_content, path).len() == 0,
        old_content != new_content ==> diff_text(old_content, new_content, path) == unified_diff_text(
            old_content,
            new_content,
            3,
            (if old_content.len() == 0 {
                "/dev/null"@
            } else {
                "a/"@ + path
            }),
            "b/"@ + path,
        ),
{
}

/// The lines of a text as they are compared, one after the other. Each keeps its end: a line feed, a
/// carriage return and a line feed, or a carriage return that no line feed follows.
pub proof fn law_compared_lines_one_by_one(line: Seq<char>, rest: Seq<char>)
    requires
        !line.contains('\n'),
        !line.contains('\r'),
    ensures
        compared_lines(line.push('\n') + rest) == seq![line.push('\n')] + compared_lines(rest),
        compared_lines(line.push('\r').push('\n') + rest) == seq![line.push('\r').push('\n')] + compared_lines(rest),
        !(rest.len() > 0 && rest[0] == '\n') ==> compared_lines(line.push('\r') + rest) == seq![line.push('\r')]
            + compared_lines(rest),
        line.len() > 0 ==> compared_lines(line) == seq![line],
        compared_lines(Seq::empty()).len() == 0,
{
    lemma_open_line(line);
    lemma_lines_behind(line.push('\n'), rest);
    lemma_lines_behind(line.push('\r').push('\n'), rest);
    lemma_lines_behind(line.push('\r'), rest);
    assert(line.push('\n').drop_last() =~= line);
    assert(line.push('\r').drop_last() =~= line);
    assert(line.push('\r').push('\n').drop_last() =~= line.push('\r'));
    if line.len() == 0 {
        assert(line =~= Seq::empty());
        assert(compared_lines(line) =~= Seq::empty());
        assert(line.push('\n') =~= seq!['\n']);
        assert(line.push('\r') =~= seq!['\r']);
    } else {
        assert(line.contains(line[line.len() - 1]));
    }
    assert(compared_lines(line.push('\n')) =~= seq![line.push('\n')]);
    assert(compared_lines(line.push('\r')) =~= seq![line.push('\r')]);
    assert(compared_lines(line.push('\r').push('\n')) =~= seq![line.push('\r').push('\n')]);
}

proof fn lemma_open_line(line: Seq<char>)
    requires
        !line.contains('\n'),
        !line.contains('\r'),
    ensures
        line.len() > 0 ==> compared_lines(line) == seq![line],
    decreases line.len(),
{
    if line.len() > 0 {
        let init = line.drop_last();
        assert forall|k: int| 0 <= k < init.len() implies init[k] != '\n' && init[k] != '\r' by {
            assert(line.contains(line[k]));
        }
        lemma_open_line(init);
        assert(init.push(line.last()) =~= line);
        if init.len() == 0 {
            assert(init =~= Seq::empty());
            assert(compared_lines(init) =~= Seq::empty());
            assert(seq![line.last()] =~= line);
            assert(compared_lines(line) =~= seq![line]);
        } else {
            assert(init.last() == init[init.len() - 1]);
            assert(compared_lines(line) =~= seq![line]);
        }
    }
}

/// Behind the end of a line a new one begins.
proof fn lemma_lines_behind(start: Seq<char>, rest: Seq<char>)
    requires
        start.len() > 0,
        start.last() == '\n' || start.last() == '\r',
    ensures
        start.last() == '\n' || !(rest.len() > 0 && rest[0] == '\n') ==> compared_lines(start + rest)
            == compared_lines(start) + compared_lines(rest),
    decreases rest.len(),
{
    lemma_lines_end(start);
    if start.last() == '\n' || !(rest.len() > 0 && rest[0] == '\n') {
        let text = start + rest;
        if rest.len() == 0 {
            assert(text =~= start);
            assert(compared_lines(text) =~= compared_lines(start) + compared_lines(rest));
        } else {
            let init = rest.drop_last();
            lemma_lines_behind(start, init);
            lemma_lines_end(init);
            assert(text.drop_last() =~= start + init);
            assert(text.last() == rest.last());
            let (a, b) = (compared_lines(start), compared_lines(init));
            if init.len() == 0 {
                assert(init =~= Seq::empty());
                assert(a + b =~= a);
                assert(rest[0] == rest.last());
            } else {
                assert((a + b).last() == b.last());
            }
            assert(compared_lines(text) =~= a + compared_lines(rest));
        }
    }
}

/// The last line of a text ends as the text does.
proof fn lemma_lines_end(text: Seq<char>)
    ensures
        text.len() > 0 ==> compared_lines(text).len() > 0 && compared_lines(text).last().len() > 0
            && compared_lines(text).last().last() == text.last(),
        compared_lines(text).len() <= text.len(),
    decreases text.len(),
{
    if text.len() > 0 {
        lemma_lines_end(text.drop_last());
    }
}

/// Any two texts with at most 4294967295 characters in all can be compared, and so can any two whose
/// lines are all among that many.
pub proof fn law_texts_can_be_compared(old_text: Seq<char>, new_text: Seq<char>, lines: Set<Seq<char>>)
    ensures
        old_text.len() + new_text.len() <= 0xffff_ffff ==> is_diffable(old_text, new_text),
        lines.finite() && lines.len() <= 0xffff_ffff && (forall|l: Seq<char>|
            compared_lines(old_text).contains(l) || compared_lines(new_text).contains(l) ==> #[trigger] lines.contains(
                l,
            )) ==> is_diffable(old_text, new_text),
{
    lemma_lines_end(old_text);
    lemma_lines_end(new_text);
    let (a, b) = (compared_lines(old_text), compared_lines(new_text));
    vstd::seq_lib::seq_to_set_is_finite(a);
    vstd::seq_lib::seq_to_set_is_finite(b);
    a.lemma_cardinality_of_set();
    b.lemma_cardinality_of_set();
    vstd::set_lib::lemma_len_union(a.to_set(), b.to_set());
    if lines.finite() && (forall|l: Seq<char>| a.contains(l) || b.contains(l) ==> #[trigger] lines.contains(l)) {
        assert(a.to_set().union(b.to_set()).subset_of(lines));
        vstd::set_lib::lemma_len_subset(a.to_set().union(b.to_set()), lines);
    }
}

} // verus!
