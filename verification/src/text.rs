//! Text as sequences of characters: lines, separators, white space and numbers.
use vstd::prelude::*;

verus! {

/// The texts that a list of strings holds.
pub open spec fn texts(strings: Seq<String>) -> Seq<Seq<char>> {
    Seq::new(strings.len(), |i: int| strings[i]@)
}

/// Appending a character to a string, as `String::push` does.
pub assume_specification[ String::push ](string: &mut String, ch: char)
    ensures
        final(string)@ == old(string)@.push(ch),
;

/// The pieces of `text` between the occurrences of `sep`: one more than `sep` occurs.
pub open spec fn split_at_each(text: Seq<char>, sep: char) -> Seq<Seq<char>>
    decreases text.len(),
{
    if text.len() == 0 {
        seq![Seq::empty()]
    } else {
        let before = split_at_each(text.drop_last(), sep);
        if text.last() == sep {
            before.push(Seq::empty())
        } else {
            before.update(before.len() - 1, before.last().push(text.last()))
        }
    }
}

/// Splits `text` at each line feed, keeping every other character.
pub fn split_newlines(text: &str) -> (pieces: Vec<String>)
    ensures
        texts(pieces@) == split_at_each(text@, '\n'),
{
    let mut pieces: Vec<String> = Vec::new();
    let mut piece: String = String::new();
    assert(texts(pieces@).push(piece@) =~= split_at_each(text@.take(0), '\n'));
    for c in it: text.chars()
        invariant
            it.seq() == text@,
            texts(pieces@).push(piece@) == split_at_each(text@.take(it.index() as int), '\n'),
    {
        let ghost before = texts(pieces@).push(piece@);
        assert(text@.take(it.index() as int + 1).drop_last() =~= text@.take(it.index() as int));
        if c == '\n' {
            pieces.push(piece);
            piece = String::new();
            assert(texts(pieces@) =~= before);
        } else {
            piece.push(c);
            assert(texts(pieces@).push(piece@) =~= before.update(before.len() - 1, before.last().push(c)));
        }
    }
    assert(text@.take(text@.len() as int) =~= text@);
    let ghost before = texts(pieces@).push(piece@);
    pieces.push(piece);
    assert(texts(pieces@) =~= before);
    pieces
}

/// The text made of `lines`: every two neighbours are separated by one line feed.
pub open spec fn joined(lines: Seq<Seq<char>>) -> Seq<char>
    decreases lines.len(),
{
    if lines.len() == 0 {
        Seq::empty()
    } else if lines.len() == 1 {
        lines[0]
    } else {
        joined(lines.drop_last()).push('\n') + lines.last()
    }
}

/// Puts a line feed between every two neighbouring lines.
pub fn join_lines(lines: &[String]) -> (text: String)
    ensures
        text@ == joined(texts(lines@)),
{
    let mut text: String = String::new();
    let mut i: usize = 0;
    assert(texts(lines@).take(0) =~= Seq::empty());
    while i < lines.len()
        invariant
            i <= lines@.len(),
            text@ == joined(texts(lines@).take(i as int)),
        decreases lines@.len() - i,
    {
        assert(texts(lines@).take(i as int + 1).drop_last() =~= texts(lines@).take(i as int));
        if i > 0 {
            text.push('\n');
        }
        text.append(lines[i].as_str());
        proof {
            if i == 0 {
                assert(text@ =~= texts(lines@).take(1)[0]);
            }
        }
        i += 1;
    }
    assert(texts(lines@).take(i as int) =~= texts(lines@));
    text
}

/// `line` without the carriage return that may end it.
pub open spec fn without_cr(line: Seq<char>) -> Seq<char> {
    if line.len() > 0 && line.last() == '\r' {
        line.drop_last()
    } else {
        line
    }
}

/// The lines of `text`. A line ends at a line feed, which a carriage return may precede; neither
/// belongs to the line. Text behind the last line feed is a line as it stands, unless it is empty.
pub open spec fn lines_of(text: Seq<char>) -> Seq<Seq<char>> {
    let pieces = split_at_each(text, '\n');
    let ended = Seq::new((pieces.len() - 1) as nat, |i: int| without_cr(pieces[i]));
    if pieces.last().len() == 0 {
        ended
    } else {
        ended.push(pieces.last())
    }
}

/// Removes the carriage return that may end `line`.
fn strip_cr(line: &str) -> (stripped: String)
    ensures
        stripped@ == without_cr(line@),
{
    let n: usize = line.unicode_len();
    if n > 0 && line.get_char(n - 1) == '\r' {
        assert(line@.subrange(0, n - 1) =~= line@.drop_last());
        line.substring_char(0, n - 1).to_owned()
    } else {
        line.to_owned()
    }
}

/// Splits `text` into its lines.
pub fn text_lines(text: &str) -> (lines: Vec<String>)
    ensures
        texts(lines@) == lines_of(text@),
{
    let pieces: Vec<String> = split_newlines(text);
    proof {
        lemma_split_nonempty(text@, '\n');
    }
    let last: usize = pieces.len() - 1;
    let ghost ended = Seq::new(last as nat, |i: int| without_cr(texts(pieces@)[i]));
    let mut lines: Vec<String> = Vec::new();
    let mut i: usize = 0;
    while i < last
        invariant
            i <= last,
            last == pieces@.len() - 1,
            ended == Seq::new(last as nat, |i: int| without_cr(texts(pieces@)[i])),
            texts(lines@) == ended.take(i as int),
        decreases last - i,
    {
        let ghost before = texts(lines@);
        lines.push(strip_cr(pieces[i].as_str()));
        assert(texts(lines@) =~= before.push(ended[i as int]));
        i += 1;
        assert(texts(lines@) =~= ended.take(i as int));
    }
    assert(ended.take(last as int) =~= ended);
    if !pieces[last].as_str().is_empty() {
        lines.push(pieces[last].clone());
        assert(texts(lines@) =~= ended.push(texts(pieces@).last()));
    }
    lines
}

/// Splitting gives at least one piece.
pub proof fn lemma_split_nonempty(text: Seq<char>, sep: char)
    ensures
        split_at_each(text, sep).len() >= 1,
    decreases text.len(),
{
    if text.len() > 0 {
        lemma_split_nonempty(text.drop_last(), sep);
    }
}

/// Joining the pieces between the line feeds of a text gives back the text, and no piece holds a
/// line feed.
pub proof fn law_joining_undoes_splitting(text: Seq<char>)
    ensures
        joined(split_at_each(text, '\n')) == text,
        forall|i: int|
            0 <= i < split_at_each(text, '\n').len() ==> !(#[trigger] split_at_each(text, '\n')[i]).contains('\n'),
    decreases text.len(),
{
    let pieces = split_at_each(text, '\n');
    if text.len() == 0 {
        assert(pieces[0] =~= text);
    } else {
        let init = text.drop_last();
        let before = split_at_each(init, '\n');
        law_joining_undoes_splitting(init);
        lemma_split_nonempty(init, '\n');
        if text.last() == '\n' {
            assert(pieces.drop_last() =~= before);
            assert(joined(pieces) =~= text);
        } else {
            assert(pieces.drop_last() =~= before.drop_last());
            assert(pieces.last() == before.last().push(text.last()));
            if before.len() == 1 {
                assert(joined(pieces) =~= joined(before).push(text.last()));
            } else {
                let head = joined(before.drop_last()).push('\n');
                assert(joined(before) == head + before.last());
                assert(joined(pieces) == head + pieces.last());
                assert(joined(pieces) =~= joined(before).push(text.last()));
            }
            assert(joined(pieces) =~= text);
            assert forall|i: int| 0 <= i < pieces.len() implies !(#[trigger] pieces[i]).contains('\n') by {
                if i == pieces.len() - 1 {
                    let old_last = before[before.len() - 1];
                    assert(pieces[i] == old_last.push(text.last()));
                    if pieces[i].contains('\n') {
                        let k = choose|k: int| 0 <= k < pieces[i].len() && pieces[i][k] == '\n';
                        assert(k < old_last.len() && old_last[k] == '\n');
                    }
                } else {
                    assert(pieces[i] == before[i]);
                }
            }
        }
    }
}

/// Where a line feed ends a text, the last piece is empty, and the others, joined and ended by a
/// line feed, give back the text.
pub proof fn law_joining_undoes_splitting_of_ended_text(text: Seq<char>)
    requires
        ends_line(text),
    ensures
        split_at_each(text, '\n').len() >= 2,
        split_at_each(text, '\n').last().len() == 0,
        joined(split_at_each(text, '\n').drop_last()).push('\n') == text,
{
    law_joining_undoes_splitting(text);
    lemma_split_nonempty(text.drop_last(), '\n');
    let pieces = split_at_each(text, '\n');
    assert(joined(pieces) == joined(pieces.drop_last()).push('\n') + pieces.last());
    assert(joined(pieces.drop_last()).push('\n') =~= text);
}

/// Splitting the lines that were joined gives them back, where none of them holds a line feed.
pub proof fn law_splitting_undoes_joining(lines: Seq<Seq<char>>)
    requires
        lines.len() > 0,
        forall|i: int| 0 <= i < lines.len() ==> !(#[trigger] lines[i]).contains('\n'),
    ensures
        split_at_each(joined(lines), '\n') == lines,
    decreases lines.len(),
{
    if lines.len() == 1 {
        lemma_split_appended(Seq::empty(), lines[0]);
        assert(Seq::<char>::empty() + lines[0] =~= lines[0]);
        assert(split_at_each(joined(lines), '\n') =~= lines);
    } else {
        let init = lines.drop_last();
        assert forall|i: int| 0 <= i < init.len() implies !(#[trigger] init[i]).contains('\n') by {
            assert(init[i] == lines[i]);
        }
        law_splitting_undoes_joining(init);
        let start = joined(init).push('\n');
        assert(start.drop_last() =~= joined(init));
        assert(lines.last() == lines[lines.len() - 1]);
        lemma_split_appended(start, lines.last());
        assert(split_at_each(joined(lines), '\n') =~= lines);
    }
}

/// Characters that are no line feeds lengthen the last piece.
proof fn lemma_split_appended(start: Seq<char>, more: Seq<char>)
    requires
        !more.contains('\n'),
    ensures
        split_at_each(start + more, '\n') == split_at_each(start, '\n').update(
            split_at_each(start, '\n').len() - 1,
            split_at_each(start, '\n').last() + more,
        ),
    decreases more.len(),
{
    let pieces = split_at_each(start, '\n');
    lemma_split_nonempty(start, '\n');
    if more.len() == 0 {
        assert(start + more =~= start);
        assert(pieces.last() + more =~= pieces.last());
        assert(pieces.update(pieces.len() - 1, pieces.last() + more) =~= pieces);
    } else {
        let init = more.drop_last();
        assert(!init.contains('\n')) by {
            if init.contains('\n') {
                let k = choose|k: int| 0 <= k < init.len() && init[k] == '\n';
                assert(more[k] == '\n');
            }
        }
        lemma_split_appended(start, init);
        assert((start + more).drop_last() =~= start + init);
        assert(more.contains(more[more.len() - 1]));
        assert((pieces.last() + init).push(more.last()) =~= pieces.last() + more);
        assert(split_at_each(start + more, '\n') =~= pieces.update(pieces.len() - 1, pieces.last() + more));
    }
}

/// Whether `text` ends with a line feed.
pub open spec fn ends_line(text: Seq<char>) -> bool {
    text.len() > 0 && text.last() == '\n'
}

/// Tests whether `text` ends with a line feed.
pub fn ends_with_newline(text: &str) -> (res: bool)
    ensures
        res == ends_line(text@),
{
    let n: usize = text.unicode_len();
    n > 0 && text.get_char(n - 1) == '\n'
}

/// Compares two texts.
pub fn same_text(a: &str, b: &str) -> (same: bool)
    ensures
        same == (a@ == b@),
{
    a.to_owned() == b.to_owned()
}

/// The characters with the Unicode property White_Space.
pub open spec fn white_space(c: char) -> bool {
    ||| '\u{9}' <= c <= '\u{d}'
    ||| c == ' '
    ||| c == '\u{85}'
    ||| c == '\u{a0}'
    ||| c == '\u{1680}'
    ||| '\u{2000}' <= c <= '\u{200a}'
    ||| '\u{2028}' <= c <= '\u{2029}'
    ||| c == '\u{202f}'
    ||| c == '\u{205f}'
    ||| c == '\u{3000}'
}

/// Tests whether `c` is white space.
pub fn is_white_space(c: char) -> (res: bool)
    ensures
        res == white_space(c),
{
    ('\u{9}' <= c && c <= '\u{d}') || c == ' ' || c == '\u{85}' || c == '\u{a0}' || c == '\u{1680}' || (
    '\u{2000}' <= c && c <= '\u{200a}') || c == '\u{2028}' || c == '\u{2029}' || c == '\u{202f}' || c
        == '\u{205f}' || c == '\u{3000}'
}

/// `text` without the white space at its start.
pub open spec fn trimmed_start(text: Seq<char>) -> Seq<char>
    decreases text.len(),
{
    if text.len() > 0 && white_space(text.first()) {
        trimmed_start(text.drop_first())
    } else {
        text
    }
}

/// `text` without the white space at its end.
pub open spec fn trimmed_end(text: Seq<char>) -> Seq<char>
    decreases text.len(),
{
    if text.len() > 0 && white_space(text.last()) {
        trimmed_end(text.drop_last())
    } else {
        text
    }
}

/// `text` without the white space at its two ends.
pub open spec fn trimmed(text: Seq<char>) -> Seq<char> {
    trimmed_end(trimmed_start(text))
}

/// White space at the end of a text does not count where the text is trimmed.
pub proof fn lemma_trim_ignores_end(text: Seq<char>, c: char)
    requires
        white_space(c),
    ensures
        trimmed(text.push(c)) == trimmed(text),
{
    lemma_trim_start_of_longer(text, c);
    if trimmed_start(text).len() > 0 {
        assert(trimmed_start(text).push(c).drop_last() =~= trimmed_start(text));
    }
}

proof fn lemma_trim_start_of_longer(text: Seq<char>, c: char)
    requires
        white_space(c),
    ensures
        trimmed_start(text).len() > 0 ==> trimmed_start(text.push(c)) == trimmed_start(text).push(c),
        trimmed_start(text).len() == 0 ==> trimmed_start(text) == trimmed_start(text.push(c)),
    decreases text.len(),
{
    if text.len() == 0 {
        assert(text.push(c).drop_first() =~= text);
    } else if white_space(text.first()) {
        assert(text.push(c).drop_first() =~= text.drop_first().push(c));
        lemma_trim_start_of_longer(text.drop_first(), c);
    }
}

/// `str::trim` removes the leading and the trailing characters that have the Unicode property
/// White_Space, and no others.
pub assume_specification[ str::trim ](text: &str) -> (res: &str)
    ensures
        res@ == trimmed(text@),
;

/// The digit of value `d` in base sixteen, in lower case.
pub open spec fn digit(d: int) -> char {
    "0123456789abcdef"@[d]
}

/// The digit of value `d`.
pub fn digit_char(d: usize) -> (c: char)
    requires
        d < 16,
    ensures
        c == digit(d as int),
{
    proof {
        reveal_strlit("0123456789abcdef");
    }
    "0123456789abcdef".get_char(d)
}

/// `n` in decimal, without leading zeros.
pub open spec fn decimal(n: nat) -> Seq<char>
    decreases n,
{
    if n < 10 {
        seq![digit(n as int)]
    } else {
        decimal(n / 10).push(digit((n % 10) as int))
    }
}

/// Appends `n` in decimal.
pub fn push_decimal(out: &mut String, n: usize)
    ensures
        final(out)@ == old(out)@ + decimal(n as nat),
    decreases n,
{
    if n >= 10 {
        push_decimal(out, n / 10);
    }
    out.push(digit_char(n % 10));
    assert(out@ =~= old(out)@ + decimal(n as nat));
}

/// The texts of a list of strings are those of its strings, in their order.
pub proof fn law_texts_are_those_of_the_strings(strings: Seq<String>)
    ensures
        texts(strings).len() == strings.len(),
        forall|i: int| 0 <= i < strings.len() ==> #[trigger] texts(strings)[i] == strings[i]@,
{
}

/// A separator parts a text: its pieces are those to the left of the separator and then those to
/// its right. A text without the separator is a single piece.
pub proof fn law_separator_parts_a_text(left: Seq<char>, sep: char, right: Seq<char>)
    ensures
        split_at_each(left.push(sep) + right, sep) == split_at_each(left, sep) + split_at_each(right, sep),
        !left.contains(sep) ==> split_at_each(left, sep) == seq![left],
    decreases right.len(),
{
    lemma_single_piece(left, sep);
    let text = left.push(sep) + right;
    lemma_split_nonempty(left, sep);
    if right.len() == 0 {
        assert(text =~= left.push(sep));
        assert(text.drop_last() =~= left);
        assert(split_at_each(text, sep) =~= split_at_each(left, sep) + split_at_each(right, sep));
    } else {
        let init = right.drop_last();
        law_separator_parts_a_text(left, sep, init);
        lemma_split_nonempty(init, sep);
        assert(text.drop_last() =~= left.push(sep) + init);
        assert(text.last() == right.last());
        let (a, b) = (split_at_each(left, sep), split_at_each(init, sep));
        assert((a + b).last() == b.last());
        assert(split_at_each(text, sep) =~= a + split_at_each(right, sep));
    }
}

proof fn lemma_single_piece(text: Seq<char>, sep: char)
    ensures
        !text.contains(sep) ==> split_at_each(text, sep) == seq![text],
    decreases text.len(),
{
    if !text.contains(sep) {
        if text.len() == 0 {
            assert(text =~= Seq::empty());
            assert(split_at_each(text, sep) =~= seq![text]);
        } else {
            let init = text.drop_last();
            assert(text.contains(text[text.len() - 1]));
            assert(!init.contains(sep)) by {
                if init.contains(sep) {
                    let k = choose|k: int| 0 <= k < init.len() && init[k] == sep;
                    assert(text[k] == sep);
                }
            }
            lemma_single_piece(init, sep);
            assert(init.push(text.last()) =~= text);
            assert(split_at_each(text, sep) =~= seq![text]);
        }
    }
}

/// Joining puts one line feed between what comes of two lists of lines, and a single line is joined
/// to itself.
pub proof fn law_line_feed_joins_lines(above: Seq<Seq<char>>, below: Seq<Seq<char>>, line: Seq<char>)
    ensures
        above.len() > 0 && below.len() > 0 ==> joined(above + below) == joined(above).push('\n') + joined(below),
        joined(seq![line]) == line,
        joined(Seq::empty()).len() == 0,
    decreases below.len(),
{
    if above.len() > 0 && below.len() > 0 {
        let all = above + below;
        if below.len() == 1 {
            assert(all.drop_last() =~= above);
        } else {
            let init = below.drop_last();
            law_line_feed_joins_lines(above, init, line);
            assert(all.drop_last() =~= above + init);
            assert(joined(all) =~= joined(above).push('\n') + joined(below));
        }
    }
}

/// The lines of a text, one after the other: a line feed ends a line, and a carriage return before
/// it does not belong to the line. Text without a line feed is one line, or none where it is empty.
pub proof fn law_lines_one_by_one(line: Seq<char>, rest: Seq<char>)
    requires
        !line.contains('\n'),
    ensures
        lines_of(line.push('\r').push('\n') + rest) == seq![line] + lines_of(rest),
        !(line.len() > 0 && line.last() == '\r') ==> lines_of(line.push('\n') + rest) == seq![line] + lines_of(
            rest,
        ),
        line.len() > 0 ==> lines_of(line) == seq![line],
        lines_of(Seq::empty()).len() == 0,
{
    lemma_split_nonempty(rest, '\n');
    law_separator_parts_a_text(line, '\n', rest);
    let ended = line.push('\r');
    assert(!ended.contains('\n')) by {
        if ended.contains('\n') {
            let k = choose|k: int| 0 <= k < ended.len() && ended[k] == '\n';
            assert(line[k] == '\n');
        }
    }
    law_separator_parts_a_text(ended, '\n', rest);
    assert(without_cr(ended) =~= line);
    assert(lines_of(ended.push('\n') + rest) =~= seq![line] + lines_of(rest));
    if !(line.len() > 0 && line.last() == '\r') {
        assert(lines_of(line.push('\n') + rest) =~= seq![line] + lines_of(rest));
    }
    if line.len() > 0 {
        assert(lines_of(line) =~= seq![line]);
    }
}

/// A text ends a line where its last character is a line feed.
pub proof fn law_last_character_ends_the_line(text: Seq<char>, c: char)
    ensures
        ends_line(text.push(c)) <==> c == '\n',
        !ends_line(Seq::empty()),
{
}

/// The white-space characters, one by one.
pub proof fn law_white_space_characters(c: char)
    ensures
        white_space(c) <==> {
            ||| c == '\t' || c == '\n' || c == '\u{b}' || c == '\u{c}' || c == '\r'
            ||| c == ' ' || c == '\u{85}' || c == '\u{a0}' || c == '\u{1680}'
            ||| c == '\u{2000}' || c == '\u{2001}' || c == '\u{2002}' || c == '\u{2003}'
            ||| c == '\u{2004}' || c == '\u{2005}' || c == '\u{2006}' || c == '\u{2007}'
            ||| c == '\u{2008}' || c == '\u{2009}' || c == '\u{200a}' || c == '\u{2028}'
            ||| c == '\u{2029}' || c == '\u{202f}' || c == '\u{205f}' || c == '\u{3000}'
        },
{
}

/// Trimming cuts white space off the two ends of a text, nothing else, and all of it.
pub proof fn law_trimming_cuts_white_space(text: Seq<char>) -> (ends: (int, int))
    ensures
        0 <= ends.0 <= ends.1 <= text.len(),
        trimmed(text) == text.subrange(ends.0, ends.1),
        forall|i: int| 0 <= i < ends.0 ==> white_space(#[trigger] text[i]),
        forall|i: int| ends.1 <= i < text.len() ==> white_space(#[trigger] text[i]),
        ends.0 < ends.1 ==> !white_space(text[ends.0]) && !white_space(text[ends.1 - 1]),
{
    let a = lemma_start_cut(text);
    let rest = trimmed_start(text);
    let b = lemma_end_cut(rest);
    assert forall|i: int| a + b <= i < text.len() implies white_space(#[trigger] text[i]) by {
        assert(text[i] == rest[i - a]);
    }
    if 0 < b {
        assert(text[a] == rest[0] && text[a + b - 1] == rest[b - 1]);
    }
    assert(rest.take(b) =~= text.subrange(a, a + b));
    (a, a + b)
}

proof fn lemma_start_cut(text: Seq<char>) -> (cut: int)
    ensures
        0 <= cut <= text.len(),
        trimmed_start(text) == text.skip(cut),
        forall|i: int| 0 <= i < cut ==> white_space(#[trigger] text[i]),
        cut < text.len() ==> !white_space(text[cut]),
    decreases text.len(),
{
    if text.len() > 0 && white_space(text.first()) {
        let rest = text.drop_first();
        let cut = lemma_start_cut(rest);
        assert(rest.skip(cut) =~= text.skip(cut + 1));
        assert forall|i: int| 0 <= i < cut + 1 implies white_space(#[trigger] text[i]) by {
            if i > 0 {
                assert(text[i] == rest[i - 1]);
            }
        }
        cut + 1
    } else {
        assert(text.skip(0) =~= text);
        0
    }
}

proof fn lemma_end_cut(text: Seq<char>) -> (kept: int)
    ensures
        0 <= kept <= text.len(),
        trimmed_end(text) == text.take(kept),
        forall|i: int| kept <= i < text.len() ==> white_space(#[trigger] text[i]),
        0 < kept ==> !white_space(text[kept - 1]),
    decreases text.len(),
{
    if text.len() > 0 && white_space(text.last()) {
        let rest = text.drop_last();
        let kept = lemma_end_cut(rest);
        assert(rest.take(kept) =~= text.take(kept));
        assert forall|i: int| kept <= i < text.len() implies white_space(#[trigger] text[i]) by {
            if i < rest.len() {
                assert(text[i] == rest[i]);
            }
        }
        kept
    } else {
        assert(text.take(text.len() as int) =~= text);
        text.len() as int
    }
}

/// The number that decimal digits stand for.
pub open spec fn decimal_value(text: Seq<char>) -> int
    decreases text.len(),
{
    if text.len() == 0 {
        0
    } else {
        10 * decimal_value(text.drop_last()) + (text.last() as int - '0' as int)
    }
}

/// A number in decimal consists of decimal digits, stands for that number, and has no leading zero
/// unless it is zero.
pub proof fn law_decimal_stands_for_its_number(n: nat)
    ensures
        decimal(n).len() > 0,
        forall|i: int| 0 <= i < decimal(n).len() ==> '0' <= #[trigger] decimal(n)[i] <= '9',
        decimal_value(decimal(n)) == n,
        n > 0 ==> decimal(n)[0] != '0',
    decreases n,
{
    reveal_strlit("0123456789abcdef");
    assert forall|d: int| 0 <= d < 10 implies #[trigger] digit(d) as int == '0' as int + d by {
        assert(d == 0 || d == 1 || d == 2 || d == 3 || d == 4 || d == 5 || d == 6 || d == 7 || d == 8 || d == 9);
    }
    if n < 10 {
        assert(decimal(n).drop_last() =~= Seq::empty());
        assert(decimal_value(decimal(n).drop_last()) == 0);
    } else {
        law_decimal_stands_for_its_number(n / 10);
        assert(decimal(n).drop_last() =~= decimal(n / 10));
    }
}

} // verus!
