//! The form in which two texts are compared when small typographic differences do not count.
use crate::text::{is_white_space, lemma_trim_ignores_end, trimmed, trimmed_end, trimmed_start, white_space};
use vstd::prelude::*;

verus! {

/// The plain character that stands for `c`: a straight quote for a curly one, a hyphen for an em
/// or en dash, a space for a no-break space, and any other character for itself.
pub open spec fn plain_char(c: char) -> char {
    if c == '\u{201c}' || c == '\u{201d}' {
        '"'
    } else if c == '\u{2018}' || c == '\u{2019}' {
        '\''
    } else if c == '\u{2014}' || c == '\u{2013}' {
        '-'
    } else if c == '\u{a0}' {
        ' '
    } else {
        c
    }
}

/// `text` with each character replaced by the plain one.
pub open spec fn plain_text(text: Seq<char>) -> Seq<char> {
    Seq::new(text.len(), |i: int| plain_char(text[i]))
}

/// `text` with each run of two or more white-space characters replaced by one space.
pub open spec fn single_spaced(text: Seq<char>) -> Seq<char>
    decreases text.len(),
{
    if text.len() == 0 {
        Seq::empty()
    } else {
        let before = single_spaced(text.drop_last());
        if white_space(text.last()) && before.len() > 0 && white_space(before.last()) {
            before.update(before.len() - 1, ' ')
        } else {
            before.push(text.last())
        }
    }
}

/// `text` in plain characters, single spaced, without white space at its ends.
pub open spec fn normalized(text: Seq<char>) -> Seq<char> {
    trimmed(single_spaced(plain_text(text)))
}

/// Computes the plain character that stands for `c`.
fn to_plain_char(c: char) -> (plain: char)
    ensures
        plain == plain_char(c),
{
    if c == '\u{201c}' || c == '\u{201d}' {
        '"'
    } else if c == '\u{2018}' || c == '\u{2019}' {
        '\''
    } else if c == '\u{2014}' || c == '\u{2013}' {
        '-'
    } else if c == '\u{a0}' {
        ' '
    } else {
        c
    }
}

/// `text` with the character `last` behind it, where there is one.
spec fn with_last(text: Seq<char>, last: Option<char>) -> Seq<char> {
    match last {
        Some(c) => text.push(c),
        None => text,
    }
}

/// Normalizes `input`: curly quotes, dashes and no-break spaces become plain characters, a run of
/// two or more white-space characters becomes one space, and the white space at the two ends goes.
pub fn normalize_text(input: &str) -> (output: String)
    ensures
        output@ == normalized(input@),
{
    let mut spaced: String = String::new();
    let mut gap: Option<char> = None;
    let ghost plain = plain_text(input@);
    assert(plain.take(0) =~= Seq::empty());
    for c in it: input.chars()
        invariant
            it.seq() == input@,
            plain == plain_text(input@),
            with_last(spaced@, gap) == single_spaced(plain.take(it.index() as int)),
            gap matches Some(g) ==> white_space(g),
            gap is None && spaced@.len() > 0 ==> !white_space(spaced@.last()),
    {
        let ghost before = with_last(spaced@, gap);
        assert(plain.take(it.index() as int + 1).drop_last() =~= plain.take(it.index() as int));
        let p: char = to_plain_char(c);
        assert(p == plain.take(it.index() as int + 1).last());
        if is_white_space(p) {
            gap = match gap {
                Some(_) => Some(' '),
                None => Some(p),
            };
            assert(with_last(spaced@, gap) =~= single_spaced(plain.take(it.index() as int + 1)));
        } else {
            if let Some(g) = gap {
                spaced.push(g);
                gap = None;
            }
            assert(spaced@ == before);
            spaced.push(p);
        }
    }
    if let Some(g) = gap {
        spaced.push(g);
    }
    assert(plain.take(input@.len() as int) =~= plain);
    spaced.as_str().trim().to_owned()
}

/// Whether no two neighbours in `text` are both white space.
pub open spec fn is_single_spaced(text: Seq<char>) -> bool {
    forall|i: int, j: int|
        0 <= i && j == i + 1 && j < text.len() ==> !(white_space(#[trigger] text[i]) && white_space(
            #[trigger] text[j],
        ))
}

/// Whether every character of `text` is its own plain character.
pub open spec fn is_plain(text: Seq<char>) -> bool {
    forall|i: int| 0 <= i < text.len() ==> plain_char(#[trigger] text[i]) == text[i]
}

proof fn lemma_single_spaced(text: Seq<char>)
    ensures
        is_single_spaced(single_spaced(text)),
        is_plain(text) ==> is_plain(single_spaced(text)),
    decreases text.len(),
{
    if text.len() > 0 {
        lemma_single_spaced(text.drop_last());
        assert(plain_char(text.last()) == plain_char(text[text.len() - 1]));
    }
}

proof fn lemma_single_spaced_fixed(text: Seq<char>)
    requires
        is_single_spaced(text),
    ensures
        single_spaced(text) == text,
    decreases text.len(),
{
    if text.len() > 0 {
        let init = text.drop_last();
        assert(is_single_spaced(init)) by {
            assert forall|i: int, j: int| 0 <= i && j == i + 1 && j < init.len() implies !(white_space(
                #[trigger] init[i],
            ) && white_space(#[trigger] init[j])) by {
                assert(text[i] == init[i] && text[j] == init[j]);
            }
        }
        lemma_single_spaced_fixed(init);
        if init.len() > 0 {
            assert(init.last() == text[text.len() - 2]);
            assert(text.last() == text[text.len() - 1]);
        }
        assert(init.push(text.last()) =~= text);
    }
}

/// Trimming cuts a part out of the text whose two ends are not white space.
proof fn lemma_trimmed(text: Seq<char>) -> (ends: (int, int))
    ensures
        0 <= ends.0 <= ends.1 <= text.len(),
        trimmed(text) == text.subrange(ends.0, ends.1),
        trimmed(text).len() > 0 ==> !white_space(trimmed(text).first()) && !white_space(trimmed(text).last()),
{
    let a = lemma_trimmed_start(text);
    let rest = trimmed_start(text);
    let b = lemma_trimmed_end(rest);
    assert(rest.take(b) =~= text.subrange(a, a + b));
    (a, a + b)
}

proof fn lemma_trimmed_start(text: Seq<char>) -> (cut: int)
    ensures
        0 <= cut <= text.len(),
        trimmed_start(text) == text.skip(cut),
        trimmed_start(text).len() > 0 ==> !white_space(trimmed_start(text).first()),
    decreases text.len(),
{
    if text.len() > 0 && white_space(text.first()) {
        let cut = lemma_trimmed_start(text.drop_first());
        assert(text.drop_first().skip(cut) =~= text.skip(cut + 1));
        cut + 1
    } else {
        assert(text.skip(0) =~= text);
        0
    }
}

proof fn lemma_trimmed_end(text: Seq<char>) -> (kept: int)
    ensures
        0 <= kept <= text.len(),
        trimmed_end(text) == text.take(kept),
        trimmed_end(text).len() > 0 ==> !white_space(trimmed_end(text).last()),
    decreases text.len(),
{
    if text.len() > 0 && white_space(text.last()) {
        let kept = lemma_trimmed_end(text.drop_last());
        assert(text.drop_last().take(kept) =~= text.take(kept));
        kept
    } else {
        assert(text.take(text.len() as int) =~= text);
        text.len() as int
    }
}

/// A normalized text holds no curly quote, em or en dash or no-break space, no two white-space
/// characters in a row, and no white space at its ends.
pub proof fn law_normalized_form(text: Seq<char>)
    ensures
        is_plain(normalized(text)),
        is_single_spaced(normalized(text)),
        normalized(text).len() > 0 ==> !white_space(normalized(text).first()) && !white_space(
            normalized(text).last(),
        ),
{
    let plain = plain_text(text);
    assert(is_plain(plain));
    lemma_single_spaced(plain);
    let spaced = single_spaced(plain);
    let (a, b) = lemma_trimmed(spaced);
    let cut = spaced.subrange(a, b);
    assert forall|i: int| 0 <= i < cut.len() implies plain_char(#[trigger] cut[i]) == cut[i] by {
        assert(cut[i] == spaced[a + i]);
    }
    assert forall|i: int, j: int| 0 <= i && j == i + 1 && j < cut.len() implies !(white_space(
        #[trigger] cut[i],
    ) && white_space(#[trigger] cut[j])) by {
        assert(cut[i] == spaced[a + i] && cut[j] == spaced[a + j]);
    }
}

/// A text that has the normalized form is its own normalized form.
pub proof fn law_normalized_form_is_kept(text: Seq<char>)
    requires
        is_plain(text),
        is_single_spaced(text),
        text.len() > 0 ==> !white_space(text.first()) && !white_space(text.last()),
    ensures
        normalized(text) == text,
{
    assert(plain_text(text) =~= text);
    lemma_single_spaced_fixed(text);
    if text.len() > 0 {
        assert(trimmed_start(text) == text);
        assert(trimmed_end(text) == text);
    }
}

/// Normalizing a normalized text changes nothing.
pub proof fn law_normalizing_twice(text: Seq<char>)
    ensures
        normalized(normalized(text)) == normalized(text),
{
    law_normalized_form(text);
    law_normalized_form_is_kept(normalized(text));
}

/// Texts that have the same plain characters have the same normalized form, and two white-space
/// characters in a row count as one space.
pub proof fn law_typography_does_not_count(
    text: Seq<char>,
    other: Seq<char>,
    left: Seq<char>,
    a: char,
    b: char,
    right: Seq<char>,
)
    ensures
        plain_text(text) == plain_text(other) ==> normalized(text) == normalized(other),
        white_space(a) && white_space(b) ==> normalized(left.push(a).push(b) + right) == normalized(
            left.push(' ') + right,
        ),
{
    if white_space(a) && white_space(b) {
        let l = plain_text(left);
        let r = plain_text(right);
        assert(plain_text(left.push(a).push(b) + right) =~= l.push(plain_char(a)).push(plain_char(b)) + r);
        assert(plain_text(left.push(' ') + right) =~= l.push(' ') + r);
        lemma_two_for_one(l, plain_char(a), plain_char(b), r);
    }
}

proof fn lemma_two_for_one(left: Seq<char>, a: char, b: char, right: Seq<char>)
    requires
        white_space(a),
        white_space(b),
    ensures
        single_spaced(left.push(a).push(b) + right) == single_spaced(left.push(' ') + right),
    decreases right.len(),
{
    let two = left.push(a).push(b) + right;
    let one = left.push(' ') + right;
    if right.len() == 0 {
        assert(two =~= left.push(a).push(b));
        assert(one =~= left.push(' '));
        assert(two.drop_last() =~= left.push(a));
        assert(left.push(a).drop_last() =~= left);
        assert(one.drop_last() =~= left);
        let s = single_spaced(left);
        let t = single_spaced(left.push(a));
        if s.len() > 0 && white_space(s.last()) {
            assert(t == s.update(s.len() - 1, ' '));
            assert(t.update(t.len() - 1, ' ') =~= t);
        } else {
            assert(t == s.push(a));
            assert(t.update(t.len() - 1, ' ') =~= s.push(' '));
        }
        assert(single_spaced(two) == t.update(t.len() - 1, ' '));
    } else {
        lemma_two_for_one(left, a, b, right.drop_last());
        assert(two.drop_last() =~= left.push(a).push(b) + right.drop_last());
        assert(one.drop_last() =~= left.push(' ') + right.drop_last());
    }
}

/// White space at the two ends of a text does not count: trimmed or not, it has the same normalized
/// form.
pub proof fn law_ends_do_not_count(text: Seq<char>)
    ensures
        normalized(trimmed(text)) == normalized(text),
{
    lemma_start_does_not_count(text);
    lemma_end_does_not_count(trimmed_start(text));
}

proof fn lemma_start_does_not_count(text: Seq<char>)
    ensures
        normalized(trimmed_start(text)) == normalized(text),
    decreases text.len(),
{
    if text.len() > 0 && white_space(text.first()) {
        let rest = text.drop_first();
        lemma_start_does_not_count(rest);
        let p = plain_char(text.first());
        let spaced = single_spaced(plain_text(rest));
        assert(plain_text(text) =~= seq![p] + plain_text(rest));
        lemma_space_in_front(p, plain_text(rest));
        lemma_first_kept(plain_text(rest));
        let longer = single_spaced(plain_text(text));
        if spaced.len() > 0 && white_space(spaced.first()) {
            assert(longer.drop_first() =~= spaced.drop_first());
        } else {
            assert(longer.drop_first() =~= spaced);
        }
        assert(trimmed_start(longer) == trimmed_start(spaced));
    }
}

proof fn lemma_end_does_not_count(text: Seq<char>)
    ensures
        normalized(trimmed_end(text)) == normalized(text),
    decreases text.len(),
{
    if text.len() > 0 && white_space(text.last()) {
        let rest = text.drop_last();
        lemma_end_does_not_count(rest);
        let p = plain_char(text.last());
        let spaced = single_spaced(plain_text(rest));
        assert(plain_text(text).drop_last() =~= plain_text(rest));
        assert(plain_text(text).last() == p);
        if spaced.len() > 0 && white_space(spaced.last()) {
            let init = spaced.drop_last();
            assert(spaced =~= init.push(spaced.last()));
            assert(spaced.update(spaced.len() - 1, ' ') =~= init.push(' '));
            lemma_trim_ignores_end(init, spaced.last());
            lemma_trim_ignores_end(init, ' ');
        } else {
            lemma_trim_ignores_end(spaced, p);
        }
    }
}

/// A text starts with white space where it does so once it is single spaced.
proof fn lemma_first_kept(text: Seq<char>)
    ensures
        single_spaced(text).len() == 0 <==> text.len() == 0,
        text.len() > 0 ==> white_space(single_spaced(text).first()) == white_space(text.first()),
    decreases text.len(),
{
    if text.len() > 0 {
        lemma_first_kept(text.drop_last());
        if text.len() > 1 {
            assert(text.drop_last().first() == text.first());
        }
    }
}

/// White space in front of a text melts into that at its start, or stands for itself.
proof fn lemma_space_in_front(p: char, text: Seq<char>)
    requires
        white_space(p),
    ensures
        text.len() > 0 && white_space(text.first()) ==> single_spaced(seq![p] + text) == seq![' ']
            + single_spaced(text).drop_first(),
        !(text.len() > 0 && white_space(text.first())) ==> single_spaced(seq![p] + text) == seq![p]
            + single_spaced(text),
    decreases text.len(),
{
    let longer = seq![p] + text;
    if text.len() == 0 {
        assert(longer =~= seq![p]);
        assert(longer.drop_last() =~= Seq::empty());
        assert(single_spaced(longer.drop_last()) =~= Seq::empty());
        assert(single_spaced(longer) =~= seq![p] + single_spaced(text));
    } else {
        let init = text.drop_last();
        let c = text.last();
        lemma_space_in_front(p, init);
        lemma_first_kept(init);
        assert(longer.drop_last() =~= seq![p] + init);
        assert(longer.last() == c);
        let s = single_spaced(init);
        let t = single_spaced(seq![p] + init);
        if init.len() > 0 {
            assert(init.first() == text.first());
            assert(t.last() == if s.len() == 1 && white_space(text.first()) { ' ' } else { s.last() });
            assert(s.len() == 1 ==> s.last() == s.first());
        }
        if white_space(text.first()) {
            assert(single_spaced(longer) =~= seq![' '] + single_spaced(text).drop_first());
        } else {
            assert(single_spaced(longer) =~= seq![p] + single_spaced(text));
        }
    }
}

/// Each typographic character counts as the plain one that it resembles.
pub proof fn law_typographic_characters_count_as_plain(left: Seq<char>, right: Seq<char>)
    ensures
        normalized(left.push('\u{201c}') + right) == normalized(left.push('"') + right),
        normalized(left.push('\u{201d}') + right) == normalized(left.push('"') + right),
        normalized(left.push('\u{2018}') + right) == normalized(left.push('\'') + right),
        normalized(left.push('\u{2019}') + right) == normalized(left.push('\'') + right),
        normalized(left.push('\u{2014}') + right) == normalized(left.push('-') + right),
        normalized(left.push('\u{2013}') + right) == normalized(left.push('-') + right),
        normalized(left.push('\u{a0}') + right) == normalized(left.push(' ') + right),
{
    assert(plain_text(left.push('\u{201c}') + right) =~= plain_text(left.push('"') + right));
    assert(plain_text(left.push('\u{201d}') + right) =~= plain_text(left.push('"') + right));
    assert(plain_text(left.push('\u{2018}') + right) =~= plain_text(left.push('\'') + right));
    assert(plain_text(left.push('\u{2019}') + right) =~= plain_text(left.push('\'') + right));
    assert(plain_text(left.push('\u{2014}') + right) =~= plain_text(left.push('-') + right));
    assert(plain_text(left.push('\u{2013}') + right) =~= plain_text(left.push('-') + right));
    assert(plain_text(left.push('\u{a0}') + right) =~= plain_text(left.push(' ') + right));
}

/// A text without typographic characters, without two white-space characters in a row and without
/// white space at its ends is its own normalized form.
pub proof fn law_plain_text_is_kept(text: Seq<char>)
    requires
        forall|i: int|
            0 <= i < text.len() ==> {
                let c = #[trigger] text[i];
                c != '\u{201c}' && c != '\u{201d}' && c != '\u{2018}' && c != '\u{2019}' && c != '\u{2014}' && c
                    != '\u{2013}' && c != '\u{a0}'
            },
        forall|i: int, j: int|
            0 <= i && j == i + 1 && j < text.len() ==> !(white_space(#[trigger] text[i]) && white_space(
                #[trigger] text[j],
            )),
        text.len() > 0 ==> !white_space(text[0]) && !white_space(text[text.len() - 1]),
    ensures
        normalized(text) == text,
{
    law_normalized_form_is_kept(text);
}

} // verus!
