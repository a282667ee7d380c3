//! What holds of reading and editing taken together.
use crate::anchors::{
    anchorable, anchors_of, first_anchors, gets_plain, is_lone, law_anchors_are_distinct,
    lemma_first_anchors_prefix, next_anchor, plain_anchor, plain_anchors,
};
use crate::batch::{
    application_order, applied, edited_content, file_lines, in_order, law_edits_run_bottom_up, ops, order_key,
    order_keys, prepared, run_edits, whole_text, with_normalized_keys,
};
use crate::command::{reply_to, ReplyModel};
use crate::edit::{
    anchor_error, anchor_site, edited, either_text, lemma_first_position, lemma_is_first_position, normalized_lines,
    payload, replaced_range, text_or_empty, with_inserted, Edit, EditModel, ErrorModel,
};
use crate::hash::hex_digit;
use crate::normalize::{law_normalized_form_is_kept, law_normalizing_twice, normalized};
use crate::text::{
    ends_line, joined, law_joining_undoes_splitting, law_joining_undoes_splitting_of_ended_text,
    law_splitting_undoes_joining, lemma_split_nonempty, lemma_trim_ignores_end, lines_of, split_at_each, trimmed,
    without_cr,
};
use crate::window::{window_start, windowed, AnchoredLineModel};
use vstd::prelude::*;

verus! {

/// A file to which no edit is made keeps its text.
pub proof fn law_no_edit_changes_nothing(content: Seq<char>, fuzzy: bool)
    requires
        anchorable(file_lines(content, ends_line(content))),
    ensures
        edited_content(content, Seq::empty(), fuzzy) == Some(Ok::<Seq<char>, ErrorModel>(content)),
{
    let lines = file_lines(content, ends_line(content));
    let anchors = anchors_of(lines);
    assert(prepared(Seq::empty(), fuzzy) =~= Seq::empty());
    assert(order_keys(Seq::empty(), anchors) =~= Seq::empty());
    assert(in_order(Seq::empty(), anchors) =~= Seq::empty());
    law_joining_undoes_splitting(content);
    if ends_line(content) {
        law_joining_undoes_splitting_of_ended_text(content);
    }
}

/// A file in which no two lines have the same plain anchor needs no salt: every line gets the hash
/// of its own text.
pub proof fn law_distinct_lines_keep_their_hashes(lines: Seq<Seq<char>>)
    requires
        forall|i: int| 0 <= i < lines.len() ==> is_lone(lines, i),
    ensures
        anchorable(lines),
        anchors_of(lines) == plain_anchors(lines),
{
    lemma_lone_prefix(lines, lines.len());
    assert(plain_anchors(lines).take(lines.len() as int) =~= plain_anchors(lines));
}

proof fn lemma_lone_prefix(lines: Seq<Seq<char>>, n: nat)
    requires
        n <= lines.len(),
        forall|i: int| 0 <= i < lines.len() ==> is_lone(lines, i),
    ensures
        first_anchors(lines, n) == Some(plain_anchors(lines).take(n as int)),
    decreases n,
{
    let all = plain_anchors(lines);
    if n == 0 {
        assert(all.take(0) =~= Seq::empty());
    } else {
        lemma_lone_prefix(lines, (n - 1) as nat);
        let given = all.take(n - 1);
        let i = n - 1;
        assert(is_lone(lines, i));
        if given.contains(plain_anchor(lines[i])) {
            let j = choose|j: int| 0 <= j < given.len() && given[j] == plain_anchor(lines[i]);
            assert(plain_anchor(lines[j]) == plain_anchor(lines[i]));
        }
        assert(given.push(plain_anchor(lines[i])) =~= all.take(n as int));
    }
}

/// The anchor of a line names that line and no other.
pub proof fn law_anchor_names_its_line(lines: Seq<Seq<char>>, i: int)
    requires
        anchorable(lines),
        0 <= i < lines.len(),
    ensures
        anchor_site(anchors_of(lines), anchors_of(lines)[i]) == Ok::<nat, ErrorModel>(i as nat),
{
    law_anchors_are_distinct(lines);
    lemma_is_first_position(anchors_of(lines), i);
}

/// The name of the line that an edit of a single line concerns.
pub open spec fn edit_target(edit: EditModel) -> Option<Seq<char>> {
    if edit.op == "replace"@ {
        edit.anchor
    } else if edit.op == "insert_before"@ {
        either_text(edit.before, edit.anchor)
    } else if edit.op == "insert_after"@ {
        either_text(edit.after, edit.anchor)
    } else {
        None
    }
}

/// The first and the last line that an edit concerns: those that `from` and `to` name for a
/// `replace` without `anchor`, else the line that it names, which is both. `None` where a name is
/// missing or is no anchor, or where the two come in the wrong order.
pub open spec fn edit_span(edit: EditModel, anchors: Seq<Seq<char>>) -> Option<(nat, nat)> {
    if edit.op == "replace"@ && edit.anchor is None {
        match (edit.from, edit.to) {
            (Some(from), Some(to)) => match (anchor_site(anchors, from), anchor_site(anchors, to)) {
                (Ok(i), Ok(j)) => if i <= j {
                    Some((i, j))
                } else {
                    None
                },
                _ => None,
            },
            _ => None,
        }
    } else {
        match edit_target(edit) {
            Some(name) => match anchor_site(anchors, name) {
                Ok(i) => Some((i, i)),
                Err(_) => None,
            },
            None => None,
        }
    }
}

/// The first line that an edit concerns.
pub open spec fn first_line(edit: EditModel, anchors: Seq<Seq<char>>) -> nat {
    (edit_span(edit, anchors)->0).0
}

/// The last line that an edit concerns.
pub open spec fn last_line(edit: EditModel, anchors: Seq<Seq<char>>) -> nat {
    (edit_span(edit, anchors)->0).1
}

/// Whether an edit names the lines that it concerns by their anchors, and is ordered by the first.
pub open spec fn is_placed(edit: EditModel, anchors: Seq<Seq<char>>) -> bool {
    edit_span(edit, anchors) matches Some((i, _)) && order_key(edit, anchors) == i
}

/// Whether all lines that `edit` concerns lie above those that `other` concerns.
pub open spec fn lies_above(edit: EditModel, other: EditModel, anchors: Seq<Seq<char>>) -> bool {
    last_line(edit, anchors) < first_line(other, anchors)
}

/// Whether of every two edits one lies above the other.
pub open spec fn lie_apart(edits: Seq<EditModel>, anchors: Seq<Seq<char>>) -> bool {
    forall|j: int, k: int|
        0 <= j < k < edits.len() ==> lies_above(#[trigger] edits[j], #[trigger] edits[k], anchors)
            || lies_above(edits[k], edits[j], anchors)
}

/// Whether each of the edits names its lines by their anchors, and no two concern the same line.
pub open spec fn are_separate(edits: Seq<EditModel>, anchors: Seq<Seq<char>>) -> bool {
    &&& forall|k: int| 0 <= k < edits.len() ==> is_placed(#[trigger] edits[k], anchors)
    &&& lie_apart(edits, anchors)
}

/// The lines that an edit leaves in the place of those that it concerns, of which `line` is the
/// first.
pub open spec fn line_after(edit: EditModel, line: Seq<char>) -> Seq<Seq<char>> {
    let put = payload(text_or_empty(edit.text));
    if edit.op == "replace"@ {
        put
    } else if edit.op == "insert_before"@ {
        put + seq![line]
    } else {
        seq![line] + put
    }
}

/// Whether the line at `i` is the last one that an edit concerns.
pub open spec fn ends_at(edit: EditModel, anchors: Seq<Seq<char>>, i: nat) -> bool {
    edit_span(edit, anchors) matches Some((_, j)) && j == i
}

/// The edit among `edits` of which the line at `i` is the last one that it concerns.
pub open spec fn edit_ending(edits: Seq<EditModel>, anchors: Seq<Seq<char>>, i: nat) -> Option<EditModel> {
    if exists|k: int| 0 <= k < edits.len() && ends_at(#[trigger] edits[k], anchors, i) {
        Some(edits[choose|k: int| 0 <= k < edits.len() && ends_at(#[trigger] edits[k], anchors, i)])
    } else {
        None
    }
}

/// What the edits leave of the first `n` lines: in the place of the lines that an edit concerns
/// stand those that this edit leaves, and every other line is kept.
pub open spec fn patched(
    lines: Seq<Seq<char>>,
    anchors: Seq<Seq<char>>,
    edits: Seq<EditModel>,
    n: nat,
) -> Seq<Seq<char>>
    decreases n,
{
    if n == 0 {
        Seq::empty()
    } else {
        match edit_ending(edits, anchors, (n - 1) as nat) {
            Some(edit) => {
                let i = first_line(edit, anchors);
                patched(lines, anchors, edits, i) + line_after(edit, lines[i as int])
            },
            None => patched(lines, anchors, edits, (n - 1) as nat).push(lines[n - 1]),
        }
    }
}

/// What an edit makes of lines among which are all those that it concerns.
proof fn lemma_edit_of_span(
    lines: Seq<Seq<char>>,
    anchors: Seq<Seq<char>>,
    edit: EditModel,
    i: nat,
    j: nat,
    fuzzy: bool,
)
    requires
        edit_span(edit, anchors) == Some((i, j)),
        j < lines.len(),
    ensures
        edited(lines, anchors, edit, fuzzy) == Some(
            Ok::<Seq<Seq<char>>, ErrorModel>(
                lines.take(i as int) + line_after(edit, lines[i as int]) + lines.skip(j as int + 1),
            ),
        ),
{
    let put = payload(text_or_empty(edit.text));
    let line = lines[i as int];
    if edit.op == "replace"@ {
    } else if edit.op == "insert_before"@ {
        assert(with_inserted(lines, i as int, put) =~= lines.take(i as int) + (put + seq![line]) + lines.skip(
            i as int + 1,
        ));
    } else {
        assert(with_inserted(lines, i as int + 1, put) =~= lines.take(i as int) + (seq![line] + put) + lines.skip(
            i as int + 1,
        ));
    }
}

/// What the edits of a queue that goes from the bottom up leave of the first `b` lines.
spec fn queue_patched(
    lines: Seq<Seq<char>>,
    anchors: Seq<Seq<char>>,
    queue: Seq<EditModel>,
    b: int,
) -> Seq<Seq<char>>
    decreases queue.len(),
{
    if queue.len() == 0 {
        lines.take(b)
    } else {
        let (i, j) = edit_span(queue[0], anchors)->0;
        queue_patched(lines, anchors, queue.drop_first(), i as int) + line_after(queue[0], lines[i as int])
            + lines.subrange(j as int + 1, b)
    }
}

/// Whether a queue of edits goes from the bottom up, and all lines that they concern are above the
/// line at `b`.
spec fn goes_up(queue: Seq<EditModel>, anchors: Seq<Seq<char>>, b: int) -> bool {
    &&& forall|k: int|
        0 <= k < queue.len() ==> (edit_span(#[trigger] queue[k], anchors) matches Some((_, j)) && j < b)
    &&& forall|j: int, k: int|
        0 <= j < k < queue.len() ==> lies_above(#[trigger] queue[k], #[trigger] queue[j], anchors)
}

proof fn lemma_goes_up_rest(queue: Seq<EditModel>, anchors: Seq<Seq<char>>, b: int)
    requires
        queue.len() > 0,
        goes_up(queue, anchors, b),
    ensures
        goes_up(queue.drop_first(), anchors, first_line(queue[0], anchors) as int),
{
    let rest = queue.drop_first();
    assert forall|k: int| 0 <= k < rest.len() implies (edit_span(#[trigger] rest[k], anchors) matches Some((_, j))
        && j < first_line(queue[0], anchors)) by {
        assert(rest[k] == queue[k + 1]);
        assert(lies_above(queue[k + 1], queue[0], anchors));
    }
    assert forall|j: int, k: int| 0 <= j < k < rest.len() implies lies_above(
        #[trigger] rest[k],
        #[trigger] rest[j],
        anchors,
    ) by {
        assert(rest[j] == queue[j + 1] && rest[k] == queue[k + 1]);
    }
}

proof fn lemma_run_queue(
    lines: Seq<Seq<char>>,
    anchors: Seq<Seq<char>>,
    queue: Seq<EditModel>,
    b: int,
    tail: Seq<Seq<char>>,
    fuzzy: bool,
)
    requires
        0 <= b <= lines.len(),
        goes_up(queue, anchors, b),
    ensures
        run_edits(lines.take(b) + tail, anchors, queue, fuzzy) == Some(
            Ok::<Seq<Seq<char>>, ErrorModel>(queue_patched(lines, anchors, queue, b) + tail),
        ),
    decreases queue.len(),
{
    if queue.len() > 0 {
        let edit = queue[0];
        let (i, j) = edit_span(edit, anchors)->0;
        let now = lines.take(b) + tail;
        lemma_goes_up_rest(queue, anchors, b);
        lemma_edit_of_span(now, anchors, edit, i, j, fuzzy);
        let after = line_after(edit, lines[i as int]);
        let rest = after + lines.subrange(j as int + 1, b) + tail;
        assert(now[i as int] == lines[i as int]);
        assert(now.take(i as int) + after + now.skip(j as int + 1) =~= lines.take(i as int) + rest);
        lemma_run_queue(lines, anchors, queue.drop_first(), i as int, rest, fuzzy);
        assert(queue_patched(lines, anchors, queue.drop_first(), i as int) + rest =~= queue_patched(
            lines,
            anchors,
            queue,
            b,
        ) + tail);
    }
}

proof fn lemma_edit_ending(edits: Seq<EditModel>, anchors: Seq<Seq<char>>, k: int, i: nat)
    requires
        lie_apart(edits, anchors),
        0 <= k < edits.len(),
        ends_at(edits[k], anchors, i),
    ensures
        edit_ending(edits, anchors, i) == Some(edits[k]),
{
    let c = choose|c: int| 0 <= c < edits.len() && ends_at(#[trigger] edits[c], anchors, i);
    assert(edit_span(edits[c], anchors) is Some && edit_span(edits[k], anchors) is Some);
    assert(c == k);
}

/// Edits that end below the first `n` lines do not count for those.
proof fn lemma_patched_same(
    lines: Seq<Seq<char>>,
    anchors: Seq<Seq<char>>,
    edits: Seq<EditModel>,
    other: Seq<EditModel>,
    n: nat,
)
    requires
        forall|i: nat| i < n ==> #[trigger] edit_ending(edits, anchors, i) == edit_ending(other, anchors, i),
    ensures
        patched(lines, anchors, edits, n) == patched(lines, anchors, other, n),
    decreases n,
{
    if n > 0 {
        match edit_ending(edits, anchors, (n - 1) as nat) {
            Some(edit) => {
                assert(ends_at(edit, anchors, (n - 1) as nat));
                lemma_patched_same(lines, anchors, edits, other, first_line(edit, anchors));
            },
            None => lemma_patched_same(lines, anchors, edits, other, (n - 1) as nat),
        }
    }
}

proof fn lemma_queue_patched(
    lines: Seq<Seq<char>>,
    anchors: Seq<Seq<char>>,
    queue: Seq<EditModel>,
    b: nat,
)
    requires
        b <= lines.len(),
        goes_up(queue, anchors, b as int),
    ensures
        queue_patched(lines, anchors, queue, b as int) == patched(lines, anchors, queue, b),
    decreases b,
{
    if b == 0 {
        if queue.len() > 0 {
            assert(edit_span(queue[0], anchors) is Some);
        }
        assert(lines.take(0) =~= Seq::empty());
    } else {
        let last = (b - 1) as nat;
        if queue.len() > 0 && ends_at(queue[0], anchors, last) {
            let (i, j) = edit_span(queue[0], anchors)->0;
            let rest = queue.drop_first();
            lemma_goes_up_rest(queue, anchors, b as int);
            lemma_queue_patched(lines, anchors, rest, i);
            lemma_edit_ending(queue, anchors, 0, last);
            assert forall|e: nat| e < i implies #[trigger] edit_ending(rest, anchors, e) == edit_ending(
                queue,
                anchors,
                e,
            ) by {
                if edit_ending(queue, anchors, e) is Some {
                    let k = choose|k: int| 0 <= k < queue.len() && ends_at(#[trigger] queue[k], anchors, e);
                    assert(rest[k - 1] == queue[k]);
                    lemma_edit_ending(rest, anchors, k - 1, e);
                } else if edit_ending(rest, anchors, e) is Some {
                    let k = choose|k: int| 0 <= k < rest.len() && ends_at(#[trigger] rest[k], anchors, e);
                    assert(rest[k] == queue[k + 1]);
                }
            }
            lemma_patched_same(lines, anchors, rest, queue, i);
            assert(lines.subrange(b as int, b as int) =~= Seq::empty());
            assert(queue_patched(lines, anchors, queue, b as int) =~= patched(lines, anchors, queue, b));
        } else {
            assert forall|k: int| 0 <= k < queue.len() implies (edit_span(#[trigger] queue[k], anchors) matches Some(
                (_, j),
            ) && j < last) by {
                assert(edit_span(queue[0], anchors) is Some);
                if k > 0 {
                    assert(lies_above(queue[k], queue[0], anchors));
                }
            }
            assert(goes_up(queue, anchors, last as int));
            lemma_queue_patched(lines, anchors, queue, last);
            assert(edit_ending(queue, anchors, last) is None);
            assert(queue_patched(lines, anchors, queue, b as int) =~= queue_patched(
                lines,
                anchors,
                queue,
                last as int,
            ).push(lines[last as int]));
        }
    }
}

/// Edits that name their lines by anchors, no two of which concern the same line, do not disturb
/// one another: in whatever order they come, the lines that an edit concerns end up as this edit
/// leaves them, every other line is kept, and none of the edits reaches past the end.
pub proof fn law_separate_edits_do_not_interfere(
    lines: Seq<Seq<char>>,
    anchors: Seq<Seq<char>>,
    edits: Seq<EditModel>,
    fuzzy: bool,
)
    requires
        anchors.len() == lines.len(),
        are_separate(edits, anchors),
    ensures
        run_edits(lines, anchors, in_order(edits, anchors), fuzzy) == Some(
            Ok::<Seq<Seq<char>>, ErrorModel>(patched(lines, anchors, edits, lines.len())),
        ),
{
    let keys = order_keys(edits, anchors);
    let order = application_order(keys);
    let queue = in_order(edits, anchors);
    let n = lines.len();
    law_edits_run_bottom_up(keys);
    assert forall|a: int| 0 <= a < queue.len() implies {
        &&& queue[a] == edits[#[trigger] order[a]]
        &&& 0 <= order[a] < edits.len()
        &&& keys[order[a]] == order_key(queue[a], anchors)
    } by {}
    assert forall|k: int| 0 <= k < queue.len() implies (edit_span(#[trigger] queue[k], anchors) matches Some((_, j))
        && j < n) by {
        let e = edits[order[k]];
        assert(queue[k] == e);
        assert(is_placed(e, anchors));
        if edit_target(e) is Some {
            lemma_first_position(anchors, edit_target(e)->0);
        } else {
            lemma_first_position(anchors, e.to->0);
        }
    }
    assert forall|j: int, k: int| 0 <= j < k < queue.len() implies lies_above(
        #[trigger] queue[k],
        #[trigger] queue[j],
        anchors,
    ) by {
        let (x, y) = (order[j], order[k]);
        assert(x != y);
        assert(is_placed(edits[x], anchors) && is_placed(edits[y], anchors));
        assert(lies_above(edits[x], edits[y], anchors) || lies_above(edits[y], edits[x], anchors));
    }
    lemma_run_queue(lines, anchors, queue, n as int, Seq::empty(), fuzzy);
    assert(lines.take(n as int) + Seq::<Seq<char>>::empty() =~= lines);
    assert(queue_patched(lines, anchors, queue, n as int) + Seq::<Seq<char>>::empty() =~= queue_patched(
        lines,
        anchors,
        queue,
        n as int,
    ));
    lemma_queue_patched(lines, anchors, queue, n);
    assert forall|i: nat| i < n implies #[trigger] edit_ending(queue, anchors, i) == edit_ending(
        edits,
        anchors,
        i,
    ) by {
        if edit_ending(edits, anchors, i) is Some {
            let k = choose|k: int| 0 <= k < edits.len() && ends_at(#[trigger] edits[k], anchors, i);
            assert(order.contains(k));
            let a = choose|a: int| 0 <= a < order.len() && order[a] == k;
            assert(queue[a] == edits[k]);
            lemma_edit_ending(queue, anchors, a, i);
        } else if edit_ending(queue, anchors, i) is Some {
            let a = choose|a: int| 0 <= a < queue.len() && ends_at(#[trigger] queue[a], anchors, i);
            assert(queue[a] == edits[order[a]]);
        }
    }
    lemma_patched_same(lines, anchors, queue, edits, n);
}

/// Two lists of lines get the same anchors where their lines are equal but for the white space
/// around them, and a line that is not equal gets its plain anchor.
proof fn lemma_same_anchors(lines: Seq<Seq<char>>, other: Seq<Seq<char>>, n: nat)
    requires
        anchorable(lines),
        lines.len() == other.len(),
        n <= lines.len(),
        forall|i: int| 0 <= i < lines.len() ==> trimmed(#[trigger] lines[i]) == trimmed(other[i]),
        forall|i: int|
            0 <= i < lines.len() && #[trigger] lines[i] != other[i] ==> gets_plain(
                lines,
                anchors_of(lines).take(i),
            ),
    ensures
        first_anchors(other, n) == first_anchors(lines, n),
    decreases n,
{
    if n > 0 {
        lemma_same_anchors(lines, other, (n - 1) as nat);
        lemma_first_anchors_prefix(lines, (n - 1) as nat, lines.len());
        let i = n - 1;
        let given = first_anchors(lines, (n - 1) as nat)->0;
        law_anchors_are_distinct(lines);
        assert(given == anchors_of(lines).take(i));
        assert(plain_anchor(lines[i]) == plain_anchor(other[i]));
        assert(is_lone(lines, i) == is_lone(other, i)) by {
            assert forall|j: int| 0 <= j < lines.len() implies plain_anchor(#[trigger] lines[j]) == plain_anchor(
                other[j],
            ) by {}
            if !is_lone(lines, i) {
                let j = choose|j: int|
                    0 <= j < lines.len() && j != i && plain_anchor(#[trigger] lines[j]) == plain_anchor(lines[i]);
                assert(plain_anchor(other[j]) == plain_anchor(other[i]));
            }
            if !is_lone(other, i) {
                let j = choose|j: int|
                    0 <= j < other.len() && j != i && plain_anchor(#[trigger] other[j]) == plain_anchor(other[i]);
                assert(plain_anchor(lines[j]) == plain_anchor(lines[i]));
            }
        }
        if !gets_plain(lines, given) {
            assert(lines[i] == other[i]);
        }
        assert(next_anchor(lines, given) == next_anchor(other, given));
    }
}

/// Whether every line of a file from which reading drops a carriage return gets its plain anchor.
pub open spec fn carriage_returns_are_harmless(content: Seq<char>) -> bool {
    let read = lines_of(content);
    let edited = file_lines(content, ends_line(content));
    forall|i: int|
        0 <= i < read.len() && #[trigger] read[i] != edited[i] ==> gets_plain(read, anchors_of(read).take(i))
}

/// Reading and editing see the same lines of a file that is not empty, but for a carriage return
/// at the end of a line, which reading drops.
pub proof fn law_reading_and_editing_see_the_same_lines(content: Seq<char>)
    requires
        content.len() > 0,
    ensures
        lines_of(content).len() == file_lines(content, ends_line(content)).len(),
        forall|i: int|
            0 <= i < lines_of(content).len() ==> {
                ||| #[trigger] lines_of(content)[i] == file_lines(content, ends_line(content))[i]
                ||| lines_of(content)[i] == without_cr(file_lines(content, ends_line(content))[i])
            },
{
    lemma_split_nonempty(content.drop_last(), '\n');
    if ends_line(content) {
        law_joining_undoes_splitting_of_ended_text(content);
    }
}

/// An anchor that reading shows for a line of a file is the anchor of that line when the file is
/// edited.
pub proof fn law_reading_and_editing_use_the_same_anchors(content: Seq<char>)
    requires
        content.len() > 0,
        anchorable(lines_of(content)),
        carriage_returns_are_harmless(content),
    ensures
        anchorable(file_lines(content, ends_line(content))),
        anchors_of(file_lines(content, ends_line(content))) == anchors_of(lines_of(content)),
{
    let read = lines_of(content);
    let edited = file_lines(content, ends_line(content));
    law_reading_and_editing_see_the_same_lines(content);
    assert forall|i: int| 0 <= i < read.len() implies trimmed(#[trigger] read[i]) == trimmed(edited[i]) by {
        lemma_trimmed_alike(content, i);
    }
    lemma_same_anchors(read, edited, read.len());
}

/// Trimmed, a line is the same for reading and editing.
proof fn lemma_trimmed_alike(content: Seq<char>, i: int)
    requires
        content.len() > 0,
        0 <= i < lines_of(content).len(),
    ensures
        trimmed(lines_of(content)[i]) == trimmed(file_lines(content, ends_line(content))[i]),
{
    let read = lines_of(content)[i];
    let edited = file_lines(content, ends_line(content))[i];
    law_reading_and_editing_see_the_same_lines(content);
    if read != edited {
        assert(edited =~= read.push('\r'));
        lemma_trim_ignores_end(read, '\r');
    }
}

/// A line that gets its plain anchor gets no other.
proof fn lemma_plain_anchor_given(lines: Seq<Seq<char>>, i: int)
    requires
        anchorable(lines),
        0 <= i < lines.len(),
        gets_plain(lines, anchors_of(lines).take(i)),
    ensures
        anchors_of(lines)[i] == plain_anchor(lines[i]),
{
    lemma_first_anchors_prefix(lines, i as nat, lines.len());
    lemma_first_anchors_prefix(lines, (i + 1) as nat, lines.len());
    let given = first_anchors(lines, i as nat)->0;
    assert(first_anchors(lines, (i + 1) as nat)->0 == given.push(plain_anchor(lines[i])));
    assert(anchors_of(lines)[i] == anchors_of(lines).take(i + 1)[i]);
}

/// Whether the line at `i` has the same anchor when the file is read and when it is edited.
pub open spec fn has_one_anchor(content: Seq<char>, i: int) -> bool {
    anchors_of(lines_of(content))[i] == anchors_of(file_lines(content, ends_line(content)))[i]
}

/// In any file, a line that gets its plain anchor when the file is read and when it is edited has
/// the same anchor both times, whatever carriage returns do to other lines.
pub proof fn law_plain_line_has_one_anchor(content: Seq<char>, i: int)
    requires
        content.len() > 0,
        anchorable(lines_of(content)),
        anchorable(file_lines(content, ends_line(content))),
        0 <= i < lines_of(content).len(),
        gets_plain(lines_of(content), anchors_of(lines_of(content)).take(i)),
        gets_plain(
            file_lines(content, ends_line(content)),
            anchors_of(file_lines(content, ends_line(content))).take(i),
        ),
    ensures
        has_one_anchor(content, i),
{
    law_reading_and_editing_see_the_same_lines(content);
    lemma_trimmed_alike(content, i);
    lemma_plain_anchor_given(lines_of(content), i);
    lemma_plain_anchor_given(file_lines(content, ends_line(content)), i);
}

/// The text of a file with the lines `lines`, ended like `content`.
pub open spec fn ended_like(content: Seq<char>, lines: Seq<Seq<char>>) -> Seq<char> {
    if ends_line(content) {
        joined(lines).push('\n')
    } else {
        joined(lines)
    }
}

/// Edits of a file that name their lines by anchors, no two of which concern the same line, are all
/// carried out: the lines that an edit concerns end up as this edit leaves them, and every other
/// line is kept.
pub proof fn law_separate_edits_of_a_file(content: Seq<char>, edits: Seq<EditModel>, fuzzy: bool)
    requires
        anchorable(file_lines(content, ends_line(content))),
        are_separate(prepared(edits, fuzzy), anchors_of(file_lines(content, ends_line(content)))),
    ensures
        ({
            let lines = file_lines(content, ends_line(content));
            edited_content(content, edits, fuzzy) == Some(
                Ok::<Seq<char>, ErrorModel>(
                    ended_like(content, patched(lines, anchors_of(lines), prepared(edits, fuzzy), lines.len())),
                ),
            )
        }),
{
    let lines = file_lines(content, ends_line(content));
    law_anchors_are_distinct(lines);
    law_separate_edits_do_not_interfere(lines, anchors_of(lines), prepared(edits, fuzzy), fuzzy);
}

/// Whether an edit gives no name that comes before the one which it goes by, in `anchor`, `from`,
/// `before`, `after`. An edit with a single name does not.
pub open spec fn is_named_once(edit: EditModel) -> bool {
    &&& edit.op == "insert_before"@ && edit.before is Some ==> edit.anchor is None && edit.from is None
    &&& edit.op == "insert_after"@ && edit.after is Some ==> edit.anchor is None && edit.from is None
        && edit.before is None
}

/// An edit with a single name, an anchor of the file, is ordered by the first line that it concerns.
/// So edits with single names are separate wherever no two of them concern the same line.
pub proof fn law_edits_named_once_are_separate(edits: Seq<EditModel>, anchors: Seq<Seq<char>>)
    requires
        forall|k: int|
            0 <= k < edits.len() ==> edit_span(#[trigger] edits[k], anchors) is Some && is_named_once(edits[k]),
        lie_apart(edits, anchors),
    ensures
        forall|k: int| 0 <= k < edits.len() ==> order_key(#[trigger] edits[k], anchors) == first_line(edits[k], anchors),
        are_separate(edits, anchors),
{
    assert forall|k: int| 0 <= k < edits.len() implies is_placed(#[trigger] edits[k], anchors) by {
        let edit = edits[k];
        assert(edit_span(edit, anchors) is Some && is_named_once(edit));
    }
}

/// Edits of a file that each give a single name, by which they go, of lines with these anchors, no
/// two of which concern the same line, are all carried out, in whatever order they come: the lines
/// that an edit concerns end up as this edit leaves them, and every other line is kept.
pub proof fn law_edits_find_their_lines_in_any_order(content: Seq<char>, edits: Seq<EditModel>, fuzzy: bool)
    requires
        anchorable(file_lines(content, ends_line(content))),
        ({
            let anchors = anchors_of(file_lines(content, ends_line(content)));
            let ready = prepared(edits, fuzzy);
            &&& forall|k: int|
                0 <= k < ready.len() ==> edit_span(#[trigger] ready[k], anchors) is Some && is_named_once(ready[k])
            &&& lie_apart(ready, anchors)
        }),
    ensures
        ({
            let lines = file_lines(content, ends_line(content));
            edited_content(content, edits, fuzzy) == Some(
                Ok::<Seq<char>, ErrorModel>(
                    ended_like(content, patched(lines, anchors_of(lines), prepared(edits, fuzzy), lines.len())),
                ),
            )
        }),
{
    let anchors = anchors_of(file_lines(content, ends_line(content)));
    law_edits_named_once_are_separate(prepared(edits, fuzzy), anchors);
    law_separate_edits_of_a_file(content, edits, fuzzy);
}

/// What a request with a single edit makes of a file.
proof fn lemma_single_edit(content: Seq<char>, edit: EditModel, fuzzy: bool)
    requires
        anchorable(file_lines(content, ends_line(content))),
    ensures
        ({
            let lines = file_lines(content, ends_line(content));
            let ready = prepared(seq![edit], fuzzy)[0];
            edited_content(content, seq![edit], fuzzy) == match edited(lines, anchors_of(lines), ready, fuzzy) {
                Some(Ok(after)) => Some(Ok::<Seq<char>, ErrorModel>(ended_like(content, after))),
                Some(Err(error)) => Some(Err(error)),
                None => None,
            }
        }),
{
    let lines = file_lines(content, ends_line(content));
    let anchors = anchors_of(lines);
    let edits = prepared(seq![edit], fuzzy);
    let keys = order_keys(edits, anchors);
    law_edits_run_bottom_up(keys);
    let queue = in_order(edits, anchors);
    assert(application_order(keys)[0] == 0);
    assert(queue =~= edits);
    assert(queue.drop_first() =~= Seq::empty());
    if let Some(Ok(after)) = edited(lines, anchors, edits[0], fuzzy) {
        assert(run_edits(after, anchors, queue.drop_first(), fuzzy) == Some(
            Ok::<Seq<Seq<char>>, ErrorModel>(after),
        ));
    }
}

/// An edit that names a line by the anchor which reading shows for it changes that line and no
/// other: the line is replaced, or lines are put in before or behind it.
pub proof fn law_edit_by_anchor_changes_its_line(content: Seq<char>, edit: EditModel, i: int, fuzzy: bool)
    requires
        content.len() > 0,
        anchorable(file_lines(content, ends_line(content))),
        0 <= i < lines_of(content).len(),
        has_one_anchor(content, i),
        edit_target(edit) == Some(anchors_of(lines_of(content))[i]),
    ensures
        ({
            let lines = file_lines(content, ends_line(content));
            edited_content(content, seq![edit], fuzzy) == Some(
                Ok::<Seq<char>, ErrorModel>(
                    ended_like(content, lines.take(i) + line_after(edit, lines[i]) + lines.skip(i + 1)),
                ),
            )
        }),
{
    let lines = file_lines(content, ends_line(content));
    law_reading_and_editing_see_the_same_lines(content);
    law_anchors_are_distinct(lines);
    law_anchor_names_its_line(lines, i);
    lemma_anchor_is_normalized(lines, anchors_of(lines)[i]);
    lemma_single_edit(content, edit, fuzzy);
    lemma_edit_of_span(lines, anchors_of(lines), prepared(seq![edit], fuzzy)[0], i as nat, i as nat, fuzzy);
}

/// A `replace` that names two lines by the anchors which reading shows for them, the first one not
/// below the second, puts its text in the place of these two and all between them.
pub proof fn law_range_is_replaced(content: Seq<char>, edit: EditModel, i: int, j: int, fuzzy: bool)
    requires
        content.len() > 0,
        anchorable(file_lines(content, ends_line(content))),
        0 <= i <= j < lines_of(content).len(),
        has_one_anchor(content, i),
        has_one_anchor(content, j),
        edit.op == "replace"@,
        edit.anchor is None,
        edit.from == Some(anchors_of(lines_of(content))[i]),
        edit.to == Some(anchors_of(lines_of(content))[j]),
    ensures
        ({
            let lines = file_lines(content, ends_line(content));
            edited_content(content, seq![edit], fuzzy) == Some(
                Ok::<Seq<char>, ErrorModel>(
                    ended_like(content, lines.take(i) + payload(text_or_empty(edit.text)) + lines.skip(j + 1)),
                ),
            )
        }),
{
    let lines = file_lines(content, ends_line(content));
    law_reading_and_editing_see_the_same_lines(content);
    law_anchors_are_distinct(lines);
    law_anchor_names_its_line(lines, i);
    law_anchor_names_its_line(lines, j);
    lemma_anchor_is_normalized(lines, anchors_of(lines)[i]);
    lemma_single_edit(content, edit, fuzzy);
}

/// With fuzzy matching, a `replace` whose `from` and `to` are no anchors puts its text in the place
/// of the first line that reads like `from`, the first line that reads like `to`, and all between
/// them. Two texts read alike where their normalized forms are equal.
pub proof fn law_fuzzy_range_is_replaced(content: Seq<char>, edit: EditModel, i: int, j: int)
    requires
        anchorable(file_lines(content, ends_line(content))),
        edit.op == "replace"@,
        edit.anchor is None,
        ({
            let lines = file_lines(content, ends_line(content));
            let forms = normalized_lines(lines);
            &&& edit.from matches Some(from) && {
                &&& !anchors_of(lines).contains(normalized(from))
                &&& forms[i] == normalized(from)
            }
            &&& edit.to matches Some(to) && {
                &&& !anchors_of(lines).contains(to)
                &&& forms[j] == normalized(to)
            }
            &&& 0 <= i <= j < lines.len()
            &&& forall|k: int| 0 <= k < i ==> forms[k] != forms[i]
            &&& forall|k: int| 0 <= k < j ==> forms[k] != forms[j]
        }),
    ensures
        ({
            let lines = file_lines(content, ends_line(content));
            edited_content(content, seq![edit], true) == Some(
                Ok::<Seq<char>, ErrorModel>(
                    ended_like(content, lines.take(i) + payload(text_or_empty(edit.text)) + lines.skip(j + 1)),
                ),
            )
        }),
{
    let lines = file_lines(content, ends_line(content));
    let anchors = anchors_of(lines);
    lemma_first_position(anchors, normalized(edit.from->0));
    lemma_first_position(anchors, edit.to->0);
    lemma_is_first_position(normalized_lines(lines), i);
    lemma_is_first_position(normalized_lines(lines), j);
    law_normalizing_twice(edit.from->0);
    lemma_single_edit(content, edit, true);
}

/// A `replace` with an empty text, or with none, deletes.
pub proof fn law_empty_text_deletes(edit: EditModel, line: Seq<char>)
    requires
        edit.op == "replace"@,
        text_or_empty(edit.text).len() == 0,
    ensures
        payload(text_or_empty(edit.text)).len() == 0,
        line_after(edit, line).len() == 0,
{
}

/// Whether an edit can be carried out on no lines that have these anchors: its operation is
/// unknown, it does not name the lines that it needs, or it names one by an anchor that none has.
pub open spec fn has_no_place(edit: EditModel, anchors: Seq<Seq<char>>, fuzzy: bool) -> bool {
    if edit.op == "replace"@ && edit.anchor is None {
        match (edit.from, edit.to) {
            (Some(from), Some(to)) => !fuzzy && (!anchors.contains(from) || !anchors.contains(to)),
            _ => true,
        }
    } else {
        edit_target(edit) matches Some(name) ==> !anchors.contains(name)
    }
}

proof fn lemma_has_no_place(lines: Seq<Seq<char>>, anchors: Seq<Seq<char>>, edit: EditModel, fuzzy: bool)
    requires
        has_no_place(edit, anchors, fuzzy),
    ensures
        edited(lines, anchors, edit, fuzzy) matches Some(Err(_)),
        edit_target(edit) is Some ==> edited(lines, anchors, edit, fuzzy) == Some(
            Err::<Seq<Seq<char>>, ErrorModel>(anchor_error("anchor not found"@)),
        ),
{
    if let Some(name) = edit_target(edit) {
        lemma_first_position(anchors, name);
    }
    if let Some(name) = edit.from {
        lemma_first_position(anchors, name);
    }
    if let Some(name) = edit.to {
        lemma_first_position(anchors, name);
    }
}

proof fn lemma_run_with_no_place(
    lines: Seq<Seq<char>>,
    anchors: Seq<Seq<char>>,
    edits: Seq<EditModel>,
    k: int,
    fuzzy: bool,
)
    requires
        0 <= k < edits.len(),
        has_no_place(edits[k], anchors, fuzzy),
    ensures
        !(run_edits(lines, anchors, edits, fuzzy) matches Some(Ok(_))),
    decreases edits.len(),
{
    if k == 0 {
        lemma_has_no_place(lines, anchors, edits[0], fuzzy);
    } else if let Some(Ok(next)) = edited(lines, anchors, edits.first(), fuzzy) {
        assert(edits.drop_first()[k - 1] == edits[k]);
        lemma_run_with_no_place(next, anchors, edits.drop_first(), k - 1, fuzzy);
    }
}

/// A single edit by an anchor that no line has is answered with the error for a line that is not
/// there.
pub proof fn law_unknown_anchor_is_refused(content: Seq<char>, edit: EditModel, fuzzy: bool)
    requires
        anchorable(file_lines(content, ends_line(content))),
        edit_target(prepared(seq![edit], fuzzy)[0]) matches Some(name) && !anchors_of(
            file_lines(content, ends_line(content)),
        ).contains(name),
    ensures
        edited_content(content, seq![edit], fuzzy) == Some(
            Err::<Seq<char>, ErrorModel>(anchor_error("anchor not found"@)),
        ),
{
    let lines = file_lines(content, ends_line(content));
    lemma_single_edit(content, edit, fuzzy);
    lemma_has_no_place(lines, anchors_of(lines), prepared(seq![edit], fuzzy)[0], fuzzy);
}

/// A request is carried out as a whole or not at all: where one of its edits can be carried out on
/// no lines, and none replaces the whole file, the file gets no new text.
pub proof fn law_one_bad_edit_stops_the_request(content: Seq<char>, edits: Seq<EditModel>, k: int, fuzzy: bool)
    requires
        0 <= k < edits.len(),
        has_no_place(
            prepared(edits, fuzzy)[k],
            anchors_of(file_lines(content, ends_line(content))),
            fuzzy,
        ),
        whole_text(edits) is None,
    ensures
        !(applied(edits, Ok(content), fuzzy) matches Some(Ok(_))),
{
    let lines = file_lines(content, ends_line(content));
    let anchors = anchors_of(lines);
    let ready = prepared(edits, fuzzy);
    let order = application_order(order_keys(ready, anchors));
    law_edits_run_bottom_up(order_keys(ready, anchors));
    assert(order.contains(k));
    let a = choose|a: int| 0 <= a < order.len() && order[a] == k;
    let queue = in_order(ready, anchors);
    assert(queue[a] == ready[k]);
    lemma_run_with_no_place(lines, anchors, queue, a, fuzzy);
}

/// A file without carriage returns has none that could do harm.
pub proof fn law_no_carriage_return_does_no_harm(content: Seq<char>)
    requires
        content.len() > 0,
        !content.contains('\r'),
    ensures
        carriage_returns_are_harmless(content),
        lines_of(content) == file_lines(content, ends_line(content)),
{
    law_reading_and_editing_see_the_same_lines(content);
    lemma_pieces_without(content, '\r');
    let lines = file_lines(content, ends_line(content));
    assert forall|i: int| 0 <= i < lines.len() implies without_cr(#[trigger] lines[i]) == lines[i] by {
        assert(lines[i] == split_at_each(content, '\n')[i]);
        if lines[i].len() > 0 && lines[i].last() == '\r' {
            assert(lines[i].contains(lines[i][lines[i].len() - 1]));
        }
    }
    assert(lines_of(content) =~= lines);
}

proof fn lemma_pieces_without(text: Seq<char>, c: char)
    requires
        !text.contains(c),
    ensures
        forall|i: int|
            0 <= i < split_at_each(text, '\n').len() ==> !(#[trigger] split_at_each(text, '\n')[i]).contains(c),
    decreases text.len(),
{
    if text.len() > 0 {
        let init = text.drop_last();
        if init.contains(c) {
            let k = choose|k: int| 0 <= k < init.len() && init[k] == c;
            assert(text[k] == c);
        }
        assert(text.contains(text[text.len() - 1]));
        lemma_pieces_without(init, c);
        lemma_split_nonempty(init, '\n');
        let before = split_at_each(init, '\n');
        let pieces = split_at_each(text, '\n');
        assert forall|i: int| 0 <= i < pieces.len() implies !(#[trigger] pieces[i]).contains(c) by {
            if i < before.len() - 1 {
                assert(pieces[i] == before[i]);
            } else if pieces[i].contains(c) {
                let old_last = before[before.len() - 1];
                let k = choose|k: int| 0 <= k < pieces[i].len() && pieces[i][k] == c;
                assert(k < old_last.len() && old_last[k] == c);
            }
        }
    }
}

/// What is read page by page is what is read at once: the lines behind the last one of a page
/// follow it without a gap and without repeating a line.
pub proof fn law_pages_follow_one_another(
    lines: Seq<Seq<char>>,
    after: Option<Seq<char>>,
    offset: Option<usize>,
    first: nat,
    second: nat,
)
    requires
        anchorable(lines),
        windowed(lines, after, offset, first) matches Ok(page) && page.len() > 0,
    ensures
        ({
            let page = windowed(lines, after, offset, first)->Ok_0;
            let next = windowed(lines, Some(page.last().anchor), None, second);
            &&& next is Ok
            &&& windowed(lines, after, offset, first + second) == Ok::<Seq<AnchoredLineModel>, Seq<char>>(
                page + next->Ok_0,
            )
        }),
{
    let anchors = anchors_of(lines);
    let start = window_start(anchors, after, offset)->Ok_0;
    let page = windowed(lines, after, offset, first)->Ok_0;
    let last = start + page.len() - 1;
    law_anchors_are_distinct(lines);
    assert(page.last() == page[page.len() - 1]);
    assert(page.last().anchor == anchors[last]);
    lemma_is_first_position(anchors, last);
    let next = windowed(lines, Some(page.last().anchor), None, second)->Ok_0;
    assert(windowed(lines, after, offset, first + second)->Ok_0 =~= page + next);
}

/// Reading a file from its first line on, with room for all of it, shows every line once, in order,
/// with its number.
pub proof fn law_whole_file_is_shown(lines: Seq<Seq<char>>, limit: nat)
    requires
        lines.len() <= limit,
    ensures
        windowed(lines, None, None, limit) matches Ok(rows) && {
            &&& rows.len() == lines.len()
            &&& forall|i: int|
                0 <= i < lines.len() ==> #[trigger] rows[i] == (AnchoredLineModel {
                    line: (i + 1) as nat,
                    anchor: anchors_of(lines)[i],
                    text: lines[i],
                })
        },
{
}

/// A dry run answers what the same request answers without it, but for whether the file is to be
/// changed, which a dry run never asks for.
pub proof fn law_dry_run_only_does_not_write(
    edits: Result<Seq<Edit>, ErrorModel>,
    content: Result<Seq<char>, Seq<char>>,
    path: Seq<char>,
    fuzzy: bool,
)
    ensures
        match (reply_to(edits, content, path, fuzzy, false), reply_to(edits, content, path, fuzzy, true)) {
            (
                Some(ReplyModel::Applied { content: c, diff: d, write: w }),
                Some(ReplyModel::Applied { content: dry_c, diff: dry_d, write: dry_w }),
            ) => c == dry_c && d == dry_d && w && !dry_w,
            (reply, dry_reply) => reply == dry_reply && !(reply matches Some(ReplyModel::Applied { .. })),
        },
{
}

/// A request with a `replace_all` gives the file the text of the first one, whatever the file holds,
/// whether or not it can be read, and whatever else is requested.
pub proof fn law_replace_all_wins(edits: Seq<EditModel>, k: int, content: Result<Seq<char>, Seq<char>>, fuzzy: bool)
    requires
        0 <= k < edits.len(),
        edits[k].op == "replace_all"@,
        forall|j: int| 0 <= j < k ==> #[trigger] edits[j].op != "replace_all"@,
    ensures
        applied(edits, content, fuzzy) == Some(Ok::<Seq<char>, ErrorModel>(text_or_empty(edits[k].text))),
{
    let all = ops(edits);
    assert forall|j: int| 0 <= j < k implies all[j] != all[k] by {
        assert(all[j] == edits[j].op);
    }
    lemma_is_first_position(all, k);
}

/// The order in which edits come does not matter where they start at different lines. Here `moved`
/// holds the edits in the order that `places` gives.
pub proof fn law_order_of_edits_does_not_matter(
    edits: Seq<EditModel>,
    moved: Seq<EditModel>,
    places: Seq<int>,
    anchors: Seq<Seq<char>>,
)
    requires
        places.len() == edits.len(),
        places.no_duplicates(),
        forall|k: int| 0 <= k < places.len() ==> 0 <= #[trigger] places[k] < edits.len(),
        moved == Seq::new(places.len(), |k: int| edits[places[k]]),
        forall|j: int, k: int|
            0 <= j < k < edits.len() ==> order_key(#[trigger] edits[j], anchors) != order_key(
                #[trigger] edits[k],
                anchors,
            ),
    ensures
        in_order(moved, anchors) == in_order(edits, anchors),
{
    assert forall|i: int| 0 <= i < edits.len() implies #[trigger] places.contains(i) by {
        places.unique_seq_to_set();
        vstd::set_lib::lemma_int_range(0, edits.len() as int);
        vstd::set_lib::lemma_subset_equality(
            places.to_set(),
            vstd::set_lib::set_int_range(0, edits.len() as int),
        );
        assert(places.to_set().contains(i));
    }
    assert forall|j: int, k: int| 0 <= j < k < moved.len() implies order_key(#[trigger] moved[j], anchors)
        != order_key(#[trigger] moved[k], anchors) by {
        let (x, y) = (places[j], places[k]);
        assert(moved[j] == edits[x] && moved[k] == edits[y]);
        assert(x != y);
    }
    lemma_in_order(edits, anchors);
    lemma_in_order(moved, anchors);
    let a = in_order(edits, anchors);
    let b = in_order(moved, anchors);
    assert forall|e: EditModel| a.contains(e) <==> b.contains(e) by {
        if a.contains(e) {
            assert(edits.contains(e));
            let i = choose|i: int| 0 <= i < edits.len() && edits[i] == e;
            assert(places.contains(i));
            let k = choose|k: int| 0 <= k < places.len() && places[k] == i;
            assert(moved[k] == e);
            assert(moved.contains(e));
        }
        if b.contains(e) {
            assert(moved.contains(e));
            let k = choose|k: int| 0 <= k < moved.len() && moved[k] == e;
            assert(edits[places[k]] == e);
            assert(edits.contains(e));
        }
    }
    lemma_same_descent(a, b, anchors);
}

/// Whether the keys of the edits get smaller all the way.
spec fn descends(edits: Seq<EditModel>, anchors: Seq<Seq<char>>) -> bool {
    forall|j: int, k: int|
        0 <= j < k < edits.len() ==> order_key(#[trigger] edits[j], anchors) > order_key(
            #[trigger] edits[k],
            anchors,
        )
}

proof fn lemma_in_order(edits: Seq<EditModel>, anchors: Seq<Seq<char>>)
    requires
        forall|j: int, k: int|
            0 <= j < k < edits.len() ==> order_key(#[trigger] edits[j], anchors) != order_key(
                #[trigger] edits[k],
                anchors,
            ),
    ensures
        descends(in_order(edits, anchors), anchors),
        forall|e: EditModel| #[trigger] in_order(edits, anchors).contains(e) <==> edits.contains(e),
{
    let keys = order_keys(edits, anchors);
    let order = application_order(keys);
    let queue = in_order(edits, anchors);
    law_edits_run_bottom_up(keys);
    assert forall|j: int, k: int| 0 <= j < k < queue.len() implies order_key(#[trigger] queue[j], anchors)
        > order_key(#[trigger] queue[k], anchors) by {
        let (x, y) = (order[j], order[k]);
        assert(queue[j] == edits[x] && queue[k] == edits[y]);
        assert(keys[x] == order_key(edits[x], anchors) && keys[y] == order_key(edits[y], anchors));
        assert(order_key(edits[x], anchors) != order_key(edits[y], anchors));
    }
    assert forall|e: EditModel| #[trigger] queue.contains(e) <==> edits.contains(e) by {
        if queue.contains(e) {
            let k = choose|k: int| 0 <= k < queue.len() && queue[k] == e;
            assert(edits[order[k]] == e);
        }
        if edits.contains(e) {
            let i = choose|i: int| 0 <= i < edits.len() && edits[i] == e;
            assert(order.contains(i));
            let k = choose|k: int| 0 <= k < order.len() && order[k] == i;
            assert(queue[k] == e);
        }
    }
}

proof fn lemma_same_descent(a: Seq<EditModel>, b: Seq<EditModel>, anchors: Seq<Seq<char>>)
    requires
        descends(a, anchors),
        descends(b, anchors),
        forall|e: EditModel| a.contains(e) <==> b.contains(e),
    ensures
        a == b,
    decreases a.len(),
{
    if a.len() == 0 || b.len() == 0 {
        if a.len() > 0 {
            assert(a.contains(a[0]));
        }
        if b.len() > 0 {
            assert(b.contains(b[0]));
        }
        assert(a =~= b);
    } else {
        assert(a.contains(a[0]) && b.contains(b[0]));
        let i = choose|i: int| 0 <= i < b.len() && b[i] == a[0];
        let j = choose|j: int| 0 <= j < a.len() && a[j] == b[0];
        if i > 0 && j > 0 {
            assert(order_key(b[0], anchors) > order_key(b[i], anchors));
            assert(order_key(a[0], anchors) > order_key(a[j], anchors));
        }
        assert(a[0] == b[0]);
        let (c, d) = (a.drop_first(), b.drop_first());
        assert forall|e: EditModel| c.contains(e) <==> d.contains(e) by {
            if c.contains(e) {
                let k = choose|k: int| 0 <= k < c.len() && c[k] == e;
                assert(a[k + 1] == e);
                assert(a.contains(e));
                let m = choose|m: int| 0 <= m < b.len() && b[m] == e;
                assert(order_key(a[0], anchors) > order_key(a[k + 1], anchors));
                assert(d[m - 1] == e);
            }
            if d.contains(e) {
                let k = choose|k: int| 0 <= k < d.len() && d[k] == e;
                assert(b[k + 1] == e);
                assert(b.contains(e));
                let m = choose|m: int| 0 <= m < a.len() && a[m] == e;
                assert(order_key(b[0], anchors) > order_key(b[k + 1], anchors));
                assert(c[m - 1] == e);
            }
        }
        assert(descends(c, anchors)) by {
            assert forall|j: int| 0 <= j < c.len() implies c[j] == a[j + 1] by {}
        }
        assert(descends(d, anchors)) by {
            assert forall|j: int| 0 <= j < d.len() implies d[j] == b[j + 1] by {}
        }
        lemma_same_descent(c, d, anchors);
        assert(a =~= seq![a[0]] + c);
        assert(b =~= seq![b[0]] + d);
    }
}

/// Whether no line holds a line feed.
pub open spec fn are_lines(lines: Seq<Seq<char>>) -> bool {
    forall|i: int| 0 <= i < lines.len() ==> !(#[trigger] lines[i]).contains('\n')
}

/// What an edit makes of lines are lines: no line feed gets into one.
pub proof fn law_edits_keep_lines(
    lines: Seq<Seq<char>>,
    anchors: Seq<Seq<char>>,
    edit: EditModel,
    fuzzy: bool,
)
    requires
        are_lines(lines),
    ensures
        edited(lines, anchors, edit, fuzzy) matches Some(Ok(after)) ==> are_lines(after),
{
    let put = payload(text_or_empty(edit.text));
    law_joining_undoes_splitting(text_or_empty(edit.text));
    assert(are_lines(put));
    if let Some(Ok(after)) = edited(lines, anchors, edit, fuzzy) {
        assert forall|i: int| 0 <= i < after.len() implies !(#[trigger] after[i]).contains('\n') by {
            assert((exists|j: int| 0 <= j < lines.len() && after[i] == #[trigger] lines[j]) || (exists|j: int|
                0 <= j < put.len() && after[i] == #[trigger] put[j])) by {
                lemma_where_from(lines, anchors, edit, fuzzy, i);
            }
        }
    }
}

/// Each line that an edit leaves was there before or is put in.
proof fn lemma_where_from(
    lines: Seq<Seq<char>>,
    anchors: Seq<Seq<char>>,
    edit: EditModel,
    fuzzy: bool,
    i: int,
)
    requires
        edited(lines, anchors, edit, fuzzy) matches Some(Ok(after)) && 0 <= i < after.len(),
    ensures
        ({
            let after = edited(lines, anchors, edit, fuzzy)->0->Ok_0;
            let put = payload(text_or_empty(edit.text));
            ||| exists|j: int| 0 <= j < lines.len() && after[i] == #[trigger] lines[j]
            ||| exists|j: int| 0 <= j < put.len() && after[i] == #[trigger] put[j]
        }),
{
    let after = edited(lines, anchors, edit, fuzzy)->0->Ok_0;
    let put = payload(text_or_empty(edit.text));
    let (start, end): (int, int) = if edit.op == "replace"@ {
        let range = replaced_range(lines, anchors, edit, fuzzy)->Ok_0;
        (range.0 as int, range.1 as int + 1)
    } else if edit.op == "insert_before"@ {
        let site = anchor_site(anchors, either_text(edit.before, edit.anchor)->0)->Ok_0;
        (site as int, site as int)
    } else {
        let site = anchor_site(anchors, either_text(edit.after, edit.anchor)->0)->Ok_0;
        (site as int + 1, site as int + 1)
    };
    if edit.op != "replace"@ && put.len() == 0 {
        assert(after[i] == lines[i]);
    } else {
        assert(after == lines.take(start) + put + lines.skip(end));
        if i < start {
            assert(after[i] == lines[i]);
        } else if i < start + put.len() {
            assert(after[i] == put[i - start]);
        } else {
            assert(after[i] == lines[end + i - start - put.len()]);
        }
    }
}

proof fn lemma_runs_keep_lines(
    lines: Seq<Seq<char>>,
    anchors: Seq<Seq<char>>,
    edits: Seq<EditModel>,
    fuzzy: bool,
)
    requires
        are_lines(lines),
    ensures
        run_edits(lines, anchors, edits, fuzzy) matches Some(Ok(after)) ==> are_lines(after),
    decreases edits.len(),
{
    if edits.len() > 0 {
        law_edits_keep_lines(lines, anchors, edits.first(), fuzzy);
        if let Some(Ok(next)) = edited(lines, anchors, edits.first(), fuzzy) {
            lemma_runs_keep_lines(next, anchors, edits.drop_first(), fuzzy);
        }
    }
}

/// An edited file, taken apart again, consists of the lines that the edits left, where they left
/// any and the last one is not lost for want of a line feed behind it.
pub proof fn law_edited_file_holds_the_lines_left(content: Seq<char>, edits: Seq<EditModel>, fuzzy: bool)
    requires
        anchorable(file_lines(content, ends_line(content))),
        ({
            let lines = file_lines(content, ends_line(content));
            let anchors = anchors_of(lines);
            run_edits(lines, anchors, in_order(prepared(edits, fuzzy), anchors), fuzzy) matches Some(Ok(left))
                && left.len() > 0 && (ends_line(content) || left.last().len() > 0)
        }),
    ensures
        ({
            let lines = file_lines(content, ends_line(content));
            let anchors = anchors_of(lines);
            let left = run_edits(lines, anchors, in_order(prepared(edits, fuzzy), anchors), fuzzy)->0->Ok_0;
            &&& edited_content(content, edits, fuzzy) matches Some(Ok(text))
            &&& ends_line(text) == ends_line(content)
            &&& file_lines(text, ends_line(text)) == left
        }),
{
    let lines = file_lines(content, ends_line(content));
    let anchors = anchors_of(lines);
    let queue = in_order(prepared(edits, fuzzy), anchors);
    let left = run_edits(lines, anchors, queue, fuzzy)->0->Ok_0;
    law_joining_undoes_splitting(content);
    lemma_split_nonempty(content, '\n');
    assert forall|i: int| 0 <= i < lines.len() implies !(#[trigger] lines[i]).contains('\n') by {
        assert(lines[i] == split_at_each(content, '\n')[i]);
    }
    lemma_runs_keep_lines(lines, anchors, queue, fuzzy);
    law_splitting_undoes_joining(left);
    let text = ended_like(content, left);
    if ends_line(content) {
        assert(text.drop_last() =~= joined(left));
        assert(split_at_each(text, '\n').drop_last() =~= left);
    } else {
        let last = left.last();
        assert(text.last() == last.last()) by {
            if left.len() > 1 {
                assert(text == joined(left.drop_last()).push('\n') + last);
            }
        }
        assert(last == left[left.len() - 1]);
        assert(last.contains(last[last.len() - 1]));
    }
}

/// Whether `name` is not given or is one of the anchors.
pub open spec fn names_anchor(name: Option<Seq<char>>, anchors: Seq<Seq<char>>) -> bool {
    name matches Some(n) ==> anchors.contains(n)
}

/// Whether an edit names lines by anchors of the file only.
pub open spec fn uses_anchors(edit: EditModel, anchors: Seq<Seq<char>>) -> bool {
    &&& names_anchor(edit.from, anchors)
    &&& names_anchor(edit.to, anchors)
    &&& names_anchor(edit.before, anchors)
    &&& names_anchor(edit.after, anchors)
}

/// A request that names lines by their anchors is carried out alike with fuzzy matching and
/// without it.
pub proof fn law_fuzzy_does_not_matter_to_anchors(content: Seq<char>, edits: Seq<EditModel>)
    requires
        anchorable(file_lines(content, ends_line(content))),
        forall|k: int|
            0 <= k < edits.len() ==> uses_anchors(
                #[trigger] edits[k],
                anchors_of(file_lines(content, ends_line(content))),
            ),
    ensures
        edited_content(content, edits, true) == edited_content(content, edits, false),
{
    let lines = file_lines(content, ends_line(content));
    let anchors = anchors_of(lines);
    assert forall|k: int| 0 <= k < edits.len() implies with_normalized_keys(#[trigger] edits[k]) == edits[k] by {
        assert(uses_anchors(edits[k], anchors));
        if let Some(name) = edits[k].from {
            lemma_anchor_is_normalized(lines, name);
        }
        if let Some(name) = edits[k].before {
            lemma_anchor_is_normalized(lines, name);
        }
        if let Some(name) = edits[k].after {
            lemma_anchor_is_normalized(lines, name);
        }
    }
    assert(prepared(edits, true) =~= prepared(edits, false));
    let keys = order_keys(edits, anchors);
    law_edits_run_bottom_up(keys);
    let queue = in_order(edits, anchors);
    assert forall|k: int| 0 <= k < queue.len() implies uses_anchors(#[trigger] queue[k], anchors) by {
        assert(queue[k] == edits[application_order(keys)[k]]);
    }
    lemma_run_ignores_fuzzy(lines, anchors, queue);
}

proof fn lemma_anchor_is_normalized(lines: Seq<Seq<char>>, anchor: Seq<char>)
    requires
        anchorable(lines),
        anchors_of(lines).contains(anchor),
    ensures
        normalized(anchor) == anchor,
{
    law_anchors_are_distinct(lines);
    let i = choose|i: int| 0 <= i < anchors_of(lines).len() && anchors_of(lines)[i] == anchor;
    assert forall|k: int| 0 <= k < anchor.len() implies hex_digit(#[trigger] anchor[k]) by {
        assert(hex_digit(anchors_of(lines)[i][k]));
    }
    law_normalized_form_is_kept(anchor);
}

proof fn lemma_run_ignores_fuzzy(lines: Seq<Seq<char>>, anchors: Seq<Seq<char>>, edits: Seq<EditModel>)
    requires
        forall|k: int| 0 <= k < edits.len() ==> uses_anchors(#[trigger] edits[k], anchors),
    ensures
        run_edits(lines, anchors, edits, true) == run_edits(lines, anchors, edits, false),
    decreases edits.len(),
{
    if edits.len() > 0 {
        let edit = edits.first();
        assert(uses_anchors(edits[0], anchors));
        if let Some(name) = edit.from {
            lemma_first_position(anchors, name);
        }
        if let Some(name) = edit.to {
            lemma_first_position(anchors, name);
        }
        assert(edited(lines, anchors, edit, true) == edited(lines, anchors, edit, false));
        let rest = edits.drop_first();
        assert forall|k: int| 0 <= k < rest.len() implies uses_anchors(#[trigger] rest[k], anchors) by {
            assert(rest[k] == edits[k + 1]);
        }
        if let Some(Ok(next)) = edited(lines, anchors, edit, true) {
            lemma_run_ignores_fuzzy(next, anchors, rest);
        }
    }
}

} // verus!
