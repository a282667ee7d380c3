//! A batch of edits: the order in which they are carried out, and what they make of a file.
use crate::anchors::{anchorable, anchors_of, try_anchors_for};
use crate::edit::{
    apply_edit, edit_fits, edit_start_index, edited, failed_error, first_position,
    law_edit_starts_at_the_line_it_names, lemma_first_position, lemma_is_first_position, optional_text,
    stands_first_at, start_site, text_or_empty, Edit, EditError, EditModel, ErrorModel,
};
use crate::normalize::{normalize_text, normalized};
use crate::text::{
    ends_line, ends_with_newline, join_lines, joined, law_joining_undoes_splitting,
    law_joining_undoes_splitting_of_ended_text, lemma_split_nonempty, same_text, split_at_each, split_newlines, texts,
};
use vstd::prelude::*;

verus! {

/// The lines of a file with the text `content`, of which the piece behind the last line feed is
/// left out where `trailing_newline` says that a line feed ends the text.
pub open spec fn file_lines(content: Seq<char>, trailing_newline: bool) -> Seq<Seq<char>> {
    let pieces = split_at_each(content, '\n');
    if trailing_newline {
        pieces.drop_last()
    } else {
        pieces
    }
}

/// Splits the text of a file into its lines.
pub fn split_file_lines(content: &str, trailing_newline: bool) -> (lines: Vec<String>)
    ensures
        texts(lines@) == file_lines(content@, trailing_newline),
{
    let mut lines: Vec<String> = split_newlines(content);
    proof {
        lemma_split_nonempty(content@, '\n');
        assert(texts(lines@).len() == lines@.len());
    }
    if trailing_newline {
        let ghost all = lines@;
        lines.pop();
        assert(texts(lines@) =~= texts(all).drop_last());
    }
    lines
}

/// The texts in a list of edits.
pub open spec fn models(edits: Seq<Edit>) -> Seq<EditModel> {
    Seq::new(edits.len(), |i: int| edits[i]@)
}

/// The place in `order`, which goes from larger keys to smaller ones, behind all entries whose key
/// is no smaller than `key`.
pub open spec fn place_for(order: Seq<int>, keys: Seq<nat>, key: nat) -> nat
    decreases order.len(),
{
    if order.len() == 0 || keys[order.last()] >= key {
        order.len()
    } else {
        place_for(order.drop_last(), keys, key)
    }
}

/// The order in which edits with the keys `keys` are carried out: the largest key first, and
/// among equal keys the earlier edit first. Each entry is the index of an edit.
pub open spec fn application_order(keys: Seq<nat>) -> Seq<int>
    decreases keys.len(),
{
    if keys.len() == 0 {
        Seq::empty()
    } else {
        let before = application_order(keys.drop_last());
        before.insert(place_for(before, keys, keys.last()) as int, keys.len() - 1)
    }
}

/// Whether `order` lists each of the edits with the keys `keys` once, a larger key before a
/// smaller one, and among equal keys the earlier edit first.
pub open spec fn is_application_order(keys: Seq<nat>, order: Seq<int>) -> bool {
    &&& order.len() == keys.len()
    &&& forall|a: int| 0 <= a < order.len() ==> 0 <= #[trigger] order[a] < keys.len()
    &&& forall|i: int| 0 <= i < keys.len() ==> #[trigger] order.contains(i)
    &&& forall|a: int, b: int|
        0 <= a < b < order.len() ==> {
            ||| keys[#[trigger] order[a]] > keys[#[trigger] order[b]]
            ||| keys[order[a]] == keys[order[b]] && order[a] < order[b]
        }
}

proof fn lemma_place_for(order: Seq<int>, keys: Seq<nat>, key: nat)
    requires
        forall|a: int, b: int|
            0 <= a < b < order.len() ==> keys[#[trigger] order[a]] >= keys[#[trigger] order[b]],
    ensures
        place_for(order, keys, key) <= order.len(),
        forall|a: int| 0 <= a < place_for(order, keys, key) ==> keys[#[trigger] order[a]] >= key,
        forall|a: int| place_for(order, keys, key) <= a < order.len() ==> keys[#[trigger] order[a]] < key,
    decreases order.len(),
{
    if order.len() == 0 {
    } else if keys[order.last()] >= key {
        assert forall|a: int| 0 <= a < order.len() implies keys[#[trigger] order[a]] >= key by {
            assert(order[order.len() - 1] == order.last());
        }
    } else {
        let init = order.drop_last();
        assert forall|a: int, b: int| 0 <= a < b < init.len() implies keys[#[trigger] init[a]]
            >= keys[#[trigger] init[b]] by {
            assert(init[a] == order[a] && init[b] == order[b]);
        }
        lemma_place_for(init, keys, key);
        assert forall|a: int| 0 <= a < place_for(order, keys, key) implies keys[#[trigger] order[a]]
            >= key by {
            assert(init[a] == order[a]);
        }
        assert forall|a: int| place_for(order, keys, key) <= a < order.len() implies keys[#[trigger] order[a]]
            < key by {
            if a < init.len() {
                assert(init[a] == order[a]);
            }
        }
    }
}

/// Edits are carried out from the last line that one of them names to the first, and those that
/// name the same line in the order in which they came.
pub proof fn law_edits_run_bottom_up(keys: Seq<nat>)
    ensures
        is_application_order(keys, application_order(keys)),
    decreases keys.len(),
{
    if keys.len() > 0 {
        let init = keys.drop_last();
        law_edits_run_bottom_up(init);
        let before = application_order(init);
        let n = keys.len() - 1;
        assert forall|a: int, b: int| 0 <= a < b < before.len() implies {
            ||| keys[#[trigger] before[a]] > keys[#[trigger] before[b]]
            ||| keys[before[a]] == keys[before[b]] && before[a] < before[b]
        } by {
            assert(init[before[a]] == keys[before[a]] && init[before[b]] == keys[before[b]]);
        }
        lemma_place_for(before, keys, keys.last());
        let p = place_for(before, keys, keys.last()) as int;
        let order = before.insert(p, n);
        assert forall|a: int| 0 <= a < order.len() implies order[a] == (if a < p {
            before[a]
        } else if a == p {
            n
        } else {
            before[a - 1]
        }) by {}
        assert forall|i: int| 0 <= i < keys.len() implies #[trigger] order.contains(i) by {
            if i == n {
                assert(order[p] == i);
            } else {
                assert(before.contains(i));
                let a = choose|a: int| 0 <= a < before.len() && before[a] == i;
                assert(order[if a < p { a } else { a + 1 }] == i);
            }
        }
    }
}

/// The key by which an edit is ordered: the index of the line at which it starts, or 0.
pub open spec fn order_key(edit: EditModel, anchors: Seq<Seq<char>>) -> nat {
    match start_site(edit, anchors) {
        Ok(i) => i,
        Err(_) => 0,
    }
}

/// The keys of the edits.
pub open spec fn order_keys(edits: Seq<EditModel>, anchors: Seq<Seq<char>>) -> Seq<nat> {
    Seq::new(edits.len(), |i: int| order_key(edits[i], anchors))
}

/// The edits in the order in which they are carried out.
pub open spec fn in_order(edits: Seq<EditModel>, anchors: Seq<Seq<char>>) -> Seq<EditModel> {
    let order = application_order(order_keys(edits, anchors));
    Seq::new(order.len(), |k: int| edits[order[k]])
}

/// What the edits make of the lines, carried out one by one. The first one that is refused ends
/// the work, and so does the first one that reaches past the end, which gives `None`.
pub open spec fn run_edits(
    lines: Seq<Seq<char>>,
    anchors: Seq<Seq<char>>,
    edits: Seq<EditModel>,
    fuzzy: bool,
) -> Option<Result<Seq<Seq<char>>, ErrorModel>>
    decreases edits.len(),
{
    if edits.len() == 0 {
        Some(Ok(lines))
    } else {
        match edited(lines, anchors, edits.first(), fuzzy) {
            Some(Ok(next)) => run_edits(next, anchors, edits.drop_first(), fuzzy),
            Some(Err(error)) => Some(Err(error)),
            None => None,
        }
    }
}

/// Computes the order in which edits with the keys `keys` are carried out.
fn order_by_key(keys: &[usize]) -> (order: Vec<usize>)
    ensures
        order@.map_values(|i: usize| i as int) == application_order(keys@.map_values(|k: usize| k as nat)),
{
    let ghost all = keys@.map_values(|k: usize| k as nat);
    let mut order: Vec<usize> = Vec::new();
    let mut n: usize = 0;
    assert(order@.map_values(|i: usize| i as int) =~= application_order(all.take(0)));
    while n < keys.len()
        invariant
            n <= keys@.len(),
            all == keys@.map_values(|k: usize| k as nat),
            order@.map_values(|i: usize| i as int) == application_order(all.take(n as int)),
        decreases keys@.len() - n,
    {
        let ghost before = order@.map_values(|i: usize| i as int);
        proof {
            law_edits_run_bottom_up(all.take(n as int));
            assert(before.len() == order@.len());
            assert forall|a: int| 0 <= a < before.len() implies 0 <= #[trigger] order@[a] < n by {
                assert(before[a] == order@[a]);
            }
            assert(all.take(n as int + 1).drop_last() =~= all.take(n as int));
            assert(all.take(n as int + 1).last() == keys@[n as int]);
        }
        let ghost wide = all.take(n as int + 1);
        let mut p: usize = order.len();
        assert(before.take(p as int) =~= before);
        while p > 0 && keys[order[p - 1]] < keys[n]
            invariant
                p <= order@.len(),
                n < keys@.len(),
                all == keys@.map_values(|k: usize| k as nat),
                wide == all.take(n as int + 1),
                before == order@.map_values(|i: usize| i as int),
                forall|a: int| 0 <= a < order@.len() ==> 0 <= #[trigger] order@[a] < n,
                place_for(before, wide, keys@[n as int] as nat) == place_for(
                    before.take(p as int),
                    wide,
                    keys@[n as int] as nat,
                ),
            decreases p,
        {
            assert(before.take(p as int).last() == order@[p - 1]);
            assert(wide[order@[p - 1] as int] == keys@[order@[p - 1] as int]);
            assert(before.take(p as int).drop_last() =~= before.take(p as int - 1));
            p -= 1;
        }
        proof {
            if p > 0 {
                assert(before.take(p as int).last() == order@[p - 1]);
                assert(wide[order@[p - 1] as int] == keys@[order@[p - 1] as int]);
            }
        }
        order.insert(p, n);
        assert(order@.map_values(|i: usize| i as int) =~= before.insert(p as int, n as int));
        n += 1;
    }
    assert(all.take(n as int) =~= all);
    order
}

/// The normalized form of an optional text.
pub open spec fn optional_normalized(text: Option<Seq<char>>) -> Option<Seq<char>> {
    match text {
        Some(t) => Some(normalized(t)),
        None => None,
    }
}

/// The edit with `from`, `before` and `after` normalized.
pub open spec fn with_normalized_keys(edit: EditModel) -> EditModel {
    EditModel {
        from: optional_normalized(edit.from),
        before: optional_normalized(edit.before),
        after: optional_normalized(edit.after),
        ..edit
    }
}

/// The edits as they are carried out: with normalized keys where `fuzzy` asks for it.
pub open spec fn prepared(edits: Seq<EditModel>, fuzzy: bool) -> Seq<EditModel> {
    if fuzzy {
        Seq::new(edits.len(), |i: int| with_normalized_keys(edits[i]))
    } else {
        edits
    }
}

/// Normalizes an optional string.
fn normalize_optional(text: Option<String>) -> (res: Option<String>)
    ensures
        optional_text(res) == optional_normalized(optional_text(text)),
{
    match text {
        Some(t) => Some(normalize_text(t.as_str())),
        None => None,
    }
}

/// Normalizes the keys of an edit.
fn normalize_keys(edit: Edit) -> (res: Edit)
    ensures
        res@ == with_normalized_keys(edit@),
{
    Edit {
        op: edit.op,
        anchor: edit.anchor,
        from: normalize_optional(edit.from),
        to: edit.to,
        before: normalize_optional(edit.before),
        after: normalize_optional(edit.after),
        text: edit.text,
    }
}

/// What the edits make of the text of a file. `None` where the lines cannot each get an anchor, or
/// an edit reaches past the end.
pub open spec fn edited_content(content: Seq<char>, edits: Seq<EditModel>, fuzzy: bool) -> Option<
    Result<Seq<char>, ErrorModel>,
> {
    let lines = file_lines(content, ends_line(content));
    let anchors = anchors_of(lines);
    if !anchorable(lines) {
        None
    } else {
        match run_edits(lines, anchors, in_order(prepared(edits, fuzzy), anchors), fuzzy) {
            Some(Ok(after)) => Some(
                Ok(
                    if ends_line(content) {
                        joined(after).push('\n')
                    } else {
                        joined(after)
                    },
                ),
            ),
            Some(Err(error)) => Some(Err(error)),
            None => None,
        }
    }
}

/// A returned text, with an error taken by its texts.
pub open spec fn text_outcome(result: Result<String, EditError>) -> Result<Seq<char>, ErrorModel> {
    match result {
        Ok(text) => Ok(text@),
        Err(error) => Err(error@),
    }
}

/// What is returned for a file, with texts for strings.
pub open spec fn optional_outcome(result: Option<Result<String, EditError>>) -> Option<
    Result<Seq<char>, ErrorModel>,
> {
    match result {
        Some(r) => Some(text_outcome(r)),
        None => None,
    }
}

/// Makes the edits ready and computes their keys.
fn prepare_edits(edits: Vec<Edit>, anchors: &[String], fuzzy: bool) -> (res: (Vec<Option<Edit>>, Vec<usize>))
    ensures
        res.0@.len() == edits@.len(),
        forall|i: int|
            0 <= i < edits@.len() ==> ((#[trigger] res.0@[i]) matches Some(e) && e@ == prepared(
                models(edits@),
                fuzzy,
            )[i]),
        res.1@.map_values(|k: usize| k as nat) == order_keys(prepared(models(edits@), fuzzy), texts(anchors@)),
{
    let ghost all = prepared(models(edits@), fuzzy);
    let ghost expected = order_keys(all, texts(anchors@));
    let mut slots: Vec<Option<Edit>> = Vec::new();
    let mut keys: Vec<usize> = Vec::new();
    assert(keys@.map_values(|k: usize| k as nat) =~= expected.take(0));
    for edit in it: edits.into_iter()
        invariant
            it.seq() == edits@,
            all == prepared(models(edits@), fuzzy),
            expected == order_keys(all, texts(anchors@)),
            slots@.len() == it.index(),
            forall|i: int| 0 <= i < slots@.len() ==> ((#[trigger] slots@[i]) matches Some(e) && e@ == all[i]),
            keys@.map_values(|k: usize| k as nat) == expected.take(it.index() as int),
    {
        let ghost i = it.index() as int;
        let ghost before = keys@.map_values(|k: usize| k as nat);
        let ready: Edit = if fuzzy {
            normalize_keys(edit)
        } else {
            edit
        };
        assert(ready@ == all[i]);
        let key: usize = match edit_start_index(&ready, anchors) {
            Ok(index) => index,
            Err(_) => 0,
        };
        keys.push(key);
        slots.push(Some(ready));
        assert(keys@.map_values(|k: usize| k as nat) =~= before.push(expected[i]));
        assert(keys@.map_values(|k: usize| k as nat) =~= expected.take(i + 1));
    }
    assert(expected.take(edits@.len() as int) =~= expected);
    (slots, keys)
}

/// Carries out the edits on the text of a file. `None` where the lines cannot each get an anchor,
/// or an edit reaches past the end.
pub fn edit_content(content: &str, edits: Vec<Edit>, fuzzy: bool) -> (result: Option<Result<String, EditError>>)
    ensures
        optional_outcome(result) == edited_content(content@, models(edits@), fuzzy),
{
    let trailing_newline: bool = ends_with_newline(content);
    let mut lines: Vec<String> = split_file_lines(content, trailing_newline);
    let anchors: Vec<String> = match try_anchors_for(lines.as_slice()) {
        Some(anchors) => anchors,
        None => return None,
    };
    let ghost names = texts(anchors@);
    let ghost start = texts(lines@);
    let ghost all = prepared(models(edits@), fuzzy);
    let (mut slots, keys) = prepare_edits(edits, anchors.as_slice(), fuzzy);
    let order: Vec<usize> = order_by_key(keys.as_slice());
    let ghost places = order@.map_values(|i: usize| i as int);
    let ghost queue = in_order(all, names);
    proof {
        law_edits_run_bottom_up(order_keys(all, names));
        assert(places.len() == order@.len());
        assert forall|j: int| 0 <= j < order@.len() implies {
            &&& 0 <= #[trigger] order@[j] < slots@.len()
            &&& queue[j] == all[order@[j] as int]
        } by {
            assert(places[j] == order@[j]);
        }
        assert forall|i: int, j: int| 0 <= i < j < order@.len() implies #[trigger] order@[i]
            != #[trigger] order@[j] by {
            assert(places[i] == order@[i] && places[j] == order@[j]);
        }
        assert(queue.skip(0) =~= queue);
    }
    let mut k: usize = 0;
    while k < order.len()
        invariant
            k <= order@.len(),
            order@.len() == queue.len(),
            start == file_lines(content@, ends_line(content@)),
            anchorable(start),
            names == anchors_of(start),
            names == texts(anchors@),
            all == prepared(models(edits@), fuzzy),
            queue == in_order(all, names),
            slots@.len() == all.len(),
            forall|j: int| 0 <= j < order@.len() ==> 0 <= #[trigger] order@[j] < slots@.len(),
            forall|j: int| 0 <= j < order@.len() ==> queue[j] == all[#[trigger] order@[j] as int],
            forall|i: int, j: int|
                0 <= i < j < order@.len() ==> #[trigger] order@[i] != #[trigger] order@[j],
            forall|j: int|
                k <= j < order@.len() ==> (slots@[#[trigger] order@[j] as int] matches Some(e) && e@
                    == queue[j]),
            run_edits(start, names, queue, fuzzy) == run_edits(texts(lines@), names, queue.skip(k as int), fuzzy),
        decreases order@.len() - k,
    {
        proof {
            assert(queue.skip(k as int).first() == queue[k as int]);
            assert(queue.skip(k as int).drop_first() =~= queue.skip(k as int + 1));
        }
        let i: usize = order[k];
        let edit: Edit = slots[i].take().unwrap();
        if !edit_fits(lines.as_slice(), anchors.as_slice(), &edit, fuzzy) {
            return None;
        }
        match apply_edit(&mut lines, anchors.as_slice(), edit, fuzzy) {
            Ok(_) => {},
            Err(error) => return Some(Err(error)),
        }
        k += 1;
    }
    let mut output: String = join_lines(lines.as_slice());
    if trailing_newline {
        output.push('\n');
    }
    Some(Ok(output))
}

/// The operations of the edits.
pub open spec fn ops(edits: Seq<EditModel>) -> Seq<Seq<char>> {
    Seq::new(edits.len(), |i: int| edits[i].op)
}

/// The text that the first `replace_all` among the edits puts in the place of the whole file.
pub open spec fn whole_text(edits: Seq<EditModel>) -> Option<Seq<char>> {
    match first_position(ops(edits), "replace_all"@) {
        Some(i) => Some(text_or_empty(edits[i as int].text)),
        None => None,
    }
}

/// Finds the text that the first `replace_all` puts in the place of the whole file.
pub fn replace_all_text(edits: &[Edit]) -> (text: Option<String>)
    ensures
        optional_text(text) == whole_text(models(edits@)),
{
    let ghost all = ops(models(edits@));
    let mut i: usize = 0;
    while i < edits.len()
        invariant
            i <= edits@.len(),
            all == ops(models(edits@)),
            forall|j: int| 0 <= j < i ==> all[j] != "replace_all"@,
        decreases edits@.len() - i,
    {
        assert(all[i as int] == edits@[i as int]@.op);
        if same_text(edits[i].op.as_str(), "replace_all") {
            proof {
                lemma_is_first_position(all, i as int);
            }
            return match &edits[i].text {
                Some(text) => Some(text.clone()),
                None => Some(String::new()),
            };
        }
        i += 1;
    }
    proof {
        lemma_first_position(all, "replace_all"@);
    }
    None
}

/// The text in what came of reading a file: its content, or a message.
pub open spec fn read_text(content: Result<String, String>) -> Result<Seq<char>, Seq<char>> {
    match content {
        Ok(text) => Ok(text@),
        Err(message) => Err(message@),
    }
}

/// What the edits make of a file, given what came of reading it. A `replace_all` does not look at
/// the file. `None` where the lines cannot each get an anchor, or an edit reaches past the end.
pub open spec fn applied(edits: Seq<EditModel>, content: Result<Seq<char>, Seq<char>>, fuzzy: bool) -> Option<
    Result<Seq<char>, ErrorModel>,
> {
    match (whole_text(edits), content) {
        (Some(text), _) => Some(Ok(text)),
        (None, Err(message)) => Some(Err(failed_error(message))),
        (None, Ok(text)) => edited_content(text, edits, fuzzy),
    }
}

/// Carries out the edits on a file, given what came of reading it. `None` where the lines cannot
/// each get an anchor, or an edit reaches past the end.
pub fn apply_edits(edits: Vec<Edit>, content: Result<String, String>, fuzzy: bool) -> (result: Option<
    Result<String, EditError>,
>)
    ensures
        optional_outcome(result) == applied(models(edits@), read_text(content), fuzzy),
{
    if let Some(text) = replace_all_text(edits.as_slice()) {
        return Some(Ok(text));
    }
    match content {
        Ok(text) => edit_content(text.as_str(), edits, fuzzy),
        Err(message) => Some(Err(EditError::failed(message.as_str()))),
    }
}

/// What functions take and return here is seen by the texts in it.
pub proof fn law_edits_and_outcomes_are_seen_by_their_texts(
    edits: Seq<Edit>,
    text: String,
    error: EditError,
    message: String,
)
    ensures
        models(edits).len() == edits.len(),
        forall|i: int| 0 <= i < edits.len() ==> #[trigger] models(edits)[i] == edits[i]@,
        optional_outcome(Some(Ok(text))) == Some(Ok::<Seq<char>, ErrorModel>(text@)),
        optional_outcome(Some(Err(error))) == Some(Err::<Seq<char>, ErrorModel>(error@)),
        optional_outcome(None) is None,
        read_text(Ok(text)) == Ok::<Seq<char>, Seq<char>>(text@),
        read_text(Err(message)) == Err::<Seq<char>, Seq<char>>(message@),
{
}

/// The lines of a file, joined again, are its text, but for the line feed that may end it, and no
/// line holds a line feed.
pub proof fn law_file_is_its_lines_joined(content: Seq<char>)
    ensures
        ends_line(content) ==> joined(file_lines(content, true)).push('\n') == content,
        joined(file_lines(content, false)) == content,
        file_lines(content, false).len() > 0,
        file_lines(content, true) == file_lines(content, false).drop_last(),
        ends_line(content) ==> file_lines(content, true).len() > 0,
        forall|i: int, trailing: bool|
            0 <= i < file_lines(content, trailing).len() ==> !(#[trigger] file_lines(content, trailing)[i]).contains(
                '\n',
            ),
{
    law_joining_undoes_splitting(content);
    lemma_split_nonempty(content, '\n');
    if ends_line(content) {
        law_joining_undoes_splitting_of_ended_text(content);
    }
    let pieces = split_at_each(content, '\n');
    assert forall|i: int, trailing: bool| 0 <= i < file_lines(content, trailing).len() implies !(
    #[trigger] file_lines(content, trailing)[i]).contains('\n') by {
        assert(file_lines(content, trailing)[i] == pieces[i]);
    }
}

/// An edit that names a line by an anchor, and by no other name that comes before it in `anchor`,
/// `from`, `before`, `after`, is ordered by the index of that line. One that names no line of the
/// file goes with those of the first line.
pub proof fn law_edit_is_ordered_by_the_line_it_names(
    edit: EditModel,
    anchors: Seq<Seq<char>>,
    name: Seq<char>,
    i: int,
)
    ensures
        ({
            ||| edit.anchor == Some(name)
            ||| edit.anchor is None && edit.from == Some(name)
            ||| edit.anchor is None && edit.from is None && edit.before == Some(name)
            ||| edit.anchor is None && edit.from is None && edit.before is None && edit.after == Some(name)
        }) ==> {
            &&& stands_first_at(anchors, name, i) ==> order_key(edit, anchors) == i
            &&& !anchors.contains(name) ==> order_key(edit, anchors) == 0
        },
        edit.anchor is None && edit.from is None && edit.before is None && edit.after is None ==> order_key(
            edit,
            anchors,
        ) == 0,
{
    law_edit_starts_at_the_line_it_names(edit, anchors, name, i);
}

/// The edits are carried out each once, those that start further down first, and those that start
/// at the same line in the order in which they came. Here `order` gives the index of each.
pub proof fn law_each_edit_has_its_turn(edits: Seq<EditModel>, anchors: Seq<Seq<char>>) -> (order: Seq<int>)
    ensures
        in_order(edits, anchors).len() == edits.len(),
        order.len() == edits.len(),
        order.no_duplicates(),
        forall|a: int|
            0 <= a < edits.len() ==> 0 <= #[trigger] order[a] < edits.len() && in_order(edits, anchors)[a]
                == edits[order[a]],
        forall|i: int| 0 <= i < edits.len() ==> #[trigger] order.contains(i),
        forall|a: int, b: int|
            0 <= a < b < edits.len() ==> {
                let first = #[trigger] order[a];
                let second = #[trigger] order[b];
                ||| order_key(edits[first], anchors) > order_key(edits[second], anchors)
                ||| order_key(edits[first], anchors) == order_key(edits[second], anchors) && first < second
            },
{
    let keys = order_keys(edits, anchors);
    let order = application_order(keys);
    law_edits_run_bottom_up(keys);
    assert forall|a: int, b: int| 0 <= a < b < edits.len() implies {
        let first = #[trigger] order[a];
        let second = #[trigger] order[b];
        ||| order_key(edits[first], anchors) > order_key(edits[second], anchors)
        ||| order_key(edits[first], anchors) == order_key(edits[second], anchors) && first < second
    } by {
        assert(keys[order[a]] == order_key(edits[order[a]], anchors));
        assert(keys[order[b]] == order_key(edits[order[b]], anchors));
    }
    assert(order.no_duplicates()) by {
        assert forall|a: int, b: int| 0 <= a < b < order.len() implies order[a] != order[b] by {}
    }
    order
}

/// Edits are carried out one after the other: what several make of lines, the later ones make of
/// what the earlier ones left. The first one that fails ends the work.
pub proof fn law_edits_run_one_after_the_other(
    lines: Seq<Seq<char>>,
    anchors: Seq<Seq<char>>,
    edit: EditModel,
    earlier: Seq<EditModel>,
    later: Seq<EditModel>,
    fuzzy: bool,
)
    ensures
        run_edits(lines, anchors, Seq::empty(), fuzzy) == Some(Ok::<Seq<Seq<char>>, ErrorModel>(lines)),
        run_edits(lines, anchors, seq![edit], fuzzy) == edited(lines, anchors, edit, fuzzy),
        match run_edits(lines, anchors, earlier, fuzzy) {
            Some(Ok(left)) => run_edits(lines, anchors, earlier + later, fuzzy) == run_edits(
                left,
                anchors,
                later,
                fuzzy,
            ),
            failed => run_edits(lines, anchors, earlier + later, fuzzy) == failed,
        },
    decreases earlier.len(),
{
    let one = seq![edit];
    assert(one.drop_first() =~= Seq::empty());
    if let Some(Ok(next)) = edited(lines, anchors, edit, fuzzy) {
        assert(run_edits(next, anchors, one.drop_first(), fuzzy) == Some(
            Ok::<Seq<Seq<char>>, ErrorModel>(next),
        ));
    }
    if earlier.len() == 0 {
        assert(earlier + later =~= later);
    } else {
        assert((earlier + later).drop_first() =~= earlier.drop_first() + later);
        assert((earlier + later).first() == earlier.first());
        if let Some(Ok(next)) = edited(lines, anchors, earlier.first(), fuzzy) {
            law_edits_run_one_after_the_other(next, anchors, edit, earlier.drop_first(), later, fuzzy);
        }
    }
}

/// With fuzzy matching the names `from`, `before` and `after` of an edit are normalized first, and
/// nothing else of it changes. Without it nothing changes.
pub proof fn law_fuzzy_matching_normalizes_names(edits: Seq<EditModel>, i: int)
    requires
        0 <= i < edits.len(),
    ensures
        prepared(edits, false) == edits,
        prepared(edits, true).len() == edits.len(),
        ({
            let ready = prepared(edits, true)[i];
            &&& ready.op == edits[i].op
            &&& ready.anchor == edits[i].anchor
            &&& ready.to == edits[i].to
            &&& ready.text == edits[i].text
            &&& ready.from is Some <==> edits[i].from is Some
            &&& edits[i].from matches Some(name) ==> ready.from == Some(normalized(name))
            &&& ready.before is Some <==> edits[i].before is Some
            &&& edits[i].before matches Some(name) ==> ready.before == Some(normalized(name))
            &&& ready.after is Some <==> edits[i].after is Some
            &&& edits[i].after matches Some(name) ==> ready.after == Some(normalized(name))
        }),
{
}

/// An edited file consists of the lines that its edits, carried out in their order, leave of its
/// lines, with a line feed between every two, and one behind them where one ended the file before.
/// Where an edit fails, so does the whole, in the same way.
pub proof fn law_edited_file_is_what_its_edits_leave(content: Seq<char>, edits: Seq<EditModel>, fuzzy: bool)
    ensures
        ({
            let lines = file_lines(content, ends_line(content));
            let anchors = anchors_of(lines);
            &&& !anchorable(lines) ==> edited_content(content, edits, fuzzy) is None
            &&& anchorable(lines) ==> match run_edits(
                lines,
                anchors,
                in_order(prepared(edits, fuzzy), anchors),
                fuzzy,
            ) {
                Some(Ok(left)) => edited_content(content, edits, fuzzy) matches Some(Ok(text)) && {
                    &&& ends_line(content) ==> text == joined(left).push('\n')
                    &&& !ends_line(content) ==> text == joined(left)
                },
                Some(Err(error)) => edited_content(content, edits, fuzzy) == Some(
                    Err::<Seq<char>, ErrorModel>(error),
                ),
                None => edited_content(content, edits, fuzzy) is None,
            }
        }),
{
}

/// A request without a `replace_all` fails with the message where the file could not be read, and
/// else does what its edits do to the text of the file.
pub proof fn law_file_is_edited_where_it_can_be_read(
    edits: Seq<EditModel>,
    text: Seq<char>,
    message: Seq<char>,
    fuzzy: bool,
)
    requires
        forall|i: int| 0 <= i < edits.len() ==> (#[trigger] edits[i]).op != "replace_all"@,
    ensures
        whole_text(edits) is None,
        applied(edits, Err(message), fuzzy) == Some(
            Err::<Seq<char>, ErrorModel>(ErrorModel { detail: "failed"@, message }),
        ),
        applied(edits, Ok(text), fuzzy) == edited_content(text, edits, fuzzy),
{
    let all = ops(edits);
    lemma_first_position(all, "replace_all"@);
    if let Some(i) = first_position(all, "replace_all"@) {
        assert(all[i as int] == edits[i as int].op);
    }
}

} // verus!
