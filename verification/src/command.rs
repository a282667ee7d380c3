//! Editing: what is answered to a request to edit a file.
use crate::batch::{applied, apply_edits, models, read_text};
use crate::diff::{can_diff, compute_diff, diff_text, is_diffable, unified_diff_text};
use crate::edit::{Edit, EditError, ErrorModel};
use crate::rows::{decoding, edits_outcome, gathered, parse_edits, rows_of};
use crate::text::same_text;
use vstd::prelude::*;

verus! {

/// The answer to a request to edit a file.
#[derive(Debug)]
pub enum EditReply {
    /// A row of the request is no edit.
    Malformed(String),
    /// An edit was refused. The file stays as it is.
    Refused(EditError),
    /// The edits were carried out. `write` says whether the file is to be changed.
    Applied { content: String, diff: String, write: bool },
}

/// The texts in an answer.
pub enum ReplyModel {
    Malformed(Seq<char>),
    Refused(ErrorModel),
    Applied { content: Seq<char>, diff: Seq<char>, write: bool },
}

impl View for EditReply {
    type V = ReplyModel;

    open spec fn view(&self) -> ReplyModel {
        match *self {
            EditReply::Malformed(message) => ReplyModel::Malformed(message@),
            EditReply::Refused(error) => ReplyModel::Refused(error@),
            EditReply::Applied { content, diff, write } => ReplyModel::Applied {
                content: content@,
                diff: diff@,
                write,
            },
        }
    }
}

/// The text of a file before it is edited: empty where it could not be read.
pub open spec fn text_before(content: Result<Seq<char>, Seq<char>>) -> Seq<char> {
    match content {
        Ok(text) => text,
        Err(_) => Seq::empty(),
    }
}

/// The answer to a request, given its edits and what came of reading the file at `path`. `None`
/// where the lines cannot each get an anchor, an edit reaches past the end, or the text changes and
/// there are too many different lines to be compared.
pub open spec fn reply_to(
    edits: Result<Seq<Edit>, ErrorModel>,
    content: Result<Seq<char>, Seq<char>>,
    path: Seq<char>,
    fuzzy: bool,
    dry_run: bool,
) -> Option<ReplyModel> {
    match edits {
        Err(error) => Some(ReplyModel::Malformed(error.message)),
        Ok(list) => match applied(models(list), content, fuzzy) {
            None => None,
            Some(Err(error)) => Some(ReplyModel::Refused(error)),
            Some(Ok(after)) => if text_before(content) == after || is_diffable(
                text_before(content),
                after,
            ) {
                Some(
                    ReplyModel::Applied {
                        content: after,
                        diff: diff_text(text_before(content), after, path),
                        write: !dry_run,
                    },
                )
            } else {
                None
            },
        },
    }
}

/// What is answered, with texts for strings.
pub open spec fn reply_outcome(reply: Option<EditReply>) -> Option<ReplyModel> {
    match reply {
        Some(r) => Some(r@),
        None => None,
    }
}

/// Answers a request, given its edits and what came of reading the file at `path`. `None` where
/// the lines cannot each get an anchor, an edit reaches past the end, or the text changes and there
/// are too many different lines to be compared.
pub fn edit_reply(
    edits: Result<Vec<Edit>, EditError>,
    content: Result<String, String>,
    path: &str,
    fuzzy: bool,
    dry_run: bool,
) -> (reply: Option<EditReply>)
    ensures
        reply_outcome(reply) == reply_to(edits_outcome(edits), read_text(content), path@, fuzzy, dry_run),
        reply matches Some(EditReply::Applied { content: after, diff, write }) ==> {
            let before = if content is Ok {
                (content->Ok_0)@
            } else {
                Seq::empty()
            };
            &&& edits matches Ok(list) && applied(models(list@), read_text(content), fuzzy) == Some(
                Ok::<Seq<char>, ErrorModel>(after@),
            )
            &&& write == !dry_run
            &&& before == after@ ==> diff@.len() == 0
            &&& before != after@ ==> diff@ == unified_diff_text(
                before,
                after@,
                3,
                (if before.len() == 0 {
                    "/dev/null"@
                } else {
                    "a/"@ + path@
                }),
                "b/"@ + path@,
            )
        },
{
    let list: Vec<Edit> = match edits {
        Ok(list) => list,
        Err(error) => return Some(EditReply::Malformed(error.message)),
    };
    let before: String = match &content {
        Ok(text) => text.clone(),
        Err(_) => String::new(),
    };
    match apply_edits(list, content, fuzzy) {
        None => None,
        Some(Err(error)) => Some(EditReply::Refused(error)),
        Some(Ok(after)) => if same_text(before.as_str(), after.as_str()) || can_diff(
            before.as_str(),
            after.as_str(),
        ) {
            let diff: String = compute_diff(before.as_str(), after.as_str(), path);
            Some(EditReply::Applied { content: after, diff, write: !dry_run })
        } else {
            None
        },
    }
}

/// Answers a request whose rows `decode` decodes, given what came of reading the file at `path`.
pub fn edit_command<F: Fn(&str) -> Result<Edit, String>>(
    input: &str,
    decode: F,
    content: Result<String, String>,
    path: &str,
    fuzzy: bool,
    dry_run: bool,
) -> (reply: Option<EditReply>)
    requires
        forall|row: &str| #[trigger] call_requires(decode, (row,)),
    ensures
        exists|decoded: Seq<Result<Edit, String>>| #[trigger]
            decoding(decode, rows_of(input@), decoded) && reply_outcome(reply) == reply_to(
                gathered(decoded),
                read_text(content),
                path@,
                fuzzy,
                dry_run,
            ),
{
    edit_reply(parse_edits(input, decode), content, path, fuzzy, dry_run)
}

/// An answer is seen by the texts in it.
pub proof fn law_reply_is_seen_by_its_texts(
    message: String,
    error: EditError,
    content: String,
    diff: String,
    write: bool,
)
    ensures
        reply_outcome(Some(EditReply::Malformed(message))) == Some(ReplyModel::Malformed(message@)),
        reply_outcome(Some(EditReply::Refused(error))) == Some(ReplyModel::Refused(error@)),
        reply_outcome(Some(EditReply::Applied { content, diff, write })) == Some(
            ReplyModel::Applied { content: content@, diff: diff@, write },
        ),
        reply_outcome(None) is None,
{
}

/// Whenever a request is carried out, the text that the file gets is the one that its edits give,
/// the difference is that from the text before to this same text, and the file is written unless
/// the run is dry. A file that could not be read counts as empty before.
pub proof fn law_file_gets_the_edited_text(
    edits: Seq<Edit>,
    content: Result<Seq<char>, Seq<char>>,
    path: Seq<char>,
    fuzzy: bool,
    dry_run: bool,
)
    ensures
        reply_to(Ok(edits), content, path, fuzzy, dry_run) matches Some(
            ReplyModel::Applied { content: after, diff, write },
        ) ==> {
            let before = if content is Ok {
                content->Ok_0
            } else {
                Seq::empty()
            };
            &&& applied(models(edits), content, fuzzy) == Some(Ok::<Seq<char>, ErrorModel>(after))
            &&& write == !dry_run
            &&& before == after ==> diff.len() == 0
            &&& before != after ==> diff == unified_diff_text(
                before,
                after,
                3,
                (if before.len() == 0 {
                    "/dev/null"@
                } else {
                    "a/"@ + path
                }),
                "b/"@ + path,
            )
        },
{
}

/// What is answered: that a request which cannot be decoded is malformed, with its message; that one
/// whose edits fail is refused, with their error; and that one whose edits succeed is carried out.
/// There is no answer only where the edits give none, or where the text changes and cannot be
/// compared.
pub proof fn law_every_request_is_answered(
    edits: Seq<Edit>,
    error: ErrorModel,
    content: Result<Seq<char>, Seq<char>>,
    path: Seq<char>,
    fuzzy: bool,
    dry_run: bool,
)
    ensures
        reply_to(Err(error), content, path, fuzzy, dry_run) == Some(ReplyModel::Malformed(error.message)),
        match applied(models(edits), content, fuzzy) {
            Some(Err(refusal)) => reply_to(Ok(edits), content, path, fuzzy, dry_run) == Some(
                ReplyModel::Refused(refusal),
            ),
            Some(Ok(after)) => {
                let before = if content is Ok {
                    content->Ok_0
                } else {
                    Seq::empty()
                };
                if before == after || is_diffable(before, after) {
                    reply_to(Ok(edits), content, path, fuzzy, dry_run) matches Some(ReplyModel::Applied { .. })
                } else {
                    reply_to(Ok(edits), content, path, fuzzy, dry_run) is None
                }
            },
            None => reply_to(Ok(edits), content, path, fuzzy, dry_run) is None,
        },
{
}

} // verus!
