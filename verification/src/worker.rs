//! The email client's background work: one worker that owns the IMAP session
//! and the SMTP connection, and runs what the UI asks of it in order.
//!
//! The UI sends a `Job`; the worker does it and answers with a `Done`. The
//! worker does no I/O: a job says what to do first, and each event what to do
//! next, until the job is answered.

use crate::codec;
use crate::compose;
use crate::imap;
use crate::imap::Call;
use crate::imap::CallView;
use crate::imap::ImapView;
use crate::imap::Outcome;
use crate::imap::OutcomeView;
use crate::imap::RealImap;
use crate::imap::Reply;
use crate::imap::Request;
use crate::imap::RequestView;
use crate::imap::Step;
use crate::imap::StepView;
use crate::smtp;
use crate::smtp::RealSmtp;
use crate::smtp::Smtp;
use crate::smtp::SmtpEvent;
use crate::smtp::SmtpStep;
use crate::smtp::SmtpStepView;
use crate::smtp::SmtpView;
use crate::text;
use crate::types::EmailClientConfig;
use crate::types::EmailMessage;
use crate::types::FolderInfo;
use crate::types::FolderInfoView;
use crate::types::HeaderView;
use crate::types::HistoryItem;
use crate::types::MailBody;
use crate::types::MessageHeader;
use crate::types::MessageView;
use crate::types::TaskEvent;
use vstd::prelude::*;

verus! {

/// The long-lived task that runs the worker.
pub const WORKER_TASK: &'static str = "worker";

// ---------------------------------------------------------------------------
// Jobs and answers
// ---------------------------------------------------------------------------

/// A write the UI already applied locally and the server still has to see.
#[derive(Debug, Clone)]
pub enum BgOp {
    SetFlags { folder: String, uid: u32, add: Vec<String>, remove: Vec<String> },
    Move { folder: String, uid: u32, dest: String },
    Expunge { folder: String, uid: u32 },
    Append { folder: String, message: Vec<u8> },
    /// Find the message with `msg_id` in `search_in` and move it to `dest` (an
    /// undo or redo of a trash, archive or move).
    MoveByMessageId { search_in: String, msg_id: String, dest: String },
}

/// What the user is told where the operation `op` fails.
pub open spec fn op_label(op: BgOp) -> Seq<char> {
    match op {
        BgOp::SetFlags { .. } => "flag update failed"@,
        BgOp::Move { .. } => "move failed"@,
        BgOp::Expunge { .. } => "delete failed"@,
        BgOp::Append { .. } => "save failed"@,
        BgOp::MoveByMessageId { .. } => "move failed"@,
    }
}

impl BgOp {
    /// Prefix for the user-facing error when the operation fails.
    pub fn label(&self) -> (r: &'static str)
        ensures
            r@ == op_label(*self),
    {
        match self {
            BgOp::SetFlags { .. } => "flag update failed",
            BgOp::Move { .. } => "move failed",
            BgOp::Expunge { .. } => "delete failed",
            BgOp::Append { .. } => "save failed",
            BgOp::MoveByMessageId { .. } => "move failed",
        }
    }
}

/// What the UI asks of the worker.
#[derive(Debug, Clone)]
pub enum Job {
    /// Use these settings from now on (a refreshed token, changed settings):
    /// the open connection is dropped and the next job reconnects.
    Configure(EmailClientConfig),
    /// The folder list, and INBOX's latest 50 alongside it.
    Root,
    Envelopes { folder: String, limit: usize },
    Threads { folder: String },
    Message { folder: String, uid: u32 },
    History { key: String, plan: Vec<HistoryItem>, folders: Vec<String> },
    Op(BgOp),
    Send {
        from: String,
        to: Vec<String>,
        cc: Vec<String>,
        bcc: Vec<String>,
        subject: String,
        body: MailBody,
        attachments: Vec<(String, Vec<u8>)>,
    },
    RefreshToken { client_id: String, client_secret: String, refresh_token: String },
}

/// What the worker answers.
#[derive(Debug)]
pub enum Done {
    Root { folders: Result<Vec<FolderInfo>, String>, inbox: Result<Vec<MessageHeader>, String> },
    Envelopes { folder: String, limit: usize, result: Result<Vec<MessageHeader>, String> },
    Threads { folder: String, threads: Option<Vec<Vec<u32>>> },
    Message { folder: String, uid: u32, result: Result<Option<EmailMessage>, String> },
    History { key: String, labels: Vec<String> },
    Op { label: String, error: Option<String> },
    Sent { result: Result<Vec<u8>, String> },
    /// A refreshed access token and when it expires (Unix seconds).
    Token { result: Result<(String, i64), String> },
}

/// What the worker answers.
pub enum DoneView {
    Root(Result<Seq<FolderInfoView>, Seq<char>>, Result<Seq<HeaderView>, Seq<char>>),
    Envelopes(Seq<char>, nat, Result<Seq<HeaderView>, Seq<char>>),
    Threads(Seq<char>, Option<Seq<Seq<u32>>>),
    Message(Seq<char>, u32, Result<Option<MessageView>, Seq<char>>),
    History(Seq<char>, Seq<Seq<char>>),
    Op(Seq<char>, Option<Seq<char>>),
    Sent(Result<Seq<u8>, Seq<char>>),
    Token(Result<(Seq<char>, i64), Seq<char>>),
}

impl View for Done {
    type V = DoneView;

    open spec fn view(&self) -> DoneView {
        match self {
            Done::Root { folders, inbox } => DoneView::Root(
                imap::folders_view(*folders),
                imap::messages_view(*inbox),
            ),
            Done::Envelopes { folder, limit, result } => DoneView::Envelopes(
                folder@,
                *limit as nat,
                imap::messages_view(*result),
            ),
            Done::Threads { folder, threads } => DoneView::Threads(
                folder@,
                imap::threads_view(*threads),
            ),
            Done::Message { folder, uid, result } => DoneView::Message(
                folder@,
                *uid,
                imap::message_view(*result),
            ),
            Done::History { key, labels } => DoneView::History(
                key@,
                text::string_views(labels@),
            ),
            Done::Op { label, error } => DoneView::Op(
                label@,
                match error {
                    Some(e) => Some(e@),
                    None => None,
                },
            ),
            Done::Sent { result } => DoneView::Sent(
                match result {
                    Ok(raw) => Ok(raw@),
                    Err(e) => Err(e@),
                },
            ),
            Done::Token { result } => DoneView::Token(
                match result {
                    Ok((token, expiry)) => Ok((token@, *expiry)),
                    Err(e) => Err(e@),
                },
            ),
        }
    }
}

// ---------------------------------------------------------------------------
// The course of a job
// ---------------------------------------------------------------------------

/// How far a job has come.
#[derive(Debug)]
enum Pending {
    Nothing,
    Root,
    Inbox(Result<Vec<FolderInfo>, String>),
    Envelopes { folder: String, limit: usize },
    Threads { folder: String },
    Message { folder: String, uid: u32 },
    /// The first item of `plan` is being looked up, in the folder at `place`.
    History {
        key: String,
        labels: Vec<String>,
        plan: Vec<HistoryItem>,
        folders: Vec<String>,
        place: usize,
    },
    Op { label: String },
    Find { label: String, search_in: String, dest: String },
    Sending,
    Token,
}

/// An entry of a history.
pub enum ItemView {
    Label(Seq<char>),
    FetchUid(u32),
    FetchMessageId(Seq<char>),
}

/// What the entries `v` are.
pub open spec fn item_views(v: Seq<HistoryItem>) -> Seq<ItemView> {
    Seq::new(v.len(), |i: int| item_view(v[i]))
}

/// What the entry `item` is.
pub open spec fn item_view(item: HistoryItem) -> ItemView {
    match item {
        HistoryItem::Label(l) => ItemView::Label(l@),
        HistoryItem::FetchUid(uid) => ItemView::FetchUid(uid),
        HistoryItem::FetchMessageId(id) => ItemView::FetchMessageId(id@),
    }
}

/// How far a job has come.
pub enum PendingView {
    Nothing,
    /// The folder list is being fetched.
    Root,
    /// The folder list came out so, and INBOX is being fetched.
    Inbox(Result<Seq<FolderInfoView>, Seq<char>>),
    Envelopes(Seq<char>, nat),
    Threads(Seq<char>),
    Message(Seq<char>, u32),
    /// A history with these labels so far. The first of the entries is being
    /// looked up, in the folder at this place among the folders.
    History {
        key: Seq<char>,
        labels: Seq<Seq<char>>,
        items: Seq<ItemView>,
        folders: Seq<Seq<char>>,
        place: nat,
    },
    Op(Seq<char>),
    /// The message that is to be moved is being looked up.
    Find(Seq<char>, Seq<char>, Seq<char>),
    Sending,
    Token,
}

impl View for Pending {
    type V = PendingView;

    closed spec fn view(&self) -> PendingView {
        match self {
            Pending::Nothing => PendingView::Nothing,
            Pending::Root => PendingView::Root,
            Pending::Inbox(folders) => PendingView::Inbox(imap::folders_view(*folders)),
            Pending::Envelopes { folder, limit } => PendingView::Envelopes(
                folder@,
                *limit as nat,
            ),
            Pending::Threads { folder } => PendingView::Threads(folder@),
            Pending::Message { folder, uid } => PendingView::Message(folder@, *uid),
            Pending::History { key, labels, plan, folders, place } => PendingView::History {
                key: key@,
                labels: text::string_views(labels@),
                items: item_views(plan@),
                folders: text::string_views(folders@),
                place: *place as nat,
            },
            Pending::Op { label } => PendingView::Op(label@),
            Pending::Find { label, search_in, dest } => PendingView::Find(
                label@,
                search_in@,
                dest@,
            ),
            Pending::Sending => PendingView::Sending,
            Pending::Token => PendingView::Token,
        }
    }
}

/// What a job does next: a call of the backend, or its answer.
#[derive(Debug)]
enum JobNext {
    Call(Call),
    Answer(Done),
}

/// What a job does next: a call of the backend, or its answer.
pub enum JobNextView {
    Call(CallView),
    Answer(DoneView),
}

impl View for JobNext {
    type V = JobNextView;

    closed spec fn view(&self) -> JobNextView {
        match self {
            JobNext::Call(c) => JobNextView::Call(c@),
            JobNext::Answer(d) => JobNextView::Answer(d@),
        }
    }
}

/// How a history shows a message.
pub open spec fn history_label(from: Seq<char>, subject: Seq<char>) -> Seq<char> {
    "From: "@ + from + " \u{2014} Subject: "@ + subject
}

/// The folder that is looked into for a message by its UID.
pub open spec fn first_folder(folders: Seq<Seq<char>>) -> Seq<char> {
    if folders.len() > 0 {
        folders[0]
    } else {
        seq![]
    }
}

/// How the history `key` goes on with the entries `items`: to the first of
/// them that is to be looked up. The labels before it are taken as they are.
pub open spec fn history_next(
    key: Seq<char>,
    labels: Seq<Seq<char>>,
    items: Seq<ItemView>,
    folders: Seq<Seq<char>>,
) -> (PendingView, JobNextView)
    decreases items.len(),
{
    if items.len() == 0 {
        (PendingView::Nothing, JobNextView::Answer(DoneView::History(key, labels)))
    } else {
        let here = PendingView::History { key, labels, items, folders, place: 0 };
        match items[0] {
            ItemView::Label(l) => history_next(key, labels.push(l), items.drop_first(), folders),
            ItemView::FetchUid(uid) => (
                here,
                JobNextView::Call(CallView::FetchMessage(first_folder(folders), uid)),
            ),
            ItemView::FetchMessageId(id) => if folders.len() == 0 {
                history_next(key, labels, items.drop_first(), folders)
            } else {
                (
                    here,
                    JobNextView::Call(CallView::FetchMessageByMessageId(folders[0], id)),
                )
            },
        }
    }
}

/// How the history `key` goes on when `found` has come of the lookup of its
/// first entry in the folder at `place`. A message that is found is labelled;
/// one that is not is looked for in the next folder, if it is looked for by
/// its Message-ID; else it is left out.
pub open spec fn history_found(
    key: Seq<char>,
    labels: Seq<Seq<char>>,
    items: Seq<ItemView>,
    folders: Seq<Seq<char>>,
    place: nat,
    found: Result<Option<MessageView>, Seq<char>>,
) -> (PendingView, JobNextView) {
    if items.len() == 0 {
        history_next(key, labels, items, folders)
    } else {
        match (found, items[0]) {
            (Ok(Some(m)), _) => history_next(
                key,
                labels.push(history_label(m.from, m.subject)),
                items.drop_first(),
                folders,
            ),
            (_, ItemView::FetchMessageId(id)) => if place + 1 < folders.len() {
                (
                    PendingView::History { key, labels, items, folders, place: place + 1 },
                    JobNextView::Call(
                        CallView::FetchMessageByMessageId(folders[place as int + 1], id),
                    ),
                )
            } else {
                history_next(key, labels, items.drop_first(), folders)
            },
            _ => history_next(key, labels, items.drop_first(), folders),
        }
    }
}

/// What the operation `op` asks of the backend first.
pub open spec fn op_call(op: BgOp) -> CallView {
    match op {
        BgOp::SetFlags { folder, uid, add, remove } => CallView::SetFlags(
            folder@,
            uid,
            text::string_views(add@),
            text::string_views(remove@),
        ),
        BgOp::Move { folder, uid, dest } => CallView::MoveMessage(folder@, uid, dest@),
        BgOp::Expunge { folder, uid } => CallView::ExpungeUid(folder@, uid),
        BgOp::Append { folder, message } => CallView::Append(folder@, message@),
        BgOp::MoveByMessageId { search_in, msg_id, dest } => CallView::FetchMessageByMessageId(
            search_in@,
            msg_id@,
        ),
    }
}

/// How far the operation `op` has come at its first call.
pub open spec fn op_pending(op: BgOp) -> PendingView {
    match op {
        BgOp::MoveByMessageId { search_in, msg_id, dest } => PendingView::Find(
            op_label(op),
            search_in@,
            dest@,
        ),
        _ => PendingView::Op(op_label(op)),
    }
}

/// What the job `job` starts with, where it is one for the IMAP backend. No
/// other is started so.
pub open spec fn job_started(job: Job) -> (PendingView, JobNextView) {
    match job {
        Job::Root => (PendingView::Root, JobNextView::Call(CallView::ListFolders)),
        Job::Envelopes { folder, limit } => (
            PendingView::Envelopes(folder@, limit as nat),
            JobNextView::Call(CallView::ListMessages(folder@, limit as nat)),
        ),
        Job::Threads { folder } => (
            PendingView::Threads(folder@),
            JobNextView::Call(CallView::FetchThreads(folder@)),
        ),
        Job::Message { folder, uid } => (
            PendingView::Message(folder@, uid),
            JobNextView::Call(CallView::FetchMessage(folder@, uid)),
        ),
        Job::History { key, plan, folders } => history_next(
            key@,
            seq![],
            item_views(plan@),
            text::string_views(folders@),
        ),
        Job::Op(op) => (op_pending(op), JobNextView::Call(op_call(op))),
        _ => op_answer(seq![], None),
    }
}

/// What is answered for the operation labelled `label`.
pub open spec fn op_answer(label: Seq<char>, error: Option<Seq<char>>) -> (
    PendingView,
    JobNextView,
) {
    (PendingView::Nothing, JobNextView::Answer(DoneView::Op(label, error)))
}

/// What is said where the call of a job has an outcome of another kind.
pub open spec fn wrong_outcome() -> Seq<char> {
    "unexpected outcome"@
}

/// What a job that has come as far as `p` does when its call has ended in
/// `outcome`.
pub open spec fn job_resumed(p: PendingView, outcome: OutcomeView) -> (PendingView, JobNextView) {
    match p {
        PendingView::Root => (
            PendingView::Inbox(
                match outcome {
                    OutcomeView::Folders(r) => r,
                    _ => Err(wrong_outcome()),
                },
            ),
            JobNextView::Call(CallView::ListMessages("INBOX"@, 50)),
        ),
        PendingView::Inbox(folders) => (
            PendingView::Nothing,
            JobNextView::Answer(
                DoneView::Root(
                    folders,
                    match outcome {
                        OutcomeView::Messages(r) => r,
                        _ => Err(wrong_outcome()),
                    },
                ),
            ),
        ),
        PendingView::Envelopes(folder, limit) => (
            PendingView::Nothing,
            JobNextView::Answer(
                DoneView::Envelopes(
                    folder,
                    limit,
                    match outcome {
                        OutcomeView::Messages(r) => r,
                        _ => Err(wrong_outcome()),
                    },
                ),
            ),
        ),
        PendingView::Threads(folder) => (
            PendingView::Nothing,
            JobNextView::Answer(
                DoneView::Threads(
                    folder,
                    match outcome {
                        OutcomeView::Threads(Ok(t)) => t,
                        _ => None,
                    },
                ),
            ),
        ),
        PendingView::Message(folder, uid) => (
            PendingView::Nothing,
            JobNextView::Answer(
                DoneView::Message(
                    folder,
                    uid,
                    match outcome {
                        OutcomeView::Message(r) => r,
                        _ => Err(wrong_outcome()),
                    },
                ),
            ),
        ),
        PendingView::History { key, labels, items, folders, place } => history_found(
            key,
            labels,
            items,
            folders,
            place,
            match outcome {
                OutcomeView::Message(r) => r,
                _ => Err(wrong_outcome()),
            },
        ),
        PendingView::Find(label, search_in, dest) => match outcome {
            OutcomeView::Message(Ok(Some(m))) => (
                PendingView::Op(label),
                JobNextView::Call(CallView::MoveMessage(search_in, m.uid, dest)),
            ),
            OutcomeView::Message(Ok(None)) => op_answer(
                label,
                Some("the message is no longer in "@ + search_in),
            ),
            OutcomeView::Message(Err(e)) => op_answer(label, Some(e)),
            _ => op_answer(label, Some(wrong_outcome())),
        },
        PendingView::Op(label) => op_answer(
            label,
            match outcome {
                OutcomeView::Unit(Ok(_)) => None,
                OutcomeView::Unit(Err(e)) => Some(e),
                _ => Some(wrong_outcome()),
            },
        ),
        _ => op_answer(seq![], Some(wrong_outcome())),
    }
}

fn label_of(from: &str, subject: &str) -> (r: String)
    ensures
        r@ == history_label(from@, subject@),
{
    let mut out = text::chars("From: ");
    text::extend_str(&mut out, from);
    text::extend_str(&mut out, " \u{2014} Subject: ");
    text::extend_str(&mut out, subject);
    text::string(&out)
}

fn push_label(labels: &mut Vec<String>, label: String)
    ensures
        text::string_views(final(labels)@) == text::string_views(old(labels)@).push(label@),
{
    labels.push(label);
    assert(text::string_views(labels@) == text::string_views(old(labels)@).push(label@));
}

fn go_on_history(
    key: String,
    labels: Vec<String>,
    plan: Vec<HistoryItem>,
    folders: Vec<String>,
) -> (r: (Pending, JobNext))
    ensures
        (r.0@, r.1@) == history_next(
            key@,
            text::string_views(labels@),
            item_views(plan@),
            text::string_views(folders@),
        ),
{
    let mut known = labels;
    let mut left = plan;
    while left.len() > 0
        invariant
            history_next(
                key@,
                text::string_views(known@),
                item_views(left@),
                text::string_views(folders@),
            ) == history_next(
                key@,
                text::string_views(labels@),
                item_views(plan@),
                text::string_views(folders@),
            ),
        decreases left@.len(),
    {
        let ghost items = item_views(left@);
        assert(items[0] == item_view(left@[0]));
        let folder = if folders.len() > 0 {
            folders[0].clone()
        } else {
            String::new()
        };
        let call = match &left[0] {
            HistoryItem::Label(l) => {
                push_label(&mut known, l.clone());
                None
            },
            HistoryItem::FetchUid(uid) => Some(Call::FetchMessage { folder, uid: *uid }),
            HistoryItem::FetchMessageId(id) => if folders.len() > 0 {
                Some(Call::FetchMessageByMessageId { folder, message_id: id.clone() })
            } else {
                None
            },
        };
        if let Some(call) = call {
            return (
                Pending::History { key, labels: known, plan: left, folders, place: 0 },
                JobNext::Call(call),
            );
        }
        left.remove(0);
        assert(item_views(left@) == items.drop_first());
    }
    (Pending::Nothing, JobNext::Answer(Done::History { key, labels: known }))
}

fn history_lookup(
    key: String,
    labels: Vec<String>,
    plan: Vec<HistoryItem>,
    folders: Vec<String>,
    place: usize,
    found: Result<Option<EmailMessage>, String>,
) -> (r: (Pending, JobNext))
    ensures
        (r.0@, r.1@) == history_found(
            key@,
            text::string_views(labels@),
            item_views(plan@),
            text::string_views(folders@),
            place as nat,
            imap::message_view(found),
        ),
{
    let ghost items = item_views(plan@);
    if plan.len() == 0 {
        return go_on_history(key, labels, plan, folders);
    }
    assert(items[0] == item_view(plan@[0]));
    let mut labels = labels;
    let mut plan = plan;
    match found {
        Ok(Some(m)) => {
            push_label(&mut labels, label_of(m.from.as_str(), m.subject.as_str()));
        },
        _ => {
            if let HistoryItem::FetchMessageId(id) = &plan[0] {
                if place < folders.len() && place + 1 < folders.len() {
                    let call = Call::FetchMessageByMessageId {
                        folder: folders[place + 1].clone(),
                        message_id: id.clone(),
                    };
                    return (
                        Pending::History { key, labels, plan, folders, place: place + 1 },
                        JobNext::Call(call),
                    );
                }
            }
        },
    }
    plan.remove(0);
    assert(item_views(plan@) == items.drop_first());
    go_on_history(key, labels, plan, folders)
}

fn start_op(op: BgOp) -> (r: (Pending, JobNext))
    ensures
        (r.0@, r.1@) == (op_pending(op), JobNextView::Call(op_call(op))),
{
    let label = op.label().to_owned();
    match op {
        BgOp::SetFlags { folder, uid, add, remove } => (
            Pending::Op { label },
            JobNext::Call(Call::SetFlags { folder, uid, add, remove }),
        ),
        BgOp::Move { folder, uid, dest } => (
            Pending::Op { label },
            JobNext::Call(Call::MoveMessage { folder, uid, dest }),
        ),
        BgOp::Expunge { folder, uid } => (
            Pending::Op { label },
            JobNext::Call(Call::ExpungeUid { folder, uid }),
        ),
        BgOp::Append { folder, message } => (
            Pending::Op { label },
            JobNext::Call(Call::Append { folder, message }),
        ),
        BgOp::MoveByMessageId { search_in, msg_id, dest } => {
            let call = Call::FetchMessageByMessageId {
                folder: search_in.clone(),
                message_id: msg_id,
            };
            (Pending::Find { label, search_in, dest }, JobNext::Call(call))
        },
    }
}

fn answer_op(label: String, error: Option<String>) -> (r: (Pending, JobNext))
    ensures
        (r.0@, r.1@) == op_answer(
            label@,
            match error {
                Some(e) => Some(e@),
                None => None,
            },
        ),
{
    (Pending::Nothing, JobNext::Answer(Done::Op { label, error }))
}

fn start_job(job: Job) -> (r: (Pending, JobNext))
    ensures
        (r.0@, r.1@) == job_started(job),
{
    match job {
        Job::Root => (Pending::Root, JobNext::Call(Call::ListFolders)),
        Job::Envelopes { folder, limit } => {
            let call = Call::ListMessages { folder: folder.clone(), limit };
            (Pending::Envelopes { folder, limit }, JobNext::Call(call))
        },
        Job::Threads { folder } => {
            let call = Call::FetchThreads { folder: folder.clone() };
            (Pending::Threads { folder }, JobNext::Call(call))
        },
        Job::Message { folder, uid } => {
            let call = Call::FetchMessage { folder: folder.clone(), uid };
            (Pending::Message { folder, uid }, JobNext::Call(call))
        },
        Job::History { key, plan, folders } => {
            let none: Vec<String> = Vec::new();
            assert(text::string_views(none@) == Seq::<Seq<char>>::empty());
            go_on_history(key, none, plan, folders)
        },
        Job::Op(op) => start_op(op),
        _ => answer_op(String::new(), None),
    }
}

fn found_message(outcome: Outcome) -> (r: Result<Option<EmailMessage>, String>)
    ensures
        imap::message_view(r) == (match outcome@ {
            OutcomeView::Message(r) => r,
            _ => Err(wrong_outcome()),
        }),
{
    match outcome {
        Outcome::Message(r) => r,
        _ => Err("unexpected outcome".to_owned()),
    }
}

fn listed_messages(outcome: Outcome) -> (r: Result<Vec<MessageHeader>, String>)
    ensures
        imap::messages_view(r) == (match outcome@ {
            OutcomeView::Messages(r) => r,
            _ => Err(wrong_outcome()),
        }),
{
    match outcome {
        Outcome::Messages(r) => r,
        _ => Err("unexpected outcome".to_owned()),
    }
}

fn listed_folders(outcome: Outcome) -> (r: Result<Vec<FolderInfo>, String>)
    ensures
        imap::folders_view(r) == (match outcome@ {
            OutcomeView::Folders(r) => r,
            _ => Err(wrong_outcome()),
        }),
{
    match outcome {
        Outcome::Folders(r) => r,
        _ => Err("unexpected outcome".to_owned()),
    }
}

fn resume_job(pending: Pending, outcome: Outcome) -> (r: (Pending, JobNext))
    ensures
        (r.0@, r.1@) == job_resumed(pending@, outcome@),
{
    match pending {
        Pending::Root => (
            Pending::Inbox(listed_folders(outcome)),
            JobNext::Call(Call::ListMessages { folder: "INBOX".to_owned(), limit: 50 }),
        ),
        Pending::Inbox(folders) => (
            Pending::Nothing,
            JobNext::Answer(Done::Root { folders, inbox: listed_messages(outcome) }),
        ),
        Pending::Envelopes { folder, limit } => (
            Pending::Nothing,
            JobNext::Answer(
                Done::Envelopes { folder, limit, result: listed_messages(outcome) },
            ),
        ),
        Pending::Threads { folder } => {
            let threads = match outcome {
                Outcome::Threads(Ok(t)) => t,
                _ => None,
            };
            (Pending::Nothing, JobNext::Answer(Done::Threads { folder, threads }))
        },
        Pending::Message { folder, uid } => (
            Pending::Nothing,
            JobNext::Answer(Done::Message { folder, uid, result: found_message(outcome) }),
        ),
        Pending::History { key, labels, plan, folders, place } => history_lookup(
            key,
            labels,
            plan,
            folders,
            place,
            found_message(outcome),
        ),
        Pending::Find { label, search_in, dest } => match outcome {
            Outcome::Message(Ok(Some(m))) => (
                Pending::Op { label },
                JobNext::Call(Call::MoveMessage { folder: search_in, uid: m.uid, dest }),
            ),
            Outcome::Message(Ok(None)) => {
                let mut out = text::chars("the message is no longer in ");
                text::extend_str(&mut out, search_in.as_str());
                answer_op(label, Some(text::string(&out)))
            },
            Outcome::Message(Err(e)) => answer_op(label, Some(e)),
            _ => answer_op(label, Some("unexpected outcome".to_owned())),
        },
        Pending::Op { label } => {
            let error = match outcome {
                Outcome::Unit(Ok(_)) => None,
                Outcome::Unit(Err(e)) => Some(e),
                _ => Some("unexpected outcome".to_owned()),
            };
            answer_op(label, error)
        },
        _ => answer_op(String::new(), Some("unexpected outcome".to_owned())),
    }
}

// ---------------------------------------------------------------------------
// The worker
// ---------------------------------------------------------------------------

/// The worker's side: its settings and its connections.
#[derive(Debug)]
pub struct WorkerState {
    config: EmailClientConfig,
    imap: Option<RealImap>,
    smtp: Option<Smtp>,
    pending: Pending,
}

/// What a worker knows and does.
pub struct WorkerView {
    pub config: EmailClientConfig,
    /// The IMAP backend, once a job has needed it.
    pub imap: Option<ImapView>,
    /// The conversation that is sending a message.
    pub smtp: Option<SmtpView>,
    pub pending: PendingView,
}

impl View for WorkerState {
    type V = WorkerView;

    closed spec fn view(&self) -> WorkerView {
        WorkerView {
            config: self.config,
            imap: match self.imap {
                Some(imap) => Some(imap@),
                None => None,
            },
            smtp: match self.smtp {
                Some(smtp) => Some(smtp@),
                None => None,
            },
            pending: self.pending@,
        }
    }
}

/// What the worker does next.
#[derive(Debug)]
pub enum WorkerStep {
    /// Do this with the IMAP server.
    Imap(Request),
    /// Do this with the SMTP server.
    Smtp(SmtpStep),
    /// Have the access token refreshed.
    Refresh { client_id: String, client_secret: String, refresh_token: String },
    /// The job is done, with this answer; some have none.
    Answer(Option<Done>),
}

/// What the worker does next.
pub enum WorkerStepView {
    Imap(RequestView),
    Smtp(SmtpStepView),
    Refresh(Seq<char>, Seq<char>, Seq<char>),
    Answer(Option<DoneView>),
}

impl View for WorkerStep {
    type V = WorkerStepView;

    open spec fn view(&self) -> WorkerStepView {
        match self {
            WorkerStep::Imap(r) => WorkerStepView::Imap(r@),
            WorkerStep::Smtp(s) => WorkerStepView::Smtp(s@),
            WorkerStep::Refresh {
                client_id,
                client_secret,
                refresh_token,
            } => WorkerStepView::Refresh(client_id@, client_secret@, refresh_token@),
            WorkerStep::Answer(d) => WorkerStepView::Answer(
                match d {
                    Some(d) => Some(d@),
                    None => None,
                },
            ),
        }
    }
}

/// What came of a step.
#[derive(Debug)]
pub enum WorkerEvent {
    Imap(Reply),
    Smtp(SmtpEvent),
    /// What the token endpoint answered, and the time (Unix seconds).
    Token { success: bool, access_token: String, expires_in: i64, now: i64 },
}

/// The IMAP backend of `v`, new where no job has needed it.
pub open spec fn backend(v: WorkerView) -> ImapView {
    match v.imap {
        Some(imap) => imap,
        None => imap::fresh(v.config),
    }
}

/// The worker's job has come as far as `pending` and goes on with `next`.
pub open spec fn worker_next(v: WorkerView, pending: PendingView, next: JobNextView) -> (
    WorkerView,
    WorkerStepView,
) {
    match next {
        JobNextView::Answer(done) => (
            WorkerView { pending, ..v },
            WorkerStepView::Answer(Some(done)),
        ),
        JobNextView::Call(call) => {
            let (after, step) = imap::started(backend(v), call);
            let busy = WorkerView { imap: Some(after), pending, ..v };
            match step {
                StepView::Ask(request) => (busy, WorkerStepView::Imap(request)),
                // Only the fetching of threads can end as soon as it starts,
                // and it is the last that its job asks for.
                StepView::Finished(outcome) => {
                    let (pending, next) = job_resumed(pending, outcome);
                    (
                        WorkerView { pending, ..busy },
                        match next {
                            JobNextView::Answer(done) => WorkerStepView::Answer(Some(done)),
                            JobNextView::Call(_) => WorkerStepView::Answer(None),
                        },
                    )
                },
            }
        },
    }
}

/// The conversation has taken `step`.
pub open spec fn smtp_next(v: WorkerView, next: (SmtpView, SmtpStepView)) -> (
    WorkerView,
    WorkerStepView,
) {
    let (smtp, step) = next;
    match step {
        SmtpStepView::Finished(result) => (
            WorkerView { smtp: None, pending: PendingView::Nothing, ..v },
            WorkerStepView::Answer(Some(DoneView::Sent(result))),
        ),
        _ => (
            WorkerView { smtp: Some(smtp), pending: PendingView::Sending, ..v },
            WorkerStepView::Smtp(step),
        ),
    }
}

/// What is answered where the token endpoint answered so.
pub open spec fn token_result(success: bool, access_token: Seq<char>, expires_in: i64, now: i64) -> Result<
    (Seq<char>, i64),
    Seq<char>,
> {
    if success {
        Ok((access_token, (now + expires_in) as i64))
    } else {
        Err("OAuth token refresh failed"@)
    }
}

/// The names and the data of `files`.
pub open spec fn owned_files(files: Seq<(String, Vec<u8>)>) -> Seq<(Seq<char>, Seq<u8>)> {
    Seq::new(files.len(), |i: int| (files[i].0@, files[i].1@))
}

fn file_refs(files: &Vec<(String, Vec<u8>)>) -> (r: Vec<(&str, &[u8])>)
    ensures
        compose::file_views(r@) == owned_files(files@),
{
    let mut out: Vec<(&str, &[u8])> = Vec::new();
    let mut i: usize = 0;
    while i < files.len()
        invariant
            i <= files@.len(),
            out@.len() == i,
            forall|k: int|
                0 <= k < i ==> (#[trigger] out@[k]).0@ == files@[k].0@ && out@[k].1@
                    == files@[k].1@,
        decreases files@.len() - i,
    {
        out.push((files[i].0.as_str(), files[i].1.as_slice()));
        i = i + 1;
    }
    assert(compose::file_views(out@) == owned_files(files@));
    out
}

/// Whether `step` is how the worker `before` starts to send a message, and
/// `after` what it then is: why it cannot be sent is answered at once.
pub open spec fn starts_sending(
    before: WorkerView,
    job: Job,
    after: WorkerView,
    step: WorkerStepView,
) -> bool {
    match job {
        Job::Send { from, to, cc, bcc, subject, body, attachments } => match smtp::send_error(
            before.config,
            from@,
            text::string_views(to@),
            text::string_views(cc@),
            text::string_views(bcc@),
            subject@,
            body@,
        ) {
            Some(e) => {
                &&& after == (WorkerView { smtp: None, pending: PendingView::Nothing, ..before })
                &&& step == WorkerStepView::Answer(Some(DoneView::Sent(Err(e))))
            },
            None => exists|smtp: SmtpView|
                {
                    &&& #[trigger] smtp::is_conversation(
                        smtp,
                        before.config,
                        from@,
                        text::string_views(to@),
                        text::string_views(cc@),
                        text::string_views(bcc@),
                        subject@,
                        body@,
                        owned_files(attachments@),
                    )
                    &&& (after, step) == smtp_next(before, smtp::turn_start(smtp))
                },
        },
        _ => false,
    }
}

/// Whether `step` is how the worker `before` starts the job `job`, and `after`
/// what it then is.
pub open spec fn starts_job(
    before: WorkerView,
    job: Job,
    after: WorkerView,
    step: WorkerStepView,
) -> bool {
    match job {
        Job::Configure(config) => {
            &&& after == (WorkerView {
                config,
                imap: None,
                smtp: None,
                pending: PendingView::Nothing,
            })
            &&& step == WorkerStepView::Answer(None)
        },
        Job::Send { .. } => starts_sending(before, job, after, step),
        Job::RefreshToken { client_id, client_secret, refresh_token } => {
            &&& after == (WorkerView { pending: PendingView::Token, ..before })
            &&& step == WorkerStepView::Refresh(client_id@, client_secret@, refresh_token@)
        },
        _ => {
            let (pending, next) = job_started(job);
            (after, step) == worker_next(before, pending, next)
        },
    }
}

/// Whether the worker `v` takes the cache out of `event`, which it does when
/// that was what its backend asked for.
pub open spec fn worker_takes_cache(v: WorkerView, event: WorkerEvent) -> bool {
    event matches WorkerEvent::Imap(reply) && imap::takes_cache(backend(v), reply)
}

/// What the worker does when `event` has come of its last step.
pub open spec fn worker_resumed(v: WorkerView, event: WorkerEvent) -> (WorkerView, WorkerStepView) {
    match event {
        WorkerEvent::Imap(reply) => {
            let (after, step) = imap::resumed(backend(v), reply);
            let known = WorkerView { imap: Some(after), ..v };
            match step {
                StepView::Ask(request) => (known, WorkerStepView::Imap(request)),
                StepView::Finished(outcome) => {
                    let (pending, next) = job_resumed(v.pending, outcome);
                    worker_next(known, pending, next)
                },
            }
        },
        WorkerEvent::Smtp(event) => match v.smtp {
            Some(smtp) => smtp_next(v, smtp::smtp_step(smtp, event)),
            None => (
                WorkerView { pending: PendingView::Nothing, ..v },
                WorkerStepView::Answer(None),
            ),
        },
        WorkerEvent::Token { success, access_token, expires_in, now } => (
            WorkerView { pending: PendingView::Nothing, ..v },
            WorkerStepView::Answer(
                Some(DoneView::Token(token_result(success, access_token@, expires_in, now))),
            ),
        ),
    }
}

/// What is answered where the token endpoint answered so: the token and when
/// it expires, or that there is none.
pub fn refreshed_token(success: bool, access_token: String, expires_in: i64, now: i64) -> (r: Done)
    requires
        success ==> i64::MIN <= now + expires_in <= i64::MAX,
    ensures
        r@ == DoneView::Token(token_result(success, access_token@, expires_in, now)),
{
    if success {
        Done::Token { result: Ok((access_token, now + expires_in)) }
    } else {
        Done::Token { result: Err("OAuth token refresh failed".to_owned()) }
    }
}

impl WorkerState {
    /// A worker with these settings.
    pub fn new(config: EmailClientConfig) -> (r: WorkerState)
        ensures
            r@ == (WorkerView { config, imap: None, smtp: None, pending: PendingView::Nothing }),
            !r.has_unsaved(),
    {
        WorkerState { config, imap: None, smtp: None, pending: Pending::Nothing }
    }

    /// Whether the backend's cache has changed since it was last written out.
    pub closed spec fn has_unsaved(&self) -> bool {
        self.imap matches Some(imap) && imap.has_unsaved()
    }

    fn take_imap(&mut self) -> (r: RealImap)
        ensures
            r@ == backend(old(self)@),
            r.has_unsaved() == old(self).has_unsaved(),
            final(self)@ == (WorkerView { imap: None, ..old(self)@ }),
    {
        match self.imap.take() {
            Some(imap) => imap,
            None => RealImap::from_config(&self.config),
        }
    }

    /// The IMAP backend. It is made where no job has needed it yet.
    pub fn imap(&mut self) -> (r: &mut RealImap)
        ensures
            r@ == backend(old(self)@),
            final(self)@ == (WorkerView { imap: Some(final(r)@), ..old(self)@ }),
            r.has_unsaved() == old(self).has_unsaved(),
            final(self).has_unsaved() == final(r).has_unsaved(),
    {
        if self.imap.is_none() {
            self.imap = Some(RealImap::from_config(&self.config));
        }
        self.imap.as_mut().unwrap()
    }

    /// Whether there is an IMAP backend.
    pub fn has_imap(&self) -> (r: bool)
        ensures
            r == (self@.imap is Some),
    {
        self.imap.is_some()
    }

    fn go_on(&mut self, pending: Pending, next: JobNext) -> (r: WorkerStep)
        ensures
            (final(self)@, r@) == worker_next(old(self)@, pending@, next@),
            backend(final(self)@).cache == backend(old(self)@).cache,
            final(self).has_unsaved() == old(self).has_unsaved(),
    {
        match next {
            JobNext::Answer(done) => {
                self.pending = pending;
                WorkerStep::Answer(Some(done))
            },
            JobNext::Call(call) => {
                let mut imap = self.take_imap();
                let step = imap.start(call);
                self.imap = Some(imap);
                match step {
                    Step::Ask(request) => {
                        self.pending = pending;
                        WorkerStep::Imap(request)
                    },
                    Step::Finished(outcome) => {
                        let (pending, next) = resume_job(pending, outcome);
                        self.pending = pending;
                        match next {
                            JobNext::Answer(done) => WorkerStep::Answer(Some(done)),
                            JobNext::Call(_) => WorkerStep::Answer(None),
                        }
                    },
                }
            },
        }
    }

    fn go_on_sending(&mut self, smtp: Smtp, step: SmtpStep) -> (r: WorkerStep)
        ensures
            (final(self)@, r@) == smtp_next(old(self)@, (smtp@, step@)),
            final(self).has_unsaved() == old(self).has_unsaved(),
    {
        match step {
            SmtpStep::Finished(result) => {
                self.smtp = None;
                self.pending = Pending::Nothing;
                WorkerStep::Answer(Some(Done::Sent { result }))
            },
            step => {
                self.smtp = Some(smtp);
                self.pending = Pending::Sending;
                WorkerStep::Smtp(step)
            },
        }
    }

    /// Do one job: what to do first. A job that answers nothing (`Configure`)
    /// is done at once; it drops the backend with its cache. With any other
    /// job, what is still to be written out of the cache stays so.
    pub fn run(&mut self, job: Job) -> (r: WorkerStep)
        ensures
            starts_job(old(self)@, job, final(self)@, r@),
            !(job is Configure) ==> final(self).has_unsaved() == old(self).has_unsaved(),
    {
        match job {
            Job::Configure(config) => {
                self.config = config;
                self.imap = None;
                self.smtp = None;
                self.pending = Pending::Nothing;
                WorkerStep::Answer(None)
            },
            Job::Send { from, to, cc, bcc, subject, body, attachments } => {
                let backend = RealSmtp::from_config(&self.config);
                match backend.send(
                    from.as_str(),
                    &text::refs(&to),
                    &text::refs(&cc),
                    &text::refs(&bcc),
                    subject.as_str(),
                    &body,
                    &file_refs(&attachments),
                ) {
                    Ok(mut smtp) => {
                        let ghost begun = smtp@;
                        let step = smtp.start();
                        self.go_on_sending(smtp, step)
                    },
                    Err(e) => {
                        self.smtp = None;
                        self.pending = Pending::Nothing;
                        WorkerStep::Answer(Some(Done::Sent { result: Err(e) }))
                    },
                }
            },
            Job::RefreshToken { client_id, client_secret, refresh_token } => {
                self.pending = Pending::Token;
                WorkerStep::Refresh { client_id, client_secret, refresh_token }
            },
            job => {
                let (pending, next) = start_job(job);
                self.go_on(pending, next)
            },
        }
    }

    /// `event` has come of the last step: what to do next. What is still to be
    /// written out of the cache stays so, and what changes in it is to be
    /// written out.
    pub fn resume(&mut self, event: WorkerEvent) -> (r: WorkerStep)
        requires
            event matches WorkerEvent::Token { success, expires_in, now, .. } ==> success
                ==> i64::MIN <= now + expires_in <= i64::MAX,
        ensures
            (final(self)@, r@) == worker_resumed(old(self)@, event),
            !worker_takes_cache(old(self)@, event) && (old(self).has_unsaved() || backend(
                final(self)@,
            ).cache != backend(old(self)@).cache) ==> final(self).has_unsaved(),
            event matches WorkerEvent::Imap(Reply::Cache(c)) ==> worker_takes_cache(
                old(self)@,
                event,
            ) && (imap::is_unsaved(c) || backend(final(self)@).cache != imap::cache_view(c))
                ==> final(self).has_unsaved(),
    {
        match event {
            WorkerEvent::Imap(reply) => {
                let mut imap = self.take_imap();
                let step = imap.resume(reply);
                self.imap = Some(imap);
                match step {
                    Step::Ask(request) => WorkerStep::Imap(request),
                    Step::Finished(outcome) => {
                        let mut pending = Pending::Nothing;
                        std::mem::swap(&mut self.pending, &mut pending);
                        let (pending, next) = resume_job(pending, outcome);
                        self.go_on(pending, next)
                    },
                }
            },
            WorkerEvent::Smtp(event) => match self.smtp.take() {
                Some(mut smtp) => {
                    let step = smtp.resume(event);
                    self.go_on_sending(smtp, step)
                },
                None => {
                    self.pending = Pending::Nothing;
                    WorkerStep::Answer(None)
                },
            },
            WorkerEvent::Token { success, access_token, expires_in, now } => {
                self.pending = Pending::Nothing;
                WorkerStep::Answer(Some(refreshed_token(success, access_token, expires_in, now)))
            },
        }
    }
}

// ---------------------------------------------------------------------------
// The UI's handle on the worker
// ---------------------------------------------------------------------------

/// The UI's side of a worker that runs as a background task.
#[derive(Debug)]
pub struct Worker {
    task: u64,
}

/// What a worker's task has to say.
#[derive(Debug)]
pub enum WorkerNews {
    /// An answer, as the worker wrote it.
    Answer(Vec<u8>),
    /// The task has ended: another is to be started.
    Stopped(String),
}

impl Worker {
    /// The task that runs this worker.
    pub closed spec fn task(&self) -> u64 {
        self.task
    }

    /// The worker that the task `task` runs.
    pub fn new(task: u64) -> (r: Worker)
        ensures
            r.task() == task,
    {
        Worker { task }
    }

    /// An event from the task `id`: what it means, if it is this worker's.
    pub fn on_task_event(&self, id: u64, event: &TaskEvent) -> (r: Option<WorkerNews>)
        ensures
            match r {
                None => id != self.task(),
                Some(WorkerNews::Answer(bytes)) => id == self.task() && (event matches
                    TaskEvent::Progress(b) && b@ == bytes@),
                Some(WorkerNews::Stopped(e)) => id == self.task() && (event matches
                    TaskEvent::Done(result) && e@ == (match result {
                    Ok(_) => "the email worker ended"@,
                    Err(why) => "the email worker stopped: "@ + why@,
                })),
            },
    {
        if id != self.task {
            return None;
        }
        match event {
            TaskEvent::Progress(bytes) => Some(WorkerNews::Answer(codec::copy_bytes(bytes))),
            TaskEvent::Done(Ok(_)) => Some(
                WorkerNews::Stopped("the email worker ended".to_owned()),
            ),
            TaskEvent::Done(Err(e)) => {
                let mut out = text::chars("the email worker stopped: ");
                text::extend_str(&mut out, e.as_str());
                Some(WorkerNews::Stopped(text::string(&out)))
            },
        }
    }
}

// ---------------------------------------------------------------------------
// Laws
// ---------------------------------------------------------------------------

/// Whether `p` is how far the job `job` can have come.
pub open spec fn belongs(job: Job, p: PendingView) -> bool {
    match job {
        Job::Root => p is Root || p is Inbox,
        Job::Envelopes { folder, limit } => p == PendingView::Envelopes(folder@, limit as nat),
        Job::Threads { folder } => p == PendingView::Threads(folder@),
        Job::Message { folder, uid } => p == PendingView::Message(folder@, uid),
        Job::History { key, plan, folders } => match p {
            PendingView::History { key: k, labels, items, folders: f, place } => k == key@
                && labels.len() + items.len() <= plan@.len() && f == text::string_views(folders@),
            _ => false,
        },
        Job::Op(op) => p == PendingView::Op(op_label(op)) || p == op_pending(op),
        _ => false,
    }
}

/// Whether `done` answers the job `job`: it is of its kind, says what it was
/// about, and a history has no more labels than were asked for.
pub open spec fn answers(job: Job, done: DoneView) -> bool {
    match job {
        Job::Root => done is Root,
        Job::Envelopes { folder, limit } => done matches DoneView::Envelopes(f, l, _) && f
            == folder@ && l == limit,
        Job::Threads { folder } => done matches DoneView::Threads(f, _) && f == folder@,
        Job::Message { folder, uid } => done matches DoneView::Message(f, u, _) && f == folder@
            && u == uid,
        Job::History { key, plan, folders } => done matches DoneView::History(k, labels) && k
            == key@ && labels.len() <= plan@.len(),
        Job::Op(op) => done matches DoneView::Op(label, _) && label == op_label(op),
        _ => false,
    }
}

/// Whether a job for the IMAP backend, having come to `p` and `next`, is still
/// under way or has been answered.
pub open spec fn keeps_to(job: Job, p: PendingView, next: JobNextView) -> bool {
    match next {
        JobNextView::Call(_) => belongs(job, p),
        JobNextView::Answer(done) => p is Nothing && answers(job, done),
    }
}

proof fn lemma_history_keeps_to(
    job: Job,
    key: Seq<char>,
    labels: Seq<Seq<char>>,
    items: Seq<ItemView>,
    folders: Seq<Seq<char>>,
)
    requires
        job matches Job::History { key: k, plan, folders: f } && k@ == key && labels.len()
            + items.len() <= plan@.len() && folders == text::string_views(f@),
    ensures
        ({
            let (p, next) = history_next(key, labels, items, folders);
            keeps_to(job, p, next)
        }),
    decreases items.len(),
{
    if items.len() > 0 {
        match items[0] {
            ItemView::Label(l) => lemma_history_keeps_to(
                job,
                key,
                labels.push(l),
                items.drop_first(),
                folders,
            ),
            _ => lemma_history_keeps_to(job, key, labels, items.drop_first(), folders),
        }
    }
}

/// A job for the IMAP backend is answered once, at its end, and with an answer
/// to it, whatever its calls come to.
pub proof fn law_a_job_is_answered_in_kind(job: Job, p: PendingView, outcome: OutcomeView)
    requires
        !(job is Configure || job is Send || job is RefreshToken),
    ensures
        keeps_to(job, job_started(job).0, job_started(job).1),
        belongs(job, p) ==> keeps_to(
            job,
            job_resumed(p, outcome).0,
            job_resumed(p, outcome).1,
        ),
{
    match job {
        Job::History { key, plan, folders } => {
            lemma_history_keeps_to(
                job,
                key@,
                seq![],
                item_views(plan@),
                text::string_views(folders@),
            );
            match p {
                PendingView::History { key: k, labels, items, folders: f, place } => {
                    if belongs(job, p) {
                        let found = match outcome {
                            OutcomeView::Message(r) => r,
                            _ => Err(wrong_outcome()),
                        };
                        if items.len() == 0 {
                            lemma_history_keeps_to(job, k, labels, items, f);
                        } else {
                            lemma_history_keeps_to(job, k, labels, items.drop_first(), f);
                            if let Ok(Some(m)) = found {
                                lemma_history_keeps_to(
                                    job,
                                    k,
                                    labels.push(history_label(m.from, m.subject)),
                                    items.drop_first(),
                                    f,
                                );
                            }
                        }
                    }
                },
                _ => {},
            }
        },
        _ => {},
    }
}

/// A failure to thread is no error: the threads are then unknown.
pub proof fn law_a_failure_to_thread_is_no_error(folder: Seq<char>, e: Seq<char>)
    ensures
        job_resumed(PendingView::Threads(folder), OutcomeView::Threads(Err(e))) == (
            PendingView::Nothing,
            JobNextView::Answer(DoneView::Threads(folder, None)),
        ),
{
}

/// After new settings the next call opens a connection of its own, and the
/// backend that opens it has the new settings.
pub proof fn law_new_settings_reconnect(v: WorkerView, config: EmailClientConfig, call: CallView)
    requires
        v == (WorkerView {
            config,
            imap: None,
            smtp: None,
            pending: PendingView::Nothing,
        }),
    ensures
        imap::started(backend(v), call).0.config == config,
        call is FetchThreads ==> imap::started(backend(v), call).1 == StepView::Ask(
            RequestView::OpenThreads,
        ),
        !(call is FetchThreads) ==> imap::call_stages(backend(v), call).contains(
            imap::StageView::Must(RequestView::Connect),
        ),
{
    if !(call is FetchThreads) {
        let stages = imap::call_stages(backend(v), call);
        let connect = imap::StageView::Must(RequestView::Connect);
        if call is ListMessages && imap::cache_is_wanted(backend(v)) {
            assert(stages[1] == connect);
        } else {
            assert(stages[0] == connect);
        }
    }
}

/// Whether the backend of `v`, if it has one, has the settings of `v`.
pub open spec fn is_configured(v: WorkerView) -> bool {
    v.imap matches Some(imap) ==> imap.config == v.config
}

/// The worker's backend always has the worker's settings: a worker that has
/// none yet makes one with them, and no call and no event changes them.
pub proof fn law_the_backend_has_the_settings(
    v: WorkerView,
    pending: PendingView,
    next: JobNextView,
    event: WorkerEvent,
)
    requires
        is_configured(v),
    ensures
        backend(v).config == v.config,
        is_configured(worker_next(v, pending, next).0),
        worker_next(v, pending, next).0.config == v.config,
        is_configured(worker_resumed(v, event).0),
        worker_resumed(v, event).0.config == v.config,
{
}

/// What a worker is made to do: start a job, or go on with what came of its
/// last step.
pub enum Move {
    Run(Job),
    Resume(WorkerEvent),
}

/// Whether `event` can come of `step`.
pub open spec fn comes_of(step: WorkerStepView, event: WorkerEvent) -> bool {
    match step {
        WorkerStepView::Imap(_) => event is Imap,
        WorkerStepView::Smtp(_) => event is Smtp,
        WorkerStepView::Refresh(_, _, _) => event is Token,
        WorkerStepView::Answer(_) => false,
    }
}

/// Whether `after` is what a worker can be after `m`, having been `before`,
/// each with the step it has to take.
pub open spec fn moves(
    before: (WorkerView, WorkerStepView),
    m: Move,
    after: (WorkerView, WorkerStepView),
) -> bool {
    match m {
        Move::Run(job) => starts_job(before.0, job, after.0, after.1),
        Move::Resume(event) => comes_of(before.1, event) && after == worker_resumed(
            before.0,
            event,
        ),
    }
}

/// Whether a worker that was made with `config` can have gone through `states`
/// by the moves `made`, the first of which starts a job.
pub open spec fn is_life(
    config: EmailClientConfig,
    made: Seq<Move>,
    states: Seq<(WorkerView, WorkerStepView)>,
) -> bool {
    let new = WorkerView { config, imap: None, smtp: None, pending: PendingView::Nothing };
    &&& made.len() == states.len()
    &&& made.len() > 0 ==> (made[0] matches Move::Run(job) && starts_job(
        new,
        job,
        states[0].0,
        states[0].1,
    ))
    &&& forall|i: int|
        #![trigger states[i]]
        0 < i < made.len() ==> moves(states[i - 1], made[i], states[i])
}

proof fn lemma_history_never_threads(
    key: Seq<char>,
    labels: Seq<Seq<char>>,
    items: Seq<ItemView>,
    folders: Seq<Seq<char>>,
)
    ensures
        !(history_next(key, labels, items, folders).1 matches JobNextView::Call(call) && call
            is FetchThreads),
    decreases items.len(),
{
    if items.len() > 0 {
        match items[0] {
            ItemView::Label(l) => lemma_history_never_threads(
                key,
                labels.push(l),
                items.drop_first(),
                folders,
            ),
            _ => lemma_history_never_threads(key, labels, items.drop_first(), folders),
        }
    }
}

proof fn lemma_only_threads_end_at_once(p: PendingView, outcome: OutcomeView)
    ensures
        !(job_resumed(p, outcome).1 matches JobNextView::Call(call) && call is FetchThreads),
{
    match p {
        PendingView::History { key, labels, items, folders, place } => {
            let found = match outcome {
                OutcomeView::Message(r) => r,
                _ => Err(wrong_outcome()),
            };
            if items.len() == 0 {
                lemma_history_never_threads(key, labels, items, folders);
            } else {
                lemma_history_never_threads(key, labels, items.drop_first(), folders);
                if let Ok(Some(m)) = found {
                    lemma_history_never_threads(
                        key,
                        labels.push(history_label(m.from, m.subject)),
                        items.drop_first(),
                        folders,
                    );
                }
            }
        },
        _ => {},
    }
}

/// What holds of a worker and its step: nothing is left unanswered, and where
/// it talks to an SMTP server there is a conversation.
spec fn is_sound(state: (WorkerView, WorkerStepView)) -> bool {
    &&& state.1 != WorkerStepView::Answer(None)
    &&& state.1 is Smtp ==> state.0.smtp is Some
}

proof fn lemma_sound_start(before: WorkerView, job: Job, after: (WorkerView, WorkerStepView))
    requires
        starts_job(before, job, after.0, after.1),
        !(job is Configure),
    ensures
        is_sound(after),
{
    match job {
        Job::History { key, plan, folders } => lemma_history_never_threads(
            key@,
            seq![],
            item_views(plan@),
            text::string_views(folders@),
        ),
        _ => {},
    }
}

proof fn lemma_sound_life(
    config: EmailClientConfig,
    made: Seq<Move>,
    states: Seq<(WorkerView, WorkerStepView)>,
    i: int,
)
    requires
        is_life(config, made, states),
        0 <= i < made.len(),
    ensures
        match made[i] {
            Move::Run(Job::Configure(_)) => states[i].1 == WorkerStepView::Answer(None),
            _ => is_sound(states[i]),
        },
    decreases i,
{
    let new = WorkerView { config, imap: None, smtp: None, pending: PendingView::Nothing };
    let before = if i == 0 {
        new
    } else {
        states[i - 1].0
    };
    match made[i] {
        Move::Run(job) => {
            if !(job is Configure) {
                lemma_sound_start(before, job, states[i]);
            }
        },
        Move::Resume(event) => {
            lemma_sound_life(config, made, states, i - 1);
            assert(moves(states[i - 1], made[i], states[i]));
            if let WorkerEvent::Imap(reply) = event {
                if let StepView::Finished(outcome) = imap::resumed(backend(before), reply).1 {
                    lemma_only_threads_end_at_once(before.pending, outcome);
                }
            }
        },
    }
}

/// A worker leaves nothing unanswered but new settings: in all that it can go
/// through, the step that answers nothing comes of `Configure`, and of nothing
/// else.
pub proof fn law_only_new_settings_are_not_answered(
    config: EmailClientConfig,
    made: Seq<Move>,
    states: Seq<(WorkerView, WorkerStepView)>,
    i: int,
)
    requires
        is_life(config, made, states),
        0 <= i < made.len(),
    ensures
        states[i].1 == WorkerStepView::Answer(None) <==> (made[i] matches Move::Run(job) && job
            is Configure),
{
    lemma_sound_life(config, made, states, i);
}

/// What a job asks of the backend is what the job names: its folder, its
/// message, its flags and its destination.
pub proof fn law_a_job_asks_for_what_it_names(
    folder: String,
    other: String,
    id: String,
    uid: u32,
    limit: usize,
    add: Vec<String>,
    remove: Vec<String>,
    message: Vec<u8>,
)
    ensures
        job_started(Job::Root).1 == JobNextView::Call(CallView::ListFolders),
        job_started(Job::Envelopes { folder, limit }).1 == JobNextView::Call(
            CallView::ListMessages(folder@, limit as nat),
        ),
        job_started(Job::Threads { folder }).1 == JobNextView::Call(
            CallView::FetchThreads(folder@),
        ),
        job_started(Job::Message { folder, uid }).1 == JobNextView::Call(
            CallView::FetchMessage(folder@, uid),
        ),
        job_started(Job::Op(BgOp::SetFlags { folder, uid, add, remove })).1 == JobNextView::Call(
            CallView::SetFlags(
                folder@,
                uid,
                text::string_views(add@),
                text::string_views(remove@),
            ),
        ),
        job_started(Job::Op(BgOp::Move { folder, uid, dest: other })).1 == JobNextView::Call(
            CallView::MoveMessage(folder@, uid, other@),
        ),
        job_started(Job::Op(BgOp::Expunge { folder, uid })).1 == JobNextView::Call(
            CallView::ExpungeUid(folder@, uid),
        ),
        job_started(Job::Op(BgOp::Append { folder, message })).1 == JobNextView::Call(
            CallView::Append(folder@, message@),
        ),
        job_started(Job::Op(BgOp::MoveByMessageId { search_in: folder, msg_id: id, dest: other })).1
            == JobNextView::Call(CallView::FetchMessageByMessageId(folder@, id@)),
{
}

/// The answer to a job is what its call came to, unchanged: the list, the
/// message, the threads, or why there is none.
pub proof fn law_an_answer_is_what_the_call_came_to(
    folder: String,
    uid: u32,
    limit: usize,
    messages: Result<Seq<HeaderView>, Seq<char>>,
    message: Result<Option<MessageView>, Seq<char>>,
    threads: Option<Seq<Seq<u32>>>,
)
    ensures
        job_resumed(
            job_started(Job::Envelopes { folder, limit }).0,
            OutcomeView::Messages(messages),
        ).1 == JobNextView::Answer(DoneView::Envelopes(folder@, limit as nat, messages)),
        job_resumed(
            job_started(Job::Message { folder, uid }).0,
            OutcomeView::Message(message),
        ).1 == JobNextView::Answer(DoneView::Message(folder@, uid, message)),
        job_resumed(
            job_started(Job::Threads { folder }).0,
            OutcomeView::Threads(Ok(threads)),
        ).1 == JobNextView::Answer(DoneView::Threads(folder@, threads)),
{
}

/// The root is the list of folders and the latest 50 messages of INBOX, each
/// with its own failure: INBOX is listed whatever came of the folders.
pub proof fn law_the_root_has_folders_and_inbox(
    folders: Result<Seq<FolderInfoView>, Seq<char>>,
    messages: Result<Seq<HeaderView>, Seq<char>>,
)
    ensures
        ({
            let (begun, first) = job_started(Job::Root);
            let (halfway, second) = job_resumed(begun, OutcomeView::Folders(folders));
            let (over, last) = job_resumed(halfway, OutcomeView::Messages(messages));
            &&& first == JobNextView::Call(CallView::ListFolders)
            &&& second == JobNextView::Call(CallView::ListMessages("INBOX"@, 50))
            &&& last == JobNextView::Answer(DoneView::Root(folders, messages))
            &&& over is Nothing
        }),
{
}

/// An operation is answered under its own name: with no error exactly where
/// its call ended well, and else with the error that the call ended in.
pub proof fn law_an_operation_fails_as_its_call_does(op: BgOp, e: Seq<char>)
    ensures
        ({
            let doing = PendingView::Op(op_label(op));
            &&& !(op is MoveByMessageId) ==> job_started(Job::Op(op)).0 == doing
            &&& job_resumed(doing, OutcomeView::Unit(Ok(()))).1 == JobNextView::Answer(
                DoneView::Op(op_label(op), None),
            )
            &&& job_resumed(doing, OutcomeView::Unit(Err(e))).1 == JobNextView::Answer(
                DoneView::Op(op_label(op), Some(e)),
            )
        }),
        op is SetFlags ==> op_label(op) == "flag update failed"@,
        op is Move || op is MoveByMessageId ==> op_label(op) == "move failed"@,
        op is Expunge ==> op_label(op) == "delete failed"@,
        op is Append ==> op_label(op) == "save failed"@,
{
}

/// A message that is moved by its Message-ID is looked for where the job says
/// and moved from there to where the job says; where it is not there, that is
/// the error, and where the search fails, its error is.
pub proof fn law_a_message_moves_from_where_it_is_found(
    search_in: String,
    msg_id: String,
    dest: String,
    found: MessageView,
    e: Seq<char>,
)
    ensures
        ({
            let op = BgOp::MoveByMessageId { search_in, msg_id, dest };
            let (looking, first) = job_started(Job::Op(op));
            let (moving, second) = job_resumed(looking, OutcomeView::Message(Ok(Some(found))));
            &&& first == JobNextView::Call(CallView::FetchMessageByMessageId(search_in@, msg_id@))
            &&& second == JobNextView::Call(
                CallView::MoveMessage(search_in@, found.uid, dest@),
            )
            &&& moving == PendingView::Op(op_label(op))
            &&& job_resumed(looking, OutcomeView::Message(Ok(None))).1 == JobNextView::Answer(
                DoneView::Op("move failed"@, Some("the message is no longer in "@ + search_in@)),
            )
            &&& job_resumed(looking, OutcomeView::Message(Err(e))).1 == JobNextView::Answer(
                DoneView::Op("move failed"@, Some(e)),
            )
        }),
{
}

/// A history takes its entries in their order. A label is taken as it is. A
/// message by its UID is looked up in the first folder, and one by its
/// Message-ID in the first folder too, to begin with. A history without
/// entries left is answered with the labels that it has.
pub proof fn law_a_history_goes_through_its_entries(
    key: Seq<char>,
    labels: Seq<Seq<char>>,
    label: Seq<char>,
    uid: u32,
    id: Seq<char>,
    rest: Seq<ItemView>,
    folders: Seq<Seq<char>>,
)
    ensures
        history_next(key, labels, Seq::empty(), folders) == (
            PendingView::Nothing,
            JobNextView::Answer(DoneView::History(key, labels)),
        ),
        history_next(key, labels, seq![ItemView::Label(label)] + rest, folders) == history_next(
            key,
            labels + seq![label],
            rest,
            folders,
        ),
        history_next(key, labels, seq![ItemView::FetchUid(uid)] + rest, folders) == (
            PendingView::History {
                key,
                labels,
                items: seq![ItemView::FetchUid(uid)] + rest,
                folders,
                place: 0,
            },
            JobNextView::Call(
                CallView::FetchMessage(
                    if folders.len() > 0 {
                        folders[0]
                    } else {
                        Seq::empty()
                    },
                    uid,
                ),
            ),
        ),
        folders.len() > 0 ==> history_next(
            key,
            labels,
            seq![ItemView::FetchMessageId(id)] + rest,
            folders,
        ) == (
            PendingView::History {
                key,
                labels,
                items: seq![ItemView::FetchMessageId(id)] + rest,
                folders,
                place: 0,
            },
            JobNextView::Call(CallView::FetchMessageByMessageId(folders[0], id)),
        ),
        folders.len() == 0 ==> history_next(
            key,
            labels,
            seq![ItemView::FetchMessageId(id)] + rest,
            folders,
        ) == history_next(key, labels, rest, folders),
{
    let a = seq![ItemView::Label(label)] + rest;
    let b = seq![ItemView::FetchUid(uid)] + rest;
    let c = seq![ItemView::FetchMessageId(id)] + rest;
    assert(a[0] == ItemView::Label(label) && a.drop_first() == rest);
    assert(b[0] == ItemView::FetchUid(uid) && b.drop_first() == rest);
    assert(c[0] == ItemView::FetchMessageId(id) && c.drop_first() == rest);
    assert(labels.push(label) == labels + seq![label]);
}

/// A message of a history that is found gets a label that says who it is from
/// and what it is about. One that is not found is looked for in the next
/// folder, where it is looked for by its Message-ID and there is one; else
/// the history goes on without it.
pub proof fn law_a_history_shows_what_it_finds(
    key: Seq<char>,
    labels: Seq<Seq<char>>,
    item: ItemView,
    rest: Seq<ItemView>,
    folders: Seq<Seq<char>>,
    place: nat,
    m: MessageView,
    missing: Result<Option<MessageView>, Seq<char>>,
)
    requires
        missing is Err || missing == Ok::<Option<MessageView>, Seq<char>>(None),
    ensures
        ({
            let here = PendingView::History {
                key,
                labels,
                items: seq![item] + rest,
                folders,
                place,
            };
            let shown = job_resumed(here, OutcomeView::Message(Ok(Some(m))));
            let passed = job_resumed(here, OutcomeView::Message(missing));
            &&& shown == history_next(
                key,
                labels + seq!["From: "@ + m.from + " \u{2014} Subject: "@ + m.subject],
                rest,
                folders,
            )
            &&& item is FetchUid ==> passed == history_next(key, labels, rest, folders)
            &&& item is FetchMessageId && place + 1 >= folders.len() ==> passed == history_next(
                key,
                labels,
                rest,
                folders,
            )
            &&& item matches ItemView::FetchMessageId(id) ==> (place + 1 < folders.len()
                ==> passed == (
                PendingView::History {
                    key,
                    labels,
                    items: seq![item] + rest,
                    folders,
                    place: place + 1,
                },
                JobNextView::Call(
                    CallView::FetchMessageByMessageId(folders[place as int + 1], id),
                ),
            ))
        }),
{
    let items = seq![item] + rest;
    assert(items[0] == item && items.drop_first() == rest);
    let label = history_label(m.from, m.subject);
    assert(labels.push(label) == labels + seq![label]);
}

/// A history is asked for what its plan says, entry by entry.
pub proof fn law_a_history_follows_its_plan(
    key: String,
    plan: Vec<HistoryItem>,
    folders: Vec<String>,
    i: int,
)
    ensures
        job_started(Job::History { key, plan, folders }) == history_next(
            key@,
            Seq::empty(),
            item_views(plan@),
            text::string_views(folders@),
        ),
        item_views(plan@).len() == plan@.len(),
        0 <= i < plan@.len() ==> match plan@[i] {
            HistoryItem::Label(l) => item_views(plan@)[i] == ItemView::Label(l@),
            HistoryItem::FetchUid(uid) => item_views(plan@)[i] == ItemView::FetchUid(uid),
            HistoryItem::FetchMessageId(id) => item_views(plan@)[i] == ItemView::FetchMessageId(
                id@,
            ),
        },
{
}

/// What the backend asks for, the worker asks for: when a job starts and when
/// it goes on. Where a call ends, the job goes on with its outcome.
pub proof fn law_the_worker_asks_for_its_backend(
    v: WorkerView,
    pending: PendingView,
    call: CallView,
    done: DoneView,
    reply: Reply,
)
    ensures
        worker_next(v, pending, JobNextView::Answer(done)).1 == WorkerStepView::Answer(Some(done)),
        ({
            let (after, step) = imap::started(backend(v), call);
            let (worker, next) = worker_next(v, pending, JobNextView::Call(call));
            &&& worker.imap == Some(after)
            &&& step matches StepView::Ask(request) ==> next == WorkerStepView::Imap(request)
                && worker.pending == pending
            &&& step matches StepView::Finished(outcome) ==> (job_resumed(pending, outcome).1 matches
                JobNextView::Answer(d) ==> next == WorkerStepView::Answer(Some(d)))
        }),
        ({
            let (after, step) = imap::resumed(backend(v), reply);
            let (worker, next) = worker_resumed(v, WorkerEvent::Imap(reply));
            &&& step matches StepView::Ask(request) ==> {
                &&& next == WorkerStepView::Imap(request)
                &&& worker.imap == Some(after)
                &&& worker.pending == v.pending
            }
            &&& step matches StepView::Finished(outcome) ==> {
                &&& job_resumed(v.pending, outcome).1 matches JobNextView::Answer(d) ==> next
                    == WorkerStepView::Answer(Some(d)) && worker.imap == Some(after)
                &&& job_resumed(v.pending, outcome).1 matches JobNextView::Call(c) ==> (
                worker, next) == worker_next(
                    WorkerView { imap: Some(after), ..v },
                    job_resumed(v.pending, outcome).0,
                    JobNextView::Call(c),
                )
            }
        }),
        v.imap matches Some(known) ==> backend(v) == known,
        v.imap is None ==> backend(v) == imap::fresh(v.config),
{
}

/// What the conversation that sends a message does, the worker does, and what
/// it ends in is the answer. The backend is left as it is.
pub proof fn law_the_worker_speaks_for_its_conversation(
    v: WorkerView,
    smtp: SmtpView,
    event: SmtpEvent,
)
    requires
        v.smtp == Some(smtp),
    ensures
        ({
            let (after, step) = smtp::smtp_step(smtp, event);
            let (worker, next) = worker_resumed(v, WorkerEvent::Smtp(event));
            &&& step matches SmtpStepView::Finished(result) ==> next == WorkerStepView::Answer(
                Some(DoneView::Sent(result)),
            ) && worker.smtp is None
            &&& !(step is Finished) ==> next == WorkerStepView::Smtp(step) && worker.smtp == Some(
                after,
            )
            &&& worker.imap == v.imap
            &&& worker.config == v.config
        }),
{
}

/// A message is sent from the account of the worker, as it was handed over,
/// with every one of its files; or the answer says why it cannot be sent.
pub proof fn law_a_message_is_sent_as_it_was_handed_over(
    before: WorkerView,
    from: String,
    to: Vec<String>,
    cc: Vec<String>,
    bcc: Vec<String>,
    subject: String,
    body: MailBody,
    attachments: Vec<(String, Vec<u8>)>,
    after: WorkerView,
    step: WorkerStepView,
    i: int,
)
    requires
        starts_job(
            before,
            Job::Send { from, to, cc, bcc, subject, body, attachments },
            after,
            step,
        ),
    ensures
        ({
            let why = smtp::send_error(
                before.config,
                from@,
                text::string_views(to@),
                text::string_views(cc@),
                text::string_views(bcc@),
                subject@,
                body@,
            );
            &&& why matches Some(e) ==> step == WorkerStepView::Answer(
                Some(DoneView::Sent(Err(e))),
            )
            &&& why is None ==> exists|begun: SmtpView|
                {
                    &&& #[trigger] smtp::is_conversation(
                        begun,
                        before.config,
                        from@,
                        text::string_views(to@),
                        text::string_views(cc@),
                        text::string_views(bcc@),
                        subject@,
                        body@,
                        owned_files(attachments@),
                    )
                    &&& begun.turns.len() > 0 ==> step == WorkerStepView::Smtp(
                        smtp::turn_start(begun).1,
                    ) && after.smtp == Some(smtp::turn_start(begun).0)
                }
        }),
        owned_files(attachments@).len() == attachments@.len(),
        0 <= i < attachments@.len() ==> owned_files(attachments@)[i] == (
            attachments@[i].0@,
            attachments@[i].1@,
        ),
        after.imap == before.imap,
        after.config == before.config,
{
    let why = smtp::send_error(
        before.config,
        from@,
        text::string_views(to@),
        text::string_views(cc@),
        text::string_views(bcc@),
        subject@,
        body@,
    );
    if why is None {
        let begun = choose|begun: SmtpView|
            {
                &&& #[trigger] smtp::is_conversation(
                    begun,
                    before.config,
                    from@,
                    text::string_views(to@),
                    text::string_views(cc@),
                    text::string_views(bcc@),
                    subject@,
                    body@,
                    owned_files(attachments@),
                )
                &&& (after, step) == smtp_next(before, smtp::turn_start(begun))
            };
        assert(smtp::is_conversation(
            begun,
            before.config,
            from@,
            text::string_views(to@),
            text::string_views(cc@),
            text::string_views(bcc@),
            subject@,
            body@,
            owned_files(attachments@),
        ));
    }
}

/// A token that was refreshed is the one that the endpoint gave, and lasts as
/// long as the endpoint said from now on. Where the endpoint refused, there
/// is none.
pub proof fn law_a_token_lasts_as_long_as_it_was_given_for(
    success: bool,
    token: Seq<char>,
    expires_in: i64,
    now: i64,
)
    requires
        i64::MIN <= now + expires_in <= i64::MAX,
    ensures
        token_result(success, token, expires_in, now) is Ok <==> success,
        token_result(success, token, expires_in, now) matches Ok((given, expiry)) ==> given == token
            && expiry - now == expires_in,
        token_result(success, token, expires_in, now) matches Err(e) ==> e
            == "OAuth token refresh failed"@,
{
}

/// New settings replace the old ones, and the connections with them. A token
/// is refreshed with what the job was given, and changes nothing else.
pub proof fn law_settings_and_tokens_are_the_ones_given(
    before: WorkerView,
    config: EmailClientConfig,
    client_id: String,
    client_secret: String,
    refresh_token: String,
    after: WorkerView,
    step: WorkerStepView,
)
    ensures
        starts_job(before, Job::Configure(config), after, step) ==> after.config == config
            && after.imap is None && after.smtp is None && step == WorkerStepView::Answer(None),
        starts_job(
            before,
            Job::RefreshToken { client_id, client_secret, refresh_token },
            after,
            step,
        ) ==> {
            &&& step == WorkerStepView::Refresh(client_id@, client_secret@, refresh_token@)
            &&& after.config == before.config
            &&& after.imap == before.imap
            &&& after.smtp == before.smtp
        },
{
}

/// Only the task that runs the worker is listened to. What it emits is an
/// answer, handed on as it is; that it is done means that it has stopped, and
/// why is told.
pub proof fn law_the_worker_is_told_of_its_task(
    worker: Worker,
    id: u64,
    event: TaskEvent,
    r: Option<WorkerNews>,
)
    requires
        call_ensures(Worker::on_task_event, (&worker, id, &event), r),
    ensures
        r is Some <==> id == worker.task(),
        r is Some ==> match event {
            TaskEvent::Progress(bytes) => r matches Some(WorkerNews::Answer(answer)) && answer@
                == bytes@,
            TaskEvent::Done(_) => r matches Some(news) && news is Stopped,
        },
{
}

} // verus!
