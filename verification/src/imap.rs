//! The IMAP backend.
//!
//! `RealImap` decides what is asked of the server and what is made of the
//! answers. It does no I/O: a call says what to do first, each answer what to
//! do next, until the call is finished.
//!
//! A call is a list of stages. A stage that must succeed ends the call where
//! it fails, and the session with it, so that the next call reconnects rather
//! than reuses a half-open connection.

use crate::cache;
use crate::cache::EnvelopeCache;
use crate::cache::FolderCache;
use crate::cache::FolderView;
use crate::codec;
use crate::connection;
use crate::connection::ConnectPlan;
use crate::envelope;
use crate::envelope::Fetch;
use crate::folders;
use crate::folders::Name;
use crate::mime;
use crate::raw;
use crate::raw::RawImap;
use crate::raw::RawView;
use crate::raw::ThreadNext;
use crate::raw::ThreadNextView;
use crate::raw::ThreadStage;
use crate::text;
use crate::thread;
use crate::types;
use crate::types::EmailClientConfig;
use crate::types::EmailMessage;
use crate::types::FolderInfo;
use crate::types::FolderInfoView;
use crate::types::HeaderView;
use crate::types::MessageHeader;
use crate::types::MessageView;
use vstd::prelude::*;

verus! {

// ---------------------------------------------------------------------------
// Requests and replies
// ---------------------------------------------------------------------------

/// What the backend asks to be done.
#[derive(Debug)]
pub enum Request {
    /// Open the envelope cache of this account.
    OpenCache(String),
    /// Open a session and sign in.
    Connect,
    /// End the session.
    Logout,
    /// List all folders.
    List,
    /// Select this folder.
    Select(String),
    /// FETCH, for these messages, these items.
    Fetch(String, String),
    UidFetch(String, String),
    UidSearch(String),
    /// UID STORE, for these messages, this change.
    UidStore(String, String),
    /// UID COPY of these messages to this folder.
    UidCopy(String, String),
    UidMove(String, String),
    UidExpunge(String),
    Append(String, Vec<u8>),
    /// Open the connection for threads and read a line.
    OpenThreads,
    /// Send this on the connection for threads and read a line.
    SendThreads(String),
    /// Read a line on the connection for threads.
    ReadThreads,
}

/// What the backend asks to be done.
pub enum RequestView {
    OpenCache(Seq<char>),
    Connect,
    Logout,
    List,
    Select(Seq<char>),
    Fetch(Seq<char>, Seq<char>),
    UidFetch(Seq<char>, Seq<char>),
    UidSearch(Seq<char>),
    UidStore(Seq<char>, Seq<char>),
    UidCopy(Seq<char>, Seq<char>),
    UidMove(Seq<char>, Seq<char>),
    UidExpunge(Seq<char>),
    Append(Seq<char>, Seq<u8>),
    OpenThreads,
    SendThreads(Seq<char>),
    ReadThreads,
}

impl View for Request {
    type V = RequestView;

    open spec fn view(&self) -> RequestView {
        match self {
            Request::OpenCache(a) => RequestView::OpenCache(a@),
            Request::Connect => RequestView::Connect,
            Request::Logout => RequestView::Logout,
            Request::List => RequestView::List,
            Request::Select(a) => RequestView::Select(a@),
            Request::Fetch(a, b) => RequestView::Fetch(a@, b@),
            Request::UidFetch(a, b) => RequestView::UidFetch(a@, b@),
            Request::UidSearch(a) => RequestView::UidSearch(a@),
            Request::UidStore(a, b) => RequestView::UidStore(a@, b@),
            Request::UidCopy(a, b) => RequestView::UidCopy(a@, b@),
            Request::UidMove(a, b) => RequestView::UidMove(a@, b@),
            Request::UidExpunge(a) => RequestView::UidExpunge(a@),
            Request::Append(a, b) => RequestView::Append(a@, b@),
            Request::OpenThreads => RequestView::OpenThreads,
            Request::SendThreads(a) => RequestView::SendThreads(a@),
            Request::ReadThreads => RequestView::ReadThreads,
        }
    }
}

/// What came of a request.
#[derive(Debug)]
pub enum Reply {
    /// It was done.
    Done,
    /// It failed.
    Failed(String),
    /// The envelope cache, if there can be one.
    Cache(Option<EnvelopeCache>),
    /// What LIST gave.
    Names(Vec<Name>),
    /// What SELECT gave.
    Selected { exists: u32, uid_validity: Option<u32> },
    /// What FETCH gave.
    Fetched(Vec<Fetch>),
    /// What SEARCH gave.
    Uids(Vec<u32>),
    /// A line from the connection for threads, with its line break; nothing
    /// where the server has closed the connection.
    Line(Vec<u8>),
}

// ---------------------------------------------------------------------------
// Calls and their outcomes
// ---------------------------------------------------------------------------

/// What can be asked of the backend.
#[derive(Debug)]
pub enum Call {
    ListFolders,
    ListMessages { folder: String, limit: usize },
    FetchMessage { folder: String, uid: u32 },
    FetchMessageByMessageId { folder: String, message_id: String },
    SetFlags { folder: String, uid: u32, add: Vec<String>, remove: Vec<String> },
    CopyMessage { folder: String, uid: u32, dest: String },
    MoveMessage { folder: String, uid: u32, dest: String },
    ExpungeUid { folder: String, uid: u32 },
    Append { folder: String, message: Vec<u8> },
    FetchThreads { folder: String },
}

/// What can be asked of the backend.
pub enum CallView {
    ListFolders,
    ListMessages(Seq<char>, nat),
    FetchMessage(Seq<char>, u32),
    FetchMessageByMessageId(Seq<char>, Seq<char>),
    SetFlags(Seq<char>, u32, Seq<Seq<char>>, Seq<Seq<char>>),
    CopyMessage(Seq<char>, u32, Seq<char>),
    MoveMessage(Seq<char>, u32, Seq<char>),
    ExpungeUid(Seq<char>, u32),
    Append(Seq<char>, Seq<u8>),
    FetchThreads(Seq<char>),
}

impl View for Call {
    type V = CallView;

    open spec fn view(&self) -> CallView {
        match self {
            Call::ListFolders => CallView::ListFolders,
            Call::ListMessages { folder, limit } => CallView::ListMessages(folder@, *limit as nat),
            Call::FetchMessage { folder, uid } => CallView::FetchMessage(folder@, *uid),
            Call::FetchMessageByMessageId {
                folder,
                message_id,
            } => CallView::FetchMessageByMessageId(folder@, message_id@),
            Call::SetFlags { folder, uid, add, remove } => CallView::SetFlags(
                folder@,
                *uid,
                text::string_views(add@),
                text::string_views(remove@),
            ),
            Call::CopyMessage { folder, uid, dest } => CallView::CopyMessage(folder@, *uid, dest@),
            Call::MoveMessage { folder, uid, dest } => CallView::MoveMessage(folder@, *uid, dest@),
            Call::ExpungeUid { folder, uid } => CallView::ExpungeUid(folder@, *uid),
            Call::Append { folder, message } => CallView::Append(folder@, message@),
            Call::FetchThreads { folder } => CallView::FetchThreads(folder@),
        }
    }
}

/// How a call ended.
#[derive(Debug)]
pub enum Outcome {
    Folders(Result<Vec<FolderInfo>, String>),
    Messages(Result<Vec<MessageHeader>, String>),
    Message(Result<Option<EmailMessage>, String>),
    Unit(Result<(), String>),
    Threads(Result<Option<Vec<Vec<u32>>>, String>),
}

/// How a call ended.
pub enum OutcomeView {
    Folders(Result<Seq<FolderInfoView>, Seq<char>>),
    Messages(Result<Seq<HeaderView>, Seq<char>>),
    Message(Result<Option<MessageView>, Seq<char>>),
    Unit(Result<(), Seq<char>>),
    Threads(Result<Option<Seq<Seq<u32>>>, Seq<char>>),
}

/// What the listing `r` holds.
pub open spec fn messages_view(r: Result<Vec<MessageHeader>, String>) -> Result<
    Seq<HeaderView>,
    Seq<char>,
> {
    match r {
        Ok(v) => Ok(types::header_views(v@)),
        Err(e) => Err(e@),
    }
}

/// What the folder list `r` holds.
pub open spec fn folders_view(r: Result<Vec<FolderInfo>, String>) -> Result<
    Seq<FolderInfoView>,
    Seq<char>,
> {
    match r {
        Ok(v) => Ok(types::folder_views(v@)),
        Err(e) => Err(e@),
    }
}

/// What the message `r` holds.
pub open spec fn message_view(r: Result<Option<EmailMessage>, String>) -> Result<
    Option<MessageView>,
    Seq<char>,
> {
    match r {
        Ok(Some(m)) => Ok(Some(m@)),
        Ok(None) => Ok(None),
        Err(e) => Err(e@),
    }
}

/// What the threads `t` hold.
pub open spec fn threads_view(t: Option<Vec<Vec<u32>>>) -> Option<Seq<Seq<u32>>> {
    match t {
        Some(v) => Some(thread::thread_views(v@)),
        None => None,
    }
}

impl View for Outcome {
    type V = OutcomeView;

    open spec fn view(&self) -> OutcomeView {
        match self {
            Outcome::Folders(r) => OutcomeView::Folders(folders_view(*r)),
            Outcome::Messages(r) => OutcomeView::Messages(messages_view(*r)),
            Outcome::Message(r) => OutcomeView::Message(message_view(*r)),
            Outcome::Unit(r) => OutcomeView::Unit(
                match r {
                    Ok(_) => Ok(()),
                    Err(e) => Err(e@),
                },
            ),
            Outcome::Threads(r) => OutcomeView::Threads(
                match r {
                    Ok(t) => Ok(threads_view(*t)),
                    Err(e) => Err(e@),
                },
            ),
        }
    }
}

/// What the backend does next.
#[derive(Debug)]
pub enum Step {
    /// Do this, and say what came of it.
    Ask(Request),
    /// The call has ended so.
    Finished(Outcome),
}

/// What the backend does next.
pub enum StepView {
    Ask(RequestView),
    Finished(OutcomeView),
}

impl View for Step {
    type V = StepView;

    open spec fn view(&self) -> StepView {
        match self {
            Step::Ask(r) => StepView::Ask(r@),
            Step::Finished(o) => StepView::Finished(o@),
        }
    }
}

// ---------------------------------------------------------------------------
// Stages
// ---------------------------------------------------------------------------

/// One stage of a call.
#[derive(Debug)]
enum Stage {
    /// The call fails where this fails.
    Must(Request),
    /// The call is done where this succeeds; where it fails, the call goes on.
    Try(Request),
}

/// One stage of a call.
pub enum StageView {
    Must(RequestView),
    Try(RequestView),
}

impl View for Stage {
    type V = StageView;

    closed spec fn view(&self) -> StageView {
        match self {
            Stage::Must(r) => StageView::Must(r@),
            Stage::Try(r) => StageView::Try(r@),
        }
    }
}

/// What `stage` asks for.
pub open spec fn stage_request(stage: StageView) -> RequestView {
    match stage {
        StageView::Must(r) => r,
        StageView::Try(r) => r,
    }
}

/// The items of a message that a listing needs.
pub open spec fn listing_items() -> Seq<char> {
    "(UID ENVELOPE FLAGS)"@
}

/// The change that adds the flags `flags`.
pub open spec fn add_flags(flags: Seq<Seq<char>>) -> Seq<char> {
    "+FLAGS ("@ + text::joined(flags, " "@) + ")"@
}

/// The change that removes the flags `flags`.
pub open spec fn remove_flags(flags: Seq<Seq<char>>) -> Seq<char> {
    "-FLAGS ("@ + text::joined(flags, " "@) + ")"@
}

/// The stages that read the message `uid` of `folder`.
pub open spec fn fetch_stages(folder: Seq<char>, uid: u32) -> Seq<StageView> {
    seq![
        StageView::Must(RequestView::Select(folder)),
        StageView::Must(RequestView::UidFetch(text::decimal(uid as nat), "BODY[]"@)),
    ]
}

/// What `call` asks of a session.
pub open spec fn session_stages(call: CallView) -> Seq<StageView> {
    match call {
        CallView::ListFolders => seq![StageView::Must(RequestView::List)],
        CallView::ListMessages(folder, limit) => seq![
            StageView::Must(RequestView::Select(folder)),
        ],
        CallView::FetchMessage(folder, uid) => fetch_stages(folder, uid),
        CallView::FetchMessageByMessageId(folder, message_id) => seq![
            StageView::Must(RequestView::Select(folder)),
            StageView::Must(RequestView::UidSearch("HEADER Message-ID "@ + message_id)),
        ],
        CallView::SetFlags(folder, uid, add, remove) => seq![
            StageView::Must(RequestView::Select(folder)),
        ] + (if add.len() > 0 {
            seq![
                StageView::Must(
                    RequestView::UidStore(text::decimal(uid as nat), add_flags(add)),
                ),
            ]
        } else {
            seq![]
        }) + (if remove.len() > 0 {
            seq![
                StageView::Must(
                    RequestView::UidStore(text::decimal(uid as nat), remove_flags(remove)),
                ),
            ]
        } else {
            seq![]
        }),
        CallView::CopyMessage(folder, uid, dest) => seq![
            StageView::Must(RequestView::Select(folder)),
            StageView::Must(RequestView::UidCopy(text::decimal(uid as nat), dest)),
        ],
        CallView::MoveMessage(folder, uid, dest) => seq![
            StageView::Must(RequestView::Select(folder)),
            StageView::Try(RequestView::UidMove(text::decimal(uid as nat), dest)),
            StageView::Must(RequestView::UidCopy(text::decimal(uid as nat), dest)),
            StageView::Must(
                RequestView::UidStore(text::decimal(uid as nat), "+FLAGS (\\Deleted)"@),
            ),
            StageView::Must(RequestView::UidExpunge(text::decimal(uid as nat))),
        ],
        CallView::ExpungeUid(folder, uid) => seq![
            StageView::Must(RequestView::Select(folder)),
            StageView::Must(RequestView::UidExpunge(text::decimal(uid as nat))),
        ],
        CallView::Append(folder, message) => seq![
            StageView::Must(RequestView::Append(folder, message)),
        ],
        CallView::FetchThreads(folder) => seq![],
    }
}

/// What is made of the last answer to a call.
#[derive(Debug)]
enum Goal {
    Folders,
    Listing { folder: String, limit: usize },
    NewMessages { folder: String, limit: usize },
    AllMessages { folder: String },
    Message { uid: u32 },
    Search { folder: String },
    Flags { folder: String, uid: u32, seen: Option<bool>, flagged: Option<bool> },
    Nothing,
}

/// What is made of the last answer to a call.
pub enum GoalView {
    /// The folder list.
    Folders,
    /// A plan for the listing of a folder.
    Listing(Seq<char>, nat),
    /// The listing of a folder, its new messages among it.
    NewMessages(Seq<char>, nat),
    /// The listing of a folder that is fetched anew.
    AllMessages(Seq<char>),
    /// The message with a UID.
    Message(u32),
    /// The message that was searched for in a folder.
    Search(Seq<char>),
    /// Changed flags in the cache.
    Flags(Seq<char>, u32, Option<bool>, Option<bool>),
    Nothing,
}

impl View for Goal {
    type V = GoalView;

    closed spec fn view(&self) -> GoalView {
        match self {
            Goal::Folders => GoalView::Folders,
            Goal::Listing { folder, limit } => GoalView::Listing(folder@, *limit as nat),
            Goal::NewMessages { folder, limit } => GoalView::NewMessages(folder@, *limit as nat),
            Goal::AllMessages { folder } => GoalView::AllMessages(folder@),
            Goal::Message { uid } => GoalView::Message(*uid),
            Goal::Search { folder } => GoalView::Search(folder@),
            Goal::Flags { folder, uid, seen, flagged } => GoalView::Flags(
                folder@,
                *uid,
                *seen,
                *flagged,
            ),
            Goal::Nothing => GoalView::Nothing,
        }
    }
}

/// What a change of flags makes of the flag `flag`.
pub open spec fn flag_change(
    add: Seq<Seq<char>>,
    remove: Seq<Seq<char>>,
    flag: Seq<char>,
) -> Option<bool> {
    if add.contains(flag) {
        Some(true)
    } else if remove.contains(flag) {
        Some(false)
    } else {
        None
    }
}

/// What is made of the last answer to `call`.
pub open spec fn goal_of(call: CallView) -> GoalView {
    match call {
        CallView::ListFolders => GoalView::Folders,
        CallView::ListMessages(folder, limit) => GoalView::Listing(folder, limit),
        CallView::FetchMessage(folder, uid) => GoalView::Message(uid),
        CallView::FetchMessageByMessageId(folder, message_id) => GoalView::Search(folder),
        CallView::SetFlags(folder, uid, add, remove) => GoalView::Flags(
            folder,
            uid,
            flag_change(add, remove, "\\Seen"@),
            flag_change(add, remove, "\\Flagged"@),
        ),
        _ => GoalView::Nothing,
    }
}

/// How a call with the goal `goal` ends where it fails.
pub open spec fn failure(goal: GoalView, e: Seq<char>) -> OutcomeView {
    match goal {
        GoalView::Folders => OutcomeView::Folders(Err(e)),
        GoalView::Listing(_, _) => OutcomeView::Messages(Err(e)),
        GoalView::NewMessages(_, _) => OutcomeView::Messages(Err(e)),
        GoalView::AllMessages(_) => OutcomeView::Messages(Err(e)),
        GoalView::Message(_) => OutcomeView::Message(Err(e)),
        GoalView::Search(_) => OutcomeView::Message(Err(e)),
        GoalView::Flags(_, _, _, _) => OutcomeView::Unit(Err(e)),
        GoalView::Nothing => OutcomeView::Unit(Err(e)),
    }
}

// ---------------------------------------------------------------------------
// The backend
// ---------------------------------------------------------------------------

/// What the backend is doing.
#[derive(Debug)]
enum Task {
    /// Nothing.
    Free,
    /// A call: the stage that was asked for, and those after it.
    Working { goal: Goal, now: Stage, rest: Vec<Stage> },
    /// Ending the session after a failure.
    Leaving(Outcome),
    /// Fetching the threads of a folder.
    Threads { folder: String, stage: ThreadStage },
}

/// What the backend is doing.
pub enum TaskView {
    Free,
    Working(GoalView, StageView, Seq<StageView>),
    Leaving(OutcomeView),
    Threads(Seq<char>, ThreadStage),
}

/// What the stages `v` are.
spec fn stage_views(v: Seq<Stage>) -> Seq<StageView> {
    Seq::new(v.len(), |i: int| v[i]@)
}

impl View for Task {
    type V = TaskView;

    closed spec fn view(&self) -> TaskView {
        match self {
            Task::Free => TaskView::Free,
            Task::Working { goal, now, rest } => TaskView::Working(
                goal@,
                now@,
                stage_views(rest@),
            ),
            Task::Leaving(o) => TaskView::Leaving(o@),
            Task::Threads { folder, stage } => TaskView::Threads(folder@, *stage),
        }
    }
}

/// The IMAP backend of one account.
#[derive(Debug)]
pub struct RealImap {
    config: EmailClientConfig,
    connected: bool,
    /// Opened on first use, so a backend that never lists a folder never opens
    /// the file.
    cache: Option<EnvelopeCache>,
    cache_opened: bool,
    /// A separate connection used only for threads. Opened on first use and
    /// kept across folders.
    threads: Option<RawImap>,
    task: Task,
}

/// What a backend knows and does.
pub struct ImapView {
    pub config: EmailClientConfig,
    /// Whether there is a session.
    pub connected: bool,
    pub cache: Option<Map<Seq<char>, FolderView>>,
    pub cache_opened: bool,
    /// The connection for threads.
    pub threads: Option<RawView>,
    pub task: TaskView,
}

impl View for RealImap {
    type V = ImapView;

    closed spec fn view(&self) -> ImapView {
        ImapView {
            config: self.config,
            connected: self.connected,
            cache: match self.cache {
                Some(c) => Some(c@),
                None => None,
            },
            cache_opened: self.cache_opened,
            threads: match self.threads {
                Some(raw) => Some(raw@),
                None => None,
            },
            task: self.task@,
        }
    }
}

/// A backend that has done nothing yet.
pub open spec fn fresh(config: EmailClientConfig) -> ImapView {
    ImapView {
        config,
        connected: false,
        cache: None,
        cache_opened: false,
        threads: None,
        task: TaskView::Free,
    }
}

/// Whether the cache is still to be opened. Without a user name there is none.
pub open spec fn cache_is_wanted(v: ImapView) -> bool {
    !v.cache_opened && v.config.username@.len() > 0
}

/// The stage that opens the cache, where it is still to be opened.
pub open spec fn cache_stages(v: ImapView) -> Seq<StageView> {
    if cache_is_wanted(v) {
        seq![StageView::Must(RequestView::OpenCache(v.config.username@))]
    } else {
        seq![]
    }
}

/// The stage that opens a session, where there is none.
pub open spec fn connect_stages(v: ImapView) -> Seq<StageView> {
    if v.connected {
        seq![]
    } else {
        seq![StageView::Must(RequestView::Connect)]
    }
}

/// All stages of `call`. A listing opens the cache first, a change of flags
/// last.
pub open spec fn call_stages(v: ImapView, call: CallView) -> Seq<StageView> {
    match call {
        CallView::ListMessages(_, _) => cache_stages(v) + connect_stages(v) + session_stages(call),
        CallView::SetFlags(_, _, _, _) => connect_stages(v) + session_stages(call) + cache_stages(
            v,
        ),
        _ => connect_stages(v) + session_stages(call),
    }
}

/// What the fetching of threads has come to.
pub open spec fn threads_next(
    v: ImapView,
    folder: Seq<char>,
    next: (RawView, ThreadStage, ThreadNextView),
) -> (ImapView, StepView) {
    let (raw, stage, what) = next;
    let going_on = ImapView {
        threads: Some(raw),
        task: TaskView::Threads(folder, stage),
        ..v
    };
    match what {
        ThreadNextView::Send(line) => (going_on, StepView::Ask(RequestView::SendThreads(line))),
        ThreadNextView::Read => (going_on, StepView::Ask(RequestView::ReadThreads)),
        ThreadNextView::Finished(t) => (
            ImapView { threads: Some(raw), task: TaskView::Free, ..v },
            StepView::Finished(OutcomeView::Threads(Ok(t))),
        ),
        ThreadNextView::Failed(e) => (
            ImapView { threads: None, task: TaskView::Free, ..v },
            StepView::Finished(OutcomeView::Threads(Err(e))),
        ),
    }
}

/// What `call` starts with.
pub open spec fn started(v: ImapView, call: CallView) -> (ImapView, StepView) {
    match call {
        CallView::FetchThreads(folder) => match v.threads {
            Some(raw) => threads_next(v, folder, raw::signed_in(raw, folder)),
            None => (
                ImapView {
                    threads: Some(
                        RawView {
                            tag: 0,
                            caps: None,
                            phase: raw::PhaseView::Greeting(
                                crate::connection::login_of(v.config),
                            ),
                        },
                    ),
                    task: TaskView::Threads(folder, ThreadStage::SigningIn),
                    ..v
                },
                StepView::Ask(RequestView::OpenThreads),
            ),
        },
        _ => {
            let stages = call_stages(v, call);
            (
                ImapView {
                    task: TaskView::Working(goal_of(call), stages[0], stages.skip(1)),
                    ..v
                },
                StepView::Ask(stage_request(stages[0])),
            )
        },
    }
}

/// The call ends in `outcome`, which is a failure: the session ends first.
pub open spec fn failed(v: ImapView, outcome: OutcomeView) -> (ImapView, StepView) {
    if v.connected {
        (
            ImapView { connected: false, task: TaskView::Leaving(outcome), ..v },
            StepView::Ask(RequestView::Logout),
        )
    } else {
        (ImapView { task: TaskView::Free, ..v }, StepView::Finished(outcome))
    }
}

/// How a folder is to be listed.
pub enum Plan {
    /// The cache holds every message the server reports.
    ServeCached,
    /// The cache is right but misses messages: fetch those with UIDs above
    /// this one.
    Incremental(u32),
    /// Nothing of use is cached: fetch the whole window.
    Full,
}

/// How to list `folder`, of which the server reports `total` messages and the
/// UIDVALIDITY `validity`.
pub open spec fn listing_plan(
    c: Option<Map<Seq<char>, FolderView>>,
    folder: Seq<char>,
    validity: u32,
    total: nat,
) -> Plan {
    match c {
        Some(m) => if m.contains_key(folder) && m[folder].uidvalidity == validity {
            if m[folder].count >= total {
                Plan::ServeCached
            } else {
                match cache::greatest(m[folder].envelopes) {
                    Some(uid) => Plan::Incremental(uid),
                    None => Plan::Full,
                }
            }
        } else {
            Plan::Full
        },
        None => Plan::Full,
    }
}

/// The cache `c` with `folder` flushed.
pub open spec fn flushed(
    c: Option<Map<Seq<char>, FolderView>>,
    folder: Seq<char>,
    validity: u32,
) -> Option<Map<Seq<char>, FolderView>> {
    match c {
        Some(m) => Some(m.insert(folder, cache::empty_folder(validity))),
        None => None,
    }
}

/// The cache `c` with `headers` put into `folder`.
pub open spec fn filled(
    c: Option<Map<Seq<char>, FolderView>>,
    folder: Seq<char>,
    headers: Seq<HeaderView>,
) -> Option<Map<Seq<char>, FolderView>> {
    match c {
        Some(m) => Some(cache::cache_upserted(m, folder, headers)),
        None => None,
    }
}

/// What the cache `c` lists of `folder`.
pub open spec fn cached_listing(
    c: Option<Map<Seq<char>, FolderView>>,
    folder: Seq<char>,
    limit: nat,
) -> Seq<HeaderView> {
    match c {
        Some(m) => if m.contains_key(folder) {
            cache::latest(m[folder].envelopes, limit)
        } else {
            seq![]
        },
        None => seq![],
    }
}

/// The messages above `uid`.
pub open spec fn range_above(uid: u32) -> Seq<char> {
    text::decimal((uid + 1) as nat) + ":*"@
}

/// The last `limit` of `total` messages.
pub open spec fn range_of_last(limit: nat, total: nat) -> Seq<char> {
    text::decimal(
        if total > limit {
            (total - limit + 1) as nat
        } else {
            1
        },
    ) + ":"@ + text::decimal(total)
}

/// The body of the first of `fetched` that has the UID `uid`.
pub open spec fn body_of(fetched: Seq<Fetch>, uid: u32) -> Option<Seq<u8>>
    decreases fetched.len(),
{
    if fetched.len() == 0 {
        None
    } else if fetched[0].uid == Some(uid) {
        match fetched[0].body {
            Some(b) => Some(b@),
            None => None,
        }
    } else {
        body_of(fetched.drop_first(), uid)
    }
}

/// What is said of a reply that does not fit its request.
pub open spec fn misfit() -> Seq<char> {
    "unexpected reply"@
}

/// What comes of the last answer to a call: its outcome, or a new goal and the
/// stages to it. With it goes what the cache then holds.
pub enum Next {
    Done(OutcomeView),
    More(GoalView, Seq<StageView>),
}

/// The folder `folder` was selected to list `limit` of its messages.
pub open spec fn on_selected(
    c: Option<Map<Seq<char>, FolderView>>,
    folder: Seq<char>,
    limit: nat,
    exists_: u32,
    uid_validity: Option<u32>,
) -> (Option<Map<Seq<char>, FolderView>>, Next) {
    let validity = match uid_validity {
        Some(v) => v,
        None => 0,
    };
    if exists_ == 0 {
        (flushed(c, folder, validity), Next::Done(OutcomeView::Messages(Ok(seq![]))))
    } else {
        match listing_plan(c, folder, validity, exists_ as nat) {
            Plan::ServeCached => (
                c,
                Next::Done(OutcomeView::Messages(Ok(cached_listing(c, folder, limit)))),
            ),
            Plan::Incremental(uid) => (
                c,
                Next::More(
                    GoalView::NewMessages(folder, limit),
                    seq![
                        StageView::Must(RequestView::UidFetch(range_above(uid), listing_items())),
                    ],
                ),
            ),
            Plan::Full => (
                flushed(c, folder, validity),
                Next::More(
                    GoalView::AllMessages(folder),
                    seq![
                        StageView::Must(
                            RequestView::Fetch(
                                range_of_last(limit, exists_ as nat),
                                listing_items(),
                            ),
                        ),
                    ],
                ),
            ),
        }
    }
}

/// What comes of `reply`, the last answer to a call with the goal `goal`.
pub open spec fn concluded(
    c: Option<Map<Seq<char>, FolderView>>,
    goal: GoalView,
    reply: Reply,
) -> (Option<Map<Seq<char>, FolderView>>, Next) {
    match (goal, reply) {
        (GoalView::Folders, Reply::Names(names)) => (
            c,
            Next::Done(OutcomeView::Folders(Ok(folders::folders_of(names@)))),
        ),
        (
            GoalView::Listing(folder, limit),
            Reply::Selected { exists, uid_validity },
        ) => on_selected(c, folder, limit, exists, uid_validity),
        (GoalView::NewMessages(folder, limit), Reply::Fetched(fetched)) => {
            let headers = envelope::headers_of(fetched@);
            let after = if headers.len() > 0 {
                filled(c, folder, headers)
            } else {
                c
            };
            (after, Next::Done(OutcomeView::Messages(Ok(cached_listing(after, folder, limit)))))
        },
        (GoalView::AllMessages(folder), Reply::Fetched(fetched)) => {
            let headers = envelope::headers_of(fetched@).reverse();
            (filled(c, folder, headers), Next::Done(OutcomeView::Messages(Ok(headers))))
        },
        (GoalView::Message(uid), Reply::Fetched(fetched)) => (
            c,
            Next::Done(
                OutcomeView::Message(
                    match body_of(fetched@, uid) {
                        Some(bytes) => Ok(Some(mime::message_of(uid, codec::lossy_text(bytes)))),
                        None => Ok(None),
                    },
                ),
            ),
        ),
        (GoalView::Search(folder), Reply::Uids(uids)) => (
            c,
            if uids@.len() == 0 {
                Next::Done(OutcomeView::Message(Ok(None)))
            } else {
                Next::More(GoalView::Message(uids@[0]), fetch_stages(folder, uids@[0]))
            },
        ),
        (GoalView::Flags(folder, uid, seen, flagged), _) => (
            match c {
                Some(m) => Some(cache::cache_patched(m, folder, uid, seen, flagged)),
                None => None,
            },
            Next::Done(OutcomeView::Unit(Ok(()))),
        ),
        (GoalView::Nothing, _) => (c, Next::Done(OutcomeView::Unit(Ok(())))),
        (goal, _) => (c, Next::Done(failure(goal, misfit()))),
    }
}

/// What `v` knows after `reply` to `request`: that it has a session, or the
/// cache.
pub open spec fn learned(v: ImapView, request: RequestView, reply: Reply) -> ImapView {
    match (request, reply) {
        (RequestView::Connect, Reply::Done) => ImapView { connected: true, ..v },
        (RequestView::OpenCache(_), Reply::Cache(c)) => ImapView {
            cache: match c {
                Some(m) => Some(m@),
                None => None,
            },
            cache_opened: true,
            ..v
        },
        _ => v,
    }
}

/// What the backend does when the stage `now` was answered with `reply`.
pub open spec fn worked(
    v: ImapView,
    goal: GoalView,
    now: StageView,
    rest: Seq<StageView>,
    reply: Reply,
) -> (ImapView, StepView) {
    match reply {
        Reply::Failed(e) => if now is Try && rest.len() > 0 {
            (
                ImapView { task: TaskView::Working(goal, rest[0], rest.skip(1)), ..v },
                StepView::Ask(stage_request(rest[0])),
            )
        } else {
            failed(v, failure(goal, e@))
        },
        _ => {
            let known = learned(v, stage_request(now), reply);
            if now is Must && rest.len() > 0 {
                (
                    ImapView { task: TaskView::Working(goal, rest[0], rest.skip(1)), ..known },
                    StepView::Ask(stage_request(rest[0])),
                )
            } else {
                let (c, next) = concluded(known.cache, goal, reply);
                let after = ImapView { cache: c, ..known };
                match next {
                    Next::Done(outcome) => (
                        ImapView { task: TaskView::Free, ..after },
                        StepView::Finished(outcome),
                    ),
                    Next::More(goal, stages) => (
                        ImapView {
                            task: TaskView::Working(goal, stages[0], stages.skip(1)),
                            ..after
                        },
                        StepView::Ask(stage_request(stages[0])),
                    ),
                }
            }
        },
    }
}

/// What the backend does when its last request was answered with `reply`.
pub open spec fn resumed(v: ImapView, reply: Reply) -> (ImapView, StepView) {
    match v.task {
        TaskView::Free => (v, StepView::Finished(OutcomeView::Unit(Err(misfit())))),
        TaskView::Leaving(outcome) => (
            ImapView { task: TaskView::Free, ..v },
            StepView::Finished(outcome),
        ),
        TaskView::Working(goal, now, rest) => worked(v, goal, now, rest, reply),
        TaskView::Threads(folder, stage) => match (v.threads, reply) {
            (Some(raw), Reply::Line(bytes)) => threads_next(
                v,
                folder,
                raw::thread_step(raw, folder, stage, bytes@),
            ),
            (_, Reply::Failed(e)) => (
                ImapView { threads: None, task: TaskView::Free, ..v },
                StepView::Finished(OutcomeView::Threads(Err(e@))),
            ),
            _ => (
                ImapView { threads: None, task: TaskView::Free, ..v },
                StepView::Finished(OutcomeView::Threads(Err(misfit()))),
            ),
        },
    }
}

// ---------------------------------------------------------------------------
// Doing it
// ---------------------------------------------------------------------------

fn copy_request(request: &Request) -> (r: Request)
    ensures
        r@ == request@,
{
    match request {
        Request::OpenCache(a) => Request::OpenCache(a.clone()),
        Request::Connect => Request::Connect,
        Request::Logout => Request::Logout,
        Request::List => Request::List,
        Request::Select(a) => Request::Select(a.clone()),
        Request::Fetch(a, b) => Request::Fetch(a.clone(), b.clone()),
        Request::UidFetch(a, b) => Request::UidFetch(a.clone(), b.clone()),
        Request::UidSearch(a) => Request::UidSearch(a.clone()),
        Request::UidStore(a, b) => Request::UidStore(a.clone(), b.clone()),
        Request::UidCopy(a, b) => Request::UidCopy(a.clone(), b.clone()),
        Request::UidMove(a, b) => Request::UidMove(a.clone(), b.clone()),
        Request::UidExpunge(a) => Request::UidExpunge(a.clone()),
        Request::Append(a, b) => Request::Append(a.clone(), codec::copy_bytes(b)),
        Request::OpenThreads => Request::OpenThreads,
        Request::SendThreads(a) => Request::SendThreads(a.clone()),
        Request::ReadThreads => Request::ReadThreads,
    }
}

fn request_of(stage: &Stage) -> (r: Request)
    ensures
        r@ == stage_request(stage@),
{
    match stage {
        Stage::Must(r) => copy_request(r),
        Stage::Try(r) => copy_request(r),
    }
}

fn decimal_string(n: u64) -> (r: String)
    ensures
        r@ == text::decimal(n as nat),
{
    text::string(&text::to_decimal(n))
}

fn flags_query(sign: &str, flags: &Vec<String>) -> (r: String)
    ensures
        r@ == sign@ + text::joined(text::string_views(flags@), " "@) + ")"@,
{
    let mut out = text::chars(sign);
    text::extend(&mut out, &text::join(&text::char_lists(flags), " "));
    text::extend_str(&mut out, ")");
    text::string(&out)
}

fn push_stage(stages: &mut Vec<Stage>, stage: Stage)
    ensures
        stage_views(final(stages)@) == stage_views(old(stages)@).push(stage@),
{
    stages.push(stage);
    assert(stage_views(stages@) == stage_views(old(stages)@).push(stage@));
}

fn push_fetch(stages: &mut Vec<Stage>, folder: &str, uid: u32)
    ensures
        stage_views(final(stages)@) == stage_views(old(stages)@) + fetch_stages(folder@, uid),
{
    push_stage(stages, Stage::Must(Request::Select(folder.to_owned())));
    push_stage(
        stages,
        Stage::Must(Request::UidFetch(decimal_string(uid as u64), "BODY[]".to_owned())),
    );
    assert(stage_views(stages@) == stage_views(old(stages)@) + fetch_stages(folder@, uid));
}

fn push_session_stages(stages: &mut Vec<Stage>, call: &Call)
    ensures
        stage_views(final(stages)@) == stage_views(old(stages)@) + session_stages(call@),
{
    match call {
        Call::ListFolders => {
            push_stage(stages, Stage::Must(Request::List));
        },
        Call::ListMessages { folder, limit } => {
            push_stage(stages, Stage::Must(Request::Select(folder.clone())));
        },
        Call::FetchMessage { folder, uid } => {
            push_fetch(stages, folder.as_str(), *uid);
        },
        Call::FetchMessageByMessageId { folder, message_id } => {
            push_stage(stages, Stage::Must(Request::Select(folder.clone())));
            let mut query = text::chars("HEADER Message-ID ");
            text::extend_str(&mut query, message_id.as_str());
            push_stage(stages, Stage::Must(Request::UidSearch(text::string(&query))));
        },
        Call::SetFlags { folder, uid, add, remove } => {
            push_stage(stages, Stage::Must(Request::Select(folder.clone())));
            if add.len() > 0 {
                push_stage(
                    stages,
                    Stage::Must(
                        Request::UidStore(
                            decimal_string(*uid as u64),
                            flags_query("+FLAGS (", add),
                        ),
                    ),
                );
            }
            if remove.len() > 0 {
                push_stage(
                    stages,
                    Stage::Must(
                        Request::UidStore(
                            decimal_string(*uid as u64),
                            flags_query("-FLAGS (", remove),
                        ),
                    ),
                );
            }
        },
        Call::CopyMessage { folder, uid, dest } => {
            push_stage(stages, Stage::Must(Request::Select(folder.clone())));
            push_stage(
                stages,
                Stage::Must(Request::UidCopy(decimal_string(*uid as u64), dest.clone())),
            );
        },
        Call::MoveMessage { folder, uid, dest } => {
            push_stage(stages, Stage::Must(Request::Select(folder.clone())));
            push_stage(
                stages,
                Stage::Try(Request::UidMove(decimal_string(*uid as u64), dest.clone())),
            );
            push_stage(
                stages,
                Stage::Must(Request::UidCopy(decimal_string(*uid as u64), dest.clone())),
            );
            push_stage(
                stages,
                Stage::Must(
                    Request::UidStore(
                        decimal_string(*uid as u64),
                        "+FLAGS (\\Deleted)".to_owned(),
                    ),
                ),
            );
            push_stage(stages, Stage::Must(Request::UidExpunge(decimal_string(*uid as u64))));
        },
        Call::ExpungeUid { folder, uid } => {
            push_stage(stages, Stage::Must(Request::Select(folder.clone())));
            push_stage(stages, Stage::Must(Request::UidExpunge(decimal_string(*uid as u64))));
        },
        Call::Append { folder, message } => {
            push_stage(
                stages,
                Stage::Must(Request::Append(folder.clone(), codec::copy_bytes(message))),
            );
        },
        Call::FetchThreads { folder } => {},
    }
    assert(stage_views(stages@) == stage_views(old(stages)@) + session_stages(call@));
}

fn has_flag(flags: &Vec<String>, flag: &str) -> (r: bool)
    ensures
        r == text::string_views(flags@).contains(flag@),
{
    let wanted = text::chars(flag);
    let ghost all = text::string_views(flags@);
    let mut i: usize = 0;
    while i < flags.len()
        invariant
            i <= flags@.len(),
            wanted@ == flag@,
            all == text::string_views(flags@),
            forall|k: int| 0 <= k < i ==> #[trigger] all[k] != flag@,
        decreases flags@.len() - i,
    {
        if text::same_str(&wanted, flags[i].as_str()) {
            assert(all[i as int] == flag@);
            return true;
        }
        i = i + 1;
    }
    false
}

/// What a change of flags makes of the flag `flag`: it is set, cleared, or
/// left alone.
pub fn changed_flag(add: &Vec<String>, remove: &Vec<String>, flag: &str) -> (r: Option<bool>)
    ensures
        r == flag_change(text::string_views(add@), text::string_views(remove@), flag@),
{
    if has_flag(add, flag) {
        Some(true)
    } else if has_flag(remove, flag) {
        Some(false)
    } else {
        None
    }
}

fn goal_for(call: &Call) -> (r: Goal)
    ensures
        r@ == goal_of(call@),
{
    match call {
        Call::ListFolders => Goal::Folders,
        Call::ListMessages { folder, limit } => Goal::Listing {
            folder: folder.clone(),
            limit: *limit,
        },
        Call::FetchMessage { folder, uid } => Goal::Message { uid: *uid },
        Call::FetchMessageByMessageId { folder, message_id } => Goal::Search {
            folder: folder.clone(),
        },
        Call::SetFlags { folder, uid, add, remove } => Goal::Flags {
            folder: folder.clone(),
            uid: *uid,
            seen: changed_flag(add, remove, "\\Seen"),
            flagged: changed_flag(add, remove, "\\Flagged"),
        },
        _ => Goal::Nothing,
    }
}

fn failed_outcome(goal: &Goal, e: String) -> (r: Outcome)
    ensures
        r@ == failure(goal@, e@),
{
    match goal {
        Goal::Folders => Outcome::Folders(Err(e)),
        Goal::Listing { .. } => Outcome::Messages(Err(e)),
        Goal::NewMessages { .. } => Outcome::Messages(Err(e)),
        Goal::AllMessages { .. } => Outcome::Messages(Err(e)),
        Goal::Message { .. } => Outcome::Message(Err(e)),
        Goal::Search { .. } => Outcome::Message(Err(e)),
        Goal::Flags { .. } => Outcome::Unit(Err(e)),
        Goal::Nothing => Outcome::Unit(Err(e)),
    }
}

/// The message `uid` among `fetched`: the first with that UID, if it has a
/// body.
pub fn pick_message(fetched: &Vec<Fetch>, uid: u32) -> (r: Option<EmailMessage>)
    ensures
        match r {
            Some(m) => body_of(fetched@, uid) matches Some(bytes) && m@ == mime::message_of(
                uid,
                codec::lossy_text(bytes),
            ),
            None => body_of(fetched@, uid) is None,
        },
{
    let mut i: usize = 0;
    assert(fetched@.skip(0) == fetched@);
    while i < fetched.len()
        invariant
            i <= fetched@.len(),
            body_of(fetched@, uid) == body_of(fetched@.skip(i as int), uid),
        decreases fetched@.len() - i,
    {
        assert(fetched@.skip(i as int).drop_first() == fetched@.skip(i + 1));
        if let Some(u) = fetched[i].uid {
            if u == uid {
                return match &fetched[i].body {
                    Some(bytes) => Some(mime::parse_rfc2822(uid, bytes)),
                    None => None,
                };
            }
        }
        i = i + 1;
    }
    None
}

fn reversed(mut headers: Vec<MessageHeader>) -> (r: Vec<MessageHeader>)
    ensures
        types::header_views(r@) == types::header_views(headers@).reverse(),
{
    let ghost all = headers@;
    let mut out: Vec<MessageHeader> = Vec::new();
    while headers.len() > 0
        invariant
            headers@.len() + out@.len() == all.len(),
            headers@ == all.take(headers@.len() as int),
            forall|k: int| 0 <= k < out@.len() ==> #[trigger] out@[k] == all[all.len() - 1 - k],
        decreases headers@.len(),
    {
        if let Some(h) = headers.pop() {
            out.push(h);
        }
    }
    assert(types::header_views(out@) == types::header_views(all).reverse());
    out
}

/// What comes of the last answer to a call.
#[derive(Debug)]
enum Conclusion {
    Done(Outcome),
    More(Goal, Vec<Stage>),
}

impl View for Conclusion {
    type V = Next;

    closed spec fn view(&self) -> Next {
        match self {
            Conclusion::Done(o) => Next::Done(o@),
            Conclusion::More(goal, stages) => Next::More(goal@, stage_views(stages@)),
        }
    }
}

/// Whether `c` has changed since it was last written out.
pub open spec fn is_unsaved(c: Option<EnvelopeCache>) -> bool {
    c matches Some(m) && m.is_unsaved()
}

/// Whether a change from `a` to `b` is one that will be written out.
spec fn will_be_saved(a: Option<EnvelopeCache>, b: Option<EnvelopeCache>) -> bool {
    is_unsaved(a) || cache_view(a) != cache_view(b) ==> is_unsaved(b)
}

/// Whether the backend `v` takes the cache out of `reply`, which it does when
/// that was what it asked for.
pub open spec fn takes_cache(v: ImapView, reply: Reply) -> bool {
    &&& reply is Cache
    &&& v.task matches TaskView::Working(_, now, _)
    &&& stage_request(now) is OpenCache
}

/// What `c` holds.
pub open spec fn cache_view(c: Option<EnvelopeCache>) -> Option<Map<Seq<char>, FolderView>> {
    match c {
        Some(m) => Some(m@),
        None => None,
    }
}

fn one_stage(request: Request) -> (r: Vec<Stage>)
    ensures
        stage_views(r@) == seq![StageView::Must(request@)],
{
    let mut stages: Vec<Stage> = Vec::new();
    stages.push(Stage::Must(request));
    assert(stage_views(stages@) == seq![StageView::Must(request@)]);
    stages
}

fn full_fetch(limit: usize, total: u32) -> (r: Vec<Stage>)
    ensures
        stage_views(r@) == seq![
            StageView::Must(
                RequestView::Fetch(range_of_last(limit as nat, total as nat), listing_items()),
            ),
        ],
{
    let first: u64 = if total as u64 > limit as u64 {
        total as u64 - limit as u64 + 1
    } else {
        1
    };
    let mut range = text::to_decimal(first);
    text::extend_str(&mut range, ":");
    text::extend(&mut range, &text::to_decimal(total as u64));
    one_stage(Request::Fetch(text::string(&range), "(UID ENVELOPE FLAGS)".to_owned()))
}

fn incremental_fetch(uid: u32) -> (r: Vec<Stage>)
    ensures
        stage_views(r@) == seq![
            StageView::Must(RequestView::UidFetch(range_above(uid), listing_items())),
        ],
{
    let mut range = text::to_decimal(uid as u64 + 1);
    text::extend_str(&mut range, ":*");
    one_stage(Request::UidFetch(text::string(&range), "(UID ENVELOPE FLAGS)".to_owned()))
}

fn no_messages() -> (r: Outcome)
    ensures
        r@ == OutcomeView::Messages(Ok(seq![])),
{
    let none: Vec<MessageHeader> = Vec::new();
    assert(types::header_views(none@) == Seq::<HeaderView>::empty());
    Outcome::Messages(Ok(none))
}

fn conclude_selected(
    c: &mut Option<EnvelopeCache>,
    folder: String,
    limit: usize,
    total: u32,
    uid_validity: Option<u32>,
) -> (r: Conclusion)
    ensures
        (cache_view(*final(c)), r@) == on_selected(
            cache_view(*old(c)),
            folder@,
            limit as nat,
            total,
            uid_validity,
        ),
        will_be_saved(*old(c), *final(c)),
{
    let validity: u32 = match uid_validity {
        Some(v) => v,
        None => 0,
    };
    match c {
        Some(m) => {
            if total == 0 {
                m.invalidate_folder(folder.as_str(), validity);
                return Conclusion::Done(no_messages());
            }
            let right = match m.get_uidvalidity(folder.as_str()) {
                Some(v) => v == validity,
                None => false,
            };
            if right {
                if m.cached_count(folder.as_str()) as u64 >= total as u64 {
                    let listing = m.get_latest(folder.as_str(), limit);
                    return Conclusion::Done(Outcome::Messages(Ok(listing)));
                }
                if let Some(uid) = m.max_uid(folder.as_str()) {
                    return Conclusion::More(
                        Goal::NewMessages { folder, limit },
                        incremental_fetch(uid),
                    );
                }
            }
            m.invalidate_folder(folder.as_str(), validity);
        },
        None => {
            if total == 0 {
                return Conclusion::Done(no_messages());
            }
        },
    }
    Conclusion::More(Goal::AllMessages { folder }, full_fetch(limit, total))
}

fn conclude(c: &mut Option<EnvelopeCache>, goal: Goal, reply: Reply) -> (r: Conclusion)
    ensures
        (cache_view(*final(c)), r@) == concluded(cache_view(*old(c)), goal@, reply),
        will_be_saved(*old(c), *final(c)),
{
    match (goal, reply) {
        (Goal::Folders, Reply::Names(names)) => Conclusion::Done(
            Outcome::Folders(Ok(folders::folder_infos(&names))),
        ),
        (Goal::Listing { folder, limit }, Reply::Selected { exists, uid_validity }) => {
            conclude_selected(c, folder, limit, exists, uid_validity)
        },
        (Goal::NewMessages { folder, limit }, Reply::Fetched(fetched)) => {
            let headers = envelope::parse_headers(&fetched);
            assert(types::header_views(headers@).len() == headers@.len());
            match c {
                Some(m) => {
                    if headers.len() > 0 {
                        m.upsert_all(folder.as_str(), &headers);
                    }
                    let listing = m.get_latest(folder.as_str(), limit);
                    Conclusion::Done(Outcome::Messages(Ok(listing)))
                },
                None => Conclusion::Done(no_messages()),
            }
        },
        (Goal::AllMessages { folder }, Reply::Fetched(fetched)) => {
            let headers = reversed(envelope::parse_headers(&fetched));
            if let Some(m) = c {
                m.upsert_all(folder.as_str(), &headers);
            }
            Conclusion::Done(Outcome::Messages(Ok(headers)))
        },
        (Goal::Message { uid }, Reply::Fetched(fetched)) => Conclusion::Done(
            Outcome::Message(Ok(pick_message(&fetched, uid))),
        ),
        (Goal::Search { folder }, Reply::Uids(uids)) => {
            if uids.len() == 0 {
                Conclusion::Done(Outcome::Message(Ok(None)))
            } else {
                let mut stages: Vec<Stage> = Vec::new();
                push_fetch(&mut stages, folder.as_str(), uids[0]);
                assert(stage_views(stages@) == fetch_stages(folder@, uids@[0]));
                Conclusion::More(Goal::Message { uid: uids[0] }, stages)
            }
        },
        (Goal::Flags { folder, uid, seen, flagged }, _) => {
            if let Some(m) = c {
                m.patch_flags(folder.as_str(), uid, seen, flagged);
            }
            Conclusion::Done(Outcome::Unit(Ok(())))
        },
        (Goal::Nothing, _) => Conclusion::Done(Outcome::Unit(Ok(()))),
        (goal, _) => Conclusion::Done(failed_outcome(&goal, "unexpected reply".to_owned())),
    }
}

impl RealImap {
    /// The backend of the account `config`, without a session yet.
    pub fn from_config(config: &EmailClientConfig) -> (r: RealImap)
        ensures
            r@ == fresh(*config),
            !r.has_unsaved(),
    {
        RealImap {
            config: config.clone(),
            connected: false,
            cache: None,
            cache_opened: false,
            threads: None,
            task: Task::Free,
        }
    }

    /// How to open a session of this account, or a connection for its threads.
    pub fn plan(&self) -> (r: Result<ConnectPlan, String>)
        ensures
            connection::is_plan(r, self@.config),
    {
        connection::connect_plan(&self.config)
    }

    fn wants_cache(&self) -> (r: bool)
        ensures
            r == cache_is_wanted(self@),
    {
        !self.cache_opened && text::chars(self.config.username.as_str()).len() > 0
    }

    fn push_cache_stages(&self, stages: &mut Vec<Stage>)
        ensures
            stage_views(final(stages)@) == stage_views(old(stages)@) + cache_stages(self@),
    {
        if self.wants_cache() {
            push_stage(stages, Stage::Must(Request::OpenCache(self.config.username.clone())));
        }
        assert(stage_views(stages@) == stage_views(old(stages)@) + cache_stages(self@));
    }

    fn push_connect_stages(&self, stages: &mut Vec<Stage>)
        ensures
            stage_views(final(stages)@) == stage_views(old(stages)@) + connect_stages(self@),
    {
        if !self.connected {
            push_stage(stages, Stage::Must(Request::Connect));
        }
        assert(stage_views(stages@) == stage_views(old(stages)@) + connect_stages(self@));
    }

    fn stages_for(&self, call: &Call) -> (r: Vec<Stage>)
        ensures
            stage_views(r@) == call_stages(self@, call@),
    {
        let mut stages: Vec<Stage> = Vec::new();
        assert(stage_views(stages@) == Seq::<StageView>::empty());
        if let Call::ListMessages { .. } = call {
            self.push_cache_stages(&mut stages);
        }
        self.push_connect_stages(&mut stages);
        push_session_stages(&mut stages, call);
        if let Call::SetFlags { .. } = call {
            self.push_cache_stages(&mut stages);
        }
        assert(stage_views(stages@) == call_stages(self@, call@));
        stages
    }

    /// Go to the first of `stages`.
    fn ask_first(&mut self, goal: Goal, mut stages: Vec<Stage>) -> (r: Step)
        requires
            stages@.len() > 0,
        ensures
            final(self)@ == (ImapView {
                task: TaskView::Working(
                    goal@,
                    stage_views(stages@)[0],
                    stage_views(stages@).skip(1),
                ),
                ..old(self)@
            }),
            r@ == StepView::Ask(stage_request(stage_views(stages@)[0])),
            final(self).cache == old(self).cache,
    {
        let ghost all = stage_views(stages@);
        let now = stages.remove(0);
        assert(stage_views(stages@) == all.skip(1));
        let request = request_of(&now);
        self.task = Task::Working { goal, now, rest: stages };
        Step::Ask(request)
    }

    fn go_on_threads(
        &mut self,
        folder: String,
        raw: RawImap,
        next: (ThreadStage, ThreadNext),
    ) -> (r: Step)
        ensures
            (final(self)@, r@) == threads_next(old(self)@, folder@, (raw@, next.0, next.1@)),
            final(self).cache == old(self).cache,
    {
        let (stage, what) = next;
        match what {
            ThreadNext::Send(line) => {
                self.threads = Some(raw);
                self.task = Task::Threads { folder, stage };
                Step::Ask(Request::SendThreads(line))
            },
            ThreadNext::Read => {
                self.threads = Some(raw);
                self.task = Task::Threads { folder, stage };
                Step::Ask(Request::ReadThreads)
            },
            ThreadNext::Finished(t) => {
                self.threads = Some(raw);
                self.task = Task::Free;
                Step::Finished(Outcome::Threads(Ok(t)))
            },
            ThreadNext::Failed(e) => {
                self.threads = None;
                self.task = Task::Free;
                Step::Finished(Outcome::Threads(Err(e)))
            },
        }
    }

    /// Start `call`: what to do first. What is still to be written out of the
    /// cache stays so.
    pub fn start(&mut self, call: Call) -> (r: Step)
        ensures
            (final(self)@, r@) == started(old(self)@, call@),
            final(self).has_unsaved() == old(self).has_unsaved(),
    {
        match call {
            Call::FetchThreads { folder } => match self.threads.take() {
                Some(mut raw) => {
                    let next = raw.start_threads(folder.as_str());
                    self.go_on_threads(folder, raw, next)
                },
                None => {
                    self.threads = Some(RawImap::connect(&self.config));
                    self.task = Task::Threads { folder, stage: ThreadStage::SigningIn };
                    Step::Ask(Request::OpenThreads)
                },
            },
            call => {
                let stages = self.stages_for(&call);
                assert(stage_views(stages@).len() > 0);
                let goal = goal_for(&call);
                self.ask_first(goal, stages)
            },
        }
    }

    fn fail(&mut self, outcome: Outcome) -> (r: Step)
        ensures
            (final(self)@, r@) == failed(old(self)@, outcome@),
            final(self).cache == old(self).cache,
    {
        if self.connected {
            self.connected = false;
            self.task = Task::Leaving(outcome);
            Step::Ask(Request::Logout)
        } else {
            self.task = Task::Free;
            Step::Finished(outcome)
        }
    }

    fn learn(&mut self, now: &Stage, reply: Reply) -> (r: Reply)
        ensures
            final(self)@ == learned(old(self)@, stage_request(now@), reply),
            reply is Cache ==> r is Cache,
            !(reply is Cache) ==> r == reply,
            final(self).cache == (if stage_request(now@) is OpenCache && reply is Cache {
                reply->Cache_0
            } else {
                old(self).cache
            }),
    {
        let request = match now {
            Stage::Must(request) => request,
            Stage::Try(request) => request,
        };
        match (request, reply) {
            (Request::Connect, Reply::Done) => {
                self.connected = true;
                Reply::Done
            },
            (Request::OpenCache(_), Reply::Cache(c)) => {
                self.cache = c;
                self.cache_opened = true;
                Reply::Cache(None)
            },
            (_, reply) => reply,
        }
    }

    fn work(&mut self, goal: Goal, now: Stage, rest: Vec<Stage>, reply: Reply) -> (r: Step)
        ensures
            (final(self)@, r@) == worked(
                old(self)@,
                goal@,
                now@,
                stage_views(rest@),
                reply,
            ),
            will_be_saved(
                if stage_request(now@) is OpenCache && reply is Cache {
                    reply->Cache_0
                } else {
                    old(self).cache
                },
                final(self).cache,
            ),
    {
        assert(stage_views(rest@).len() == rest@.len());
        let must = match &now {
            Stage::Must(_) => true,
            Stage::Try(_) => false,
        };
        match reply {
            Reply::Failed(e) => {
                if !must && rest.len() > 0 {
                    self.ask_first(goal, rest)
                } else {
                    let outcome = failed_outcome(&goal, e);
                    self.fail(outcome)
                }
            },
            reply => {
                let reply = self.learn(&now, reply);
                if must && rest.len() > 0 {
                    return self.ask_first(goal, rest);
                }
                let mut c = self.cache.take();
                let conclusion = conclude(&mut c, goal, reply);
                self.cache = c;
                match conclusion {
                    Conclusion::Done(outcome) => {
                        self.task = Task::Free;
                        Step::Finished(outcome)
                    },
                    Conclusion::More(goal, stages) => {
                        assert(stage_views(stages@).len() > 0);
                        self.ask_first(goal, stages)
                    },
                }
            },
        }
    }

    /// The last request was answered with `reply`: what to do next. What is
    /// still to be written out of the cache stays so, and what changes in it
    /// is to be written out.
    pub fn resume(&mut self, reply: Reply) -> (r: Step)
        ensures
            (final(self)@, r@) == resumed(old(self)@, reply),
            !takes_cache(old(self)@, reply) && (old(self).has_unsaved() || final(self)@.cache
                != old(self)@.cache) ==> final(self).has_unsaved(),
            takes_cache(old(self)@, reply) && (is_unsaved(reply->Cache_0) || final(self)@.cache
                != cache_view(reply->Cache_0)) ==> final(self).has_unsaved(),
    {
        let mut task = Task::Free;
        std::mem::swap(&mut self.task, &mut task);
        match task {
            Task::Free => Step::Finished(Outcome::Unit(Err("unexpected reply".to_owned()))),
            Task::Leaving(outcome) => Step::Finished(outcome),
            Task::Working { goal, now, rest } => self.work(goal, now, rest, reply),
            Task::Threads { folder, stage } => match (self.threads.take(), reply) {
                (Some(mut raw), Reply::Line(bytes)) => {
                    let next = raw.step_threads(folder.as_str(), stage, &bytes);
                    self.go_on_threads(folder, raw, next)
                },
                (_, Reply::Failed(e)) => Step::Finished(Outcome::Threads(Err(e))),
                _ => Step::Finished(Outcome::Threads(Err("unexpected reply".to_owned()))),
            },
        }
    }

    /// Whether the cache has changed since it was last written out.
    pub closed spec fn has_unsaved(&self) -> bool {
        is_unsaved(self.cache)
    }

    /// What there is to write out of the cache, if it has changed since this
    /// was last asked.
    pub fn cache_to_save(&mut self) -> (r: Option<&Vec<(String, FolderCache)>>)
        ensures
            final(self)@ == old(self)@,
            !final(self).has_unsaved(),
            r is Some <==> old(self).has_unsaved(),
            r matches Some(saved) ==> old(self)@.cache == Some(cache::entries(saved@)),
    {
        match &mut self.cache {
            Some(c) => if c.take_unsaved() {
                Some(c.saved())
            } else {
                None
            },
            None => None,
        }
    }

    /// List all folders but mere containers.
    pub fn list_folders(&mut self) -> (r: Step)
        ensures
            (final(self)@, r@) == started(old(self)@, CallView::ListFolders),
            final(self).has_unsaved() == old(self).has_unsaved(),
    {
        self.start(Call::ListFolders)
    }

    /// List the `limit` latest messages of `folder`.
    pub fn list_messages(&mut self, folder: &str, limit: usize) -> (r: Step)
        ensures
            (final(self)@, r@) == started(
                old(self)@,
                CallView::ListMessages(folder@, limit as nat),
            ),
            final(self).has_unsaved() == old(self).has_unsaved(),
    {
        self.start(Call::ListMessages { folder: folder.to_owned(), limit })
    }

    /// Read the message `uid` of `folder`.
    pub fn fetch_message(&mut self, folder: &str, uid: u32) -> (r: Step)
        ensures
            (final(self)@, r@) == started(old(self)@, CallView::FetchMessage(folder@, uid)),
            final(self).has_unsaved() == old(self).has_unsaved(),
    {
        self.start(Call::FetchMessage { folder: folder.to_owned(), uid })
    }

    /// Find and read the message with the Message-ID `message_id` in `folder`.
    pub fn fetch_message_by_message_id(&mut self, folder: &str, message_id: &str) -> (r: Step)
        ensures
            (final(self)@, r@) == started(
                old(self)@,
                CallView::FetchMessageByMessageId(folder@, message_id@),
            ),
            final(self).has_unsaved() == old(self).has_unsaved(),
    {
        self.start(
            Call::FetchMessageByMessageId {
                folder: folder.to_owned(),
                message_id: message_id.to_owned(),
            },
        )
    }

    /// Add and remove flags of the message `uid` of `folder`, and keep the cache
    /// in step.
    pub fn set_flags(&mut self, folder: &str, uid: u32, add: &[&str], remove: &[&str]) -> (r: Step)
        ensures
            (final(self)@, r@) == started(
                old(self)@,
                CallView::SetFlags(
                    folder@,
                    uid,
                    text::str_views(add@),
                    text::str_views(remove@),
                ),
            ),
            final(self).has_unsaved() == old(self).has_unsaved(),
    {
        self.start(
            Call::SetFlags {
                folder: folder.to_owned(),
                uid,
                add: text::owned(add),
                remove: text::owned(remove),
            },
        )
    }

    /// Copy the message `uid` of `folder` to `dest`.
    pub fn copy_message(&mut self, folder: &str, uid: u32, dest: &str) -> (r: Step)
        ensures
            (final(self)@, r@) == started(old(self)@, CallView::CopyMessage(folder@, uid, dest@)),
            final(self).has_unsaved() == old(self).has_unsaved(),
    {
        self.start(Call::CopyMessage { folder: folder.to_owned(), uid, dest: dest.to_owned() })
    }

    /// Move the message `uid` of `folder` to `dest`: with MOVE, or by copying it
    /// and deleting it where the server cannot.
    pub fn move_message(&mut self, folder: &str, uid: u32, dest: &str) -> (r: Step)
        ensures
            (final(self)@, r@) == started(old(self)@, CallView::MoveMessage(folder@, uid, dest@)),
            final(self).has_unsaved() == old(self).has_unsaved(),
    {
        self.start(Call::MoveMessage { folder: folder.to_owned(), uid, dest: dest.to_owned() })
    }

    /// Delete the message `uid` of `folder` for good.
    pub fn expunge_uid(&mut self, folder: &str, uid: u32) -> (r: Step)
        ensures
            (final(self)@, r@) == started(old(self)@, CallView::ExpungeUid(folder@, uid)),
            final(self).has_unsaved() == old(self).has_unsaved(),
    {
        self.start(Call::ExpungeUid { folder: folder.to_owned(), uid })
    }

    /// Put `message` into `folder`.
    pub fn append(&mut self, folder: &str, message: &[u8]) -> (r: Step)
        ensures
            (final(self)@, r@) == started(old(self)@, CallView::Append(folder@, message@)),
            final(self).has_unsaved() == old(self).has_unsaved(),
    {
        self.start(Call::Append { folder: folder.to_owned(), message: codec::copy_bytes(message) })
    }

    /// Fetch the threads of `folder`, over a connection of their own.
    pub fn fetch_threads(&mut self, folder: &str) -> (r: Step)
        ensures
            (final(self)@, r@) == started(old(self)@, CallView::FetchThreads(folder@)),
            final(self).has_unsaved() == old(self).has_unsaved(),
    {
        self.start(Call::FetchThreads { folder: folder.to_owned() })
    }
}

// ---------------------------------------------------------------------------
// Laws
// ---------------------------------------------------------------------------

/// All that is asked for from `step` on, where the answers are `replies`.
pub open spec fn asked(step: (ImapView, StepView), replies: Seq<Reply>) -> Seq<RequestView>
    decreases replies.len(),
{
    match step.1 {
        StepView::Ask(request) => if replies.len() == 0 {
            seq![request]
        } else {
            seq![request] + asked(resumed(step.0, replies[0]), replies.skip(1))
        },
        StepView::Finished(_) => seq![],
    }
}

/// A message that is moved is marked deleted only right after it was copied,
/// and expunged only right after it was marked, so one that could not be
/// copied is never lost.
pub proof fn law_a_moved_message_is_never_lost(
    v: ImapView,
    folder: Seq<char>,
    uid: u32,
    dest: Seq<char>,
    replies: Seq<Reply>,
    i: int,
)
    requires
        0 <= i < asked(started(v, CallView::MoveMessage(folder, uid, dest)), replies).len(),
    ensures
        ({
            let all = asked(started(v, CallView::MoveMessage(folder, uid, dest)), replies);
            let number = text::decimal(uid as nat);
            &&& all[i] is UidStore ==> {
                &&& 0 < i <= replies.len()
                &&& all[i - 1] == RequestView::UidCopy(number, dest)
                &&& !(replies[i - 1] is Failed)
            }
            &&& all[i] is UidExpunge ==> {
                &&& 0 < i <= replies.len()
                &&& all[i - 1] == RequestView::UidStore(number, "+FLAGS (\\Deleted)"@)
                &&& !(replies[i - 1] is Failed)
            }
        }),
{
    let call = CallView::MoveMessage(folder, uid, dest);
    let stages = call_stages(v, call);
    let session = session_stages(call);
    if v.connected {
        assert(stages == session.skip(0));
    } else {
        assert(stages == seq![StageView::Must(RequestView::Connect)] + session);
    }
    lemma_suffix_asked(
        ImapView { task: TaskView::Working(GoalView::Nothing, stages[0], stages.skip(1)), ..v },
        folder,
        uid,
        dest,
        stages,
        replies,
        i,
    );
}

proof fn lemma_asked_len(step: (ImapView, StepView), replies: Seq<Reply>)
    ensures
        asked(step, replies).len() <= replies.len() + 1,
    decreases replies.len(),
{
    if replies.len() > 0 {
        lemma_asked_len(resumed(step.0, replies[0]), replies.skip(1));
    }
}

/// Whether `stages` is what can be left of a move.
spec fn left_of_move(stages: Seq<StageView>, folder: Seq<char>, uid: u32, dest: Seq<char>) -> bool {
    let session = session_stages(CallView::MoveMessage(folder, uid, dest));
    ||| stages == seq![StageView::Must(RequestView::Connect)] + session
    ||| exists|k: int| 0 <= k < 5 && stages == #[trigger] session.skip(k)
}

proof fn lemma_suffix_asked(
    v: ImapView,
    folder: Seq<char>,
    uid: u32,
    dest: Seq<char>,
    stages: Seq<StageView>,
    replies: Seq<Reply>,
    i: int,
)
    requires
        left_of_move(stages, folder, uid, dest),
        v.task == TaskView::Working(GoalView::Nothing, stages[0], stages.skip(1)),
        0 <= i < asked((v, StepView::Ask(stage_request(stages[0]))), replies).len(),
    ensures
        ({
            let all = asked((v, StepView::Ask(stage_request(stages[0]))), replies);
            let number = text::decimal(uid as nat);
            &&& all[0] == stage_request(stages[0])
            &&& i > 0 && all[i] is UidStore ==> {
                &&& 0 < i <= replies.len()
                &&& all[i - 1] == RequestView::UidCopy(number, dest)
                &&& !(replies[i - 1] is Failed)
            }
            &&& i > 0 && all[i] is UidExpunge ==> {
                &&& 0 < i <= replies.len()
                &&& all[i - 1] == RequestView::UidStore(number, "+FLAGS (\\Deleted)"@)
                &&& !(replies[i - 1] is Failed)
            }
        }),
    decreases replies.len(),
{
    let session = session_stages(CallView::MoveMessage(folder, uid, dest));
    let all = asked((v, StepView::Ask(stage_request(stages[0]))), replies);
    lemma_asked_len((v, StepView::Ask(stage_request(stages[0]))), replies);
    if i > 0 {
        let reply = replies[0];
        let rest = stages.skip(1);
        let next = resumed(v, reply);
        let later = asked(next, replies.skip(1));
        assert(all == seq![stage_request(stages[0])] + later);
        assert(all[i] == later[i - 1]);
        if let TaskView::Working(goal, now, left) = next.0.task {
            // The call goes on with the stage after this one.
            assert(rest.len() > 0);
            assert(seq![now] + left == rest);
            assert(rest[0] == now);
            assert(rest.skip(1) == left);
            if stages == seq![StageView::Must(RequestView::Connect)] + session {
                assert(rest == session.skip(0));
            } else {
                let k = choose|k: int| 0 <= k < 5 && stages == #[trigger] session.skip(k);
                assert(rest == session.skip(k + 1));
            }
            assert(left_of_move(rest, folder, uid, dest));
            lemma_suffix_asked(next.0, folder, uid, dest, rest, replies.skip(1), i - 1);
            if i > 1 {
                assert(all[i - 1] == later[i - 2]);
                assert(replies[i - 1] == replies.skip(1)[i - 2]);
            }
        } else {
            // The call has ended, or the session is being ended.
            if i > 1 {
                assert(later[i - 1] == asked(
                    resumed(next.0, replies.skip(1)[0]),
                    replies.skip(1).skip(1),
                )[i - 2]);
            }
        }
    }
}

/// Whether `v` has just failed: it has no session, and the next call opens
/// one.
pub open spec fn reconnects(v: ImapView) -> bool {
    &&& !v.connected
    &&& forall|call: CallView|
        !(call is FetchThreads) ==> (#[trigger] call_stages(v, call)).contains(
            StageView::Must(RequestView::Connect),
        )
}

/// Where a request fails that must succeed, the session is given up and the
/// next call reconnects: the failure is the outcome, and it comes at once or
/// after the session has been ended, whatever the server says to that.
pub proof fn law_a_failure_ends_the_session(
    v: ImapView,
    goal: GoalView,
    request: RequestView,
    rest: Seq<StageView>,
    e: String,
    answer: Reply,
)
    requires
        v.task == TaskView::Working(goal, StageView::Must(request), rest),
    ensures
        ({
            let (after, step) = resumed(v, Reply::Failed(e));
            &&& reconnects(after)
            &&& !v.connected ==> step == StepView::Finished(failure(goal, e@))
            &&& v.connected ==> {
                &&& step == StepView::Ask(RequestView::Logout)
                &&& reconnects(resumed(after, answer).0)
                &&& resumed(after, answer).1 == StepView::Finished(failure(goal, e@))
            }
        }),
{
    let after = resumed(v, Reply::Failed(e)).0;
    lemma_reconnects(after);
    lemma_reconnects(resumed(after, answer).0);
}

proof fn lemma_reconnects(v: ImapView)
    requires
        !v.connected,
    ensures
        reconnects(v),
{
    assert forall|call: CallView| !(call is FetchThreads) implies (#[trigger] call_stages(
        v,
        call,
    )).contains(StageView::Must(RequestView::Connect)) by {
        let connect = StageView::Must(RequestView::Connect);
        let stages = call_stages(v, call);
        if call is ListMessages && cache_is_wanted(v) {
            assert(stages[1] == connect);
        } else {
            assert(stages[0] == connect);
        }
    }
}

proof fn lemma_distinct_upserted(headers: Seq<HeaderView>)
    requires
        forall|i: int, j: int|
            0 <= i < j < headers.len() ==> (#[trigger] headers[i]).uid != (
            #[trigger] headers[j]).uid,
    ensures
        cache::upserted(Map::empty(), headers).dom().finite(),
        cache::upserted(Map::empty(), headers).dom().len() == headers.len(),
        forall|uid: u32| #[trigger]
            cache::upserted(Map::empty(), headers).contains_key(uid) ==> exists|i: int|
                0 <= i < headers.len() && (#[trigger] headers[i]).uid == uid,
    decreases headers.len(),
{
    let all = cache::upserted(Map::empty(), headers);
    if headers.len() > 0 {
        let before = headers.drop_last();
        assert forall|i: int, j: int| 0 <= i < j < before.len() implies (#[trigger] before[i]).uid
            != (#[trigger] before[j]).uid by {
            assert(before[i] == headers[i]);
            assert(before[j] == headers[j]);
        }
        lemma_distinct_upserted(before);
        let m = cache::upserted(Map::empty(), before);
        let last = headers[headers.len() - 1];
        assert(!m.contains_key(last.uid)) by {
            if m.contains_key(last.uid) {
                let i = choose|i: int| 0 <= i < before.len() && (#[trigger] before[i]).uid == last.uid;
                assert(headers[i].uid == last.uid);
            }
        }
        assert(all == m.insert(last.uid, last));
        assert forall|uid: u32| #[trigger] all.contains_key(uid) implies exists|i: int|
            0 <= i < headers.len() && (#[trigger] headers[i]).uid == uid by {
            if uid == last.uid {
                assert(headers[headers.len() - 1].uid == uid);
            } else {
                assert(m.contains_key(uid));
                let i = choose|i: int| 0 <= i < before.len() && (#[trigger] before[i]).uid == uid;
                assert(headers[i].uid == uid);
            }
        }
    }
}

/// A folder that was fetched whole is served from the cache the next time, as
/// long as the server reports the same UIDVALIDITY and no more messages than
/// were fetched: once it is selected, nothing more is asked for.
pub proof fn law_an_unchanged_folder_is_not_fetched_again(
    m: Map<Seq<char>, FolderView>,
    folder: Seq<char>,
    validity: u32,
    headers: Seq<HeaderView>,
    limit: nat,
    total: u32,
)
    requires
        0 < total <= headers.len(),
        forall|i: int, j: int|
            0 <= i < j < headers.len() ==> (#[trigger] headers[i]).uid != (
            #[trigger] headers[j]).uid,
    ensures
        ({
            let c = filled(flushed(Some(m), folder, validity), folder, headers);
            on_selected(c, folder, limit, total, Some(validity)) == (
                c,
                Next::Done(
                    OutcomeView::Messages(
                        Ok(cache::latest(cache::upserted(Map::empty(), headers), limit)),
                    ),
                ),
            )
        }),
{
    lemma_distinct_upserted(headers);
}

/// A folder whose UIDVALIDITY has changed is flushed and fetched anew.
pub proof fn law_a_changed_uidvalidity_flushes_the_folder(
    m: Map<Seq<char>, FolderView>,
    folder: Seq<char>,
    validity: u32,
    limit: nat,
    total: u32,
)
    requires
        total > 0,
        !m.contains_key(folder) || m[folder].uidvalidity != validity,
    ensures
        on_selected(Some(m), folder, limit, total, Some(validity)) == (
            Some(m.insert(folder, cache::empty_folder(validity))),
            Next::More(
                GoalView::AllMessages(folder),
                seq![
                    StageView::Must(
                        RequestView::Fetch(range_of_last(limit, total as nat), listing_items()),
                    ),
                ],
            ),
        ),
{
}

/// Fetching threads leaves the session and the cache alone: it asks only for
/// what its own connection does.
pub proof fn law_threads_do_not_disturb_the_session(
    v: ImapView,
    folder: Seq<char>,
    stage: ThreadStage,
    reply: Reply,
)
    ensures
        ({
            let (after, step) = started(v, CallView::FetchThreads(folder));
            &&& after.connected == v.connected
            &&& after.cache == v.cache
            &&& step matches StepView::Ask(r) ==> r is OpenThreads || r is SendThreads
        }),
        v.task == TaskView::Threads(folder, stage) ==> {
            let (after, step) = resumed(v, reply);
            &&& after.connected == v.connected
            &&& after.cache == v.cache
            &&& step matches StepView::Ask(r) ==> r is SendThreads || r is ReadThreads
        },
{
}

/// Where fetching threads fails, its connection is given up, and the next time
/// another is opened.
pub proof fn law_a_failed_thread_fetch_reconnects(
    v: ImapView,
    folder: Seq<char>,
    stage: ThreadStage,
    reply: Reply,
    next: Seq<char>,
)
    requires
        v.task == TaskView::Threads(folder, stage),
        resumed(v, reply).1 matches StepView::Finished(OutcomeView::Threads(result)) && result is Err,
    ensures
        resumed(v, reply).0.threads is None,
        started(resumed(v, reply).0, CallView::FetchThreads(next)).1 == StepView::Ask(
            RequestView::OpenThreads,
        ),
{
}

/// The cache is opened once, and only for a call that reads or changes it: a
/// backend that never lists a folder never opens it.
pub proof fn law_the_cache_is_opened_when_first_wanted(
    v: ImapView,
    call: CallView,
    reply: Reply,
    i: int,
)
    ensures
        0 <= i < call_stages(v, call).len() && stage_request(call_stages(v, call)[i]) is OpenCache
            ==> !v.cache_opened && (call is ListMessages || call is SetFlags),
        v.cache_opened ==> resumed(v, reply).0.cache_opened && started(v, call).0.cache_opened,
        (v.task matches TaskView::Working(_, now, _) && stage_request(now) is OpenCache && reply is Cache)
            ==> resumed(v, reply).0.cache_opened,
{
    let stages = call_stages(v, call);
    if 0 <= i < stages.len() && stage_request(stages[i]) is OpenCache {
        let cached = cache_stages(v);
        let session = session_stages(call);
        let connect = connect_stages(v);
        if call is ListMessages {
            if i >= cached.len() {
                if i < cached.len() + connect.len() {
                    assert(stages[i] == connect[i - cached.len()]);
                } else {
                    assert(stages[i] == session[i - cached.len() - connect.len()]);
                }
            }
        } else if !(call is SetFlags) {
            if i < connect.len() {
                assert(stages[i] == connect[i]);
            } else {
                assert(stages[i] == session[i - connect.len()]);
            }
        } else if i < connect.len() {
            assert(stages[i] == connect[i]);
        } else if i < connect.len() + session.len() {
            assert(stages[i] == session[i - connect.len()]);
        }
    }
}

/// A backend keeps the settings it was made with, and so the plan by which it
/// connects: no call and no reply changes them.
pub proof fn law_a_backend_keeps_its_settings(v: ImapView, call: CallView, reply: Reply)
    ensures
        started(v, call).0.config == v.config,
        resumed(v, reply).0.config == v.config,
{
}

/// How what starts with `step` ends, where the answers are `replies`; nothing
/// where they do not bring it to an end.
pub open spec fn outcome_of(step: (ImapView, StepView), replies: Seq<Reply>) -> Option<OutcomeView>
    decreases replies.len(),
{
    match step.1 {
        StepView::Finished(outcome) => Some(outcome),
        StepView::Ask(_) => if replies.len() == 0 {
            None
        } else {
            outcome_of(resumed(step.0, replies[0]), replies.skip(1))
        },
    }
}

/// Whether `outcome` is that of a call that succeeded.
pub open spec fn is_success(outcome: OutcomeView) -> bool {
    match outcome {
        OutcomeView::Folders(r) => r is Ok,
        OutcomeView::Messages(r) => r is Ok,
        OutcomeView::Message(r) => r is Ok,
        OutcomeView::Unit(r) => r is Ok,
        OutcomeView::Threads(r) => r is Ok,
    }
}

/// A call that succeeds has had a good answer to its present stage.
proof fn lemma_goes_on(v: ImapView, goal: GoalView, stages: Seq<StageView>, replies: Seq<Reply>)
    requires
        stages.len() > 0,
        stages[0] is Must,
        v.task == TaskView::Working(goal, stages[0], stages.skip(1)),
        outcome_of((v, StepView::Ask(stage_request(stages[0]))), replies) matches Some(o) && is_success(
            o,
        ),
    ensures
        ({
            let here = (v, StepView::Ask(stage_request(stages[0])));
            let next = resumed(v, replies[0]);
            &&& replies.len() > 0
            &&& !(replies[0] is Failed)
            &&& asked(here, replies) == seq![stage_request(stages[0])] + asked(
                next,
                replies.skip(1),
            )
            &&& outcome_of(here, replies) == outcome_of(next, replies.skip(1))
            &&& stages.len() > 1 ==> {
                &&& next.1 == StepView::Ask(stage_request(stages[1]))
                &&& next.0.task == TaskView::Working(goal, stages[1], stages.skip(2))
            }
        }),
{
    let rest = stages.skip(1);
    if replies.len() > 0 {
        if let Reply::Failed(e) = replies[0] {
            let next = resumed(v, replies[0]);
            assert(!is_success(failure(goal, e@)));
            if replies.skip(1).len() > 0 {
                let last = resumed(next.0, replies.skip(1)[0]);
                reveal_with_fuel(outcome_of, 3);
            } else {
                reveal_with_fuel(outcome_of, 3);
            }
            assert(false);
        }
        if stages.len() > 1 {
            assert(rest[0] == stages[1]);
            assert(rest.skip(1) == stages.skip(2));
        }
    }
}

/// A call whose stages must all succeed, and that then ends well whatever was
/// answered last, has asked for all of them and for nothing else.
proof fn lemma_all_asked(v: ImapView, goal: GoalView, stages: Seq<StageView>, replies: Seq<Reply>)
    requires
        stages.len() > 0,
        forall|i: int| 0 <= i < stages.len() ==> (#[trigger] stages[i]) is Must,
        goal is Flags || goal is Nothing,
        v.task == TaskView::Working(goal, stages[0], stages.skip(1)),
        outcome_of((v, StepView::Ask(stage_request(stages[0]))), replies) matches Some(o) && is_success(
            o,
        ),
    ensures
        asked((v, StepView::Ask(stage_request(stages[0]))), replies) == Seq::new(
            stages.len(),
            |i: int| stage_request(stages[i]),
        ),
        replies.len() >= stages.len(),
        forall|i: int| 0 <= i < stages.len() ==> !((#[trigger] replies[i]) is Failed),
    decreases stages.len(),
{
    lemma_goes_on(v, goal, stages, replies);
    let next = resumed(v, replies[0]);
    let rest = stages.skip(1);
    let later = replies.skip(1);
    let here = (v, StepView::Ask(stage_request(stages[0])));
    if stages.len() == 1 {
        assert(next.1 is Finished);
        assert(asked(next, later) == Seq::<RequestView>::empty());
    } else {
        assert(rest[0] == stages[1]);
        assert(rest.skip(1) == stages.skip(2));
        assert forall|i: int| 0 <= i < rest.len() implies (#[trigger] rest[i]) is Must by {
            assert(rest[i] == stages[i + 1]);
        }
        lemma_all_asked(next.0, goal, rest, later);
        assert forall|i: int| 0 <= i < stages.len() implies !((
        #[trigger] replies[i]) is Failed) by {
            if i > 0 {
                assert(replies[i] == later[i - 1]);
            }
        }
    }
    assert(asked(here, replies) == Seq::new(stages.len(), |i: int| stage_request(stages[i])));
}

/// A change of flags that ends well has had the server store it: after the
/// folder was selected, all the flags to add were added to the message, where
/// there are any, and all the flags to remove were removed from it, where
/// there are any, each whether or not there are others. Nothing else was
/// stored, and nothing was moved, copied or deleted.
pub proof fn law_changed_flags_are_stored(
    v: ImapView,
    folder: Seq<char>,
    uid: u32,
    add: Seq<Seq<char>>,
    remove: Seq<Seq<char>>,
    replies: Seq<Reply>,
)
    requires
        outcome_of(started(v, CallView::SetFlags(folder, uid, add, remove)), replies) == Some(
            OutcomeView::Unit(Ok(())),
        ),
    ensures
        ({
            let all = asked(started(v, CallView::SetFlags(folder, uid, add, remove)), replies);
            let number = text::decimal(uid as nat);
            let adding = RequestView::UidStore(
                number,
                "+FLAGS ("@ + text::joined(add, " "@) + ")"@,
            );
            let removing = RequestView::UidStore(
                number,
                "-FLAGS ("@ + text::joined(remove, " "@) + ")"@,
            );
            &&& all.len() <= replies.len()
            &&& forall|i: int| 0 <= i < all.len() ==> !((#[trigger] replies[i]) is Failed)
            &&& exists|at: int|
                {
                    &&& 0 <= at < all.len()
                    &&& #[trigger] all[at] == RequestView::Select(folder)
                    &&& add.len() > 0 ==> all.skip(at).contains(adding)
                    &&& remove.len() > 0 ==> all.skip(at).contains(removing)
                }
            &&& forall|i: int|
                0 <= i < all.len() && (#[trigger] all[i]) is UidStore ==> (add.len() > 0 && all[i]
                    == adding) || (remove.len() > 0 && all[i] == removing)
            &&& forall|i: int|
                0 <= i < all.len() ==> !((#[trigger] all[i]) is UidMove || all[i] is UidCopy
                    || all[i] is UidExpunge || all[i] is Append)
        }),
{
    let call = CallView::SetFlags(folder, uid, add, remove);
    let stages = call_stages(v, call);
    let number = text::decimal(uid as nat);
    let adding = RequestView::UidStore(number, "+FLAGS ("@ + text::joined(add, " "@) + ")"@);
    let removing = RequestView::UidStore(number, "-FLAGS ("@ + text::joined(remove, " "@) + ")"@);
    let after = started(v, call).0;
    assert forall|i: int| 0 <= i < stages.len() implies (#[trigger] stages[i]) is Must by {}
    lemma_all_asked(after, goal_of(call), stages, replies);
    let all = asked(started(v, call), replies);
    let at: int = if v.connected {
        0
    } else {
        1
    };
    assert(stages[at] == StageView::Must(RequestView::Select(folder)));
    assert(all[at] == RequestView::Select(folder));
    let later = all.skip(at);
    if add.len() > 0 {
        assert(stages[at + 1] == StageView::Must(adding));
        assert(later[1] == adding);
    }
    if remove.len() > 0 {
        let k: int = if add.len() > 0 {
            2
        } else {
            1
        };
        assert(stages[at + k] == StageView::Must(removing));
        assert(later[k] == removing);
    }
    assert forall|i: int| 0 <= i < all.len() implies ((#[trigger] all[i]) is UidStore ==> (add.len()
        > 0 && all[i] == adding) || (remove.len() > 0 && all[i] == removing)) && !(all[i] is UidMove
        || all[i] is UidCopy || all[i] is UidExpunge || all[i] is Append) by {
        assert(all[i] == stage_request(stages[i]));
    }
}

/// What a call that copies, deletes or saves a message asks of the server,
/// where it ends well: the folder is selected, and the message of that UID and
/// no other is copied to the folder that was named, or deleted for good; or the
/// message is put into the folder that was named, as it is. Nothing more is
/// asked for.
pub proof fn law_copies_deletions_and_saves_are_done(
    v: ImapView,
    folder: Seq<char>,
    uid: u32,
    dest: Seq<char>,
    message: Seq<u8>,
    replies: Seq<Reply>,
)
    ensures
        ({
            let number = text::decimal(uid as nat);
            let connect = if v.connected {
                Seq::<RequestView>::empty()
            } else {
                seq![RequestView::Connect]
            };
            let copying = started(v, CallView::CopyMessage(folder, uid, dest));
            let deleting = started(v, CallView::ExpungeUid(folder, uid));
            let saving = started(v, CallView::Append(folder, message));
            let done = Some(OutcomeView::Unit(Ok(())));
            &&& outcome_of(copying, replies) == done ==> asked(copying, replies) == connect + seq![
                RequestView::Select(folder),
                RequestView::UidCopy(number, dest),
            ]
            &&& outcome_of(deleting, replies) == done ==> asked(deleting, replies) == connect + seq![
                RequestView::Select(folder),
                RequestView::UidExpunge(number),
            ]
            &&& outcome_of(saving, replies) == done ==> asked(saving, replies) == connect + seq![
                RequestView::Append(folder, message),
            ]
        }),
{
    lemma_unit_call_asked(v, CallView::CopyMessage(folder, uid, dest), replies);
    lemma_unit_call_asked(v, CallView::ExpungeUid(folder, uid), replies);
    lemma_unit_call_asked(v, CallView::Append(folder, message), replies);
    let number = text::decimal(uid as nat);
    let connect = if v.connected {
        Seq::<RequestView>::empty()
    } else {
        seq![RequestView::Connect]
    };
    let copying = call_stages(v, CallView::CopyMessage(folder, uid, dest));
    let deleting = call_stages(v, CallView::ExpungeUid(folder, uid));
    let saving = call_stages(v, CallView::Append(folder, message));
    assert(Seq::new(copying.len(), |i: int| stage_request(copying[i])) == connect + seq![
        RequestView::Select(folder),
        RequestView::UidCopy(number, dest),
    ]);
    assert(Seq::new(deleting.len(), |i: int| stage_request(deleting[i])) == connect + seq![
        RequestView::Select(folder),
        RequestView::UidExpunge(number),
    ]);
    assert(Seq::new(saving.len(), |i: int| stage_request(saving[i])) == connect + seq![
        RequestView::Append(folder, message),
    ]);
}

proof fn lemma_unit_call_asked(v: ImapView, call: CallView, replies: Seq<Reply>)
    requires
        call is CopyMessage || call is ExpungeUid || call is Append,
    ensures
        outcome_of(started(v, call), replies) == Some(OutcomeView::Unit(Ok(()))) ==> asked(
            started(v, call),
            replies,
        ) == Seq::new(call_stages(v, call).len(), |i: int| stage_request(call_stages(v, call)[i])),
{
    let stages = call_stages(v, call);
    assert forall|i: int| 0 <= i < stages.len() implies (#[trigger] stages[i]) is Must by {}
    if outcome_of(started(v, call), replies) == Some(OutcomeView::Unit(Ok(()))) {
        lemma_all_asked(started(v, call).0, GoalView::Nothing, stages, replies);
    }
}

/// A move that ends well has moved the message: after the folder was selected
/// the server took the MOVE; or it refused it, and the message was copied,
/// then marked deleted, then expunged, each of which it took. It is the
/// message of that UID throughout, and it goes to the folder that was named.
pub proof fn law_a_move_that_ends_well_has_moved(
    v: ImapView,
    folder: Seq<char>,
    uid: u32,
    dest: Seq<char>,
    replies: Seq<Reply>,
)
    requires
        outcome_of(started(v, CallView::MoveMessage(folder, uid, dest)), replies) == Some(
            OutcomeView::Unit(Ok(())),
        ),
    ensures
        ({
            let all = asked(started(v, CallView::MoveMessage(folder, uid, dest)), replies);
            let number = text::decimal(uid as nat);
            let at: int = if v.connected {
                0
            } else {
                1
            };
            let selected = (if v.connected {
                Seq::<RequestView>::empty()
            } else {
                seq![RequestView::Connect]
            }) + seq![RequestView::Select(folder), RequestView::UidMove(number, dest)];
            &&& at + 1 < replies.len()
            &&& !(replies[at] is Failed)
            &&& !(replies[at + 1] is Failed) ==> all == selected
            &&& replies[at + 1] is Failed ==> {
                &&& all == selected + seq![
                    RequestView::UidCopy(number, dest),
                    RequestView::UidStore(number, "+FLAGS (\\Deleted)"@),
                    RequestView::UidExpunge(number),
                ]
                &&& at + 4 < replies.len()
                &&& !(replies[at + 2] is Failed)
                &&& !(replies[at + 3] is Failed)
                &&& !(replies[at + 4] is Failed)
            }
        }),
{
    let call = CallView::MoveMessage(folder, uid, dest);
    let session = session_stages(call);
    let stages = call_stages(v, call);
    let begun = started(v, call).0;
    if v.connected {
        assert(stages == session);
        lemma_session_move(begun, folder, uid, dest, replies);
    } else {
        assert(stages == seq![StageView::Must(RequestView::Connect)] + session);
        lemma_goes_on(begun, GoalView::Nothing, stages, replies);
        assert(stages[1] == session[0]);
        assert(stages.skip(2) == session.skip(1));
        lemma_session_move(resumed(begun, replies[0]).0, folder, uid, dest, replies.skip(1));
    }
}

proof fn lemma_session_move(
    v: ImapView,
    folder: Seq<char>,
    uid: u32,
    dest: Seq<char>,
    replies: Seq<Reply>,
)
    requires
        ({
            let session = session_stages(CallView::MoveMessage(folder, uid, dest));
            &&& v.task == TaskView::Working(GoalView::Nothing, session[0], session.skip(1))
            &&& outcome_of((v, StepView::Ask(RequestView::Select(folder))), replies) == Some(
                OutcomeView::Unit(Ok(())),
            )
        }),
    ensures
        ({
            let all = asked((v, StepView::Ask(RequestView::Select(folder))), replies);
            let number = text::decimal(uid as nat);
            let selected = seq![
                RequestView::Select(folder),
                RequestView::UidMove(number, dest),
            ];
            &&& 1 < replies.len()
            &&& !(replies[0] is Failed)
            &&& !(replies[1] is Failed) ==> all == selected
            &&& replies[1] is Failed ==> {
                &&& all == selected + seq![
                    RequestView::UidCopy(number, dest),
                    RequestView::UidStore(number, "+FLAGS (\\Deleted)"@),
                    RequestView::UidExpunge(number),
                ]
                &&& 4 < replies.len()
                &&& !(replies[2] is Failed)
                &&& !(replies[3] is Failed)
                &&& !(replies[4] is Failed)
            }
        }),
{
    let call = CallView::MoveMessage(folder, uid, dest);
    let session = session_stages(call);
    let number = text::decimal(uid as nat);
    lemma_goes_on(v, GoalView::Nothing, session, replies);
    let moving = resumed(v, replies[0]);
    let later = replies.skip(1);
    let left = session.skip(2);
    assert(later.len() > 0);
    assert(later[0] == replies[1]);
    let next = resumed(moving.0, later[0]);
    if later[0] is Failed {
        let copying = left;
        assert(next.0.task == TaskView::Working(GoalView::Nothing, copying[0], copying.skip(1)));
        assert(next.1 == StepView::Ask(stage_request(copying[0])));
        assert forall|i: int| 0 <= i < copying.len() implies (#[trigger] copying[i]) is Must by {}
        let last = later.skip(1);
        lemma_all_asked(next.0, GoalView::Nothing, copying, last);
        assert(last[0] == replies[2] && last[1] == replies[3] && last[2] == replies[4]);
        assert(Seq::new(copying.len(), |i: int| stage_request(copying[i])) == seq![
            RequestView::UidCopy(number, dest),
            RequestView::UidStore(number, "+FLAGS (\\Deleted)"@),
            RequestView::UidExpunge(number),
        ]);
    } else {
        assert(next.1 is Finished);
        assert(asked(next, later.skip(1)) == Seq::<RequestView>::empty());
    }
}

/// A message that is read is the one that was asked for: its folder is
/// selected, its body is fetched by its UID, and what is read is the body of
/// the first fetch result with that UID, under that UID. Where there is none
/// with that UID, or the first has no body, there is no such message.
pub proof fn law_the_message_asked_for_is_read(
    v: ImapView,
    folder: Seq<char>,
    uid: u32,
    replies: Seq<Reply>,
    found: Option<MessageView>,
    i: int,
)
    requires
        outcome_of(started(v, CallView::FetchMessage(folder, uid)), replies) == Some(
            OutcomeView::Message(Ok(found)),
        ),
    ensures
        ({
            let all = asked(started(v, CallView::FetchMessage(folder, uid)), replies);
            &&& all == (if v.connected {
                Seq::<RequestView>::empty()
            } else {
                seq![RequestView::Connect]
            }) + seq![
                RequestView::Select(folder),
                RequestView::UidFetch(text::decimal(uid as nat), "BODY[]"@),
            ]
            &&& all.len() <= replies.len()
            &&& replies[all.len() - 1] matches Reply::Fetched(fetched)
            &&& (0 <= i < fetched@.len() && fetched@[i].uid == Some(uid) && (forall|j: int|
                0 <= j < i ==> (#[trigger] fetched@[j]).uid != Some(uid))) ==> match fetched@[i].body {
                Some(bytes) => found == Some(
                    mime::message_of(uid, codec::lossy_text(bytes@)),
                ),
                None => found is None,
            }
            &&& (forall|j: int|
                0 <= j < fetched@.len() ==> (#[trigger] fetched@[j]).uid != Some(uid))
                ==> found is None
        }),
{
    let call = CallView::FetchMessage(folder, uid);
    let session = session_stages(call);
    let stages = call_stages(v, call);
    let begun = started(v, call).0;
    if v.connected {
        assert(stages == session);
        lemma_session_fetch(begun, folder, uid, replies, found, i);
    } else {
        assert(stages == seq![StageView::Must(RequestView::Connect)] + session);
        lemma_goes_on(begun, GoalView::Message(uid), stages, replies);
        assert(stages[1] == session[0]);
        assert(stages.skip(2) == session.skip(1));
        lemma_session_fetch(resumed(begun, replies[0]).0, folder, uid, replies.skip(1), found, i);
    }
}

proof fn lemma_session_fetch(
    v: ImapView,
    folder: Seq<char>,
    uid: u32,
    replies: Seq<Reply>,
    found: Option<MessageView>,
    i: int,
)
    requires
        v.task == TaskView::Working(
            GoalView::Message(uid),
            fetch_stages(folder, uid)[0],
            fetch_stages(folder, uid).skip(1),
        ),
        outcome_of((v, StepView::Ask(stage_request(fetch_stages(folder, uid)[0]))), replies) == Some(
            OutcomeView::Message(Ok(found)),
        ),
    ensures
        asked((v, StepView::Ask(stage_request(fetch_stages(folder, uid)[0]))), replies) == seq![
            RequestView::Select(folder),
            RequestView::UidFetch(text::decimal(uid as nat), "BODY[]"@),
        ],
        replies.len() >= 2,
        ({
            &&& replies[1] matches Reply::Fetched(fetched)
            &&& (0 <= i < fetched@.len() && fetched@[i].uid == Some(uid) && (forall|j: int|
                0 <= j < i ==> (#[trigger] fetched@[j]).uid != Some(uid))) ==> match fetched@[i].body {
                Some(bytes) => found == Some(
                    mime::message_of(uid, codec::lossy_text(bytes@)),
                ),
                None => found is None,
            }
            &&& (forall|j: int|
                0 <= j < fetched@.len() ==> (#[trigger] fetched@[j]).uid != Some(uid))
                ==> found is None
        }),
{
    let stages = fetch_stages(folder, uid);
    lemma_goes_on(v, GoalView::Message(uid), stages, replies);
    let fetching = resumed(v, replies[0]);
    let later = replies.skip(1);
    let left = stages.skip(1);
    assert(left.skip(1) == stages.skip(2));
    assert(left[0] == stages[1]);
    lemma_goes_on(fetching.0, GoalView::Message(uid), left, later);
    let next = resumed(fetching.0, later[0]);
    assert(next.1 is Finished);
    assert(asked(next, later.skip(1)) == Seq::<RequestView>::empty());
    if let Reply::Fetched(fetched) = replies[1] {
        lemma_body_found(fetched@, uid, i);
    }
}

proof fn lemma_body_found(fetched: Seq<Fetch>, uid: u32, i: int)
    ensures
        (0 <= i < fetched.len() && fetched[i].uid == Some(uid) && (forall|j: int|
            0 <= j < i ==> (#[trigger] fetched[j]).uid != Some(uid))) ==> body_of(fetched, uid) == (
        match fetched[i].body {
            Some(bytes) => Some(bytes@),
            None => None,
        }),
        (forall|j: int| 0 <= j < fetched.len() ==> (#[trigger] fetched[j]).uid != Some(uid))
            ==> body_of(fetched, uid) is None,
    decreases fetched.len(),
{
    if fetched.len() > 0 {
        let rest = fetched.drop_first();
        lemma_body_found(rest, uid, i - 1);
        assert forall|j: int| 0 <= j < rest.len() implies #[trigger] rest[j] == fetched[j + 1] by {}
        if 0 < i < fetched.len() && (forall|j: int|
            0 <= j < i ==> (#[trigger] fetched[j]).uid != Some(uid)) {
            assert(fetched[0].uid != Some(uid));
            assert(rest[i - 1] == fetched[i]);
        }
        if forall|j: int| 0 <= j < fetched.len() ==> (#[trigger] fetched[j]).uid != Some(uid) {
            assert(fetched[0].uid != Some(uid));
        }
    }
}

proof fn lemma_no_failure(v: ImapView, goal: GoalView, stages: Seq<StageView>, replies: Seq<Reply>)
    requires
        stages.len() > 0,
        goal is Flags || goal is Nothing,
        v.task == TaskView::Working(goal, stages[0], stages.skip(1)),
        replies.len() >= stages.len(),
        forall|i: int| 0 <= i < replies.len() ==> !((#[trigger] replies[i]) is Failed),
    ensures
        outcome_of((v, StepView::Ask(stage_request(stages[0]))), replies) == Some(
            OutcomeView::Unit(Ok(())),
        ),
    decreases stages.len(),
{
    let next = resumed(v, replies[0]);
    let rest = stages.skip(1);
    let later = replies.skip(1);
    assert(!(replies[0] is Failed));
    if stages[0] is Must && rest.len() > 0 {
        assert forall|i: int| 0 <= i < later.len() implies !((#[trigger] later[i]) is Failed) by {
            assert(later[i] == replies[i + 1]);
        }
        lemma_no_failure(next.0, goal, rest, later);
    } else {
        assert(next.1 == StepView::Finished(OutcomeView::Unit(Ok(()))));
        reveal_with_fuel(outcome_of, 2);
    }
}

/// A call that changes something on the server ends well where the server
/// refuses nothing of what it is asked.
pub proof fn law_what_the_server_takes_ends_well(v: ImapView, call: CallView, replies: Seq<Reply>)
    requires
        call is SetFlags || call is CopyMessage || call is MoveMessage || call is ExpungeUid
            || call is Append,
        replies.len() >= 6,
        forall|i: int| 0 <= i < replies.len() ==> !((#[trigger] replies[i]) is Failed),
    ensures
        outcome_of(started(v, call), replies) == Some(OutcomeView::Unit(Ok(()))),
{
    let stages = call_stages(v, call);
    assert(0 < stages.len() <= 6);
    lemma_no_failure(started(v, call).0, goal_of(call), stages, replies);
}

/// A change of flags that ends well shows in the cache: the message is seen
/// there where `\Seen` was added, and not where it was removed, and flagged
/// where `\Flagged` was added, and not where it was removed. A flag that was
/// neither stays as it was, and so does all else in the cache.
pub proof fn law_changed_flags_show_in_the_cache(
    v: ImapView,
    m: Map<Seq<char>, FolderView>,
    folder: Seq<char>,
    uid: u32,
    add: Seq<Seq<char>>,
    remove: Seq<Seq<char>>,
    now: StageView,
    reply: Reply,
    other_folder: Seq<char>,
    other_uid: u32,
)
    requires
        v.task == TaskView::Working(
            goal_of(CallView::SetFlags(folder, uid, add, remove)),
            now,
            Seq::empty(),
        ),
        v.cache == Some(m),
        !(reply is Failed),
        !(reply is Cache),
    ensures
        ({
            let (after, step) = resumed(v, reply);
            let c = after.cache->0;
            &&& step == StepView::Finished(OutcomeView::Unit(Ok(())))
            &&& after.cache is Some
            &&& m.contains_key(folder) && m[folder].envelopes.contains_key(uid) ==> {
                let was = m[folder].envelopes[uid];
                let h = c[folder].envelopes[uid];
                &&& c.contains_key(folder)
                &&& c[folder].envelopes.contains_key(uid)
                &&& add.contains("\\Seen"@) ==> h.seen
                &&& !add.contains("\\Seen"@) && remove.contains("\\Seen"@) ==> !h.seen
                &&& !add.contains("\\Seen"@) && !remove.contains("\\Seen"@) ==> h.seen == was.seen
                &&& add.contains("\\Flagged"@) ==> h.flagged
                &&& !add.contains("\\Flagged"@) && remove.contains("\\Flagged"@) ==> !h.flagged
                &&& !add.contains("\\Flagged"@) && !remove.contains("\\Flagged"@) ==> h.flagged
                    == was.flagged
                &&& h.uid == was.uid
                &&& h.from == was.from
                &&& h.subject == was.subject
                &&& h.date == was.date
                &&& h.message_id == was.message_id
            }
            &&& m.contains_key(folder) ==> {
                &&& c[folder].uidvalidity == m[folder].uidvalidity
                &&& c[folder].count == m[folder].count
                &&& other_uid != uid ==> {
                    &&& c[folder].envelopes.contains_key(other_uid)
                        == m[folder].envelopes.contains_key(other_uid)
                    &&& c[folder].envelopes[other_uid] == m[folder].envelopes[other_uid]
                }
            }
            &&& other_folder != folder ==> {
                &&& c.contains_key(other_folder) == m.contains_key(other_folder)
                &&& c[other_folder] == m[other_folder]
            }
            &&& !m.contains_key(folder) ==> c == m
        }),
{
}

/// The list of folders is what the server lists: it is asked for its folders,
/// and those that it names are the outcome.
pub proof fn law_folders_are_those_the_server_lists(v: ImapView, names: Vec<Name>)
    ensures
        ({
            let begun = started(v, CallView::ListFolders);
            let listing = if v.connected {
                begun
            } else {
                resumed(begun.0, Reply::Done)
            };
            &&& !v.connected ==> begun.1 == StepView::Ask(RequestView::Connect)
            &&& listing.1 == StepView::Ask(RequestView::List)
            &&& resumed(listing.0, Reply::Names(names)).1 == StepView::Finished(
                OutcomeView::Folders(Ok(folders::folders_of(names@))),
            )
        }),
{
    let call = CallView::ListFolders;
    let stages = call_stages(v, call);
    if v.connected {
        assert(stages == seq![StageView::Must(RequestView::List)]);
    } else {
        assert(stages == seq![
            StageView::Must(RequestView::Connect),
            StageView::Must(RequestView::List),
        ]);
    }
    assert(stages.skip(1).len() == stages.len() - 1);
}

/// A listing selects its folder, once there are a session and the cache, and
/// asks for nothing else before it.
pub proof fn law_a_listing_selects_its_folder(v: ImapView, folder: Seq<char>, limit: nat)
    ensures
        ({
            let begun = started(v, CallView::ListMessages(folder, limit)).0;
            &&& begun.task matches TaskView::Working(goal, now, rest)
            &&& goal == GoalView::Listing(folder, limit)
            &&& (seq![now] + rest).last() == StageView::Must(RequestView::Select(folder))
            &&& forall|i: int|
                0 <= i < (seq![now] + rest).len() - 1 ==> {
                    let stage = #[trigger] (seq![now] + rest)[i];
                    ||| stage == StageView::Must(RequestView::Connect) && !v.connected
                    ||| stage == StageView::Must(RequestView::OpenCache(v.config.username@))
                        && !v.cache_opened
                }
        }),
{
    let stages = call_stages(v, CallView::ListMessages(folder, limit));
    assert(seq![stages[0]] + stages.skip(1) == stages);
}

/// Once its folder is selected, a listing asks for what it lacks and nothing
/// else. An empty folder has no messages. Where the cache is of this
/// UIDVALIDITY and holds as many messages as there are, it is the listing,
/// the newest first; where it holds fewer, those above the highest UID that it
/// holds are fetched. Else the last messages of the folder are, as many as the
/// listing may have, or all there are.
pub proof fn law_a_listing_asks_for_what_it_lacks(
    v: ImapView,
    folder: Seq<char>,
    limit: nat,
    total: u32,
    uid_validity: Option<u32>,
    top: u32,
)
    requires
        v.task == TaskView::Working(
            GoalView::Listing(folder, limit),
            StageView::Must(RequestView::Select(folder)),
            Seq::empty(),
        ),
    ensures
        ({
            let step = resumed(v, Reply::Selected { exists: total, uid_validity }).1;
            let validity = if uid_validity is Some {
                uid_validity->0
            } else {
                0
            };
            let known = v.cache is Some && v.cache->0.contains_key(folder)
                && v.cache->0[folder].uidvalidity == validity;
            let cached = v.cache->0[folder];
            let items = "(UID ENVELOPE FLAGS)"@;
            &&& total == 0 ==> step == StepView::Finished(
                OutcomeView::Messages(Ok(Seq::<HeaderView>::empty())),
            )
            &&& total > 0 && known && cached.count >= total ==> step == StepView::Finished(
                OutcomeView::Messages(Ok(cache::latest(cached.envelopes, limit))),
            )
            &&& total > 0 && known && cached.count < total && cached.envelopes.contains_key(top) && (
            forall|uid: u32| #[trigger] cached.envelopes.contains_key(uid) ==> uid <= top)
                ==> step == StepView::Ask(
                RequestView::UidFetch(text::decimal(top as nat + 1) + ":*"@, items),
            )
            &&& total > 0 && !known ==> {
                &&& step matches StepView::Ask(RequestView::Fetch(range, wanted))
                &&& wanted == items
                &&& exists|first: nat|
                    {
                        &&& range == #[trigger] text::decimal(first) + ":"@ + text::decimal(
                            total as nat,
                        )
                        &&& first >= 1
                        &&& total - first + 1 == (if limit < total {
                            limit as int
                        } else {
                            total as int
                        })
                    }
            }
        }),
{
    let validity = match uid_validity {
        Some(n) => n,
        None => 0,
    };
    if v.cache is Some && v.cache->0.contains_key(folder) {
        let cached = v.cache->0[folder].envelopes;
        if cached.contains_key(top) && (forall|uid: u32| #[trigger] cached.contains_key(uid) ==> uid
            <= top) {
            assert(cache::is_greatest(cached, top));
            let c = choose|k: u32| cache::is_greatest(cached, k);
            assert(cache::is_greatest(cached, c));
            assert(c == top);
        }
    }
    let first: nat = if total > limit {
        (total - limit + 1) as nat
    } else {
        1
    };
    assert(range_of_last(limit, total as nat) == text::decimal(first) + ":"@ + text::decimal(
        total as nat,
    ));
}

/// A folder that is fetched anew is listed as it was fetched, the last message
/// first, and all that was fetched is then in the cache. Other folders stay
/// in it as they were.
pub proof fn law_a_fetched_folder_is_listed_last_first(
    v: ImapView,
    m: Map<Seq<char>, FolderView>,
    folder: Seq<char>,
    now: RequestView,
    fetched: Vec<Fetch>,
    i: int,
    other: Seq<char>,
)
    requires
        v.task == TaskView::Working(
            GoalView::AllMessages(folder),
            StageView::Must(now),
            Seq::empty(),
        ),
        v.cache == Some(m),
        0 <= i < envelope::headers_of(fetched@).len(),
    ensures
        ({
            let (after, step) = resumed(v, Reply::Fetched(fetched));
            let headers = envelope::headers_of(fetched@);
            &&& step matches StepView::Finished(OutcomeView::Messages(Ok(list)))
            &&& list.len() == headers.len()
            &&& list[list.len() - 1 - i] == headers[i]
            &&& after.cache matches Some(c)
            &&& c.contains_key(folder)
            &&& c[folder].envelopes.contains_key(headers[i].uid)
            &&& (forall|j: int|
                0 <= j < headers.len() && j != i ==> (#[trigger] headers[j]).uid != headers[i].uid)
                ==> c[folder].envelopes[headers[i].uid] == headers[i]
            &&& other != folder ==> c.contains_key(other) == m.contains_key(other) && c[other]
                == m[other]
        }),
{
    let headers = envelope::headers_of(fetched@);
    let listed = headers.reverse();
    let k = listed.len() - 1 - i;
    assert(listed[k] == headers[i]);
    let f = if m.contains_key(folder) {
        m[folder]
    } else {
        cache::empty_folder(0)
    };
    cache::law_what_is_put_in_is_found(f.envelopes, listed, headers[i].uid);
    cache::lemma_put_in(f.envelopes, listed, k);
    if forall|j: int|
        0 <= j < headers.len() && j != i ==> (#[trigger] headers[j]).uid != headers[i].uid {
        assert forall|j: int| k < j < listed.len() implies (#[trigger] listed[j]).uid
            != headers[i].uid by {
            assert(listed[j] == headers[headers.len() - 1 - j]);
        }
        assert(listed[k].uid == headers[i].uid);
    }
}

/// The messages that are new to a folder join those that the cache has of it,
/// and the listing is the newest of them all.
pub proof fn law_new_messages_join_the_cached_ones(
    v: ImapView,
    m: Map<Seq<char>, FolderView>,
    folder: Seq<char>,
    limit: nat,
    now: RequestView,
    fetched: Vec<Fetch>,
    uid: u32,
    other: Seq<char>,
)
    requires
        v.task == TaskView::Working(
            GoalView::NewMessages(folder, limit),
            StageView::Must(now),
            Seq::empty(),
        ),
        v.cache == Some(m),
        m.contains_key(folder),
    ensures
        ({
            let (after, step) = resumed(v, Reply::Fetched(fetched));
            let headers = envelope::headers_of(fetched@);
            &&& after.cache matches Some(c)
            &&& c.contains_key(folder)
            &&& c[folder].uidvalidity == m[folder].uidvalidity
            &&& step == StepView::Finished(
                OutcomeView::Messages(Ok(cache::latest(c[folder].envelopes, limit))),
            )
            &&& (forall|i: int| 0 <= i < headers.len() ==> (#[trigger] headers[i]).uid != uid) ==> {
                &&& c[folder].envelopes.contains_key(uid) == m[folder].envelopes.contains_key(uid)
                &&& c[folder].envelopes[uid] == m[folder].envelopes[uid]
            }
            &&& forall|i: int|
                #![trigger headers[i]]
                0 <= i < headers.len() && headers[i].uid == uid && (forall|j: int|
                    i < j < headers.len() ==> (#[trigger] headers[j]).uid != uid)
                    ==> c[folder].envelopes.contains_key(uid) && c[folder].envelopes[uid]
                    == headers[i]
            &&& other != folder ==> c.contains_key(other) == m.contains_key(other) && c[other]
                == m[other]
        }),
{
    cache::law_what_is_put_in_is_found(
        m[folder].envelopes,
        envelope::headers_of(fetched@),
        uid,
    );
}

/// A message is searched for by its Message-ID in the folder that was named,
/// and the first that is found there is the one that is read.
pub proof fn law_a_message_is_found_by_its_id(
    v: ImapView,
    folder: Seq<char>,
    message_id: Seq<char>,
    exists_: u32,
    uid_validity: Option<u32>,
    uids: Vec<u32>,
)
    ensures
        ({
            let begun = started(v, CallView::FetchMessageByMessageId(folder, message_id));
            let selecting = if v.connected {
                begun
            } else {
                resumed(begun.0, Reply::Done)
            };
            let searching = resumed(
                selecting.0,
                Reply::Selected { exists: exists_, uid_validity },
            );
            let (after, step) = resumed(searching.0, Reply::Uids(uids));
            &&& !v.connected ==> begun.1 == StepView::Ask(RequestView::Connect)
            &&& selecting.1 == StepView::Ask(RequestView::Select(folder))
            &&& searching.1 == StepView::Ask(
                RequestView::UidSearch("HEADER Message-ID "@ + message_id),
            )
            &&& uids@.len() == 0 ==> step == StepView::Finished(OutcomeView::Message(Ok(None)))
            &&& uids@.len() > 0 ==> {
                &&& step == StepView::Ask(RequestView::Select(folder))
                &&& resumed(after, Reply::Selected { exists: exists_, uid_validity }).1
                    == StepView::Ask(
                    RequestView::UidFetch(text::decimal(uids@[0] as nat), "BODY[]"@),
                )
                &&& after.task matches TaskView::Working(goal, _, _)
                &&& goal == GoalView::Message(uids@[0])
            }
        }),
{
    let call = CallView::FetchMessageByMessageId(folder, message_id);
    let stages = call_stages(v, call);
    let select = StageView::Must(RequestView::Select(folder));
    let search = StageView::Must(RequestView::UidSearch("HEADER Message-ID "@ + message_id));
    if v.connected {
        assert(stages == seq![select, search]);
    } else {
        assert(stages == seq![StageView::Must(RequestView::Connect), select, search]);
        assert(stages.skip(1) == seq![select, search]);
    }
    assert(seq![select, search].skip(1) == seq![search]);
    assert(seq![search].skip(1) == Seq::<StageView>::empty());
    if uids@.len() > 0 {
        let fetching = fetch_stages(folder, uids@[0]);
        assert(fetching.skip(1) == seq![fetching[1]]);
    }
}

/// A reply that does not fit what a call has to make of it is an error, and a
/// call that fails ends in an error of its kind that says why.
pub proof fn law_a_failure_is_told_in_kind(goal: GoalView, e: Seq<char>)
    ensures
        match goal {
            GoalView::Folders => failure(goal, e) == OutcomeView::Folders(Err(e)),
            GoalView::Message(_) => failure(goal, e) == OutcomeView::Message(Err(e)),
            GoalView::Search(_) => failure(goal, e) == OutcomeView::Message(Err(e)),
            GoalView::Flags(_, _, _, _) => failure(goal, e) == OutcomeView::Unit(Err(e)),
            GoalView::Nothing => failure(goal, e) == OutcomeView::Unit(Err(e)),
            _ => failure(goal, e) == OutcomeView::Messages(Err(e)),
        },
        !is_success(failure(goal, e)),
{
}

/// A reply that a call can make nothing of is an error of the call's kind,
/// never a result.
pub proof fn law_a_reply_that_does_not_fit_is_an_error(
    v: ImapView,
    goal: GoalView,
    now: RequestView,
    reply: Reply,
)
    requires
        v.task == TaskView::Working(goal, StageView::Must(now), Seq::empty()),
        !(reply is Failed),
    ensures
        ({
            let step = resumed(v, reply).1;
            &&& goal is Folders && !(reply is Names) ==> (step matches StepView::Finished(
                OutcomeView::Folders(r),
            ) && r is Err)
            &&& goal is Listing && !(reply is Selected) ==> (step matches StepView::Finished(
                OutcomeView::Messages(r),
            ) && r is Err)
            &&& (goal is NewMessages || goal is AllMessages) && !(reply is Fetched) ==> (
            step matches StepView::Finished(OutcomeView::Messages(r)) && r is Err)
            &&& goal is Message && !(reply is Fetched) ==> (step matches StepView::Finished(
                OutcomeView::Message(r),
            ) && r is Err)
            &&& goal is Search && !(reply is Uids) ==> (step matches StepView::Finished(
                OutcomeView::Message(r),
            ) && r is Err)
        }),
{
}

/// What the fetching of threads has to say is handed on: what to send, that a
/// line is to be read, the threads, or why there are none. It begins with a
/// connection of its own, which signs in as the account, and goes on with it
/// where there is one.
pub proof fn law_the_fetching_of_threads_is_handed_on(
    v: ImapView,
    folder: Seq<char>,
    known: RawView,
    stage: ThreadStage,
    bytes: Vec<u8>,
    e: String,
)
    requires
        v.task == TaskView::Threads(folder, stage),
        v.threads == Some(known),
    ensures
        ({
            let (client, later, what) = raw::thread_step(known, folder, stage, bytes@);
            let (after, step) = resumed(v, Reply::Line(bytes));
            let going_on = after.threads == Some(client) && after.task == TaskView::Threads(
                folder,
                later,
            );
            match what {
                ThreadNextView::Send(line) => going_on && step == StepView::Ask(
                    RequestView::SendThreads(line),
                ),
                ThreadNextView::Read => going_on && step == StepView::Ask(RequestView::ReadThreads),
                ThreadNextView::Finished(threads) => after.threads == Some(client) && step
                    == StepView::Finished(OutcomeView::Threads(Ok(threads))),
                ThreadNextView::Failed(why) => after.threads is None && step == StepView::Finished(
                    OutcomeView::Threads(Err(why)),
                ),
            }
        }),
        resumed(v, Reply::Failed(e)).1 == StepView::Finished(OutcomeView::Threads(Err(e@))),
        ({
            let (client, later, what) = raw::signed_in(known, folder);
            let (after, step) = started(v, CallView::FetchThreads(folder));
            &&& what matches ThreadNextView::Send(line) ==> step == StepView::Ask(
                RequestView::SendThreads(line),
            ) && after.threads == Some(client) && after.task == TaskView::Threads(folder, later)
            &&& what matches ThreadNextView::Finished(threads) ==> step == StepView::Finished(
                OutcomeView::Threads(Ok(threads)),
            )
        }),
        ({
            let alone = ImapView { threads: None, ..v };
            let (after, step) = started(alone, CallView::FetchThreads(folder));
            &&& step == StepView::Ask(RequestView::OpenThreads)
            &&& after.task == TaskView::Threads(folder, ThreadStage::SigningIn)
            &&& after.threads matches Some(client)
            &&& client.caps is None
            &&& client.phase == raw::PhaseView::Greeting(crate::connection::login_of(v.config))
        }),
{
}

/// A session that was opened and a cache that was read are remembered, and
/// nothing else is taken from the answer.
pub proof fn law_what_was_opened_is_remembered(
    v: ImapView,
    goal: GoalView,
    next: StageView,
    rest: Seq<StageView>,
    user: Seq<char>,
    read: Option<EnvelopeCache>,
)
    ensures
        ({
            let opening = ImapView {
                task: TaskView::Working(
                    goal,
                    StageView::Must(RequestView::Connect),
                    seq![next] + rest,
                ),
                ..v
            };
            let (after, step) = resumed(opening, Reply::Done);
            &&& after.connected
            &&& after.cache == v.cache
            &&& after.cache_opened == v.cache_opened
            &&& after.task == TaskView::Working(goal, next, rest)
            &&& step == StepView::Ask(stage_request(next))
        }),
        ({
            let opening = ImapView {
                task: TaskView::Working(
                    goal,
                    StageView::Must(RequestView::OpenCache(user)),
                    seq![next] + rest,
                ),
                ..v
            };
            let (after, step) = resumed(opening, Reply::Cache(read));
            &&& read matches Some(c) ==> after.cache == Some(c@)
            &&& read is None ==> after.cache is None
            &&& after.cache_opened
            &&& after.connected == v.connected
            &&& after.task == TaskView::Working(goal, next, rest)
            &&& step == StepView::Ask(stage_request(next))
        }),
{
    let stages = seq![next] + rest;
    assert(stages[0] == next);
    assert(stages.skip(1) == rest);
}

/// A call opens a session exactly where there is none, once, and before
/// anything else is asked of the server.
pub proof fn law_a_session_is_opened_where_there_is_none(v: ImapView, call: CallView, i: int)
    requires
        !(call is FetchThreads),
        0 <= i < call_stages(v, call).len(),
    ensures
        v.connected ==> call_stages(v, call)[i] != StageView::Must(RequestView::Connect),
        !v.connected ==> {
            &&& i == 0 ==> call_stages(v, call)[i] == StageView::Must(RequestView::Connect) || (
            call is ListMessages && call_stages(v, call)[i] == StageView::Must(
                RequestView::OpenCache(v.config.username@),
            ) && call_stages(v, call)[1] == StageView::Must(RequestView::Connect))
            &&& i > 1 ==> call_stages(v, call)[i] != StageView::Must(RequestView::Connect)
        },
        started(v, call).1 == StepView::Ask(stage_request(call_stages(v, call)[0])),
{
    let stages = call_stages(v, call);
    let opening = connect_stages(v);
    let working = session_stages(call);
    if call is ListMessages {
        let first = cache_stages(v);
        if i >= first.len() + opening.len() {
            assert(stages[i] == working[i - first.len() - opening.len()]);
        }
    } else {
        if opening.len() <= i < opening.len() + working.len() {
            assert(stages[i] == working[i - opening.len()]);
        }
    }
}

/// A folder that has become empty is flushed: nothing of it stays cached, its
/// UIDVALIDITY is the one that the server told, and no other folder changes.
pub proof fn law_an_empty_folder_is_flushed(
    v: ImapView,
    m: Map<Seq<char>, FolderView>,
    folder: Seq<char>,
    limit: nat,
    uid_validity: Option<u32>,
    uid: u32,
    other: Seq<char>,
)
    requires
        v.task == TaskView::Working(
            GoalView::Listing(folder, limit),
            StageView::Must(RequestView::Select(folder)),
            Seq::empty(),
        ),
        v.cache == Some(m),
    ensures
        ({
            let after = resumed(v, Reply::Selected { exists: 0, uid_validity }).0;
            &&& after.cache matches Some(c)
            &&& c.contains_key(folder)
            &&& !c[folder].envelopes.contains_key(uid)
            &&& c[folder].count == 0
            &&& uid_validity matches Some(n) ==> c[folder].uidvalidity == n
            &&& other != folder ==> c.contains_key(other) == m.contains_key(other) && c[other]
                == m[other]
        }),
{
}

} // verus!
