//! IMAP IDLE in the background.
//!
//! A watcher watches one folder over its own IMAP connection. When the server
//! reports EXISTS, EXPUNGE or VANISHED, it says that the mailbox has changed.
//!
//! IDLE waits in rounds, and between rounds the watcher looks whether it has
//! been stopped, so a stop takes effect within a round without anything
//! waiting on it. `IdleController` is the UI's side, `IdleLoop` the watcher,
//! and `IdleTask` a task that runs watchers one after another. None of them
//! does any I/O but raise the flag that something is new.

use crate::text;
use crate::types::EmailClientConfig;
use crate::types::TaskEvent;
use std::sync::atomic::AtomicBool;
use std::sync::Arc;
use vstd::prelude::*;
use vstd::utf8::*;

verus! {

/// How long to wait before reconnecting, in seconds.
pub const RECONNECT_DELAY: u64 = 10;

/// One round of waiting in IDLE, in seconds. Short, so a stop or a folder
/// switch is noticed soon.
pub const IDLE_ROUND: u64 = 10;

/// The task that watches a folder.
pub const IDLE_TASK: &'static str = "idle";

/// What the task emits when the mailbox has changed.
pub const CHANGED: &'static str = "changed";

/// What the UI tells the watcher.
#[derive(Debug, Clone)]
pub enum Command {
    /// Watch `folder` on the server `config` names, instead of whatever was
    /// watched before.
    Watch { config: EmailClientConfig, folder: String },
    /// Watch nothing, and wait for the next `Watch`.
    Stop,
    /// A refreshed OAuth access token, for the next connection.
    Token(String),
}

// ---------------------------------------------------------------------------
// The UI's side
// ---------------------------------------------------------------------------

/// The UI's side of the watcher.
#[derive(Debug)]
pub struct IdleController {
    /// Raised when new mail arrives.
    notify: Arc<AtomicBool>,
    /// What is being watched: the folder, and the server and account, so
    /// re-rendering the same folder does not restart the watch.
    watching: Option<(String, String, String)>,
    /// The task that watches, where a task does.
    task: Option<u64>,
    /// The OAuth access token that the next session authenticates with. It is
    /// replaced roughly hourly, and a session that kept the one it started
    /// with would keep reconnecting with a dead credential.
    token: String,
}

/// What a controller knows.
pub struct IdleView {
    /// The flag that it raises when new mail arrives.
    pub notify: Arc<AtomicBool>,
    pub watching: Option<(Seq<char>, Seq<char>, Seq<char>)>,
    pub task: Option<u64>,
    pub token: Seq<char>,
}

impl View for IdleController {
    type V = IdleView;

    closed spec fn view(&self) -> IdleView {
        IdleView {
            notify: self.notify,
            watching: match self.watching {
                Some((folder, url, user)) => Some((folder@, url@, user@)),
                None => None,
            },
            task: self.task,
            token: self.token@,
        }
    }
}

/// What watching `folder` as `config` is known by.
pub open spec fn watch_key(config: EmailClientConfig, folder: Seq<char>) -> (
    Seq<char>,
    Seq<char>,
    Seq<char>,
) {
    (folder, config.imap_url@, config.username@)
}

/// How a command reaches the task that watches.
#[derive(Debug, PartialEq, Eq, Structural, Clone, Copy)]
pub enum Telling {
    /// Send it to the task of this number.
    Send(u64),
    /// Start a task with it.
    Spawn,
    /// There is no one to tell.
    Drop,
}

/// What an event of a task means to a controller.
#[derive(Debug, PartialEq, Eq, Structural, Clone, Copy)]
pub enum IdleNews {
    /// It is not of the task that watches.
    NotOurs,
    /// The mailbox has changed.
    Changed,
    /// The task has ended.
    Ended,
    /// Nothing.
    Nothing,
}

/// What the event `event` of the task `id` means to `v`.
pub open spec fn news_of(v: IdleView, id: u64, event: TaskEvent) -> IdleNews {
    if v.task != Some(id) {
        IdleNews::NotOurs
    } else {
        match event {
            TaskEvent::Progress(bytes) => if bytes@ == encode_utf8(CHANGED@) {
                IdleNews::Changed
            } else {
                IdleNews::Nothing
            },
            TaskEvent::Done(_) => IdleNews::Ended,
        }
    }
}

fn same_bytes(a: &[u8], b: &[u8]) -> (r: bool)
    ensures
        r == (a@ == b@),
{
    if a.len() != b.len() {
        return false;
    }
    let mut i: usize = 0;
    while i < a.len()
        invariant
            i <= a@.len(),
            a@.len() == b@.len(),
            forall|k: int| 0 <= k < i ==> a@[k] == b@[k],
        decreases a@.len() - i,
    {
        if a[i] != b[i] {
            return false;
        }
        i = i + 1;
    }
    assert(a@ == b@);
    true
}

impl IdleController {
    /// A controller that watches nothing and raises `notify`.
    pub fn new(notify: Arc<AtomicBool>) -> (r: IdleController)
        ensures
            r@ == (IdleView { notify, watching: None, task: None, token: seq![] }),
    {
        let r = IdleController { notify, watching: None, task: None, token: String::new() };
        assert(r@.token == Seq::<char>::empty());
        r
    }

    fn watches(&self, folder: &str, url: &str, user: &str) -> (r: bool)
        ensures
            r == (self@.watching == Some((folder@, url@, user@))),
    {
        match &self.watching {
            Some((f, u, n)) => text::same_str(&text::chars(folder), f.as_str()) && text::same_str(
                &text::chars(url),
                u.as_str(),
            ) && text::same_str(&text::chars(user), n.as_str()),
            None => false,
        }
    }

    /// Watch `folder`: what to tell the watcher, in order. Where it is watched
    /// already, on the same server and account, there is nothing to tell and
    /// nothing changes.
    pub fn start(&mut self, config: EmailClientConfig, folder: String) -> (r: Vec<Command>)
        ensures
            old(self)@.watching == Some(watch_key(config, folder@)) ==> {
                &&& r@.len() == 0
                &&& final(self)@ == old(self)@
            },
            old(self)@.watching != Some(watch_key(config, folder@)) ==> {
                &&& final(self)@ == (IdleView {
                    notify: old(self)@.notify,
                    watching: Some(watch_key(config, folder@)),
                    task: old(self)@.task,
                    token: config.oauth_access_token@,
                })
                &&& r@ == (if old(self)@.watching is Some {
                    seq![Command::Stop]
                } else {
                    seq![]
                }).push(Command::Watch { config, folder })
            },
    {
        let mut commands: Vec<Command> = Vec::new();
        if self.watches(folder.as_str(), config.imap_url.as_str(), config.username.as_str()) {
            return commands;
        }
        if self.stop() {
            commands.push(Command::Stop);
        }
        self.watching = Some(
            (folder.clone(), config.imap_url.clone(), config.username.clone()),
        );
        self.token = config.oauth_access_token.clone();
        commands.push(Command::Watch { config, folder });
        assert(commands@ == (if old(self)@.watching is Some {
            seq![Command::Stop]
        } else {
            seq![]
        }).push(Command::Watch { config, folder }));
        commands
    }

    /// A freshly refreshed OAuth access token, for the next session: what to
    /// tell the task that watches, where there is one.
    ///
    /// It takes effect on the watcher's next reconnect; the current IDLE goes
    /// on with the old token until the server drops it.
    pub fn update_token(&mut self, access_token: &str) -> (r: Option<Command>)
        ensures
            final(self)@ == (IdleView { token: access_token@, ..old(self)@ }),
            match r {
                Some(Command::Token(t)) => old(self)@.task is Some && t@ == access_token@,
                Some(_) => false,
                None => old(self)@.task is None,
            },
    {
        self.token = access_token.to_owned();
        if self.task.is_some() {
            Some(Command::Token(access_token.to_owned()))
        } else {
            None
        }
    }

    /// The OAuth access token for the next session.
    pub fn token(&self) -> (r: &str)
        ensures
            r@ == self@.token,
    {
        self.token.as_str()
    }

    /// Stop watching: whether there is a watcher to be told. It notices within
    /// a round.
    pub fn stop(&mut self) -> (r: bool)
        ensures
            r == (old(self)@.watching is Some),
            final(self)@ == (IdleView { watching: None, ..old(self)@ }),
    {
        self.watching.take().is_some()
    }

    /// How `command` reaches the task that watches. Only a watch starts a
    /// task: without one there is nothing to stop, and a token arrives with
    /// the next watch anyway.
    pub fn tell(&self, command: &Command) -> (r: Telling)
        ensures
            r == (match self@.task {
                Some(id) => Telling::Send(id),
                None => if command is Watch {
                    Telling::Spawn
                } else {
                    Telling::Drop
                },
            }),
    {
        match self.task {
            Some(id) => Telling::Send(id),
            None => match command {
                Command::Watch { .. } => Telling::Spawn,
                _ => Telling::Drop,
            },
        }
    }

    /// The task that watched has gone.
    pub fn lost(&mut self)
        ensures
            final(self)@ == (IdleView { task: None, ..old(self)@ }),
    {
        self.task = None;
    }

    /// What came of starting a task: nothing is watched where it could not be
    /// started, and why is to be logged.
    pub fn spawned(&mut self, result: Result<u64, String>) -> (r: Option<String>)
        ensures
            match result {
                Ok(id) => {
                    &&& r is None
                    &&& final(self)@ == (IdleView { task: Some(id), ..old(self)@ })
                },
                Err(e) => {
                    &&& r matches Some(log) && log@ == "emailclient: no IDLE task: "@ + e@
                    &&& final(self)@ == (IdleView { watching: None, ..old(self)@ })
                },
            },
    {
        match result {
            Ok(id) => {
                self.task = Some(id);
                None
            },
            Err(e) => {
                self.watching = None;
                let mut out = text::chars("emailclient: no IDLE task: ");
                text::extend_str(&mut out, e.as_str());
                Some(text::string(&out))
            },
        }
    }

    /// An event from the task `id`. Where it says that the mailbox has changed
    /// the flag is raised; where the task has ended, the next folder render
    /// starts another. The flag stays the one that the controller was made
    /// with; others may clear it at any time, so no contract says what it
    /// holds.
    pub fn on_task_event(&mut self, id: u64, event: &TaskEvent) -> (r: IdleNews)
        ensures
            r == news_of(old(self)@, id, *event),
            final(self)@ == (if r == IdleNews::Ended {
                IdleView { watching: None, task: None, ..old(self)@ }
            } else {
                old(self)@
            }),
    {
        let ours = match self.task {
            Some(task) => task == id,
            None => false,
        };
        if !ours {
            return IdleNews::NotOurs;
        }
        match event {
            TaskEvent::Progress(bytes) => {
                if same_bytes(bytes.as_slice(), CHANGED.as_bytes()) {
                    self.notify.store(true, std::sync::atomic::Ordering::Relaxed);
                    IdleNews::Changed
                } else {
                    IdleNews::Nothing
                }
            },
            TaskEvent::Done(_) => {
                self.task = None;
                self.watching = None;
                IdleNews::Ended
            },
        }
    }
}

// ---------------------------------------------------------------------------
// The watcher
// ---------------------------------------------------------------------------

/// Something a server says that was not asked for.
#[derive(Debug, Clone)]
pub enum UnsolicitedResponse {
    Bye { information: Option<String> },
    Exists(u32),
    Expunge(u32),
    Fetch { id: u32 },
    Flags,
    Metadata { mailbox: String },
    /// An `OK` that answers nothing, such as a keepalive.
    Notice { information: Option<String> },
    Recent(u32),
    Status { mailbox: String },
    Vanished { earlier: bool },
    Other,
}

/// Whether an unsolicited response means that the mailbox contents changed.
///
/// Anything else (notably the `* OK Still here` keepalive some servers send)
/// must not trigger a refresh.
pub fn is_mailbox_change(response: &UnsolicitedResponse) -> (r: bool)
    ensures
        r == (response is Expunge || response is Vanished || response is Exists),
{
    match response {
        UnsolicitedResponse::Expunge(_) => true,
        UnsolicitedResponse::Vanished { .. } => true,
        UnsolicitedResponse::Exists(_) => true,
        _ => false,
    }
}

/// Where a watcher is.
#[derive(Debug, PartialEq, Eq, Structural, Clone, Copy)]
pub enum IdlePhase {
    /// About to open a session, unless it has been stopped.
    Begin,
    /// Asking for the access token.
    Token,
    Connecting,
    Selecting,
    /// Between rounds.
    Round,
    Waiting,
    /// Saying that the mailbox has changed.
    Changed,
    /// Ending the session.
    Leaving,
    /// Saying that the session failed.
    Failed,
    /// Waiting to reconnect, for this many seconds so far: about to look
    /// whether it has been stopped.
    BackOff(u64),
    /// Waiting to reconnect, for this many seconds so far: sleeping.
    Sleeping(u64),
    /// Stopped.
    Ended,
}

/// A watcher of one folder.
#[derive(Debug)]
pub struct IdleLoop {
    config: EmailClientConfig,
    folder: String,
    phase: IdlePhase,
}

/// What a watcher does next.
#[derive(Debug)]
pub enum IdleStep {
    /// Say whether it has been stopped.
    AskStopped,
    /// Say what the current access token is.
    AskToken,
    /// Open a session and sign in so.
    Connect(EmailClientConfig),
    /// Select this folder.
    Select(String),
    /// Wait in IDLE for one round, or until the mailbox changes.
    Wait,
    /// The mailbox has changed.
    Changed,
    /// End the session.
    Logout,
    /// Log this. There is no session any more.
    Log(String),
    /// Sleep for a second.
    Sleep,
    /// The watcher has ended.
    End,
}

/// What came of a step.
#[derive(Debug)]
pub enum IdleEvent {
    /// Whether the watcher has been stopped.
    Stopped(bool),
    /// The current access token, if there is one.
    Token(Option<String>),
    /// Whether the mailbox changed in the round.
    Waited(bool),
    /// It was done.
    Done,
    /// It failed.
    Failed(String),
}

/// What a watcher does next.
pub enum IdleStepView {
    AskStopped,
    AskToken,
    /// Sign in with the account's settings and this access token.
    Connect(EmailClientConfig, Seq<char>),
    Select(Seq<char>),
    Wait,
    Changed,
    Logout,
    Log(Seq<char>),
    Sleep,
    End,
}

/// Whether `step` is `view`, for the account `config`: a session is opened
/// with the settings of the account but for its access token.
pub open spec fn is_step(step: IdleStep, view: IdleStepView) -> bool {
    match (step, view) {
        (IdleStep::AskStopped, IdleStepView::AskStopped) => true,
        (IdleStep::AskToken, IdleStepView::AskToken) => true,
        (IdleStep::Connect(c), IdleStepView::Connect(config, token)) => {
            &&& c.imap_url == config.imap_url
            &&& c.smtp_url == config.smtp_url
            &&& c.username == config.username
            &&& c.password == config.password
            &&& c.oauth_access_token@ == token
        },
        (IdleStep::Select(f), IdleStepView::Select(folder)) => f@ == folder,
        (IdleStep::Wait, IdleStepView::Wait) => true,
        (IdleStep::Changed, IdleStepView::Changed) => true,
        (IdleStep::Logout, IdleStepView::Logout) => true,
        (IdleStep::Log(e), IdleStepView::Log(text)) => e@ == text,
        (IdleStep::Sleep, IdleStepView::Sleep) => true,
        (IdleStep::End, IdleStepView::End) => true,
        _ => false,
    }
}

/// The access token of a session: the current one, unless there is none.
pub open spec fn session_token(config: EmailClientConfig, current: Option<Seq<char>>) -> Seq<char> {
    match current {
        Some(t) => if t.len() > 0 {
            t
        } else {
            config.oauth_access_token@
        },
        None => config.oauth_access_token@,
    }
}

/// What is logged where a session fails with `e`.
pub open spec fn session_error(e: Seq<char>) -> Seq<char> {
    "emailclient_idle: session error: "@ + e
}

/// What a watcher of `folder` does in `phase` when `event` has come of its
/// last step.
pub open spec fn idle_step(
    config: EmailClientConfig,
    folder: Seq<char>,
    phase: IdlePhase,
    event: IdleEvent,
) -> (IdlePhase, IdleStepView) {
    let failed = match event {
        IdleEvent::Failed(e) => (IdlePhase::Failed, IdleStepView::Log(session_error(e@))),
        _ => (IdlePhase::Failed, IdleStepView::Log(session_error("unexpected event"@))),
    };
    match phase {
        IdlePhase::Begin => if event == IdleEvent::Stopped(false) {
            (IdlePhase::Token, IdleStepView::AskToken)
        } else {
            (IdlePhase::Ended, IdleStepView::End)
        },
        IdlePhase::Token => {
            let current = match event {
                IdleEvent::Token(Some(t)) => Some(t@),
                _ => None,
            };
            (
                IdlePhase::Connecting,
                IdleStepView::Connect(config, session_token(config, current)),
            )
        },
        IdlePhase::Connecting => if event is Done {
            (IdlePhase::Selecting, IdleStepView::Select(folder))
        } else {
            failed
        },
        IdlePhase::Selecting => if event is Done {
            (IdlePhase::Round, IdleStepView::AskStopped)
        } else {
            failed
        },
        IdlePhase::Round => if event == IdleEvent::Stopped(false) {
            (IdlePhase::Waiting, IdleStepView::Wait)
        } else {
            (IdlePhase::Leaving, IdleStepView::Logout)
        },
        IdlePhase::Waiting => match event {
            IdleEvent::Waited(changed) => if changed {
                (IdlePhase::Changed, IdleStepView::Changed)
            } else {
                (IdlePhase::Round, IdleStepView::AskStopped)
            },
            _ => failed,
        },
        IdlePhase::Changed => (IdlePhase::Round, IdleStepView::AskStopped),
        IdlePhase::Leaving => (IdlePhase::BackOff(0), IdleStepView::AskStopped),
        IdlePhase::Failed => (IdlePhase::BackOff(0), IdleStepView::AskStopped),
        IdlePhase::BackOff(n) => if event == IdleEvent::Stopped(false) {
            (IdlePhase::Sleeping(n), IdleStepView::Sleep)
        } else {
            (IdlePhase::Ended, IdleStepView::End)
        },
        IdlePhase::Sleeping(n) => if n + 1 < RECONNECT_DELAY {
            (IdlePhase::BackOff((n + 1) as u64), IdleStepView::AskStopped)
        } else {
            (IdlePhase::Begin, IdleStepView::AskStopped)
        },
        IdlePhase::Ended => (IdlePhase::Ended, IdleStepView::End),
    }
}

/// Whether `event` says that the watcher has not been stopped.
fn goes_on(event: &IdleEvent) -> (r: bool)
    ensures
        r == (*event == IdleEvent::Stopped(false)),
{
    match event {
        IdleEvent::Stopped(stopped) => !*stopped,
        _ => false,
    }
}

fn log_failure(event: IdleEvent) -> (r: IdleStep)
    ensures
        is_step(
            r,
            IdleStepView::Log(
                match event {
                    IdleEvent::Failed(e) => session_error(e@),
                    _ => session_error("unexpected event"@),
                },
            ),
        ),
{
    let mut out = text::chars("emailclient_idle: session error: ");
    match event {
        IdleEvent::Failed(e) => text::extend_str(&mut out, e.as_str()),
        _ => text::extend_str(&mut out, "unexpected event"),
    }
    IdleStep::Log(text::string(&out))
}

impl IdleLoop {
    /// The account that the watcher is of.
    pub closed spec fn config(&self) -> EmailClientConfig {
        self.config
    }

    /// The folder that it watches.
    pub closed spec fn folder(&self) -> Seq<char> {
        self.folder@
    }

    /// Where it is.
    pub closed spec fn phase(&self) -> IdlePhase {
        self.phase
    }

    /// A watcher of `folder`. The first thing it asks is whether it has been
    /// stopped.
    pub fn new(config: EmailClientConfig, folder: String) -> (r: IdleLoop)
        ensures
            r.config() == config,
            r.folder() == folder@,
            r.phase() == IdlePhase::Begin,
    {
        IdleLoop { config, folder, phase: IdlePhase::Begin }
    }

    fn session_config(&self, current: Option<String>) -> (r: EmailClientConfig)
        ensures
            is_step(
                IdleStep::Connect(r),
                IdleStepView::Connect(
                    self.config(),
                    session_token(
                        self.config(),
                        match current {
                            Some(t) => Some(t@),
                            None => None,
                        },
                    ),
                ),
            ),
    {
        let mut config = self.config.clone();
        if let Some(t) = current {
            if text::chars(t.as_str()).len() > 0 {
                config.oauth_access_token = t;
            }
        }
        config
    }

    /// `event` has come of the last step: what to do next.
    pub fn resume(&mut self, event: IdleEvent) -> (r: IdleStep)
        ensures
            final(self).config() == old(self).config(),
            final(self).folder() == old(self).folder(),
            ({
                let (phase, step) = idle_step(
                    old(self).config(),
                    old(self).folder(),
                    old(self).phase(),
                    event,
                );
                &&& final(self).phase() == phase
                &&& is_step(r, step)
            }),
    {
        match self.phase {
            IdlePhase::Begin => {
                if goes_on(&event) {
                    self.phase = IdlePhase::Token;
                    IdleStep::AskToken
                } else {
                    self.phase = IdlePhase::Ended;
                    IdleStep::End
                }
            },
            IdlePhase::Token => {
                let current = match event {
                    IdleEvent::Token(t) => t,
                    _ => None,
                };
                let config = self.session_config(current);
                self.phase = IdlePhase::Connecting;
                IdleStep::Connect(config)
            },
            IdlePhase::Connecting => match event {
                IdleEvent::Done => {
                    self.phase = IdlePhase::Selecting;
                    IdleStep::Select(self.folder.clone())
                },
                event => {
                    self.phase = IdlePhase::Failed;
                    log_failure(event)
                },
            },
            IdlePhase::Selecting => match event {
                IdleEvent::Done => {
                    self.phase = IdlePhase::Round;
                    IdleStep::AskStopped
                },
                event => {
                    self.phase = IdlePhase::Failed;
                    log_failure(event)
                },
            },
            IdlePhase::Round => {
                if goes_on(&event) {
                    self.phase = IdlePhase::Waiting;
                    IdleStep::Wait
                } else {
                    self.phase = IdlePhase::Leaving;
                    IdleStep::Logout
                }
            },
            IdlePhase::Waiting => match event {
                IdleEvent::Waited(true) => {
                    self.phase = IdlePhase::Changed;
                    IdleStep::Changed
                },
                IdleEvent::Waited(false) => {
                    self.phase = IdlePhase::Round;
                    IdleStep::AskStopped
                },
                event => {
                    self.phase = IdlePhase::Failed;
                    log_failure(event)
                },
            },
            IdlePhase::Changed => {
                self.phase = IdlePhase::Round;
                IdleStep::AskStopped
            },
            IdlePhase::Leaving => {
                self.phase = IdlePhase::BackOff(0);
                IdleStep::AskStopped
            },
            IdlePhase::Failed => {
                self.phase = IdlePhase::BackOff(0);
                IdleStep::AskStopped
            },
            IdlePhase::BackOff(n) => {
                if goes_on(&event) {
                    self.phase = IdlePhase::Sleeping(n);
                    IdleStep::Sleep
                } else {
                    self.phase = IdlePhase::Ended;
                    IdleStep::End
                }
            },
            IdlePhase::Sleeping(n) => {
                if n < RECONNECT_DELAY - 1 {
                    self.phase = IdlePhase::BackOff(n + 1);
                } else {
                    self.phase = IdlePhase::Begin;
                }
                IdleStep::AskStopped
            },
            IdlePhase::Ended => IdleStep::End,
        }
    }
}

// ---------------------------------------------------------------------------
// The task
// ---------------------------------------------------------------------------

/// A task that watches what it is told to.
#[derive(Debug)]
pub struct IdleTask {
    target: Option<(EmailClientConfig, String)>,
    token: String,
    /// Set when a watch or a stop arrived, so the session in progress ends.
    retarget: bool,
}

/// What a task knows.
pub struct TaskView {
    /// What to watch.
    pub target: Option<(EmailClientConfig, Seq<char>)>,
    pub token: Seq<char>,
    pub retarget: bool,
}

impl View for IdleTask {
    type V = TaskView;

    closed spec fn view(&self) -> TaskView {
        TaskView {
            target: match self.target {
                Some((config, folder)) => Some((config, folder@)),
                None => None,
            },
            token: self.token@,
            retarget: self.retarget,
        }
    }
}

/// What a task knows after `command`.
pub open spec fn commanded(v: TaskView, command: Command) -> TaskView {
    match command {
        Command::Watch { config, folder } => TaskView {
            target: Some((config, folder@)),
            token: config.oauth_access_token@,
            retarget: true,
        },
        Command::Stop => TaskView { target: None, retarget: true, ..v },
        Command::Token(t) => TaskView { token: t@, ..v },
    }
}

impl IdleTask {
    /// A task that watches nothing yet.
    pub fn new() -> (r: IdleTask)
        ensures
            r@ == (TaskView { target: None, token: seq![], retarget: false }),
    {
        let r = IdleTask { target: None, token: String::new(), retarget: false };
        assert(r@.token == Seq::<char>::empty());
        r
    }

    /// Do as `command` says.
    pub fn apply(&mut self, command: Command)
        ensures
            final(self)@ == commanded(old(self)@, command),
    {
        match command {
            Command::Watch { config, folder } => {
                self.token = config.oauth_access_token.clone();
                self.target = Some((config, folder));
                self.retarget = true;
            },
            Command::Stop => {
                self.target = None;
                self.retarget = true;
            },
            Command::Token(t) => {
                self.token = t;
            },
        }
    }

    /// What to watch next: `None` where there is nothing but to wait for a
    /// command.
    pub fn next_watch(&mut self) -> (r: Option<IdleLoop>)
        ensures
            final(self)@ == (TaskView { retarget: false, ..old(self)@ }),
            match r {
                Some(watcher) => old(self)@.target == Some((watcher.config(), watcher.folder()))
                    && watcher.phase() == IdlePhase::Begin,
                None => old(self)@.target is None,
            },
    {
        self.retarget = false;
        match &self.target {
            Some((config, folder)) => Some(IdleLoop::new(config.clone(), folder.clone())),
            None => None,
        }
    }

    /// Whether the session in progress is to end: the task is cancelled, or it
    /// is to watch something else.
    pub fn is_stopped(&self, cancelled: bool) -> (r: bool)
        ensures
            r == (cancelled || self@.retarget),
    {
        cancelled || self.retarget
    }

    /// The current access token.
    pub fn token(&self) -> (r: &str)
        ensures
            r@ == self@.token,
    {
        self.token.as_str()
    }
}

// ---------------------------------------------------------------------------
// Laws
// ---------------------------------------------------------------------------

/// A watcher says that the mailbox has changed when a round has found so, and
/// never otherwise.
pub proof fn law_only_a_change_is_told(
    config: EmailClientConfig,
    folder: Seq<char>,
    phase: IdlePhase,
    event: IdleEvent,
)
    ensures
        idle_step(config, folder, phase, event).1 is Changed <==> phase == IdlePhase::Waiting
            && event == IdleEvent::Waited(true),
{
}

/// A watcher waits, sleeps and opens sessions only when it has just been told
/// that it has not been stopped, but for the question for the access token
/// before a session; where it is told that it has, it ends, and a session that
/// is open is ended first.
pub proof fn law_a_stop_takes_effect_within_a_round(
    config: EmailClientConfig,
    folder: Seq<char>,
    phase: IdlePhase,
    event: IdleEvent,
)
    ensures
        ({
            let (next, step) = idle_step(config, folder, phase, event);
            &&& step is Wait || step is Sleep || step is AskToken ==> event == IdleEvent::Stopped(
                false,
            )
            &&& step is Connect ==> phase == IdlePhase::Token
            &&& next == IdlePhase::Token ==> step is AskToken
        }),
        ({
            let stopped = IdleEvent::Stopped(true);
            &&& phase == IdlePhase::Begin || phase is BackOff ==> idle_step(
                config,
                folder,
                phase,
                stopped,
            ) == (IdlePhase::Ended, IdleStepView::End)
            &&& phase == IdlePhase::Round ==> {
                let (leaving, logout) = idle_step(config, folder, phase, stopped);
                let (asking, _) = idle_step(config, folder, leaving, event);
                &&& logout is Logout
                &&& idle_step(config, folder, asking, stopped).1 is End
            }
        }),
{
}

/// A session that fails is not the end: the watcher sleeps for the delay, a
/// second at a time, and begins anew.
pub proof fn law_a_watcher_reconnects(
    config: EmailClientConfig,
    folder: Seq<char>,
    phase: IdlePhase,
    e: String,
    n: u64,
)
    requires
        phase == IdlePhase::Connecting || phase == IdlePhase::Selecting || phase
            == IdlePhase::Waiting,
        n < RECONNECT_DELAY,
    ensures
        idle_step(config, folder, phase, IdleEvent::Failed(e)) == (
            IdlePhase::Failed,
            IdleStepView::Log(session_error(e@)),
        ),
        idle_step(config, folder, IdlePhase::Failed, IdleEvent::Done).0 == IdlePhase::BackOff(0),
        idle_step(config, folder, IdlePhase::BackOff(n), IdleEvent::Stopped(false)) == (
            IdlePhase::Sleeping(n),
            IdleStepView::Sleep,
        ),
        idle_step(config, folder, IdlePhase::Sleeping(n), IdleEvent::Done).0 == (if n + 1
            == RECONNECT_DELAY {
            IdlePhase::Begin
        } else {
            IdlePhase::BackOff((n + 1) as u64)
        }),
{
}

/// The access token that a session signs in with is the one that is current
/// when it is opened: a refreshed one is picked up at the next reconnect.
pub proof fn law_a_refreshed_token_reaches_the_next_session(
    config: EmailClientConfig,
    folder: Seq<char>,
    token: String,
)
    requires
        token@.len() > 0,
    ensures
        idle_step(config, folder, IdlePhase::Token, IdleEvent::Token(Some(token))) == (
            IdlePhase::Connecting,
            IdleStepView::Connect(config, token@),
        ),
{
}

/// A watch or a stop ends the session in progress; a token alone does not.
pub proof fn law_a_new_target_ends_the_session(v: TaskView, command: Command)
    ensures
        !(command is Token) ==> commanded(v, command).retarget,
        command is Token ==> {
            &&& commanded(v, command).retarget == v.retarget
            &&& commanded(v, command).target == v.target
        },
{
}

/// The course of a watch that nothing goes wrong with: it asks for the access
/// token, signs in, selects its folder and waits round after round, and says
/// so when a round has found a change.
pub proof fn law_a_watch_takes_its_course(
    config: EmailClientConfig,
    folder: Seq<char>,
    token: Option<String>,
    changed: bool,
)
    ensures
        ({
            let goes_on = IdleEvent::Stopped(false);
            let (asking, first) = idle_step(config, folder, IdlePhase::Begin, goes_on);
            let (connecting, second) = idle_step(config, folder, asking, IdleEvent::Token(token));
            let (selecting, third) = idle_step(config, folder, connecting, IdleEvent::Done);
            let (round, fourth) = idle_step(config, folder, selecting, IdleEvent::Done);
            let (waiting, fifth) = idle_step(config, folder, round, goes_on);
            let (after, sixth) = idle_step(config, folder, waiting, IdleEvent::Waited(changed));
            &&& first is AskToken
            &&& second matches IdleStepView::Connect(account, _) && account == config
            &&& third == IdleStepView::Select(folder)
            &&& fourth is AskStopped
            &&& fifth is Wait
            &&& !changed ==> sixth is AskStopped && after == round
            &&& changed ==> sixth is Changed && idle_step(config, folder, after, IdleEvent::Done)
                == (round, IdleStepView::AskStopped)
        }),
{
}

/// A session signs in with the current access token, and with the account's
/// own where there is no current one or it is empty.
pub proof fn law_a_session_never_signs_in_without_a_token(
    config: EmailClientConfig,
    folder: Seq<char>,
    token: String,
)
    ensures
        idle_step(config, folder, IdlePhase::Token, IdleEvent::Token(None)).1
            == IdleStepView::Connect(config, config.oauth_access_token@),
        idle_step(config, folder, IdlePhase::Token, IdleEvent::Token(Some(token))).1
            == IdleStepView::Connect(
            config,
            if token@.len() == 0 {
                config.oauth_access_token@
            } else {
                token@
            },
        ),
{
}

/// Why a session failed is logged in full, and the watcher waits ten seconds
/// before it begins anew.
pub proof fn law_a_failure_is_logged_and_waited_out(e: Seq<char>)
    ensures
        session_error(e).len() >= e.len(),
        session_error(e).skip(session_error(e).len() - e.len()) == e,
        RECONNECT_DELAY == 10,
{
}

/// A watch is the same as another exactly where its folder, its server and its
/// account are.
pub proof fn law_a_watch_is_known_by_what_it_watches(
    a: EmailClientConfig,
    b: EmailClientConfig,
    folder: Seq<char>,
    other: Seq<char>,
)
    ensures
        watch_key(a, folder) == watch_key(b, other) <==> folder == other && a.imap_url@
            == b.imap_url@ && a.username@ == b.username@,
{
}

/// Only the task that watches is listened to. That it emits `changed` means
/// that the mailbox has changed, and anything else that it emits means
/// nothing; that it is done means that it has ended.
pub proof fn law_the_watching_task_is_listened_to(
    v: IdleView,
    id: u64,
    bytes: Vec<u8>,
    done: Result<Vec<u8>, String>,
)
    ensures
        v.task != Some(id) ==> {
            &&& news_of(v, id, TaskEvent::Progress(bytes)) == IdleNews::NotOurs
            &&& news_of(v, id, TaskEvent::Done(done)) == IdleNews::NotOurs
        },
        v.task == Some(id) ==> {
            &&& news_of(v, id, TaskEvent::Done(done)) == IdleNews::Ended
            &&& bytes@ == seq![99u8, 104u8, 97u8, 110u8, 103u8, 101u8, 100u8] ==> news_of(
                v,
                id,
                TaskEvent::Progress(bytes),
            ) == IdleNews::Changed
            &&& bytes@ != seq![99u8, 104u8, 97u8, 110u8, 103u8, 101u8, 100u8] ==> news_of(
                v,
                id,
                TaskEvent::Progress(bytes),
            ) == IdleNews::Nothing
        },
{
    reveal_strlit("changed");
    let s = CHANGED@;
    assert(s.len() == 7);
    assert(s[0] == 'c' && s[1] == 'h' && s[2] == 'a' && s[3] == 'n' && s[4] == 'g' && s[5] == 'e'
        && s[6] == 'd');
    assert(is_ascii_chars(s));
    is_ascii_chars_encode_utf8(s);
    assert(encode_utf8(s) == seq![99u8, 104u8, 97u8, 110u8, 103u8, 101u8, 100u8]);
}

/// A task watches what it was last told to watch, signs in with the token it
/// was last told, and watches nothing once it is told to stop.
pub proof fn law_a_task_does_what_it_was_last_told(
    v: TaskView,
    config: EmailClientConfig,
    folder: String,
    token: String,
)
    ensures
        commanded(v, Command::Watch { config, folder }).target == Some((config, folder@)),
        commanded(v, Command::Watch { config, folder }).token == config.oauth_access_token@,
        commanded(v, Command::Stop).target is None,
        commanded(v, Command::Stop).token == v.token,
        commanded(v, Command::Token(token)).token == token@,
{
}

/// That messages came or went is a change of the mailbox. What a server says
/// to keep the connection alive is none, and neither is anything else.
pub proof fn law_a_keepalive_is_no_change(response: UnsolicitedResponse, r: bool)
    requires
        call_ensures(is_mailbox_change, (&response,), r),
    ensures
        response is Exists || response is Expunge || response is Vanished ==> r,
        response is Notice || response is Bye || response is Fetch || response is Flags
            || response is Metadata || response is Recent || response is Status
            || response is Other ==> !r,
{
}

/// A command goes to the task that watches, where there is one; else a watch
/// starts one, and anything else is dropped.
pub proof fn law_only_a_watch_starts_a_task(c: IdleController, command: Command, r: Telling)
    requires
        call_ensures(IdleController::tell, (&c, &command), r),
    ensures
        c@.task matches Some(id) ==> r == Telling::Send(id),
        c@.task is None && command is Watch ==> r == Telling::Spawn,
        c@.task is None && !(command is Watch) ==> r == Telling::Drop,
{
}

} // verus!
