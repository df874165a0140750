//! A minimal IMAP client that hands back server responses verbatim.
//!
//! It exists for one extension, THREAD, whose responses the `imap` crate
//! cannot decode. It speaks only what THREAD needs: signing in, `CAPABILITY`,
//! `SELECT` and `UID THREAD`. Responses are read line by line, which is safe
//! because none of those commands can return a literal.
//!
//! The client does no I/O. It says what to send, and is told what was read.

use crate::codec;
use crate::connection;
use crate::connection::Login;
use crate::connection::LoginView;
use crate::text;
use crate::thread;
use crate::types::EmailClientConfig;
use vstd::prelude::*;
use vstd::slice::slice_subrange;
use vstd::utf8::*;

verus! {

/// What the client is waiting to read.
#[derive(Debug)]
enum Phase {
    /// Nothing.
    Ready,
    /// The server's greeting, to sign in after it.
    Greeting(Login),
    /// Leave to send `payload`, for the command `tag`.
    Challenge { tag: String, payload: String },
    /// The completion of the command `tag`; `untagged` came before it.
    Tagged { tag: String, untagged: Vec<String> },
}

/// What the client is waiting to read.
pub enum PhaseView {
    Ready,
    Greeting(LoginView),
    Challenge(Seq<char>, Seq<char>),
    Tagged(Seq<char>, Seq<Seq<char>>),
}

/// A connection to an IMAP server for the THREAD extension.
#[derive(Debug)]
pub struct RawImap {
    tag: u32,
    caps: Option<Vec<String>>,
    phase: Phase,
}

/// What a client remembers.
pub struct RawView {
    /// How many commands it has sent.
    pub tag: u32,
    /// The capabilities the server gave, in upper case.
    pub caps: Option<Seq<Seq<char>>>,
    pub phase: PhaseView,
}

impl View for RawImap {
    type V = RawView;

    closed spec fn view(&self) -> RawView {
        RawView {
            tag: self.tag,
            caps: match self.caps {
                Some(caps) => Some(text::string_views(caps@)),
                None => None,
            },
            phase: match self.phase {
                Phase::Ready => PhaseView::Ready,
                Phase::Greeting(login) => PhaseView::Greeting(login@),
                Phase::Challenge { tag, payload } => PhaseView::Challenge(tag@, payload@),
                Phase::Tagged { tag, untagged } => PhaseView::Tagged(
                    tag@,
                    text::string_views(untagged@),
                ),
            },
        }
    }
}

/// What a client does next.
#[derive(Debug, Clone)]
pub enum RawNext {
    /// Send this, then read a line.
    Send(String),
    /// Read a line.
    Read,
    /// The command is complete: these are its untagged lines.
    Done(Vec<String>),
    /// The connection is of no more use.
    Failed(String),
}

/// What a client does next.
pub enum RawNextView {
    Send(Seq<char>),
    Read,
    Done(Seq<Seq<char>>),
    Failed(Seq<char>),
}

impl View for RawNext {
    type V = RawNextView;

    open spec fn view(&self) -> RawNextView {
        match self {
            RawNext::Send(s) => RawNextView::Send(s@),
            RawNext::Read => RawNextView::Read,
            RawNext::Done(lines) => RawNextView::Done(text::string_views(lines@)),
            RawNext::Failed(e) => RawNextView::Failed(e@),
        }
    }
}

/// The tag that follows the command number `n`.
pub open spec fn next_tag_number(n: u32) -> u32 {
    if n == u32::MAX {
        0
    } else {
        (n + 1) as u32
    }
}

/// The tag of the command number `n`.
pub open spec fn tag_text(n: u32) -> Seq<char> {
    "t"@ + text::decimal(n as nat)
}

/// `raw` once it has been told to send `command`.
pub open spec fn commanded(raw: RawView) -> RawView {
    RawView {
        tag: next_tag_number(raw.tag),
        caps: raw.caps,
        phase: PhaseView::Tagged(tag_text(next_tag_number(raw.tag)), seq![]),
    }
}

/// The line that sends `command` from `raw`.
pub open spec fn command_line(raw: RawView, command: Seq<char>) -> Seq<char> {
    tag_text(next_tag_number(raw.tag)) + " "@ + command + "\r\n"@
}

/// The LOGIN command.
pub open spec fn login_command(user: Seq<char>, password: Seq<char>) -> Seq<char> {
    "LOGIN "@ + connection::quoted(user) + " "@ + connection::quoted(password)
}

/// What `raw` does with the line `line`, and how it goes on.
pub open spec fn on_line(raw: RawView, line: Seq<char>) -> (RawView, RawNextView) {
    match raw.phase {
        PhaseView::Ready => (raw, RawNextView::Done(seq![])),
        PhaseView::Greeting(login) => if text::begins(line, "* OK"@) {
            match login {
                LoginView::Password(user, password) => (
                    commanded(raw),
                    RawNextView::Send(command_line(raw, login_command(user, password))),
                ),
                LoginView::XOAuth2(user, token) => {
                    let n = next_tag_number(raw.tag);
                    (
                        RawView {
                            tag: n,
                            phase: PhaseView::Challenge(
                                tag_text(n),
                                connection::xoauth2_text(user, token),
                            ),
                            ..raw
                        },
                        RawNextView::Send(tag_text(n) + " AUTHENTICATE XOAUTH2\r\n"@),
                    )
                },
            }
        } else {
            (raw, RawNextView::Failed("unexpected IMAP greeting: "@ + line))
        },
        PhaseView::Challenge(tag, payload) => if text::begins(line, "+"@) {
            (
                RawView { phase: PhaseView::Tagged(tag, seq![]), ..raw },
                RawNextView::Send(codec::base64_text(encode_utf8(payload)) + "\r\n"@),
            )
        } else {
            (raw, RawNextView::Failed("server refused XOAUTH2: "@ + line))
        },
        PhaseView::Tagged(tag, untagged) => {
            let mark = tag + " "@;
            if !text::begins(line, mark) {
                (
                    RawView { phase: PhaseView::Tagged(tag, untagged.push(line)), ..raw },
                    RawNextView::Read,
                )
            } else if text::begins(line.skip(mark.len() as int), "OK"@) {
                (RawView { phase: PhaseView::Ready, ..raw }, RawNextView::Done(untagged))
            } else {
                (raw, RawNextView::Failed(line.skip(mark.len() as int)))
            }
        },
    }
}

/// `bytes` without the line breaks at its end.
pub open spec fn without_line_end(bytes: Seq<u8>) -> Seq<u8>
    decreases bytes.len(),
{
    if bytes.len() > 0 && (bytes.last() == 13 || bytes.last() == 10) {
        without_line_end(bytes.drop_last())
    } else {
        bytes
    }
}

/// What `raw` does with `bytes`, one line with its line break; no bytes where
/// the server has closed the connection.
pub open spec fn on_bytes(raw: RawView, bytes: Seq<u8>) -> (RawView, RawNextView) {
    if bytes.len() == 0 {
        (raw, RawNextView::Failed("connection closed by server"@))
    } else {
        on_line(raw, codec::lossy_text(without_line_end(bytes)))
    }
}

fn strip_line_end(bytes: &[u8]) -> (r: &[u8])
    ensures
        r@ == without_line_end(bytes@),
{
    let mut i: usize = bytes.len();
    assert(bytes@.take(i as int) == bytes@);
    while i > 0 && (bytes[i - 1] == 13 || bytes[i - 1] == 10)
        invariant
            i <= bytes@.len(),
            without_line_end(bytes@) == without_line_end(bytes@.take(i as int)),
        decreases i,
    {
        assert(bytes@.take(i as int).drop_last() == bytes@.take(i - 1));
        i = i - 1;
    }
    slice_subrange(bytes, 0, i)
}

fn failed(what: &str, line: &[char]) -> (r: RawNext)
    ensures
        r@ == RawNextView::Failed(what@ + line@),
{
    let mut out = text::chars(what);
    text::extend(&mut out, line);
    RawNext::Failed(text::string(&out))
}

impl RawImap {
    /// A connection that is about to be opened, to sign in as `config` says.
    /// The first thing to read is the server's greeting.
    pub fn connect(config: &EmailClientConfig) -> (r: RawImap)
        ensures
            r@ == (RawView {
                tag: 0,
                caps: None,
                phase: PhaseView::Greeting(connection::login_of(*config)),
            }),
    {
        RawImap { tag: 0, caps: None, phase: Phase::Greeting(connection::login_for(config)) }
    }

    fn next_tag(&mut self) -> (r: String)
        ensures
            r@ == tag_text(next_tag_number(old(self).tag)),
            final(self).tag == next_tag_number(old(self).tag),
            final(self).caps == old(self).caps,
            final(self).phase == old(self).phase,
    {
        self.tag = if self.tag == u32::MAX {
            0
        } else {
            self.tag + 1
        };
        let mut out = text::chars("t");
        text::extend(&mut out, &text::to_decimal(self.tag as u64));
        text::string(&out)
    }

    /// Send `command`: the line to send, after which a line is to be read.
    pub fn command(&mut self, command: &str) -> (r: String)
        ensures
            r@ == command_line(old(self)@, command@),
            final(self)@ == commanded(old(self)@),
    {
        let tag = self.next_tag();
        let mut out = text::chars(tag.as_str());
        text::extend_str(&mut out, " ");
        text::extend_str(&mut out, command);
        text::extend_str(&mut out, "\r\n");
        let untagged: Vec<String> = Vec::new();
        assert(text::string_views(untagged@) == Seq::<Seq<char>>::empty());
        self.phase = Phase::Tagged { tag, untagged };
        text::string(&out)
    }

    fn sign_in(&mut self, login: &Login) -> (r: RawNext)
        ensures
            match login@ {
                LoginView::Password(user, password) => {
                    &&& final(self)@ == commanded(old(self)@)
                    &&& r@ == RawNextView::Send(
                        command_line(old(self)@, login_command(user, password)),
                    )
                },
                LoginView::XOAuth2(user, token) => {
                    let n = next_tag_number(old(self)@.tag);
                    &&& final(self)@ == (RawView {
                        tag: n,
                        phase: PhaseView::Challenge(
                            tag_text(n),
                            connection::xoauth2_text(user, token),
                        ),
                        ..old(self)@
                    })
                    &&& r@ == RawNextView::Send(tag_text(n) + " AUTHENTICATE XOAUTH2\r\n"@)
                },
            },
    {
        match login {
            Login::Password { username, password } => {
                let mut out = text::chars("LOGIN ");
                text::extend_str(&mut out, connection::quote(username.as_str()).as_str());
                text::extend_str(&mut out, " ");
                text::extend_str(&mut out, connection::quote(password.as_str()).as_str());
                let line = self.command(text::string(&out).as_str());
                RawNext::Send(line)
            },
            Login::XOAuth2(auth) => {
                let tag = self.next_tag();
                let mut out = text::chars(tag.as_str());
                text::extend_str(&mut out, " AUTHENTICATE XOAUTH2\r\n");
                let payload = connection::xoauth2_payload(auth.user.as_str(), auth.token.as_str());
                self.phase = Phase::Challenge { tag, payload };
                RawNext::Send(text::string(&out))
            },
        }
    }

    /// The line `line` was read. Where it is leave to send the credentials,
    /// what is sent is base64 that decodes to them.
    pub fn read_text(&mut self, line: &str) -> (r: RawNext)
        ensures
            (final(self)@, r@) == on_line(old(self)@, line@),
            old(self)@.phase matches PhaseView::Challenge(_, payload) ==> text::begins(line@, "+"@)
                ==> codec::base64_bytes(encode_utf8(codec::base64_text(encode_utf8(payload))))
                == Some(encode_utf8(payload)),
    {
        let chars = text::chars(line);
        let mut phase = Phase::Ready;
        let ghost before = self@;
        std::mem::swap(&mut self.phase, &mut phase);
        match phase {
            Phase::Ready => {
                let none: Vec<String> = Vec::new();
                assert(text::string_views(none@) == Seq::<Seq<char>>::empty());
                RawNext::Done(none)
            },
            Phase::Greeting(login) => {
                if text::starts_with(&chars, "* OK") {
                    self.sign_in(&login)
                } else {
                    self.phase = Phase::Greeting(login);
                    failed("unexpected IMAP greeting: ", &chars)
                }
            },
            Phase::Challenge { tag, payload } => {
                if text::starts_with(&chars, "+") {
                    let untagged: Vec<String> = Vec::new();
                    assert(text::string_views(untagged@) == Seq::<Seq<char>>::empty());
                    self.phase = Phase::Tagged { tag, untagged };
                    let mut out = text::chars(codec::b64(payload.as_str().as_bytes()).as_str());
                    text::extend_str(&mut out, "\r\n");
                    RawNext::Send(text::string(&out))
                } else {
                    self.phase = Phase::Challenge { tag, payload };
                    failed("server refused XOAUTH2: ", &chars)
                }
            },
            Phase::Tagged { tag, mut untagged } => {
                let mut mark = text::chars(tag.as_str());
                text::extend_str(&mut mark, " ");
                let mark = text::string(&mark);
                match text::strip_prefix(&chars, mark.as_str()) {
                    Some(status) => {
                        if text::starts_with(status, "OK") {
                            RawNext::Done(untagged)
                        } else {
                            self.phase = Phase::Tagged { tag, untagged };
                            RawNext::Failed(text::string(status))
                        }
                    },
                    None => {
                        let ghost lines = text::string_views(untagged@);
                        untagged.push(line.to_owned());
                        assert(text::string_views(untagged@) == lines.push(line@));
                        self.phase = Phase::Tagged { tag, untagged };
                        RawNext::Read
                    },
                }
            },
        }
    }

    /// `bytes` were read: one line with its line break, or nothing where the
    /// server has closed the connection.
    pub fn read_line(&mut self, bytes: &[u8]) -> (r: RawNext)
        ensures
            (final(self)@, r@) == on_bytes(old(self)@, bytes@),
            bytes@.len() > 0 && valid_utf8(without_line_end(bytes@)) ==> (final(self)@, r@)
                == on_line(old(self)@, decode_utf8(without_line_end(bytes@))),
    {
        if bytes.len() == 0 {
            return RawNext::Failed("connection closed by server".to_owned());
        }
        let line = codec::from_utf8_lossy(strip_line_end(bytes));
        self.read_text(line.as_str())
    }

    /// The capabilities the server has given, in upper case.
    pub fn capabilities(&self) -> (r: Option<&Vec<String>>)
        ensures
            match r {
                Some(caps) => self@.caps == Some(text::string_views(caps@)),
                None => self@.caps is None,
            },
    {
        match &self.caps {
            Some(caps) => Some(caps),
            None => None,
        }
    }

    fn learn_capabilities(&mut self, lines: &Vec<String>)
        ensures
            final(self)@ == (RawView {
                caps: Some(capabilities_in(text::string_views(lines@))),
                ..old(self)@
            }),
    {
        self.caps = Some(parse_capabilities(lines));
    }
}

// ---------------------------------------------------------------------------
// Fetching threads
// ---------------------------------------------------------------------------

/// `words` in upper case.
pub open spec fn upper_words(words: Seq<Seq<char>>) -> Seq<Seq<char>> {
    Seq::new(words.len(), |i: int| codec::uppercased(words[i]))
}

/// The capabilities that the response `lines` give: the words of the first
/// CAPABILITY line, in upper case.
pub open spec fn capabilities_in(lines: Seq<Seq<char>>) -> Seq<Seq<char>> {
    match thread::after_first(lines, "* CAPABILITY "@) {
        Some(rest) => upper_words(text::word_seq(rest)),
        None => seq![],
    }
}

/// The capabilities that the response `lines` give.
pub fn parse_capabilities(lines: &Vec<String>) -> (r: Vec<String>)
    ensures
        text::string_views(r@) == capabilities_in(text::string_views(lines@)),
        thread::after_first(text::string_views(lines@), "* CAPABILITY "@) matches Some(rest) ==> forall|
            i: int,
        |
            0 <= i < r@.len() && is_ascii_chars(text::word_seq(rest)[i]) ==> (#[trigger] r@[i])@
                == codec::ascii_uppercased(text::word_seq(rest)[i]),
{
    let mut out: Vec<String> = Vec::new();
    let lines = text::char_lists(lines);
    match thread::find_after(&lines, "* CAPABILITY ") {
        Some(rest) => {
            let words = text::words(&rest);
            let ghost all = text::views(words@);
            let mut i: usize = 0;
            while i < words.len()
                invariant
                    i <= words@.len(),
                    all == text::views(words@),
                    out@.len() == i,
                    forall|k: int| 0 <= k < i ==> (#[trigger] out@[k])@ == codec::uppercased(all[k]),
                    forall|k: int|
                        0 <= k < i && is_ascii_chars(all[k]) ==> (#[trigger] out@[k])@
                            == codec::ascii_uppercased(all[k]),
                decreases words@.len() - i,
            {
                let word = text::string(&words[i]);
                out.push(word.as_str().to_uppercase());
                i = i + 1;
            }
            assert(text::string_views(out@) == upper_words(all));
        },
        None => {
            assert(text::string_views(out@) == Seq::<Seq<char>>::empty());
        },
    }
    out
}

/// How a server can thread.
#[derive(Debug, PartialEq, Eq, Structural, Clone, Copy)]
pub enum Algorithm {
    References,
    OrderedSubject,
}

/// The name of `algorithm`.
pub open spec fn algorithm_name(algorithm: Algorithm) -> Seq<char> {
    match algorithm {
        Algorithm::References => "REFERENCES"@,
        Algorithm::OrderedSubject => "ORDEREDSUBJECT"@,
    }
}

/// The best way to thread that a server with the capabilities `caps` has.
pub open spec fn algorithm_of(caps: Seq<Seq<char>>) -> Option<Algorithm> {
    if caps.contains("THREAD=REFERENCES"@) {
        Some(Algorithm::References)
    } else if caps.contains("THREAD=ORDEREDSUBJECT"@) {
        Some(Algorithm::OrderedSubject)
    } else {
        None
    }
}

fn has_capability(caps: &Vec<String>, name: &str) -> (r: bool)
    ensures
        r == text::string_views(caps@).contains(name@),
{
    let wanted = text::chars(name);
    let ghost all = text::string_views(caps@);
    let mut i: usize = 0;
    while i < caps.len()
        invariant
            i <= caps@.len(),
            wanted@ == name@,
            all == text::string_views(caps@),
            forall|k: int| 0 <= k < i ==> #[trigger] all[k] != name@,
        decreases caps@.len() - i,
    {
        if text::same_str(&wanted, caps[i].as_str()) {
            assert(all[i as int] == name@);
            return true;
        }
        i = i + 1;
    }
    false
}

/// The best way to thread that a server with the capabilities `caps` has.
pub fn choose_algorithm(caps: &Vec<String>) -> (r: Option<Algorithm>)
    ensures
        r == algorithm_of(text::string_views(caps@)),
{
    if has_capability(caps, "THREAD=REFERENCES") {
        Some(Algorithm::References)
    } else if has_capability(caps, "THREAD=ORDEREDSUBJECT") {
        Some(Algorithm::OrderedSubject)
    } else {
        None
    }
}

/// The command that selects `folder`.
pub open spec fn select_command(folder: Seq<char>) -> Seq<char> {
    "SELECT "@ + connection::quoted(folder)
}

/// The command that threads the selected folder.
pub open spec fn thread_command(algorithm: Algorithm) -> Seq<char> {
    "UID THREAD "@ + algorithm_name(algorithm) + " UTF-8 ALL"@
}

/// How far the fetching of threads has come.
#[derive(Debug, PartialEq, Eq, Structural, Clone, Copy)]
pub enum ThreadStage {
    SigningIn,
    Capabilities,
    Selecting(Algorithm),
    Threading,
}

/// What the fetching of threads does next.
#[derive(Debug)]
pub enum ThreadNext {
    /// Send this, then read a line.
    Send(String),
    /// Read a line.
    Read,
    /// There they are; `None` where the server cannot thread.
    Finished(Option<Vec<Vec<u32>>>),
    /// It failed, and the connection is of no more use.
    Failed(String),
}

/// What the fetching of threads does next.
pub enum ThreadNextView {
    Send(Seq<char>),
    Read,
    Finished(Option<Seq<Seq<u32>>>),
    Failed(Seq<char>),
}

impl View for ThreadNext {
    type V = ThreadNextView;

    open spec fn view(&self) -> ThreadNextView {
        match self {
            ThreadNext::Send(s) => ThreadNextView::Send(s@),
            ThreadNext::Read => ThreadNextView::Read,
            ThreadNext::Finished(threads) => ThreadNextView::Finished(
                match threads {
                    Some(t) => Some(thread::thread_views(t@)),
                    None => None,
                },
            ),
            ThreadNext::Failed(e) => ThreadNextView::Failed(e@),
        }
    }
}

/// The next command of the fetching of threads in `folder`, by a client that
/// has signed in: to learn what the server can do, if that is not known, and
/// else to select the folder, if the server can thread.
pub open spec fn signed_in(raw: RawView, folder: Seq<char>) -> (
    RawView,
    ThreadStage,
    ThreadNextView,
) {
    match raw.caps {
        Some(caps) => match algorithm_of(caps) {
            Some(algorithm) => (
                commanded(raw),
                ThreadStage::Selecting(algorithm),
                ThreadNextView::Send(command_line(raw, select_command(folder))),
            ),
            None => (raw, ThreadStage::Capabilities, ThreadNextView::Finished(None)),
        },
        None => (
            commanded(raw),
            ThreadStage::Capabilities,
            ThreadNextView::Send(command_line(raw, "CAPABILITY"@)),
        ),
    }
}

/// What the fetching of threads in `folder` does once the command of `stage`
/// has completed with the untagged lines `lines`.
pub open spec fn completed(
    raw: RawView,
    folder: Seq<char>,
    stage: ThreadStage,
    lines: Seq<Seq<char>>,
) -> (RawView, ThreadStage, ThreadNextView) {
    match stage {
        ThreadStage::SigningIn => signed_in(raw, folder),
        ThreadStage::Capabilities => signed_in(
            (RawView { caps: Some(capabilities_in(lines)), ..raw }),
            folder,
        ),
        ThreadStage::Selecting(algorithm) => (
            commanded(raw),
            ThreadStage::Threading,
            ThreadNextView::Send(command_line(raw, thread_command(algorithm))),
        ),
        ThreadStage::Threading => (
            raw,
            stage,
            ThreadNextView::Finished(
                Some(thread::threads_in(thread::thread_data(text::joined(lines, "\r\n"@)))),
            ),
        ),
    }
}

/// What the fetching of threads in `folder` does when `bytes` were read.
pub open spec fn thread_step(raw: RawView, folder: Seq<char>, stage: ThreadStage, bytes: Seq<u8>) -> (
    RawView,
    ThreadStage,
    ThreadNextView,
) {
    let (after, next) = on_bytes(raw, bytes);
    match next {
        RawNextView::Send(line) => (after, stage, ThreadNextView::Send(line)),
        RawNextView::Read => (after, stage, ThreadNextView::Read),
        RawNextView::Failed(e) => (after, stage, ThreadNextView::Failed(e)),
        RawNextView::Done(lines) => completed(after, folder, stage, lines),
    }
}

impl RawImap {
    /// Fetch the threads of `folder` on a connection that has signed in.
    pub fn start_threads(&mut self, folder: &str) -> (r: (ThreadStage, ThreadNext))
        ensures
            (final(self)@, r.0, r.1@) == signed_in(old(self)@, folder@),
    {
        let algorithm = match self.capabilities() {
            Some(caps) => match choose_algorithm(caps) {
                Some(algorithm) => algorithm,
                None => return (ThreadStage::Capabilities, ThreadNext::Finished(None)),
            },
            None => {
                let line = self.command("CAPABILITY");
                return (ThreadStage::Capabilities, ThreadNext::Send(line));
            },
        };
        let mut out = text::chars("SELECT ");
        text::extend_str(&mut out, connection::quote(folder).as_str());
        let line = self.command(text::string(&out).as_str());
        (ThreadStage::Selecting(algorithm), ThreadNext::Send(line))
    }

    /// Thread the selected folder: the line to send.
    pub fn uid_thread(&mut self, algorithm: Algorithm) -> (r: String)
        ensures
            r@ == command_line(old(self)@, thread_command(algorithm)),
            final(self)@ == commanded(old(self)@),
    {
        let mut out = text::chars("UID THREAD ");
        match algorithm {
            Algorithm::References => text::extend_str(&mut out, "REFERENCES"),
            Algorithm::OrderedSubject => text::extend_str(&mut out, "ORDEREDSUBJECT"),
        }
        text::extend_str(&mut out, " UTF-8 ALL");
        self.command(text::string(&out).as_str())
    }

    /// The command of `stage` has completed with the untagged lines `lines`.
    pub fn complete(&mut self, folder: &str, stage: ThreadStage, lines: &Vec<String>) -> (r: (
        ThreadStage,
        ThreadNext,
    ))
        ensures
            (final(self)@, r.0, r.1@) == completed(
                old(self)@,
                folder@,
                stage,
                text::string_views(lines@),
            ),
    {
        match stage {
            ThreadStage::SigningIn => self.start_threads(folder),
            ThreadStage::Capabilities => {
                self.learn_capabilities(lines);
                self.start_threads(folder)
            },
            ThreadStage::Selecting(algorithm) => {
                let line = self.uid_thread(algorithm);
                (ThreadStage::Threading, ThreadNext::Send(line))
            },
            ThreadStage::Threading => {
                let response = text::string(&text::join(&text::char_lists(lines), "\r\n"));
                let threads = thread::parse_thread_response(response.as_str());
                (stage, ThreadNext::Finished(Some(threads)))
            },
        }
    }

    /// Go on fetching the threads of `folder`: `bytes` were read, one line
    /// with its line break, or nothing where the server has closed the
    /// connection.
    pub fn step_threads(&mut self, folder: &str, stage: ThreadStage, bytes: &[u8]) -> (r: (
        ThreadStage,
        ThreadNext,
    ))
        ensures
            (final(self)@, r.0, r.1@) == thread_step(old(self)@, folder@, stage, bytes@),
    {
        match self.read_line(bytes) {
            RawNext::Send(line) => (stage, ThreadNext::Send(line)),
            RawNext::Read => (stage, ThreadNext::Read),
            RawNext::Failed(e) => (stage, ThreadNext::Failed(e)),
            RawNext::Done(lines) => self.complete(folder, stage, &lines),
        }
    }
}

// ---------------------------------------------------------------------------
// Laws
// ---------------------------------------------------------------------------

/// What a server can do is asked for once: whatever is read, what is known of
/// it stays known, and a client that knows it goes on to select the folder.
pub proof fn law_capabilities_are_asked_for_once(
    raw: RawView,
    folder: Seq<char>,
    stage: ThreadStage,
    bytes: Seq<u8>,
)
    requires
        raw.caps is Some,
    ensures
        signed_in(raw, folder).0.caps == raw.caps,
        signed_in(raw, folder).2 matches ThreadNextView::Send(line) ==> line == command_line(
            raw,
            select_command(folder),
        ),
        thread_step(raw, folder, stage, bytes).0.caps is Some,
        stage != ThreadStage::Capabilities ==> thread_step(raw, folder, stage, bytes).0.caps
            == raw.caps,
{
}

/// A server that cannot thread is no failure: there are no threads, and
/// nothing is sent.
pub proof fn law_a_server_that_cannot_thread_has_none(raw: RawView, folder: Seq<char>)
    requires
        raw.caps matches Some(caps) && !caps.contains("THREAD=REFERENCES"@) && !caps.contains(
            "THREAD=ORDEREDSUBJECT"@,
        ),
    ensures
        signed_in(raw, folder).0 == raw,
        signed_in(raw, folder).2 == ThreadNextView::Finished(None),
{
}

/// What a client that has read all of `lines`, one after another, has come to.
pub open spec fn after_lines(raw: RawView, lines: Seq<Seq<char>>) -> RawView
    decreases lines.len(),
{
    if lines.len() == 0 {
        raw
    } else {
        on_line(after_lines(raw, lines.drop_last()), lines.last()).0
    }
}

/// A response is all the lines up to the one that carries the command's tag:
/// with an `OK` they are what the command came to, and with anything else the
/// command failed, and why follows the tag.
pub proof fn law_a_response_ends_at_its_tag(
    raw: RawView,
    tag: Seq<char>,
    lines: Seq<Seq<char>>,
    rest: Seq<char>,
)
    requires
        raw.phase == PhaseView::Tagged(tag, Seq::empty()),
        forall|i: int| 0 <= i < lines.len() ==> !text::begins(#[trigger] lines[i], tag + " "@),
    ensures
        after_lines(raw, lines) == (RawView { phase: PhaseView::Tagged(tag, lines), ..raw }),
        on_line(after_lines(raw, lines), tag + " OK"@ + rest) == (
            RawView { phase: PhaseView::Ready, ..raw },
            RawNextView::Done(lines),
        ),
        !text::begins(rest, "OK"@) ==> on_line(after_lines(raw, lines), tag + " "@ + rest).1
            == RawNextView::Failed(rest),
    decreases lines.len(),
{
    if lines.len() > 0 {
        let less = lines.drop_last();
        assert forall|i: int| 0 <= i < less.len() implies !text::begins(
            #[trigger] less[i],
            tag + " "@,
        ) by {
            assert(less[i] == lines[i]);
        }
        law_a_response_ends_at_its_tag(raw, tag, less, rest);
        assert(!text::begins(lines[lines.len() - 1], tag + " "@));
        assert(less.push(lines.last()) == lines);
    } else {
        assert(lines == Seq::<Seq<char>>::empty());
    }
    reveal_strlit(" ");
    reveal_strlit("OK");
    reveal_strlit(" OK");
    let mark = tag + " "@;
    assert(tag + " OK"@ + rest == mark + ("OK"@ + rest));
    text::law_a_prefix_and_the_rest(rest, mark, "OK"@ + rest);
    text::law_a_prefix_and_the_rest(rest, "OK"@, rest);
    text::law_a_prefix_and_the_rest(rest, mark, rest);
}

/// A command is sent under a tag of its own, which is the one that its
/// completion is awaited under. The next command gets another one.
pub proof fn law_a_command_is_awaited_under_its_tag(raw: RawView, command: Seq<char>)
    ensures
        ({
            let tag = tag_text(commanded(raw).tag);
            &&& commanded(raw).phase == PhaseView::Tagged(tag, Seq::<Seq<char>>::empty())
            &&& command_line(raw, command) == tag + " "@ + command + "\r\n"@
            &&& tag != tag_text(raw.tag)
            &&& tag_text(commanded(commanded(raw)).tag) != tag
            &&& commanded(raw).caps == raw.caps
        }),
        raw.tag < u32::MAX ==> commanded(raw).tag == raw.tag + 1,
{
    let n = raw.tag;
    let m = next_tag_number(n);
    lemma_tags_differ(n, m);
    lemma_tags_differ(m, next_tag_number(m));
}

proof fn lemma_tags_differ(n: u32, m: u32)
    requires
        n != m,
    ensures
        tag_text(n) != tag_text(m),
{
    text::lemma_decimal_reads_back(n as nat);
    text::lemma_decimal_reads_back(m as nat);
    reveal_strlit("t");
    assert(tag_text(n).skip(1) == text::decimal(n as nat));
    assert(tag_text(m).skip(1) == text::decimal(m as nat));
}

/// A client that is greeted signs in with what it has. A password goes with
/// its user name, each quoted so that the server reads it as it is.
pub proof fn law_a_password_is_sent_as_it_is(
    raw: RawView,
    user: Seq<char>,
    password: Seq<char>,
    rest: Seq<char>,
)
    requires
        raw.phase == PhaseView::Greeting(LoginView::Password(user, password)),
    ensures
        ({
            let (after, next) = on_line(raw, "* OK"@ + rest);
            let start = tag_text(after.tag) + " LOGIN "@;
            &&& after == commanded(raw)
            &&& next matches RawNextView::Send(line)
            &&& text::begins(line, start)
            &&& line[start.len() as int] == '"'
            &&& connection::quoted_text(line.skip(start.len() as int + 1)) matches Some((u, more))
            &&& u == user
            &&& more.len() > 2 && more[0] == ' ' && more[1] == '"'
            &&& connection::quoted_text(more.skip(2)) == Some((password, "\r\n"@))
        }),
{
    text::law_a_prefix_and_the_rest(rest, "* OK"@, rest);
    reveal_strlit(" ");
    reveal_strlit(" LOGIN ");
    reveal_strlit("LOGIN ");
    reveal_strlit("\r\n");
    let tag = tag_text(next_tag_number(raw.tag));
    let start = tag + " LOGIN "@;
    let end = " "@ + (connection::quoted(password) + "\r\n"@);
    let line = command_line(raw, login_command(user, password));
    assert(line == start + (connection::quoted(user) + end));
    text::law_a_prefix_and_the_rest(rest, start, connection::quoted(user) + end);
    connection::law_a_quoted_string_cannot_be_left_early(user, end);
    connection::law_a_quoted_string_cannot_be_left_early(password, "\r\n"@);
    let shown = connection::quoted(user) + end;
    assert(line[start.len() as int] == shown[0]);
    assert(line.skip(start.len() as int + 1) == shown.skip(1));
    let last = connection::quoted(password) + "\r\n"@;
    assert(end[0] == ' ');
    assert(end[1] == last[0]);
    assert(end.skip(2) == last.skip(1));
}

/// A client with an access token asks to authenticate with it, and sends it,
/// with its user, once it may. A server that says no, or does not greet, is
/// told of with what it said.
pub proof fn law_a_token_is_sent_once_it_may(
    raw: RawView,
    user: Seq<char>,
    token: Seq<char>,
    rest: Seq<char>,
    line: Seq<char>,
)
    requires
        raw.phase == PhaseView::Greeting(LoginView::XOAuth2(user, token)),
    ensures
        ({
            let (asking, first) = on_line(raw, "* OK"@ + rest);
            let tag = tag_text(asking.tag);
            let (sent, second) = on_line(asking, "+"@ + rest);
            &&& first == RawNextView::Send(tag + " AUTHENTICATE XOAUTH2\r\n"@)
            &&& second == RawNextView::Send(
                codec::base64_text(encode_utf8(connection::xoauth2_text(user, token))) + "\r\n"@,
            )
            &&& sent.phase == PhaseView::Tagged(tag, Seq::<Seq<char>>::empty())
            &&& !text::begins(line, "+"@) ==> on_line(asking, line).1 == RawNextView::Failed(
                "server refused XOAUTH2: "@ + line,
            )
        }),
        !text::begins(line, "* OK"@) ==> on_line(raw, line).1 == RawNextView::Failed(
            "unexpected IMAP greeting: "@ + line,
        ),
{
    text::law_a_prefix_and_the_rest(rest, "* OK"@, rest);
    text::law_a_prefix_and_the_rest(rest, "+"@, rest);
}

/// What a server can do is the words of its CAPABILITY line, in upper case,
/// one by one.
pub proof fn law_capabilities_are_words(
    before: Seq<Seq<char>>,
    rest: Seq<char>,
    after: Seq<Seq<char>>,
    i: int,
)
    requires
        forall|k: int|
            0 <= k < before.len() ==> !text::begins(#[trigger] before[k], "* CAPABILITY "@),
    ensures
        ({
            let caps = capabilities_in(before + seq!["* CAPABILITY "@ + rest] + after);
            let words = text::word_seq(rest);
            &&& caps.len() == words.len()
            &&& 0 <= i < words.len() ==> caps[i] == codec::uppercased(words[i])
        }),
        capabilities_in(before) == Seq::<Seq<char>>::empty(),
{
    thread::law_the_first_line_with_the_prefix_counts(before, "* CAPABILITY "@, rest, after);
}

/// Upper case changes the letters from `a` to `z` alone, each to its capital,
/// in a text that is ASCII.
pub proof fn law_upper_case_is_letter_by_letter(s: Seq<char>, i: int)
    requires
        0 <= i < s.len(),
    ensures
        codec::ascii_uppercased(s).len() == s.len(),
        97 <= s[i] as u32 <= 122 ==> codec::ascii_uppercased(s)[i] as u32 == s[i] as u32 - 32,
        !(97 <= s[i] as u32 <= 122) ==> codec::ascii_uppercased(s)[i] == s[i],
{
}

/// Threads are asked for by REFERENCES wherever the server can, by
/// ORDEREDSUBJECT where it can do that alone, and in the folder that was
/// named: it is selected first.
pub proof fn law_threads_are_asked_for_in_their_folder(
    raw: RawView,
    caps: Seq<Seq<char>>,
    folder: Seq<char>,
    lines: Seq<Seq<char>>,
)
    requires
        raw.caps == Some(caps),
        caps.contains("THREAD=REFERENCES"@) || caps.contains("THREAD=ORDEREDSUBJECT"@),
    ensures
        ({
            let (selecting, stage, first) = signed_in(raw, folder);
            let (threading, last, second) = completed(selecting, folder, stage, lines);
            let name = if caps.contains("THREAD=REFERENCES"@) {
                "REFERENCES"@
            } else {
                "ORDEREDSUBJECT"@
            };
            &&& first == ThreadNextView::Send(
                tag_text(selecting.tag) + " SELECT "@ + connection::quoted(folder) + "\r\n"@,
            )
            &&& second == ThreadNextView::Send(
                tag_text(threading.tag) + " UID THREAD "@ + name + " UTF-8 ALL\r\n"@,
            )
            &&& last == ThreadStage::Threading
        }),
{
    reveal_strlit(" ");
    reveal_strlit("SELECT ");
    reveal_strlit(" SELECT ");
    reveal_strlit("UID THREAD ");
    reveal_strlit(" UID THREAD ");
    reveal_strlit(" UTF-8 ALL");
    reveal_strlit(" UTF-8 ALL\r\n");
    reveal_strlit("\r\n");
    let (selecting, stage, first) = signed_in(raw, folder);
    let tag = tag_text(selecting.tag);
    assert(" "@ + "SELECT "@ == " SELECT "@);
    assert(command_line(raw, select_command(folder)) == tag + " SELECT "@ + connection::quoted(
        folder,
    ) + "\r\n"@);
    let algorithm = algorithm_of(caps)->0;
    let name = algorithm_name(algorithm);
    let next = tag_text(commanded(selecting).tag);
    assert(command_line(selecting, thread_command(algorithm)) == next + " UID THREAD "@ + name
        + " UTF-8 ALL\r\n"@);
}

/// A client that does not know what the server can do asks, and goes by the
/// answer. What the threading came to is what the lines of its response say.
pub proof fn law_threads_are_what_the_server_says(
    raw: RawView,
    folder: Seq<char>,
    lines: Seq<Seq<char>>,
)
    ensures
        raw.caps is None ==> signed_in(raw, folder).2 == ThreadNextView::Send(
            command_line(raw, "CAPABILITY"@),
        ),
        completed(raw, folder, ThreadStage::SigningIn, lines) == signed_in(raw, folder),
        completed(raw, folder, ThreadStage::Capabilities, lines) == signed_in(
            (RawView { caps: Some(capabilities_in(lines)), ..raw }),
            folder,
        ),
        completed(raw, folder, ThreadStage::Threading, lines).2 == ThreadNextView::Finished(
            Some(thread::threads_in(thread::thread_data(text::joined(lines, "\r\n"@)))),
        ),
{
}

/// What is read of the server is handed on: what to send, that more is to be
/// read, or that it failed. That the server has closed the connection is a
/// failure.
pub proof fn law_a_closed_connection_is_a_failure(
    raw: RawView,
    folder: Seq<char>,
    stage: ThreadStage,
    bytes: Seq<u8>,
)
    ensures
        ({
            let (after, next) = on_bytes(raw, bytes);
            let step = thread_step(raw, folder, stage, bytes).2;
            &&& bytes.len() == 0 ==> next == RawNextView::Failed("connection closed by server"@)
            &&& next matches RawNextView::Send(line) ==> step == ThreadNextView::Send(line)
            &&& next is Read ==> step is Read
            &&& next matches RawNextView::Failed(e) ==> step == ThreadNextView::Failed(e)
            &&& next matches RawNextView::Done(lines) ==> thread_step(raw, folder, stage, bytes)
                == completed(after, folder, stage, lines)
        }),
{
}

/// A line is what stands before the line break at its end.
pub proof fn law_a_line_is_without_its_end(line: Seq<u8>)
    requires
        line.len() == 0 || (line.last() != 13 && line.last() != 10),
    ensures
        without_line_end(line) == line,
        without_line_end(line + seq![10u8]) == line,
        without_line_end(line + seq![13u8, 10u8]) == line,
{
    let a = line + seq![10u8];
    let b = line + seq![13u8];
    let c = line + seq![13u8, 10u8];
    assert(a.drop_last() == line && a.last() == 10);
    assert(b.drop_last() == line && b.last() == 13);
    assert(c.drop_last() == b && c.last() == 10);
    assert(without_line_end(a) == without_line_end(line));
    assert(without_line_end(b) == without_line_end(line));
    assert(without_line_end(c) == without_line_end(b));
}

} // verus!
