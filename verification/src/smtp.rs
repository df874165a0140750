//! The SMTP backend.
//!
//! `RealSmtp` composes a message and plans the conversation that sends it;
//! `Smtp` is that conversation. Neither does any I/O: the conversation says
//! what to do next, and is told what came of it.
//!
//! A conversation is always encrypted before anything is sent: implicit TLS
//! for `smtps://`, STARTTLS for `smtp://`.

use crate::codec;
use crate::compose;
use crate::compose::Composed;
use crate::connection;
use crate::text;
use crate::types::BodyView;
use crate::types::EmailClientConfig;
use crate::types::MailBody;
use vstd::prelude::*;
use vstd::string::StrSliceExecFns;
use vstd::utf8::*;

verus! {

// ---------------------------------------------------------------------------
// Addresses and data
// ---------------------------------------------------------------------------

/// The host and port of an SMTP address.
pub open spec fn smtp_url(url: Seq<char>) -> Option<(Seq<char>, u16)> {
    connection::url_parts(url, "smtps://"@, 465, "smtp://"@, 587)
}

/// Parse `smtps://host` or `smtps://host:port` into the host and the port.
pub fn parse_smtp_url(url: &str) -> (r: Option<(String, u16)>)
    ensures
        match r {
            Some(p) => smtp_url(url@) == Some((p.0@, p.1)),
            None => smtp_url(url@) is None,
        },
{
    connection::parse_url(url, "smtps://", 465, "smtp://", 587)
}

/// Whether a line starts at `i` in `s`.
pub open spec fn line_starts(s: Seq<u8>, i: int) -> bool {
    i == 0 || s[i - 1] == 10
}

/// `raw` with each dot that starts a line doubled.
pub open spec fn dots_doubled(raw: Seq<u8>) -> Seq<u8>
    decreases raw.len(),
{
    if raw.len() == 0 {
        seq![]
    } else {
        let before = dots_doubled(raw.drop_last());
        if raw.last() == 46 && line_starts(raw, raw.len() - 1) {
            before.push(46).push(46)
        } else {
            before.push(raw.last())
        }
    }
}

/// Whether `s` ends with a line break.
pub open spec fn ends_line(s: Seq<u8>) -> bool {
    s.len() >= 2 && s[s.len() - 2] == 13 && s.last() == 10
}

/// `s` with a line break at its end.
pub open spec fn line_ended(s: Seq<u8>) -> Seq<u8> {
    if ends_line(s) {
        s
    } else {
        s.push(13).push(10)
    }
}

/// The message body of `DATA`: every line that starts with `.` gets a second
/// one, and it ends with a line break so that the lone `.` that closes it is
/// on a line of its own.
pub fn dot_stuff(raw: &[u8]) -> (r: Vec<u8>)
    ensures
        r@ == line_ended(dots_doubled(raw@)),
{
    let mut out: Vec<u8> = Vec::new();
    let mut at_line_start = true;
    let mut i: usize = 0;
    while i < raw.len()
        invariant
            i <= raw@.len(),
            at_line_start == line_starts(raw@, i as int),
            out@ == dots_doubled(raw@.take(i as int)),
        decreases raw@.len() - i,
    {
        assert(raw@.take(i + 1).drop_last() == raw@.take(i as int));
        if at_line_start && raw[i] == 46 {
            out.push(46);
        }
        out.push(raw[i]);
        at_line_start = raw[i] == 10;
        i = i + 1;
    }
    assert(raw@.take(raw@.len() as int) == raw@);
    let n = out.len();
    if !(n >= 2 && out[n - 2] == 13 && out[n - 1] == 10) {
        out.push(13);
        out.push(10);
    }
    out
}

// ---------------------------------------------------------------------------
// Replies
// ---------------------------------------------------------------------------

/// Whether `line` is followed by more of the same reply: `250-...` is, while
/// `250 ...` or a bare `250` is not.
pub open spec fn continues(line: Seq<char>) -> bool {
    encode_utf8(line).len() >= 4 && encode_utf8(line)[3] == 45
}

/// The reply code of `line`; 0 where it has none.
pub open spec fn reply_code(line: Seq<char>) -> nat {
    if line.len() < 3 {
        0
    } else {
        match text::number_value(line.take(3)) {
            Some(code) => if code <= u16::MAX {
                code
            } else {
                0
            },
            None => 0,
        }
    }
}

/// Whether the codes `ok` hold `code`.
pub open spec fn accepts(ok: Seq<u16>, code: nat) -> bool {
    exists|i: int| 0 <= i < ok.len() && (#[trigger] ok[i]) == code
}

fn reply_continues(line: &str) -> (r: bool)
    ensures
        r == continues(line@),
{
    let bytes = line.as_bytes();
    bytes.len() >= 4 && bytes[3] == 45
}

fn parse_code(line: &[char]) -> (r: u16)
    ensures
        r == reply_code(line@),
{
    if line.len() < 3 {
        return 0;
    }
    let head = vstd::slice::slice_subrange(line, 0, 3);
    assert(head@ == line@.take(3));
    match text::parse_number(head, 0xffff) {
        Some(code) => code as u16,
        None => 0,
    }
}

fn has_code(ok: &Vec<u16>, code: u16) -> (r: bool)
    ensures
        r == accepts(ok@, code as nat),
{
    let mut i: usize = 0;
    while i < ok.len()
        invariant
            i <= ok@.len(),
            forall|k: int| 0 <= k < i ==> (#[trigger] ok@[k]) != code,
        decreases ok@.len() - i,
    {
        if ok[i] == code {
            return true;
        }
        i = i + 1;
    }
    false
}

/// What an error names the command `line` by: its first two words. Never are
/// credentials echoed back in an error.
pub open spec fn verb(line: Seq<char>) -> Seq<char> {
    let words = text::word_seq(line);
    let named = text::joined(
        words.take(
            if words.len() < 2 {
                words.len() as int
            } else {
                2
            },
        ),
        " "@,
    );
    if text::begins(named, "AUTH"@) {
        "AUTH"@
    } else {
        named
    }
}

fn verb_of(line: &str) -> (r: Vec<char>)
    ensures
        r@ == verb(line@),
{
    let mut words = text::words(&text::chars(line));
    let ghost all = text::views(words@);
    if words.len() > 2 {
        words.truncate(2);
    }
    assert(text::views(words@) == all.take(
        if all.len() < 2 {
            all.len() as int
        } else {
            2
        },
    ));
    let named = text::join(&words, " ");
    if text::starts_with(&named, "AUTH") {
        text::chars("AUTH")
    } else {
        named
    }
}

// ---------------------------------------------------------------------------
// The conversation
// ---------------------------------------------------------------------------

/// One turn of a conversation.
#[derive(Debug)]
enum Turn {
    /// Connect, with TLS or in the clear.
    Connect(bool),
    /// Read a reply, which must carry one of these codes.
    Expect(Vec<u16>),
    /// Send this line and read the reply, which must carry one of these codes.
    Command(String, Vec<u16>),
    /// Change to TLS.
    Upgrade,
    /// Send this.
    Write(Vec<u8>),
    /// Take leave with this line. What comes of it does not matter.
    Quit(String, Vec<u16>),
}

/// One turn of a conversation.
pub enum TurnView {
    Connect(bool),
    Expect(Seq<u16>),
    Command(Seq<char>, Seq<u16>),
    Upgrade,
    Write(Seq<u8>),
    Quit(Seq<char>, Seq<u16>),
}

impl View for Turn {
    type V = TurnView;

    closed spec fn view(&self) -> TurnView {
        match self {
            Turn::Connect(tls) => TurnView::Connect(*tls),
            Turn::Expect(ok) => TurnView::Expect(ok@),
            Turn::Command(line, ok) => TurnView::Command(line@, ok@),
            Turn::Upgrade => TurnView::Upgrade,
            Turn::Write(bytes) => TurnView::Write(bytes@),
            Turn::Quit(line, ok) => TurnView::Quit(line@, ok@),
        }
    }
}

/// What the turns `v` are.
spec fn turn_views(v: Seq<Turn>) -> Seq<TurnView> {
    Seq::new(v.len(), |i: int| v[i]@)
}

/// A conversation that sends one message.
#[derive(Debug)]
pub struct Smtp {
    host: String,
    port: u16,
    /// The turns still to take, the present one first.
    turns: Vec<Turn>,
    /// What has been read of the reply to the present turn, if one is being
    /// read.
    reply: Option<Vec<char>>,
    raw: Vec<u8>,
}

/// A conversation.
#[verifier::ext_equal]
pub struct SmtpView {
    pub host: Seq<char>,
    pub port: u16,
    /// The turns still to take, the present one first.
    pub turns: Seq<TurnView>,
    /// What has been read of the reply to the present turn, if one is being
    /// read.
    pub reply: Option<Seq<char>>,
    /// The message.
    pub raw: Seq<u8>,
}

impl View for Smtp {
    type V = SmtpView;

    closed spec fn view(&self) -> SmtpView {
        SmtpView {
            host: self.host@,
            port: self.port,
            turns: turn_views(self.turns@),
            reply: match self.reply {
                Some(r) => Some(r@),
                None => None,
            },
            raw: self.raw@,
        }
    }
}

/// What a conversation does next.
#[derive(Debug)]
pub enum SmtpStep {
    /// Connect to this host and port, with TLS or in the clear.
    Open { tls: bool, host: String, port: u16 },
    /// Change to TLS, verified for this host.
    StartTls(String),
    /// Send this.
    Write(Vec<u8>),
    /// Read a line.
    Read,
    /// The message is sent, or it is not and why.
    Finished(Result<Vec<u8>, String>),
}

/// What a conversation does next.
pub enum SmtpStepView {
    Open(bool, Seq<char>, u16),
    StartTls(Seq<char>),
    Write(Seq<u8>),
    Read,
    Finished(Result<Seq<u8>, Seq<char>>),
}

impl View for SmtpStep {
    type V = SmtpStepView;

    open spec fn view(&self) -> SmtpStepView {
        match self {
            SmtpStep::Open { tls, host, port } => SmtpStepView::Open(*tls, host@, *port),
            SmtpStep::StartTls(host) => SmtpStepView::StartTls(host@),
            SmtpStep::Write(bytes) => SmtpStepView::Write(bytes@),
            SmtpStep::Read => SmtpStepView::Read,
            SmtpStep::Finished(r) => SmtpStepView::Finished(
                match r {
                    Ok(raw) => Ok(raw@),
                    Err(e) => Err(e@),
                },
            ),
        }
    }
}

/// What came of a step.
#[derive(Debug)]
pub enum SmtpEvent {
    /// It was done.
    Done,
    /// It failed.
    Failed(String),
    /// This line was read; nothing where the server has closed the connection.
    Line(String),
}

/// What the present turn of `v` starts with.
pub open spec fn turn_start(v: SmtpView) -> (SmtpView, SmtpStepView) {
    if v.turns.len() == 0 {
        (v, SmtpStepView::Finished(Ok(v.raw)))
    } else {
        match v.turns[0] {
            TurnView::Connect(tls) => (v, SmtpStepView::Open(tls, v.host, v.port)),
            TurnView::Expect(ok) => (
                SmtpView { reply: Some(seq![]), ..v },
                SmtpStepView::Read,
            ),
            TurnView::Command(line, ok) => (
                v,
                SmtpStepView::Write(encode_utf8(line + "\r\n"@)),
            ),
            TurnView::Upgrade => (v, SmtpStepView::StartTls(v.host)),
            TurnView::Write(bytes) => (v, SmtpStepView::Write(bytes)),
            TurnView::Quit(line, ok) => (v, SmtpStepView::Write(encode_utf8(line + "\r\n"@))),
        }
    }
}

/// The present turn of `v` is done.
pub open spec fn turn_done(v: SmtpView) -> (SmtpView, SmtpStepView) {
    turn_start(SmtpView { turns: v.turns.drop_first(), reply: None, ..v })
}

/// The present turn of `v` failed with `e`. The conversation ends; where it
/// was about to end anyway, the message is sent all the same.
pub open spec fn turn_failed(v: SmtpView, e: Seq<char>) -> (SmtpView, SmtpStepView) {
    let over = SmtpView { turns: seq![], reply: None, ..v };
    (
        over,
        SmtpStepView::Finished(
            if v.turns[0] is Quit {
                Ok(v.raw)
            } else {
                Err(e)
            },
        ),
    )
}

/// The codes that the present turn of `v` takes for an answer.
pub open spec fn expected(turn: TurnView) -> Seq<u16> {
    match turn {
        TurnView::Expect(ok) => ok,
        TurnView::Command(_, ok) => ok,
        TurnView::Quit(_, ok) => ok,
        _ => seq![],
    }
}

/// What is said where `e` is the answer to `turn`.
pub open spec fn reply_error(turn: TurnView, e: Seq<char>) -> Seq<char> {
    match turn {
        TurnView::Command(line, _) => "SMTP "@ + verb(line) + ": "@ + e,
        _ => e,
    }
}

/// What the conversation does when `event` has come of its last step.
pub open spec fn smtp_step(v: SmtpView, event: SmtpEvent) -> (SmtpView, SmtpStepView) {
    if v.turns.len() == 0 {
        (v, SmtpStepView::Finished(Ok(v.raw)))
    } else {
        let turn = v.turns[0];
        match v.reply {
            Some(before) => match event {
                SmtpEvent::Line(line) => if line@.len() == 0 {
                    turn_failed(v, reply_error(turn, "the server closed the connection"@))
                } else {
                    let end = text::trimmed_end(line@);
                    let all = before + end + "\n"@;
                    if continues(end) {
                        (SmtpView { reply: Some(all), ..v }, SmtpStepView::Read)
                    } else if accepts(expected(turn), reply_code(end)) {
                        turn_done(v)
                    } else {
                        turn_failed(v, reply_error(turn, text::trimmed_end(all)))
                    }
                },
                SmtpEvent::Failed(e) => turn_failed(v, reply_error(turn, e@)),
                SmtpEvent::Done => (v, SmtpStepView::Read),
            },
            None => match event {
                SmtpEvent::Failed(e) => turn_failed(v, e@),
                _ => if turn is Command || turn is Quit {
                    (SmtpView { reply: Some(seq![]), ..v }, SmtpStepView::Read)
                } else {
                    turn_done(v)
                },
            },
        }
    }
}

fn failure_of(turn: &Turn, e: &[char]) -> (r: Vec<char>)
    ensures
        r@ == reply_error(turn@, e@),
{
    match turn {
        Turn::Command(line, _) => {
            let mut out = text::chars("SMTP ");
            text::extend(&mut out, &verb_of(line.as_str()));
            text::extend_str(&mut out, ": ");
            text::extend(&mut out, e);
            out
        },
        _ => text::copy(e),
    }
}

fn is_expected(turn: &Turn, code: u16) -> (r: bool)
    ensures
        r == accepts(expected(turn@), code as nat),
{
    match turn {
        Turn::Expect(ok) => has_code(ok, code),
        Turn::Command(_, ok) => has_code(ok, code),
        Turn::Quit(_, ok) => has_code(ok, code),
        _ => false,
    }
}

fn line_bytes(line: &str) -> (r: Vec<u8>)
    ensures
        r@ == encode_utf8(line@ + "\r\n"@),
{
    let mut out = text::chars(line);
    text::extend_str(&mut out, "\r\n");
    text::string(&out).as_str().as_bytes_vec()
}

fn codes(a: u16) -> (r: Vec<u16>)
    ensures
        r@ == seq![a],
{
    let mut ok: Vec<u16> = Vec::new();
    ok.push(a);
    assert(ok@ == seq![a]);
    ok
}

/// How a conversation with the server at `url` starts: it is greeted, and it
/// is encrypted, with STARTTLS where it does not start so. What the server
/// said of itself before that is not to be trusted.
pub open spec fn opening_turns(url: Seq<char>) -> Seq<TurnView> {
    if text::begins(url, "smtps://"@) {
        seq![
            TurnView::Connect(true),
            TurnView::Expect(seq![220u16]),
            TurnView::Command("EHLO sicompass"@, seq![250u16]),
        ]
    } else {
        seq![
            TurnView::Connect(false),
            TurnView::Expect(seq![220u16]),
            TurnView::Command("EHLO sicompass"@, seq![250u16]),
            TurnView::Command("STARTTLS"@, seq![220u16]),
            TurnView::Upgrade,
            TurnView::Command("EHLO sicompass"@, seq![250u16]),
        ]
    }
}

/// What the account signs in with: its user name and password, or its access
/// token where it has one.
pub open spec fn credentials(config: EmailClientConfig) -> Seq<char> {
    if config.oauth_access_token@.len() == 0 {
        "\0"@ + config.username@ + "\0"@ + config.password@
    } else {
        connection::xoauth2_text(config.username@, config.oauth_access_token@)
    }
}

/// The command that signs in.
pub open spec fn auth_line(config: EmailClientConfig) -> Seq<char> {
    (if config.oauth_access_token@.len() == 0 {
        "AUTH PLAIN "@
    } else {
        "AUTH XOAUTH2 "@
    }) + codec::base64_text(encode_utf8(credentials(config)))
}

/// Whether the command that signs in is one line and carries the credentials:
/// what follows the mechanism is base64 that decodes to them.
pub open spec fn signs_in(config: EmailClientConfig) -> bool {
    let encoded = codec::base64_text(encode_utf8(credentials(config)));
    &&& codec::base64_bytes(encode_utf8(encoded)) == Some(encode_utf8(credentials(config)))
    &&& forall|i: int| 0 <= i < encoded.len() ==> codec::base64_char(#[trigger] encoded[i])
}

/// The turns that name the recipients.
pub open spec fn recipient_turns(recipients: Seq<Seq<char>>) -> Seq<TurnView> {
    Seq::new(
        recipients.len(),
        |i: int| TurnView::Command("RCPT TO:<"@ + recipients[i] + ">"@, seq![250u16, 251u16]),
    )
}

/// The whole conversation that sends the message `raw`.
pub open spec fn all_turns(
    config: EmailClientConfig,
    sender: Seq<char>,
    recipients: Seq<Seq<char>>,
    raw: Seq<u8>,
) -> Seq<TurnView> {
    opening_turns(config.smtp_url@) + seq![
        TurnView::Command(auth_line(config), seq![235u16]),
        TurnView::Command("MAIL FROM:<"@ + sender + ">"@, seq![250u16]),
    ] + recipient_turns(recipients) + seq![
        TurnView::Command("DATA"@, seq![354u16]),
        TurnView::Write(line_ended(dots_doubled(raw))),
        TurnView::Command("."@, seq![250u16]),
        TurnView::Quit("QUIT"@, seq![221u16]),
    ]
}

impl Smtp {
    fn push(&mut self, turn: Turn)
        ensures
            final(self)@ == (SmtpView { turns: old(self)@.turns.push(turn@), ..old(self)@ }),
    {
        self.turns.push(turn);
        assert(self@.turns == old(self)@.turns.push(turn@));
    }

    /// Connect, be greeted and say EHLO, changing a `smtp://` connection to
    /// TLS first. A server that will not change gets no credentials.
    pub fn open(url: &str, host: String, port: u16, raw: Vec<u8>) -> (r: Smtp)
        ensures
            r@ == (SmtpView {
                host: host@,
                port,
                turns: opening_turns(url@),
                reply: None,
                raw: raw@,
            }),
    {
        let mut smtp = Smtp { host, port, turns: Vec::new(), reply: None, raw };
        assert(smtp@.turns == Seq::<TurnView>::empty());
        if text::starts_with(&text::chars(url), "smtps://") {
            smtp.push(Turn::Connect(true));
            smtp.push(Turn::Expect(codes(220)));
            smtp.command("EHLO sicompass", codes(250));
        } else {
            smtp.push(Turn::Connect(false));
            smtp.push(Turn::Expect(codes(220)));
            smtp.command("EHLO sicompass", codes(250));
            smtp.command("STARTTLS", codes(220));
            smtp.push(Turn::Upgrade);
            smtp.command("EHLO sicompass", codes(250));
        }
        assert(smtp@.turns == opening_turns(url@));
        smtp
    }

    /// Then send `line`. The reply must carry one of `ok`.
    pub fn command(&mut self, line: &str, ok: Vec<u16>)
        ensures
            final(self)@ == (SmtpView {
                turns: old(self)@.turns.push(TurnView::Command(line@, ok@)),
                ..old(self)@
            }),
    {
        self.push(Turn::Command(line.to_owned(), ok));
    }

    /// Then send `bytes`.
    pub fn write(&mut self, bytes: Vec<u8>)
        ensures
            final(self)@ == (SmtpView {
                turns: old(self)@.turns.push(TurnView::Write(bytes@)),
                ..old(self)@
            }),
    {
        self.push(Turn::Write(bytes));
    }

    /// Then take leave. The message has been accepted before; a server that
    /// drops the connection before it answers has not lost it.
    pub fn quit(&mut self)
        ensures
            final(self)@ == (SmtpView {
                turns: old(self)@.turns.push(TurnView::Quit("QUIT"@, seq![221u16])),
                ..old(self)@
            }),
    {
        self.push(Turn::Quit("QUIT".to_owned(), codes(221)));
    }

    /// What to do first.
    pub fn start(&mut self) -> (r: SmtpStep)
        ensures
            (final(self)@, r@) == turn_start(old(self)@),
    {
        assert(self@.turns.len() == self.turns@.len());
        if self.turns.len() == 0 {
            return SmtpStep::Finished(Ok(codec::copy_bytes(&self.raw)));
        }
        assert(self@.turns[0] == self.turns@[0]@);
        let step = match &self.turns[0] {
            Turn::Connect(tls) => SmtpStep::Open {
                tls: *tls,
                host: self.host.clone(),
                port: self.port,
            },
            Turn::Expect(_) => SmtpStep::Read,
            Turn::Command(line, _) => SmtpStep::Write(line_bytes(line.as_str())),
            Turn::Upgrade => SmtpStep::StartTls(self.host.clone()),
            Turn::Write(bytes) => SmtpStep::Write(codec::copy_bytes(bytes)),
            Turn::Quit(line, _) => SmtpStep::Write(line_bytes(line.as_str())),
        };
        if let Turn::Expect(_) = &self.turns[0] {
            let none: Vec<char> = Vec::new();
            self.reply = Some(none);
        }
        step
    }

    fn done(&mut self) -> (r: SmtpStep)
        requires
            old(self)@.turns.len() > 0,
        ensures
            (final(self)@, r@) == turn_done(old(self)@),
    {
        self.turns.remove(0);
        self.reply = None;
        assert(self@ == (SmtpView {
            turns: old(self)@.turns.drop_first(),
            reply: None,
            ..old(self)@
        }));
        self.start()
    }

    fn fail(&mut self, e: String) -> (r: SmtpStep)
        requires
            old(self)@.turns.len() > 0,
        ensures
            (final(self)@, r@) == turn_failed(old(self)@, e@),
    {
        assert(self@.turns[0] == self.turns@[0]@);
        let quitting = match &self.turns[0] {
            Turn::Quit(_, _) => true,
            _ => false,
        };
        self.turns = Vec::new();
        self.reply = None;
        assert(self@.turns == Seq::<TurnView>::empty());
        if quitting {
            SmtpStep::Finished(Ok(codec::copy_bytes(&self.raw)))
        } else {
            SmtpStep::Finished(Err(e))
        }
    }

    fn fail_reply(&mut self, e: &[char]) -> (r: SmtpStep)
        requires
            old(self)@.turns.len() > 0,
        ensures
            (final(self)@, r@) == turn_failed(
                old(self)@,
                reply_error(old(self)@.turns[0], e@),
            ),
    {
        assert(self@.turns[0] == self.turns@[0]@);
        let e = text::string(&failure_of(&self.turns[0], e));
        self.fail(e)
    }

    fn read(&mut self, before: Vec<char>, line: &str) -> (r: SmtpStep)
        requires
            old(self)@.turns.len() > 0,
            old(self)@.reply is None,
            line@.len() > 0,
        ensures
            ({
                let v = SmtpView { reply: Some(before@), ..old(self)@ };
                let end = text::trimmed_end(line@);
                let all = before@ + end + "\n"@;
                (final(self)@, r@) == (if continues(end) {
                    (SmtpView { reply: Some(all), ..v }, SmtpStepView::Read)
                } else if accepts(expected(v.turns[0]), reply_code(end)) {
                    turn_done(v)
                } else {
                    turn_failed(v, reply_error(v.turns[0], text::trimmed_end(all)))
                })
            }),
    {
        assert(self@.turns[0] == self.turns@[0]@);
        let chars = text::chars(line);
        let end = text::trim_end(&chars);
        let mut all = before;
        text::extend(&mut all, end);
        text::extend_str(&mut all, "\n");
        if reply_continues(text::string(end).as_str()) {
            self.reply = Some(all);
            return SmtpStep::Read;
        }
        let code = parse_code(end);
        if is_expected(&self.turns[0], code) {
            self.done()
        } else {
            self.fail_reply(text::trim_end(&all))
        }
    }

    /// `event` has come of the last step: what to do next.
    pub fn resume(&mut self, event: SmtpEvent) -> (r: SmtpStep)
        ensures
            (final(self)@, r@) == smtp_step(old(self)@, event),
    {
        assert(self@.turns.len() == self.turns@.len());
        if self.turns.len() == 0 {
            return SmtpStep::Finished(Ok(codec::copy_bytes(&self.raw)));
        }
        assert(self@.turns[0] == self.turns@[0]@);
        match self.reply.take() {
            Some(before) => match event {
                SmtpEvent::Line(line) => {
                    if text::chars(line.as_str()).len() == 0 {
                        let e = text::chars("the server closed the connection");
                        self.fail_reply(&e)
                    } else {
                        self.read(before, line.as_str())
                    }
                },
                SmtpEvent::Failed(e) => {
                    let e = text::chars(e.as_str());
                    self.fail_reply(&e)
                },
                SmtpEvent::Done => {
                    self.reply = Some(before);
                    SmtpStep::Read
                },
            },
            None => match event {
                SmtpEvent::Failed(e) => self.fail(e),
                _ => {
                    let answered = match &self.turns[0] {
                        Turn::Command(_, _) => true,
                        Turn::Quit(_, _) => true,
                        _ => false,
                    };
                    if answered {
                        let none: Vec<char> = Vec::new();
                        self.reply = Some(none);
                        SmtpStep::Read
                    } else {
                        self.done()
                    }
                },
            },
        }
    }
}

// ---------------------------------------------------------------------------
// The backend
// ---------------------------------------------------------------------------

/// The SMTP backend of one account.
#[derive(Debug)]
pub struct RealSmtp {
    config: EmailClientConfig,
}

fn auth_command(config: &EmailClientConfig) -> (r: String)
    ensures
        r@ == auth_line(*config),
        signs_in(*config),
{
    if text::chars(config.oauth_access_token.as_str()).len() == 0 {
        let mut plain = text::chars("\0");
        text::extend_str(&mut plain, config.username.as_str());
        text::extend_str(&mut plain, "\0");
        text::extend_str(&mut plain, config.password.as_str());
        let mut out = text::chars("AUTH PLAIN ");
        let payload = text::string(&plain);
        text::extend_str(&mut out, codec::b64(payload.as_str().as_bytes()).as_str());
        text::string(&out)
    } else {
        let payload = connection::xoauth2_payload(
            config.username.as_str(),
            config.oauth_access_token.as_str(),
        );
        let mut out = text::chars("AUTH XOAUTH2 ");
        text::extend_str(&mut out, codec::b64(payload.as_str().as_bytes()).as_str());
        text::string(&out)
    }
}

fn path_line(what: &str, address: &str) -> (r: String)
    ensures
        r@ == what@ + address@ + ">"@,
{
    let mut out = text::chars(what);
    text::extend_str(&mut out, address);
    text::extend_str(&mut out, ">");
    text::string(&out)
}

/// The addresses of a message, in the order in which they are refused.
pub open spec fn all_addresses(
    from: Seq<char>,
    to: Seq<Seq<char>>,
    cc: Seq<Seq<char>>,
    bcc: Seq<Seq<char>>,
) -> Seq<Seq<char>> {
    seq![from] + to + cc + bcc
}

/// Why a message cannot be sent from the account `config`, before a server is
/// asked.
pub open spec fn send_error(
    config: EmailClientConfig,
    from: Seq<char>,
    to: Seq<Seq<char>>,
    cc: Seq<Seq<char>>,
    bcc: Seq<Seq<char>>,
    subject: Seq<char>,
    body: BodyView,
) -> Option<Seq<char>> {
    if smtp_url(config.smtp_url@) is None {
        Some("cannot parse SMTP URL: "@ + config.smtp_url@)
    } else if to.len() == 0 {
        Some("no recipients"@)
    } else {
        compose::compose_error(
            all_addresses(from, to, cc, bcc),
            compose::draft(from, to, cc, bcc, subject),
            body,
        )
    }
}

/// Whether `v` is the conversation, about to begin, that sends a message from
/// the account `config`.
pub open spec fn is_conversation(
    v: SmtpView,
    config: EmailClientConfig,
    from: Seq<char>,
    to: Seq<Seq<char>>,
    cc: Seq<Seq<char>>,
    bcc: Seq<Seq<char>>,
    subject: Seq<char>,
    body: BodyView,
    attachments: Seq<(Seq<char>, Seq<u8>)>,
) -> bool {
    let fields = compose::draft(from, to, cc, bcc, subject);
    &&& smtp_url(config.smtp_url@) == Some((v.host, v.port))
    &&& v.reply is None
    &&& compose::built_envelope(fields) matches Ok((Some(sender), recipients))
    &&& v.turns == all_turns(config, sender, recipients, v.raw)
    &&& compose::sent_text(body) matches Ok(t)
    &&& compose::is_message(v.raw, fields, t, attachments)
}

impl RealSmtp {
    /// The account that this backend sends from.
    pub closed spec fn config(&self) -> EmailClientConfig {
        self.config
    }

    /// The backend of the account `config`.
    pub fn from_config(config: &EmailClientConfig) -> (r: RealSmtp)
        ensures
            r.config() == *config,
    {
        RealSmtp { config: config.clone() }
    }

    /// The conversation with the server at `host` and `port` that sends
    /// `message`. Its credentials decode to those of the account.
    pub fn conversation(&self, host: String, port: u16, message: Composed) -> (r: Smtp)
        ensures
            r@ == (SmtpView {
                host: host@,
                port,
                turns: all_turns(
                    self.config(),
                    message.sender@,
                    text::string_views(message.recipients@),
                    message.raw@,
                ),
                reply: None,
                raw: message.raw@,
            }),
            signs_in(self.config()),
    {
        let Composed { raw, sender, recipients } = message;
        let data = dot_stuff(&raw);
        let mut smtp = Smtp::open(self.config.smtp_url.as_str(), host, port, raw);
        let ghost opening = opening_turns(self.config().smtp_url@);
        smtp.command(auth_command(&self.config).as_str(), codes(235));
        smtp.command(path_line("MAIL FROM:<", sender.as_str()).as_str(), codes(250));
        let ghost signed = opening + seq![
            TurnView::Command(auth_line(self.config()), seq![235u16]),
            TurnView::Command("MAIL FROM:<"@ + sender@ + ">"@, seq![250u16]),
        ];
        assert(smtp@.turns == signed);
        let ghost named = recipient_turns(text::string_views(recipients@));
        let mut i: usize = 0;
        assert(signed + named.take(0) == signed);
        while i < recipients.len()
            invariant
                i <= recipients@.len(),
                named == recipient_turns(text::string_views(recipients@)),
                smtp@ == (SmtpView {
                    host: host@,
                    port,
                    turns: signed + named.take(i as int),
                    reply: None,
                    raw: raw@,
                }),
            decreases recipients@.len() - i,
        {
            let mut ok = codes(250);
            ok.push(251);
            assert(ok@ == seq![250u16, 251u16]);
            smtp.command(path_line("RCPT TO:<", recipients[i].as_str()).as_str(), ok);
            assert(named.take(i + 1) == named.take(i as int).push(named[i as int]));
            assert(smtp@.turns == signed + named.take(i + 1));
            i = i + 1;
        }
        assert(named.take(recipients@.len() as int) == named);
        smtp.command("DATA", codes(354));
        smtp.write(data);
        smtp.command(".", codes(250));
        smtp.quit();
        assert(smtp@.turns == all_turns(
            self.config(),
            sender@,
            text::string_views(recipients@),
            raw@,
        ));
        smtp
    }

    /// Send a message: the conversation that does.
    ///
    /// A message from a plain mailbox to others, with or without display
    /// names, can be sent where the server's address and the body are good,
    /// and the address of every one of the others is named to the server.
    pub fn send(
        &self,
        from: &str,
        to: &[&str],
        cc: &[&str],
        bcc: &[&str],
        subject: &str,
        body: &MailBody,
        attachments: &[(&str, &[u8])],
    ) -> (r: Result<Smtp, String>)
        ensures
            match r {
                Ok(smtp) => {
                    &&& send_error(
                        self.config(),
                        from@,
                        text::str_views(to@),
                        text::str_views(cc@),
                        text::str_views(bcc@),
                        subject@,
                        body@,
                    ) is None
                    &&& is_conversation(
                        smtp@,
                        self.config(),
                        from@,
                        text::str_views(to@),
                        text::str_views(cc@),
                        text::str_views(bcc@),
                        subject@,
                        body@,
                        compose::file_views(attachments@),
                    )
                },
                Err(e) => send_error(
                    self.config(),
                    from@,
                    text::str_views(to@),
                    text::str_views(cc@),
                    text::str_views(bcc@),
                    subject@,
                    body@,
                ) == Some(e@),
            },
            smtp_url(self.config().smtp_url@) is Some && compose::plain_mailbox(from@) && to@.len()
                > 0 && compose::plain_mailboxes(text::str_views(to@))
                && compose::plain_mailboxes(text::str_views(cc@)) && compose::plain_mailboxes(
                text::str_views(bcc@),
            ) && compose::sent_text(body@) is Ok ==> {
                &&& r matches Ok(smtp)
                &&& smtp@.turns == all_turns(
                    self.config(),
                    compose::mailbox_address(from@),
                    compose::mailbox_addresses(
                        text::str_views(to@) + text::str_views(cc@) + text::str_views(bcc@),
                    ),
                    smtp@.raw,
                )
            },
    {
        let (host, port) = match parse_smtp_url(self.config.smtp_url.as_str()) {
            Some(p) => p,
            None => {
                let mut out = text::chars("cannot parse SMTP URL: ");
                text::extend_str(&mut out, self.config.smtp_url.as_str());
                return Err(text::string(&out));
            },
        };
        if to.len() == 0 {
            return Err("no recipients".to_owned());
        }
        let message = compose::compose(from, to, cc, bcc, subject, body, attachments)?;
        Ok(self.conversation(host, port, message))
    }
}

// ---------------------------------------------------------------------------
// Laws
// ---------------------------------------------------------------------------

/// An SMTP address that is written with a port reads back as the host and the
/// port it was written from, and one without a port as the host and the port
/// that its scheme stands for.
pub proof fn law_smtp_addresses_read_back(host: Seq<char>, port: u16)
    ensures
        smtp_url("smtps://"@ + connection::authority(host, port)) == Some((host, port)),
        smtp_url("smtp://"@ + connection::authority(host, port)) == Some((host, port)),
        (forall|i: int| 0 <= i < host.len() ==> #[trigger] host[i] != ':') ==> {
            &&& smtp_url("smtps://"@ + host) == Some((host, 465u16))
            &&& smtp_url("smtp://"@ + host) == Some((host, 587u16))
        },
{
    reveal_strlit("smtps://");
    reveal_strlit("smtp://");
    assert(!text::begins("smtp://"@ + connection::authority(host, port), "smtps://"@)) by {
        let url = "smtp://"@ + connection::authority(host, port);
        assert(url[4] == ':');
        assert(url.len() >= 8 ==> url.take(8)[4] == ':');
    }
    assert(!text::begins("smtp://"@ + host, "smtps://"@)) by {
        let url = "smtp://"@ + host;
        assert(url[4] == ':');
        assert(url.len() >= 8 ==> url.take(8)[4] == ':');
    }
    connection::lemma_url_parts("smtps://"@, 465, "smtp://"@, 587, host, port);
}

/// What a server takes `data` for: one dot that starts a line is dropped.
pub open spec fn dots_dropped(data: Seq<u8>) -> Seq<u8>
    decreases data.len(),
{
    if data.len() == 0 {
        seq![]
    } else if data.last() == 46 && line_starts(data, data.len() - 1) {
        dots_dropped(data.drop_last())
    } else {
        dots_dropped(data.drop_last()).push(data.last())
    }
}

proof fn lemma_doubled(raw: Seq<u8>)
    ensures
        dots_dropped(dots_doubled(raw)) == raw,
        raw.len() > 0 ==> dots_doubled(raw).len() > 0 && dots_doubled(raw).last() == raw.last(),
        raw.len() == 0 ==> dots_doubled(raw).len() == 0,
        ends_line(dots_doubled(raw)) == ends_line(raw),
        forall|i: int|
            #![trigger dots_doubled(raw)[i]]
            0 <= i < dots_doubled(raw).len() && line_starts(dots_doubled(raw), i) && dots_doubled(
                raw,
            )[i] == 46 ==> i + 1 < dots_doubled(raw).len() && dots_doubled(raw)[i + 1] == 46,
    decreases raw.len(),
{
    if raw.len() > 0 {
        let shorter = raw.drop_last();
        lemma_doubled(shorter);
        let before = dots_doubled(shorter);
        let all = dots_doubled(raw);
        if raw.len() > 1 {
            assert(shorter.last() == raw[raw.len() - 2]);
        }
        if raw.last() == 46 && line_starts(raw, raw.len() - 1) {
            let once = before.push(46);
            assert(all == once.push(46));
            assert(all.drop_last() == once);
            assert(once.drop_last() == before);
            assert(line_starts(once, once.len() - 1));
            assert(!line_starts(all, all.len() - 1));
            assert(dots_dropped(once) == dots_dropped(before));
        } else {
            assert(all == before.push(raw.last()));
            assert(all.drop_last() == before);
            assert(line_starts(all, all.len() - 1) == line_starts(raw, raw.len() - 1));
            if raw.len() > 1 {
                assert(all[all.len() - 2] == before.last());
            }
        }
        assert(shorter.push(raw.last()) == raw);
        assert forall|i: int|
            #![trigger all[i]]
            0 <= i < all.len() && line_starts(all, i) && all[i] == 46 implies i + 1 < all.len()
            && all[i + 1] == 46 by {
            if i < before.len() {
                assert(all[i] == before[i]);
                assert(line_starts(before, i));
            }
        }
    }
}

/// The data of a message ends with a line break, no line of it is a lone dot
/// (so that only the dot that closes it does), and the server takes it for the
/// message, with a line break at its end where it has none.
pub proof fn law_the_data_is_the_message(raw: Seq<u8>)
    ensures
        ({
            let data = line_ended(dots_doubled(raw));
            let n = raw.len() as int;
            &&& ends_line(data)
            &&& data.len() >= 2 && data[data.len() - 2] == 13 && data[data.len() - 1] == 10
            &&& n >= 2 && raw[n - 2] == 13 && raw[n - 1] == 10 ==> dots_dropped(data) == raw
            &&& !(n >= 2 && raw[n - 2] == 13 && raw[n - 1] == 10) ==> dots_dropped(data) == raw
                + seq![13u8, 10u8]
            &&& forall|i: int|
                #![trigger data[i]]
                0 <= i < data.len() && line_starts(data, i) && data[i] == 46 ==> i + 1 < data.len()
                    && data[i + 1] == 46
            &&& dots_dropped(data) == line_ended(raw)
        }),
{
    lemma_doubled(raw);
    let doubled = dots_doubled(raw);
    let data = line_ended(doubled);
    if !ends_line(doubled) {
        let once = doubled.push(13);
        assert(data == once.push(10));
        assert(data.drop_last() == once);
        assert(once.drop_last() == doubled);
        assert(dots_dropped(once) == dots_dropped(doubled).push(13));
        assert forall|i: int|
            #![trigger data[i]]
            0 <= i < data.len() && line_starts(data, i) && data[i] == 46 implies i + 1 < data.len()
            && data[i + 1] == 46 by {
            assert(data[i] == doubled[i]);
            assert(line_starts(doubled, i));
        }
    }
}

/// Whether TLS protects the turn `i` of `turns`: the connection was opened
/// with it, or changed to it, before.
pub open spec fn is_protected(turns: Seq<TurnView>, i: int) -> bool {
    exists|j: int|
        #![trigger turns[j]]
        0 <= j < i && (turns[j] is Upgrade || turns[j] == TurnView::Connect(true))
}

/// Nothing is sent in the clear but EHLO and STARTTLS: all else, the
/// credentials, the addresses and the message among it, comes after TLS.
pub proof fn law_nothing_is_sent_in_the_clear(
    config: EmailClientConfig,
    sender: Seq<char>,
    recipients: Seq<Seq<char>>,
    raw: Seq<u8>,
    i: int,
)
    requires
        0 <= i < all_turns(config, sender, recipients, raw).len(),
        !is_protected(all_turns(config, sender, recipients, raw), i),
    ensures
        ({
            let turn = all_turns(config, sender, recipients, raw)[i];
            ||| turn is Connect
            ||| turn is Expect
            ||| turn is Upgrade
            ||| turn == TurnView::Command("EHLO sicompass"@, seq![250u16])
            ||| turn == TurnView::Command("STARTTLS"@, seq![220u16])
        }),
{
    let turns = all_turns(config, sender, recipients, raw);
    let opening = opening_turns(config.smtp_url@);
    if i < opening.len() {
        assert(turns[i] == opening[i]);
    } else if text::begins(config.smtp_url@, "smtps://"@) {
        assert(turns[0] == opening[0]);
    } else {
        assert(turns[4] == opening[4]);
    }
}

/// Where a turn fails, or is answered with a code it does not take, the
/// conversation is over and nothing more is sent. Where this is the change to
/// TLS, no credentials have been sent.
pub proof fn law_a_refused_turn_ends_the_conversation(v: SmtpView, event: SmtpEvent)
    requires
        v.turns.len() > 0,
        event is Failed || (event matches SmtpEvent::Line(line) && v.reply is Some && (line@.len()
            == 0 || (!continues(text::trimmed_end(line@)) && !accepts(
            expected(v.turns[0]),
            reply_code(text::trimmed_end(line@)),
        )))),
    ensures
        ({
            let (after, step) = smtp_step(v, event);
            &&& after.turns == Seq::<TurnView>::empty()
            &&& step is Finished
            &&& !(v.turns[0] is Quit) ==> step->Finished_0 is Err
            &&& v.turns[0] is Quit ==> step == SmtpStepView::Finished(Ok(v.raw))
        }),
{
}

proof fn lemma_after_word(w: Seq<char>, rest: Seq<char>)
    requires
        forall|i: int| 0 <= i < w.len() ==> !text::white_space(#[trigger] w[i]),
    ensures
        text::after_word(w + rest) == text::after_word(rest),
    decreases w.len(),
{
    if w.len() == 0 {
        assert(w + rest == rest);
    } else {
        assert((w + rest).drop_first() == w.drop_first() + rest);
        assert forall|i: int| 0 <= i < w.len() - 1 implies !text::white_space(
            #[trigger] w.drop_first()[i],
        ) by {
            assert(w.drop_first()[i] == w[i + 1]);
        }
        assert(!text::white_space(w[0]));
        lemma_after_word(w.drop_first(), rest);
    }
}

proof fn lemma_verb_of_auth(line: Seq<char>)
    requires
        text::begins(line, "AUTH"@),
    ensures
        verb(line) == "AUTH"@,
{
    reveal_strlit("AUTH");
    let w = "AUTH"@;
    let rest = line.skip(4);
    assert(line.take(4)[0] == line[0]);
    assert(line == w + rest);
    assert(text::trimmed_start(line) == line);
    lemma_after_word(w, rest);
    text::lemma_after_word_len(rest);
    let words = text::word_seq(line);
    let first = words[0];
    assert(first == line.take(line.len() - text::after_word(line).len()));
    assert(first.take(4) == w);
    let n = if words.len() < 2 {
        words.len() as int
    } else {
        2
    };
    let named = text::joined(words.take(n), " "@);
    if n == 1 {
        assert(named == first);
    } else {
        assert(words.take(n).drop_last()[0] == first);
        reveal_with_fuel(text::joined, 2);
        assert(text::joined(words.take(n).drop_last(), " "@) == first);
        assert(named == first + " "@ + words[1]);
    }
    assert(named.take(4) == w);
}

/// What is said where an `AUTH` command is refused holds nothing of it but its
/// verb: it is made of what the server answered alone. Whatever comes of the
/// command, the conversation goes on, or ends, as it would with any other
/// `AUTH` command.
pub proof fn law_credentials_are_never_echoed(
    v: SmtpView,
    line: Seq<char>,
    other: Seq<char>,
    ok: Seq<u16>,
    answer: Seq<char>,
    event: SmtpEvent,
)
    requires
        text::begins(line, "AUTH"@),
        text::begins(other, "AUTH"@),
        v.turns.len() > 0,
    ensures
        reply_error(TurnView::Command(line, ok), answer) == "SMTP AUTH: "@ + answer,
        ({
            let with_line = SmtpView {
                turns: v.turns.update(0, TurnView::Command(line, ok)),
                ..v
            };
            let with_other = SmtpView {
                turns: v.turns.update(0, TurnView::Command(other, ok)),
                ..v
            };
            smtp_step(with_line, event).1 == smtp_step(with_other, event).1
        }),
{
    reveal_strlit("AUTH");
    reveal_strlit("SMTP ");
    reveal_strlit(": ");
    reveal_strlit("SMTP AUTH: ");
    lemma_verb_of_auth(line);
    lemma_verb_of_auth(other);
    assert("SMTP "@ + "AUTH"@ + ": "@ == "SMTP AUTH: "@);
    assert(v.turns.update(0, TurnView::Command(line, ok)).drop_first() == v.turns.update(
        0,
        TurnView::Command(other, ok),
    ).drop_first());
}

/// The command that signs in is an `AUTH` command, whoever the account is.
pub proof fn law_signing_in_is_an_auth_command(config: EmailClientConfig)
    ensures
        text::begins(auth_line(config), "AUTH"@),
{
    reveal_strlit("AUTH");
    reveal_strlit("AUTH PLAIN ");
    reveal_strlit("AUTH XOAUTH2 ");
    assert(auth_line(config).take(4) == "AUTH"@);
}

/// Whether `step` is the first of the turn `turn`, or one that reads the reply
/// to it, of a conversation that has read `reply` of it.
spec fn is_step_of(turn: TurnView, reply: Option<Seq<char>>, step: SmtpStepView) -> bool {
    match turn {
        TurnView::Connect(tls) => reply is None && (step matches SmtpStepView::Open(t, _, _) && t
            == tls),
        TurnView::Expect(_) => reply is Some && step is Read,
        TurnView::Command(line, _) => (reply is None && step == SmtpStepView::Write(
            encode_utf8(line + "\r\n"@),
        )) || (reply is Some && step is Read),
        TurnView::Upgrade => reply is None && step is StartTls,
        TurnView::Write(bytes) => reply is None && step == SmtpStepView::Write(bytes),
        TurnView::Quit(line, _) => (reply is None && step == SmtpStepView::Write(
            encode_utf8(line + "\r\n"@),
        )) || (reply is Some && step is Read),
    }
}

/// Whether a conversation of the turns `turns` has come to its turn `k`, with
/// `step` to take.
spec fn has_come_to(turns: Seq<TurnView>, k: int, v: SmtpView, step: SmtpStepView) -> bool {
    &&& 0 <= k <= turns.len()
    &&& v.turns == turns.skip(k)
    &&& if k < turns.len() {
        is_step_of(turns[k], v.reply, step)
    } else {
        step is Finished
    }
}

proof fn lemma_next_turn(turns: Seq<TurnView>, k: int, v: SmtpView, step: SmtpStepView)
    requires
        has_come_to(turns, k, v, step),
        k < turns.len(),
    ensures
        has_come_to(turns, k + 1, turn_done(v).0, turn_done(v).1),
{
    let next = SmtpView { turns: v.turns.drop_first(), reply: None, ..v };
    assert(next.turns == turns.skip(k + 1));
    if k + 1 < turns.len() {
        assert(next.turns[0] == turns[k + 1]);
    }
}

proof fn lemma_step_taken(
    turns: Seq<TurnView>,
    k: int,
    v: SmtpView,
    step: SmtpStepView,
    event: SmtpEvent,
)
    requires
        has_come_to(turns, k, v, step),
        k < turns.len(),
    ensures
        ({
            let (after, next) = smtp_step(v, event);
            ||| has_come_to(turns, k, after, next) && next is Read
            ||| has_come_to(turns, k + 1, after, next) && !(event is Failed)
            ||| after.turns.len() == 0 && next is Finished
        }),
{
    assert(v.turns[0] == turns[k]);
    lemma_next_turn(turns, k, v, step);
}

/// What a conversation does from `first` on, where `events` come of its steps.
pub open spec fn steps(first: (SmtpView, SmtpStepView), events: Seq<SmtpEvent>) -> Seq<SmtpStepView>
    decreases events.len(),
{
    if first.1 is Finished || events.len() == 0 {
        seq![first.1]
    } else {
        seq![first.1] + steps(smtp_step(first.0, events[0]), events.skip(1))
    }
}

/// Whether the step `i` of `all`, of which `events` came, comes after one that
/// made the connection secure.
pub open spec fn comes_after_tls(all: Seq<SmtpStepView>, events: Seq<SmtpEvent>, i: int) -> bool {
    exists|j: int|
        #![trigger all[j]]
        0 <= j < i && j < events.len() && !(events[j] is Failed) && (all[j] is StartTls || (
        all[j] matches SmtpStepView::Open(tls, _, _) && tls))
}

proof fn lemma_comes_after_tls(
    config: EmailClientConfig,
    sender: Seq<char>,
    recipients: Seq<Seq<char>>,
    raw: Seq<u8>,
    k: int,
    first: (SmtpView, SmtpStepView),
    events: Seq<SmtpEvent>,
    i: int,
)
    requires
        has_come_to(all_turns(config, sender, recipients, raw), k, first.0, first.1) || first.1 is Finished,
        0 <= i < steps(first, events).len(),
        steps(first, events)[i] matches SmtpStepView::Write(bytes) && bytes != encode_utf8(
            "EHLO sicompass"@ + "\r\n"@,
        ) && bytes != encode_utf8("STARTTLS"@ + "\r\n"@),
    ensures
        is_protected(all_turns(config, sender, recipients, raw), k) || comes_after_tls(
            steps(first, events),
            events,
            i,
        ),
    decreases events.len(),
{
    let turns = all_turns(config, sender, recipients, raw);
    let all = steps(first, events);
    if i == 0 {
        if !is_protected(turns, k) {
            law_nothing_is_sent_in_the_clear(config, sender, recipients, raw, k);
        }
    } else {
        let next = smtp_step(first.0, events[0]);
        let later = steps(next, events.skip(1));
        assert(all == seq![first.1] + later);
        assert(all[i] == later[i - 1]);
        lemma_step_taken(turns, k, first.0, first.1, events[0]);
        let m = if has_come_to(turns, k, next.0, next.1) && next.1 is Read {
            k
        } else {
            k + 1
        };
        lemma_comes_after_tls(config, sender, recipients, raw, m, next, events.skip(1), i - 1);
        if comes_after_tls(later, events.skip(1), i - 1) {
            let j = choose|j: int|
                #![trigger later[j]]
                0 <= j < i - 1 && j < events.skip(1).len() && !(events.skip(1)[j] is Failed) && (
                later[j] is StartTls || (later[j] matches SmtpStepView::Open(tls, _, _) && tls));
            assert(all[j + 1] == later[j]);
            assert(events.skip(1)[j] == events[j + 1]);
        } else if !is_protected(turns, k) {
            let j = choose|j: int|
                #![trigger turns[j]]
                0 <= j < m && (turns[j] is Upgrade || turns[j] == TurnView::Connect(true));
            assert(j == k);
            assert(all[0] == first.1);
            assert(comes_after_tls(all, events, i));
        }
    }
}

/// Whatever a server says, the credentials, the addresses and the message are
/// never sent in the clear: of a conversation that sends a message, anything
/// but the lines EHLO and STARTTLS is sent after the connection was opened
/// with TLS or changed to it.
pub proof fn law_credentials_are_never_sent_in_the_clear(
    config: EmailClientConfig,
    sender: Seq<char>,
    recipients: Seq<Seq<char>>,
    v: SmtpView,
    events: Seq<SmtpEvent>,
    i: int,
)
    requires
        v.turns == all_turns(config, sender, recipients, v.raw),
        v.reply is None,
        0 <= i < steps(turn_start(v), events).len(),
        steps(turn_start(v), events)[i] matches SmtpStepView::Write(bytes) && bytes != encode_utf8(
            "EHLO sicompass"@ + "\r\n"@,
        ) && bytes != encode_utf8("STARTTLS"@ + "\r\n"@),
    ensures
        comes_after_tls(steps(turn_start(v), events), events, i),
{
    let turns = all_turns(config, sender, recipients, v.raw);
    assert(turns.skip(0) == turns);
    assert(turns.len() > 0);
    assert(has_come_to(turns, 0, turn_start(v).0, turn_start(v).1));
    lemma_comes_after_tls(config, sender, recipients, v.raw, 0, turn_start(v), events, i);
}

/// A message counts as sent only where its last turn is done or only taking
/// leave is left: the server has accepted all there was.
pub proof fn law_a_message_is_sent_only_when_accepted(v: SmtpView, event: SmtpEvent)
    requires
        v.turns.len() > 0,
        smtp_step(v, event).1 matches SmtpStepView::Finished(result) && result is Ok,
    ensures
        smtp_step(v, event).1 == SmtpStepView::Finished(Ok(v.raw)),
        v.turns[0] is Quit || (v.turns.len() == 1 && !(event is Failed) && (v.turns[0] is Command ==> (
        event matches SmtpEvent::Line(line) && accepts(
            expected(v.turns[0]),
            reply_code(text::trimmed_end(line@)),
        )))),
{
    if !(v.turns[0] is Quit) {
        assert(v.turns.drop_first().len() == v.turns.len() - 1);
    }
}

/// What is sent by the steps `all`, in order.
pub open spec fn written(all: Seq<SmtpStepView>) -> Seq<Seq<u8>>
    decreases all.len(),
{
    if all.len() == 0 {
        seq![]
    } else {
        (match all[0] {
            SmtpStepView::Write(bytes) => seq![bytes],
            _ => seq![],
        }) + written(all.skip(1))
    }
}

/// What is sent in the turn `turn`.
spec fn sent_in(turn: TurnView) -> Seq<Seq<u8>> {
    match turn {
        TurnView::Command(line, _) => seq![encode_utf8(line + "\r\n"@)],
        TurnView::Quit(line, _) => seq![encode_utf8(line + "\r\n"@)],
        TurnView::Write(bytes) => seq![bytes],
        _ => seq![],
    }
}

/// What is sent in the turns `turns`, in order.
spec fn sent_in_all(turns: Seq<TurnView>) -> Seq<Seq<u8>>
    decreases turns.len(),
{
    if turns.len() == 0 {
        seq![]
    } else {
        sent_in(turns[0]) + sent_in_all(turns.skip(1))
    }
}

proof fn lemma_sent_in_both(a: Seq<TurnView>, b: Seq<TurnView>)
    ensures
        sent_in_all(a + b) == sent_in_all(a) + sent_in_all(b),
    decreases a.len(),
{
    if a.len() == 0 {
        assert(a + b == b);
    } else {
        assert((a + b).skip(1) == a.skip(1) + b);
        lemma_sent_in_both(a.skip(1), b);
    }
}

proof fn lemma_all_is_sent(
    turns: Seq<TurnView>,
    k: int,
    first: (SmtpView, SmtpStepView),
    events: Seq<SmtpEvent>,
)
    requires
        has_come_to(turns, k, first.0, first.1),
        forall|m: int| 0 <= m < turns.len() - 1 ==> !((#[trigger] turns[m]) is Quit),
        steps(first, events).last() matches SmtpStepView::Finished(result) && result is Ok,
    ensures
        written(steps(first, events)) == sent_in_all(
            if k < turns.len() && first.0.reply is Some {
                turns.skip(k + 1)
            } else {
                turns.skip(k)
            },
        ),
    decreases events.len(),
{
    let all = steps(first, events);
    if k < turns.len() {
        let v = first.0;
        let turn = turns[k];
        assert(v.turns[0] == turn);
        assert(!(first.1 is Finished));
        assert(events.len() > 0);
        let next = smtp_step(v, events[0]);
        let rest = events.skip(1);
        let later = steps(next, rest);
        assert(all == seq![first.1] + later);
        assert(later.len() > 0);
        assert(all.last() == later.last());
        assert(all.skip(1) == later);
        assert(all[0] == first.1);
        assert(turns.skip(k)[0] == turn);
        assert(turns.skip(k).skip(1) == turns.skip(k + 1));
        let sent = sent_in_all(turns.skip(k + 1));
        assert(sent_in_all(turns.skip(k)) == sent_in(turn) + sent);
        assert(Seq::<Seq<u8>>::empty() + sent == sent);
        if v.reply is Some {
            assert(first.1 is Read);
        }
        assert(Seq::<Seq<u8>>::empty() + written(later) == written(later));
        assert(v.reply is Some ==> written(all) == written(later));
        assert(v.reply is None ==> written(all) == sent_in(turn) + written(later));
        lemma_next_turn(turns, k, v, first.1);
        if next == turn_done(v) {
            lemma_all_is_sent(turns, k + 1, next, rest);
            if k + 1 < turns.len() && next.0.reply is Some {
                assert(turns[k + 1] is Expect) by {
                    assert(v.turns.drop_first()[0] == turns[k + 1]);
                }
                assert(turns.skip(k + 1)[0] == turns[k + 1]);
                assert(turns.skip(k + 1).skip(1) == turns.skip(k + 2));
                let more = sent_in_all(turns.skip(k + 2));
                assert(Seq::<Seq<u8>>::empty() + more == more);
                assert(sent == more);
            }
            assert(written(later) == sent);
        } else if next.1 is Finished {
            assert(later == seq![next.1]);
            assert(turn is Quit);
            assert(k == turns.len() - 1);
            assert(turns.skip(k + 1) == Seq::<TurnView>::empty());
            assert(later.skip(1) == Seq::<SmtpStepView>::empty());
            assert(written(later) == sent);
        } else {
            assert(next.1 is Read && next.0.reply is Some);
            assert(has_come_to(turns, k, next.0, next.1));
            lemma_all_is_sent(turns, k, next, rest);
            assert(written(later) == sent);
        }
    } else {
        assert(all == seq![first.1]);
        assert(all[0] is Finished);
        assert(all.skip(1) == Seq::<SmtpStepView>::empty());
        assert(written(all.skip(1)) == Seq::<Seq<u8>>::empty());
        assert(written(all) == Seq::<Seq<u8>>::empty());
        assert(turns.skip(k) == Seq::<TurnView>::empty());
        assert(sent_in_all(turns.skip(k)) == Seq::<Seq<u8>>::empty());
    }
}

proof fn lemma_recipients_are_sent(recipients: Seq<Seq<char>>)
    ensures
        sent_in_all(recipient_turns(recipients)) == Seq::new(
            recipients.len(),
            |i: int| encode_utf8("RCPT TO:<"@ + recipients[i] + ">\r\n"@),
        ),
    decreases recipients.len(),
{
    let turns = recipient_turns(recipients);
    if recipients.len() > 0 {
        lemma_recipients_are_sent(recipients.skip(1));
        assert(turns.skip(1) == recipient_turns(recipients.skip(1)));
        reveal_strlit(">");
        reveal_strlit("\r\n");
        reveal_strlit(">\r\n");
        assert("RCPT TO:<"@ + recipients[0] + ">"@ + "\r\n"@ == "RCPT TO:<"@ + recipients[0]
            + ">\r\n"@);
    }
}

proof fn lemma_the_opening_is_sent(url: Seq<char>)
    ensures
        ({
            let greeted = encode_utf8("EHLO sicompass\r\n"@);
            sent_in_all(opening_turns(url)) == (if text::begins(url, "smtps://"@) {
                seq![greeted]
            } else {
                seq![greeted, encode_utf8("STARTTLS\r\n"@), greeted]
            })
        }),
{
    reveal_strlit("\r\n");
    reveal_strlit("EHLO sicompass");
    reveal_strlit("EHLO sicompass\r\n");
    reveal_strlit("STARTTLS");
    reveal_strlit("STARTTLS\r\n");
    assert("EHLO sicompass"@ + "\r\n"@ == "EHLO sicompass\r\n"@);
    assert("STARTTLS"@ + "\r\n"@ == "STARTTLS\r\n"@);
    let opening = opening_turns(url);
    let none = Seq::<TurnView>::empty();
    let hello = TurnView::Command("EHLO sicompass"@, seq![250u16]);
    let tls = TurnView::Command("STARTTLS"@, seq![220u16]);
    let greeting = TurnView::Expect(seq![220u16]);
    lemma_sent_alone(hello);
    lemma_sent_alone(tls);
    lemma_sent_alone(greeting);
    lemma_sent_alone(TurnView::Upgrade);
    if text::begins(url, "smtps://"@) {
        let first = TurnView::Connect(true);
        lemma_sent_alone(first);
        assert(opening == seq![first] + (seq![greeting] + seq![hello]));
        lemma_sent_in_both(seq![first], seq![greeting] + seq![hello]);
        lemma_sent_in_both(seq![greeting], seq![hello]);
    } else {
        let first = TurnView::Connect(false);
        lemma_sent_alone(first);
        let d = seq![TurnView::Upgrade] + seq![hello];
        let c = seq![tls] + d;
        let b = seq![hello] + c;
        let a = seq![greeting] + b;
        assert(opening == seq![first] + a);
        lemma_sent_in_both(seq![first], a);
        lemma_sent_in_both(seq![greeting], b);
        lemma_sent_in_both(seq![hello], c);
        lemma_sent_in_both(seq![tls], d);
        lemma_sent_in_both(seq![TurnView::Upgrade], seq![hello]);
    }
}

proof fn lemma_sent_alone(turn: TurnView)
    ensures
        sent_in_all(seq![turn]) == sent_in(turn),
{
    assert(seq![turn].skip(1) == Seq::<TurnView>::empty());
    assert(sent_in_all(Seq::<TurnView>::empty()) == Seq::<Seq<u8>>::empty());
    assert(seq![turn][0] == turn);
}

proof fn lemma_what_the_turns_send(
    config: EmailClientConfig,
    sender: Seq<char>,
    recipients: Seq<Seq<char>>,
    raw: Seq<u8>,
)
    ensures
        ({
            let greeted = encode_utf8("EHLO sicompass\r\n"@);
            sent_in_all(all_turns(config, sender, recipients, raw)) == (if text::begins(
                config.smtp_url@,
                "smtps://"@,
            ) {
                seq![greeted]
            } else {
                seq![greeted, encode_utf8("STARTTLS\r\n"@), greeted]
            }) + seq![
                encode_utf8(auth_line(config) + "\r\n"@),
                encode_utf8("MAIL FROM:<"@ + sender + ">\r\n"@),
            ] + Seq::new(
                recipients.len(),
                |i: int| encode_utf8("RCPT TO:<"@ + recipients[i] + ">\r\n"@),
            ) + seq![
                encode_utf8("DATA\r\n"@),
                line_ended(dots_doubled(raw)),
                encode_utf8(".\r\n"@),
                encode_utf8("QUIT\r\n"@),
            ]
        }),
{
    let opening = opening_turns(config.smtp_url@);
    let auth = TurnView::Command(auth_line(config), seq![235u16]);
    let mail = TurnView::Command("MAIL FROM:<"@ + sender + ">"@, seq![250u16]);
    let naming = recipient_turns(recipients);
    let data = TurnView::Command("DATA"@, seq![354u16]);
    let message = TurnView::Write(line_ended(dots_doubled(raw)));
    let dot = TurnView::Command("."@, seq![250u16]);
    let quit = TurnView::Quit("QUIT"@, seq![221u16]);
    let signing = seq![auth] + seq![mail];
    let closing = seq![data] + (seq![message] + (seq![dot] + seq![quit]));
    assert(all_turns(config, sender, recipients, raw) == opening + signing + naming + closing);
    lemma_sent_in_both(opening + signing + naming, closing);
    lemma_sent_in_both(opening + signing, naming);
    lemma_sent_in_both(opening, signing);
    lemma_sent_in_both(seq![auth], seq![mail]);
    lemma_sent_in_both(seq![data], seq![message] + (seq![dot] + seq![quit]));
    lemma_sent_in_both(seq![message], seq![dot] + seq![quit]);
    lemma_sent_in_both(seq![dot], seq![quit]);
    lemma_sent_alone(auth);
    lemma_sent_alone(mail);
    lemma_sent_alone(data);
    lemma_sent_alone(message);
    lemma_sent_alone(dot);
    lemma_sent_alone(quit);
    lemma_the_opening_is_sent(config.smtp_url@);
    lemma_recipients_are_sent(recipients);
    reveal_strlit(">");
    reveal_strlit("\r\n");
    reveal_strlit(">\r\n");
    reveal_strlit("DATA");
    reveal_strlit("DATA\r\n");
    reveal_strlit(".");
    reveal_strlit(".\r\n");
    reveal_strlit("QUIT");
    reveal_strlit("QUIT\r\n");
    assert("DATA"@ + "\r\n"@ == "DATA\r\n"@);
    assert("."@ + "\r\n"@ == ".\r\n"@);
    assert("QUIT"@ + "\r\n"@ == "QUIT\r\n"@);
    assert("MAIL FROM:<"@ + sender + ">"@ + "\r\n"@ == "MAIL FROM:<"@ + sender + ">\r\n"@);
    assert(sent_in_all(signing) == seq![
        encode_utf8(auth_line(config) + "\r\n"@),
        encode_utf8("MAIL FROM:<"@ + sender + ">\r\n"@),
    ]);
    assert(sent_in_all(closing) == seq![
        encode_utf8("DATA\r\n"@),
        line_ended(dots_doubled(raw)),
        encode_utf8(".\r\n"@),
        encode_utf8("QUIT\r\n"@),
    ]);
}

proof fn lemma_leave_is_taken_last(
    config: EmailClientConfig,
    sender: Seq<char>,
    recipients: Seq<Seq<char>>,
    raw: Seq<u8>,
    m: int,
)
    requires
        0 <= m < all_turns(config, sender, recipients, raw).len() - 1,
    ensures
        !(all_turns(config, sender, recipients, raw)[m] is Quit),
{
    let turns = all_turns(config, sender, recipients, raw);
    let opening = opening_turns(config.smtp_url@);
    if m < opening.len() {
        assert(turns[m] == opening[m]);
    } else if opening.len() + 2 <= m < opening.len() + 2 + recipients.len() {
        assert(turns[m] == recipient_turns(recipients)[m - opening.len() - 2]);
    }
}

/// What has been said by the time that a message counts as sent: the client
/// has greeted the server, over TLS in the end, signed in, named the sender
/// and each of the recipients, in their order, and handed over the message and
/// the dot that closes it.
pub proof fn law_a_sent_message_was_handed_over(
    config: EmailClientConfig,
    sender: Seq<char>,
    recipients: Seq<Seq<char>>,
    v: SmtpView,
    events: Seq<SmtpEvent>,
)
    requires
        v.turns == all_turns(config, sender, recipients, v.raw),
        v.reply is None,
        steps(turn_start(v), events).last() matches SmtpStepView::Finished(result) && result is Ok,
    ensures
        ({
            let greeted = encode_utf8("EHLO sicompass\r\n"@);
            written(steps(turn_start(v), events)) == (if text::begins(
                config.smtp_url@,
                "smtps://"@,
            ) {
                seq![greeted]
            } else {
                seq![greeted, encode_utf8("STARTTLS\r\n"@), greeted]
            }) + seq![
                encode_utf8(auth_line(config) + "\r\n"@),
                encode_utf8("MAIL FROM:<"@ + sender + ">\r\n"@),
            ] + Seq::new(
                recipients.len(),
                |i: int| encode_utf8("RCPT TO:<"@ + recipients[i] + ">\r\n"@),
            ) + seq![
                encode_utf8("DATA\r\n"@),
                line_ended(dots_doubled(v.raw)),
                encode_utf8(".\r\n"@),
                encode_utf8("QUIT\r\n"@),
            ]
        }),
        steps(turn_start(v), events).last() == SmtpStepView::Finished(Ok(v.raw)),
{
    let turns = all_turns(config, sender, recipients, v.raw);
    assert(turns.skip(0) == turns);
    assert forall|m: int| 0 <= m < turns.len() - 1 implies !((#[trigger] turns[m]) is Quit) by {
        lemma_leave_is_taken_last(config, sender, recipients, v.raw, m);
    }
    lemma_first_turn(config, sender, recipients, v.raw);
    assert(has_come_to(turns, 0, turn_start(v).0, turn_start(v).1));
    lemma_all_is_sent(turns, 0, turn_start(v), events);
    lemma_ends_with_the_message(turn_start(v), events);
    lemma_what_the_turns_send(config, sender, recipients, v.raw);
}

proof fn lemma_ends_with_the_message(first: (SmtpView, SmtpStepView), events: Seq<SmtpEvent>)
    requires
        first.1 matches SmtpStepView::Finished(r) ==> (r is Ok ==> first.1
            == SmtpStepView::Finished(Ok(first.0.raw))),
        steps(first, events).last() matches SmtpStepView::Finished(result) && result is Ok,
    ensures
        steps(first, events).last() == SmtpStepView::Finished(Ok(first.0.raw)),
    decreases events.len(),
{
    if !(first.1 is Finished) && events.len() > 0 {
        let next = smtp_step(first.0, events[0]);
        let later = steps(next, events.skip(1));
        assert(later.len() > 0);
        assert(steps(first, events).last() == later.last());
        assert(next.0.raw == first.0.raw);
        lemma_ends_with_the_message(next, events.skip(1));
    }
}

/// What each command of a conversation takes for an answer: a greeting is a
/// 220, and so is the go-ahead for TLS; signing in succeeds with a 235; a
/// recipient is taken with a 250 or a 251; the message may follow a 354; all
/// else is answered with a 250.
pub proof fn law_each_command_takes_its_answers(
    config: EmailClientConfig,
    sender: Seq<char>,
    recipients: Seq<Seq<char>>,
    raw: Seq<u8>,
    i: int,
    code: nat,
)
    requires
        0 <= i < all_turns(config, sender, recipients, raw).len(),
    ensures
        match all_turns(config, sender, recipients, raw)[i] {
            TurnView::Expect(ok) => accepts(ok, code) <==> code == 220,
            TurnView::Command(line, ok) => if line == "STARTTLS"@ {
                accepts(ok, code) <==> code == 220
            } else if text::begins(line, "AUTH "@) {
                accepts(ok, code) <==> code == 235
            } else if text::begins(line, "RCPT TO:<"@) {
                accepts(ok, code) <==> code == 250 || code == 251
            } else if line == "DATA"@ {
                accepts(ok, code) <==> code == 354
            } else {
                accepts(ok, code) <==> code == 250
            },
            _ => true,
        },
{
    let turns = all_turns(config, sender, recipients, raw);
    let opening = opening_turns(config.smtp_url@);
    let n = opening.len() as int;
    reveal_strlit("STARTTLS");
    reveal_strlit("AUTH ");
    reveal_strlit("AUTH PLAIN ");
    reveal_strlit("AUTH XOAUTH2 ");
    reveal_strlit("RCPT TO:<");
    reveal_strlit("MAIL FROM:<");
    reveal_strlit("DATA");
    reveal_strlit("EHLO sicompass");
    reveal_strlit(".");
    assert(forall|a: u16| #![trigger seq![a]] accepts(seq![a], code) <==> a == code) by {
        assert forall|a: u16| #![trigger seq![a]] accepts(seq![a], code) <==> a == code by {
            assert(seq![a][0] == a);
        }
    }
    assert(accepts(seq![250u16, 251u16], code) <==> code == 250 || code == 251) by {
        assert(seq![250u16, 251u16][0] == 250 && seq![250u16, 251u16][1] == 251);
    }
    if let TurnView::Command(line, ok) = turns[i] {
        if line.len() >= 5 {
            assert(line.take(5)[0] == line[0]);
        }
        if line.len() >= 9 {
            assert(line.take(9)[0] == line[0]);
        }
        if i < n {
            assert(turns[i] == opening[i]);
            assert("EHLO sicompass"@[0] == 'E' && "STARTTLS"@[0] == 'S');
        } else if i == n {
            assert(line == auth_line(config));
            assert(line.take(5) == "AUTH "@);
            assert(line[0] == 'A');
        } else if i == n + 1 {
            assert(line[0] == 'M');
        } else if i < n + 2 + recipients.len() {
            assert(turns[i] == recipient_turns(recipients)[i - n - 2]);
            let r = recipients[i - n - 2];
            assert(line == "RCPT TO:<"@ + r + ">"@);
            assert(line.take(9) == "RCPT TO:<"@);
            assert(line[0] == 'R');
        } else {
            assert(line == "DATA"@ || line == "."@);
        }
        assert("STARTTLS"@[0] == 'S');
        assert("DATA"@[0] == 'D');
        assert("AUTH "@[0] == 'A');
        assert("RCPT TO:<"@[0] == 'R');
    } else if let TurnView::Expect(ok) = turns[i] {
        if i < n {
            assert(turns[i] == opening[i]);
        } else if n + 2 <= i < n + 2 + recipients.len() {
            assert(turns[i] == recipient_turns(recipients)[i - n - 2]);
        }
    }
}

#[verifier::spinoff_prover]
proof fn lemma_first_turn(
    config: EmailClientConfig,
    sender: Seq<char>,
    recipients: Seq<Seq<char>>,
    raw: Seq<u8>,
)
    ensures
        all_turns(config, sender, recipients, raw).len() > 0,
        all_turns(config, sender, recipients, raw)[0] == TurnView::Connect(
            text::begins(config.smtp_url@, "smtps://"@),
        ),
{
    let opening = opening_turns(config.smtp_url@);
    let signing = seq![
        TurnView::Command(auth_line(config), seq![235u16]),
        TurnView::Command("MAIL FROM:<"@ + sender + ">"@, seq![250u16]),
    ];
    let a = opening + signing;
    let b = a + recipient_turns(recipients);
    let all = all_turns(config, sender, recipients, raw);
    assert(opening.len() >= 3);
    assert(opening[0] == TurnView::Connect(text::begins(config.smtp_url@, "smtps://"@)));
    assert(a[0] == opening[0] && a.len() >= 3);
    assert(b[0] == a[0] && b.len() >= 3);
    assert(all[0] == b[0] && all.len() >= 3);
}

proof fn lemma_scheme(rest: Seq<char>)
    ensures
        text::begins("smtps://"@ + rest, "smtps://"@),
        !text::begins("smtp://"@ + rest, "smtps://"@),
{
    text::law_a_prefix_and_the_rest(rest, "smtps://"@, rest);
    reveal_strlit("smtps://");
    reveal_strlit("smtp://");
    let url = "smtp://"@ + rest;
    assert(url[4] == ':');
    assert(url.len() >= 8 ==> url.take(8)[4] == ':');
}

/// A conversation begins by connecting to its server, with TLS for `smtps://`
/// and without for any other address.
pub proof fn law_a_conversation_begins_with_its_server(
    config: EmailClientConfig,
    sender: Seq<char>,
    recipients: Seq<Seq<char>>,
    v: SmtpView,
    rest: Seq<char>,
)
    requires
        v.turns == all_turns(config, sender, recipients, v.raw),
    ensures
        config.smtp_url@ == "smtps://"@ + rest ==> turn_start(v).1 == SmtpStepView::Open(
            true,
            v.host,
            v.port,
        ),
        config.smtp_url@ == "smtp://"@ + rest ==> turn_start(v).1 == SmtpStepView::Open(
            false,
            v.host,
            v.port,
        ),
{
    lemma_first_turn(config, sender, recipients, v.raw);
    lemma_scheme(rest);
}

proof fn lemma_leading_byte(c: char)
    ensures
        encode_scalar(c as u32).len() > 0,
        encode_scalar(c as u32)[0] == 45 <==> c == '-',
        (c as u32) < 128 ==> encode_scalar(c as u32).len() == 1,
{
    let s = c as u32;
    char_is_scalar(c);
    if has_width_1_encoding(s) {
        assert(leading_byte_width_1(s) == 45 <==> s == 45) by (bit_vector)
            requires
                has_width_1_encoding(s),
        ;
    } else if has_width_2_encoding(s) {
        assert(leading_byte_width_2(s) != 45) by (bit_vector)
            requires
                has_width_2_encoding(s),
        ;
    } else if has_width_3_encoding(s) {
        assert(leading_byte_width_3(s) != 45) by (bit_vector)
            requires
                has_width_3_encoding(s),
        ;
    } else {
        assert(leading_byte_width_4(s) != 45) by (bit_vector);
    }
}

/// A reply starts with the three digits of its code, and goes on in the next
/// line exactly where a hyphen follows them.
pub proof fn law_a_reply_starts_with_its_code(a: nat, b: nat, c: nat, rest: Seq<char>)
    requires
        a < 10,
        b < 10,
        c < 10,
    ensures
        ({
            let line = seq![text::digit_char(a), text::digit_char(b), text::digit_char(c)] + rest;
            &&& reply_code(line) == 100 * a + 10 * b + c
            &&& continues(line) <==> rest.len() > 0 && rest[0] == '-'
        }),
{
    let x = text::digit_char(a);
    let y = text::digit_char(b);
    let z = text::digit_char(c);
    let head = seq![x, y, z];
    let line = head + rest;
    assert(line.take(3) == head);
    assert(text::is_digit(x) && text::is_digit(y) && text::is_digit(z));
    assert(head[0] == x && head[1] == y && head[2] == z);
    assert(text::all_digits(head));
    assert(text::unsigned_part(head) == head);
    assert(head.drop_last() == seq![x, y]);
    assert(seq![x, y].drop_last() == seq![x]);
    assert(seq![x].drop_last() == Seq::<char>::empty());
    reveal_with_fuel(text::digits_value, 4);
    assert(text::digits_value(head) == 100 * a + 10 * b + c);
    lemma_leading_byte(x);
    lemma_leading_byte(y);
    lemma_leading_byte(z);
    assert(line.drop_first() == seq![y, z] + rest);
    assert((seq![y, z] + rest).drop_first() == seq![z] + rest);
    assert((seq![z] + rest).drop_first() == rest);
    reveal_with_fuel(encode_utf8, 4);
    let bytes = encode_utf8(line);
    assert(bytes == encode_scalar(x as u32) + (encode_scalar(y as u32) + (encode_scalar(z as u32)
        + encode_utf8(rest))));
    if rest.len() > 0 {
        lemma_leading_byte(rest[0]);
        assert(encode_utf8(rest)[0] == encode_scalar(rest[0] as u32)[0]);
        assert(bytes[3] == encode_utf8(rest)[0]);
    }
}

/// A line that cannot start with a code stands for none, so that no command
/// takes it for an answer.
pub proof fn law_a_line_without_a_code_is_no_answer(line: Seq<char>)
    requires
        line.len() < 3 || !text::is_digit(line[1]) || !text::is_digit(line[2]),
    ensures
        reply_code(line) == 0,
{
    if line.len() >= 3 {
        let head = line.take(3);
        let i: int = if text::is_digit(line[1]) {
            2
        } else {
            1
        };
        assert(head[i] == line[i]);
        let d = text::unsigned_part(head);
        assert(!text::is_digit(
            d[if head[0] == '+' {
                i - 1
            } else {
                i
            }],
        ));
        assert(!text::all_digits(d));
    }
}

/// What is awaited of a server is read line by line: a line that goes on is
/// kept, and the one that ends the reply decides. With a code that the command
/// takes, the conversation goes on with its next turn, with nothing of the
/// reply left; with any other it fails, and says all that the server said.
pub proof fn law_the_last_line_of_a_reply_decides(
    v: SmtpView,
    before: Seq<char>,
    line: String,
    said: Seq<char>,
    after: Seq<char>,
)
    requires
        v.turns.len() > 0,
        v.reply == Some(before),
        line@ == said + after,
        said.len() > 0,
        !text::white_space(said.last()),
        text::is_blank(after),
    ensures
        ({
            let (next, step) = smtp_step(v, SmtpEvent::Line(line));
            &&& continues(said) ==> step is Read && next.turns == v.turns && next.reply == Some(
                before + said + seq!['\n'],
            )
            &&& !continues(said) && accepts(expected(v.turns[0]), reply_code(said)) ==> {
                &&& next.turns == v.turns.skip(1)
                &&& v.turns.len() == 1 ==> step == SmtpStepView::Finished(Ok(v.raw))
                &&& v.turns.len() > 1 ==> match v.turns[1] {
                    TurnView::Connect(tls) => step == SmtpStepView::Open(tls, v.host, v.port)
                        && next.reply is None,
                    TurnView::Expect(_) => step is Read && next.reply == Some(Seq::<char>::empty()),
                    TurnView::Command(words, _) => step == SmtpStepView::Write(
                        encode_utf8(words + seq!['\r', '\n']),
                    ) && next.reply is None,
                    TurnView::Upgrade => step == SmtpStepView::StartTls(v.host) && next.reply is None,
                    TurnView::Write(bytes) => step == SmtpStepView::Write(bytes)
                        && next.reply is None,
                    TurnView::Quit(words, _) => step == SmtpStepView::Write(
                        encode_utf8(words + seq!['\r', '\n']),
                    ) && next.reply is None,
                }
            }
            &&& !continues(said) && !accepts(expected(v.turns[0]), reply_code(said)) && !(
            v.turns[0] is Quit) ==> (step matches SmtpStepView::Finished(Err(e)) && e.len() >= (
            before + said).len() && e.skip(e.len() - (before + said).len()) == before + said)
            &&& next.raw == v.raw
            &&& next.host == v.host
            &&& next.port == v.port
        }),
{
    text::law_trimming_takes_the_blanks_around_a_text(Seq::empty(), said, after);
    reveal_strlit("\n");
    reveal_strlit("\r\n");
    assert("\n"@ == seq!['\n']);
    assert("\r\n"@ == seq!['\r', '\n']);
    let (next, step) = smtp_step(v, SmtpEvent::Line(line));
    assert(line@.len() > 0);
    assert(text::trimmed_end(line@) == said);
    assert(v.turns.drop_first() == v.turns.skip(1));
    if v.turns.len() > 1 {
        assert(v.turns.skip(1)[0] == v.turns[1]);
    }
    let all = before + said;
    assert(all.len() > 0 && all.last() == said.last());
    assert(text::is_blank("\n"@));
    text::law_trimming_takes_the_blanks_around_a_text(Seq::empty(), all, "\n"@);
    if !continues(said) && !accepts(expected(v.turns[0]), reply_code(said)) && !(v.turns[0] is Quit) {
        assert(text::trimmed_end(before + said + "\n"@) == all);
        let e = reply_error(v.turns[0], all);
        assert(step == SmtpStepView::Finished(Err(e)));
        let n = e.len() - all.len();
        assert(e.skip(n) == all);
    }
}

/// A step that was done is followed by what its turn still asks for: after a
/// command its reply is read, and after anything else the next turn begins.
pub proof fn law_what_was_done_is_followed_up(v: SmtpView)
    requires
        v.turns.len() > 0,
        v.reply is None,
    ensures
        ({
            let (next, step) = smtp_step(v, SmtpEvent::Done);
            &&& v.turns[0] is Command || v.turns[0] is Quit ==> step is Read && next.turns == v.turns
                && next.reply == Some(Seq::<char>::empty())
            &&& !(v.turns[0] is Command || v.turns[0] is Quit) ==> next.turns == v.turns.skip(1) && (
            next, step) == turn_start(SmtpView { turns: v.turns.skip(1), ..v })
        }),
{
    assert(v.turns.drop_first() == v.turns.skip(1));
}

/// A command that is refused is named by its first two words, and why is what
/// the server said.
pub proof fn law_a_refused_command_is_named(
    first: Seq<char>,
    second: Seq<char>,
    rest: Seq<char>,
    ok: Seq<u16>,
    e: Seq<char>,
)
    requires
        first.len() > 0,
        second.len() > 0,
        forall|i: int| 0 <= i < first.len() ==> !text::white_space(#[trigger] first[i]),
        forall|i: int| 0 <= i < second.len() ==> !text::white_space(#[trigger] second[i]),
        rest.len() == 0 || text::white_space(rest[0]),
        !text::begins(first + seq![' '] + second, "AUTH"@),
    ensures
        reply_error(TurnView::Command(first, ok), e) == "SMTP "@ + first + ": "@ + e
            || text::begins(first, "AUTH"@),
        reply_error(TurnView::Command(first + seq![' '] + second + rest, ok), e) == "SMTP "@ + first
            + " "@ + second + ": "@ + e,
{
    let none = Seq::<char>::empty();
    reveal_strlit(" ");
    assert(" "@ == seq![' ']);
    assert(text::is_blank(none));
    assert(text::white_space(' '));
    let line = first + seq![' '] + second + rest;
    let tail = seq![' '] + second + rest;
    assert(line == none + first + tail);
    assert(tail[0] == ' ');
    text::law_words_stand_between_blanks(none, first, tail);
    assert(text::is_blank(seq![' ']));
    text::law_words_stand_between_blanks(seq![' '], second, rest);
    text::law_words_stand_between_blanks(none, first, none);
    assert(none + first + none == first);
    let words = text::word_seq(line);
    assert(words == seq![first] + (seq![second] + text::word_seq(rest)));
    assert(words.take(2) == seq![first] + seq![second]);
    text::law_joining_puts_separators_between(seq![first], seq![second], " "@);
    text::law_joining_puts_separators_between(seq![second], seq![second], " "@);
    assert(text::joined(words.take(2), " "@) == first + " "@ + second);
    let one = text::word_seq(first);
    assert(one == seq![first]);
    assert(one.take(1) == one);
    assert("SMTP "@ + (first + " "@ + second) + ": "@ + e == "SMTP "@ + first + " "@ + second + ": "@
        + e);
}

/// The account signs in as itself: with its user name and its password, a NUL
/// before each, or with its access token where it has one.
pub proof fn law_the_account_signs_in_as_itself(config: EmailClientConfig)
    requires
        forall|i: int| 0 <= i < config.username@.len() ==> (#[trigger] config.username@[i]) != '\0',
        forall|i: int| 0 <= i < config.password@.len() ==> (#[trigger] config.password@[i]) != '\0',
        forall|i: int| 0 <= i < config.username@.len() ==> (#[trigger] config.username@[i]) != '\u{1}',
        forall|i: int|
            0 <= i < config.oauth_access_token@.len() ==> (#[trigger] config.oauth_access_token@[i])
                != '\u{1}',
    ensures
        config.oauth_access_token@.len() == 0 ==> {
            &&& text::pieces(credentials(config), seq!['\0']) == seq![
                Seq::<char>::empty(),
                config.username@,
                config.password@,
            ]
            &&& auth_line(config) == "AUTH PLAIN "@ + codec::base64_text(
                encode_utf8(credentials(config)),
            )
        },
        config.oauth_access_token@.len() > 0 ==> {
            &&& text::pieces(credentials(config), seq!['\u{1}']) == seq![
                "user="@ + config.username@,
                "auth=Bearer "@ + config.oauth_access_token@,
                Seq::<char>::empty(),
                Seq::<char>::empty(),
            ]
            &&& auth_line(config) == "AUTH XOAUTH2 "@ + codec::base64_text(
                encode_utf8(credentials(config)),
            )
        },
{
    let none = Seq::<char>::empty();
    let user = config.username@;
    let password = config.password@;
    reveal_strlit("\0");
    assert("\0"@ == seq!['\0']);
    if config.oauth_access_token@.len() == 0 {
        let c = credentials(config);
        text::law_a_piece_ends_at_the_separator(none, user + seq!['\0'] + password, '\0');
        text::law_a_piece_ends_at_the_separator(user, password, '\0');
        text::law_a_piece_ends_at_the_separator(password, none, '\0');
        assert(c == none + seq!['\0'] + (user + seq!['\0'] + password));
    } else {
        connection::law_a_token_is_told_with_its_user(user, config.oauth_access_token@);
    }
}

/// A message is not sent for one of these reasons alone: the server's address
/// cannot be read, nobody is to get it, or it cannot be composed.
pub proof fn law_why_a_message_is_not_sent(
    config: EmailClientConfig,
    from: Seq<char>,
    to: Seq<Seq<char>>,
    cc: Seq<Seq<char>>,
    bcc: Seq<Seq<char>>,
    subject: Seq<char>,
    body: BodyView,
)
    ensures
        ({
            let why = send_error(config, from, to, cc, bcc, subject, body);
            let composing = compose::compose_error(
                seq![from] + to + cc + bcc,
                compose::draft(from, to, cc, bcc, subject),
                body,
            );
            &&& smtp_url(config.smtp_url@) is None ==> why == Some(
                "cannot parse SMTP URL: "@ + config.smtp_url@,
            )
            &&& smtp_url(config.smtp_url@) is Some && to.len() == 0 ==> why == Some(
                "no recipients"@,
            )
            &&& smtp_url(config.smtp_url@) is Some && to.len() > 0 ==> why == composing
        }),
{
}

/// Whether `turns` name the recipient `address` to the server.
pub open spec fn names(turns: Seq<TurnView>, address: Seq<char>) -> bool {
    exists|k: int|
        0 <= k < turns.len() && ((#[trigger] turns[k]) matches TurnView::Command(line, _) && line
            == "RCPT TO:<"@ + address + ">"@)
}

proof fn lemma_names(
    config: EmailClientConfig,
    sender: Seq<char>,
    recipients: Seq<Seq<char>>,
    raw: Seq<u8>,
    i: int,
)
    requires
        0 <= i < recipients.len(),
    ensures
        names(all_turns(config, sender, recipients, raw), recipients[i]),
{
    let turns = all_turns(config, sender, recipients, raw);
    let k = opening_turns(config.smtp_url@).len() + 2 + i;
    assert(turns[k] == recipient_turns(recipients)[i]);
}

/// Everyone gets the message: each of those it is to, and each who gets a copy
/// or a blind copy, is named to the server by the address of their mailbox.
pub proof fn law_everyone_is_named_to_the_server(
    backend: RealSmtp,
    from: &str,
    to: &[&str],
    cc: &[&str],
    bcc: &[&str],
    subject: &str,
    body: &MailBody,
    attachments: &[(&str, &[u8])],
    r: Result<Smtp, String>,
    i: int,
)
    requires
        call_ensures(
            RealSmtp::send,
            (&backend, from, to, cc, bcc, subject, body, attachments),
            r,
        ),
        smtp_url(backend.config().smtp_url@) is Some,
        compose::plain_mailbox(from@),
        to@.len() > 0,
        compose::plain_mailboxes(text::str_views(to@)),
        compose::plain_mailboxes(text::str_views(cc@)),
        compose::plain_mailboxes(text::str_views(bcc@)),
        compose::sent_text(body@) is Ok,
    ensures
        r matches Ok(smtp) && {
            &&& 0 <= i < to@.len() ==> names(smtp@.turns, compose::mailbox_address(to@[i]@))
            &&& 0 <= i < cc@.len() ==> names(smtp@.turns, compose::mailbox_address(cc@[i]@))
            &&& 0 <= i < bcc@.len() ==> names(smtp@.turns, compose::mailbox_address(bcc@[i]@))
        },
{
    let all = text::str_views(to@) + text::str_views(cc@) + text::str_views(bcc@);
    let addresses = compose::mailbox_addresses(all);
    let raw = r->Ok_0@.raw;
    let sender = compose::mailbox_address(from@);
    if 0 <= i < to@.len() {
        assert(all[i] == to@[i]@);
        lemma_names(backend.config(), sender, addresses, raw, i);
    }
    if 0 <= i < cc@.len() {
        assert(all[to@.len() + i] == cc@[i]@);
        lemma_names(backend.config(), sender, addresses, raw, to@.len() + i);
    }
    if 0 <= i < bcc@.len() {
        assert(all[to@.len() + cc@.len() + i] == bcc@[i]@);
        lemma_names(backend.config(), sender, addresses, raw, to@.len() + cc@.len() + i);
    }
}

} // verus!
