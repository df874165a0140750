//! The values the email client works on.

use crate::ffon;
use crate::text;
use sicompass_sdk::ffon::FfonElement;
use vstd::prelude::*;

verus! {

/// The account: where its servers are and how to sign in.
#[derive(Debug)]
pub struct EmailClientConfig {
    pub imap_url: String,
    pub smtp_url: String,
    pub username: String,
    pub password: String,
    /// Empty when the account signs in with its password.
    pub oauth_access_token: String,
}

impl Clone for EmailClientConfig {
    fn clone(&self) -> (r: Self)
        ensures
            r == *self,
    {
        EmailClientConfig {
            imap_url: self.imap_url.clone(),
            smtp_url: self.smtp_url.clone(),
            username: self.username.clone(),
            password: self.password.clone(),
            oauth_access_token: self.oauth_access_token.clone(),
        }
    }
}

impl Default for EmailClientConfig {
    fn default() -> (r: Self)
        ensures
            r.imap_url@.len() == 0,
            r.smtp_url@.len() == 0,
            r.username@.len() == 0,
            r.password@.len() == 0,
            r.oauth_access_token@.len() == 0,
    {
        EmailClientConfig {
            imap_url: String::new(),
            smtp_url: String::new(),
            username: String::new(),
            password: String::new(),
            oauth_access_token: String::new(),
        }
    }
}

/// A folder, with the attributes its server gives it (`\Trash`, `\Sent`, ...).
#[derive(Debug, Clone)]
pub struct FolderInfo {
    pub name: String,
    pub attributes: Vec<String>,
}

/// What is known of a folder.
#[verifier::ext_equal]
pub struct FolderInfoView {
    pub name: Seq<char>,
    pub attributes: Seq<Seq<char>>,
}

impl View for FolderInfo {
    type V = FolderInfoView;

    open spec fn view(&self) -> FolderInfoView {
        FolderInfoView { name: self.name@, attributes: text::string_views(self.attributes@) }
    }
}

/// What is known of the folders `v`.
pub open spec fn folder_views(v: Seq<FolderInfo>) -> Seq<FolderInfoView> {
    Seq::new(v.len(), |i: int| v[i]@)
}

/// What a folder listing shows of a message.
#[derive(Debug)]
pub struct MessageHeader {
    pub uid: u32,
    pub from: String,
    pub subject: String,
    pub date: String,
    pub seen: bool,
    pub flagged: bool,
    pub message_id: String,
}

impl Clone for MessageHeader {
    fn clone(&self) -> (r: Self)
        ensures
            r == *self,
    {
        MessageHeader {
            uid: self.uid,
            from: self.from.clone(),
            subject: self.subject.clone(),
            date: self.date.clone(),
            seen: self.seen,
            flagged: self.flagged,
            message_id: self.message_id.clone(),
        }
    }
}

/// What a message header holds.
#[verifier::ext_equal]
pub struct HeaderView {
    pub uid: u32,
    pub from: Seq<char>,
    pub subject: Seq<char>,
    pub date: Seq<char>,
    pub seen: bool,
    pub flagged: bool,
    pub message_id: Seq<char>,
}

impl View for MessageHeader {
    type V = HeaderView;

    open spec fn view(&self) -> HeaderView {
        HeaderView {
            uid: self.uid,
            from: self.from@,
            subject: self.subject@,
            date: self.date@,
            seen: self.seen,
            flagged: self.flagged,
            message_id: self.message_id@,
        }
    }
}

/// What the headers `v` hold.
pub open spec fn header_views(v: Seq<MessageHeader>) -> Seq<HeaderView> {
    Seq::new(v.len(), |i: int| v[i]@)
}

/// The body of a message: plain text, or an FFON document.
#[derive(Debug, Clone)]
pub enum MailBody {
    Text(String),
    Ffon(Vec<FfonElement>),
}

/// What a message body holds.
pub enum BodyView {
    Text(Seq<char>),
    Ffon(Seq<ffon::Node>),
}

impl View for MailBody {
    type V = BodyView;

    open spec fn view(&self) -> BodyView {
        match self {
            MailBody::Text(s) => BodyView::Text(s@),
            MailBody::Ffon(elems) => BodyView::Ffon(ffon::nodes(elems@)),
        }
    }
}

/// A file that came with a message.
#[derive(Debug, Clone)]
pub struct EmailAttachment {
    pub filename: String,
    pub content_type: String,
    pub data: Vec<u8>,
}

/// What an attachment holds.
#[verifier::ext_equal]
pub struct AttachmentView {
    pub filename: Seq<char>,
    pub content_type: Seq<char>,
    pub data: Seq<u8>,
}

impl View for EmailAttachment {
    type V = AttachmentView;

    open spec fn view(&self) -> AttachmentView {
        AttachmentView {
            filename: self.filename@,
            content_type: self.content_type@,
            data: self.data@,
        }
    }
}

/// A message, read whole.
#[derive(Debug, Clone)]
pub struct EmailMessage {
    pub uid: u32,
    pub from: String,
    pub to: String,
    pub subject: String,
    pub date: String,
    pub body: MailBody,
    pub message_id: String,
    pub in_reply_to: String,
    pub references: String,
    pub attachments: Vec<EmailAttachment>,
}

/// What a message holds.
#[verifier::ext_equal]
pub struct MessageView {
    pub uid: u32,
    pub from: Seq<char>,
    pub to: Seq<char>,
    pub subject: Seq<char>,
    pub date: Seq<char>,
    pub body: BodyView,
    pub message_id: Seq<char>,
    pub in_reply_to: Seq<char>,
    pub references: Seq<char>,
    pub attachments: Seq<AttachmentView>,
}

/// What the attachments `v` hold.
pub open spec fn attachment_views(v: Seq<EmailAttachment>) -> Seq<AttachmentView> {
    Seq::new(v.len(), |i: int| v[i]@)
}

impl View for EmailMessage {
    type V = MessageView;

    open spec fn view(&self) -> MessageView {
        MessageView {
            uid: self.uid,
            from: self.from@,
            to: self.to@,
            subject: self.subject@,
            date: self.date@,
            body: self.body@,
            message_id: self.message_id@,
            in_reply_to: self.in_reply_to@,
            references: self.references@,
            attachments: attachment_views(self.attachments@),
        }
    }
}

/// One entry of a message's history: text that is known, or a message to look
/// up.
#[derive(Debug, Clone)]
pub enum HistoryItem {
    Label(String),
    FetchUid(u32),
    FetchMessageId(String),
}

/// What a background task has to say.
#[derive(Debug)]
pub enum TaskEvent {
    /// Something it emitted.
    Progress(Vec<u8>),
    /// It has ended, with this.
    Done(Result<Vec<u8>, String>),
}

/// What a list of headers is keeps every one of them, in its place.
pub proof fn law_a_list_keeps_every_header(v: Seq<MessageHeader>, i: int)
    ensures
        header_views(v).len() == v.len(),
        0 <= i < v.len() ==> header_views(v)[i] == v[i]@,
{
}

} // verus!
