use emailclient::cache::EnvelopeCache;
use emailclient::envelope::{Envelope, Fetch, Flag};
use emailclient::folders::{Name, NameAttribute};
use emailclient::imap::{changed_flag, pick_message, Outcome, RealImap, Reply, Request, Step};
use emailclient::types::{EmailClientConfig, MailBody, MessageHeader};

fn backend() -> RealImap {
    RealImap::from_config(&EmailClientConfig {
        imap_url: "imaps://imap.example.com".to_owned(),
        username: "me@example.com".to_owned(),
        password: "hunter2".to_owned(),
        ..Default::default()
    })
}

/// A backend that has a session.
fn connected() -> RealImap {
    let mut imap = backend();
    assert!(matches!(imap.list_folders(), Step::Ask(Request::Connect)));
    assert!(matches!(imap.resume(Reply::Done), Step::Ask(Request::List)));
    assert!(matches!(imap.resume(Reply::Names(vec![])), Step::Finished(Outcome::Folders(Ok(f))) if f.is_empty()));
    imap
}

fn fetched(uid: u32, subject: &str) -> Fetch {
    Fetch {
        uid: Some(uid),
        envelope: Some(Envelope {
            date: None,
            subject: Some(subject.as_bytes().to_vec()),
            from: None,
            message_id: None,
        }),
        flags: vec![Flag::Flagged],
        body: None,
    }
}

fn uids(step: Step) -> Vec<u32> {
    match step {
        Step::Finished(Outcome::Messages(Ok(headers))) => {
            headers.iter().map(|h: &MessageHeader| h.uid).collect()
        }
        other => panic!("{other:?}"),
    }
}

fn selected(exists: u32) -> Reply {
    Reply::Selected { exists, uid_validity: Some(9) }
}

#[test]
fn folders_are_listed_over_a_new_session() {
    let mut imap = backend();
    assert!(matches!(imap.list_folders(), Step::Ask(Request::Connect)));
    assert!(matches!(imap.resume(Reply::Done), Step::Ask(Request::List)));
    let names = vec![Name {
        name: "Sent".to_owned(),
        attributes: vec![NameAttribute::Sent],
    }];
    match imap.resume(Reply::Names(names)) {
        Step::Finished(Outcome::Folders(Ok(folders))) => {
            assert_eq!(folders[0].name, "Sent");
            assert_eq!(folders[0].attributes, vec!["\\Sent".to_owned()]);
        }
        other => panic!("{other:?}"),
    }
    // The session is kept.
    assert!(matches!(imap.list_folders(), Step::Ask(Request::List)));
}

#[test]
fn a_listing_is_fetched_whole_and_then_served_from_the_cache() {
    let mut imap = backend();
    assert!(matches!(imap.list_messages("INBOX", 2), Step::Ask(Request::OpenCache(a)) if a == "me@example.com"));
    assert!(matches!(imap.resume(Reply::Cache(Some(EnvelopeCache::new()))), Step::Ask(Request::Connect)));
    assert!(matches!(imap.resume(Reply::Done), Step::Ask(Request::Select(f)) if f == "INBOX"));
    match imap.resume(selected(3)) {
        Step::Ask(Request::Fetch(range, items)) => {
            assert_eq!(range, "2:3");
            assert_eq!(items, "(UID ENVELOPE FLAGS)");
        }
        other => panic!("{other:?}"),
    }
    let step = imap.resume(Reply::Fetched(vec![fetched(5, "a"), fetched(7, "b")]));
    assert_eq!(uids(step), vec![7, 5]);
    let saved = imap.cache_to_save().unwrap();
    assert_eq!(saved.len(), 1);
    assert_eq!(saved[0].0, "INBOX");
    assert!(imap.cache_to_save().is_none());

    // As many as are cached: nothing is fetched.
    assert!(matches!(imap.list_messages("INBOX", 9), Step::Ask(Request::Select(_))));
    assert_eq!(uids(imap.resume(selected(2))), vec![7, 5]);
    assert!(imap.cache_to_save().is_none());

    // One more: only what is above the greatest UID is fetched.
    imap.list_messages("INBOX", 2);
    match imap.resume(selected(3)) {
        Step::Ask(Request::UidFetch(range, items)) => {
            assert_eq!(range, "8:*");
            assert_eq!(items, "(UID ENVELOPE FLAGS)");
        }
        other => panic!("{other:?}"),
    }
    assert_eq!(uids(imap.resume(Reply::Fetched(vec![fetched(9, "c")]))), vec![9, 7]);
    assert!(imap.cache_to_save().is_some());

    // Another UIDVALIDITY: the folder is flushed.
    imap.list_messages("INBOX", 50);
    match imap.resume(Reply::Selected { exists: 3, uid_validity: None }) {
        Step::Ask(Request::Fetch(range, _)) => assert_eq!(range, "1:3"),
        other => panic!("{other:?}"),
    }
    assert!(imap.cache_to_save().is_some());
}

#[test]
fn an_empty_folder_is_not_fetched() {
    let mut imap = connected();
    imap.list_messages("INBOX", 2);
    assert!(matches!(imap.resume(Reply::Cache(None)), Step::Ask(Request::Select(_))));
    assert!(uids(imap.resume(selected(0))).is_empty());
    assert!(imap.cache_to_save().is_none());
}

#[test]
fn a_message_is_read_by_its_uid() {
    let mut imap = connected();
    assert!(matches!(imap.fetch_message("INBOX", 7), Step::Ask(Request::Select(f)) if f == "INBOX"));
    assert!(matches!(imap.resume(selected(1)), Step::Ask(Request::UidFetch(u, i)) if u == "7" && i == "BODY[]"));
    let mut message = fetched(7, "");
    message.body = Some(b"Subject: hi\r\n\r\nbody".to_vec());
    match imap.resume(Reply::Fetched(vec![fetched(6, ""), message.clone()])) {
        Step::Finished(Outcome::Message(Ok(Some(m)))) => {
            assert_eq!(m.uid, 7);
            assert_eq!(m.subject, "hi");
            assert!(matches!(m.body, MailBody::Text(t) if t == "body"));
        }
        other => panic!("{other:?}"),
    }
    assert!(pick_message(&vec![message.clone()], 8).is_none());
    assert!(pick_message(&vec![fetched(7, ""), message], 7).is_none());
}

#[test]
fn a_message_is_found_by_its_message_id() {
    let mut imap = connected();
    imap.fetch_message_by_message_id("INBOX", "<a@b>");
    assert!(matches!(imap.resume(selected(1)), Step::Ask(Request::UidSearch(q)) if q == "HEADER Message-ID <a@b>"));
    assert!(matches!(imap.resume(Reply::Uids(vec![4, 2])), Step::Ask(Request::Select(_))));
    assert!(matches!(imap.resume(selected(1)), Step::Ask(Request::UidFetch(u, _)) if u == "4"));
    imap.fetch_message_by_message_id("INBOX", "<a@b>");
    imap.resume(selected(1));
    assert!(matches!(imap.resume(Reply::Uids(vec![])), Step::Finished(Outcome::Message(Ok(None)))));
}

#[test]
fn a_backend_connects_by_its_own_settings() {
    let plan = backend().plan().unwrap();
    assert_eq!(plan.url, "imaps://imap.example.com");
    assert_eq!(plan.host, "imap.example.com");
    assert_eq!(plan.port, 993);
    let none = RealImap::from_config(&EmailClientConfig::default());
    assert_eq!(none.plan().unwrap_err(), "cannot parse IMAP URL: ");
}

#[test]
fn what_is_to_be_written_out_stays_so() {
    let mut cache = EnvelopeCache::new();
    cache.invalidate_folder("INBOX", 9);
    let mut imap = backend();
    imap.list_messages("INBOX", 2);
    imap.resume(Reply::Cache(Some(cache)));
    imap.resume(Reply::Failed("no route".to_owned()));
    imap.list_folders();
    imap.resume(Reply::Done);
    imap.resume(Reply::Names(vec![]));
    assert_eq!(imap.cache_to_save().unwrap().len(), 1);
    assert!(imap.cache_to_save().is_none());
}

#[test]
fn flags_are_stored_and_cached() {
    let seen = vec!["\\Seen".to_owned(), "$x".to_owned()];
    let flagged = vec!["\\Flagged".to_owned()];
    assert_eq!(changed_flag(&seen, &flagged, "\\Seen"), Some(true));
    assert_eq!(changed_flag(&seen, &flagged, "\\Flagged"), Some(false));
    assert_eq!(changed_flag(&seen, &flagged, "\\Deleted"), None);
    let mut imap = connected();
    imap.set_flags("INBOX", 7, &["\\Seen", "$x"], &["\\Flagged"]);
    match imap.resume(selected(1)) {
        Step::Ask(Request::UidStore(u, q)) => {
            assert_eq!(u, "7");
            assert_eq!(q, "+FLAGS (\\Seen $x)");
        }
        other => panic!("{other:?}"),
    }
    match imap.resume(Reply::Fetched(vec![])) {
        Step::Ask(Request::UidStore(_, q)) => assert_eq!(q, "-FLAGS (\\Flagged)"),
        other => panic!("{other:?}"),
    }
    assert!(matches!(imap.resume(Reply::Fetched(vec![])), Step::Ask(Request::OpenCache(_))));
    let mut cache = EnvelopeCache::new();
    cache.upsert_all(
        "INBOX",
        &[MessageHeader {
            uid: 7,
            from: String::new(),
            subject: String::new(),
            date: String::new(),
            seen: false,
            flagged: true,
            message_id: String::new(),
        }],
    );
    cache.take_unsaved();
    assert!(matches!(imap.resume(Reply::Cache(Some(cache))), Step::Finished(Outcome::Unit(Ok(())))));
    let saved = imap.cache_to_save().unwrap();
    let header = saved[0].1.envelopes.get(&7).unwrap();
    assert!(header.seen);
    assert!(!header.flagged);
}

#[test]
fn a_move_falls_back_to_copying() {
    let mut imap = connected();
    imap.move_message("INBOX", 7, "Trash");
    assert!(matches!(imap.resume(selected(1)), Step::Ask(Request::UidMove(u, d)) if u == "7" && d == "Trash"));
    assert!(matches!(imap.resume(Reply::Done), Step::Finished(Outcome::Unit(Ok(())))));

    imap.move_message("INBOX", 7, "Trash");
    imap.resume(selected(1));
    assert!(matches!(imap.resume(Reply::Failed("no MOVE".to_owned())), Step::Ask(Request::UidCopy(u, d)) if u == "7" && d == "Trash"));
    assert!(matches!(imap.resume(Reply::Done), Step::Ask(Request::UidStore(_, q)) if q == "+FLAGS (\\Deleted)"));
    assert!(matches!(imap.resume(Reply::Fetched(vec![])), Step::Ask(Request::UidExpunge(u)) if u == "7"));
    assert!(matches!(imap.resume(Reply::Uids(vec![])), Step::Finished(Outcome::Unit(Ok(())))));
}

#[test]
fn a_message_that_cannot_be_copied_is_not_deleted() {
    let mut imap = connected();
    imap.move_message("INBOX", 7, "Trash");
    imap.resume(selected(1));
    imap.resume(Reply::Failed("no MOVE".to_owned()));
    assert!(matches!(imap.resume(Reply::Failed("no such folder".to_owned())), Step::Ask(Request::Logout)));
    match imap.resume(Reply::Failed("whatever".to_owned())) {
        Step::Finished(Outcome::Unit(Err(e))) => assert_eq!(e, "no such folder"),
        other => panic!("{other:?}"),
    }
    // The next call reconnects.
    assert!(matches!(imap.expunge_uid("INBOX", 7), Step::Ask(Request::Connect)));
    assert!(matches!(imap.resume(Reply::Done), Step::Ask(Request::Select(_))));
    assert!(matches!(imap.resume(selected(1)), Step::Ask(Request::UidExpunge(u)) if u == "7"));
}

#[test]
fn a_session_that_cannot_be_opened_is_an_error_at_once() {
    let mut imap = backend();
    imap.copy_message("INBOX", 7, "Archive");
    match imap.resume(Reply::Failed("no route".to_owned())) {
        Step::Finished(Outcome::Unit(Err(e))) => assert_eq!(e, "no route"),
        other => panic!("{other:?}"),
    }
    let mut imap = connected();
    imap.copy_message("INBOX", 7, "Archive");
    assert!(matches!(imap.resume(selected(1)), Step::Ask(Request::UidCopy(u, d)) if u == "7" && d == "Archive"));
    let mut imap = connected();
    assert!(matches!(imap.append("Sent", &[1]), Step::Ask(Request::Append(f, m)) if f == "Sent" && m == [1]));
}

#[test]
fn a_reply_that_does_not_fit_is_an_error() {
    let mut imap = connected();
    imap.list_folders();
    match imap.resume(Reply::Uids(vec![])) {
        Step::Finished(Outcome::Folders(Err(e))) => assert_eq!(e, "unexpected reply"),
        other => panic!("{other:?}"),
    }
    assert!(matches!(imap.resume(Reply::Done), Step::Finished(Outcome::Unit(Err(_)))));
}

#[test]
fn threads_come_over_their_own_connection() {
    let mut imap = backend();
    assert!(matches!(imap.fetch_threads("INBOX"), Step::Ask(Request::OpenThreads)));
    assert!(matches!(imap.resume(Reply::Line(b"* OK\r\n".to_vec())), Step::Ask(Request::SendThreads(l)) if l == "t1 LOGIN \"me@example.com\" \"hunter2\"\r\n"));
    assert!(matches!(imap.resume(Reply::Line(b"t1 OK\r\n".to_vec())), Step::Ask(Request::SendThreads(l)) if l == "t2 CAPABILITY\r\n"));
    assert!(matches!(imap.resume(Reply::Line(b"* CAPABILITY THREAD=REFERENCES\r\n".to_vec())), Step::Ask(Request::ReadThreads)));
    imap.resume(Reply::Line(b"t2 OK\r\n".to_vec()));
    imap.resume(Reply::Line(b"t3 OK\r\n".to_vec()));
    imap.resume(Reply::Line(b"* THREAD (1 (2)(3))\r\n".to_vec()));
    match imap.resume(Reply::Line(b"t4 OK\r\n".to_vec())) {
        Step::Finished(Outcome::Threads(Ok(threads))) => {
            assert_eq!(threads, Some(vec![vec![1, 2, 3]]))
        }
        other => panic!("{other:?}"),
    }
    // The connection is kept, until it fails.
    assert!(matches!(imap.fetch_threads("INBOX"), Step::Ask(Request::SendThreads(l)) if l == "t5 SELECT \"INBOX\"\r\n"));
    match imap.resume(Reply::Line(vec![])) {
        Step::Finished(Outcome::Threads(Err(e))) => assert_eq!(e, "connection closed by server"),
        other => panic!("{other:?}"),
    }
    assert!(matches!(imap.fetch_threads("INBOX"), Step::Ask(Request::OpenThreads)));
    match imap.resume(Reply::Failed("no route".to_owned())) {
        Step::Finished(Outcome::Threads(Err(e))) => assert_eq!(e, "no route"),
        other => panic!("{other:?}"),
    }
}
