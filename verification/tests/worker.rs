use emailclient::cache::EnvelopeCache;
use emailclient::connection::connect_plan;
use emailclient::envelope::Fetch;
use emailclient::imap::{Reply, Request};
use emailclient::smtp::{SmtpEvent, SmtpStep};
use emailclient::types::{EmailClientConfig, HistoryItem, MailBody, TaskEvent};
use emailclient::worker::{
    refreshed_token, BgOp, Done, Job, Worker, WorkerEvent, WorkerNews, WorkerState, WorkerStep,
    WORKER_TASK,
};

/// Run `job` with a server that answers as `answer` does.
fn run(
    state: &mut WorkerState,
    job: Job,
    answer: &dyn Fn(&Request) -> Reply,
) -> (Vec<String>, Option<Done>) {
    let mut asked = Vec::new();
    let mut step = state.run(job);
    loop {
        step = match step {
            WorkerStep::Imap(request) => {
                asked.push(format!("{request:?}"));
                state.resume(WorkerEvent::Imap(answer(&request)))
            }
            WorkerStep::Answer(done) => return (asked, done),
            other => panic!("{other:?}"),
        };
    }
}

fn account() -> EmailClientConfig {
    EmailClientConfig {
        imap_url: "imaps://imap.example.com".to_owned(),
        smtp_url: "smtps://smtp.example.com".to_owned(),
        username: "user@example.com".to_owned(),
        ..Default::default()
    }
}

#[test]
fn configure_answers_nothing_and_a_failed_job_answers_its_error() {
    let mut state = WorkerState::new(EmailClientConfig::default());
    assert!(matches!(
        state.run(Job::Configure(EmailClientConfig::default())),
        WorkerStep::Answer(None)
    ));
    // No IMAP URL: the listing fails, and says so rather than hanging.
    let job = Job::Envelopes {
        folder: "INBOX".into(),
        limit: 5,
    };
    let (_, done) = run(&mut state, job, &|request| match request {
        Request::Connect => {
            Reply::Failed(connect_plan(&EmailClientConfig::default()).unwrap_err())
        }
        other => panic!("{other:?}"),
    });
    match done {
        Some(Done::Envelopes { result: Err(e), .. }) => assert!(e.contains("IMAP URL"), "{e}"),
        other => panic!("{other:?}"),
    }
}

#[test]
fn configure_forces_a_reconnect() {
    let config = EmailClientConfig {
        imap_url: "imaps://imap.example.com".to_owned(),
        username: "user@example.com".to_owned(),
        ..Default::default()
    };
    let mut state = WorkerState::new(config.clone());
    let _ = state.imap();
    assert!(state.has_imap());

    // The open connection authenticated with the previous credentials.
    state.run(Job::Configure(config));
    assert!(!state.has_imap());
}

#[test]
fn the_backend_has_the_settings_of_the_worker() {
    let mut state = WorkerState::new(account());
    assert_eq!(state.imap().plan().unwrap().host, "imap.example.com");
    state.run(Job::Configure(EmailClientConfig {
        imap_url: "imaps://other.example.com:1993".to_owned(),
        ..account()
    }));
    run(&mut state, Job::Threads { folder: "INBOX".to_owned() }, &|request| match request {
        Request::OpenThreads => Reply::Failed("no route".to_owned()),
        other => panic!("{other:?}"),
    });
    let plan = state.imap().plan().unwrap();
    assert_eq!(plan.host, "other.example.com");
    assert_eq!(plan.port, 1993);
}

#[test]
fn what_is_to_be_written_out_outlasts_a_job() {
    let mut cache = EnvelopeCache::new();
    cache.invalidate_folder("INBOX", 1);
    let mut state = WorkerState::new(account());
    let job = Job::Envelopes { folder: "INBOX".to_owned(), limit: 5 };
    assert!(matches!(state.run(job), WorkerStep::Imap(Request::OpenCache(_))));
    state.resume(WorkerEvent::Imap(Reply::Cache(Some(cache))));
    state.resume(WorkerEvent::Imap(Reply::Failed("no route".to_owned())));
    let (_, done) = run(&mut state, Job::Root, &|_| Reply::Failed("no route".to_owned()));
    assert!(matches!(done, Some(Done::Root { folders: Err(_), .. })));
    assert_eq!(state.imap().cache_to_save().unwrap().len(), 1);
    assert!(state.imap().cache_to_save().is_none());
}

fn selected() -> Reply {
    Reply::Selected { exists: 0, uid_validity: Some(1) }
}

#[test]
fn the_root_is_the_folders_and_the_inbox() {
    assert_eq!(WORKER_TASK, "worker");
    let mut state = WorkerState::new(account());
    let (asked, done) = run(&mut state, Job::Root, &|request| match request {
        Request::Connect => Reply::Done,
        Request::List => Reply::Names(vec![]),
        Request::OpenCache(_) => Reply::Cache(None),
        Request::Select(folder) => {
            assert_eq!(folder, "INBOX");
            selected()
        }
        other => panic!("{other:?}"),
    });
    assert_eq!(
        asked,
        ["Connect", "List", "OpenCache(\"user@example.com\")", "Select(\"INBOX\")"]
    );
    match done {
        Some(Done::Root { folders: Ok(f), inbox: Ok(i) }) => assert!(f.is_empty() && i.is_empty()),
        other => panic!("{other:?}"),
    }
}

#[test]
fn a_failed_folder_list_does_not_keep_the_inbox_back() {
    let mut state = WorkerState::new(account());
    let (_, done) = run(&mut state, Job::Root, &|request| match request {
        Request::Connect => Reply::Done,
        Request::List => Reply::Failed("no".to_owned()),
        Request::Logout => Reply::Done,
        Request::OpenCache(_) => Reply::Cache(None),
        Request::Select(_) => selected(),
        other => panic!("{other:?}"),
    });
    assert!(matches!(done, Some(Done::Root { folders: Err(e), inbox: Ok(_) }) if e == "no"));
}

fn message(uid: u32) -> Reply {
    Reply::Fetched(vec![Fetch {
        uid: Some(uid),
        envelope: None,
        flags: vec![],
        body: Some(b"From: a@b\r\nSubject: hi\r\n\r\n".to_vec()),
    }])
}

#[test]
fn a_history_is_looked_up_folder_by_folder() {
    let mut state = WorkerState::new(account());
    let job = Job::History {
        key: "k".to_owned(),
        plan: vec![
            HistoryItem::Label("known".to_owned()),
            HistoryItem::FetchUid(4),
            HistoryItem::FetchMessageId("<x>".to_owned()),
            HistoryItem::FetchUid(5),
            HistoryItem::Label("last".to_owned()),
        ],
        folders: vec!["INBOX".to_owned(), "Sent".to_owned()],
    };
    let here = std::cell::RefCell::new(String::new());
    let (asked, done) = run(&mut state, job, &|request| match request {
        Request::Connect => Reply::Done,
        Request::Select(folder) => {
            *here.borrow_mut() = folder.clone();
            selected()
        }
        Request::UidSearch(_) => {
            if *here.borrow() == "Sent" {
                Reply::Uids(vec![9])
            } else {
                Reply::Uids(vec![])
            }
        }
        Request::UidFetch(uid, _) if uid == "5" => Reply::Fetched(vec![]),
        Request::UidFetch(uid, _) => message(uid.parse().unwrap()),
        other => panic!("{other:?}"),
    });
    match done {
        Some(Done::History { key, labels }) => {
            assert_eq!(key, "k");
            assert_eq!(
                labels,
                [
                    "known",
                    "From: a@b \u{2014} Subject: hi",
                    "From: a@b \u{2014} Subject: hi",
                    "last",
                ]
            );
        }
        other => panic!("{other:?}"),
    }
    assert_eq!(asked.iter().filter(|a| a.starts_with("UidSearch")).count(), 2);
}

#[test]
fn a_history_without_folders_looks_nothing_up_by_message_id() {
    let mut state = WorkerState::new(account());
    let job = Job::History {
        key: "k".to_owned(),
        plan: vec![HistoryItem::FetchMessageId("<x>".to_owned())],
        folders: vec![],
    };
    let (asked, done) = run(&mut state, job, &|request| panic!("{request:?}"));
    assert!(asked.is_empty());
    assert!(matches!(done, Some(Done::History { labels, .. }) if labels.is_empty()));
}

#[test]
fn an_undone_move_finds_its_message_first() {
    let op = BgOp::MoveByMessageId {
        search_in: "Trash".to_owned(),
        msg_id: "<x>".to_owned(),
        dest: "INBOX".to_owned(),
    };
    let mut state = WorkerState::new(account());
    let (asked, done) = run(&mut state, Job::Op(op.clone()), &|request| match request {
        Request::Connect => Reply::Done,
        Request::Select(_) => selected(),
        Request::UidSearch(_) => Reply::Uids(vec![3]),
        Request::UidFetch(_, _) => message(3),
        Request::UidMove(uid, dest) => {
            assert_eq!((uid.as_str(), dest.as_str()), ("3", "INBOX"));
            Reply::Done
        }
        other => panic!("{other:?}"),
    });
    assert!(matches!(done, Some(Done::Op { label, error: None }) if label == "move failed"));
    assert_eq!(asked.last().unwrap(), "UidMove(\"3\", \"INBOX\")");

    let mut state = WorkerState::new(account());
    let (_, done) = run(&mut state, Job::Op(op), &|request| match request {
        Request::Connect => Reply::Done,
        Request::Select(_) => selected(),
        Request::UidSearch(_) => Reply::Uids(vec![]),
        other => panic!("{other:?}"),
    });
    match done {
        Some(Done::Op { error: Some(e), .. }) => assert_eq!(e, "the message is no longer in Trash"),
        other => panic!("{other:?}"),
    }
}

#[test]
fn a_failed_operation_has_its_label() {
    let folder = "INBOX".to_owned();
    let ops = vec![
        (
            BgOp::SetFlags { folder: folder.clone(), uid: 1, add: vec![], remove: vec![] },
            "flag update failed",
        ),
        (BgOp::Move { folder: folder.clone(), uid: 1, dest: "T".to_owned() }, "move failed"),
        (BgOp::Expunge { folder: folder.clone(), uid: 1 }, "delete failed"),
        (BgOp::Append { folder: folder.clone(), message: vec![] }, "save failed"),
    ];
    for (op, expected) in ops {
        assert_eq!(op.label(), expected);
        let mut state = WorkerState::new(account());
        let (_, done) = run(&mut state, Job::Op(op), &|_| Reply::Failed("no route".to_owned()));
        match done {
            Some(Done::Op { label, error: Some(e) }) => {
                assert_eq!(label, expected);
                assert_eq!(e, "no route");
            }
            other => panic!("{other:?}"),
        }
    }
}

#[test]
fn a_failure_to_thread_is_no_map() {
    let mut state = WorkerState::new(account());
    let job = Job::Threads { folder: "INBOX".to_owned() };
    let (asked, done) = run(&mut state, job, &|_| Reply::Failed("no route".to_owned()));
    assert_eq!(asked, ["OpenThreads"]);
    assert!(matches!(done, Some(Done::Threads { folder, threads: None }) if folder == "INBOX"));
}

#[test]
fn a_message_is_answered_with_its_folder() {
    let mut state = WorkerState::new(account());
    let job = Job::Message { folder: "INBOX".to_owned(), uid: 3 };
    let (_, done) = run(&mut state, job, &|request| match request {
        Request::Connect => Reply::Done,
        Request::Select(_) => selected(),
        Request::UidFetch(_, _) => message(3),
        other => panic!("{other:?}"),
    });
    match done {
        Some(Done::Message { folder, uid, result: Ok(Some(m)) }) => {
            assert_eq!((folder.as_str(), uid), ("INBOX", 3));
            assert_eq!(m.subject, "hi");
        }
        other => panic!("{other:?}"),
    }
}

fn send_job(to: Vec<String>) -> Job {
    Job::Send {
        from: "user@example.com".to_owned(),
        to,
        cc: vec![],
        bcc: vec![],
        subject: "hi".to_owned(),
        body: MailBody::Text("x".to_owned()),
        attachments: vec![],
    }
}

#[test]
fn a_message_that_is_sent_is_answered_with_what_came_of_it() {
    let mut state = WorkerState::new(account());
    let none = state.run(send_job(vec![]));
    assert!(matches!(none, WorkerStep::Answer(Some(Done::Sent { result: Err(e) })) if e == "no recipients"));
    match state.run(send_job(vec!["you@example.com".to_owned()])) {
        WorkerStep::Smtp(SmtpStep::Open { tls, host, port }) => {
            assert_eq!((tls, host.as_str(), port), (true, "smtp.example.com", 465));
        }
        other => panic!("{other:?}"),
    }
    let done = state.resume(WorkerEvent::Smtp(SmtpEvent::Failed("no route".to_owned())));
    assert!(matches!(done, WorkerStep::Answer(Some(Done::Sent { result: Err(e) })) if e == "no route"));
}

#[test]
fn a_refreshed_token_knows_when_it_expires() {
    let mut state = WorkerState::new(account());
    let job = Job::RefreshToken {
        client_id: "i".to_owned(),
        client_secret: "s".to_owned(),
        refresh_token: "r".to_owned(),
    };
    assert!(matches!(
        state.run(job),
        WorkerStep::Refresh { client_id, client_secret, refresh_token }
            if client_id == "i" && client_secret == "s" && refresh_token == "r"
    ));
    let event = WorkerEvent::Token {
        success: true,
        access_token: "t".to_owned(),
        expires_in: 3600,
        now: 1000,
    };
    match state.resume(event) {
        WorkerStep::Answer(Some(Done::Token { result: Ok((token, expiry)) })) => {
            assert_eq!((token.as_str(), expiry), ("t", 4600));
        }
        other => panic!("{other:?}"),
    }
    match refreshed_token(false, "t".to_owned(), 3600, 1000) {
        Done::Token { result: Err(e) } => assert_eq!(e, "OAuth token refresh failed"),
        other => panic!("{other:?}"),
    }
}

#[test]
fn events_of_the_worker_task_are_told_apart() {
    let worker = Worker::new(7);
    let answer = TaskEvent::Progress(b"{}".to_vec());
    assert!(worker.on_task_event(8, &answer).is_none());
    assert!(matches!(worker.on_task_event(7, &answer), Some(WorkerNews::Answer(b)) if b == b"{}"));
    let ended = TaskEvent::Done(Ok(vec![]));
    assert!(matches!(worker.on_task_event(7, &ended), Some(WorkerNews::Stopped(e)) if e == "the email worker ended"));
    let failed = TaskEvent::Done(Err("out of memory".to_owned()));
    assert!(matches!(worker.on_task_event(7, &failed), Some(WorkerNews::Stopped(e)) if e == "the email worker stopped: out of memory"));
}
