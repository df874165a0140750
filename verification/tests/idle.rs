use emailclient::idle::{
    is_mailbox_change, Command, IdleController, IdleEvent, IdleLoop, IdleNews, IdleStep, IdleTask,
    Telling, UnsolicitedResponse, CHANGED, IDLE_ROUND, IDLE_TASK, RECONNECT_DELAY,
};
use emailclient::types::{EmailClientConfig, TaskEvent};
use std::sync::atomic::{AtomicBool, Ordering};
use std::sync::Arc;

#[test]
fn test_needs_refresh_propagates_via_flag() {
    let notify = Arc::new(AtomicBool::new(false));
    let _ctrl = IdleController::new(Arc::clone(&notify));
    // Simulate what the watcher does on new mail.
    notify.store(true, Ordering::Relaxed);
    assert!(notify.load(Ordering::Relaxed));
    // Simulate provider calling clear_needs_refresh.
    notify.store(false, Ordering::Relaxed);
    assert!(!notify.load(Ordering::Relaxed));
}

#[test]
fn test_update_token_is_visible_to_the_session() {
    let notify = Arc::new(AtomicBool::new(false));
    let mut ctrl = IdleController::new(notify);
    ctrl.update_token("refreshed-token");
    assert_eq!(
        ctrl.token(),
        "refreshed-token",
        "a refreshed access token must reach the running IDLE session"
    );
}

#[test]
fn test_only_mailbox_changes_raise_the_flag() {
    assert!(is_mailbox_change(&UnsolicitedResponse::Expunge(3)));
    assert!(is_mailbox_change(&UnsolicitedResponse::Exists(7)));
    // A keepalive must not look like new mail.
    assert!(!is_mailbox_change(&UnsolicitedResponse::Notice {
        information: Some("Still here".into()),
    }));
    assert!(is_mailbox_change(&UnsolicitedResponse::Vanished { earlier: true }));
    assert!(!is_mailbox_change(&UnsolicitedResponse::Recent(1)));
}

fn config() -> EmailClientConfig {
    EmailClientConfig {
        imap_url: "imaps://127.0.0.1:1".to_owned(),
        username: "me@example.com".to_owned(),
        ..Default::default()
    }
}

/// Every uncached render of a folder asks to watch it. Only the first may
/// start a watcher.
#[test]
fn watching_the_same_folder_again_changes_nothing() {
    let notify = Arc::new(AtomicBool::new(false));
    let mut ctrl = IdleController::new(notify);
    let config = config();
    let told = ctrl.start(config.clone(), "INBOX".to_owned());
    assert!(matches!(&told[..], [Command::Watch { folder, .. }] if folder == "INBOX"));
    let told = ctrl.start(config.clone(), "INBOX".to_owned());
    assert!(told.is_empty(), "the watcher keeps running");

    // Another folder, or the same one after a stop, is a new watch.
    let told = ctrl.start(config.clone(), "Archive".to_owned());
    assert!(
        matches!(&told[..], [Command::Stop, Command::Watch { folder, .. }] if folder == "Archive"),
        "the old watcher is told to stop"
    );
    assert!(ctrl.stop());
    assert!(!ctrl.stop());
    let told = ctrl.start(config, "Archive".to_owned());
    assert!(matches!(&told[..], [Command::Watch { folder, .. }] if folder == "Archive"));
}

#[test]
fn test_idle_controller_start_stop_noop_without_config() {
    // With an empty IMAP URL the watcher should fail fast without panicking.
    let notify = Arc::new(AtomicBool::new(false));
    let mut ctrl = IdleController::new(Arc::clone(&notify));
    ctrl.start(EmailClientConfig::default(), "INBOX".to_owned());
    ctrl.stop();
    // No panic is the success criterion.
}

#[test]
fn a_task_is_started_once_and_told_after_that() {
    assert_eq!(IDLE_TASK, "idle");
    let mut ctrl = IdleController::new(Arc::new(AtomicBool::new(false)));
    let watch = ctrl.start(config(), "INBOX".to_owned()).remove(0);
    assert!(ctrl.update_token("t0").is_none());
    assert_eq!(ctrl.tell(&Command::Stop), Telling::Drop);
    assert_eq!(ctrl.tell(&watch), Telling::Spawn);
    assert!(ctrl.spawned(Ok(7)).is_none());
    assert_eq!(ctrl.tell(&watch), Telling::Send(7));
    assert!(matches!(ctrl.update_token("t1"), Some(Command::Token(t)) if t == "t1"));
    ctrl.lost();
    assert_eq!(ctrl.tell(&watch), Telling::Spawn);
    let log = ctrl.spawned(Err("no room".to_owned()));
    assert_eq!(log.unwrap(), "emailclient: no IDLE task: no room");
    assert!(!ctrl.stop(), "nothing is watched");
}

#[test]
fn events_of_the_task_raise_the_flag() {
    let notify = Arc::new(AtomicBool::new(false));
    let mut ctrl = IdleController::new(Arc::clone(&notify));
    ctrl.start(config(), "INBOX".to_owned());
    ctrl.spawned(Ok(7));
    let changed = TaskEvent::Progress(CHANGED.as_bytes().to_vec());
    assert_eq!(ctrl.on_task_event(8, &changed), IdleNews::NotOurs);
    assert!(!notify.load(Ordering::Relaxed));
    let other = TaskEvent::Progress(b"chang".to_vec());
    assert_eq!(ctrl.on_task_event(7, &other), IdleNews::Nothing);
    assert!(!notify.load(Ordering::Relaxed));
    assert_eq!(ctrl.on_task_event(7, &changed), IdleNews::Changed);
    assert!(notify.load(Ordering::Relaxed));
    assert_eq!(ctrl.on_task_event(7, &TaskEvent::Done(Ok(vec![]))), IdleNews::Ended);
    assert_eq!(ctrl.on_task_event(7, &changed), IdleNews::NotOurs);
    assert_eq!(ctrl.start(config(), "INBOX".to_owned()).len(), 1);
}

#[test]
fn a_watcher_waits_in_rounds() {
    assert_eq!(IDLE_ROUND, 10);
    let mut watcher = IdleLoop::new(config(), "INBOX".to_owned());
    assert!(matches!(watcher.resume(IdleEvent::Stopped(false)), IdleStep::AskToken));
    match watcher.resume(IdleEvent::Token(Some("fresh".to_owned()))) {
        IdleStep::Connect(c) => {
            assert_eq!(c.oauth_access_token, "fresh");
            assert_eq!(c.imap_url, "imaps://127.0.0.1:1");
        }
        other => panic!("{other:?}"),
    }
    assert!(matches!(watcher.resume(IdleEvent::Done), IdleStep::Select(f) if f == "INBOX"));
    assert!(matches!(watcher.resume(IdleEvent::Done), IdleStep::AskStopped));
    assert!(matches!(watcher.resume(IdleEvent::Stopped(false)), IdleStep::Wait));
    assert!(matches!(watcher.resume(IdleEvent::Waited(true)), IdleStep::Changed));
    assert!(matches!(watcher.resume(IdleEvent::Done), IdleStep::AskStopped));
    assert!(matches!(watcher.resume(IdleEvent::Stopped(false)), IdleStep::Wait));
    assert!(matches!(watcher.resume(IdleEvent::Waited(false)), IdleStep::AskStopped));
    assert!(matches!(watcher.resume(IdleEvent::Stopped(true)), IdleStep::Logout));
    assert!(matches!(watcher.resume(IdleEvent::Done), IdleStep::AskStopped));
    assert!(matches!(watcher.resume(IdleEvent::Stopped(true)), IdleStep::End));
    assert!(matches!(watcher.resume(IdleEvent::Done), IdleStep::End));
}

#[test]
fn a_failed_session_is_opened_again_after_a_while() {
    let mut watcher = IdleLoop::new(config(), "INBOX".to_owned());
    watcher.resume(IdleEvent::Stopped(false));
    match watcher.resume(IdleEvent::Token(Some(String::new()))) {
        IdleStep::Connect(c) => assert_eq!(c.oauth_access_token, ""),
        other => panic!("{other:?}"),
    }
    match watcher.resume(IdleEvent::Failed("no route".to_owned())) {
        IdleStep::Log(e) => assert_eq!(e, "emailclient_idle: session error: no route"),
        other => panic!("{other:?}"),
    }
    let mut slept = 0;
    let mut step = watcher.resume(IdleEvent::Done);
    loop {
        step = match step {
            IdleStep::AskStopped => watcher.resume(IdleEvent::Stopped(false)),
            IdleStep::Sleep => {
                slept += 1;
                watcher.resume(IdleEvent::Done)
            }
            IdleStep::AskToken => break,
            other => panic!("{other:?}"),
        };
    }
    assert_eq!(slept, RECONNECT_DELAY);
    assert_eq!(slept, 10);
}

#[test]
fn an_event_that_does_not_fit_ends_the_session() {
    let mut watcher = IdleLoop::new(config(), "INBOX".to_owned());
    watcher.resume(IdleEvent::Stopped(false));
    watcher.resume(IdleEvent::Token(None));
    match watcher.resume(IdleEvent::Waited(true)) {
        IdleStep::Log(e) => assert_eq!(e, "emailclient_idle: session error: unexpected event"),
        other => panic!("{other:?}"),
    }
}

#[test]
fn a_task_watches_what_it_was_last_told_to() {
    let mut task = IdleTask::new();
    assert!(task.next_watch().is_none());
    let mut account = config();
    account.oauth_access_token = "t0".to_owned();
    task.apply(Command::Watch { config: account, folder: "INBOX".to_owned() });
    assert!(task.is_stopped(false));
    assert_eq!(task.token(), "t0");
    assert!(task.next_watch().is_some());
    assert!(!task.is_stopped(false));
    assert!(task.is_stopped(true));
    task.apply(Command::Token("t1".to_owned()));
    assert!(!task.is_stopped(false));
    assert_eq!(task.token(), "t1");
    task.apply(Command::Stop);
    assert!(task.is_stopped(false));
    assert!(task.next_watch().is_none());
}
