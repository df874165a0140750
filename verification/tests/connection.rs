use emailclient::connection::{
    choose_transport, connect_plan, login_for, next_attempt, parse_imap_url, quote, resolve_error,
    xoauth2_payload, Dial, Login, Transport, XOAuth2Auth,
};
use emailclient::raw::{choose_algorithm, parse_capabilities, Algorithm, RawImap, RawNext};
use emailclient::raw::{ThreadNext, ThreadStage};
use emailclient::types::EmailClientConfig;

#[test]
fn test_parse_imap_url_with_port() {
    assert_eq!(
        parse_imap_url("imaps://imap.gmail.com:993"),
        Some(("imap.gmail.com".to_owned(), 993))
    );
}

#[test]
fn test_parse_imap_url_without_port_defaults_993() {
    assert_eq!(
        parse_imap_url("imaps://imap.gmail.com"),
        Some(("imap.gmail.com".to_owned(), 993))
    );
}

#[test]
fn test_parse_imap_url_plain_defaults_143() {
    assert_eq!(
        parse_imap_url("imap://mail.example.com"),
        Some(("mail.example.com".to_owned(), 143))
    );
}

#[test]
fn test_parse_imap_url_invalid_returns_none() {
    assert_eq!(parse_imap_url("http://example.com"), None);
}

#[test]
fn a_port_must_be_a_number_that_fits() {
    assert_eq!(parse_imap_url("imaps://h:"), None);
    assert_eq!(parse_imap_url("imaps://h:x"), None);
    assert_eq!(parse_imap_url("imaps://h:65536"), None);
    assert_eq!(parse_imap_url("imaps://h:-1"), None);
    assert_eq!(parse_imap_url("imaps://h:65535"), Some(("h".to_owned(), 65535)));
    assert_eq!(parse_imap_url("imaps://h:+7"), Some(("h".to_owned(), 7)));
    // Only the last colon counts.
    assert_eq!(parse_imap_url("imaps://a:b:1"), Some(("a:b".to_owned(), 1)));
}

#[test]
fn test_xoauth2_process_builds_sasl_payload() {
    let auth = XOAuth2Auth {
        user: "user@example.com".to_owned(),
        token: "tok123".to_owned(),
    };
    assert_eq!(
        auth.process(b""),
        "user=user@example.com\x01auth=Bearer tok123\x01\x01"
    );
}

#[test]
fn test_plaintext_to_non_loopback_is_refused() {
    let err = choose_transport("imap://198.51.100.7", "198.51.100.7", &vec![false])
        .expect_err("plaintext to a remote host must be refused");
    assert!(
        err.contains("in the clear"),
        "expected a plaintext refusal, got: {err}"
    );
    assert_eq!(
        err,
        "refusing to send IMAP credentials in the clear to 198.51.100.7; use imaps://"
    );
}

#[test]
fn test_imaps_to_loopback_still_attempts_tls() {
    let chosen = choose_transport("imaps://127.0.0.1", "127.0.0.1", &vec![true]);
    assert_eq!(chosen, Ok(Transport::Tls), "imaps:// must not take the plaintext branch");
}

#[test]
fn plaintext_needs_every_address_to_be_loopback() {
    assert_eq!(
        choose_transport("imap://localhost", "localhost", &vec![true, true]),
        Ok(Transport::Plain)
    );
    assert!(choose_transport("imap://localhost", "localhost", &vec![true, false]).is_err());
    assert_eq!(
        choose_transport("imaps://example.com", "example.com", &vec![false]),
        Ok(Transport::Tls)
    );
}

#[test]
fn a_quoted_string_is_escaped() {
    assert_eq!(quote("INBOX"), "\"INBOX\"");
    assert_eq!(quote("a\"b\\c"), "\"a\\\"b\\\\c\"");
    assert_eq!(quote(""), "\"\"");
}

#[test]
fn addresses_are_tried_in_turn() {
    assert!(matches!(next_attempt(2, &vec![]), Dial::Try(0)));
    assert!(matches!(next_attempt(2, &vec!["a: refused".to_owned()]), Dial::Try(1)));
    match next_attempt(2, &vec!["a: refused".to_owned(), "b: refused".to_owned()]) {
        Dial::Failed(e) => assert_eq!(e, "b: refused"),
        other => panic!("{other:?}"),
    }
    match next_attempt(0, &vec![]) {
        Dial::Failed(e) => assert_eq!(e, "no address"),
        other => panic!("{other:?}"),
    }
}

#[test]
fn a_host_that_does_not_resolve_is_named() {
    assert_eq!(resolve_error("h", 993, None), "cannot resolve h:993");
    assert_eq!(resolve_error("h", 993, Some("no such host")), "cannot resolve h:993: no such host");
}

fn account(token: &str) -> EmailClientConfig {
    EmailClientConfig {
        imap_url: "imaps://imap.example.com".to_owned(),
        username: "me@example.com".to_owned(),
        password: "hun\"ter".to_owned(),
        oauth_access_token: token.to_owned(),
        ..Default::default()
    }
}

#[test]
fn a_token_is_preferred_to_a_password() {
    match login_for(&account("")) {
        Login::Password { username, password } => {
            assert_eq!(username, "me@example.com");
            assert_eq!(password, "hun\"ter");
        }
        other => panic!("{other:?}"),
    }
    match login_for(&account("ya29")) {
        Login::XOAuth2(auth) => {
            assert_eq!(auth.user, "me@example.com");
            assert_eq!(auth.token, "ya29");
        }
        other => panic!("{other:?}"),
    }
}

#[test]
fn a_plan_needs_an_address() {
    let plan = connect_plan(&account("")).unwrap();
    assert_eq!(plan.host, "imap.example.com");
    assert_eq!(plan.port, 993);
    let err = connect_plan(&EmailClientConfig::default()).unwrap_err();
    assert_eq!(err, "cannot parse IMAP URL: ");
}

#[test]
fn a_raw_client_signs_in_with_a_password() {
    let mut raw = RawImap::connect(&account(""));
    match raw.read_line(b"* OK ready\r\n") {
        RawNext::Send(line) => {
            assert_eq!(line, "t1 LOGIN \"me@example.com\" \"hun\\\"ter\"\r\n")
        }
        other => panic!("{other:?}"),
    }
    assert!(matches!(raw.read_line(b"* CAPABILITY IMAP4rev1\r\n"), RawNext::Read));
    match raw.read_line(b"t1 OK done\r\n") {
        RawNext::Done(lines) => assert_eq!(lines, vec!["* CAPABILITY IMAP4rev1".to_owned()]),
        other => panic!("{other:?}"),
    }
}

#[test]
fn a_raw_client_signs_in_with_a_token() {
    let mut raw = RawImap::connect(&account("ya29"));
    match raw.read_line(b"* OK ready\r\n") {
        RawNext::Send(line) => assert_eq!(line, "t1 AUTHENTICATE XOAUTH2\r\n"),
        other => panic!("{other:?}"),
    }
    match raw.read_line(b"+ \r\n") {
        RawNext::Send(line) => {
            // The base64 of `user=me@example.com^Aauth=Bearer ya29^A^A`.
            assert_eq!(line, "dXNlcj1tZUBleGFtcGxlLmNvbQFhdXRoPUJlYXJlciB5YTI5AQE=\r\n");
        }
        other => panic!("{other:?}"),
    }
    assert_eq!(
        xoauth2_payload("me@example.com", "ya29"),
        "user=me@example.com\x01auth=Bearer ya29\x01\x01"
    );
    assert!(matches!(raw.read_line(b"t1 OK\r\n"), RawNext::Done(lines) if lines.is_empty()));
}

fn failure(next: RawNext) -> String {
    match next {
        RawNext::Failed(e) => e,
        other => panic!("{other:?}"),
    }
}

#[test]
fn a_raw_client_says_why_it_failed() {
    let mut raw = RawImap::connect(&account(""));
    assert_eq!(failure(raw.read_line(b"* BYE busy\r\n")), "unexpected IMAP greeting: * BYE busy");
    let mut raw = RawImap::connect(&account(""));
    assert_eq!(failure(raw.read_line(b"")), "connection closed by server");
    let mut raw = RawImap::connect(&account("ya29"));
    raw.read_line(b"* OK\r\n");
    assert_eq!(failure(raw.read_line(b"t1 NO no\r\n")), "server refused XOAUTH2: t1 NO no");
    let mut raw = RawImap::connect(&account(""));
    raw.read_line(b"* OK\r\n");
    assert_eq!(failure(raw.read_line(b"t1 NO bad password\r\n")), "NO bad password");
    // What is not UTF-8 is replaced.
    let mut raw = RawImap::connect(&account(""));
    assert_eq!(failure(raw.read_line(b"\xff\n")), "unexpected IMAP greeting: \u{fffd}");
}

fn sent(next: (ThreadStage, ThreadNext)) -> (ThreadStage, String) {
    match next {
        (stage, ThreadNext::Send(line)) => (stage, line),
        other => panic!("{other:?}"),
    }
}

#[test]
fn threads_are_fetched_once_the_server_can() {
    let mut raw = RawImap::connect(&account(""));
    let (stage, line) = sent(raw.step_threads("Sent \"x\"", ThreadStage::SigningIn, b"* OK\r\n"));
    assert!(line.starts_with("t1 LOGIN "));
    let (stage, line) = sent(raw.step_threads("Sent \"x\"", stage, b"t1 OK\r\n"));
    assert_eq!(line, "t2 CAPABILITY\r\n");
    let (stage, next) =
        raw.step_threads("Sent \"x\"", stage, b"* CAPABILITY imap4rev1 thread=references\r\n");
    assert!(matches!(next, ThreadNext::Read));
    let (stage, line) = sent(raw.step_threads("Sent \"x\"", stage, b"t2 OK\r\n"));
    assert_eq!(line, "t3 SELECT \"Sent \\\"x\\\"\"\r\n");
    let (stage, line) = sent(raw.step_threads("Sent \"x\"", stage, b"t3 OK\r\n"));
    assert_eq!(line, "t4 UID THREAD REFERENCES UTF-8 ALL\r\n");
    let (stage, next) = raw.step_threads("Sent \"x\"", stage, b"* THREAD (1 2)(3)\r\n");
    assert!(matches!(next, ThreadNext::Read));
    match raw.step_threads("Sent \"x\"", stage, b"t4 OK\r\n") {
        (_, ThreadNext::Finished(threads)) => {
            assert_eq!(threads, Some(vec![vec![1, 2], vec![3]]))
        }
        other => panic!("{other:?}"),
    }
    // The capabilities are asked for once.
    let (_, line) = sent(raw.start_threads("INBOX"));
    assert_eq!(line, "t5 SELECT \"INBOX\"\r\n");
}

#[test]
fn a_server_that_cannot_thread_has_no_threads() {
    let mut raw = RawImap::connect(&account(""));
    let (stage, _) = sent(raw.step_threads("INBOX", ThreadStage::SigningIn, b"* OK\r\n"));
    let (stage, _) = sent(raw.step_threads("INBOX", stage, b"t1 OK\r\n"));
    match raw.step_threads("INBOX", stage, b"t2 OK\r\n") {
        (_, ThreadNext::Finished(None)) => {}
        other => panic!("{other:?}"),
    }
    assert!(matches!(raw.start_threads("INBOX"), (_, ThreadNext::Finished(None))));
}

#[test]
fn capabilities_are_upper_case_words() {
    let caps = parse_capabilities(&vec![
        "* OK".to_owned(),
        "* CAPABILITY  IMAP4rev1\tthread=OrderedSubject".to_owned(),
    ]);
    assert_eq!(caps, vec!["IMAP4REV1".to_owned(), "THREAD=ORDEREDSUBJECT".to_owned()]);
    assert_eq!(choose_algorithm(&caps), Some(Algorithm::OrderedSubject));
    assert!(parse_capabilities(&vec!["* OK".to_owned()]).is_empty());
    let both = vec!["THREAD=ORDEREDSUBJECT".to_owned(), "THREAD=REFERENCES".to_owned()];
    assert_eq!(choose_algorithm(&both), Some(Algorithm::References));
    assert_eq!(choose_algorithm(&vec!["IDLE".to_owned()]), None);
}
