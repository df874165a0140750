use emailclient::compose::{body_text, compose};
use emailclient::mime::parse_rfc2822;
use emailclient::smtp::{dot_stuff, parse_smtp_url, RealSmtp, Smtp, SmtpEvent, SmtpStep};
use emailclient::types::{EmailClientConfig, MailBody};
use sicompass_sdk::ffon::FfonElement;

#[test]
fn test_parse_smtp_url_with_port() {
    assert_eq!(
        parse_smtp_url("smtps://smtp.gmail.com:465"),
        Some(("smtp.gmail.com".to_owned(), 465))
    );
}

#[test]
fn test_parse_smtp_url_without_port_defaults_465() {
    assert_eq!(
        parse_smtp_url("smtps://smtp.gmail.com"),
        Some(("smtp.gmail.com".to_owned(), 465))
    );
}

#[test]
fn test_parse_smtp_url_starttls_defaults_587() {
    assert_eq!(
        parse_smtp_url("smtp://smtp.example.com"),
        Some(("smtp.example.com".to_owned(), 587))
    );
}

#[test]
fn test_parse_smtp_url_invalid_returns_none() {
    assert_eq!(parse_smtp_url(""), None);
    assert_eq!(parse_smtp_url("http://example.com"), None);
}

/// Hold the conversation with a server that answers as `answer` does, after
/// its greeting: what the server heard, and what came of it.
fn converse(
    mut smtp: Smtp,
    answer: fn(&str) -> &'static str,
) -> (Vec<String>, Result<Vec<u8>, String>) {
    let mut heard: Vec<String> = Vec::new();
    let mut pending = vec!["220 fake ESMTP\r\n".to_owned()];
    let mut in_data = false;
    let mut step = smtp.start();
    loop {
        step = match step {
            SmtpStep::Open { tls, host, port } => {
                heard.push(format!("<open {tls} {host} {port}>"));
                smtp.resume(SmtpEvent::Done)
            }
            SmtpStep::StartTls(host) => {
                heard.push(format!("<tls {host}>"));
                smtp.resume(SmtpEvent::Done)
            }
            SmtpStep::Write(bytes) => {
                let line = String::from_utf8(bytes).unwrap();
                heard.push(line.trim_end().to_owned());
                if in_data {
                    in_data = false;
                } else {
                    in_data = line == "DATA\r\n";
                    pending.push(answer(&line).to_owned());
                }
                smtp.resume(SmtpEvent::Done)
            }
            SmtpStep::Read => {
                if pending.is_empty() {
                    smtp.resume(SmtpEvent::Line(String::new()))
                } else {
                    let reply = pending.remove(0);
                    let (line, rest) = match reply.find('\n') {
                        Some(i) => reply.split_at(i + 1),
                        None => (reply.as_str(), ""),
                    };
                    if !rest.is_empty() {
                        pending.insert(0, rest.to_owned());
                    }
                    smtp.resume(SmtpEvent::Line(line.to_owned()))
                }
            }
            SmtpStep::Finished(result) => return (heard, result),
        };
    }
}

#[test]
fn smtp_without_starttls_never_sends_the_password() {
    let config = EmailClientConfig {
        smtp_url: "smtp://127.0.0.1:2525".to_owned(),
        username: "me@example.com".to_owned(),
        password: "hunter2".to_owned(),
        ..Default::default()
    };
    let smtp = RealSmtp::from_config(&config)
        .send(
            "me@example.com",
            &["you@example.com"],
            &[],
            &[],
            "hi",
            &MailBody::Text("hello".to_owned()),
            &[],
        )
        .unwrap();
    let (heard, result) = converse(smtp, |line| {
        if line.starts_with("EHLO") {
            "250 fake\r\n"
        } else if line.starts_with("STARTTLS") {
            "454 TLS not available\r\n"
        } else {
            "250 ok\r\n"
        }
    });
    let err = result.expect_err("a server that cannot upgrade must not be used");
    assert!(err.contains("STARTTLS"), "{err}");
    assert_eq!(err, "SMTP STARTTLS: 454 TLS not available");
    assert_eq!(heard, ["<open false 127.0.0.1 2525>", "EHLO sicompass", "STARTTLS"]);
}

fn kind_server(line: &str) -> &'static str {
    if line.starts_with("EHLO") {
        "250-fake\r\n250-8BITMIME\r\n250 HELP\r\n"
    } else if line.starts_with("STARTTLS") {
        "220 go\r\n"
    } else if line.starts_with("AUTH") {
        "235 ok\r\n"
    } else if line.starts_with("DATA") {
        "354 go\r\n"
    } else if line.starts_with("RCPT") {
        "251 will forward\r\n"
    } else if line.starts_with("QUIT") {
        "500 what\r\n"
    } else {
        "250\r\n"
    }
}

fn backend(url: &str, token: &str) -> RealSmtp {
    RealSmtp::from_config(&EmailClientConfig {
        smtp_url: url.to_owned(),
        username: "me@example.com".to_owned(),
        password: "hunter2".to_owned(),
        oauth_access_token: token.to_owned(),
        ..Default::default()
    })
}

#[test]
fn a_message_is_sent_to_everyone() {
    let smtp = backend("smtps://mail.example.com", "")
        .send(
            "me@example.com",
            &["a@example.com", "b@example.com"],
            &["c@example.com"],
            &["d@example.com"],
            "hi",
            &MailBody::Text(".hello\n..there".to_owned()),
            &[],
        )
        .unwrap();
    let (heard, result) = converse(smtp, kind_server);
    assert_eq!(heard[0], "<open true mail.example.com 465>");
    assert_eq!(heard[1], "EHLO sicompass");
    // The base64 of `\0me@example.com\0hunter2`.
    assert_eq!(heard[2], "AUTH PLAIN AG1lQGV4YW1wbGUuY29tAGh1bnRlcjI=");
    assert_eq!(heard[3], "MAIL FROM:<me@example.com>");
    assert_eq!(
        heard[4..9],
        [
            "RCPT TO:<a@example.com>",
            "RCPT TO:<b@example.com>",
            "RCPT TO:<c@example.com>",
            "RCPT TO:<d@example.com>",
            "DATA",
        ]
    );
    assert!(heard[9].contains("\r\n..hello\r\n...there"), "{}", heard[9]);
    assert_eq!(heard[10..], [".", "QUIT"]);
    let raw = String::from_utf8(result.unwrap()).unwrap();
    assert!(raw.contains("\r\n.hello\r\n..there"), "{raw}");
    assert!(raw.contains("Subject: hi\r\n"), "{raw}");
    assert!(!raw.contains("d@example.com"), "a blind copy is not named: {raw}");
}

#[test]
fn a_token_signs_in_and_starttls_comes_first() {
    let smtp = backend("smtp://mail.example.com", "ya29")
        .send(
            "me@example.com",
            &["a@example.com"],
            &[],
            &[],
            "hi",
            &MailBody::Text("x".to_owned()),
            &[],
        )
        .unwrap();
    let (heard, result) = converse(smtp, kind_server);
    assert!(result.is_ok());
    assert_eq!(
        heard[..6],
        [
            "<open false mail.example.com 587>",
            "EHLO sicompass",
            "STARTTLS",
            "<tls mail.example.com>",
            "EHLO sicompass",
            "AUTH XOAUTH2 dXNlcj1tZUBleGFtcGxlLmNvbQFhdXRoPUJlYXJlciB5YTI5AQE=",
        ]
    );
}

fn send_hi(url: &str) -> Smtp {
    backend(url, "")
        .send(
            "me@example.com",
            &["a@example.com"],
            &[],
            &[],
            "hi",
            &MailBody::Text("x".to_owned()),
            &[],
        )
        .unwrap()
}

#[test]
fn a_refusal_is_told_without_the_credentials() {
    let (heard, result) = converse(send_hi("smtps://h"), |line| {
        if line.starts_with("AUTH") {
            "535-5.7.8 no\r\n535 really\r\n"
        } else {
            "250 ok\r\n"
        }
    });
    assert_eq!(result.unwrap_err(), "SMTP AUTH: 535-5.7.8 no\n535 really");
    assert_eq!(heard.len(), 3);
    let (_, result) = converse(send_hi("smtps://h"), |line| {
        if line.starts_with("MAIL") {
            "550 no\r\n"
        } else if line.starts_with("AUTH") {
            "235 ok\r\n"
        } else {
            "250 ok\r\n"
        }
    });
    assert_eq!(result.unwrap_err(), "SMTP MAIL FROM:<me@example.com>: 550 no");
}

#[test]
fn a_failure_is_told_as_it_is() {
    let mut smtp = send_hi("smtps://h");
    smtp.start();
    match smtp.resume(SmtpEvent::Failed("no route".to_owned())) {
        SmtpStep::Finished(Err(e)) => assert_eq!(e, "no route"),
        other => panic!("{other:?}"),
    }
    let mut smtp = send_hi("smtps://h");
    smtp.start();
    assert!(matches!(smtp.resume(SmtpEvent::Done), SmtpStep::Read));
    match smtp.resume(SmtpEvent::Line(String::new())) {
        SmtpStep::Finished(Err(e)) => assert_eq!(e, "the server closed the connection"),
        other => panic!("{other:?}"),
    }
    let mut smtp = send_hi("smtps://h");
    smtp.start();
    smtp.resume(SmtpEvent::Done);
    assert!(matches!(smtp.resume(SmtpEvent::Line("220 hi\r\n".to_owned())), SmtpStep::Write(_)));
    assert!(matches!(smtp.resume(SmtpEvent::Done), SmtpStep::Read));
    match smtp.resume(SmtpEvent::Failed("timed out".to_owned())) {
        SmtpStep::Finished(Err(e)) => assert_eq!(e, "SMTP EHLO sicompass: timed out"),
        other => panic!("{other:?}"),
    }
    // A reply without a code is no answer.
    let mut smtp = send_hi("smtps://h");
    smtp.start();
    smtp.resume(SmtpEvent::Done);
    match smtp.resume(SmtpEvent::Line("2é\r\n".to_owned())) {
        SmtpStep::Finished(Err(e)) => assert_eq!(e, "2é"),
        other => panic!("{other:?}"),
    }
}

#[test]
fn what_cannot_be_sent_is_refused_before_a_server_is_asked() {
    let body = MailBody::Text("x".to_owned());
    let send = |url: &str, from: &str, to: &[&str]| {
        backend(url, "").send(from, to, &[], &[], "hi", &body, &[]).map(|_| ())
    };
    assert_eq!(
        send("http://h", "me@example.com", &[]),
        Err("cannot parse SMTP URL: http://h".to_owned())
    );
    assert_eq!(send("smtps://h", "me@example.com", &[]), Err("no recipients".to_owned()));
    let expected = "not an address".parse::<lettre::message::Mailbox>().unwrap_err().to_string();
    assert_eq!(send("smtps://h", "not an address", &["a@b"]), Err(expected.clone()));
    assert_eq!(send("smtps://h", "me@example.com", &["not an address"]), Err(expected));
}

#[test]
fn dots_are_doubled_at_line_starts() {
    assert_eq!(dot_stuff(b".a\r\n.\r\nb.c\n..\r\n"), b"..a\r\n..\r\nb.c\n...\r\n");
    assert_eq!(dot_stuff(b"a"), b"a\r\n");
    assert_eq!(dot_stuff(b""), b"\r\n");
    assert_eq!(dot_stuff(b"a\n"), b"a\n\r\n");
}

#[test]
fn a_composed_message_reads_back() {
    let files: [(&str, &[u8]); 1] = [("a b.bin", &[0, 1, 255, 10])];
    let document = vec![FfonElement::Str("one".to_owned()), FfonElement::Str("two".to_owned())];
    let composed = compose(
        "Me <me@example.com>",
        &["You <you@example.com>"],
        &[],
        &[],
        "Grüße",
        &MailBody::Ffon(document.clone()),
        &files,
    )
    .unwrap();
    assert_eq!(composed.sender, "me@example.com");
    assert_eq!(composed.recipients, vec!["you@example.com".to_owned()]);
    let read = parse_rfc2822(7, &composed.raw);
    assert_eq!(read.uid, 7);
    assert_eq!(read.from, "Me <me@example.com>");
    assert_eq!(read.to, "You <you@example.com>");
    assert_eq!(read.attachments.len(), 1);
    assert_eq!(read.attachments[0].filename, "a b.bin");
    assert_eq!(read.attachments[0].content_type, "application/octet-stream");
    assert_eq!(read.attachments[0].data, vec![0u8, 1, 255, 10]);
    let text = body_text(&MailBody::Ffon(document)).unwrap();
    assert_eq!(text, "[\"one\",\"two\"]");
}

#[test]
fn a_display_name_is_no_part_of_the_address() {
    let smtp = backend("smtps://mail.example.com", "")
        .send(
            "Ann Lee <me@example.com>",
            &["Bob <a@example.com>", "b@example.com"],
            &["Cy De Ef <c@example.com>"],
            &["Gus <d@example.com>"],
            "hi",
            &MailBody::Text("hello".to_owned()),
            &[],
        )
        .unwrap();
    let (heard, result) = converse(smtp, kind_server);
    assert_eq!(
        heard[3..8],
        [
            "MAIL FROM:<me@example.com>",
            "RCPT TO:<a@example.com>",
            "RCPT TO:<b@example.com>",
            "RCPT TO:<c@example.com>",
            "RCPT TO:<d@example.com>",
        ]
    );
    let read = parse_rfc2822(1, &result.unwrap());
    assert_eq!(read.from, "\"Ann Lee\" <me@example.com>");
    assert_eq!(read.to, "Bob <a@example.com>, b@example.com");
}

#[test]
fn a_plain_message_says_its_type() {
    let composed = compose(
        "me@example.com",
        &["you@example.com"],
        &[],
        &[],
        "hi",
        &MailBody::Text("hello".to_owned()),
        &[],
    )
    .unwrap();
    let raw = String::from_utf8(composed.raw).unwrap();
    assert!(raw.contains("\r\nContent-Type: text/plain; charset=utf-8\r\n"), "{raw}");
    assert!(raw.ends_with("\r\n\r\nhello"), "{raw}");
}

#[test]
fn an_ffon_body_reads_back() {
    let document = vec![FfonElement::Str("one".to_owned()), FfonElement::Str("two".to_owned())];
    let composed = compose(
        "me@example.com",
        &["you@example.com"],
        &[],
        &[],
        "hi",
        &MailBody::Ffon(document.clone()),
        &[],
    )
    .unwrap();
    match parse_rfc2822(1, &composed.raw).body {
        MailBody::Ffon(read) => assert_eq!(read, document),
        other => panic!("{other:?}"),
    }
    let composed = compose(
        "me@example.com",
        &["you@example.com"],
        &["cc@example.com"],
        &[],
        "hi",
        &MailBody::Text("plain".to_owned()),
        &[],
    )
    .unwrap();
    assert_eq!(composed.recipients, ["you@example.com", "cc@example.com"]);
    let read = parse_rfc2822(1, &composed.raw);
    assert_eq!(read.subject, "hi");
    assert!(matches!(read.body, MailBody::Text(s) if s == "plain"));
}
