use emailclient::envelope::{format_address, parse_fetch_to_header, Address, Envelope, Fetch, Flag};
use emailclient::ffon::flatten_ffon_to_text;
use emailclient::folders::{folder_infos, Name, NameAttribute};
use emailclient::mime::{
    choose_part, data_or_nothing, decode_transfer_encoding, extract_boundary, parse_attachments,
    parse_body_part, parse_multipart, parse_rfc2822, promote, text_or_raw, Part,
};
use emailclient::types::MailBody;
use sicompass_sdk::ffon::FfonElement;

#[test]
fn test_parse_rfc2822_extracts_fields() {
    let raw = b"From: Alice <alice@example.com>\r\n\
                To: Bob <bob@example.com>\r\n\
                Subject: Hello\r\n\
                Date: Mon, 1 Jan 2025 00:00:00 +0000\r\n\
                Message-ID: <abc@example.com>\r\n\
                References: <prev@example.com>\r\n\
                \r\n\
                Hi there!\r\n";
    let msg = parse_rfc2822(42, raw);
    assert_eq!(msg.uid, 42);
    assert_eq!(msg.from, "Alice <alice@example.com>");
    assert_eq!(msg.to, "Bob <bob@example.com>");
    assert_eq!(msg.subject, "Hello");
    assert_eq!(msg.message_id, "<abc@example.com>");
    assert_eq!(msg.references, "<prev@example.com>");
    assert!(matches!(&msg.body, MailBody::Text(s) if s.contains("Hi there!")));
}

#[test]
fn test_parse_rfc2822_lf_only_separator() {
    let raw = b"From: a@b.com\nSubject: Test\n\nBody text\n";
    let msg = parse_rfc2822(1, raw);
    assert_eq!(msg.subject, "Test");
    assert!(matches!(&msg.body, MailBody::Text(s) if s.contains("Body text")));
}

#[test]
fn test_parse_rfc2822_no_body() {
    let raw = b"From: a@b.com\r\nSubject: Empty\r\n\r\n";
    let msg = parse_rfc2822(1, raw);
    assert_eq!(msg.subject, "Empty");
    assert!(matches!(&msg.body, MailBody::Text(s) if s.is_empty()));
}

#[test]
fn test_parse_rfc2822_html_content_type() {
    let raw = b"From: a@b.com\r\nSubject: Html\r\nContent-Type: text/html; charset=utf-8\r\n\r\n<p>Hello</p>\r\n";
    let msg = parse_rfc2822(1, raw);
    // HTML is flattened to plain text at parse time.
    assert!(matches!(&msg.body, MailBody::Text(s) if s.contains("Hello")));
}

#[test]
fn test_parse_rfc2822_multipart_alternative_html_flattened_to_text() {
    let boundary = "bound1";
    let body = format!(
        "--{boundary}\r\nContent-Type: text/plain\r\n\r\nPlain text\r\n\
         --{boundary}\r\nContent-Type: text/html\r\n\r\n<p>Rich</p>\r\n\
         --{boundary}--\r\n"
    );
    let raw = format!(
        "From: a@b.com\r\nSubject: Multi\r\nContent-Type: multipart/alternative; boundary=\"{boundary}\"\r\n\r\n{body}"
    );
    let msg = parse_rfc2822(1, raw.as_bytes());
    // Both parts are Text after parsing.
    assert!(matches!(&msg.body, MailBody::Text(_)));
}

#[test]
fn test_parse_rfc2822_application_json_ffon() {
    let ffon_json = r#"[{"Heading:":["line1","line2"]}]"#;
    let raw = format!(
        "From: a@b.com\r\nSubject: Ffon\r\nContent-Type: application/json; charset=utf-8\r\n\r\n{ffon_json}\r\n"
    );
    let msg = parse_rfc2822(1, raw.as_bytes());
    assert!(matches!(&msg.body, MailBody::Ffon(elems) if !elems.is_empty()));
}

#[test]
fn test_parse_rfc2822_text_plain_ffon_promoted() {
    // sicompass sends FFON as text/plain JSON; receiver must promote it back to Ffon.
    let ffon_json = r#"[{"Heading:":["line1","line2"]}]"#;
    let raw = format!(
        "From: a@b.com\r\nSubject: Ffon\r\nContent-Type: text/plain; charset=utf-8\r\n\r\n{ffon_json}\r\n"
    );
    let msg = parse_rfc2822(1, raw.as_bytes());
    assert!(matches!(&msg.body, MailBody::Ffon(elems) if !elems.is_empty()));
}

#[test]
fn test_parse_rfc2822_quoted_printable_decode() {
    // "café" in quoted-printable
    let raw = b"From: a@b.com\r\nSubject: QP\r\nContent-Transfer-Encoding: quoted-printable\r\n\r\ncaf=C3=A9\r\n";
    let msg = parse_rfc2822(1, raw);
    assert!(matches!(&msg.body, MailBody::Text(s) if s.contains("café")));
}

#[test]
fn test_format_address_with_name() {
    let addr = Address {
        name: Some(b"Alice".to_vec()),
        adl: None,
        mailbox: Some(b"alice".to_vec()),
        host: Some(b"example.com".to_vec()),
    };
    assert_eq!(format_address(&addr), "Alice <alice@example.com>");
}

#[test]
fn test_format_address_without_name() {
    let addr = Address {
        name: None,
        adl: None,
        mailbox: Some(b"bob".to_vec()),
        host: Some(b"example.com".to_vec()),
    };
    assert_eq!(format_address(&addr), "bob@example.com");
}

#[test]
fn an_address_without_a_host_is_its_name() {
    let addr = Address {
        name: Some(b"Group".to_vec()),
        adl: None,
        mailbox: Some(b"list".to_vec()),
        host: None,
    };
    assert_eq!(format_address(&addr), "Group");
    let addr = Address {
        name: Some(b"\xff".to_vec()),
        adl: None,
        mailbox: Some(b"bob".to_vec()),
        host: Some(b"example.com".to_vec()),
    };
    assert_eq!(format_address(&addr), "bob@example.com");
}

#[test]
fn a_fetch_without_uid_or_envelope_is_no_header() {
    let env = Envelope {
        date: Some(b"Mon".to_vec()),
        subject: Some(b"Hi".to_vec()),
        from: Some(vec![Address {
            name: None,
            adl: None,
            mailbox: Some(b"bob".to_vec()),
            host: Some(b"example.com".to_vec()),
        }]),
        message_id: Some(b"<1>".to_vec()),
    };
    let m = Fetch {
        uid: Some(7),
        envelope: Some(env),
        flags: vec![Flag::Answered, Flag::Seen],
        body: None,
    };
    let h = parse_fetch_to_header(&m).unwrap();
    assert_eq!(h.uid, 7);
    assert_eq!(h.from, "bob@example.com");
    assert_eq!(h.subject, "Hi");
    assert_eq!(h.date, "Mon");
    assert_eq!(h.message_id, "<1>");
    assert!(h.seen);
    assert!(!h.flagged);
    let no_uid = Fetch { uid: None, ..m.clone() };
    assert!(parse_fetch_to_header(&no_uid).is_none());
    let no_envelope = Fetch { envelope: None, ..m };
    assert!(parse_fetch_to_header(&no_envelope).is_none());
}

#[test]
fn folded_header_lines_are_joined() {
    let msg = parse_rfc2822(1, b"Subject: one\r\n two\r\n\t three\r\nFrom: a@b\r\n\r\n");
    assert_eq!(msg.subject, "one two three");
    assert_eq!(msg.from, "a@b");
}

#[test]
fn the_last_of_a_repeated_field_counts() {
    let msg = parse_rfc2822(1, b"SUBJECT: one\nsubject: two\nIn-Reply-To: <1>\n\n");
    assert_eq!(msg.subject, "two");
    assert_eq!(msg.in_reply_to, "<1>");
    // Without a space after the colon it is no field.
    let msg = parse_rfc2822(1, b"Subject:one\n\nbody");
    assert_eq!(msg.subject, "");
}

#[test]
fn a_message_without_a_blank_line_is_all_headers() {
    let msg = parse_rfc2822(3, b"Subject: x");
    assert_eq!(msg.subject, "x");
    assert!(matches!(&msg.body, MailBody::Text(s) if s.is_empty()));
    let msg = parse_rfc2822(3, b"Subject: \xff\n\n");
    assert_eq!(msg.subject, "\u{fffd}");
}

#[test]
fn a_boundary_is_read_without_its_quotes() {
    assert_eq!(extract_boundary("multipart/mixed; Boundary=\"a;b"), Some("a".to_owned()));
    assert_eq!(extract_boundary("multipart/mixed; charset=x; boundary=b1"), Some("b1".to_owned()));
    assert_eq!(extract_boundary("boundary=b1"), None);
    assert_eq!(extract_boundary("multipart/mixed"), None);
}

#[test]
fn transfer_encodings_are_undone() {
    assert_eq!(decode_transfer_encoding("aGVs\r\n bG8=", " base64 "), "hello");
    assert_eq!(decode_transfer_encoding("a=3Db", "quoted-printable"), "a=b");
    assert_eq!(decode_transfer_encoding("a=3Db", "7bit"), "a=3Db");
    assert_eq!(decode_transfer_encoding("a=zz=", "quoted-printable"), "a=zz");
    // What does not decode stays as it is.
    assert_eq!(decode_transfer_encoding("not base64!", "base64"), "not base64!");
    assert_eq!(text_or_raw(None, "raw"), "raw");
    assert_eq!(text_or_raw(Some(vec![0xff]), "raw"), "\u{fffd}");
    assert_eq!(text_or_raw(Some(b"x".to_vec()), "raw"), "x");
}

#[test]
fn a_body_of_json_that_is_no_ffon_is_text() {
    let body = parse_body_part("{\"a\":1}", "application/json", "");
    assert!(matches!(body, MailBody::Text(s) if s == "{\"a\":1}"));
    let body = promote("x".to_owned(), true, None);
    assert!(matches!(body, MailBody::Text(s) if s == "x"));
    let body = promote("x".to_owned(), false, Some(vec![]));
    assert!(matches!(body, MailBody::Text(s) if s == "x"));
    let body = promote("x".to_owned(), true, Some(vec![]));
    assert!(matches!(body, MailBody::Ffon(e) if e.is_empty()));
}

#[test]
fn a_multipart_body_is_shown_as_its_ffon() {
    let raw = "--b\n\nplain\n--b\nContent-Type: application/json\n\n[{\"H:\":[\"x\"]}]\n--b--";
    assert!(matches!(parse_multipart(raw, "b"), MailBody::Ffon(e) if e.len() == 1));
    assert!(matches!(parse_multipart("", "b"), MailBody::Text(s) if s.is_empty()));
    // Without a boundary the body is shown as it is.
    let body = parse_body_part("x", "multipart/mixed", "");
    assert!(matches!(body, MailBody::Text(s) if s == "x"));
}

fn part(text: &str, is_html: bool) -> Part {
    Part { body: MailBody::Text(text.to_owned()), is_html }
}

#[test]
fn the_best_part_is_shown() {
    let document = || Part { body: MailBody::Ffon(vec![]), is_html: false };
    let chosen = choose_part(vec![part("a", false), part("b", false)]);
    assert!(matches!(chosen.body, MailBody::Text(s) if s == "a"));
    assert!(!chosen.is_html);
    let chosen = choose_part(vec![part("a", false), part("b", true), part("c", true)]);
    assert!(matches!(chosen.body, MailBody::Text(s) if s == "b"));
    assert!(chosen.is_html);
    let chosen = choose_part(vec![part("a", false), part("b", true), document()]);
    assert!(matches!(chosen.body, MailBody::Ffon(e) if e.is_empty()));
    assert!(matches!(choose_part(vec![]).body, MailBody::Text(s) if s.is_empty()));
}

#[test]
fn html_is_shown_before_plain_text() {
    let plain = "--bound1\r\nContent-Type: text/plain\r\n\r\nPlain text\r\n";
    let html = "--bound1\r\nContent-Type: text/html\r\n\r\n<p>Rich</p>\r\n";
    let document = "--bound1\r\nContent-Type: application/json\r\n\r\n[\"x\"]\r\n";
    for raw in [format!("{plain}{html}--bound1--\r\n"), format!("{html}{plain}--bound1--\r\n")] {
        match parse_multipart(&raw, "bound1") {
            MailBody::Text(s) => {
                assert!(s.contains("Rich"), "{s}");
                assert!(!s.contains("Plain"), "{s}");
            }
            other => panic!("{other:?}"),
        }
    }
    let raw = format!("{plain}{html}{document}--bound1--\r\n");
    assert!(matches!(parse_multipart(&raw, "bound1"), MailBody::Ffon(e) if e.len() == 1));
}

fn shown(raw: &str) -> String {
    match parse_multipart(raw, "o") {
        MailBody::Text(s) => s,
        other => panic!("{other:?}"),
    }
}

#[test]
fn a_nested_body_counts_as_what_it_is_shown_as() {
    let plain = "--i\r\nContent-Type: text/plain\r\n\r\nPlain text\r\n";
    let html = "--i\r\nContent-Type: text/html\r\n\r\n<p>Rich</p>\r\n";
    let nested = "--o\r\nContent-Type: multipart/alternative; boundary=i\r\n\r\n";
    let footer = "--o\r\nContent-Type: text/html\r\n\r\n<p>Footer</p>\r\n--o--\r\n";
    // The first HTML is the one inside the nested body.
    assert_eq!(shown(&format!("{nested}{plain}{html}--i--\r\n{footer}")), "Rich");
    assert_eq!(shown(&format!("{nested}{plain}--i--\r\n{footer}")), "Footer");
}

#[test]
fn an_attached_page_does_not_displace_the_body() {
    let plain = "--o\r\nContent-Type: text/plain\r\n\r\nPlain text\r\n";
    let page = "--o\r\nContent-Type: text/html\r\nContent-Disposition: Attachment; filename=a.html\r\n\r\n<p>Page</p>\r\n";
    let inline = "--o\r\nContent-Type: text/html\r\nContent-Disposition: inline\r\n\r\n<p>Rich</p>\r\n";
    assert_eq!(shown(&format!("{plain}{page}--o--")), "Plain text");
    assert_eq!(shown(&format!("{plain}{page}{inline}--o--")), "Rich");
    // Where there is nothing better, the first part is shown whatever it is.
    assert_eq!(shown(&format!("{page}{plain}--o--")), "Page");
}

#[test]
fn the_headers_end_at_the_first_blank_line() {
    let msg = parse_rfc2822(1, b"Subject: S\n\none\r\n\r\ntwo");
    assert_eq!(msg.subject, "S");
    assert!(matches!(&msg.body, MailBody::Text(s) if s == "one\r\n\r\ntwo"));
    let msg = parse_rfc2822(1, b"Subject: S\r\n\r\none\n\ntwo");
    assert_eq!(msg.subject, "S");
    assert!(matches!(&msg.body, MailBody::Text(s) if s == "one\n\ntwo"));
    let msg = parse_rfc2822(1, b"Subject: S\n\nSubject: T\r\n\r\n");
    assert_eq!(msg.subject, "S");
    // A part's headers end at a blank line written with carriage returns, if
    // there is one.
    let raw = "--b\r\nX: 1\n\nContent-Type: text/html\r\n\r\n<p>x</p>\r\n--b--";
    assert!(matches!(parse_multipart(raw, "b"), MailBody::Text(s) if s == "x"));
}

#[test]
fn a_multipart_body_may_hold_another() {
    let raw = "--o\nContent-Type: multipart/alternative; boundary=i\n\n\
               --i\nContent-Type: text/plain\nContent-Transfer-Encoding: base64\n\naGk=\n--i--\n--o--";
    assert!(matches!(parse_multipart(raw, "o"), MailBody::Text(s) if s == "hi"));
}

#[test]
fn html_is_flattened() {
    let body = parse_body_part("<h1>Title</h1><p>Hello</p>", "TEXT/HTML; charset=utf-8", "");
    match body {
        MailBody::Text(s) => {
            assert!(s.contains("Title"), "{s}");
            assert!(s.contains("Hello"), "{s}");
            assert!(!s.contains('<'), "{s}");
        }
        other => panic!("{other:?}"),
    }
    let elems = vec![FfonElement::Str("a".to_owned()), FfonElement::Str("b".to_owned())];
    assert_eq!(flatten_ffon_to_text(&elems), "a\nb");
}

#[test]
fn attachments_are_collected() {
    let raw = "--b\r\nContent-Type: text/plain\r\n\r\nhi\r\n\
               --b\r\nContent-Type: application/pdf; name=x\r\nContent-Transfer-Encoding: BASE64\r\n\
               Content-Disposition: attachment; filename=\"a b.pdf\"\r\n\r\nAAH/\r\n\
               --b\r\nContent-Type: image/png\r\n\r\nxyz\r\n\
               --b\r\nContent-Type: text/csv\r\nContent-Disposition: ATTACHMENT; filename*=t.csv\r\n\r\n1,2\r\n\
               --b\r\nContent-Type: application/zip\r\nContent-Transfer-Encoding: base64\r\n\r\n!!\r\n\
               --b--\r\n";
    let found = parse_attachments(raw, "multipart/mixed; boundary=b");
    assert_eq!(found.len(), 4);
    assert_eq!(found[0].filename, "a b.pdf");
    assert_eq!(found[0].content_type, "application/pdf");
    assert_eq!(found[0].data, vec![0u8, 1, 255]);
    assert_eq!(found[1].filename, "attachment");
    assert_eq!(found[1].data, b"xyz".to_vec());
    assert_eq!(found[2].filename, "t.csv");
    assert_eq!(found[2].content_type, "text/csv");
    // What does not decode is empty.
    assert!(found[3].data.is_empty());
    assert!(parse_attachments(raw, "text/plain").is_empty());
    assert!(parse_attachments(raw, "multipart/mixed").is_empty());
    assert!(data_or_nothing(None).is_empty());
    assert_eq!(data_or_nothing(Some(vec![1])), vec![1u8]);
}

#[test]
fn containers_are_no_folders() {
    let names = vec![
        Name { name: "[Gmail]".to_owned(), attributes: vec![NameAttribute::NoSelect] },
        Name {
            name: "Bin".to_owned(),
            attributes: vec![
                NameAttribute::Trash,
                NameAttribute::Extension("\\HasNoChildren".to_owned()),
            ],
        },
    ];
    let folders = folder_infos(&names);
    assert_eq!(folders.len(), 1);
    assert_eq!(folders[0].name, "Bin");
    assert_eq!(
        folders[0].attributes,
        vec!["\\Trash".to_owned(), "\\HasNoChildren".to_owned()]
    );
}
