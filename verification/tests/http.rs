use emailclient::http::{form_encode, Client, Error, Response};

#[test]
fn a_form_field_is_percent_encoded() {
    assert_eq!(form_encode("AZaz09-._~"), "AZaz09-._~");
    assert_eq!(form_encode("a b&c=d%"), "a%20b%26c%3Dd%25");
    assert_eq!(form_encode("é"), "%C3%A9");
    assert_eq!(form_encode(""), "");
}

#[test]
fn a_request_is_built_step_by_step() {
    let (method, url, headers, body, timeout) = Client::new()
        .post("https://example.com/token")
        .header("X-A".to_owned(), "1".to_owned())
        .bearer_auth("tok")
        .form(&[("a b", "c"), ("d", "e&f")])
        .into_parts();
    assert_eq!(method, "POST");
    assert_eq!(url, "https://example.com/token");
    assert_eq!(
        headers,
        vec![
            ("X-A".to_owned(), "1".to_owned()),
            ("Authorization".to_owned(), "Bearer tok".to_owned()),
            ("Content-Type".to_owned(), "application/x-www-form-urlencoded".to_owned()),
        ]
    );
    assert_eq!(body, Some(b"a%20b=c&d=e%26f".to_vec()));
    assert_eq!(timeout, 30);
    let (method, _, headers, body, _) = Client::default().clone().get("u").into_parts();
    assert_eq!(method, "GET");
    assert!(headers.is_empty());
    assert!(body.is_none());
}

#[test]
fn a_response_is_read_as_text() {
    assert_eq!(Response::new(b"hi".to_vec()).text().unwrap(), "hi");
    assert_eq!(Response::new(vec![0xff]).text().unwrap(), "\u{fffd}");
    assert_eq!(Error::new("no".to_owned()).message(), "no");
}
