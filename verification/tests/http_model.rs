use minihttp::{Body, Headers, HttpError, RequestMethod, Response, StatusCode, Uri};

#[test]
fn method_known_verbs() {
    assert_eq!(RequestMethod::try_from("GET"), Ok(RequestMethod::Get));
    assert_eq!(RequestMethod::try_from("POST"), Ok(RequestMethod::Post));
    assert_eq!(RequestMethod::try_from("PUT"), Ok(RequestMethod::Put));
    assert_eq!(RequestMethod::try_from("PATCH"), Ok(RequestMethod::Patch));
    assert_eq!(RequestMethod::try_from("DELETE"), Ok(RequestMethod::Delete));
}

#[test]
fn method_unknown_verbs() {
    assert_eq!(RequestMethod::try_from("get"), Err(()));
    assert_eq!(RequestMethod::try_from("HEAD"), Err(()));
    assert_eq!(RequestMethod::try_from("OPTIONS"), Err(()));
    assert_eq!(RequestMethod::try_from(""), Err(()));
    assert_eq!(RequestMethod::try_from("GETX"), Err(()));
}

#[test]
fn uri_path_and_query() {
    let uri = Uri::from_str("/a/b?x=1");
    assert_eq!(uri.path(), "/a/b");
    assert_eq!(uri.query(), "x=1");
}

#[test]
fn uri_without_query() {
    let uri = Uri::from_str("/a/b");
    assert_eq!(uri.path(), "/a/b");
    assert_eq!(uri.query(), "");
}

#[test]
fn uri_discards_fragment() {
    let uri = Uri::from_str("/page?k=v#section");
    assert_eq!(uri.path(), "/page");
    assert_eq!(uri.query(), "k=v");
    let uri = Uri::from_str("/page#section");
    assert_eq!(uri.path(), "/page");
    assert_eq!(uri.query(), "");
}

#[test]
fn uri_from_parts_round_trip() {
    let uri = Uri::from_parts("/users/42", "sort=asc");
    assert_eq!(uri.path(), "/users/42");
    assert_eq!(uri.query(), "sort=asc");
    let uri = Uri::from_parts("/users/42", "");
    assert_eq!(uri.path(), "/users/42");
    assert_eq!(uri.query(), "");
}

#[test]
fn status_code_whitelist() {
    assert_eq!(StatusCode::try_from(200), Ok(StatusCode::Okay));
    assert_eq!(StatusCode::try_from(201), Ok(StatusCode::Created));
    assert_eq!(StatusCode::try_from(400), Ok(StatusCode::BadRequest));
    assert_eq!(StatusCode::try_from(403), Ok(StatusCode::Unauthorized));
    assert_eq!(StatusCode::try_from(404), Ok(StatusCode::NotFound));
    assert_eq!(StatusCode::try_from(500), Ok(StatusCode::InternalServerError));
    assert_eq!(
        StatusCode::try_from(418),
        Err(HttpError::InvalidResponseCode(418))
    );
    assert_eq!(
        StatusCode::try_from(505),
        Err(HttpError::InvalidResponseCode(505))
    );
}

#[test]
fn headers_last_occurrence_wins() {
    let mut headers = Headers::new();
    headers.insert(String::from("Host"), String::from("one"));
    headers.insert(String::from("Host"), String::from("two"));
    assert_eq!(headers.len(), 1);
    assert_eq!(headers.get("Host"), Some(&String::from("two")));
    assert_eq!(headers.get("host"), None);
}

#[test]
fn builder_assembles_response() {
    let response = Response::builder()
        .status(201)
        .header("X-Tag", "a")
        .body(Body::from_text("made"))
        .unwrap();
    assert_eq!(response.status_code, StatusCode::Created);
    assert_eq!(response.headers.get("X-Tag"), Some(&String::from("a")));
    assert_eq!(response.body.get_bytes(), b"made");
}

#[test]
fn builder_short_circuits_on_bad_status() {
    let result = Response::builder()
        .status(299)
        .header("X-Tag", "ignored")
        .body_text("ignored");
    match result {
        Err(HttpError::InvalidResponseCode(code)) => assert_eq!(code, 299),
        _ => panic!("expected the invalid status to short-circuit"),
    }
}

#[test]
fn builder_keeps_first_failure() {
    let result = Response::builder().status(299).status(200).body_text("x");
    match result {
        Err(HttpError::InvalidResponseCode(code)) => assert_eq!(code, 299),
        _ => panic!("expected the first failure to be kept"),
    }
}

#[test]
fn plain_text_response_carries_length() {
    let response = Response::from_plain_text(StatusCode::Okay, "Hello");
    assert_eq!(
        response.headers.get("Content-Length"),
        Some(&String::from("5"))
    );
    assert_eq!(response.body.get_bytes(), b"Hello");
}

#[test]
fn html_response_carries_type_and_length() {
    let response = Response::from_html_ok("<p>hi</p>");
    assert_eq!(
        response.headers.get("Content-Length"),
        Some(&String::from("9"))
    );
    assert_eq!(
        response.headers.get("Content-Type"),
        Some(&String::from("text/html; charset=utf-8"))
    );
    assert_eq!(response.status_code, StatusCode::Okay);
}

#[test]
fn response_wire_framing() {
    let response = Response::from_plain_text(StatusCode::NotFound, "gone");
    let bytes = response.as_bytes();
    let expected = b"HTTP/1.1 404 Not Found\r\nContent-Length: 4\r\n\r\ngone\r\n";
    assert_eq!(bytes, expected.to_vec());
}

#[test]
fn response_wire_framing_without_headers() {
    let response = Response::new(StatusCode::Okay, Headers::new(), Body::from_text("x"));
    let bytes = response.as_bytes();
    let expected = b"HTTP/1.1 200 OK\r\n\r\n\r\nx\r\n";
    assert_eq!(bytes, expected.to_vec());
}

#[test]
fn content_length_counts_bytes_in_decimal() {
    let body = "x".repeat(123);
    let response = Response::from_plain_text(StatusCode::Okay, body.as_str());
    assert_eq!(
        response.headers.get("Content-Length"),
        Some(&String::from("123"))
    );
}
