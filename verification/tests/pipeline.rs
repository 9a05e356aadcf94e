use minihttp::{
    Handler, Kind, Parse, Parser, Request, Response, Router, RouterHandler, StatusCode,
};

struct Hello;

impl Handler for Hello {
    type Response = Response;

    fn call(&mut self, _request: Request) -> Response {
        Response::from_plain_text(StatusCode::Okay, "Hello")
    }
}

struct NotFound;

impl Handler for NotFound {
    type Response = Response;

    fn call(&mut self, _request: Request) -> Response {
        Response::from_plain_text(StatusCode::NotFound, "nothing here")
    }
}

fn hello_router() -> RouterHandler<Hello, NotFound> {
    RouterHandler::new(Router::builder(NotFound).get("/", Hello).build())
}

fn contains(haystack: &[u8], needle: &[u8]) -> bool {
    haystack.windows(needle.len()).any(|w| w == needle)
}

#[test]
fn serves_registered_root() {
    let input = b"GET / HTTP/1.1\r\n\r\n".to_vec();
    let request = Parser::new(input).parse().expect("well-formed request");
    let response = hello_router().call(request);
    let bytes = response.as_bytes();
    assert!(bytes.starts_with(b"HTTP/1.1 200 OK\r\n"));
    assert!(contains(&bytes, b"Hello"));
}

#[test]
fn falls_back_to_not_found() {
    let input = b"GET /missing HTTP/1.1\r\n\r\n".to_vec();
    let request = Parser::new(input).parse().expect("well-formed request");
    let response = hello_router().call(request);
    assert_eq!(response.status_code, StatusCode::NotFound);
    assert_eq!(response.body.get_bytes(), b"nothing here");
}

#[test]
fn body_read_by_content_length() {
    let input = b"POST /submit HTTP/1.1\r\nContent-Length: 5\r\n\r\nhello".to_vec();
    let request = Parser::new(input).parse().expect("well-formed request");
    assert_eq!(request.body().get_bytes(), b"hello");
    assert_eq!(
        request.headers().get("Content-Length"),
        Some(&String::from("5"))
    );
}

#[test]
fn unreadable_content_length_is_rejected() {
    let input = b"POST /submit HTTP/1.1\r\nContent-Length: five\r\n\r\nhello".to_vec();
    let err = Parser::new(input).parse().expect_err("should fail");
    assert_eq!(err.kind, Kind::Parse(Parse::HeaderValue));
}

#[test]
fn overlong_content_length_is_rejected() {
    let input = b"POST /submit HTTP/1.1\r\nContent-Length: 6\r\n\r\nhello".to_vec();
    let err = Parser::new(input).parse().expect_err("should fail");
    assert_eq!(err.kind, Kind::Parse(Parse::HeaderValue));
}

#[test]
fn absent_content_length_means_empty_body() {
    let input = b"GET / HTTP/1.1\r\n\r\ntrailing".to_vec();
    let request = Parser::new(input).parse().expect("well-formed request");
    assert_eq!(request.body().get_bytes(), b"");
}

#[test]
fn unknown_method_is_rejected() {
    let input = b"BREW / HTTP/1.1\r\n\r\n".to_vec();
    let err = Parser::new(input).parse().expect_err("should fail");
    assert_eq!(err.kind, Kind::Parse(Parse::Method));
}

#[test]
fn lowercase_method_is_rejected() {
    let input = b"get / HTTP/1.1\r\n\r\n".to_vec();
    let err = Parser::new(input).parse().expect_err("should fail");
    assert_eq!(err.kind, Kind::Parse(Parse::Method));
}

#[test]
fn missing_version_terminator_is_rejected() {
    let input = b"GET / HTTP/1.1".to_vec();
    let err = Parser::new(input).parse().expect_err("should fail");
    assert_eq!(err.kind, Kind::Parse(Parse::Version));
}

#[test]
fn truncated_request_line_is_rejected() {
    let input = b"GET".to_vec();
    let err = Parser::new(input).parse().expect_err("should fail");
    assert_eq!(err.kind, Kind::Parse(Parse::Method));
}

#[test]
fn header_without_colon_is_rejected() {
    let input = b"GET / HTTP/1.1\r\nbroken line\r\n\r\n".to_vec();
    let err = Parser::new(input).parse().expect_err("should fail");
    assert_eq!(err.kind, Kind::Parse(Parse::Header));
}

#[test]
fn request_line_fields_are_split() {
    let input = b"GET /a/b?x=1#frag HTTP/1.1\r\nHost: here\r\n\r\n".to_vec();
    let request = Parser::new(input).parse().expect("well-formed request");
    assert_eq!(*request.method(), minihttp::RequestMethod::Get);
    assert_eq!(request.uri().path(), "/a/b");
    assert_eq!(request.uri().query(), "x=1");
    assert_eq!(request.headers().get("Host"), Some(&String::from("here")));
}

#[test]
fn duplicate_header_keeps_last_value() {
    let input = b"GET / HTTP/1.1\r\nTag: a\r\nTag: b\r\n\r\n".to_vec();
    let request = Parser::new(input).parse().expect("well-formed request");
    assert_eq!(request.headers().get("Tag"), Some(&String::from("b")));
    assert_eq!(request.headers().len(), 1);
}

struct Appending {
    log: Vec<String>,
}

impl Handler for Appending {
    type Response = Response;

    fn call(&mut self, request: Request) -> Response {
        self.log.push(String::from(request.uri().path()));
        Response::from_plain_text(StatusCode::Created, "stored")
    }
}

#[test]
fn serialized_connections_never_lose_appends() {
    // The server guards the shared handler with a mutual-exclusion lock, so
    // concurrent connections reach it strictly one after another; each of N
    // simulated connections issues one request, and none is lost or doubled.
    let shared = std::sync::Mutex::new(RouterHandler::new(
        Router::builder(NotFound).get("/items/:id", Appending { log: Vec::new() }).build(),
    ));
    let n: usize = 32;
    for i in 0..n {
        let line = format!("GET /items/{} HTTP/1.1\r\n\r\n", i);
        let request = Parser::new(line.into_bytes()).parse().expect("well-formed");
        let mut guard = shared.lock().expect("lock");
        let response = guard.call(request);
        assert_eq!(response.status_code, StatusCode::Created);
    }
    let guard = shared.lock().expect("lock");
    let log = &guard.router.routes[0].handler.log;
    assert_eq!(log.len(), n);
    for i in 0..n {
        assert_eq!(log[i], format!("/items/{}", i));
    }
}

#[test]
fn parser_cursor_primitives() {
    let mut parser = Parser::new(b"GET /".to_vec());
    assert!(parser.starts_with(b"GET"));
    assert!(!parser.starts_with(b"POST"));
    assert_eq!(parser.peek(), b'G');
    assert_eq!(parser.consume(), b'G');
    assert_eq!(parser.peek(), b'E');
    assert!(!parser.eof());
    let word = parser.consume_while(|b: u8| b != b' ');
    assert_eq!(word, b"ET".to_vec());
    assert_eq!(parser.consume(), b' ');
    assert!(parser.starts_with(b"/"));
    let rest = parser.consume_while(|b: u8| b != b' ');
    assert_eq!(rest, b"/".to_vec());
    assert!(parser.eof());
}

#[test]
fn router_nests_as_not_found_handler() {
    // A router satisfies the handler capability itself, so one router can
    // serve as another's fallback: requests the outer router cannot place
    // are delegated to the inner one.
    let inner = RouterHandler::new(Router::builder(NotFound).get("/fallback", Hello).build());
    let mut outer = RouterHandler::new(Router::builder(inner).get("/main", Hello).build());

    let request = Parser::new(b"GET /fallback HTTP/1.1\r\n\r\n".to_vec())
        .parse()
        .expect("well-formed request");
    let response = outer.call(request);
    assert_eq!(response.status_code, StatusCode::Okay);
    assert_eq!(response.body.get_bytes(), b"Hello");

    let request = Parser::new(b"GET /nowhere HTTP/1.1\r\n\r\n".to_vec())
        .parse()
        .expect("well-formed request");
    let response = outer.call(request);
    assert_eq!(response.status_code, StatusCode::NotFound);
    assert_eq!(response.body.get_bytes(), b"nothing here");
}
