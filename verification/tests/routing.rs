use minihttp::{Handler, Request, RequestMethod, Response, Route, Router};

struct Stub(u16);

impl Handler for Stub {
    type Response = Response;

    fn call(&mut self, _request: Request) -> Response {
        match Response::builder().status(self.0).body_text("stub") {
            Ok(r) => r,
            Err(_) => Response::new(
                minihttp::StatusCode::InternalServerError,
                minihttp::Headers::new(),
                minihttp::Body::empty(),
            ),
        }
    }
}

#[test]
fn literal_route_matches_whole_path() {
    let route = Route::new(RequestMethod::Get, "/a/b", Stub(200));
    assert!(route.matches("/a/b").is_some());
    assert!(route.matches("/a").is_none());
    assert!(route.matches("/a/b/c").is_none());
    assert!(route.matches("/a/x").is_none());
}

#[test]
fn param_route_captures_segment() {
    let route = Route::new(RequestMethod::Get, "/users/:id", Stub(200));
    let params = route.matches("/users/42").expect("should match");
    assert_eq!(params.get("id"), Some(&String::from("42")));
    assert!(route.matches("/users/").is_none());
    assert!(route.matches("/users/42/posts").is_none());
}

#[test]
fn matching_is_idempotent() {
    let route = Route::new(RequestMethod::Get, "/users/:id", Stub(200));
    let first = route.matches("/users/7");
    let second = route.matches("/users/7");
    match (first, second) {
        (Some(a), Some(b)) => {
            assert_eq!(a.get("id"), b.get("id"));
            assert_eq!(a.len(), b.len());
        }
        _ => panic!("both attempts should match"),
    }
    assert!(route.matches("/other").is_none());
    assert!(route.matches("/other").is_none());
}

#[test]
fn wildcard_does_not_cross_separator() {
    let route = Route::new(RequestMethod::Get, "/public/*", Stub(200));
    assert!(route.matches("/public/index.html").is_some());
    assert!(route.matches("/public/a/b").is_none());
    assert!(route.matches("/public/").is_none());
    // The wildcard captures nothing.
    let params = route.matches("/public/site-map_v2.txt").expect("should match");
    assert_eq!(params.len(), 0);
}

#[test]
fn registration_order_decides_precedence() {
    let mut router = Router::builder(Stub(404))
        .get("/users/:id", Stub(201))
        .get("/users/me", Stub(200))
        .build();
    let method = RequestMethod::Get;
    // The parameterized route was registered first, so it wins and captures
    // "me" even though a literal route follows.
    {
        let routes = &router.routes;
        let params = routes[0].matches("/users/me").expect("first route should match");
        assert_eq!(params.get("id"), Some(&String::from("me")));
    }
    assert!(router.get_handler(&method, "/users/me").is_some());
    let mut probe = Stub(0);
    {
        let chosen = router.get_handler(&method, "/users/me").expect("a route matches");
        core::mem::swap(chosen, &mut probe);
    }
    assert_eq!(probe.0, 201);
}

#[test]
fn method_is_compared_before_pattern() {
    let routes = vec![Route::new(RequestMethod::Post, "/x", Stub(200))];
    let mut router = Router::new(routes, Stub(404));
    assert!(router.get_handler(&RequestMethod::Get, "/x").is_none());
    assert!(router.get_handler(&RequestMethod::Post, "/x").is_some());
}
