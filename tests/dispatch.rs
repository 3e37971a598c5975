use rpc_server::dispatch::{
    bytes_equal, has_prefix, settle, Completion, DispatchAction, Dispatcher, HandlerError,
    Matcher, Request, Response, Route, Stack,
};

fn stack(name: &str, matcher: Matcher) -> Stack {
    Stack { name: name.to_string(), matcher }
}

fn health_and_rpc() -> Dispatcher {
    let mut d = Dispatcher::new();
    d.register(stack("http", Matcher::PathPrefix(b"/health".to_vec())));
    d.register(stack("rpc", Matcher::PathPrefix(b"/rpc".to_vec())));
    d
}

// The two stacks of the scenario, standing in for the real pipelines.
fn health_handler(_req: &Request) -> Result<Response, HandlerError> {
    Ok(Response::with_body(200, br#"{"ok":true}"#.to_vec()))
}

fn rpc_handler(req: &Request) -> Result<Response, HandlerError> {
    if req.body == br#"{"method":"ping","id":1}"#.to_vec() {
        Ok(Response::with_body(200, br#"{"result":"pong","id":1}"#.to_vec()))
    } else {
        Err(HandlerError { message: "unknown method".to_string() })
    }
}

fn serve(d: &Dispatcher, req: &Request) -> Response {
    match d.begin(req) {
        DispatchAction::Invoke(0) => settle(health_handler(req)).1,
        DispatchAction::Invoke(1) => settle(rpc_handler(req)).1,
        DispatchAction::Invoke(i) => panic!("no handler at {}", i),
        DispatchAction::Respond(resp) => resp,
    }
}

#[test]
fn health_rpc_and_unknown_scenario() {
    let d = health_and_rpc();
    let r = serve(&d, &Request::new("GET", "/health", Vec::new()));
    assert_eq!(r.status, 200);
    assert_eq!(r.body, br#"{"ok":true}"#.to_vec());

    let r = serve(&d, &Request::new("POST", "/rpc", br#"{"method":"ping","id":1}"#.to_vec()));
    assert_eq!(r.status, 200);
    assert_eq!(r.body, br#"{"result":"pong","id":1}"#.to_vec());

    let r = serve(&d, &Request::new("GET", "/unknown", Vec::new()));
    assert_eq!(r.status, 404);
    assert!(r.body.is_empty());
}

#[test]
fn only_the_matching_stack_is_invoked() {
    let d = health_and_rpc();
    assert_eq!(d.begin(&Request::new("GET", "/health/live", Vec::new())), DispatchAction::Invoke(0));
    assert_eq!(d.begin(&Request::new("POST", "/rpc", Vec::new())), DispatchAction::Invoke(1));
    assert_eq!(d.route(&Request::new("POST", "/rpc/v0", Vec::new())), Route::Stack(1));
}

#[test]
fn no_match_is_not_found() {
    let d = health_and_rpc();
    let req = Request::new("GET", "/", Vec::new());
    assert_eq!(d.route(&req), Route::NotFound);
    assert_eq!(d.begin(&req), DispatchAction::Respond(Response::not_found()));
    let empty = Dispatcher::new();
    assert_eq!(empty.route(&req), Route::NotFound);
}

#[test]
fn first_registered_wins() {
    let mut d = Dispatcher::new();
    d.register(stack("wide", Matcher::PathPrefix(b"/".to_vec())));
    d.register(stack("narrow", Matcher::PathPrefix(b"/rpc".to_vec())));
    assert_eq!(d.route(&Request::new("POST", "/rpc", Vec::new())), Route::Stack(0));
    assert_eq!(d.len(), 2);
    assert_eq!(d.name(1), "narrow");
}

#[test]
fn method_rules() {
    let mut d = Dispatcher::new();
    d.register(stack("rpc", Matcher::MethodAndPrefix(b"POST".to_vec(), b"/rpc".to_vec())));
    d.register(stack("reads", Matcher::Method(b"GET".to_vec())));
    assert_eq!(d.route(&Request::new("POST", "/rpc", Vec::new())), Route::Stack(0));
    assert_eq!(d.route(&Request::new("GET", "/rpc", Vec::new())), Route::Stack(1));
    assert_eq!(d.route(&Request::new("PUT", "/rpc", Vec::new())), Route::NotFound);
    assert_eq!(d.route(&Request::new("POS", "/rpc", Vec::new())), Route::NotFound);
}

#[test]
fn handler_success_passes_through() {
    let resp = Response {
        status: 201,
        headers: vec![("x-id".to_string(), "7".to_string())],
        body: b"made".to_vec(),
    };
    let (c, out) = settle(Ok(resp.clone()));
    assert_eq!(c, Completion::Success);
    assert_eq!(out, resp);
}

#[test]
fn handler_failure_is_server_error() {
    let (c, out) = settle(Err(HandlerError { message: "store down".to_string() }));
    assert_eq!(c, Completion::HandlerFailure);
    assert_eq!(out.status, 500);
    assert!(out.body.is_empty());
    assert_eq!(out, Response::server_error());
}

#[test]
fn prefixes_and_equality() {
    assert!(has_prefix(b"", b""));
    assert!(has_prefix(b"", b"/x"));
    assert!(has_prefix(b"/rpc", b"/rpc"));
    assert!(has_prefix(b"/rpc", b"/rpc/v0"));
    assert!(!has_prefix(b"/rpc/v0", b"/rpc"));
    assert!(!has_prefix(b"/rpd", b"/rpc"));
    assert!(bytes_equal(b"GET", b"GET"));
    assert!(!bytes_equal(b"GET", b"GE"));
    assert!(!bytes_equal(b"GET", b"PUT"));
}

#[test]
fn overlaps_between_rules() {
    let a = Matcher::PathPrefix(b"/health".to_vec());
    let b = Matcher::PathPrefix(b"/rpc".to_vec());
    let c = Matcher::PathPrefix(b"/rpc/v0".to_vec());
    let get = Matcher::Method(b"GET".to_vec());
    let post_rpc = Matcher::MethodAndPrefix(b"POST".to_vec(), b"/rpc".to_vec());
    assert!(!a.overlaps(&b));
    assert!(b.overlaps(&c));
    assert!(c.overlaps(&b));
    assert!(get.overlaps(&a));
    assert!(!get.overlaps(&post_rpc));
    assert!(post_rpc.overlaps(&c));
    assert!(!post_rpc.overlaps(&a));
}

#[test]
fn startup_check_finds_overlap() {
    assert_eq!(health_and_rpc().find_overlap(), None);
    let mut d = health_and_rpc();
    d.register(stack("status", Matcher::PathPrefix(b"/status".to_vec())));
    d.register(stack("rpc-v0", Matcher::PathPrefix(b"/rpc/v0".to_vec())));
    assert_eq!(d.find_overlap(), Some((1, 3)));
    assert_eq!(Dispatcher::new().find_overlap(), None);
}

#[test]
fn request_from_text() {
    let r = Request::new("GET", "/health", b"x".to_vec());
    assert_eq!(r.method, b"GET".to_vec());
    assert_eq!(r.path, b"/health".to_vec());
    assert!(r.headers.is_empty());
    assert_eq!(r.body, b"x".to_vec());
}

#[test]
fn disjoint_rules_ignore_registration_order() {
    let mut d = Dispatcher::new();
    d.register(stack("rpc", Matcher::PathPrefix(b"/rpc".to_vec())));
    d.register(stack("http", Matcher::PathPrefix(b"/health".to_vec())));
    assert_eq!(d.find_overlap(), None);
    let forward = health_and_rpc();
    for path in ["/health", "/rpc", "/rpc/x", "/other"] {
        let req = Request::new("GET", path, Vec::new());
        let a = match forward.route(&req) {
            Route::Stack(i) => Some(forward.name(i).clone()),
            Route::NotFound => None,
        };
        let b = match d.route(&req) {
            Route::Stack(i) => Some(d.name(i).clone()),
            Route::NotFound => None,
        };
        assert_eq!(a, b);
    }
}
