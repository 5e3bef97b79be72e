use rum::context::{Callable, RumContext};
use rum::handler::{DispatchOutcome, Handler};
use rum::method::MethodType;

enum TestHandler {
    EchoUrlParam(&'static [u8]),
    EchoQueryParam(&'static [u8]),
    EchoFormParam(&'static [u8]),
    EchoBody,
    EchoHeader(&'static [u8]),
    Text(u16, &'static [u8]),
    AuthGuard,
    MarkHeader(&'static [u8], &'static [u8]),
}

impl Callable for TestHandler {
    fn invoke(&self, ctx: &mut RumContext) {
        match self {
            TestHandler::EchoUrlParam(name) => {
                let v = ctx.get_url_param(name).unwrap_or_default();
                ctx.set_response(200, &v);
            }
            TestHandler::EchoQueryParam(name) => {
                let v = ctx.get_query_param(name).unwrap_or_default();
                ctx.set_response(200, &v);
            }
            TestHandler::EchoFormParam(name) => {
                let v = ctx.get_form_param(name).unwrap_or_default();
                ctx.set_response(200, &v);
            }
            TestHandler::EchoBody => {
                let body = ctx.request_body.clone();
                ctx.set_response(200, &body);
            }
            TestHandler::EchoHeader(name) => {
                let v = ctx.get_request_header(name).unwrap_or_default();
                ctx.set_response(200, &v);
            }
            TestHandler::Text(status, body) => {
                ctx.set_response(*status, body);
            }
            TestHandler::AuthGuard => {
                if ctx.get_request_header(b"Authorization").is_none() {
                    ctx.set_response(401, b"denied");
                }
            }
            TestHandler::MarkHeader(k, v) => {
                ctx.set_response_header(k, v);
            }
        }
    }
}

fn response_of(outcome: DispatchOutcome) -> (Vec<u8>, u16) {
    match outcome {
        DispatchOutcome::Response { bytes, status } => (bytes, status),
        DispatchOutcome::ServeFile { .. } => panic!("expected a response, got a file to serve"),
    }
}

#[test]
fn echoes_bound_url_param() {
    let mut h: Handler<TestHandler> = Handler::new();
    h.add_route(MethodType::GET, b"/users/:id", TestHandler::EchoUrlParam(b"id"));
    let (bytes, status) = response_of(h.handle_request(b"GET /users/42 HTTP/1.1\r\n\r\n"));
    assert_eq!(status, 200);
    assert_eq!(bytes, b"HTTP/1.1 200 OK\r\n\r\n42".to_vec());
}

#[test]
fn auth_middleware_short_circuits_without_header() {
    let mut h: Handler<TestHandler> = Handler::new();
    h.set_middleware(b"/admin", vec![TestHandler::AuthGuard]);
    h.add_route(MethodType::GET, b"/admin/panel", TestHandler::Text(200, b"panel"));
    let (bytes, status) = response_of(h.handle_request(b"GET /admin/panel HTTP/1.1\r\n\r\n"));
    assert_eq!(status, 401);
    assert_eq!(bytes, b"HTTP/1.1 401 UNAUTHORIZED\r\n\r\ndenied".to_vec());
}

#[test]
fn auth_middleware_passes_with_header() {
    let mut h: Handler<TestHandler> = Handler::new();
    h.set_middleware(b"/admin", vec![TestHandler::AuthGuard]);
    h.add_route(MethodType::GET, b"/admin/panel", TestHandler::Text(200, b"panel"));
    let raw = b"GET /admin/panel HTTP/1.1\r\nAuthorization: secret\r\n\r\n";
    let (bytes, status) = response_of(h.handle_request(raw));
    assert_eq!(status, 200);
    assert_eq!(bytes, b"HTTP/1.1 200 OK\r\n\r\npanel".to_vec());
}

#[test]
fn middleware_runs_root_to_leaf_in_registration_order() {
    let mut h: Handler<TestHandler> = Handler::new();
    h.set_middleware(b"/", vec![TestHandler::MarkHeader(b"m", b"1")]);
    h.set_middleware(b"/p", vec![TestHandler::MarkHeader(b"m", b"2"), TestHandler::MarkHeader(b"m", b"3")]);
    h.add_route(MethodType::GET, b"/p", TestHandler::Text(200, b"ok"));
    let (bytes, status) = response_of(h.handle_request(b"GET /p HTTP/1.1\r\n\r\n"));
    assert_eq!(status, 200);
    assert_eq!(bytes, b"HTTP/1.1 200 OK\r\nm: 1\r\nm: 2\r\nm: 3\r\n\r\nok".to_vec());
}

#[test]
fn trailing_slash_matches_same_route() {
    let mut h: Handler<TestHandler> = Handler::new();
    h.add_route(MethodType::GET, b"/a/b", TestHandler::Text(200, b"ab"));
    let (with_slash, s1) = response_of(h.handle_request(b"GET /a/b/ HTTP/1.1\r\n\r\n"));
    let (without, s2) = response_of(h.handle_request(b"GET /a/b HTTP/1.1\r\n\r\n"));
    assert_eq!(s1, 200);
    assert_eq!(s2, 200);
    assert_eq!(with_slash, without);
}

#[test]
fn miss_without_static_root_is_fixed_not_found() {
    let h: Handler<TestHandler> = Handler::new();
    let (bytes, status) = response_of(h.handle_request(b"GET /missing HTTP/1.1\r\n\r\n"));
    assert_eq!(status, 404);
    assert_eq!(bytes, b"HTTP/1.1 404 NOT FOUND\r\n\r\n404 NOT FOUND".to_vec());
}

#[test]
fn miss_with_static_root_serves_last_segment() {
    let mut h: Handler<TestHandler> = Handler::new();
    h.set_static_assets(b"/var/www");
    match h.handle_request(b"GET /assets/logo.png HTTP/1.1\r\n\r\n") {
        DispatchOutcome::ServeFile { path, version } => {
            assert_eq!(path, b"/var/www/logo.png".to_vec());
            assert_eq!(version, b"HTTP/1.1".to_vec());
        }
        DispatchOutcome::Response { .. } => panic!("expected a file to serve"),
    }
}

#[test]
fn unknown_method_is_fixed_bad_request() {
    let mut h: Handler<TestHandler> = Handler::new();
    h.add_route(MethodType::GET, b"/", TestHandler::Text(200, b"home"));
    let (bytes, status) = response_of(h.handle_request(b"FETCH / HTTP/1.1\r\n\r\n"));
    assert_eq!(status, 400);
    assert_eq!(bytes, b"HTTP/1.1 400 BAD REQUEST\r\n\r\n400 BAD REQUEST".to_vec());
}

#[test]
fn malformed_request_line_is_bad_request() {
    let h: Handler<TestHandler> = Handler::new();
    let (bytes, status) = response_of(h.handle_request(b"GET\r\n\r\n"));
    assert_eq!(status, 400);
    assert_eq!(bytes, b" 400 BAD REQUEST\r\n\r\n400 BAD REQUEST".to_vec());
}

#[test]
fn reregistering_same_pattern_replaces_handler() {
    let mut h: Handler<TestHandler> = Handler::new();
    h.add_route(MethodType::GET, b"/x", TestHandler::Text(200, b"first"));
    h.add_route(MethodType::GET, b"/x", TestHandler::Text(200, b"second"));
    let (bytes, _) = response_of(h.handle_request(b"GET /x HTTP/1.1\r\n\r\n"));
    assert_eq!(bytes, b"HTTP/1.1 200 OK\r\n\r\nsecond".to_vec());
}

#[test]
fn methods_are_distinct_registrations() {
    let mut h: Handler<TestHandler> = Handler::new();
    h.add_route(MethodType::GET, b"/r", TestHandler::Text(200, b"got"));
    h.add_route(MethodType::DELETE, b"/r", TestHandler::Text(200, b"gone"));
    let (bytes, _) = response_of(h.handle_request(b"DELETE /r HTTP/1.1\r\n\r\n"));
    assert_eq!(bytes, b"HTTP/1.1 200 OK\r\n\r\ngone".to_vec());
    let (bytes2, status2) = response_of(h.handle_request(b"POST /r HTTP/1.1\r\n\r\n"));
    assert_eq!(status2, 404);
    assert_eq!(bytes2, b"HTTP/1.1 404 NOT FOUND\r\n\r\n404 NOT FOUND".to_vec());
}

#[test]
fn literal_child_takes_precedence_over_param() {
    let mut h: Handler<TestHandler> = Handler::new();
    h.add_route(MethodType::GET, b"/u/admin", TestHandler::Text(200, b"lit"));
    h.add_route(MethodType::GET, b"/u/:id", TestHandler::EchoUrlParam(b"id"));
    let (lit, _) = response_of(h.handle_request(b"GET /u/admin HTTP/1.1\r\n\r\n"));
    assert_eq!(lit, b"HTTP/1.1 200 OK\r\n\r\nlit".to_vec());
    let (par, _) = response_of(h.handle_request(b"GET /u/77 HTTP/1.1\r\n\r\n"));
    assert_eq!(par, b"HTTP/1.1 200 OK\r\n\r\n77".to_vec());
}

#[test]
fn query_params_last_write_wins() {
    let mut h: Handler<TestHandler> = Handler::new();
    h.add_route(MethodType::GET, b"/s", TestHandler::EchoQueryParam(b"k"));
    let (bytes, _) = response_of(h.handle_request(b"GET /s?k=1&k=2 HTTP/1.1\r\n\r\n"));
    assert_eq!(bytes, b"HTTP/1.1 200 OK\r\n\r\n2".to_vec());
}

#[test]
fn form_body_is_decoded_for_urlencoded_content_type() {
    let mut h: Handler<TestHandler> = Handler::new();
    h.add_route(MethodType::POST, b"/submit", TestHandler::EchoFormParam(b"b"));
    let raw =
        b"POST /submit HTTP/1.1\r\nContent-Type: application/x-www-form-urlencoded\r\n\r\na=1&b=2";
    let (bytes, _) = response_of(h.handle_request(raw));
    assert_eq!(bytes, b"HTTP/1.1 200 OK\r\n\r\n2".to_vec());
}

#[test]
fn json_body_has_whitespace_stripped() {
    let mut h: Handler<TestHandler> = Handler::new();
    h.add_route(MethodType::POST, b"/j", TestHandler::EchoBody);
    let raw = b"POST /j HTTP/1.1\r\nContent-Type: application/json\r\n\r\n{ \"a\" : 1 }";
    let (bytes, _) = response_of(h.handle_request(raw));
    assert_eq!(bytes, b"HTTP/1.1 200 OK\r\n\r\n{\"a\":1}".to_vec());
}

#[test]
fn plain_body_is_kept_verbatim() {
    let mut h: Handler<TestHandler> = Handler::new();
    h.add_route(MethodType::POST, b"/t", TestHandler::EchoBody);
    let raw = b"POST /t HTTP/1.1\r\nContent-Type: text/plain\r\n\r\nhello there";
    let (bytes, _) = response_of(h.handle_request(raw));
    assert_eq!(bytes, b"HTTP/1.1 200 OK\r\n\r\nhello there".to_vec());
}

#[test]
fn request_headers_reach_the_handler() {
    let mut h: Handler<TestHandler> = Handler::new();
    h.add_route(MethodType::GET, b"/hdr", TestHandler::EchoHeader(b"X-Thing"));
    let raw = b"GET /hdr HTTP/1.1\r\nX-Thing: widget\r\n\r\n";
    let (bytes, _) = response_of(h.handle_request(raw));
    assert_eq!(bytes, b"HTTP/1.1 200 OK\r\n\r\nwidget".to_vec());
}

#[test]
fn root_path_is_routable() {
    let mut h: Handler<TestHandler> = Handler::new();
    h.add_route(MethodType::GET, b"/", TestHandler::Text(200, b"home"));
    let (bytes, _) = response_of(h.handle_request(b"GET / HTTP/1.1\r\n\r\n"));
    assert_eq!(bytes, b"HTTP/1.1 200 OK\r\n\r\nhome".to_vec());
}

#[test]
fn every_method_token_parses() {
    let tokens: [(&[u8], MethodType); 8] = [
        (b"GET", MethodType::GET),
        (b"POST", MethodType::POST),
        (b"PUT", MethodType::PUT),
        (b"DELETE", MethodType::DELETE),
        (b"CONNECT", MethodType::CONNECT),
        (b"OPTIONS", MethodType::OPTIONS),
        (b"TRACE", MethodType::TRACE),
        (b"PATCH", MethodType::PATCH),
    ];
    for (tok, m) in tokens {
        assert_eq!(rum::method::method_from_token(tok), Some(m));
    }
    assert_eq!(rum::method::method_from_token(b"get"), None);
    assert_eq!(rum::method::method_from_token(b""), None);
}

#[test]
fn param_name_is_bound_to_literal_value() {
    let mut h: Handler<TestHandler> = Handler::new();
    h.add_route(MethodType::GET, b"/a/:x/b/:y", TestHandler::EchoUrlParam(b"y"));
    let (bytes, _) = response_of(h.handle_request(b"GET /a/one/b/two HTTP/1.1\r\n\r\n"));
    assert_eq!(bytes, b"HTTP/1.1 200 OK\r\n\r\ntwo".to_vec());
}

#[test]
fn reregistration_creates_no_duplicate_siblings() {
    let mut h: Handler<TestHandler> = Handler::new();
    h.add_route(MethodType::GET, b"/x/y", TestHandler::Text(200, b"1"));
    h.add_route(MethodType::GET, b"/x/y", TestHandler::Text(200, b"2"));
    assert_eq!(h.router.children.len(), 1);
    let root = &h.router.children[0].1;
    assert_eq!(root.children.len(), 1);
    assert_eq!(root.children[0].0, b"x".to_vec());
    let x = &root.children[0].1;
    assert_eq!(x.children.len(), 1);
    assert_eq!(x.children[0].0, b"y".to_vec());
    assert_eq!(x.children[0].1.children.len(), 0);
}

#[test]
fn empty_request_is_bad_request() {
    let h: Handler<TestHandler> = Handler::new();
    let (bytes, status) = response_of(h.handle_request(b""));
    assert_eq!(status, 400);
    assert_eq!(bytes, b" 400 BAD REQUEST\r\n\r\n400 BAD REQUEST".to_vec());
}

#[test]
fn query_param_with_empty_value_is_dropped() {
    let mut h: Handler<TestHandler> = Handler::new();
    h.add_route(MethodType::GET, b"/s", TestHandler::EchoQueryParam(b"k"));
    let (bytes, _) = response_of(h.handle_request(b"GET /s?k= HTTP/1.1\r\n\r\n"));
    assert_eq!(bytes, b"HTTP/1.1 200 OK\r\n\r\n".to_vec());
}
