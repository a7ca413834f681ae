use minihttp::parser::{parse_path, parse_request};
use minihttp::wire::{dec_string, reason_phrase, render_response_text, status_line};
use minihttp::{default_response, App, Dispatch, Resolution, Response, HTTP, HTTPVersion};
use minihttp::RegisteredRoute;

#[test]
fn parse_recovers_method_version_path() {
    let req = parse_request("GET /abc HTTP/1.1\r\n\r\n").unwrap();
    assert_eq!(req.method, HTTP::GET);
    assert_eq!(req.version, HTTPVersion::OnePointOne);
    assert_eq!(req.path.absolute, "/abc");
    assert_eq!(req.path.raw, "/abc");
    assert_eq!(req.path.query.len(), 0);
}

#[test]
fn parse_recovers_post_and_http2() {
    let req = parse_request("POST /submit HTTP/2\r\nHost: localhost\r\n\r\n").unwrap();
    assert_eq!(req.method, HTTP::POST);
    assert_eq!(req.version, HTTPVersion::Two);
    assert_eq!(req.path.absolute, "/submit");
}

#[test]
fn parse_unknown_method_is_unrecognized_not_failure() {
    let req = parse_request("FROB / HTTP/1.1\r\n\r\n").unwrap();
    assert_eq!(req.method, HTTP::UNRECOGNIZED);
}

#[test]
fn parse_unknown_version_is_unknown_not_failure() {
    let req = parse_request("GET / HTTP/9.9\r\n\r\n").unwrap();
    assert_eq!(req.version, HTTPVersion::Unknown);
}

#[test]
fn parse_tolerates_one_leading_blank_line() {
    let req = parse_request("\r\nGET /x HTTP/1\r\n\r\n").unwrap();
    assert_eq!(req.method, HTTP::GET);
    assert_eq!(req.version, HTTPVersion::One);
    assert_eq!(req.path.absolute, "/x");
}

#[test]
fn parse_empty_message_yields_none() {
    assert!(parse_request("").is_none());
}

#[test]
fn parse_missing_version_yields_none() {
    assert!(parse_request("GET /\r\n\r\n").is_none());
}

#[test]
fn parse_missing_target_yields_none() {
    assert!(parse_request("GET\r\n\r\n").is_none());
}

#[test]
fn parse_blank_then_nothing_yields_none() {
    assert!(parse_request("\r\n").is_none());
}

#[test]
fn parse_headers_split_on_first_colon_and_trimmed() {
    let req = parse_request(
        "GET / HTTP/1.1\r\nHost:  example.com \r\nAccept: text/html\r\n\r\n",
    )
    .unwrap();
    assert_eq!(req.headers.get("Host").unwrap(), "example.com");
    assert_eq!(req.headers.get("Accept").unwrap(), "text/html");
    assert!(req.headers.get("host").is_none());
}

#[test]
fn parse_header_value_keeps_text_after_later_colons() {
    let req = parse_request("GET / HTTP/1.1\r\nReferer: http://a/b\r\n\r\n").unwrap();
    assert_eq!(req.headers.get("Referer").unwrap(), "http://a/b");
}

#[test]
fn parse_drops_malformed_header_lines_silently() {
    let req = parse_request(
        "GET / HTTP/1.1\r\nnocolon\r\nempty:\r\n: novalue\r\nGood: yes\r\n\r\n",
    )
    .unwrap();
    assert_eq!(req.headers.len(), 1);
    assert_eq!(req.headers.get("Good").unwrap(), "yes");
}

#[test]
fn parse_stops_headers_at_blank_line() {
    let req = parse_request("GET / HTTP/1.1\r\nA: 1\r\n\r\nB: 2\r\n").unwrap();
    assert_eq!(req.headers.get("A").unwrap(), "1");
    assert!(req.headers.get("B").is_none());
}

#[test]
fn query_segment_without_equals_is_dropped() {
    let path = parse_path("/search?s=hello&bad").unwrap();
    assert_eq!(path.absolute, "/search");
    assert_eq!(path.raw, "/search?s=hello&bad");
    assert_eq!(path.query.len(), 1);
    assert_eq!(path.query.get("s").unwrap(), "hello");
    assert!(path.query.get("bad").is_none());
}

#[test]
fn query_repeated_key_keeps_last_value() {
    let path = parse_path("/p?a=1&a=2").unwrap();
    assert_eq!(path.query.len(), 1);
    assert_eq!(path.query.get("a").unwrap(), "2");
}

#[test]
fn query_trailing_equals_keeps_empty_value() {
    let path = parse_path("/p?k=").unwrap();
    assert_eq!(path.query.len(), 1);
    assert_eq!(path.query.get("k").unwrap(), "");
}

#[test]
fn register_twice_first_wins() {
    let mut app = App::new();
    assert!(app.register("/x", HTTP::GET, RegisteredRoute { handler: 1 }));
    assert!(!app.register("/x", HTTP::GET, RegisteredRoute { handler: 2 }));
    match app.resolve("/x", HTTP::GET) {
        Resolution::Found(route) => assert_eq!(route.handler, 1),
        other => panic!("expected Found, got {other:?}"),
    }
}

#[test]
fn resolve_untouched_table_is_path_not_found() {
    let app = App::new();
    assert_eq!(app.resolve("/x", HTTP::GET), Resolution::PathNotFound);
}

#[test]
fn resolve_wrong_method_is_method_not_allowed() {
    let mut app = App::new();
    app.register("/x", HTTP::GET, RegisteredRoute { handler: 0 });
    assert_eq!(app.resolve("/x", HTTP::POST), Resolution::MethodNotAllowed);
    assert_eq!(app.resolve("/y", HTTP::GET), Resolution::PathNotFound);
}

#[test]
fn resolve_is_exact_string_match() {
    let mut app = App::new();
    app.register("/x", HTTP::GET, RegisteredRoute { handler: 0 });
    assert_eq!(app.resolve("/x/", HTTP::GET), Resolution::PathNotFound);
}

#[test]
fn set_header_lowercases_key_stores_value_verbatim() {
    let resp = Response::new().set_header(
        "Content-Type".to_string(),
        "application/json".to_string(),
    );
    assert_eq!(resp.header("content-type").unwrap(), "application/json");
    assert!(resp.header("Content-Type").is_none());
}

#[test]
fn set_header_overwrites_earlier_value() {
    let resp = Response::new()
        .set_header("X-A".to_string(), "one".to_string())
        .set_header("x-a".to_string(), "two".to_string());
    assert_eq!(resp.headers().len(), 1);
    assert_eq!(resp.header("x-a").unwrap(), "two");
}

#[test]
fn send_replaces_whole_body() {
    let resp = Response::new().send("first".to_string()).send("second".to_string());
    assert_eq!(resp.body(), "second");
}

#[test]
fn response_defaults_are_200_and_empty() {
    let resp = Response::new();
    assert_eq!(resp.status(), 200);
    assert_eq!(resp.body(), "");
    assert_eq!(resp.headers().len(), 0);
}

#[test]
fn no_route_for_root_yields_404_status_line() {
    let app = App::new();
    match app.handle_message("GET / HTTP/1.1\r\n\r\n") {
        Dispatch::Respond(text) => {
            assert!(text.starts_with("HTTP/1.1 404 Not Found"));
            assert_eq!(text, "HTTP/1.1 404 Not Found\r\n\r\n");
        }
        Dispatch::Run(..) => panic!("expected a bare status line"),
    }
}

#[test]
fn wrong_method_yields_405_status_line() {
    let mut app = App::new();
    app.register("/create", HTTP::POST, RegisteredRoute { handler: 0 });
    match app.handle_message("GET /create HTTP/1.1\r\n\r\n") {
        Dispatch::Respond(text) => {
            assert!(text.starts_with("HTTP/1.1 405 Method Not Allowed"));
        }
        Dispatch::Run(..) => panic!("expected a bare status line"),
    }
}

#[test]
fn parse_failure_yields_400_status_line() {
    let app = App::new();
    match app.handle_message("") {
        Dispatch::Respond(text) => {
            assert_eq!(text, "HTTP/1.1 400 Bad Request\r\n\r\n");
        }
        Dispatch::Run(..) => panic!("expected a bare status line"),
    }
}

#[test]
fn handler_response_serializes_fully() {
    let mut app = App::new();
    app.register("/", HTTP::GET, RegisteredRoute { handler: 0 });
    match app.handle_message("GET / HTTP/1.1\r\n\r\n") {
        Dispatch::Run(request, route) => {
            assert_eq!(request.path.absolute, "/");
            assert_eq!(route.handler, 0);
            let out = default_response().set_status(201).send("Created!".to_string());
            let text = render_response_text(&out);
            assert_eq!(
                text,
                "HTTP/1.1 201 Created\r\ncontent-type: text/plain; charset=utf-8\r\nconnection: keep-alive\r\nkeep-alive: timeout=5\r\n\r\nCreated!"
            );
        }
        Dispatch::Respond(text) => panic!("expected a handler run, got {text:?}"),
    }
}

#[test]
fn default_response_carries_advisory_headers() {
    let resp = default_response();
    assert_eq!(resp.status(), 200);
    assert_eq!(resp.body(), "");
    assert_eq!(resp.header("content-type").unwrap(), "text/plain; charset=utf-8");
    assert_eq!(resp.header("connection").unwrap(), "keep-alive");
    assert_eq!(resp.header("keep-alive").unwrap(), "timeout=5");
}

#[test]
fn status_lines_render_known_codes() {
    assert_eq!(status_line(400), "HTTP/1.1 400 Bad Request\r\n\r\n");
    assert_eq!(status_line(404), "HTTP/1.1 404 Not Found\r\n\r\n");
    assert_eq!(status_line(405), "HTTP/1.1 405 Method Not Allowed\r\n\r\n");
    assert_eq!(status_line(413), "HTTP/1.1 413 Payload Too Large\r\n\r\n");
}

#[test]
fn unknown_status_gets_generic_reason_not_200_ok() {
    assert_eq!(reason_phrase(999), "Unknown Status");
    assert_eq!(reason_phrase(302), "Unknown Status");
    assert_eq!(reason_phrase(418), "I'm a teapot");
    assert_eq!(reason_phrase(500), "Internal Server Error");
    let out = render_response_text(&Response::new().set_status(999));
    assert!(out.starts_with("HTTP/1.1 999 Unknown Status\r\n"));
}

#[test]
fn dec_string_renders_decimal() {
    assert_eq!(dec_string(0), "0");
    assert_eq!(dec_string(7), "7");
    assert_eq!(dec_string(200), "200");
    assert_eq!(dec_string(65535), "65535");
    assert_eq!(dec_string(usize::MAX), format!("{}", usize::MAX));
}

#[test]
fn render_keeps_header_insertion_order() {
    let resp = Response::new()
        .set_header("B-Second".to_string(), "2".to_string())
        .set_header("A-First".to_string(), "1".to_string());
    let text = render_response_text(&resp);
    assert_eq!(text, "HTTP/1.1 200 OK\r\nb-second: 2\r\na-first: 1\r\n\r\n");
}

#[test]
fn lf_only_line_endings_are_tolerated() {
    let req = parse_request("GET /x HTTP/1.1\nHost: a\n\n").unwrap();
    assert_eq!(req.method, HTTP::GET);
    assert_eq!(req.path.absolute, "/x");
    assert_eq!(req.headers.get("Host").unwrap(), "a");
}
