use localserver::request::{HeaderMap, Method, Request};

fn get(req: &Request, name: &str) -> Option<String> {
    req.headers.get(name).cloned()
}

#[test]
fn parses_request_line_headers_and_body() {
    let raw = b"POST /uploads/a.txt HTTP/1.1\r\nHost: localhost\r\nContent-Length: 5\r\n\r\nhello";
    let req = Request::parse(raw).unwrap();
    assert!(matches!(req.method, Method::Post));
    assert_eq!(req.path, "/uploads/a.txt");
    assert_eq!(req.version, "HTTP/1.1");
    assert_eq!(get(&req, "host").as_deref(), Some("localhost"));
    assert_eq!(req.body, b"hello".to_vec());
    assert_eq!(req.content_length(), 5);
}

#[test]
fn header_names_are_lowercased_and_trimmed() {
    let raw = b"GET / HTTP/1.1\r\n  X-Custom-Name :   some value  \r\n\r\n";
    let req = Request::parse(raw).unwrap();
    assert_eq!(get(&req, "x-custom-name").as_deref(), Some("some value"));
    assert_eq!(get(&req, "X-Custom-Name"), None);
}

#[test]
fn later_header_with_same_name_wins() {
    let raw = b"GET / HTTP/1.1\r\nA: 1\r\na: 2\r\n\r\n";
    let req = Request::parse(raw).unwrap();
    assert_eq!(get(&req, "a").as_deref(), Some("2"));
}

#[test]
fn value_keeps_later_colons() {
    let raw = b"GET / HTTP/1.1\r\nHost: example.com:8080\r\nNoColonHere\r\n\r\n";
    let req = Request::parse(raw).unwrap();
    assert_eq!(get(&req, "host").as_deref(), Some("example.com:8080"));
    assert_eq!(get(&req, "nocolonhere"), None);
}

#[test]
fn methods_are_recognised() {
    let m = |line: &str| Request::parse(format!("{}\r\n\r\n", line).as_bytes()).unwrap().method;
    assert!(matches!(m("GET / HTTP/1.1"), Method::Get));
    assert!(matches!(m("DELETE /x HTTP/1.1"), Method::Delete));
    match m("PUT /x HTTP/1.1") {
        Method::Unknown(s) => assert_eq!(s, "PUT"),
        other => panic!("{:?}", other),
    }
    // Case matters.
    assert!(matches!(m("get / HTTP/1.1"), Method::Unknown(_)));
}

#[test]
fn without_blank_line_there_is_no_request() {
    assert!(Request::parse(b"GET / HTTP/1.1\r\nHost: x\r\n").is_none());
    assert!(Request::parse(b"").is_none());
}

#[test]
fn request_line_needs_three_words() {
    assert!(Request::parse(b"GET /\r\n\r\n").is_none());
    assert!(Request::parse(b"\r\n\r\n").is_none());
    let req = Request::parse(b"GET  /a   HTTP/1.0 extra\r\n\r\n").unwrap();
    assert_eq!(req.path, "/a");
    assert_eq!(req.version, "HTTP/1.0");
}

#[test]
fn body_is_everything_after_first_blank_line() {
    let raw = b"POST /x HTTP/1.1\r\n\r\nab\r\n\r\ncd";
    let req = Request::parse(raw).unwrap();
    assert_eq!(req.body, b"ab\r\n\r\ncd".to_vec());
}

#[test]
fn invalid_utf8_in_header_is_replaced() {
    let raw = b"GET /\xff HTTP/1.1\r\n\r\n";
    let req = Request::parse(raw).unwrap();
    assert_eq!(req.path, "/\u{fffd}");
}

#[test]
fn content_length_missing_or_invalid_is_zero() {
    let r = Request::parse(b"GET / HTTP/1.1\r\n\r\n").unwrap();
    assert_eq!(r.content_length(), 0);
    let r = Request::parse(b"GET / HTTP/1.1\r\nContent-Length: abc\r\n\r\n").unwrap();
    assert_eq!(r.content_length(), 0);
    let r = Request::parse(b"GET / HTTP/1.1\r\nContent-Length: +12\r\n\r\n").unwrap();
    assert_eq!(r.content_length(), 12);
    let r = Request::parse(b"GET / HTTP/1.1\r\nContent-Length: 99999999999999999999999\r\n\r\n").unwrap();
    assert_eq!(r.content_length(), 0);
}

#[test]
fn header_map_insert_and_get() {
    let mut m = HeaderMap::new();
    assert!(m.get("a").is_none());
    m.insert("a".to_string(), "1".to_string());
    m.insert("b".to_string(), "2".to_string());
    m.insert("a".to_string(), "3".to_string());
    assert_eq!(m.get("a").map(|s| s.as_str()), Some("3"));
    assert_eq!(m.get("b").map(|s| s.as_str()), Some("2"));
}

#[test]
fn from_header_text_builds_the_request() {
    let req = Request::from_header_text("DELETE /f HTTP/1.0\r\nX-A:  b ", b"data".to_vec()).unwrap();
    assert!(matches!(req.method, Method::Delete));
    assert_eq!(req.path, "/f");
    assert_eq!(req.version, "HTTP/1.0");
    assert_eq!(get(&req, "x-a").as_deref(), Some("b"));
    assert_eq!(req.body, b"data".to_vec());
    assert!(Request::from_header_text("GET /", Vec::new()).is_none());
    assert!(Request::from_header_text("", Vec::new()).is_none());
}

#[test]
fn content_length_found_in_any_letter_case() {
    let r = Request::parse(b"POST /x HTTP/1.1\r\ncOnTeNt-LeNgTh: 19\r\n\r\n").unwrap();
    assert_eq!(r.content_length(), 19);
}
