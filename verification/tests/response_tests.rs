use localserver::response::{Response, StatusCode};

fn capture_response(response: Response) -> Vec<u8> {
    response.to_bytes()
}

#[test]
fn test_response_starts_with_http_version() {
    let res = Response::new(StatusCode::OK, "text/plain", b"hi".to_vec());
    let bytes = capture_response(res);
    let raw = String::from_utf8_lossy(&bytes);

    assert!(raw.starts_with("HTTP/1.1"));
}

#[test]
fn test_response_contains_status_line() {
    let res = Response::new(StatusCode::OK, "text/plain", b"hi".to_vec());
    let bytes = capture_response(res);
    let raw = String::from_utf8_lossy(&bytes);

    assert!(raw.contains("200 OK"));
}

#[test]
fn test_response_contains_content_type_header() {
    let res = Response::new(StatusCode::OK, "text/css", b"body{}".to_vec());
    let bytes = capture_response(res);
    let raw = String::from_utf8_lossy(&bytes);

    assert!(raw.contains("Content-Type: text/css"));
}

#[test]
fn test_content_length_matches_body() {
    let body = b"hello world".to_vec();
    let res = Response::new(StatusCode::OK, "text/plain", body);
    let bytes = capture_response(res);
    let raw = String::from_utf8_lossy(&bytes);

    assert!(raw.contains("Content-Length: 11"));
}

#[test]
fn test_header_and_body_separated_by_blank_line() {
    let res = Response::new(StatusCode::OK, "text/plain", b"body".to_vec());
    let bytes = capture_response(res);
    let raw = String::from_utf8_lossy(&bytes);

    assert!(raw.contains("\r\n\r\n"));
}

#[test]
fn test_body_is_after_separator() {
    let res = Response::new(StatusCode::OK, "text/plain", b"hello".to_vec());
    let bytes = capture_response(res);
    let raw = String::from_utf8_lossy(&bytes);

    let separator = "\r\n\r\n";
    let body_start = raw.find(separator).unwrap() + separator.len();
    assert_eq!(&raw[body_start..], "hello");
}

#[test]
fn test_binary_body_survives_wire() {
    let body = vec![0xFF, 0xFE, 0x00, 0x01];
    let res = Response::new(StatusCode::OK, "application/octet-stream", body.clone());
    let bytes = capture_response(res);

    let separator = b"\r\n\r\n";
    let sep_pos = bytes.windows(4).position(|w| w == separator).unwrap();
    let actual_body = &bytes[sep_pos + 4..];

    assert_eq!(actual_body, body.as_slice());
}

#[test]
fn exact_wire_format() {
    let res = Response::new(StatusCode::NotFound, "text/plain", b"x".to_vec());
    assert_eq!(
        res.to_bytes(),
        b"HTTP/1.1 404 Not Found\r\nContent-Type: text/plain\r\nContent-Length: 1\r\n\r\nx".to_vec()
    );
}

#[test]
fn empty_body_has_zero_length() {
    let res = Response::new(StatusCode::OK, "text/plain", Vec::new());
    assert_eq!(
        res.to_bytes(),
        b"HTTP/1.1 200 OK\r\nContent-Type: text/plain\r\nContent-Length: 0\r\n\r\n".to_vec()
    );
}

#[test]
fn body_after_first_blank_line_with_non_ascii_type() {
    // The law on the wire format: the first blank line ends the header.
    let body = b"\r\n\r\nbody".to_vec();
    let res = Response::new(StatusCode::OK, "text/\u{e9}t\u{e9}", body.clone());
    let bytes = res.to_bytes();
    let sep_pos = bytes.windows(4).position(|w| w == b"\r\n\r\n").unwrap();
    assert_eq!(&bytes[sep_pos + 4..], body.as_slice());
}

#[test]
fn error_pages() {
    let r = Response::error(StatusCode::BadRequest);
    assert!(matches!(r.status, StatusCode::BadRequest));
    assert_eq!(r.content_type, "text/html");
    assert_eq!(
        r.body,
        b"<html><body><h1>400 Bad Request</h1></body></html>".to_vec()
    );
}

#[test]
fn status_texts() {
    assert_eq!(StatusCode::OK.as_str(), "200 OK");
    assert_eq!(StatusCode::BadRequest.as_str(), "400 Bad Request");
    assert_eq!(StatusCode::Forbidden.as_str(), "403 Forbidden");
    assert_eq!(StatusCode::NotFound.as_str(), "404 Not Found");
    assert_eq!(StatusCode::MethodNotAllowed.as_str(), "405 Method Not Allowed");
    assert_eq!(StatusCode::ContentTooLarge.as_str(), "413 Content Too Large");
    assert_eq!(StatusCode::InternalServerError.as_str(), "500 Internal Server Error");
}

#[test]
fn content_length_reads_back_through_request_parser() {
    let res = Response::new(StatusCode::OK, "text/plain", vec![7u8; 1234]);
    let bytes = res.to_bytes();
    // The header block of a response parses like a request's header block.
    let mut as_request = b"GET / HTTP/1.1\r\n".to_vec();
    let sep = bytes.windows(4).position(|w| w == b"\r\n\r\n").unwrap();
    let status_end = bytes.windows(2).position(|w| w == b"\r\n").unwrap();
    as_request.extend_from_slice(&bytes[status_end + 2..sep + 4]);
    let req = localserver::request::Request::parse(&as_request).unwrap();
    assert_eq!(req.content_length(), 1234);
}
