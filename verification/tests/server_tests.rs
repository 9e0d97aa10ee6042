use localserver::server::{announced_body_length, request_or_bad_request};
use localserver::server::{headers_complete, ConnectionTable, Server, NANOS_PER_SEC, TIMEOUT_SECS};

#[test]
fn server_keeps_its_address() {
    let s = Server::new("127.0.0.1:8080");
    assert_eq!(s.addr(), "127.0.0.1:8080");
}

#[test]
fn header_completion() {
    assert!(headers_complete(b"GET / HTTP/1.1\r\n\r\n"));
    assert!(!headers_complete(b"GET / HTTP/1.1\r\n"));
    assert!(!headers_complete(b"\r\n\r"));
    assert!(headers_complete(b"\r\n\r\n"));
}

#[test]
fn table_collects_bytes_and_parses() {
    let mut t = ConnectionTable::new();
    assert!(t.pending(5).is_none());
    t.open(5, 100);
    t.receive(5, b"GET /a HTTP/1.1\r\n");
    match t.pending(5) {
        Some(Err(resp)) => assert!(String::from_utf8_lossy(&resp.to_bytes()).contains("400 Bad Request")),
        _ => panic!("incomplete request must be refused"),
    }
    t.receive(5, b"\r\n");
    match t.pending(5) {
        Some(Ok(req)) => assert_eq!(req.path, "/a"),
        _ => panic!("complete request expected"),
    }
    // Bytes for a connection that is not open are dropped.
    t.receive(6, b"x");
    assert!(t.pending(6).is_none());
    t.close(5);
    assert!(t.pending(5).is_none());
}

#[test]
fn expiry_after_timeout() {
    let sec = NANOS_PER_SEC;
    let mut t = ConnectionTable::new();
    t.open(1, 100 * sec);
    t.open(2, 120 * sec);
    // 30.999 seconds are 30 whole seconds: not yet timed out.
    assert!(t.expired((100 + TIMEOUT_SECS) * sec + sec - 1).is_empty());
    let mut e = t.expired((100 + TIMEOUT_SECS + 1) * sec);
    e.sort();
    assert_eq!(e, vec![1]);
    let mut e = t.expired(200 * sec);
    e.sort();
    assert_eq!(e, vec![1, 2]);
    // A clock that went back expires nothing.
    assert!(t.expired(50 * sec).is_empty());
    t.close(1);
    assert_eq!(t.expired(200 * sec), vec![2]);
}

#[test]
fn finished_bytes_become_request_or_400() {
    match request_or_bad_request(b"GET /x HTTP/1.1\r\n\r\n") {
        Ok(req) => assert_eq!(req.path, "/x"),
        Err(_) => panic!("request expected"),
    }
    match request_or_bad_request(b"GET\r\n\r\n") {
        Err(resp) => assert!(String::from_utf8_lossy(&resp.to_bytes()).contains("400 Bad Request")),
        Ok(_) => panic!("400 expected"),
    }
    assert_eq!(announced_body_length(b"POST /u HTTP/1.1\r\nContent-Length: 19\r\n\r\n").ok(), Some(19));
    assert_eq!(announced_body_length(b"POST /u HTTP/1.1\r\n\r\n").ok(), Some(0));
    assert!(announced_body_length(b"POST\r\n\r\n").is_err());
}
