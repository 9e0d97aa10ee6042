use localserver::handler::{
    delete_response, file_response, get_content_type, plan, upload_response, Action,
};
use localserver::request::Request;
use localserver::response::StatusCode;

fn req(raw: &[u8]) -> Request {
    Request::parse(raw).unwrap()
}

#[test]
fn content_types_by_extension() {
    assert_eq!(get_content_type("/index.html"), "text/html");
    assert_eq!(get_content_type("/a.css"), "text/css");
    assert_eq!(get_content_type("/a.js"), "application/javascript");
    assert_eq!(get_content_type("/a.png"), "image/png");
    assert_eq!(get_content_type("/a.jpg"), "image/jpeg");
    assert_eq!(get_content_type("/a.json"), "application/json");
    assert_eq!(get_content_type("/a.txt"), "text/plain");
    assert_eq!(get_content_type("/a.tar.gz"), "application/octet-stream");
    assert_eq!(get_content_type("html"), "application/octet-stream");
    assert_eq!(get_content_type(""), "application/octet-stream");
}

#[test]
fn get_reads_the_file_under_www() {
    match plan(&req(b"GET /a/b.txt HTTP/1.1\r\n\r\n")) {
        Action::ReadFile { fs_path, url_path } => {
            assert_eq!(fs_path, "www/a/b.txt");
            assert_eq!(url_path, "/a/b.txt");
        }
        _ => panic!("expected a read"),
    }
}

#[test]
fn get_of_directory_serves_index() {
    match plan(&req(b"GET /docs/ HTTP/1.1\r\n\r\n")) {
        Action::ReadFile { fs_path, url_path } => {
            assert_eq!(fs_path, "www/docs/index.html");
            assert_eq!(url_path, "/docs/index.html");
        }
        _ => panic!("expected a read"),
    }
}

#[test]
fn post_with_empty_body_is_bad_request() {
    match plan(&req(b"POST /uploads/empty.txt HTTP/1.1\r\nContent-Length: 0\r\n\r\n")) {
        Action::Respond(r) => {
            assert!(matches!(r.status, StatusCode::BadRequest));
            assert!(String::from_utf8_lossy(&r.to_bytes()).contains("400 Bad Request"));
        }
        _ => panic!("expected a response"),
    }
}

#[test]
fn post_with_body_writes() {
    match plan(&req(b"POST /uploads/e2e_test.txt HTTP/1.1\r\n\r\nhello")) {
        Action::WriteFile { fs_path } => assert_eq!(fs_path, "www/uploads/e2e_test.txt"),
        _ => panic!("expected a write"),
    }
}

#[test]
fn delete_deletes() {
    match plan(&req(b"DELETE /x.txt HTTP/1.1\r\n\r\n")) {
        Action::DeleteFile { fs_path } => assert_eq!(fs_path, "www/x.txt"),
        _ => panic!("expected a delete"),
    }
}

#[test]
fn other_methods_are_not_allowed() {
    match plan(&req(b"PUT /x HTTP/1.1\r\n\r\n")) {
        Action::Respond(r) => assert!(matches!(r.status, StatusCode::MethodNotAllowed)),
        _ => panic!("expected a response"),
    }
}

#[test]
fn file_responses() {
    let ok = file_response("/a.css", Some(b"p{}".to_vec()));
    assert!(matches!(ok.status, StatusCode::OK));
    assert_eq!(ok.content_type, "text/css");
    assert_eq!(ok.body, b"p{}".to_vec());
    let missing = file_response("/this-does-not-exist", None);
    assert!(String::from_utf8_lossy(&missing.to_bytes()).contains("404 Not Found"));
}

#[test]
fn upload_and_delete_pages() {
    let up = upload_response("/u.txt", true);
    assert!(matches!(up.status, StatusCode::OK));
    assert_eq!(
        up.body,
        b"<html><body><h1>Uploaded successfully to /u.txt</h1></body></html>".to_vec()
    );
    assert!(matches!(upload_response("/u.txt", false).status, StatusCode::InternalServerError));
    let del = delete_response("/u.txt", true);
    assert_eq!(del.body, b"<html><body><h1>Deleted /u.txt</h1></body></html>".to_vec());
    assert!(matches!(delete_response("/u.txt", false).status, StatusCode::NotFound));
}

#[test]
fn post_then_get_names_the_same_file() {
    let w = match plan(&req(b"POST /uploads/t.txt HTTP/1.1\r\n\r\nhello from e2e test")) {
        Action::WriteFile { fs_path } => fs_path,
        _ => panic!(),
    };
    let (r, url) = match plan(&req(b"GET /uploads/t.txt HTTP/1.1\r\n\r\n")) {
        Action::ReadFile { fs_path, url_path } => (fs_path, url_path),
        _ => panic!(),
    };
    assert_eq!(w, r);
    let resp = file_response(&url, Some(b"hello from e2e test".to_vec()));
    assert!(matches!(resp.status, StatusCode::OK));
    assert_eq!(resp.body, b"hello from e2e test".to_vec());
}
