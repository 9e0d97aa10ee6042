//! What the server does for a request: which file operation, if any, and
//! which response follows from its outcome.
use vstd::prelude::*;
use vstd::utf8::encode_utf8;
use crate::request::{Method, MethodView, Request, RequestView};
use crate::response::{Response, ResponseView, StatusCode, error_response, string_bytes};
use crate::text::chars_of;

verus! {

/// Whether `s` ends with `suffix`.
pub open spec fn ends_with(s: Seq<char>, suffix: Seq<char>) -> bool {
    suffix.len() <= s.len() && s.skip(s.len() - suffix.len()) == suffix
}

fn ends_with_str(s: &[char], suffix: &str) -> (b: bool)
    ensures
        b == ends_with(s@, suffix@),
{
    let t = chars_of(suffix);
    if t.len() > s.len() {
        return false;
    }
    let off = s.len() - t.len();
    let mut i: usize = 0;
    while i < t.len()
        invariant
            t@ == suffix@,
            off + t@.len() == s@.len(),
            s@.len() == s.len(),
            i <= t@.len(),
            forall|j: int| 0 <= j < i ==> s@[off + j] == t@[j],
        decreases t@.len() - i,
    {
        if s[off + i] != t[i] {
            assert(s@.skip(off as int)[i as int] != t@[i as int]);
            return false;
        }
        i = i + 1;
    }
    assert(s@.skip(off as int) =~= t@);
    true
}

/// The content type that the extension of `path` indicates.
pub open spec fn spec_content_type(path: Seq<char>) -> Seq<char> {
    if ends_with(path, ".html"@) {
        "text/html"@
    } else if ends_with(path, ".css"@) {
        "text/css"@
    } else if ends_with(path, ".js"@) {
        "application/javascript"@
    } else if ends_with(path, ".png"@) {
        "image/png"@
    } else if ends_with(path, ".jpg"@) {
        "image/jpeg"@
    } else if ends_with(path, ".json"@) {
        "application/json"@
    } else if ends_with(path, ".txt"@) {
        "text/plain"@
    } else {
        "application/octet-stream"@
    }
}

/// The content type that the extension of `path` indicates.
pub fn get_content_type(path: &str) -> (t: &'static str)
    ensures
        t@ == spec_content_type(path@),
{
    let p = chars_of(path);
    let p = p.as_slice();
    if ends_with_str(p, ".html") {
        "text/html"
    } else if ends_with_str(p, ".css") {
        "text/css"
    } else if ends_with_str(p, ".js") {
        "application/javascript"
    } else if ends_with_str(p, ".png") {
        "image/png"
    } else if ends_with_str(p, ".jpg") {
        "image/jpeg"
    } else if ends_with_str(p, ".json") {
        "application/json"
    } else if ends_with_str(p, ".txt") {
        "text/plain"
    } else {
        "application/octet-stream"
    }
}

proof fn lemma_ends_with_own(q: Seq<char>, e: Seq<char>)
    ensures
        ends_with(q + e, e),
{
    assert((q + e).skip(q.len() as int) =~= e);
}

proof fn lemma_not_ends_with(q: Seq<char>, e: Seq<char>, f: Seq<char>, i: int)
    requires
        0 <= i < e.len(),
        i < f.len(),
        e[e.len() - 1 - i] != f[f.len() - 1 - i],
    ensures
        !ends_with(q + e, f),
{
    let t = q + e;
    if ends_with(t, f) {
        let k = f.len() - 1 - i;
        assert(t.skip(t.len() - f.len())[k] == t[t.len() - 1 - i]);
        assert(t[t.len() - 1 - i] == e[e.len() - 1 - i]);
    }
}

/// The content type follows the final extension alone: whatever comes
/// before it, further dots included, a path ending in `.html`, `.css`,
/// `.js`, `.png`, `.jpg`, `.json` or `.txt` gets that extension's type.
pub proof fn law_content_type_follows_final_extension(q: Seq<char>)
    ensures
        spec_content_type(q + ".html"@) == "text/html"@,
        spec_content_type(q + ".css"@) == "text/css"@,
        spec_content_type(q + ".js"@) == "application/javascript"@,
        spec_content_type(q + ".png"@) == "image/png"@,
        spec_content_type(q + ".jpg"@) == "image/jpeg"@,
        spec_content_type(q + ".json"@) == "application/json"@,
        spec_content_type(q + ".txt"@) == "text/plain"@,
{
    reveal_strlit(".html");
    reveal_strlit(".css");
    reveal_strlit(".js");
    reveal_strlit(".png");
    reveal_strlit(".jpg");
    reveal_strlit(".json");
    reveal_strlit(".txt");
    let html = ".html"@;
    let css = ".css"@;
    let js = ".js"@;
    let png = ".png"@;
    let jpg = ".jpg"@;
    let json = ".json"@;
    let txt = ".txt"@;
    lemma_ends_with_own(q, html);
    lemma_ends_with_own(q, css);
    lemma_not_ends_with(q, css, html, 0);
    lemma_ends_with_own(q, js);
    lemma_not_ends_with(q, js, html, 0);
    lemma_not_ends_with(q, js, css, 1);
    lemma_ends_with_own(q, png);
    lemma_not_ends_with(q, png, html, 0);
    lemma_not_ends_with(q, png, css, 0);
    lemma_not_ends_with(q, png, js, 0);
    lemma_ends_with_own(q, jpg);
    lemma_not_ends_with(q, jpg, html, 0);
    lemma_not_ends_with(q, jpg, css, 0);
    lemma_not_ends_with(q, jpg, js, 0);
    lemma_not_ends_with(q, jpg, png, 2);
    lemma_ends_with_own(q, json);
    lemma_not_ends_with(q, json, html, 0);
    lemma_not_ends_with(q, json, css, 0);
    lemma_not_ends_with(q, json, js, 0);
    lemma_not_ends_with(q, json, png, 0);
    lemma_not_ends_with(q, json, jpg, 0);
    lemma_ends_with_own(q, txt);
    lemma_not_ends_with(q, txt, html, 0);
    lemma_not_ends_with(q, txt, css, 0);
    lemma_not_ends_with(q, txt, js, 0);
    lemma_not_ends_with(q, txt, png, 0);
    lemma_not_ends_with(q, txt, jpg, 0);
    lemma_not_ends_with(q, txt, json, 0);
}

/// The file operation that a request calls for, or the response that it
/// gets without one.
pub enum Action {
    /// Read the file at `fs_path` and serve it as `url_path`.
    ReadFile { fs_path: String, url_path: String },
    /// Write the request body to the file at `fs_path`, creating its directory.
    WriteFile { fs_path: String },
    /// Delete the file at `fs_path`.
    DeleteFile { fs_path: String },
    /// Send this response.
    Respond(Response),
}

/// The mathematical value of an [`Action`].
pub enum ActionView {
    ReadFile { fs_path: Seq<char>, url_path: Seq<char> },
    WriteFile { fs_path: Seq<char> },
    DeleteFile { fs_path: Seq<char> },
    Respond(ResponseView),
}

impl View for Action {
    type V = ActionView;

    open spec fn view(&self) -> ActionView {
        match self {
            Action::ReadFile { fs_path, url_path } => ActionView::ReadFile { fs_path: fs_path@, url_path: url_path@ },
            Action::WriteFile { fs_path } => ActionView::WriteFile { fs_path: fs_path@ },
            Action::DeleteFile { fs_path } => ActionView::DeleteFile { fs_path: fs_path@ },
            Action::Respond(r) => ActionView::Respond(r@),
        }
    }
}

/// The path of a file under the served directory `www`.
pub open spec fn fs_path(url_path: Seq<char>) -> Seq<char> {
    "www"@ + url_path
}

/// The path that a GET of `path` serves: a directory path gets `index.html`.
pub open spec fn served_path(path: Seq<char>) -> Seq<char> {
    if ends_with(path, "/"@) {
        path + "index.html"@
    } else {
        path
    }
}

/// What the server does for a request: GET reads the file, POST writes a
/// non-empty body (an empty one is refused with 400), DELETE deletes the
/// file, and any other method is refused with 405.
pub open spec fn spec_plan(req: RequestView) -> ActionView {
    match req.method {
        MethodView::Get => ActionView::ReadFile {
            fs_path: fs_path(served_path(req.path)),
            url_path: served_path(req.path),
        },
        MethodView::Post => if req.body.len() == 0 {
            ActionView::Respond(error_response(StatusCode::BadRequest))
        } else {
            ActionView::WriteFile { fs_path: fs_path(req.path) }
        },
        MethodView::Delete => ActionView::DeleteFile { fs_path: fs_path(req.path) },
        MethodView::Unknown(_) => ActionView::Respond(error_response(StatusCode::MethodNotAllowed)),
    }
}

/// A GET of a path that ends in `/`, the site root `/` among them, reads
/// that path with `index.html` appended, under `www`; a GET of any other
/// path reads the path itself under `www`.
pub proof fn law_get_directory_serves_index(req: RequestView)
    requires
        req.method == MethodView::Get,
    ensures
        req.path.len() > 0 && req.path.last() == '/' ==> spec_plan(req) == (ActionView::ReadFile {
            fs_path: "www"@ + req.path + "index.html"@,
            url_path: req.path + "index.html"@,
        }),
        !(req.path.len() > 0 && req.path.last() == '/') ==> spec_plan(req) == (ActionView::ReadFile {
            fs_path: "www"@ + req.path,
            url_path: req.path,
        }),
{
    reveal_strlit("/");
    let p = req.path;
    if p.len() > 0 && p.last() == '/' {
        assert(p.skip(p.len() - 1) =~= "/"@);
        assert("www"@ + (p + "index.html"@) =~= "www"@ + p + "index.html"@);
    } else if ends_with(p, "/"@) {
        assert(p.skip(p.len() - 1)[0] == p.last());
    }
}

fn under_www(path: &str) -> (s: String)
    ensures
        s@ == fs_path(path@),
{
    let mut s = String::from_str("www");
    s.append(path);
    s
}

/// What the server does for `req`.
pub fn plan(req: &Request) -> (a: Action)
    ensures
        a@ == spec_plan(req@),
{
    match &req.method {
        Method::Get => {
            let p = chars_of(req.path.as_str());
            let mut normalized = req.path.clone();
            if ends_with_str(p.as_slice(), "/") {
                normalized.append("index.html");
            }
            let fs = under_www(normalized.as_str());
            Action::ReadFile { fs_path: fs, url_path: normalized }
        },
        Method::Post => {
            if req.body.len() == 0 {
                Action::Respond(Response::error(StatusCode::BadRequest))
            } else {
                Action::WriteFile { fs_path: under_www(req.path.as_str()) }
            }
        },
        Method::Delete => Action::DeleteFile { fs_path: under_www(req.path.as_str()) },
        Method::Unknown(_) => Action::Respond(Response::error(StatusCode::MethodNotAllowed)),
    }
}

/// The response to a GET of `url_path`: the file's contents where it could
/// be read, typed by the path's extension, and 404 where it could not.
pub open spec fn spec_file_response(url_path: Seq<char>, contents: Option<Seq<u8>>) -> ResponseView {
    match contents {
        Some(c) => ResponseView { status: StatusCode::OK, content_type: spec_content_type(url_path), body: c },
        None => error_response(StatusCode::NotFound),
    }
}

/// The response to a GET of `url_path`, given the file's contents if it
/// could be read.
pub fn file_response(url_path: &str, contents: Option<Vec<u8>>) -> (r: Response)
    ensures
        r@ == spec_file_response(url_path@, match contents { Some(c) => Some(c@), None => None }),
{
    match contents {
        Some(c) => Response::new(StatusCode::OK, get_content_type(url_path), c),
        None => Response::error(StatusCode::NotFound),
    }
}

/// The page that confirms an upload to `url_path`.
pub open spec fn upload_page(url_path: Seq<char>) -> Seq<char> {
    "<html><body><h1>Uploaded successfully to "@ + url_path + "</h1></body></html>"@
}

/// The page that confirms the deletion of `url_path`.
pub open spec fn delete_page(url_path: Seq<char>) -> Seq<char> {
    "<html><body><h1>Deleted "@ + url_path + "</h1></body></html>"@
}

/// The response to a POST to `url_path`: a confirmation page where the body
/// was stored, and 500 where its directory or the file could not be written.
pub fn upload_response(url_path: &str, stored: bool) -> (r: Response)
    ensures
        stored ==> r@ == (ResponseView { status: StatusCode::OK, content_type: "text/html"@, body: encode_utf8(upload_page(url_path@)) }),
        !stored ==> r@ == error_response(StatusCode::InternalServerError),
{
    if stored {
        let mut page = String::from_str("<html><body><h1>Uploaded successfully to ");
        page.append(url_path);
        page.append("</h1></body></html>");
        Response::new(StatusCode::OK, "text/html", string_bytes(&page))
    } else {
        Response::error(StatusCode::InternalServerError)
    }
}

/// The response to a DELETE of `url_path`: a confirmation page where the
/// file was removed, and 404 where it could not be.
pub fn delete_response(url_path: &str, removed: bool) -> (r: Response)
    ensures
        removed ==> r@ == (ResponseView { status: StatusCode::OK, content_type: "text/html"@, body: encode_utf8(delete_page(url_path@)) }),
        !removed ==> r@ == error_response(StatusCode::NotFound),
{
    if removed {
        let mut page = String::from_str("<html><body><h1>Deleted ");
        page.append(url_path);
        page.append("</h1></body></html>");
        Response::new(StatusCode::OK, "text/html", string_bytes(&page))
    } else {
        Response::error(StatusCode::NotFound)
    }
}


/// What reading `path` from the files `files` gives: its contents, or
/// nothing where there is no such file.
pub open spec fn read_file(files: Map<Seq<char>, Seq<u8>>, path: Seq<char>) -> Option<Seq<u8>> {
    if files.contains_key(path) {
        Some(files[path])
    } else {
        None
    }
}

/// A GET of a path serves exactly the bytes that the last POST to it
/// stored: with the files modelled as a map from file paths to contents,
/// storing the POST's body where its plan says and then reading where the
/// GET's plan says gives a 200 response with that body, typed by the path.
pub proof fn law_get_serves_what_post_stored(files: Map<Seq<char>, Seq<u8>>, post: RequestView, get: RequestView)
    requires
        post.method == MethodView::Post,
        get.method == MethodView::Get,
        post.path == get.path,
        !ends_with(post.path, "/"@),
        post.body.len() > 0,
    ensures
        match (spec_plan(post), spec_plan(get)) {
            (ActionView::WriteFile { fs_path: w }, ActionView::ReadFile { fs_path: r, url_path: u }) =>
                spec_file_response(u, read_file(files.insert(w, post.body), r)) == (ResponseView {
                    status: StatusCode::OK,
                    content_type: spec_content_type(get.path),
                    body: post.body,
                }),
            _ => false,
        },
{
}

/// A GET after a DELETE of the same path is answered 404: with the files
/// modelled as a map, removing the file that the DELETE's plan names leaves
/// nothing where the GET's plan reads.
pub proof fn law_get_after_delete_is_not_found(files: Map<Seq<char>, Seq<u8>>, del: RequestView, get: RequestView)
    requires
        del.method == MethodView::Delete,
        get.method == MethodView::Get,
        del.path == get.path,
        !ends_with(del.path, "/"@),
    ensures
        match (spec_plan(del), spec_plan(get)) {
            (ActionView::DeleteFile { fs_path: d }, ActionView::ReadFile { fs_path: r, url_path: u }) =>
                spec_file_response(u, read_file(files.remove(d), r)) == error_response(StatusCode::NotFound),
            _ => false,
        },
{
}

} // verus!
