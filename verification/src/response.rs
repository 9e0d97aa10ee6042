//! HTTP responses and their wire format.
use vstd::prelude::*;
use vstd::utf8::*;
use crate::text::{decimal, push_decimal, law_decimal_parses_back};
use crate::request::{separator_at, separator_from, spec_content_length};

verus! {

/// The status of a response.
#[derive(Debug, Clone, Copy, PartialEq, Eq, Structural)]
pub enum StatusCode {
    OK,
    BadRequest,
    Forbidden,
    NotFound,
    MethodNotAllowed,
    ContentTooLarge,
    InternalServerError,
}

impl StatusCode {
    /// The code and reason phrase of the status line.
    pub open spec fn spec_as_str(self) -> Seq<char> {
        match self {
            StatusCode::OK => "200 OK"@,
            StatusCode::BadRequest => "400 Bad Request"@,
            StatusCode::Forbidden => "403 Forbidden"@,
            StatusCode::NotFound => "404 Not Found"@,
            StatusCode::MethodNotAllowed => "405 Method Not Allowed"@,
            StatusCode::ContentTooLarge => "413 Content Too Large"@,
            StatusCode::InternalServerError => "500 Internal Server Error"@,
        }
    }

    /// The code and reason phrase of the status line.
    pub fn as_str(&self) -> (s: &'static str)
        ensures
            s@ == self.spec_as_str(),
    {
        match self {
            StatusCode::OK => "200 OK",
            StatusCode::BadRequest => "400 Bad Request",
            StatusCode::Forbidden => "403 Forbidden",
            StatusCode::NotFound => "404 Not Found",
            StatusCode::MethodNotAllowed => "405 Method Not Allowed",
            StatusCode::ContentTooLarge => "413 Content Too Large",
            StatusCode::InternalServerError => "500 Internal Server Error",
        }
    }
}

/// An HTTP response.
pub struct Response {
    pub status: StatusCode,
    pub content_type: String,
    pub body: Vec<u8>,
}

/// The mathematical value of a [`Response`].
pub struct ResponseView {
    pub status: StatusCode,
    pub content_type: Seq<char>,
    pub body: Seq<u8>,
}

impl View for Response {
    type V = ResponseView;

    open spec fn view(&self) -> ResponseView {
        ResponseView { status: self.status, content_type: self.content_type@, body: self.body@ }
    }
}

/// The view of the page that reports `status`.
pub open spec fn error_response(status: StatusCode) -> ResponseView {
    ResponseView { status, content_type: "text/html"@, body: encode_utf8(error_page(status)) }
}

/// The HTML text of the page that reports `status`.
pub open spec fn error_page(status: StatusCode) -> Seq<char> {
    "<html><body><h1>"@ + status.spec_as_str() + "</h1></body></html>"@
}

/// The status line and header fields of a response, up to and including
/// the blank line that ends them.
pub open spec fn header_text(status: StatusCode, content_type: Seq<char>, body_len: nat) -> Seq<char> {
    "HTTP/1.1 "@ + status.spec_as_str() + "\r\nContent-Type: "@ + content_type
        + "\r\nContent-Length: "@ + decimal(body_len) + "\r\n\r\n"@
}

/// The bytes that are sent for a response: the UTF-8 header text, then the body.
pub open spec fn wire_bytes(status: StatusCode, content_type: Seq<char>, body: Seq<u8>) -> Seq<u8> {
    encode_utf8(header_text(status, content_type, body.len())) + body
}

/// The bytes of a string.
pub(crate) fn string_bytes(s: &String) -> (b: Vec<u8>)
    ensures
        b@ == encode_utf8(s@),
{
    vstd::slice::slice_to_vec(s.as_str().as_bytes())
}

impl Response {
    /// A response with the given status, content type and body.
    pub fn new(status: StatusCode, content_type: &str, body: Vec<u8>) -> (r: Response)
        ensures
            r.status == status,
            r.content_type@ == content_type@,
            r.body@ == body@,
    {
        Response { status, content_type: content_type.to_owned(), body }
    }

    /// An HTML page that reports `status`.
    pub fn error(status: StatusCode) -> (r: Response)
        ensures
            r@ == error_response(status),
    {
        let mut page = String::from_str("<html><body><h1>");
        page.append(status.as_str());
        page.append("</h1></body></html>");
        let body = string_bytes(&page);
        Response::new(status, "text/html", body)
    }

    /// The bytes to send for this response: the status line, the
    /// `Content-Type` and `Content-Length` fields, a blank line and the body.
    pub fn to_bytes(&self) -> (b: Vec<u8>)
        ensures
            b@ == wire_bytes(self.status, self.content_type@, self.body@),
    {
        let mut header = String::from_str("HTTP/1.1 ");
        header.append(self.status.as_str());
        header.append("\r\nContent-Type: ");
        header.append(self.content_type.as_str());
        header.append("\r\nContent-Length: ");
        push_decimal(&mut header, self.body.len());
        header.append("\r\n\r\n");
        let mut out = string_bytes(&header);
        let ghost h = out@;
        let mut i: usize = 0;
        while i < self.body.len()
            invariant
                i <= self.body@.len(),
                out@ == h + self.body@.take(i as int),
            decreases self.body@.len() - i,
        {
            out.push(self.body[i]);
            assert(self.body@.take(i + 1) == self.body@.take(i as int).push(self.body@[i as int]));
            i = i + 1;
        }
        assert(self.body@.take(self.body@.len() as int) == self.body@);
        out
    }
}


/// `s` holds no carriage return.
pub open spec fn no_cr(s: Seq<char>) -> bool {
    forall|i: int| 0 <= i < s.len() ==> s[i] != '\r'
}

/// `b` holds no carriage-return byte.
pub open spec fn no_cr_byte(b: Seq<u8>) -> bool {
    forall|i: int| 0 <= i < b.len() ==> b[i] != 13u8
}

proof fn lemma_encode_concat(a: Seq<char>, b: Seq<char>)
    ensures
        encode_utf8(a + b) == encode_utf8(a) + encode_utf8(b),
    decreases a.len(),
{
    if a.len() == 0 {
        assert(a + b == b);
        assert(encode_utf8(a) =~= Seq::<u8>::empty());
        assert(encode_utf8(a) + encode_utf8(b) == encode_utf8(b));
    } else {
        assert((a + b).drop_first() == a.drop_first() + b);
        assert((a + b)[0] == a[0]);
        lemma_encode_concat(a.drop_first(), b);
        assert(encode_utf8(a + b) =~= encode_utf8(a) + encode_utf8(b));
    }
}

proof fn lemma_scalar_no_cr(c: char)
    requires
        c != '\r',
    ensures
        no_cr_byte(encode_scalar(c as u32)),
{
    let v = c as u32;
    char_is_scalar(c);
    assert(v != 13);
    if has_width_1_encoding(v) {
        assert((v & 0x7F) as u8 != 13u8) by (bit_vector)
            requires
                v <= 0x7f,
                v != 13,
        ;
    } else {
        assert forall|y: u8| (0xC0u8 | y) != 13u8 && (0xE0u8 | y) != 13u8 && (0xF0u8 | y) != 13u8
            && (0x80u8 | y) != 13u8 by {
            assert((0xC0u8 | y) != 13u8 && (0xE0u8 | y) != 13u8 && (0xF0u8 | y) != 13u8
                && (0x80u8 | y) != 13u8) by (bit_vector);
        }
    }
}

proof fn lemma_encode_no_cr(s: Seq<char>)
    requires
        no_cr(s),
    ensures
        no_cr_byte(encode_utf8(s)),
    decreases s.len(),
{
    if s.len() > 0 {
        lemma_scalar_no_cr(s[0]);
        assert(no_cr(s.drop_first()));
        lemma_encode_no_cr(s.drop_first());
    }
}

proof fn lemma_ascii_bytes(s: Seq<char>)
    requires
        is_ascii_chars(s),
    ensures
        encode_utf8(s).len() == s.len(),
        forall|i: int| 0 <= i < s.len() ==> encode_utf8(s)[i] == s[i] as u8,
{
    is_ascii_chars_encode_utf8(s);
}

proof fn lemma_first_separator(b: Seq<u8>, i: int, j: int)
    requires
        0 <= i <= j,
        separator_at(b, j),
        forall|k: int| 0 <= k < j ==> !separator_at(b, k),
    ensures
        separator_from(b, i) == Some(j),
    decreases j - i,
{
    if i < j {
        lemma_first_separator(b, i + 1, j);
    }
}

proof fn lemma_status_no_cr(status: StatusCode)
    ensures
        no_cr(status.spec_as_str()),
        is_ascii_chars(status.spec_as_str()),
{
    match status {
        StatusCode::OK => { reveal_strlit("200 OK"); },
        StatusCode::BadRequest => { reveal_strlit("400 Bad Request"); },
        StatusCode::Forbidden => { reveal_strlit("403 Forbidden"); },
        StatusCode::NotFound => { reveal_strlit("404 Not Found"); },
        StatusCode::MethodNotAllowed => { reveal_strlit("405 Method Not Allowed"); },
        StatusCode::ContentTooLarge => { reveal_strlit("413 Content Too Large"); },
        StatusCode::InternalServerError => { reveal_strlit("500 Internal Server Error"); },
    }
}

/// The body of a sent response is exactly what follows the first blank line
/// (`\r\n\r\n`) of its bytes, as the request parser splits a message, where
/// the content type holds no carriage return.
pub proof fn law_body_follows_first_blank_line(status: StatusCode, content_type: Seq<char>, body: Seq<u8>)
    requires
        no_cr(content_type),
    ensures
        ({
            let b = wire_bytes(status, content_type, body);
            let h = encode_utf8(header_text(status, content_type, body.len())).len() as int;
            &&& separator_from(b, 0) == Some(h - 4)
            &&& b.skip(h) == body
        }),
{
    let p1 = "HTTP/1.1 "@;
    let st = status.spec_as_str();
    let p2 = "\r\nContent-Type: "@;
    let p3 = "\r\nContent-Length: "@;
    let d = decimal(body.len());
    let p4 = "\r\n\r\n"@;
    reveal_strlit("HTTP/1.1 ");
    reveal_strlit("\r\nContent-Type: ");
    reveal_strlit("\r\nContent-Length: ");
    reveal_strlit("\r\n\r\n");
    let x = p1 + st + p2 + content_type + p3 + d;
    assert(header_text(status, content_type, body.len()) == x + p4);
    lemma_encode_concat(p1, st);
    lemma_encode_concat(p1 + st, p2);
    lemma_encode_concat(p1 + st + p2, content_type);
    lemma_encode_concat(p1 + st + p2 + content_type, p3);
    lemma_encode_concat(p1 + st + p2 + content_type + p3, d);
    lemma_encode_concat(x, p4);
    let e1 = encode_utf8(p1);
    let e2 = encode_utf8(st);
    let e3 = encode_utf8(p2);
    let e4 = encode_utf8(content_type);
    let e5 = encode_utf8(p3);
    let e6 = encode_utf8(d);
    let e7 = encode_utf8(p4);
    assert(is_ascii_chars(p1));
    assert(is_ascii_chars(p2));
    assert(is_ascii_chars(p3));
    assert(is_ascii_chars(p4));
    lemma_ascii_bytes(p1);
    lemma_ascii_bytes(p2);
    lemma_ascii_bytes(p3);
    lemma_ascii_bytes(p4);
    lemma_status_no_cr(status);
    lemma_encode_no_cr(st);
    lemma_encode_no_cr(content_type);
    law_decimal_parses_back(body.len());
    assert forall|i: int| 0 <= i < d.len() implies d[i] != '\r' by {
        assert(crate::text::is_digit(d[i]));
    }
    lemma_encode_no_cr(d);
    assert(no_cr(p1));
    lemma_encode_no_cr(p1);
    let hx = e1 + e2 + e3 + e4 + e5 + e6;
    assert(encode_utf8(x) == hx);
    let b = wire_bytes(status, content_type, body);
    assert(b == hx + e7 + body);
    let n = hx.len() as int;
    let o2 = (e1.len() + e2.len()) as int;
    let o4 = (e1.len() + e2.len() + e3.len() + e4.len()) as int;
    assert forall|k: int| 0 <= k < n implies !separator_at(b, k) by {
        if separator_at(b, k) {
            assert(b[k] == 13u8);
            if k < e1.len() {
                assert(b[k] == e1[k]);
            } else if k < o2 {
                assert(b[k] == e2[k - e1.len()]);
            } else if k < o2 + e3.len() {
                assert(b[k] == e3[k - o2]);
                assert(k == o2);
                assert(b[k + 2] == e3[2]);
            } else if k < o4 {
                assert(b[k] == e4[k - o2 - e3.len()]);
            } else if k < o4 + e5.len() {
                assert(b[k] == e5[k - o4]);
                assert(k == o4);
                assert(b[k + 2] == e5[2]);
            } else {
                assert(b[k] == e6[k - o4 - e5.len()]);
            }
        }
    }
    assert(separator_at(b, n));
    lemma_first_separator(b, 0, n);
    assert(encode_utf8(header_text(status, content_type, body.len())).len() == n + 4);
    assert(b.skip(n + 4) =~= body);
}

/// The `Content-Length` value that a response sends for a body of
/// `body_len` bytes is read back by `Request::content_length` as `body_len`.
pub proof fn law_content_length_reads_back(headers: Map<Seq<char>, Seq<char>>, body_len: usize)
    requires
        headers.contains_key("content-length"@),
        headers["content-length"@] == decimal(body_len as nat),
    ensures
        spec_content_length(headers) == body_len,
{
    law_decimal_parses_back(body_len as nat);
}

} // verus!
