//! Parsing of HTTP requests.
use vstd::prelude::*;
use vstd::utf8::{decode_utf8, valid_utf8};
use crate::text::{
    chars_of, decode_utf8_lossy, find_char, lines, parse_unsigned, parse_usize, seqs_view,
    spec_lines, spec_split_once, spec_trim, spec_words, str_equal, text_lowercase, string_from,
    sub_vec, to_lowercase, trim, utf8_lossy, words,
};

verus! {

/// The mapping that a sequence of entries describes: each key to the value
/// of its last entry.
pub open spec fn entries_map(e: Seq<(String, String)>) -> Map<Seq<char>, Seq<char>>
    decreases e.len(),
{
    if e.len() == 0 {
        Map::empty()
    } else {
        entries_map(e.drop_last()).insert(e.last().0@, e.last().1@)
    }
}

/// No two entries have the same key.
pub open spec fn distinct_keys(e: Seq<(String, String)>) -> bool {
    forall|i: int, j: int| 0 <= i < j < e.len() ==> #[trigger] e[i].0@ != #[trigger] e[j].0@
}

proof fn lemma_entries_map_hit(e: Seq<(String, String)>, i: int)
    requires
        distinct_keys(e),
        0 <= i < e.len(),
    ensures
        entries_map(e).contains_key(e[i].0@),
        entries_map(e)[e[i].0@] == e[i].1@,
    decreases e.len(),
{
    if i < e.len() - 1 {
        assert(e.drop_last()[i] == e[i]);
        assert(distinct_keys(e.drop_last()));
        lemma_entries_map_hit(e.drop_last(), i);
        assert(e[i].0@ != e[e.len() - 1].0@);
    }
}

proof fn lemma_entries_map_miss(e: Seq<(String, String)>, k: Seq<char>)
    requires
        forall|i: int| 0 <= i < e.len() ==> #[trigger] e[i].0@ != k,
    ensures
        !entries_map(e).contains_key(k),
    decreases e.len(),
{
    if e.len() > 0 {
        assert(forall|i: int| 0 <= i < e.len() - 1 ==> #[trigger] e.drop_last()[i] == e[i]);
        lemma_entries_map_miss(e.drop_last(), k);
        assert(e[e.len() - 1].0@ != k);
    }
}

proof fn lemma_entries_map_update(e: Seq<(String, String)>, i: int, x: (String, String))
    requires
        distinct_keys(e),
        0 <= i < e.len(),
        x.0@ == e[i].0@,
    ensures
        entries_map(e.update(i, x)) == entries_map(e).insert(x.0@, x.1@),
    decreases e.len(),
{
    let u = e.update(i, x);
    if i == e.len() - 1 {
        assert(u.drop_last() == e.drop_last());
        assert(entries_map(u) =~= entries_map(e).insert(x.0@, x.1@));
    } else {
        assert(u.drop_last() == e.drop_last().update(i, x));
        assert(distinct_keys(e.drop_last()));
        lemma_entries_map_update(e.drop_last(), i, x);
        assert(e[i].0@ != e[e.len() - 1].0@);
        assert(entries_map(u) =~= entries_map(e).insert(x.0@, x.1@));
    }
}

/// The header fields of a request: at most one value per name.
#[derive(Debug)]
pub struct HeaderMap {
    entries: Vec<(String, String)>,
}

impl View for HeaderMap {
    type V = Map<Seq<char>, Seq<char>>;

    closed spec fn view(&self) -> Map<Seq<char>, Seq<char>> {
        entries_map(self.entries@)
    }
}

impl HeaderMap {
    #[verifier::type_invariant]
    spec fn inv(self) -> bool {
        distinct_keys(self.entries@)
    }

    /// A map with no fields.
    pub fn new() -> (m: HeaderMap)
        ensures
            m@ == Map::<Seq<char>, Seq<char>>::empty(),
    {
        HeaderMap { entries: Vec::new() }
    }

    /// The entry index of `key`, if it has one.
    fn index_of(&self, key: &str) -> (r: Option<usize>)
        ensures
            r matches Some(i) ==> i < self.entries@.len() && self.entries@[i as int].0@ == key@,
            r is None ==> forall|i: int| 0 <= i < self.entries@.len() ==> #[trigger] self.entries@[i].0@ != key@,
    {
        let mut i: usize = 0;
        while i < self.entries.len()
            invariant
                i <= self.entries@.len(),
                forall|j: int| 0 <= j < i ==> #[trigger] self.entries@[j].0@ != key@,
            decreases self.entries@.len() - i,
        {
            if str_equal(self.entries[i].0.as_str(), key) {
                return Some(i);
            }
            i = i + 1;
        }
        None
    }

    /// Sets the value of `key` to `value`, replacing any earlier value.
    pub fn insert(&mut self, key: String, value: String)
        ensures
            final(self)@ == old(self)@.insert(key@, value@),
    {
        proof { use_type_invariant(&*self); }
        let found = self.index_of(key.as_str());
        let mut e: Vec<(String, String)> = Vec::new();
        std::mem::swap(&mut e, &mut self.entries);
        let ghost old_e = e@;
        match found {
            Some(i) => {
                proof {
                    lemma_entries_map_update(old_e, i as int, (key, value));
                }
                e.set(i, (key, value));
                assert(e@ == old_e.update(i as int, (key, value)));
                assert(distinct_keys(e@)) by {
                    assert forall|a: int, b: int| 0 <= a < b < e@.len() implies #[trigger] e@[a].0@ != #[trigger] e@[b].0@ by {
                        if a != i && b != i {
                            assert(old_e[a].0@ != old_e[b].0@);
                        } else if a == i {
                            assert(old_e[a].0@ != old_e[b].0@);
                        } else {
                            assert(old_e[a].0@ != old_e[b].0@);
                        }
                    }
                }
            },
            None => {
                e.push((key, value));
                assert(e@.drop_last() == old_e);
                assert(distinct_keys(e@)) by {
                    assert forall|a: int, b: int| 0 <= a < b < e@.len() implies #[trigger] e@[a].0@ != #[trigger] e@[b].0@ by {
                        if b < old_e.len() {
                            assert(old_e[a].0@ != old_e[b].0@);
                        } else {
                            assert(old_e[a].0@ != key@);
                        }
                    }
                }
            },
        }
        self.entries = e;
    }

    /// The value of `key`, if it has one.
    pub fn get(&self, key: &str) -> (r: Option<&String>)
        ensures
            r matches Some(v) ==> self@.contains_key(key@) && v@ == self@[key@],
            r is None ==> !self@.contains_key(key@),
    {
        proof { use_type_invariant(self); }
        match self.index_of(key) {
            Some(i) => {
                proof { lemma_entries_map_hit(self.entries@, i as int); }
                Some(&self.entries[i].1)
            },
            None => {
                proof { lemma_entries_map_miss(self.entries@, key@); }
                None
            },
        }
    }
}


/// A header map gives back what was last stored under a name, and leaves
/// the other names as they were: where `after` is `before` once
/// `insert(k, v)` has run (as `insert` states it), `get` of `k` on `after`
/// gives `v`, and `get` of any other name gives what it gave on `before`.
pub proof fn law_header_read_after_write(
    before: HeaderMap,
    after: HeaderMap,
    k: Seq<char>,
    v: Seq<char>,
    other: Seq<char>,
)
    requires
        after@ == before@.insert(k, v),
        other != k,
    ensures
        after@.contains_key(k),
        after@[k] == v,
        after@.contains_key(other) == before@.contains_key(other),
        before@.contains_key(other) ==> after@[other] == before@[other],
{
}

/// The method of a request.
#[derive(Debug)]
pub enum Method {
    Get,
    Post,
    Delete,
    Unknown(String),
}

/// The mathematical value of a request [`Method`].
pub enum MethodView {
    Get,
    Post,
    Delete,
    Unknown(Seq<char>),
}

impl View for Method {
    type V = MethodView;

    open spec fn view(&self) -> MethodView {
        match self {
            Method::Get => MethodView::Get,
            Method::Post => MethodView::Post,
            Method::Delete => MethodView::Delete,
            Method::Unknown(s) => MethodView::Unknown(s@),
        }
    }
}

/// An HTTP request.
#[derive(Debug)]
pub struct Request {
    pub method: Method,
    pub path: String,
    pub version: String,
    /// Header fields, by lowercased name.
    pub headers: HeaderMap,
    pub body: Vec<u8>,
}

/// The mathematical value of a [`Request`].
pub struct RequestView {
    pub method: MethodView,
    pub path: Seq<char>,
    pub version: Seq<char>,
    pub headers: Map<Seq<char>, Seq<char>>,
    pub body: Seq<u8>,
}

impl View for Request {
    type V = RequestView;

    open spec fn view(&self) -> RequestView {
        RequestView {
            method: self.method@,
            path: self.path@,
            version: self.version@,
            headers: self.headers@,
            body: self.body@,
        }
    }
}

/// Whether `b` holds the blank line `\r\n\r\n` at index `i`.
pub open spec fn separator_at(b: Seq<u8>, i: int) -> bool {
    &&& 0 <= i
    &&& i + 4 <= b.len()
    &&& b[i] == 13u8
    &&& b[i + 1] == 10u8
    &&& b[i + 2] == 13u8
    &&& b[i + 3] == 10u8
}

/// The index of the first `\r\n\r\n` in `b` at or after `i`.
pub open spec fn separator_from(b: Seq<u8>, i: int) -> Option<int>
    decreases b.len() - i,
{
    if i < 0 || i + 4 > b.len() {
        None
    } else if separator_at(b, i) {
        Some(i)
    } else {
        separator_from(b, i + 1)
    }
}

pub proof fn lemma_separator_from(b: Seq<u8>, i: int)
    ensures
        separator_from(b, i) matches Some(h) ==> i <= h && separator_at(b, h)
            && forall|k: int| i <= k < h ==> !separator_at(b, k),
    decreases b.len() - i,
{
    if 0 <= i && i + 4 <= b.len() && !separator_at(b, i) {
        lemma_separator_from(b, i + 1);
    }
}

/// The request method that a word names.
pub open spec fn method_view(w: Seq<char>) -> MethodView {
    if w == "GET"@ {
        MethodView::Get
    } else if w == "POST"@ {
        MethodView::Post
    } else if w == "DELETE"@ {
        MethodView::Delete
    } else {
        MethodView::Unknown(w)
    }
}

/// The header field that a line holds: the trimmed, lowercased name before
/// its first `:` and the trimmed value after it.
pub open spec fn header_entry(line: Seq<char>) -> Option<(Seq<char>, Seq<char>)> {
    match spec_split_once(line, ':') {
        Some((k, v)) => Some((text_lowercase(spec_trim(k)), spec_trim(v))),
        None => None,
    }
}

proof fn lemma_first_index_at(s: Seq<char>, c: char, i: int, j: int)
    requires
        0 <= i <= j < s.len(),
        s[j] == c,
        forall|k: int| i <= k < j ==> s[k] != c,
    ensures
        crate::text::first_index_from(s, c, i) == Some(j),
    decreases j - i,
{
    if i < j {
        lemma_first_index_at(s, c, i + 1, j);
    }
}

/// A header name in ASCII is matched without regard to letter case: the
/// line `name: value` gives the field named by the letter-by-letter
/// lowercase of `name`, with the trimmed value.
pub proof fn law_ascii_header_name_is_lowercased(name: Seq<char>, value: Seq<char>)
    requires
        vstd::utf8::is_ascii_chars(name),
        forall|i: int| 0 <= i < name.len() ==> name[i] != ':',
        spec_trim(name) == name,
    ensures
        header_entry(name + seq![':'] + value) == Some((
            name.map_values(|c: char| crate::text::ascii_lower(c)),
            spec_trim(value),
        )),
{
    let line = name + seq![':'] + value;
    let n = name.len() as int;
    assert forall|k: int| 0 <= k < n implies line[k] != ':' by {
        assert(line[k] == name[k]);
    }
    lemma_first_index_at(line, ':', 0, n);
    assert(line.take(n) == name);
    assert(line.skip(n + 1) == value);
}

/// Every header line counts, however many come before it: a header
/// section that ends with the line `name: value` (an ASCII name without
/// `:`) gives the request without that line, with the field named by the
/// lowercase of `name` set to the trimmed value.
pub proof fn law_appended_header_line_counts(
    text: Seq<char>,
    name: Seq<char>,
    value: Seq<char>,
    body: Seq<u8>,
)
    requires
        spec_request_from_text(text, body) is Some,
        text.len() > 0,
        text.last() != '\n',
        vstd::utf8::is_ascii_chars(name),
        forall|i: int| 0 <= i < name.len() ==> name[i] != ':' && name[i] != '\n',
        spec_trim(name) == name,
        forall|i: int| 0 <= i < value.len() ==> value[i] != '\n',
    ensures
        ({
            let before = spec_request_from_text(text, body)->Some_0;
            spec_request_from_text(text + seq!['\r', '\n'] + (name + seq![':'] + value), body)
                == Some(RequestView {
                    headers: before.headers.insert(
                        name.map_values(|c: char| crate::text::ascii_lower(c)),
                        spec_trim(value),
                    ),
                    ..before
                })
        }),
{
    let line = name + seq![':'] + value;
    assert forall|i: int| 0 <= i < line.len() implies line[i] != '\n' by {
        if i < name.len() {
            assert(line[i] == name[i]);
        } else if i > name.len() {
            assert(line[i] == value[i - name.len() - 1]);
        }
    }
    assert(line[name.len() as int] == ':');
    crate::text::lemma_lines_append_line(text, line);
    law_ascii_header_name_is_lowercased(name, value);
    let ls = spec_lines(text);
    let ls2 = ls.push(line);
    assert(ls2[0] == ls[0]);
    assert(ls2.skip(1) =~= ls.skip(1).push(line));
    assert(ls.skip(1).push(line).drop_last() =~= ls.skip(1));
}

/// The header fields of `lines`; a later line with the same name wins, and
/// a line without `:` is ignored.
pub open spec fn headers_of(lines: Seq<Seq<char>>) -> Map<Seq<char>, Seq<char>>
    decreases lines.len(),
{
    if lines.len() == 0 {
        Map::empty()
    } else {
        let m = headers_of(lines.drop_last());
        match header_entry(lines.last()) {
            Some((k, v)) => m.insert(k, v),
            None => m,
        }
    }
}

/// The request that the bytes `b` hold: the header section ends at the
/// first `\r\n\r\n` and the body is everything after it; the first line of
/// the (lossily decoded) header section holds the method, path and version
/// as its first three words, and each later line a header field.
pub open spec fn spec_parse_request(b: Seq<u8>) -> Option<RequestView> {
    match separator_from(b, 0) {
        None => None,
        Some(h) => spec_request_from_text(utf8_lossy(b.take(h)), b.skip(h + 4)),
    }
}

/// The request that a decoded header section `text` and a `body` form: the
/// first line holds the method, path and version as its first three words,
/// and each later line a header field.
pub open spec fn spec_request_from_text(text: Seq<char>, body: Seq<u8>) -> Option<RequestView> {
    let ls = spec_lines(text);
    if ls.len() == 0 {
        None
    } else {
        let parts = spec_words(ls[0]);
        if parts.len() < 3 {
            None
        } else {
            Some(
                RequestView {
                    method: method_view(parts[0]),
                    path: parts[1],
                    version: parts[2],
                    headers: headers_of(ls.skip(1)),
                    body,
                },
            )
        }
    }
}

/// The length of the body that the headers announce: the value of
/// `content-length` read as a `usize`, or 0 where it is missing or not a number.
pub open spec fn spec_content_length(headers: Map<Seq<char>, Seq<char>>) -> usize {
    if headers.contains_key("content-length"@) {
        match parse_unsigned(headers["content-length"@], usize::MAX as nat) {
            Some(n) => n as usize,
            None => 0,
        }
    } else {
        0
    }
}

/// The index of the first `\r\n\r\n` in `b`.
pub fn find_separator(b: &[u8]) -> (r: Option<usize>)
    ensures
        r matches Some(i) ==> separator_from(b@, 0) == Some(i as int),
        r is None ==> separator_from(b@, 0) is None,
{
    let n = b.len();
    if n < 4 {
        return None;
    }
    let mut i: usize = 0;
    while i < n - 3
        invariant
            n == b@.len(),
            4 <= n,
            i <= n - 3,
            separator_from(b@, 0) == separator_from(b@, i as int),
        decreases n - i,
    {
        if b[i] == 13 && b[i + 1] == 10 && b[i + 2] == 13 && b[i + 3] == 10 {
            return Some(i);
        }
        i = i + 1;
    }
    None
}

fn method_from(w: &[char]) -> (m: Method)
    ensures
        m@ == method_view(w@),
{
    let s = string_from(w, 0, w.len());
    assert(w@.subrange(0, w@.len() as int) == w@);
    if str_equal(s.as_str(), "GET") {
        Method::Get
    } else if str_equal(s.as_str(), "POST") {
        Method::Post
    } else if str_equal(s.as_str(), "DELETE") {
        Method::Delete
    } else {
        Method::Unknown(s)
    }
}

impl Request {
    /// Parses a request from the bytes received so far; `None` where they
    /// hold no blank line, or where the first line has fewer than three words.
    pub fn parse(buffer: &[u8]) -> (r: Option<Request>)
        ensures
            match spec_parse_request(buffer@) {
                Some(v) => r matches Some(q) && q@ == v,
                None => r is None,
            },
            match separator_from(buffer@, 0) {
                Some(h) => valid_utf8(buffer@.take(h)) ==> match spec_request_from_text(
                    decode_utf8(buffer@.take(h)),
                    buffer@.skip(h + 4),
                ) {
                    Some(v) => r matches Some(q) && q@ == v,
                    None => r is None,
                },
                None => true,
            },
    {
        let h = match find_separator(buffer) {
            Some(h) => h,
            None => return None,
        };
        proof { lemma_separator_from(buffer@, 0); }
        let n = buffer.len();
        let header_section = &buffer[0..h];
        let body = vstd::slice::slice_to_vec(&buffer[h + 4..n]);
        assert(buffer@.subrange(0, h as int) == buffer@.take(h as int));
        assert(buffer@.subrange(h + 4, n as int) == buffer@.skip(h + 4));
        let text = decode_utf8_lossy(header_section);
        Request::from_header_text(text.as_str(), body)
    }

    /// Builds a request from its decoded header section (without the blank
    /// line that ends it) and its body; `None` where the first line has
    /// fewer than three words.
    pub fn from_header_text(text: &str, body: Vec<u8>) -> (r: Option<Request>)
        ensures
            match spec_request_from_text(text@, body@) {
                Some(v) => r matches Some(q) && q@ == v,
                None => r is None,
            },
    {
        let chars = chars_of(text);
        let ls = lines(chars.as_slice());
        let ghost lv = seqs_view(ls@);
        if ls.len() == 0 {
            return None;
        }
        assert(lv[0] == ls@[0]@);
        let parts = words(ls[0].as_slice());
        if parts.len() < 3 {
            return None;
        }
        let ghost pv = seqs_view(parts@);
        assert(pv[0] == parts@[0]@ && pv[1] == parts@[1]@ && pv[2] == parts@[2]@);
        let method = method_from(parts[0].as_slice());
        let path = string_from(parts[1].as_slice(), 0, parts[1].len());
        let version = string_from(parts[2].as_slice(), 0, parts[2].len());
        assert(parts@[1]@.subrange(0, parts@[1]@.len() as int) == parts@[1]@);
        assert(parts@[2]@.subrange(0, parts@[2]@.len() as int) == parts@[2]@);
        let mut headers = HeaderMap::new();
        let mut i: usize = 1;
        assert(lv.subrange(1, 1) =~= Seq::<Seq<char>>::empty());
        while i < ls.len()
            invariant
                1 <= i <= ls@.len(),
                lv == seqs_view(ls@),
                headers@ == headers_of(lv.subrange(1, i as int)),
            decreases ls@.len() - i,
        {
            let line = ls[i].as_slice();
            assert(lv[i as int] == line@);
            assert(lv.subrange(1, i + 1).drop_last() == lv.subrange(1, i as int));
            assert(lv.subrange(1, i + 1).last() == line@);
            proof { crate::text::lemma_first_index_from(line@, ':', 0); }
            match find_char(line, ':') {
                Some(j) => {
                    let n = line.len();
                    assert(j < n);
                    let key = trim(sub_vec(line, 0, j).as_slice());
                    let value = trim(sub_vec(line, j + 1, n).as_slice());
                    assert(line@.subrange(0, j as int) == line@.take(j as int));
                    assert(line@.subrange(j + 1, line@.len() as int) == line@.skip(j + 1));
                    let key_text = string_from(key.as_slice(), 0, key.len());
                    assert(key@.subrange(0, key@.len() as int) == key@);
                    let name = to_lowercase(key_text.as_str());
                    let val = string_from(value.as_slice(), 0, value.len());
                    assert(value@.subrange(0, value@.len() as int) == value@);
                    headers.insert(name, val);
                },
                None => {},
            }
            i = i + 1;
        }
        assert(lv.subrange(1, lv.len() as int) == lv.skip(1));
        Some(Request { method, path, version, headers, body })
    }

    /// The length of the body that the headers announce (0 where they do not).
    pub fn content_length(&self) -> (n: usize)
        ensures
            n == spec_content_length(self.headers@),
    {
        match self.headers.get("content-length") {
            Some(v) => {
                let c = chars_of(v.as_str());
                match parse_usize(c.as_slice()) {
                    Some(n) => n,
                    None => 0,
                }
            },
            None => 0,
        }
    }
}

} // verus!
