//! Builds a [`Config`] from configuration tokens.
use vstd::prelude::*;
use super::errors::ConfigError;
use super::tokenizer::{Token, TokenView, tokens_view};
use super::{CGI, CGIView, Config, ConfigView, Location, LocationView, Method, ServerConfig, ServerConfigView};
use crate::text::{parse_unsigned, parse_u16, str_equal, chars_of};
use std::collections::HashMap;

verus! {

/// What is wrong where parsing stops.
#[derive(Debug, Clone, Copy, PartialEq, Eq, Structural)]
pub enum ParseFault {
    /// A word was required.
    ExpectedWord,
    /// A particular brace or semicolon was required.
    UnexpectedToken,
    /// A top-level word other than `server`.
    UnexpectedDirective,
    /// A brace or semicolon where a server directive should start.
    UnexpectedTokenInServer,
    /// A brace or semicolon where a location directive should start.
    UnexpectedTokenInLocation,
    /// A word in a `methods` list that is not `GET`, `POST` or `DELETE`.
    UnknownMethod,
    /// A `port` value that is not a number from 0 to 65535.
    InvalidPort,
    /// An unknown directive with no `;` after it.
    UnterminatedDirective,
}

impl ParseFault {
    /// The message of a parse error of this kind.
    pub open spec fn spec_message(self) -> Seq<char> {
        match self {
            ParseFault::ExpectedWord => "Expected word"@,
            ParseFault::UnexpectedToken => "Unexpected token"@,
            ParseFault::UnexpectedDirective => "Unexpected directive"@,
            ParseFault::UnexpectedTokenInServer => "Unexpected token in server"@,
            ParseFault::UnexpectedTokenInLocation => "Unexpected token in location"@,
            ParseFault::UnknownMethod => "Unknown method"@,
            ParseFault::InvalidPort => "Invalid port"@,
            ParseFault::UnterminatedDirective => "Unterminated directive"@,
        }
    }

    /// The message of a parse error of this kind.
    pub fn message(&self) -> (m: &'static str)
        ensures
            m@ == self.spec_message(),
    {
        match self {
            ParseFault::ExpectedWord => "Expected word",
            ParseFault::UnexpectedToken => "Unexpected token",
            ParseFault::UnexpectedDirective => "Unexpected directive",
            ParseFault::UnexpectedTokenInServer => "Unexpected token in server",
            ParseFault::UnexpectedTokenInLocation => "Unexpected token in location",
            ParseFault::UnknownMethod => "Unknown method",
            ParseFault::InvalidPort => "Invalid port",
            ParseFault::UnterminatedDirective => "Unterminated directive",
        }
    }
}

/// The outcome of parsing a part: the value and the position after it, or
/// the fault and the position of the offending token.
pub type Parsed<T> = Result<(T, int), (ParseFault, int)>;

/// Whether `e` is the parse error that `f` describes.
pub open spec fn error_is(e: ConfigError, f: (ParseFault, int)) -> bool {
    e matches ConfigError::Parse { message, pos } && message@ == f.0.spec_message() && pos == f.1
}

/// The word at `pos`, if there is one.
pub open spec fn word_at(toks: Seq<TokenView>, pos: int) -> Option<Seq<char>> {
    if 0 <= pos < toks.len() {
        match toks[pos] {
            TokenView::Word(w) => Some(w),
            _ => None,
        }
    } else {
        None
    }
}

/// Reads the word at `pos`.
pub open spec fn spec_expect_word(toks: Seq<TokenView>, pos: int) -> Parsed<Seq<char>> {
    match word_at(toks, pos) {
        Some(w) => Ok((w, pos + 1)),
        None => Err((ParseFault::ExpectedWord, pos)),
    }
}

/// Reads the token `t` at `pos`.
pub open spec fn spec_expect(toks: Seq<TokenView>, pos: int, t: TokenView) -> Parsed<()> {
    if 0 <= pos < toks.len() && toks[pos] == t {
        Ok(((), pos + 1))
    } else {
        Err((ParseFault::UnexpectedToken, pos))
    }
}

/// Reads a word and the `;` after it.
pub open spec fn spec_word_statement(toks: Seq<TokenView>, pos: int) -> Parsed<Seq<char>> {
    match spec_expect_word(toks, pos) {
        Ok((w, p)) => match spec_expect(toks, p, TokenView::Semicolon) {
            Ok((_, q)) => Ok((w, q)),
            Err(e) => Err(e),
        },
        Err(e) => Err(e),
    }
}

/// The index of the first `;` at or after `pos`.
pub open spec fn next_semicolon(toks: Seq<TokenView>, pos: int) -> Option<int>
    decreases toks.len() - pos,
{
    if pos < 0 || pos >= toks.len() {
        None
    } else if toks[pos] == TokenView::Semicolon {
        Some(pos)
    } else {
        next_semicolon(toks, pos + 1)
    }
}

/// Skips an unknown directive: every token up to and including the next `;`.
pub open spec fn spec_skip(toks: Seq<TokenView>, pos: int) -> Parsed<()> {
    match next_semicolon(toks, pos) {
        Some(q) => Ok(((), q + 1)),
        None => Err((ParseFault::UnterminatedDirective, toks.len() as int)),
    }
}

/// The method that a word names.
pub open spec fn method_of(w: Seq<char>) -> Option<Method> {
    if w == "GET"@ {
        Some(Method::Get)
    } else if w == "POST"@ {
        Some(Method::Post)
    } else if w == "DELETE"@ {
        Some(Method::Delete)
    } else {
        None
    }
}

/// Reads the words of a `methods` list, which ends at the first token that
/// is not a word, and appends their methods to `acc`.
pub open spec fn spec_methods(toks: Seq<TokenView>, pos: int, acc: Seq<Method>) -> Parsed<Seq<Method>>
    decreases toks.len() - pos,
{
    if 0 <= pos < toks.len() {
        match toks[pos] {
            TokenView::Word(w) => match method_of(w) {
                Some(m) => spec_methods(toks, pos + 1, acc.push(m)),
                None => Err((ParseFault::UnknownMethod, pos)),
            },
            _ => Ok((acc, pos)),
        }
    } else {
        Ok((acc, pos))
    }
}

/// The location that a block starts as, before its directives.
pub open spec fn empty_location(path: Seq<char>) -> LocationView {
    LocationView {
        path,
        root: Seq::empty(),
        index: None,
        methods: Seq::empty(),
        autoindex: false,
        redirect: None,
        cgi: None,
    }
}

/// Applies the location directive `d`, whose arguments start at `pos`.
pub open spec fn location_directive(toks: Seq<TokenView>, pos: int, d: Seq<char>, acc: LocationView) -> Parsed<LocationView> {
    if d == "methods"@ {
        match spec_methods(toks, pos, acc.methods) {
            Ok((ms, p)) => match spec_expect(toks, p, TokenView::Semicolon) {
                Ok((_, q)) => Ok((LocationView { methods: ms, ..acc }, q)),
                Err(e) => Err(e),
            },
            Err(e) => Err(e),
        }
    } else if d == "root"@ || d == "index"@ || d == "autoindex"@ || d == "redirect"@ || d == "cgi"@ {
        match spec_word_statement(toks, pos) {
            Ok((w, q)) => Ok((
                if d == "root"@ {
                    LocationView { root: w, ..acc }
                } else if d == "index"@ {
                    LocationView { index: Some(w), ..acc }
                } else if d == "autoindex"@ {
                    LocationView { autoindex: w == "on"@, ..acc }
                } else if d == "redirect"@ {
                    LocationView { redirect: Some(w), ..acc }
                } else {
                    LocationView { cgi: Some(CGIView { extension: w, interpreter: "python3"@ }), ..acc }
                },
                q,
            )),
            Err(e) => Err(e),
        }
    } else {
        match spec_skip(toks, pos) {
            Ok((_, q)) => Ok((acc, q)),
            Err(e) => Err(e),
        }
    }
}

pub proof fn lemma_next_semicolon(toks: Seq<TokenView>, pos: int)
    ensures
        next_semicolon(toks, pos) matches Some(q) ==> pos <= q < toks.len() && toks[q] == TokenView::Semicolon
            && forall|j: int| pos <= j < q ==> toks[j] != TokenView::Semicolon,
        next_semicolon(toks, pos) is None ==> forall|j: int| 0 <= pos <= j < toks.len() ==> toks[j] != TokenView::Semicolon,
    decreases toks.len() - pos,
{
    if 0 <= pos < toks.len() && toks[pos] != TokenView::Semicolon {
        lemma_next_semicolon(toks, pos + 1);
    }
}

pub proof fn lemma_methods_bounds(toks: Seq<TokenView>, pos: int, acc: Seq<Method>)
    requires
        0 <= pos <= toks.len(),
    ensures
        spec_methods(toks, pos, acc) matches Ok((_, q)) ==> pos <= q <= toks.len(),
    decreases toks.len() - pos,
{
    if pos < toks.len() {
        if let TokenView::Word(w) = toks[pos] {
            if let Some(m) = method_of(w) {
                lemma_methods_bounds(toks, pos + 1, acc.push(m));
            }
        }
    }
}

pub proof fn lemma_location_directive_bounds(toks: Seq<TokenView>, pos: int, d: Seq<char>, acc: LocationView)
    requires
        0 <= pos <= toks.len(),
    ensures
        location_directive(toks, pos, d, acc) matches Ok((_, q)) ==> pos < q <= toks.len(),
{
    lemma_methods_bounds(toks, pos, acc.methods);
    lemma_next_semicolon(toks, pos);
}

/// The directives of a location block from `pos` to its `}` (or to the end
/// of the tokens), applied to `acc`.
pub open spec fn location_body(toks: Seq<TokenView>, pos: int, acc: LocationView) -> Parsed<LocationView>
    decreases toks.len() - pos,
{
    if pos < 0 || pos >= toks.len() {
        Ok((acc, pos))
    } else {
        match toks[pos] {
            TokenView::RBrace => Ok((acc, pos + 1)),
            TokenView::Word(d) => match location_directive(toks, pos + 1, d, acc) {
                Ok((a, q)) => {
                    proof {
                        lemma_location_directive_bounds(toks, pos + 1, d, acc);
                    }
                    location_body(toks, q, a)
                },
                Err(e) => Err(e),
            },
            _ => Err((ParseFault::UnexpectedTokenInLocation, pos)),
        }
    }
}


/// A `location <path> { ... }` block whose path starts at `pos`.
pub open spec fn spec_parse_location(toks: Seq<TokenView>, pos: int) -> Parsed<LocationView> {
    match spec_expect_word(toks, pos) {
        Ok((path, p)) => match spec_expect(toks, p, TokenView::LBrace) {
            Ok((_, q)) => location_body(toks, q, empty_location(path)),
            Err(e) => Err(e),
        },
        Err(e) => Err(e),
    }
}

pub proof fn lemma_location_body_bounds(toks: Seq<TokenView>, pos: int, acc: LocationView)
    requires
        0 <= pos <= toks.len(),
    ensures
        location_body(toks, pos, acc) matches Ok((_, q)) ==> pos <= q <= toks.len(),
    decreases toks.len() - pos,
{
    if pos < toks.len() {
        if let TokenView::Word(d) = toks[pos] {
            lemma_location_directive_bounds(toks, pos + 1, d, acc);
            if let Ok((a, q)) = location_directive(toks, pos + 1, d, acc) {
                lemma_location_body_bounds(toks, q, a);
            }
        }
    }
}

pub proof fn lemma_parse_location_bounds(toks: Seq<TokenView>, pos: int)
    requires
        0 <= pos <= toks.len(),
    ensures
        spec_parse_location(toks, pos) matches Ok((_, q)) ==> pos < q <= toks.len(),
{
    if pos + 2 <= toks.len() {
        if let Ok((path, _)) = spec_expect_word(toks, pos) {
            lemma_location_body_bounds(toks, pos + 2, empty_location(path));
        }
    }
}

/// The server that a block starts as, before its directives.
pub open spec fn empty_server() -> ServerConfigView {
    ServerConfigView {
        host: Seq::empty(),
        port: 0,
        client_max_body_size: 0,
        error_pages: Map::empty(),
        locations: Seq::empty(),
    }
}

/// Applies the server directive `d`, whose arguments start at `pos`.
pub open spec fn server_directive(toks: Seq<TokenView>, pos: int, d: Seq<char>, acc: ServerConfigView) -> Parsed<ServerConfigView> {
    if d == "host"@ {
        match spec_word_statement(toks, pos) {
            Ok((w, q)) => Ok((ServerConfigView { host: w, ..acc }, q)),
            Err(e) => Err(e),
        }
    } else if d == "port"@ {
        match spec_expect_word(toks, pos) {
            Ok((w, p)) => match parse_unsigned(w, u16::MAX as nat) {
                Some(v) => match spec_expect(toks, p, TokenView::Semicolon) {
                    Ok((_, q)) => Ok((ServerConfigView { port: v as u16, ..acc }, q)),
                    Err(e) => Err(e),
                },
                None => Err((ParseFault::InvalidPort, pos)),
            },
            Err(e) => Err(e),
        }
    } else if d == "location"@ {
        match spec_parse_location(toks, pos) {
            Ok((l, q)) => Ok((ServerConfigView { locations: acc.locations.push(l), ..acc }, q)),
            Err(e) => Err(e),
        }
    } else {
        match spec_skip(toks, pos) {
            Ok((_, q)) => Ok((acc, q)),
            Err(e) => Err(e),
        }
    }
}

pub proof fn lemma_server_directive_bounds(toks: Seq<TokenView>, pos: int, d: Seq<char>, acc: ServerConfigView)
    requires
        0 <= pos <= toks.len(),
    ensures
        server_directive(toks, pos, d, acc) matches Ok((_, q)) ==> pos < q <= toks.len(),
{
    lemma_parse_location_bounds(toks, pos);
    lemma_next_semicolon(toks, pos);
}

/// The directives of a server block from `pos` to its `}` (or to the end of
/// the tokens), applied to `acc`.
pub open spec fn server_body(toks: Seq<TokenView>, pos: int, acc: ServerConfigView) -> Parsed<ServerConfigView>
    decreases toks.len() - pos,
{
    if pos < 0 || pos >= toks.len() {
        Ok((acc, pos))
    } else {
        match toks[pos] {
            TokenView::RBrace => Ok((acc, pos + 1)),
            TokenView::Word(d) => match server_directive(toks, pos + 1, d, acc) {
                Ok((a, q)) => {
                    proof {
                        lemma_server_directive_bounds(toks, pos + 1, d, acc);
                    }
                    server_body(toks, q, a)
                },
                Err(e) => Err(e),
            },
            _ => Err((ParseFault::UnexpectedTokenInServer, pos)),
        }
    }
}

/// A server block whose `{` is at `pos`.
pub open spec fn spec_parse_server(toks: Seq<TokenView>, pos: int) -> Parsed<ServerConfigView> {
    match spec_expect(toks, pos, TokenView::LBrace) {
        Ok((_, q)) => server_body(toks, q, empty_server()),
        Err(e) => Err(e),
    }
}

pub proof fn lemma_server_body_bounds(toks: Seq<TokenView>, pos: int, acc: ServerConfigView)
    requires
        0 <= pos <= toks.len(),
    ensures
        server_body(toks, pos, acc) matches Ok((_, q)) ==> pos <= q <= toks.len(),
    decreases toks.len() - pos,
{
    if pos < toks.len() {
        if let TokenView::Word(d) = toks[pos] {
            lemma_server_directive_bounds(toks, pos + 1, d, acc);
            if let Ok((a, q)) = server_directive(toks, pos + 1, d, acc) {
                lemma_server_body_bounds(toks, q, a);
            }
        }
    }
}

pub proof fn lemma_parse_server_bounds(toks: Seq<TokenView>, pos: int)
    requires
        0 <= pos <= toks.len(),
    ensures
        spec_parse_server(toks, pos) matches Ok((_, q)) ==> pos < q <= toks.len(),
{
    if pos + 1 <= toks.len() {
        lemma_server_body_bounds(toks, pos + 1, empty_server());
    }
}

/// The `server` blocks from `pos` to the end of the tokens, appended to `acc`.
pub open spec fn config_body(toks: Seq<TokenView>, pos: int, acc: Seq<ServerConfigView>) -> Parsed<Seq<ServerConfigView>>
    decreases toks.len() - pos,
{
    if pos < 0 || pos >= toks.len() {
        Ok((acc, pos))
    } else {
        match spec_expect_word(toks, pos) {
            Ok((w, p)) => if w == "server"@ {
                match spec_parse_server(toks, p) {
                    Ok((srv, q)) => {
                        proof {
                            lemma_parse_server_bounds(toks, p);
                        }
                        config_body(toks, q, acc.push(srv))
                    },
                    Err(e) => Err(e),
                }
            } else {
                Err((ParseFault::UnexpectedDirective, pos))
            },
            Err(e) => Err(e),
        }
    }
}

/// The configuration that the tokens from `pos` on describe.
pub open spec fn spec_parse_config(toks: Seq<TokenView>, pos: int) -> Result<ConfigView, (ParseFault, int)> {
    match config_body(toks, pos, Seq::empty()) {
        Ok((servers, _)) => Ok(ConfigView { servers }),
        Err(e) => Err(e),
    }
}


/// The outcome `r` with every position in it moved on by `d`.
pub open spec fn shifted<T>(r: Parsed<T>, d: int) -> Parsed<T> {
    match r {
        Ok((v, q)) => Ok((v, q + d)),
        Err((f, q)) => Err((f, q + d)),
    }
}

proof fn lemma_shift_primitives(p: Seq<TokenView>, s: Seq<TokenView>, j: int, t: TokenView)
    requires
        0 <= j,
    ensures
        spec_expect_word(p + s, p.len() + j) == shifted(spec_expect_word(s, j), p.len() as int),
        spec_expect(p + s, p.len() + j, t) == shifted(spec_expect(s, j, t), p.len() as int),
        spec_word_statement(p + s, p.len() + j) == shifted(spec_word_statement(s, j), p.len() as int),
{
    if j < s.len() {
        assert((p + s)[p.len() + j] == s[j]);
    }
    if j + 1 < s.len() {
        assert((p + s)[p.len() + j + 1] == s[j + 1]);
    }
}

proof fn lemma_shift_skip(p: Seq<TokenView>, s: Seq<TokenView>, j: int)
    requires
        0 <= j,
    ensures
        next_semicolon(p + s, p.len() + j) == (match next_semicolon(s, j) {
            Some(q) => Some(q + p.len()),
            None => None::<int>,
        }),
        spec_skip(p + s, p.len() + j) == shifted(spec_skip(s, j), p.len() as int),
    decreases s.len() - j,
{
    if j < s.len() {
        assert((p + s)[p.len() + j] == s[j]);
        if s[j] != TokenView::Semicolon {
            lemma_shift_skip(p, s, j + 1);
        }
    }
}

proof fn lemma_shift_methods(p: Seq<TokenView>, s: Seq<TokenView>, j: int, acc: Seq<Method>)
    requires
        0 <= j,
    ensures
        spec_methods(p + s, p.len() + j, acc) == shifted(spec_methods(s, j, acc), p.len() as int),
    decreases s.len() - j,
{
    if j < s.len() {
        assert((p + s)[p.len() + j] == s[j]);
        if let TokenView::Word(w) = s[j] {
            if let Some(m) = method_of(w) {
                lemma_shift_methods(p, s, j + 1, acc.push(m));
            }
        }
    }
}

proof fn lemma_shift_location_directive(p: Seq<TokenView>, s: Seq<TokenView>, j: int, d: Seq<char>, acc: LocationView)
    requires
        0 <= j,
    ensures
        location_directive(p + s, p.len() + j, d, acc) == shifted(location_directive(s, j, d, acc), p.len() as int),
{
    lemma_shift_primitives(p, s, j, TokenView::Semicolon);
    lemma_shift_skip(p, s, j);
    lemma_shift_methods(p, s, j, acc.methods);
    if let Ok((ms, q)) = spec_methods(s, j, acc.methods) {
        lemma_methods_bounds_any(s, j, acc.methods);
        lemma_shift_primitives(p, s, q, TokenView::Semicolon);
    }
}

proof fn lemma_methods_bounds_any(toks: Seq<TokenView>, pos: int, acc: Seq<Method>)
    requires
        0 <= pos,
    ensures
        spec_methods(toks, pos, acc) matches Ok((_, q)) ==> pos <= q,
    decreases toks.len() - pos,
{
    if pos < toks.len() {
        if let TokenView::Word(w) = toks[pos] {
            if let Some(m) = method_of(w) {
                lemma_methods_bounds_any(toks, pos + 1, acc.push(m));
            }
        }
    }
}

/// Parsing a location block from a position depends only on the tokens from
/// there on: with tokens `p` before them, the outcome is the same, with
/// positions moved on by the length of `p`.
pub proof fn lemma_shift_location_body(p: Seq<TokenView>, s: Seq<TokenView>, j: int, acc: LocationView)
    requires
        0 <= j,
    ensures
        location_body(p + s, p.len() + j, acc) == shifted(location_body(s, j, acc), p.len() as int),
    decreases s.len() - j,
{
    if j < s.len() {
        assert((p + s)[p.len() + j] == s[j]);
        if let TokenView::Word(d) = s[j] {
            lemma_shift_location_directive(p, s, j + 1, d, acc);
            lemma_location_directive_bounds(s, j + 1, d, acc);
            if let Ok((a, q)) = location_directive(s, j + 1, d, acc) {
                lemma_shift_location_body(p, s, q, a);
            }
        }
    }
}

/// The same for a whole location block.
pub proof fn lemma_shift_parse_location(p: Seq<TokenView>, s: Seq<TokenView>, j: int)
    requires
        0 <= j,
    ensures
        spec_parse_location(p + s, p.len() + j) == shifted(spec_parse_location(s, j), p.len() as int),
{
    lemma_shift_primitives(p, s, j, TokenView::LBrace);
    lemma_shift_primitives(p, s, j + 1, TokenView::LBrace);
    if let Ok((path, _)) = spec_expect_word(s, j) {
        lemma_shift_location_body(p, s, j + 2, empty_location(path));
    }
}

proof fn lemma_shift_server_directive(p: Seq<TokenView>, s: Seq<TokenView>, j: int, d: Seq<char>, acc: ServerConfigView)
    requires
        0 <= j,
    ensures
        server_directive(p + s, p.len() + j, d, acc) == shifted(server_directive(s, j, d, acc), p.len() as int),
{
    lemma_shift_primitives(p, s, j, TokenView::Semicolon);
    lemma_shift_primitives(p, s, j + 1, TokenView::Semicolon);
    lemma_shift_skip(p, s, j);
    lemma_shift_parse_location(p, s, j);
}

/// Parsing a server block from a position depends only on the tokens from
/// there on, as for a location block.
pub proof fn lemma_shift_server_body(p: Seq<TokenView>, s: Seq<TokenView>, j: int, acc: ServerConfigView)
    requires
        0 <= j,
    ensures
        server_body(p + s, p.len() + j, acc) == shifted(server_body(s, j, acc), p.len() as int),
    decreases s.len() - j,
{
    if j < s.len() {
        assert((p + s)[p.len() + j] == s[j]);
        if let TokenView::Word(d) = s[j] {
            lemma_shift_server_directive(p, s, j + 1, d, acc);
            lemma_server_directive_bounds(s, j + 1, d, acc);
            if let Ok((a, q)) = server_directive(s, j + 1, d, acc) {
                lemma_shift_server_body(p, s, q, a);
            }
        }
    }
}

/// The words that name location directives.
pub open spec fn is_location_directive(x: Seq<char>) -> bool {
    x == "root"@ || x == "index"@ || x == "methods"@ || x == "autoindex"@ || x == "redirect"@
        || x == "cgi"@
}

/// The words that name server directives.
pub open spec fn is_server_directive(x: Seq<char>) -> bool {
    x == "host"@ || x == "port"@ || x == "location"@
}

/// An unknown directive: its name, its arguments (none of them `;`), and `;`.
pub open spec fn unknown_directive(x: Seq<char>, args: Seq<TokenView>) -> Seq<TokenView> {
    seq![TokenView::Word(x)] + args + seq![TokenView::Semicolon]
}

proof fn lemma_skip_unknown(p: Seq<TokenView>, x: Seq<char>, args: Seq<TokenView>, s: Seq<TokenView>)
    requires
        forall|i: int| 0 <= i < args.len() ==> args[i] != TokenView::Semicolon,
    ensures
        ({
            let t = p + unknown_directive(x, args) + s;
            &&& t[p.len() as int] == TokenView::Word(x)
            &&& spec_skip(t, p.len() + 1 as int) == Ok::<((), int), (ParseFault, int)>(((), (p.len() + args.len() + 2) as int))
            &&& t == (p + unknown_directive(x, args)) + s
            &&& (p + unknown_directive(x, args)).len() == p.len() + args.len() + 2
        }),
{
    let u = unknown_directive(x, args);
    let t = p + u + s;
    let k = args.len() as int;
    let n = p.len() as int;
    assert(t[n] == u[0]);
    assert forall|i: int| n + 1 <= i < n + 1 + k implies t[i] != TokenView::Semicolon by {
        assert(t[i] == u[i - n]);
        assert(u[i - n] == args[i - n - 1]);
    }
    assert(t[n + 1 + k] == u[k + 1]);
    lemma_next_semicolon(t, n + 1);
    if let Some(q) = next_semicolon(t, n + 1) {
        if q < n + 1 + k {
            assert(t[q] != TokenView::Semicolon);
        }
        if q > n + 1 + k {
            assert(t[n + 1 + k] != TokenView::Semicolon);
        }
    }
}

/// An unknown directive in a location block, through its `;`, is skipped
/// with no effect: parsing the block from the place where it stands gives
/// the same location, or fails with the same fault, as without it, at a
/// position moved on by its length.
pub proof fn law_unknown_location_directive_is_skipped(
    p: Seq<TokenView>,
    x: Seq<char>,
    args: Seq<TokenView>,
    s: Seq<TokenView>,
    acc: LocationView,
)
    requires
        !is_location_directive(x),
        forall|i: int| 0 <= i < args.len() ==> args[i] != TokenView::Semicolon,
    ensures
        location_body(p + unknown_directive(x, args) + s, p.len() as int, acc)
            == shifted(location_body(p + s, p.len() as int, acc), (args.len() + 2) as int),
{
    let u = unknown_directive(x, args);
    lemma_skip_unknown(p, x, args, s);
    lemma_shift_location_body(p + u, s, 0, acc);
    lemma_shift_location_body(p, s, 0, acc);
    assert(location_body(p + u + s, p.len() as int, acc) == location_body(p + u + s, (p.len() + args.len() + 2) as int, acc));
}

/// The directives of a location block, parsed from `pos` within the tokens
/// `p` with the location `acc` gathered so far, end exactly at the end of
/// `p` with the location `a`: the end of `p` is a directive position of the
/// block.
pub open spec fn body_reaches(p: Seq<TokenView>, pos: int, acc: LocationView, a: LocationView) -> bool
    decreases p.len() - pos,
{
    if pos == p.len() {
        acc == a
    } else if 0 <= pos < p.len() {
        match p[pos] {
            TokenView::Word(d) => match location_directive(p, pos + 1, d, acc) {
                Ok((acc2, q)) => if pos < q <= p.len() {
                    body_reaches(p, q, acc2, a)
                } else {
                    false
                },
                Err(_) => false,
            },
            _ => false,
        }
    } else {
        false
    }
}

proof fn lemma_extend_primitives(p: Seq<TokenView>, t: Seq<TokenView>, i: int, tok: TokenView)
    ensures
        spec_expect_word(p, i) is Ok ==> spec_expect_word(p + t, i) == spec_expect_word(p, i),
        spec_expect(p, i, tok) is Ok ==> spec_expect(p + t, i, tok) == spec_expect(p, i, tok),
        spec_word_statement(p, i) is Ok ==> spec_word_statement(p + t, i) == spec_word_statement(p, i),
{
    if 0 <= i < p.len() {
        assert((p + t)[i] == p[i]);
    }
    if 0 <= i + 1 < p.len() {
        assert((p + t)[i + 1] == p[i + 1]);
    }
}

proof fn lemma_extend_skip(p: Seq<TokenView>, t: Seq<TokenView>, i: int)
    ensures
        next_semicolon(p, i) is Some ==> next_semicolon(p + t, i) == next_semicolon(p, i),
        spec_skip(p, i) is Ok ==> spec_skip(p + t, i) == spec_skip(p, i),
    decreases p.len() - i,
{
    if 0 <= i < p.len() {
        assert((p + t)[i] == p[i]);
        if p[i] != TokenView::Semicolon {
            lemma_extend_skip(p, t, i + 1);
        }
    }
}

proof fn lemma_extend_methods(p: Seq<TokenView>, t: Seq<TokenView>, i: int, acc: Seq<Method>)
    ensures
        spec_methods(p, i, acc) matches Ok((_, r)) && r < p.len() ==> spec_methods(p + t, i, acc)
            == spec_methods(p, i, acc),
    decreases p.len() - i,
{
    if 0 <= i < p.len() {
        assert((p + t)[i] == p[i]);
        if let TokenView::Word(w) = p[i] {
            if let Some(m) = method_of(w) {
                lemma_extend_methods(p, t, i + 1, acc.push(m));
            }
        }
    }
}

proof fn lemma_extend_location_directive(p: Seq<TokenView>, t: Seq<TokenView>, i: int, d: Seq<char>, acc: LocationView)
    ensures
        location_directive(p, i, d, acc) matches Ok((_, q)) && q <= p.len() ==> location_directive(
            p + t,
            i,
            d,
            acc,
        ) == location_directive(p, i, d, acc),
{
    lemma_extend_primitives(p, t, i, TokenView::Semicolon);
    lemma_extend_skip(p, t, i);
    lemma_extend_methods(p, t, i, acc.methods);
    if let Ok((ms, r)) = spec_methods(p, i, acc.methods) {
        lemma_extend_primitives(p, t, r, TokenView::Semicolon);
    }
}

proof fn lemma_reach(p: Seq<TokenView>, t: Seq<TokenView>, i: int, acc: LocationView, a: LocationView)
    requires
        body_reaches(p, i, acc, a),
    ensures
        location_body(p + t, i, acc) == location_body(p + t, p.len() as int, a),
    decreases p.len() - i,
{
    if i != p.len() {
        assert((p + t)[i] == p[i]);
        if let TokenView::Word(d) = p[i] {
            lemma_extend_location_directive(p, t, i + 1, d, acc);
            if let Ok((acc2, q)) = location_directive(p, i + 1, d, acc) {
                lemma_reach(p, t, q, acc2, a);
            }
        }
    }
}

/// The same for a whole location block: an unknown directive inserted at
/// any directive position of the block (the end of `p`, which starts with
/// the block's path and `{`) changes no field of the parsed location, or
/// the fault, and moves the position reached on by its length.
pub proof fn law_unknown_directive_leaves_location_unchanged(
    p: Seq<TokenView>,
    path: Seq<char>,
    a: LocationView,
    x: Seq<char>,
    args: Seq<TokenView>,
    s: Seq<TokenView>,
)
    requires
        p.len() >= 2,
        p[0] == TokenView::Word(path),
        p[1] == TokenView::LBrace,
        body_reaches(p, 2, empty_location(path), a),
        !is_location_directive(x),
        forall|i: int| 0 <= i < args.len() ==> args[i] != TokenView::Semicolon,
    ensures
        spec_parse_location(p + unknown_directive(x, args) + s, 0) == shifted(
            spec_parse_location(p + s, 0),
            (args.len() + 2) as int,
        ),
{
    let u = unknown_directive(x, args);
    let t1 = p + s;
    let t2 = p + u + s;
    assert(t2 == p + (u + s));
    assert(t1[0] == p[0] && t1[1] == p[1]);
    assert(t2[0] == p[0] && t2[1] == p[1]);
    lemma_reach(p, s, 2, empty_location(path), a);
    lemma_reach(p, u + s, 2, empty_location(path), a);
    law_unknown_location_directive_is_skipped(p, x, args, s, a);
}

/// An unknown directive in a server block, through its `;`, is skipped with
/// no effect: parsing the block from the place where it stands gives the
/// same server, or fails with the same fault, as without it, at a position
/// moved on by its length.
pub proof fn law_unknown_server_directive_is_skipped(
    p: Seq<TokenView>,
    x: Seq<char>,
    args: Seq<TokenView>,
    s: Seq<TokenView>,
    acc: ServerConfigView,
)
    requires
        !is_server_directive(x),
        forall|i: int| 0 <= i < args.len() ==> args[i] != TokenView::Semicolon,
    ensures
        server_body(p + unknown_directive(x, args) + s, p.len() as int, acc)
            == shifted(server_body(p + s, p.len() as int, acc), (args.len() + 2) as int),
{
    let u = unknown_directive(x, args);
    lemma_skip_unknown(p, x, args, s);
    lemma_shift_server_body(p + u, s, 0, acc);
    lemma_shift_server_body(p, s, 0, acc);
    assert(server_body(p + u + s, p.len() as int, acc) == server_body(p + u + s, (p.len() + args.len() + 2) as int, acc));
}

/// A `location` block in a server block adds the location it describes
/// after the locations gathered before it and changes nothing else: the
/// body goes on after the block with that location appended.
pub proof fn law_location_block_is_appended(toks: Seq<TokenView>, pos: int, acc: ServerConfigView)
    requires
        0 <= pos < toks.len(),
        toks[pos] == TokenView::Word("location"@),
        spec_parse_location(toks, pos + 1) is Ok,
    ensures
        ({
            let (l, q) = spec_parse_location(toks, pos + 1)->Ok_0;
            server_body(toks, pos, acc)
                == server_body(toks, q, ServerConfigView { locations: acc.locations.push(l), ..acc })
        }),
{
    reveal_strlit("location");
    reveal_strlit("host");
    reveal_strlit("port");
    assert("location"@ != "host"@ && "location"@ != "port"@) by {
        assert("location"@.len() != "host"@.len() && "location"@.len() != "port"@.len());
    }
    lemma_server_directive_bounds(toks, pos + 1, "location"@, acc);
}

/// The locations gathered before a part of a server block are kept, in
/// order, at the start of the locations that the block ends with.
pub proof fn law_server_body_keeps_locations(toks: Seq<TokenView>, pos: int, acc: ServerConfigView)
    requires
        0 <= pos <= toks.len(),
    ensures
        server_body(toks, pos, acc) matches Ok((s, _)) ==> {
            &&& acc.locations.len() <= s.locations.len()
            &&& s.locations.take(acc.locations.len() as int) == acc.locations
        },
    decreases toks.len() - pos,
{
    if pos < toks.len() {
        if let TokenView::Word(d) = toks[pos] {
            lemma_server_directive_bounds(toks, pos + 1, d, acc);
            if let Ok((a, q)) = server_directive(toks, pos + 1, d, acc) {
                law_server_body_keeps_locations(toks, q, a);
                assert(a.locations.take(acc.locations.len() as int) == acc.locations);
                if let Ok((s, _)) = server_body(toks, q, a) {
                    assert(s.locations.take(acc.locations.len() as int)
                        == s.locations.take(a.locations.len() as int).take(acc.locations.len() as int));
                }
            }
        }
    } else {
        assert(acc.locations.take(acc.locations.len() as int) == acc.locations);
    }
}

/// Whether an outcome of a parsing step is the one that `expected` describes,
/// and the parser stopped at `pos`: after the part on success, at the
/// offending token on failure.
pub open spec fn outcome_is<T: View>(r: Result<T, ConfigError>, expected: Parsed<T::V>, pos: int) -> bool {
    match expected {
        Ok((v, q)) => r matches Ok(x) && x@ == v && pos == q,
        Err(f) => r matches Err(e) && error_is(e, f) && pos == f.1,
    }
}

/// A parser over a sequence of configuration tokens.
pub struct Parser {
    tokens: Vec<Token>,
    pos: usize,
}

impl Parser {
    #[verifier::type_invariant]
    spec fn inv(self) -> bool {
        self.pos <= self.tokens@.len()
    }

    /// The tokens being parsed.
    pub closed spec fn spec_tokens(self) -> Seq<TokenView> {
        tokens_view(self.tokens@)
    }

    /// The index of the next token to read.
    pub closed spec fn position(self) -> int {
        self.pos as int
    }

    /// A parser positioned at the first of `tokens`.
    pub fn new(tokens: Vec<Token>) -> (p: Parser)
        ensures
            p.spec_tokens() == tokens_view(tokens@),
            p.position() == 0,
    {
        Parser { tokens, pos: 0 }
    }

    fn fail<T>(&mut self, fault: ParseFault, at: usize) -> (r: Result<T, ConfigError>)
        requires
            at <= old(self).tokens@.len(),
        ensures
            final(self).tokens == old(self).tokens,
            final(self).pos == at,
            r matches Err(e) && error_is(e, (fault, at as int)),
    {
        self.pos = at;
        Err(ConfigError::parse(fault.message(), at))
    }

    /// The next token, if any, without reading it.
    fn peek(&self) -> (r: Option<&Token>)
        ensures
            r matches Some(t) ==> self.pos < self.tokens@.len() && *t == self.tokens@[self.pos as int],
            r is None ==> self.pos >= self.tokens@.len(),
    {
        if self.pos < self.tokens.len() {
            Some(&self.tokens[self.pos])
        } else {
            None
        }
    }

    /// Reads the next token, if any.
    fn next(&mut self) -> (r: Option<Token>)
        ensures
            final(self).tokens == old(self).tokens,
            old(self).pos < old(self).tokens@.len() ==> final(self).pos == old(self).pos + 1,
            old(self).pos < old(self).tokens@.len() ==> (r matches Some(t) && t@ == old(self).tokens@[old(self).pos as int]@),
            old(self).pos >= old(self).tokens@.len() ==> (final(self).pos == old(self).pos && r is None),
    {
        proof { use_type_invariant(&*self); }
        if self.pos < self.tokens.len() {
            let tok = self.tokens[self.pos].duplicate();
            self.pos = self.pos + 1;
            Some(tok)
        } else {
            None
        }
    }

    fn expect_word(&mut self) -> (r: Result<String, ConfigError>)
        ensures
            final(self).tokens == old(self).tokens,
            outcome_is(r, spec_expect_word(old(self).spec_tokens(), old(self).pos as int), final(self).pos as int),
    {
        proof { use_type_invariant(&*self); }
        let start = self.pos;
        match self.next() {
            Some(Token::Word(w)) => Ok(w),
            _ => self.fail(ParseFault::ExpectedWord, start),
        }
    }

    fn expect(&mut self, expected: Token) -> (r: Result<(), ConfigError>)
        ensures
            final(self).tokens == old(self).tokens,
            outcome_is(r, spec_expect(old(self).spec_tokens(), old(self).pos as int, expected@), final(self).pos as int),
    {
        proof { use_type_invariant(&*self); }
        let start = self.pos;
        match self.next() {
            Some(tok) => {
                if tok.same_as(&expected) {
                    Ok(())
                } else {
                    self.fail(ParseFault::UnexpectedToken, start)
                }
            },
            None => self.fail(ParseFault::UnexpectedToken, start),
        }
    }

    /// Reads a word and the `;` after it.
    fn word_statement(&mut self) -> (r: Result<String, ConfigError>)
        ensures
            final(self).tokens == old(self).tokens,
            outcome_is(r, spec_word_statement(old(self).spec_tokens(), old(self).pos as int), final(self).pos as int),
    {
        let w = match self.expect_word() {
            Ok(w) => w,
            Err(e) => return Err(e),
        };
        match self.expect(Token::Semicolon) {
            Ok(()) => Ok(w),
            Err(e) => Err(e),
        }
    }

    /// Skips an unknown directive up to and including its `;`.
    fn skip_directive(&mut self) -> (r: Result<(), ConfigError>)
        ensures
            final(self).tokens == old(self).tokens,
            outcome_is(r, spec_skip(old(self).spec_tokens(), old(self).pos as int), final(self).pos as int),
    {
        proof {
            use_type_invariant(&*self);
            lemma_next_semicolon(self.spec_tokens(), self.pos as int);
        }
        let ghost toks = self.spec_tokens();
        let ghost start = self.pos as int;
        loop
            invariant
                self.tokens == old(self).tokens,
                toks == tokens_view(self.tokens@),
                toks == old(self).spec_tokens(),
                start == old(self).pos,
                start <= self.pos <= self.tokens@.len(),
                next_semicolon(toks, start) == next_semicolon(toks, self.pos as int),
            decreases self.tokens@.len() - self.pos,
        {
            let ghost here = self.pos as int;
            assert(toks.len() == self.tokens@.len());
            assert(here < toks.len() ==> toks[here] == self.tokens@[here]@);
            match self.next() {
                Some(Token::Semicolon) => {
                    assert(toks[here] == TokenView::Semicolon);
                    return Ok(());
                },
                Some(_) => {
                    assert(toks[here] != TokenView::Semicolon);
                },
                None => {
                    let len = self.tokens.len();
                    assert(next_semicolon(toks, here) is None);
                    return self.fail(ParseFault::UnterminatedDirective, len);
                },
            }
        }
    }

    /// Reads a `methods` list, appending its methods to `methods`.
    fn parse_methods(&mut self, methods: &mut Vec<Method>) -> (r: Result<(), ConfigError>)
        ensures
            final(self).tokens == old(self).tokens,
            match spec_methods(old(self).spec_tokens(), old(self).pos as int, old(methods)@) {
                Ok((ms, q)) => r is Ok && final(methods)@ == ms && final(self).pos == q,
                Err(f) => r matches Err(e) && error_is(e, f) && final(self).pos == f.1,
            },
    {
        proof { use_type_invariant(&*self); }
        let ghost toks = self.spec_tokens();
        let ghost target = spec_methods(toks, self.pos as int, methods@);
        loop
            invariant
                self.tokens == old(self).tokens,
                toks == old(self).spec_tokens(),
                toks == tokens_view(self.tokens@),
                self.pos <= self.tokens@.len(),
                target == spec_methods(toks, old(self).pos as int, old(methods)@),
                target == spec_methods(toks, self.pos as int, methods@),
            decreases self.tokens@.len() - self.pos,
        {
            let here = self.pos;
            assert(toks.len() == self.tokens@.len());
            assert(here < toks.len() ==> toks[here as int] == self.tokens@[here as int]@);
            match self.peek() {
                Some(Token::Word(_)) => {},
                _ => return Ok(()),
            }
            let w = match self.expect_word() {
                Ok(w) => w,
                Err(e) => return Err(e),
            };
            if str_equal(w.as_str(), "GET") {
                methods.push(Method::Get);
            } else if str_equal(w.as_str(), "POST") {
                methods.push(Method::Post);
            } else if str_equal(w.as_str(), "DELETE") {
                methods.push(Method::Delete);
            } else {
                return self.fail(ParseFault::UnknownMethod, here);
            }
        }
    }

    /// Reads a `location <path> { ... }` block whose path is the next token.
    fn parse_location(&mut self) -> (r: Result<Location, ConfigError>)
        ensures
            final(self).tokens == old(self).tokens,
            outcome_is(r, spec_parse_location(old(self).spec_tokens(), old(self).pos as int), final(self).pos as int),
    {
        proof { use_type_invariant(&*self); }
        let ghost toks = self.spec_tokens();
        let path = match self.expect_word() {
            Ok(w) => w,
            Err(e) => return Err(e),
        };
        match self.expect(Token::LBrace) {
            Ok(()) => {},
            Err(e) => return Err(e),
        }
        let mut loc = Location {
            path,
            root: String::new(),
            index: None,
            methods: Vec::new(),
            autoindex: false,
            redirect: None,
            cgi: None,
        };
        assert(loc@ == empty_location(path@));
        let ghost target = location_body(toks, self.pos as int, loc@);
        loop
            invariant
                self.tokens == old(self).tokens,
                toks == old(self).spec_tokens(),
                toks == tokens_view(self.tokens@),
                self.pos <= self.tokens@.len(),
                target == spec_parse_location(toks, old(self).pos as int),
                target == location_body(toks, self.pos as int, loc@),
            decreases self.tokens@.len() - self.pos,
        {
            proof { use_type_invariant(&*self); }
            let here = self.pos;
            assert(toks.len() == self.tokens@.len());
            assert(here < toks.len() ==> toks[here as int] == self.tokens@[here as int]@);
            match self.peek() {
                None => return Ok(loc),
                Some(Token::RBrace) => {
                    self.next();
                    return Ok(loc);
                },
                Some(Token::Word(_)) => {},
                Some(_) => return self.fail(ParseFault::UnexpectedTokenInLocation, here),
            }
            let ghost old_loc = loc@;
            let d = match self.expect_word() {
                Ok(d) => d,
                Err(e) => return Err(e),
            };
            if str_equal(d.as_str(), "methods") {
                match self.parse_methods(&mut loc.methods) {
                    Ok(()) => {},
                    Err(e) => return Err(e),
                }
                match self.expect(Token::Semicolon) {
                    Ok(()) => {},
                    Err(e) => return Err(e),
                }
            } else if str_equal(d.as_str(), "root") || str_equal(d.as_str(), "index") || str_equal(
                d.as_str(),
                "autoindex",
            ) || str_equal(d.as_str(), "redirect") || str_equal(d.as_str(), "cgi") {
                let w = match self.word_statement() {
                    Ok(w) => w,
                    Err(e) => return Err(e),
                };
                if str_equal(d.as_str(), "root") {
                    loc.root = w;
                } else if str_equal(d.as_str(), "index") {
                    loc.index = Some(w);
                } else if str_equal(d.as_str(), "autoindex") {
                    loc.autoindex = str_equal(w.as_str(), "on");
                } else if str_equal(d.as_str(), "redirect") {
                    loc.redirect = Some(w);
                } else {
                    loc.cgi = Some(CGI { extension: w, interpreter: "python3".to_owned() });
                }
            } else {
                match self.skip_directive() {
                    Ok(()) => {},
                    Err(e) => return Err(e),
                }
            }
            proof {
                use_type_invariant(&*self);
                lemma_location_directive_bounds(toks, here + 1, d@, old_loc);
                assert(location_directive(toks, here + 1, d@, old_loc) == Ok::<_, (ParseFault, int)>((loc@, self.pos as int)));
            }
        }
    }

    /// Reads a `server { ... }` block whose `{` is the next token.
    fn parse_server(&mut self) -> (r: Result<ServerConfig, ConfigError>)
        ensures
            final(self).tokens == old(self).tokens,
            outcome_is(r, spec_parse_server(old(self).spec_tokens(), old(self).pos as int), final(self).pos as int),
    {
        proof { use_type_invariant(&*self); }
        let ghost toks = self.spec_tokens();
        match self.expect(Token::LBrace) {
            Ok(()) => {},
            Err(e) => return Err(e),
        }
        let mut srv = ServerConfig {
            host: String::new(),
            port: 0,
            client_max_body_size: 0,
            error_pages: HashMap::new(),
            locations: Vec::new(),
        };
        assert(srv@.error_pages =~= Map::<u16, Seq<char>>::empty());
        assert(srv@.locations =~= Seq::<LocationView>::empty());
        assert(srv@ == empty_server());
        let ghost target = server_body(toks, self.pos as int, srv@);
        loop
            invariant
                self.tokens == old(self).tokens,
                toks == old(self).spec_tokens(),
                toks == tokens_view(self.tokens@),
                self.pos <= self.tokens@.len(),
                target == spec_parse_server(toks, old(self).pos as int),
                target == server_body(toks, self.pos as int, srv@),
            decreases self.tokens@.len() - self.pos,
        {
            proof { use_type_invariant(&*self); }
            let here = self.pos;
            assert(toks.len() == self.tokens@.len());
            assert(here < toks.len() ==> toks[here as int] == self.tokens@[here as int]@);
            match self.peek() {
                None => return Ok(srv),
                Some(Token::RBrace) => {
                    self.next();
                    return Ok(srv);
                },
                Some(Token::Word(_)) => {},
                Some(_) => return self.fail(ParseFault::UnexpectedTokenInServer, here),
            }
            let ghost old_srv = srv@;
            let d = match self.expect_word() {
                Ok(d) => d,
                Err(e) => return Err(e),
            };
            if str_equal(d.as_str(), "host") {
                match self.word_statement() {
                    Ok(w) => srv.host = w,
                    Err(e) => return Err(e),
                }
            } else if str_equal(d.as_str(), "port") {
                let w = match self.expect_word() {
                    Ok(w) => w,
                    Err(e) => return Err(e),
                };
                let wc = chars_of(w.as_str());
                let port = match parse_u16(wc.as_slice()) {
                    Some(p) => p,
                    None => return self.fail(ParseFault::InvalidPort, here + 1),
                };
                match self.expect(Token::Semicolon) {
                    Ok(()) => {},
                    Err(e) => return Err(e),
                }
                srv.port = port;
            } else if str_equal(d.as_str(), "location") {
                let loc = match self.parse_location() {
                    Ok(l) => l,
                    Err(e) => return Err(e),
                };
                let ghost before = srv.locations@;
                srv.locations.push(loc);
                assert(srv.locations@.map_values(|l: Location| l@) =~= before.map_values(|l: Location| l@).push(loc@));
            } else {
                match self.skip_directive() {
                    Ok(()) => {},
                    Err(e) => return Err(e),
                }
            }
            proof {
                use_type_invariant(&*self);
                lemma_server_directive_bounds(toks, here + 1, d@, old_srv);
                assert(server_directive(toks, here + 1, d@, old_srv) == Ok::<_, (ParseFault, int)>((srv@, self.pos as int)));
            }
        }
    }

    /// Reads `server` blocks up to the end of the tokens: the configuration
    /// that they describe, or the first place where they do not form one.
    pub fn try_parse_config(&mut self) -> (r: Result<Config, ConfigError>)
        ensures
            final(self).spec_tokens() == old(self).spec_tokens(),
            match spec_parse_config(old(self).spec_tokens(), old(self).position()) {
                Ok(c) => r matches Ok(x) && x@ == c && final(self).position() == old(self).spec_tokens().len(),
                Err(f) => r matches Err(e) && error_is(e, f) && final(self).position() == f.1,
            },
    {
        proof { use_type_invariant(&*self); }
        let ghost toks = self.spec_tokens();
        let mut servers: Vec<ServerConfig> = Vec::new();
        let ghost target = config_body(toks, self.pos as int, Seq::empty());
        assert(servers@.map_values(|s: ServerConfig| s@) =~= Seq::<ServerConfigView>::empty());
        loop
            invariant
                self.tokens == old(self).tokens,
                toks == old(self).spec_tokens(),
                toks == tokens_view(self.tokens@),
                self.pos <= self.tokens@.len(),
                target == config_body(toks, old(self).pos as int, Seq::empty()),
                target == config_body(toks, self.pos as int, servers@.map_values(|s: ServerConfig| s@)),
            decreases self.tokens@.len() - self.pos,
        {
            proof { use_type_invariant(&*self); }
            let here = self.pos;
            assert(toks.len() == self.tokens@.len());
            if self.peek().is_none() {
                let c = Config { servers };
                assert(c@.servers == servers@.map_values(|s: ServerConfig| s@));
                return Ok(c);
            }
            let w = match self.expect_word() {
                Ok(w) => w,
                Err(e) => return Err(e),
            };
            if !str_equal(w.as_str(), "server") {
                return self.fail(ParseFault::UnexpectedDirective, here);
            }
            let ghost mid = self.pos as int;
            let srv = match self.parse_server() {
                Ok(s) => s,
                Err(e) => return Err(e),
            };
            let ghost before = servers@;
            servers.push(srv);
            proof {
                assert(servers@.map_values(|s: ServerConfig| s@) =~= before.map_values(|s: ServerConfig| s@).push(srv@));
                use_type_invariant(&*self);
                lemma_parse_server_bounds(toks, mid);
            }
        }
    }

    /// Reads `server` blocks up to the end of the tokens: the configuration
    /// that they describe. The tokens must describe one (see
    /// [`Parser::try_parse_config`] for the error otherwise).
    pub fn parse_config(&mut self) -> (c: Config)
        requires
            spec_parse_config(old(self).spec_tokens(), old(self).position()) is Ok,
        ensures
            final(self).spec_tokens() == old(self).spec_tokens(),
            final(self).position() == old(self).spec_tokens().len(),
            Ok::<ConfigView, (ParseFault, int)>(c@) == spec_parse_config(old(self).spec_tokens(), old(self).position()),
    {
        match self.try_parse_config() {
            Ok(c) => c,
            Err(_) => {
                assert(false);
                Config { servers: Vec::new() }
            },
        }
    }
}

} // verus!
