//! Server configuration: the data model, its tokenizer and its parser.
pub mod errors;
pub mod tokenizer;

use std::collections::HashMap;
use vstd::prelude::*;

verus! {

/// A whole configuration: the servers it declares, in order.
#[derive(Debug)]
pub struct Config {
    pub servers: Vec<ServerConfig>,
}

/// One `server { ... }` block.
#[derive(Debug)]
pub struct ServerConfig {
    pub host: String,
    pub port: u16,
    /// Largest request body accepted, in bytes.
    pub client_max_body_size: usize,
    /// Error page file per status code, e.g. 404 to "./error_pages/404.html".
    pub error_pages: HashMap<u16, String>,
    pub locations: Vec<Location>,
}

/// One `location <path> { ... }` block.
#[derive(Debug)]
pub struct Location {
    pub path: String,
    pub root: String,
    pub index: Option<String>,
    pub methods: Vec<Method>,
    pub autoindex: bool,
    pub redirect: Option<String>,
    pub cgi: Option<CGI>,
}

/// An HTTP method that a location may allow.
#[derive(Debug, Clone, Copy, PartialEq, Eq, Structural)]
pub enum Method {
    Get,
    Post,
    Delete,
}

/// A CGI handler: the file extension it serves and the interpreter it runs.
#[derive(Debug)]
pub struct CGI {
    pub extension: String,
    pub interpreter: String,
}

/// The mathematical value of a [`CGI`].
pub struct CGIView {
    pub extension: Seq<char>,
    pub interpreter: Seq<char>,
}

/// The mathematical value of a [`Location`].
pub struct LocationView {
    pub path: Seq<char>,
    pub root: Seq<char>,
    pub index: Option<Seq<char>>,
    pub methods: Seq<Method>,
    pub autoindex: bool,
    pub redirect: Option<Seq<char>>,
    pub cgi: Option<CGIView>,
}

/// The mathematical value of a [`ServerConfig`].
pub struct ServerConfigView {
    pub host: Seq<char>,
    pub port: u16,
    pub client_max_body_size: usize,
    pub error_pages: Map<u16, Seq<char>>,
    pub locations: Seq<LocationView>,
}

/// The mathematical value of a [`Config`].
pub struct ConfigView {
    pub servers: Seq<ServerConfigView>,
}

/// The view of an optional string.
pub open spec fn opt_string_view(o: Option<String>) -> Option<Seq<char>> {
    match o {
        Some(s) => Some(s@),
        None => None,
    }
}

impl View for CGI {
    type V = CGIView;

    open spec fn view(&self) -> CGIView {
        CGIView { extension: self.extension@, interpreter: self.interpreter@ }
    }
}

impl View for Location {
    type V = LocationView;

    open spec fn view(&self) -> LocationView {
        LocationView {
            path: self.path@,
            root: self.root@,
            index: opt_string_view(self.index),
            methods: self.methods@,
            autoindex: self.autoindex,
            redirect: opt_string_view(self.redirect),
            cgi: match self.cgi {
                Some(c) => Some(c@),
                None => None,
            },
        }
    }
}

impl View for ServerConfig {
    type V = ServerConfigView;

    open spec fn view(&self) -> ServerConfigView {
        ServerConfigView {
            host: self.host@,
            port: self.port,
            client_max_body_size: self.client_max_body_size,
            error_pages: self.error_pages@.map_values(|s: String| s@),
            locations: self.locations@.map_values(|l: Location| l@),
        }
    }
}

impl View for Config {
    type V = ConfigView;

    open spec fn view(&self) -> ConfigView {
        ConfigView { servers: self.servers@.map_values(|s: ServerConfig| s@) }
    }
}

} // verus!
pub mod parser;
