//! Errors of reading and parsing a configuration.
use vstd::prelude::*;

verus! {

/// `std::io::Error`, carried by [`ConfigError::Io`] as an opaque value.
#[verifier::external_type_specification]
#[verifier::external_body]
pub struct ExIoError(std::io::Error);

/// Why a configuration could not be read or parsed.
#[derive(Debug)]
pub enum ConfigError {
    /// The configuration file could not be read.
    Io(std::io::Error),
    /// The tokens do not form a configuration; `pos` is the index of the
    /// offending token (the number of tokens where input ended early).
    Parse { message: String, pos: usize },
}

/// The text of an I/O error, as its `Display` writes it.
/// Trusted: nothing is stated of the text, which the operating system supplies.
#[verifier::external_body]
fn io_error_text(e: &std::io::Error) -> String {
    format!("{}", e)
}

impl ConfigError {
    /// A parse error with the given message at token `pos`.
    pub fn parse(message: &str, pos: usize) -> (e: ConfigError)
        ensures
            e matches ConfigError::Parse { message: m, pos: p } && m@ == message@ && p == pos,
    {
        ConfigError::Parse { message: message.to_owned(), pos }
    }

    /// The text that reports this error.
    pub fn describe(&self) -> (s: String)
        ensures
            self matches ConfigError::Parse { message, pos } ==> s@ == crate::errors::parse_error_text(*pos, message@),
            self is Io ==> "Could not read config file: "@.is_prefix_of(s@),
    {
        match self {
            ConfigError::Io(e) => {
                let mut s = String::from_str("Could not read config file: ");
                s.append(io_error_text(e).as_str());
                s
            },
            ConfigError::Parse { message, pos } => {
                let mut s = String::from_str("Config parse error at token ");
                crate::text::push_decimal(&mut s, *pos);
                s.append(": ");
                s.append(message.as_str());
                s
            },
        }
    }
}

/// The I/O error of reading a configuration file.
impl From<std::io::Error> for ConfigError {
    fn from(e: std::io::Error) -> (r: ConfigError) {
        ConfigError::Io(e)
    }
}

impl vstd::std_specs::convert::FromSpecImpl<std::io::Error> for ConfigError {
    open spec fn obeys_from_spec() -> bool {
        true
    }

    open spec fn from_spec(e: std::io::Error) -> ConfigError {
        ConfigError::Io(e)
    }
}

} // verus!
