//! A small HTTP server library: configuration tokenizer and parser,
//! HTTP request parsing, response serialization and request handling
//! decisions.
pub mod text;
pub mod config;
pub mod request;
pub mod response;
pub mod handler;
pub mod server;
pub mod errors;
