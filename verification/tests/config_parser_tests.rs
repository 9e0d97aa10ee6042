use localserver::config::errors::ConfigError;
use localserver::config::parser::{ParseFault, Parser};
use localserver::config::tokenizer::tokenize;
use localserver::config::{Config, Method};

fn parse(text: &str) -> Result<Config, ConfigError> {
    Parser::new(tokenize(text)).try_parse_config()
}

fn parse_error(text: &str) -> (String, usize) {
    match parse(text) {
        Err(ConfigError::Parse { message, pos }) => (message, pos),
        Err(ConfigError::Io(e)) => panic!("unexpected I/O error {}", e),
        Ok(c) => panic!("unexpected success {:?}", c),
    }
}

#[test]
fn parses_a_full_server_block() {
    let text = "server {\n  host 127.0.0.1;\n  port 8080;\n  location / {\n    root ./www;\n    index index.html;\n    methods GET POST DELETE;\n    autoindex on;\n    redirect /other;\n    cgi .py;\n  }\n}";
    let config = parse(text).unwrap();
    assert_eq!(config.servers.len(), 1);
    let s = &config.servers[0];
    assert_eq!(s.host, "127.0.0.1");
    assert_eq!(s.port, 8080);
    assert_eq!(s.client_max_body_size, 0);
    assert!(s.error_pages.is_empty());
    assert_eq!(s.locations.len(), 1);
    let l = &s.locations[0];
    assert_eq!(l.path, "/");
    assert_eq!(l.root, "./www");
    assert_eq!(l.index.as_deref(), Some("index.html"));
    assert_eq!(l.methods, vec![Method::Get, Method::Post, Method::Delete]);
    assert!(l.autoindex);
    assert_eq!(l.redirect.as_deref(), Some("/other"));
    let cgi = l.cgi.as_ref().unwrap();
    assert_eq!(cgi.extension, ".py");
    assert_eq!(cgi.interpreter, "python3");
}

#[test]
fn location_defaults_when_no_directives() {
    let config = parse("server { location /x { } }").unwrap();
    let l = &config.servers[0].locations[0];
    assert_eq!(l.path, "/x");
    assert_eq!(l.root, "");
    assert!(l.index.is_none());
    assert!(l.methods.is_empty());
    assert!(!l.autoindex);
    assert!(l.redirect.is_none());
    assert!(l.cgi.is_none());
}

#[test]
fn autoindex_other_than_on_is_off() {
    let config = parse("server { location / { autoindex off; } }").unwrap();
    assert!(!config.servers[0].locations[0].autoindex);
}

#[test]
fn several_servers_in_order() {
    let config = parse("server { host a; } server { host b; port 1; }").unwrap();
    assert_eq!(config.servers.len(), 2);
    assert_eq!(config.servers[0].host, "a");
    assert_eq!(config.servers[0].port, 0);
    assert_eq!(config.servers[1].host, "b");
    assert_eq!(config.servers[1].port, 1);
}

#[test]
fn empty_input_is_an_empty_config() {
    let config = parse("").unwrap();
    assert!(config.servers.is_empty());
}

#[test]
fn unknown_directives_are_skipped() {
    let config = parse("server { listen 80 default; host h; location / { gzip on; root r; } }").unwrap();
    assert_eq!(config.servers[0].host, "h");
    assert_eq!(config.servers[0].locations[0].root, "r");
}

#[test]
fn unknown_directive_skips_braces_up_to_semicolon() {
    // The skipped tokens "{ x ;" include a brace; the next "}" closes the server.
    let config = parse("server { odd { x ; } server { host h2; }").unwrap();
    assert_eq!(config.servers.len(), 2);
    assert_eq!(config.servers[1].host, "h2");
}

#[test]
fn missing_closing_brace_at_end_is_accepted() {
    let config = parse("server { host h; location / { root r;").unwrap();
    assert_eq!(config.servers[0].host, "h");
    assert_eq!(config.servers[0].locations[0].root, "r");
}

#[test]
fn methods_accumulate_over_directives() {
    let config = parse("server { location / { methods GET; methods DELETE; } }").unwrap();
    assert_eq!(config.servers[0].locations[0].methods, vec![Method::Get, Method::Delete]);
}

#[test]
fn port_accepts_plus_sign() {
    let config = parse("server { port +65535; }").unwrap();
    assert_eq!(config.servers[0].port, 65535);
}

#[test]
fn error_unexpected_directive() {
    assert_eq!(parse_error("listen { }"), ("Unexpected directive".to_string(), 0));
}

#[test]
fn error_expected_word_at_top_level() {
    assert_eq!(parse_error("{"), ("Expected word".to_string(), 0));
}

#[test]
fn error_server_without_brace() {
    assert_eq!(parse_error("server ;"), ("Unexpected token".to_string(), 1));
    assert_eq!(parse_error("server"), ("Unexpected token".to_string(), 1));
}

#[test]
fn error_invalid_port() {
    assert_eq!(parse_error("server { port abc; }"), ("Invalid port".to_string(), 3));
    assert_eq!(parse_error("server { port 65536; }"), ("Invalid port".to_string(), 3));
    assert_eq!(parse_error("server { port -1; }"), ("Invalid port".to_string(), 3));
}

#[test]
fn error_host_without_semicolon() {
    assert_eq!(parse_error("server { host h }"), ("Unexpected token".to_string(), 4));
}

#[test]
fn error_token_in_server() {
    assert_eq!(parse_error("server { ; }"), ("Unexpected token in server".to_string(), 2));
}

#[test]
fn error_token_in_location() {
    assert_eq!(parse_error("server { location / { { } }"), ("Unexpected token in location".to_string(), 5));
}

#[test]
fn error_unknown_method() {
    assert_eq!(parse_error("server { location / { methods GET PUT; } }"), ("Unknown method".to_string(), 7));
}

#[test]
fn error_unterminated_directive() {
    let text = "server { whatever x }";
    let n = tokenize(text).len();
    assert_eq!(parse_error(text), ("Unterminated directive".to_string(), n));
}

#[test]
fn parse_config_on_valid_tokens() {
    let mut p = Parser::new(tokenize("server { host x; }"));
    let c = p.parse_config();
    assert_eq!(c.servers[0].host, "x");
    // A second call starts at the end of the tokens.
    let again = p.parse_config();
    assert!(again.servers.is_empty());
}

#[test]
fn config_error_text() {
    let e = ConfigError::parse("Unknown method", 7);
    assert_eq!(e.describe(), "Config parse error at token 7: Unknown method");
    let io = ConfigError::from(std::io::Error::new(std::io::ErrorKind::NotFound, "gone"));
    assert!(io.describe().starts_with("Could not read config file: "));
    assert!(io.describe().ends_with("gone"));
}

#[test]
fn fault_messages() {
    assert_eq!(ParseFault::ExpectedWord.message(), "Expected word");
    assert_eq!(ParseFault::InvalidPort.message(), "Invalid port");
}
