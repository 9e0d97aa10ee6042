use localserver::errors::ParseError;

#[test]
fn parse_error_keeps_message_and_position() {
    let e = ParseError::new("bad token", 12);
    assert_eq!(e.message, "bad token");
    assert_eq!(e.line, 12);
    assert_eq!(e.describe(), "Config parse error at token 12: bad token");
}
