use localserver::text::{
    chars_of, lines, parse_u16, parse_usize, push_decimal, trim, words, find_char,
};

fn cs(s: &str) -> Vec<char> {
    s.chars().collect()
}

fn strs(v: Vec<Vec<char>>) -> Vec<String> {
    v.into_iter().map(|c| c.into_iter().collect()).collect()
}

#[test]
fn parse_numbers_like_str_parse() {
    assert_eq!(parse_usize(&cs("0")), Some(0));
    assert_eq!(parse_usize(&cs("+42")), Some(42));
    assert_eq!(parse_usize(&cs("")), None);
    assert_eq!(parse_usize(&cs("+")), None);
    assert_eq!(parse_usize(&cs("-1")), None);
    assert_eq!(parse_usize(&cs(" 1")), None);
    assert_eq!(parse_usize(&cs("18446744073709551615")), "18446744073709551615".parse::<usize>().ok());
    assert_eq!(parse_usize(&cs("18446744073709551616")), None);
    assert_eq!(parse_u16(&cs("65535")), Some(65535));
    assert_eq!(parse_u16(&cs("65536")), None);
    assert_eq!(parse_u16(&cs("007")), Some(7));
}

#[test]
fn decimal_text() {
    let mut s = String::from("n=");
    push_decimal(&mut s, 0);
    assert_eq!(s, "n=0");
    let mut s = String::new();
    push_decimal(&mut s, 1234567890);
    assert_eq!(s, "1234567890");
}

#[test]
fn lines_like_str_lines() {
    for text in ["a\r\nb\nc", "a\n\nb\n", "", "\n", "x\r", "a\r\r\nb"] {
        let expected: Vec<String> = text.lines().map(|l| l.to_string()).collect();
        assert_eq!(strs(lines(&cs(text))), expected, "text {:?}", text);
    }
}

#[test]
fn words_like_split_whitespace() {
    for text in ["  GET   /  HTTP/1.1 ", "", "a\tb\u{3000}c", "one"] {
        let expected: Vec<String> = text.split_whitespace().map(|w| w.to_string()).collect();
        assert_eq!(strs(words(&cs(text))), expected, "text {:?}", text);
    }
}

#[test]
fn trim_like_str_trim() {
    for text in ["  a b  ", "", "   ", "\u{a0}x\u{2028}", "x"] {
        let got: String = trim(&cs(text)).into_iter().collect();
        assert_eq!(got, text.trim());
    }
}

#[test]
fn find_and_lowercase() {
    assert_eq!(find_char(&cs("a:b:c"), ':'), Some(1));
    assert_eq!(find_char(&cs("abc"), ':'), None);
    assert_eq!(chars_of("h\u{e9}"), vec!['h', '\u{e9}']);
}
