use pretty::{ParseError, Parser};

fn print(input: &[u8]) -> Result<String, ParseError> {
    let mut parser = Parser::new(input);
    let mut out = Vec::new();
    parser.parse(&mut out)?;
    Ok(String::from_utf8(out).unwrap())
}

#[test]
fn parser_parse_number_ok() {
    let datas = [
        // Parse some integers
        ("1234xxxx", "1234"),
        ("42", "42"),
        (
            "1233456787766677889778998789988",
            "1233456787766677889778998789988",
        ),
        ("0000", "0"),
        ("0", "0"),
        ("-0", "-0"),
        ("012345", "0"),
        ("0abcdef", "0"),
        ("-10256", "-10256"),
        ("-012344", "-0"),
        // Parse real (with fraction)
        ("1.000", "1.000"),
        ("1.7b", "1.7"),
    ];
    for (input, expected) in datas {
        let mut parser = Parser::new(input.as_bytes());
        let mut out = Vec::new();
        parser.parse_number(&mut out).unwrap();
        assert_eq!(out, expected.as_bytes());
    }
}

#[test]
fn parser_parse_number_failed() {
    let datas = ["1.", "78980.a", "abc"];
    for input in datas {
        let mut parser = Parser::new(input.as_bytes());
        let mut out = Vec::new();
        let result = parser.parse_number(&mut out);
        assert!(result.is_err());
    }
}

#[test]
fn parser_layout() {
    assert_eq!(print(b"{}").unwrap(), "{\n}");
    assert_eq!(print(b"[ ]").unwrap(), "[\n]");
    assert_eq!(print(b"{\"a\":1}").unwrap(), "{\n  \"a\": 1}");
    assert_eq!(print(b" [1, [true,null], \"x\"] ").unwrap(), "[\n  1,\n  [\n    true,\n    null  ],\n  \"x\"]");
}

#[test]
fn parser_errors() {
    assert_eq!(print(b"[1,]").unwrap_err(), ParseError::InvalidByte(b']'));
    assert_eq!(print(b"[1").unwrap_err(), ParseError::Eof);
    assert_eq!(print(b"1 2").unwrap_err(), ParseError::InvalidByte(b'2'));
    assert_eq!(print(b"\"\\x\"").unwrap_err(), ParseError::InvalidEscape(b'x'));
    assert_eq!(print(b"\"\\u12z4\"").unwrap_err(), ParseError::InvalidByte(b'z'));
    assert_eq!(print(b"\"\x01\"").unwrap_err(), ParseError::InvalidByte(1));
    assert_eq!(print(b"\"\xff\"").unwrap_err(), ParseError::InvalidUtf8);
    assert_eq!(print(b"\"\xe2\x82\"").unwrap_err(), ParseError::InvalidUtf8);
    assert_eq!(print(b"\"\xe2\x82").unwrap_err(), ParseError::Eof);
}

#[test]
fn parser_utf8_rules() {
    // Overlong forms pass; surrogates and values above U+10FFFF do not.
    let mut parser = Parser::new(b"\"\xc0\x80\"");
    let mut out = Vec::new();
    parser.parse(&mut out).unwrap();
    assert_eq!(out, b"\"\xc0\x80\"");
    assert_eq!(print(b"\"\xed\xa0\x80\"").unwrap_err(), ParseError::InvalidUtf8);
    assert_eq!(print(b"\"\xf4\x90\x80\x80\"").unwrap_err(), ParseError::InvalidUtf8);
    assert_eq!(print("\"é€😀\"".as_bytes()).unwrap(), "\"é€😀\"");
}
