use pretty::{BytePos, Color, FormatError, Formatter};

fn run(input: &[u8], color: Color) -> Result<String, FormatError> {
    let mut formatter = Formatter::new(input, color);
    let mut out = Vec::new();
    formatter.format(&mut out)?;
    Ok(String::from_utf8(out).unwrap())
}

fn plain(input: &str) -> Result<String, FormatError> {
    run(input.as_bytes(), Color::NoColor)
}

#[test]
fn empty_containers_stay_compact() {
    assert_eq!(plain("{}").unwrap(), "{}");
    assert_eq!(plain("[]").unwrap(), "[]");
    assert_eq!(plain(" { \n } ").unwrap(), "{}");
    assert_eq!(plain("[ [ ] , { } ]").unwrap(), "[\n  [],\n  {}\n]");
}

#[test]
fn one_member_per_line() {
    assert_eq!(plain("{\"a\":1}").unwrap(), "{\n  \"a\": 1\n}");
    assert_eq!(
        plain("{\"a\":[1,{\"b\":null}],\"c\":false}").unwrap(),
        "{\n  \"a\": [\n    1,\n    {\n      \"b\": null\n    }\n  ],\n  \"c\": false\n}"
    );
}

#[test]
fn formatting_twice_changes_nothing() {
    let inputs = [
        "{\"a\":[1,2.5e-3,{\"b\":\"x\\ny\"}],\"c\":{},\"d\":[]}",
        "[true,false,null,\"\\u00e9\",-0]",
        "\"alone\"",
    ];
    for input in inputs {
        let once = plain(input).unwrap();
        let twice = plain(&once).unwrap();
        assert_eq!(once, twice);
    }
}

#[test]
fn nesting_is_capped() {
    let deep = "[".repeat(101);
    match plain(&deep) {
        Err(FormatError::MaxIndentLevel(level, _)) => assert_eq!(level, 100),
        other => panic!("unexpected {:?}", other),
    }
    let ok = format!("{}1{}", "[".repeat(100), "]".repeat(100));
    assert!(plain(&ok).is_ok());
    let too_deep = format!("{}1{}", "[".repeat(101), "]".repeat(101));
    assert!(matches!(plain(&too_deep), Err(FormatError::MaxIndentLevel(100, BytePos(101)))));
}

#[test]
fn raw_newline_in_string_is_rejected() {
    assert!(matches!(plain("\"a\nb\""), Err(FormatError::InvalidByte(0x0a, BytePos(2)))));
    assert_eq!(plain("\"a\\nb\"").unwrap(), "\"a\\nb\"");
}

#[test]
fn trailing_content_is_rejected() {
    assert!(matches!(plain("1 x"), Err(FormatError::InvalidByte(b'x', BytePos(2)))));
    assert!(matches!(plain("truex"), Err(FormatError::InvalidByte(b'x', BytePos(4)))));
    assert!(matches!(plain("012"), Err(FormatError::InvalidByte(b'1', BytePos(1)))));
    assert_eq!(plain(" \t\r\n42 \n").unwrap(), "42");
}

#[test]
fn each_error_kind() {
    assert!(matches!(plain("[1,"), Err(FormatError::Eof)));
    assert!(matches!(plain(""), Err(FormatError::Eof)));
    assert!(matches!(plain("1."), Err(FormatError::Eof)));
    assert!(matches!(plain("[1,]"), Err(FormatError::InvalidByte(b']', BytePos(3)))));
    assert!(matches!(plain("[1 2]"), Err(FormatError::InvalidByte(b'2', BytePos(3)))));
    assert!(matches!(plain("{\"a\" 1}"), Err(FormatError::InvalidByte(b'1', BytePos(5)))));
    assert!(matches!(plain("tru"), Err(FormatError::Eof)));
    assert!(matches!(plain("nul1"), Err(FormatError::InvalidByte(b'1', BytePos(3)))));
    assert!(matches!(plain("\"\\q\""), Err(FormatError::InvalidEscape(b'q', BytePos(2)))));
    assert!(matches!(plain("\"\\u00g9\""), Err(FormatError::InvalidByte(b'g', BytePos(5)))));
    match run(b"\"\xc0\x80\"", Color::NoColor) {
        Err(FormatError::InvalidUtf8(bytes, 2, BytePos(1))) => assert_eq!(bytes, [0xc0, 0x80, 0, 0]),
        other => panic!("unexpected {:?}", other),
    }
    match run(b"\"\xed\xa0\x80\"", Color::NoColor) {
        Err(FormatError::InvalidUtf8(bytes, 3, BytePos(1))) => assert_eq!(bytes, [0xed, 0xa0, 0x80, 0]),
        other => panic!("unexpected {:?}", other),
    }
    match run(b"\"\xf4\x90\x80\x80\"", Color::NoColor) {
        Err(FormatError::InvalidUtf8(bytes, 4, BytePos(1))) => assert_eq!(bytes, [0xf4, 0x90, 0x80, 0x80]),
        other => panic!("unexpected {:?}", other),
    }
}

#[test]
fn byte_order_mark_is_skipped() {
    assert_eq!(run(b"\xef\xbb\xbf [1]", Color::NoColor).unwrap(), "[\n  1\n]");
}

#[test]
fn strings_and_numbers_are_verbatim() {
    assert_eq!(plain("[\"\\u00E9\\/\",1.5E+10,-0.0e-0]").unwrap(), "[\n  \"\\u00E9\\/\",\n  1.5E+10,\n  -0.0e-0\n]");
    assert_eq!(plain("\"é😀\"").unwrap(), "\"é😀\"");
}

#[test]
fn colours_wrap_each_token() {
    let out = run(b"{\"k\":[true,null,1,\"s\"],\"e\":{}}", Color::AnsiCode).unwrap();
    let expected = [
        "\x1b[1;39m{\x1b[0m\n",
        "  \x1b[1;34m\"k\"\x1b[0m\x1b[1;39m:\x1b[0m \x1b[1;39m[\x1b[0m\n",
        "    \x1b[0;33mtrue\x1b[0m\x1b[1;39m,\x1b[0m\n",
        "    \x1b[0;35mnull\x1b[0m\x1b[1;39m,\x1b[0m\n",
        "    \x1b[0;36m1\x1b[0m\x1b[1;39m,\x1b[0m\n",
        "    \x1b[0;32m\"s\"\x1b[0m\n",
        "  \x1b[1;39m]\x1b[0m\x1b[1;39m,\x1b[0m\n",
        "  \x1b[1;34m\"e\"\x1b[0m\x1b[1;39m:\x1b[0m \x1b[1;39m{}\x1b[0m\n",
        "\x1b[1;39m}\x1b[0m",
    ]
    .join("");
    assert_eq!(out, expected);
}

#[test]
fn number_scanner_stops_at_first_foreign_byte() {
    let mut formatter = Formatter::new(b"1234xxxx", Color::NoColor);
    let mut out = Vec::new();
    formatter.parse_number(&mut out).unwrap();
    assert_eq!(out, b"1234");
    assert_eq!(formatter.position().0, 4);
    let mut formatter = Formatter::new(b"012345", Color::NoColor);
    let mut out = Vec::new();
    formatter.parse_number(&mut out).unwrap();
    assert_eq!(out, b"0");
    assert_eq!(formatter.position().0, 1);
    let mut formatter = Formatter::new(b"-", Color::NoColor);
    let mut out = Vec::new();
    assert!(matches!(formatter.parse_number(&mut out), Err(FormatError::Eof)));
    let mut formatter = Formatter::new(b"1e+x", Color::AnsiCode);
    let mut out = Vec::new();
    assert!(matches!(formatter.parse_number(&mut out), Err(FormatError::InvalidByte(b'x', BytePos(3)))));
}

#[test]
fn success_consumes_the_whole_input() {
    let input = b"\n {\"a\" : [ 1 , 2 ] } \t";
    let mut formatter = Formatter::new(input, Color::NoColor);
    let mut out = Vec::new();
    formatter.format(&mut out).unwrap();
    assert_eq!(formatter.position().0, input.len());
    assert_eq!(String::from_utf8(out).unwrap(), "{\n  \"a\": [\n    1,\n    2\n  ]\n}");
}

#[test]
fn pretty_output_formats_to_itself() {
    let input = "{\"strings\":{\"e\":\"Hello, world!\",\"c\":\"你好\"},\"numbers\":[0,-42,1.7976931348623157e308,5e-324],\"b\":[true,false],\"n\":null,\"x\":{},\"y\":[[]]}";
    let once = plain(input).unwrap();
    assert_eq!(plain(&once).unwrap(), once);
}
