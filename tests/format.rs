use pretty::{BytePos, Color, FormatError, Formatter};

fn pretty(input: &[u8], color: Color) -> Result<String, FormatError> {
    let mut formatter = Formatter::new(input, color);
    let mut out = Vec::new();
    formatter.format(&mut out)?;
    Ok(String::from_utf8(out).unwrap())
}

#[test]
fn format_parse_number_ok() {
    let datas = [
        // Parse some integers
        ("1234xxxx", "1234"),
        ("42", "42"),
        (
            "1233456787766677889778998789988",
            "1233456787766677889778998789988",
        ),
        ("0000", "0"),
        ("0", "0"),
        ("-0", "-0"),
        ("012345", "0"),
        ("0abcdef", "0"),
        ("-10256", "-10256"),
        ("-012344", "-0"),
        // Parse real (with fraction)
        ("1.000", "1.000"),
        ("1.7b", "1.7"),
    ];
    for (input, expected) in datas {
        let mut formatter = Formatter::new(input.as_bytes(), Color::NoColor);
        let mut out = Vec::new();
        formatter.parse_number(&mut out).unwrap();
        assert_eq!(out, expected.as_bytes());
    }
}

#[test]
fn format_parse_number_failed() {
    let datas = ["1.", "78980.a", "abc"];
    for input in datas {
        let mut formatter = Formatter::new(input.as_bytes(), Color::NoColor);
        let mut out = Vec::new();
        let result = formatter.parse_number(&mut out);
        assert!(result.is_err());
    }
}

fn assert_against_std(bytes: &[u8], len: usize) {
    // The whole buffer goes to the formatter, trailing bytes included.
    let mut formatter = Formatter::new(bytes, Color::NoColor);
    let ret = formatter.next_utf8_char();

    // std sees the buffer without them.
    match std::str::from_utf8(&bytes[..len]) {
        Ok(str) => {
            assert!(ret.is_ok());
            assert_eq!(formatter.position().0, len);
            let out = &bytes[..formatter.position().0];
            assert_eq!(out, str.as_bytes());
        }
        Err(_) => {
            assert!(ret.is_err());
        }
    }
}

#[test]
fn try_read_one_byte_to_utf8() {
    // Every first byte, even invalid ones.
    for b in 0x00..=0xFF {
        let bytes = [b, b'x', b'x', b'x'];
        assert_against_std(&bytes, 1);
    }
}

#[test]
fn try_read_two_bytes_to_utf8() {
    // All of C0..=DF 80..=BF, overlong forms included.
    for b1 in 0xC0..=0xDF {
        for b2 in 0x80..=0xBF {
            let bytes = [b1, b2, b'x', b'x', b'x'];
            assert_against_std(&bytes, 2);
        }
    }
}

#[test]
fn try_read_three_bytes_to_utf8() {
    for b1 in 0xF0..=0xF7 {
        for b2 in 0x80..=0xBF {
            for b3 in 0x80..=0xBF {
                let bytes = [b1, b2, b3, b'x', b'x', b'x'];
                assert_against_std(&bytes, 3);
            }
        }
    }
}

#[test]
fn try_read_four_bytes_to_utf8() {
    // All of F0..=F7 80..=BF 80..=BF 80..=BF, overlong forms included.
    for b1 in 0xF0..=0xF7 {
        for b2 in 0x80..=0xBF {
            for b3 in 0x80..=0xBF {
                for b4 in 0x80..=0xBF {
                    let bytes = [b1, b2, b3, b4, b'x', b'x', b'x'];
                    assert_against_std(&bytes, 4);
                }
            }
        }
    }
}

#[test]
fn format_demo_string() {
    let input = r#"{"strings":{"english":"Hello, world!","chinese":"你好，世界","japanese":"こんにちは世界","korean":"안녕하세요 세계","arabic":"مرحبا بالعالم","hindi":"नमस्ते दुनिया","russian":"Привет, мир","greek":"Γειά σου Κόσμε","hebrew":"שלום עולם","accented":"Curaçao, naïve, façade, jalapeño"},"numbers":{"zero":0,"positive_int":42,"negative_int":-42,"large_int":1234567890123456789,"small_float":0.000123,"negative_float":-3.14159,"large_float":1.7976931348623157e308,"smallest_float":5e-324,"sci_notation_positive":6.022e23,"sci_notation_negative":-2.99792458e8},"booleans":{"isActive":true,"isDeleted":false},"emojis":{"happy":"😀","sad":"😢","fire":"🔥","rocket":"🚀","earth":"🌍","heart":"❤️","multi":"👩‍💻🧑🏽‍🚀👨‍👩‍👧‍👦"},"nothing":null}"#;
    let mut formatter = Formatter::new(input.as_bytes(), Color::NoColor);
    let mut out = Vec::new();
    formatter.format(&mut out).unwrap();
    assert_eq!(String::from_utf8(out).unwrap(), r#"{
  "strings": {
    "english": "Hello, world!",
    "chinese": "你好，世界",
    "japanese": "こんにちは世界",
    "korean": "안녕하세요 세계",
    "arabic": "مرحبا بالعالم",
    "hindi": "नमस्ते दुनिया",
    "russian": "Привет, мир",
    "greek": "Γειά σου Κόσμε",
    "hebrew": "שלום עולם",
    "accented": "Curaçao, naïve, façade, jalapeño"
  },
  "numbers": {
    "zero": 0,
    "positive_int": 42,
    "negative_int": -42,
    "large_int": 1234567890123456789,
    "small_float": 0.000123,
    "negative_float": -3.14159,
    "large_float": 1.7976931348623157e308,
    "smallest_float": 5e-324,
    "sci_notation_positive": 6.022e23,
    "sci_notation_negative": -2.99792458e8
  },
  "booleans": {
    "isActive": true,
    "isDeleted": false
  },
  "emojis": {
    "happy": "😀",
    "sad": "😢",
    "fire": "🔥",
    "rocket": "🚀",
    "earth": "🌍",
    "heart": "❤️",
    "multi": "👩‍💻🧑🏽‍🚀👨‍👩‍👧‍👦"
  },
  "nothing": null
}"#)
}
