//! What the formatter writes for each token, plain or wrapped in ANSI colours.
use vstd::prelude::*;
use crate::grammar::{COLON, COMMA, ESC, LBRACE, LBRACKET, LF, LOWER_M, RBRACE, RBRACKET, SEMICOLON, SPACE, ZERO};

verus! {

/// Whether tokens are wrapped in ANSI escape codes.
#[derive(Debug, Copy, Clone, PartialEq, Eq, Structural)]
pub enum Color {
    NoColor,
    AnsiCode,
}

/// The category of a token, which decides its colour.
#[derive(Debug, Copy, Clone, PartialEq, Eq, Structural)]
pub enum Style {
    Punct,
    Key,
    Str,
    Num,
    Bool,
    Null,
}

/// The three digits of the SGR code `ESC [ a ; b c m` that opens a style.
pub open spec fn sgr_digits(st: Style) -> (u8, u8, u8) {
    match st {
        Style::Punct => (0x31, 0x33, 0x39),
        Style::Key => (0x31, 0x33, 0x34),
        Style::Str => (0x30, 0x33, 0x32),
        Style::Num => (0x30, 0x33, 0x36),
        Style::Bool => (0x30, 0x33, 0x33),
        Style::Null => (0x30, 0x33, 0x35),
    }
}

pub open spec fn style_open(st: Style) -> Seq<u8> {
    let (a, b, c) = sgr_digits(st);
    seq![ESC, LBRACKET, a, SEMICOLON, b, c, LOWER_M]
}

/// `ESC [ 0 m`: back to the terminal's defaults.
pub open spec fn style_reset() -> Seq<u8> {
    seq![ESC, LBRACKET, ZERO, LOWER_M]
}

/// `text` as written in colour mode `c` for a token of style `st`.
pub open spec fn wrapped(c: Color, st: Style, text: Seq<u8>) -> Seq<u8> {
    match c {
        Color::NoColor => text,
        Color::AnsiCode => style_open(st) + text + style_reset(),
    }
}

pub open spec fn opener(obj: bool) -> u8 {
    if obj {
        LBRACE
    } else {
        LBRACKET
    }
}

pub open spec fn closer(obj: bool) -> u8 {
    if obj {
        RBRACE
    } else {
        RBRACKET
    }
}

/// `{}` or `[]`.
pub open spec fn empty_tok(c: Color, obj: bool) -> Seq<u8> {
    wrapped(c, Style::Punct, seq![opener(obj), closer(obj)])
}

/// The opener of a non-empty container and its line break.
pub open spec fn begin_tok(c: Color, obj: bool) -> Seq<u8> {
    wrapped(c, Style::Punct, seq![opener(obj)]) + seq![LF]
}

pub open spec fn end_tok(c: Color, obj: bool) -> Seq<u8> {
    wrapped(c, Style::Punct, seq![closer(obj)])
}

/// The comma between two members and its line break.
pub open spec fn value_sep_tok(c: Color) -> Seq<u8> {
    wrapped(c, Style::Punct, seq![COMMA]) + seq![LF]
}

/// The colon after a key and its space.
pub open spec fn name_sep_tok(c: Color) -> Seq<u8> {
    wrapped(c, Style::Punct, seq![COLON]) + seq![SPACE]
}

/// Two spaces per level.
pub open spec fn indent(level: nat) -> Seq<u8> {
    Seq::new(2 * level, |i: int| SPACE)
}

} // verus!
