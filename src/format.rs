//! The formatter: one pass over the input bytes that checks the JSON grammar
//! and writes the document again, indented and optionally coloured.
use vstd::prelude::*;
use crate::grammar::{
    BACKSLASH, COLON, COMMA, CR, DOT, ESC, LBRACE, LBRACKET, LF, LOWER_A, LOWER_B, LOWER_E, LOWER_F,
    LOWER_L, LOWER_M, LOWER_N, LOWER_R, LOWER_S, LOWER_T, LOWER_U, MINUS, NINE, PLUS, QUOTE, RBRACE,
    RBRACKET, SEMICOLON, SLASH, SPACE, TAB, UPPER_A, UPPER_E, UPPER_F, ZERO, digits_end, exp_part,
    false_bytes, four_byte_head, frac_part, hex4_fault, int_part, is_cont, is_hex, literal_fault,
    null_bytes, number_end, three_byte_head, true_bytes, ws_len,
};
use crate::style::{
    Color, Style, begin_tok, empty_tok, end_tok, indent, name_sep_tok, sgr_digits,
    style_open, style_reset, value_sep_tok, wrapped,
};
use crate::document::{
    MAX_INDENT_LEVEL, bom_len, lemma_prefixed_prefixed, container, error_at, formatted, literal, member,
    members_first, members_rest, prefixed, string_end, string_rest, utf8_end, value,
};

verus! {

/// A byte offset into the input.
#[derive(Debug, Copy, Clone, PartialEq, Eq, Structural)]
pub struct BytePos(pub usize);

/// Why formatting stopped.
#[derive(Debug, Copy, Clone)]
pub enum FormatError {
    /// The input ended inside a value.
    Eof,
    /// This byte, at this offset, breaks the grammar.
    InvalidByte(u8, BytePos),
    /// These bytes (the first `usize` of them), from this offset, are no UTF-8 scalar value.
    InvalidUtf8([u8; 4], usize, BytePos),
    /// This byte, at this offset, follows a backslash and starts no escape.
    InvalidEscape(u8, BytePos),
    /// Containers nest deeper than the limit; the level reached and the offset.
    MaxIndentLevel(usize, BytePos),
}

} // verus!

verus! {

/// Whether a string is an object key or a value; only its colour differs.
#[derive(Debug, Copy, Clone, PartialEq, Eq, Structural)]
pub enum StringMode {
    Key,
    Value,
}

pub open spec fn mode_style(mode: StringMode) -> Style {
    match mode {
        StringMode::Key => Style::Key,
        StringMode::Value => Style::Str,
    }
}

/// A JSON pretty-printer over a byte buffer. It checks the grammar (UTF-8 in
/// strings included) as it goes and copies strings and numbers verbatim.
pub struct Formatter<'input> {
    /// The JSON input bytes.
    input: &'input [u8],
    /// Cursor position.
    pos: BytePos,
    /// Current nesting of non-empty containers, at most `MAX_INDENT_LEVEL`.
    level: usize,
    color: Color,
}

/// The state of a formatter: input, cursor, nesting level and colour mode.
pub struct FormatterView {
    pub input: Seq<u8>,
    pub pos: int,
    pub level: nat,
    pub color: Color,
}

impl FormatterView {
    pub open spec fn wf(self) -> bool {
        0 <= self.pos <= self.input.len() && self.level <= MAX_INDENT_LEVEL
    }

    /// The byte under the cursor.
    pub open spec fn peek(self) -> Option<u8> {
        if 0 <= self.pos < self.input.len() {
            Some(self.input[self.pos])
        } else {
            None
        }
    }

    /// `prev` with the cursor moved to `pos` and nothing else changed.
    pub open spec fn at(self, prev: Self, pos: int) -> bool {
        &&& self.input == prev.input
        &&& self.color == prev.color
        &&& self.level == prev.level
        &&& self.pos == pos
    }

    /// Well formed, with `prev`'s input and colour and the cursor no further back.
    pub open spec fn after(self, prev: Self) -> bool {
        &&& self.wf()
        &&& self.input == prev.input
        &&& self.color == prev.color
        &&& prev.pos <= self.pos
    }
}

impl<'input> View for Formatter<'input> {
    type V = FormatterView;

    closed spec fn view(&self) -> FormatterView {
        FormatterView {
            input: self.input@,
            pos: self.pos.0 as int,
            level: self.level as nat,
            color: self.color,
        }
    }
}

fn is_hex_digit(b: u8) -> (r: bool)
    ensures
        r == is_hex(b),
{
    (ZERO <= b && b <= NINE) || (UPPER_A <= b && b <= UPPER_F) || (LOWER_A <= b && b <= LOWER_F)
}

impl<'input> Formatter<'input> {
    pub fn new(input: &'input [u8], color: Color) -> (r: Self)
        ensures
            r@ == (FormatterView { input: input@, pos: 0, level: 0, color }),
    {
        Formatter { input, pos: BytePos(0), level: 0, color }
    }

    /// The cursor: the offset of the next byte to read.
    pub fn position(&self) -> (r: BytePos)
        ensures
            r.0 == self@.pos,
    {
        self.pos
    }

    fn peek_byte(&self) -> (r: Option<u8>)
        requires
            self@.wf(),
        ensures
            r == self@.peek(),
    {
        if self.pos.0 < self.input.len() {
            Some(self.input[self.pos.0])
        } else {
            None
        }
    }

    fn next_byte(&mut self) -> (r: Option<u8>)
        requires
            old(self)@.wf(),
        ensures
            final(self)@.wf(),
            r == old(self)@.peek(),
            final(self)@.at(old(self)@, if r is Some { old(self)@.pos + 1 } else { old(self)@.pos }),
    {
        if self.pos.0 < self.input.len() {
            let b = self.input[self.pos.0];
            self.pos.0 = self.pos.0 + 1;
            Some(b)
        } else {
            None
        }
    }

    /// Consumes `expected`, or fails on the byte that stands in its place.
    fn expect_byte(&mut self, expected: u8) -> (r: Result<(), FormatError>)
        requires
            old(self)@.wf(),
        ensures
            final(self)@.after(old(self)@),
            final(self)@.level == old(self)@.level,
            if old(self)@.peek() == Some(expected) {
                r is Ok && final(self)@.at(old(self)@, old(self)@.pos + 1)
            } else {
                r == Err::<(), FormatError>(error_at(old(self)@.input, old(self)@.pos))
            },
    {
        match self.next_byte() {
            Some(b) => {
                if b == expected {
                    Ok(())
                } else {
                    Err(FormatError::InvalidByte(b, BytePos(self.pos.0 - 1)))
                }
            },
            None => Err(FormatError::Eof),
        }
    }

    fn skip_whitespace(&mut self)
        requires
            old(self)@.wf(),
        ensures
            final(self)@.wf(),
            final(self)@.at(old(self)@, old(self)@.pos + ws_len(old(self)@.input, old(self)@.pos)),
            final(self)@.pos <= final(self)@.input.len(),
    {
        let ghost s = self@.input;
        let ghost p0 = self@.pos;
        loop
            invariant
                self@.wf(),
                self@.at(old(self)@, self@.pos),
                s == old(self)@.input,
                p0 == old(self)@.pos,
                p0 <= self@.pos,
                ws_len(s, p0) == (self@.pos - p0) + ws_len(s, self@.pos),
            decreases s.len() - self@.pos,
        {
            if self.pos.0 < self.input.len() {
                let b = self.input[self.pos.0];
                if b == SPACE || b == LF || b == CR || b == TAB {
                    self.pos.0 = self.pos.0 + 1;
                } else {
                    return;
                }
            } else {
                return;
            }
        }
    }

    /// Consumes a run of digits.
    fn skip_digits(&mut self)
        requires
            old(self)@.wf(),
        ensures
            final(self)@.wf(),
            final(self)@.at(old(self)@, digits_end(old(self)@.input, old(self)@.pos)),
            old(self)@.pos <= final(self)@.pos,
    {
        let ghost s = self@.input;
        let ghost p0 = self@.pos;
        loop
            invariant
                self@.wf(),
                self@.at(old(self)@, self@.pos),
                s == old(self)@.input,
                p0 == old(self)@.pos,
                p0 <= self@.pos,
                digits_end(s, p0) == digits_end(s, self@.pos),
            decreases s.len() - self@.pos,
        {
            if self.pos.0 < self.input.len() {
                let b = self.input[self.pos.0];
                if ZERO <= b && b <= NINE {
                    self.pos.0 = self.pos.0 + 1;
                } else {
                    return;
                }
            } else {
                return;
            }
        }
    }

    /// `int = 0 | [1-9][0-9]*`
    fn parse_integer(&mut self) -> (r: Result<(), FormatError>)
        requires
            old(self)@.wf(),
        ensures
            final(self)@.after(old(self)@),
            final(self)@.level == old(self)@.level,
            r is Ok ==> final(self)@.pos > old(self)@.pos,
            match int_part(old(self)@.input, old(self)@.pos) {
                Ok(e) => r is Ok && final(self)@.pos == e,
                Err(q) => r == Err::<(), FormatError>(error_at(old(self)@.input, q)),
            },
    {
        match self.peek_byte() {
            Some(b) => {
                if b == ZERO {
                    self.next_byte();
                    Ok(())
                } else if ZERO < b && b <= NINE {
                    self.next_byte();
                    self.skip_digits();
                    Ok(())
                } else {
                    Err(FormatError::InvalidByte(b, self.pos))
                }
            },
            None => Err(FormatError::Eof),
        }
    }

    /// `frac = [. [0-9]+]?`
    fn parse_fraction(&mut self) -> (r: Result<(), FormatError>)
        requires
            old(self)@.wf(),
        ensures
            final(self)@.after(old(self)@),
            final(self)@.level == old(self)@.level,
            match frac_part(old(self)@.input, old(self)@.pos) {
                Ok(e) => r is Ok && final(self)@.pos == e,
                Err(q) => r == Err::<(), FormatError>(error_at(old(self)@.input, q)),
            },
    {
        if self.peek_byte() == Some(DOT) {
            self.next_byte();
            match self.peek_byte() {
                Some(b) => {
                    if ZERO <= b && b <= NINE {
                        self.next_byte();
                        self.skip_digits();
                    } else {
                        return Err(FormatError::InvalidByte(b, self.pos));
                    }
                },
                None => {
                    return Err(FormatError::Eof);
                },
            }
        }
        Ok(())
    }

    /// `exp = [(e|E) [+|-]? [0-9]+]?`
    fn parse_exponent(&mut self) -> (r: Result<(), FormatError>)
        requires
            old(self)@.wf(),
        ensures
            final(self)@.after(old(self)@),
            final(self)@.level == old(self)@.level,
            match exp_part(old(self)@.input, old(self)@.pos) {
                Ok(e) => r is Ok && final(self)@.pos == e,
                Err(q) => r == Err::<(), FormatError>(error_at(old(self)@.input, q)),
            },
    {
        let b = self.peek_byte();
        if b == Some(LOWER_E) || b == Some(UPPER_E) {
            self.next_byte();
            let sign = self.peek_byte();
            if sign == Some(PLUS) || sign == Some(MINUS) {
                self.next_byte();
            }
            match self.peek_byte() {
                Some(d) => {
                    if ZERO <= d && d <= NINE {
                        self.next_byte();
                        self.skip_digits();
                        Ok(())
                    } else {
                        Err(FormatError::InvalidByte(d, self.pos))
                    }
                },
                None => Err(FormatError::Eof),
            }
        } else {
            Ok(())
        }
    }
}


/// Structure: values, containers and the whole document.
impl<'input> Formatter<'input> {
    /// Formats the whole input: an optional byte-order mark, whitespace, one
    /// value, whitespace, and the end of the input.
    pub fn format(&mut self, out: &mut Vec<u8>) -> (r: Result<(), FormatError>)
        ensures
            final(self)@.wf(),
            final(self)@.input == old(self)@.input,
            final(self)@.color == old(self)@.color,
            match formatted(old(self)@.input, old(self)@.color) {
                Ok(o) => {
                    &&& r is Ok
                    &&& final(out)@ == old(out)@ + o
                    &&& final(self)@.pos == old(self)@.input.len()
                },
                Err(e) => r == Err::<(), FormatError>(e),
            },
    {
        self.pos = BytePos(0);
        self.level = 0;
        self.skip_start_bom();
        self.skip_whitespace();
        self.parse_value(out)?;
        self.skip_whitespace();
        match self.peek_byte() {
            Some(b) => Err(FormatError::InvalidByte(b, self.pos)),
            None => Ok(()),
        }
    }

    /// Skips a byte-order mark at the start of the input.
    fn skip_start_bom(&mut self)
        requires
            old(self)@.wf(),
            old(self)@.pos == 0,
        ensures
            final(self)@.wf(),
            final(self)@.at(old(self)@, bom_len(old(self)@.input)),
    {
        if self.input.len() < 3 {
            return;
        }
        if self.input[0] == 0xef && self.input[1] == 0xbb && self.input[2] == 0xbf {
            self.pos.0 = 3;
        }
    }

    fn inc_level(&mut self) -> (r: Result<(), FormatError>)
        requires
            old(self)@.wf(),
        ensures
            final(self)@.wf(),
            if old(self)@.level >= MAX_INDENT_LEVEL {
                &&& r == Err::<(), FormatError>(
                    FormatError::MaxIndentLevel(old(self)@.level as usize, BytePos(old(self)@.pos as usize)),
                )
                &&& final(self)@ == old(self)@
            } else {
                &&& r is Ok
                &&& final(self)@ == (FormatterView { level: old(self)@.level + 1, ..old(self)@ })
            },
    {
        if self.level >= MAX_INDENT_LEVEL {
            return Err(FormatError::MaxIndentLevel(self.level, self.pos));
        }
        self.level = self.level + 1;
        Ok(())
    }

    fn dec_level(&mut self)
        requires
            old(self)@.wf(),
            old(self)@.level > 0,
        ensures
            final(self)@.wf(),
            final(self)@ == (FormatterView { level: (old(self)@.level - 1) as nat, ..old(self)@ }),
    {
        self.level = self.level - 1;
    }

    /// Scans the value under the cursor and writes it.
    fn parse_value(&mut self, out: &mut Vec<u8>) -> (r: Result<(), FormatError>)
        requires
            old(self)@.wf(),
        ensures
            final(self)@.after(old(self)@),
            r is Ok ==> final(self)@.pos > old(self)@.pos,
            match value(old(self)@.input, old(self)@.pos, old(self)@.level, old(self)@.color) {
                Ok((k, o)) => {
                    &&& r is Ok
                    &&& final(self)@.at(old(self)@, old(self)@.pos + k)
                    &&& final(out)@ == old(out)@ + o
                },
                Err(e) => r == Err::<(), FormatError>(e),
            },
        decreases MAX_INDENT_LEVEL - self.level, 2int,
    {
        match self.peek_byte() {
            Some(b) => {
                if b == QUOTE {
                    self.parse_string(out, StringMode::Value)
                } else if b == MINUS || (ZERO <= b && b <= NINE) {
                    self.parse_number(out)
                } else if b == LBRACE {
                    self.parse_object(out)
                } else if b == LBRACKET {
                    self.parse_array(out)
                } else if b == LOWER_T {
                    self.parse_true(out)
                } else if b == LOWER_F {
                    self.parse_false(out)
                } else if b == LOWER_N {
                    self.parse_null(out)
                } else {
                    Err(FormatError::InvalidByte(b, self.pos))
                }
            },
            None => Err(FormatError::Eof),
        }
    }

    fn parse_object(&mut self, out: &mut Vec<u8>) -> (r: Result<(), FormatError>)
        requires
            old(self)@.wf(),
        ensures
            final(self)@.after(old(self)@),
            r is Ok ==> final(self)@.pos > old(self)@.pos,
            match container(old(self)@.input, old(self)@.pos, old(self)@.level, old(self)@.color, true) {
                Ok((k, o)) => {
                    &&& r is Ok
                    &&& final(self)@.at(old(self)@, old(self)@.pos + k)
                    &&& final(out)@ == old(out)@ + o
                },
                Err(e) => r == Err::<(), FormatError>(e),
            },
        decreases MAX_INDENT_LEVEL - self.level, 1int,
    {
        self.parse_container(out, true)
    }

    fn parse_array(&mut self, out: &mut Vec<u8>) -> (r: Result<(), FormatError>)
        requires
            old(self)@.wf(),
        ensures
            final(self)@.after(old(self)@),
            r is Ok ==> final(self)@.pos > old(self)@.pos,
            match container(old(self)@.input, old(self)@.pos, old(self)@.level, old(self)@.color, false) {
                Ok((k, o)) => {
                    &&& r is Ok
                    &&& final(self)@.at(old(self)@, old(self)@.pos + k)
                    &&& final(out)@ == old(out)@ + o
                },
                Err(e) => r == Err::<(), FormatError>(e),
            },
        decreases MAX_INDENT_LEVEL - self.level, 1int,
    {
        self.parse_container(out, false)
    }

    /// Scans an object (`obj`) or an array: the empty one in compact form, any
    /// other with one member per line, one level deeper.
    fn parse_container(&mut self, out: &mut Vec<u8>, obj: bool) -> (r: Result<(), FormatError>)
        requires
            old(self)@.wf(),
        ensures
            final(self)@.after(old(self)@),
            r is Ok ==> final(self)@.pos > old(self)@.pos,
            match container(old(self)@.input, old(self)@.pos, old(self)@.level, old(self)@.color, obj) {
                Ok((k, o)) => {
                    &&& r is Ok
                    &&& final(self)@.at(old(self)@, old(self)@.pos + k)
                    &&& final(out)@ == old(out)@ + o
                },
                Err(e) => r == Err::<(), FormatError>(e),
            },
        decreases MAX_INDENT_LEVEL - self.level, 0int,
    {
        let open = if obj { LBRACE } else { LBRACKET };
        let close = if obj { RBRACE } else { RBRACKET };
        self.expect_byte(open)?;
        self.skip_whitespace();
        if self.peek_byte() == Some(close) {
            self.next_byte();
            if obj {
                self.write_empty_obj(out);
            } else {
                self.write_empty_arr(out);
            }
            return Ok(());
        }
        if obj {
            self.write_begin_obj(out);
        } else {
            self.write_begin_arr(out);
        }
        self.inc_level()?;
        let ghost mid = out@;
        self.parse_members(out, obj)?;
        assert(out@ =~= old(out)@ + (begin_tok(old(self)@.color, obj) + out@.subrange(mid.len() as int, out@.len() as int)));
        Ok(())
    }

    /// Scans the members of a non-empty container, from the first one under
    /// the cursor to the closer, and leaves the container's level.
    fn parse_members(&mut self, out: &mut Vec<u8>, obj: bool) -> (r: Result<(), FormatError>)
        requires
            old(self)@.wf(),
            old(self)@.level > 0,
        ensures
            final(self)@.after(old(self)@),
            r is Ok ==> final(self)@.pos > old(self)@.pos,
            match members_first(old(self)@.input, old(self)@.pos, old(self)@.level, old(self)@.color, obj) {
                Ok((k, o)) => {
                    &&& r is Ok
                    &&& final(self)@.pos == old(self)@.pos + k
                    &&& final(self)@.level == old(self)@.level - 1
                    &&& final(out)@ == old(out)@ + o
                },
                Err(e) => r == Err::<(), FormatError>(e),
            },
        decreases MAX_INDENT_LEVEL - self.level, 5int,
    {
        let ghost s = self@.input;
        let ghost p0 = self@.pos;
        let ghost l = self@.level;
        let ghost c = self@.color;
        self.write_indent(out);
        let ghost mid = out@;
        self.parse_member(out, obj)?;
        let ghost mut acc = indent(l) + out@.subrange(mid.len() as int, out@.len() as int);
        proof {
            if let Ok((k, o)) = member(s, p0, l, c, obj) {
                assert(out@.subrange(mid.len() as int, out@.len() as int) =~= o);
            }
        }
        assert(out@ =~= old(out)@ + acc);
        loop
            invariant
                self@.wf(),
                self@.input == s,
                self@.color == c,
                self@.level == l,
                s == old(self)@.input,
                c == old(self)@.color,
                l == old(self)@.level,
                p0 == old(self)@.pos,
                l > 0,
                p0 < self@.pos,
                out@ == old(out)@ + acc,
                members_first(s, p0, l, c, obj) == prefixed(
                    members_rest(s, self@.pos + ws_len(s, self@.pos), l, c, obj),
                    (self@.pos + ws_len(s, self@.pos) - p0) as nat,
                    acc,
                ),
            decreases s.len() - self@.pos,
        {
            let ghost p = self@.pos;
            let ghost before = out@;
            let closed = self.parse_next(out, obj)?;
            proof {
                let o = out@.subrange(before.len() as int, out@.len() as int);
                assert(out@ =~= before + o);
                let p1 = p + ws_len(s, p);
                let p2 = self@.pos + ws_len(s, self@.pos);
                lemma_prefixed_prefixed(
                    members_rest(s, p2, l, c, obj),
                    (p2 - p1) as nat,
                    o,
                    (p1 - p0) as nat,
                    acc,
                );
                acc = acc + o;
                assert(out@ =~= old(out)@ + acc);
            }
            if closed {
                return Ok(());
            }
        }
    }

    /// One step through the members of a container: either the closer, or a
    /// comma and the next member. Tells whether the container closed.
    fn parse_next(&mut self, out: &mut Vec<u8>, obj: bool) -> (r: Result<bool, FormatError>)
        requires
            old(self)@.wf(),
            old(self)@.level > 0,
        ensures
            final(self)@.after(old(self)@),
            ({
                let s = old(self)@.input;
                let p = old(self)@.pos + ws_len(s, old(self)@.pos);
                let rest = members_rest(s, p, old(self)@.level, old(self)@.color, obj);
                let o = final(out)@.subrange(old(out)@.len() as int, final(out)@.len() as int);
                match r {
                    Ok(true) => {
                        &&& final(self)@.pos == p + 1
                        &&& final(self)@.level == old(self)@.level - 1
                        &&& final(out)@ == old(out)@ + o
                        &&& rest == Ok::<(nat, Seq<u8>), FormatError>((1, o))
                    },
                    Ok(false) => {
                        let p2 = final(self)@.pos + ws_len(s, final(self)@.pos);
                        &&& p < final(self)@.pos
                        &&& final(self)@.level == old(self)@.level
                        &&& final(out)@ == old(out)@ + o
                        &&& rest == prefixed(
                            members_rest(s, p2, old(self)@.level, old(self)@.color, obj),
                            (p2 - p) as nat,
                            o,
                        )
                    },
                    Err(e) => rest == Err::<(nat, Seq<u8>), FormatError>(e),
                }
            }),
        decreases MAX_INDENT_LEVEL - self.level, 4int,
    {
        let ghost s = self@.input;
        let ghost l = self@.level;
        let ghost c = self@.color;
        let close = if obj { RBRACE } else { RBRACKET };
        self.skip_whitespace();
        let ghost p = self@.pos;
        if self.peek_byte() == Some(close) {
            self.next_byte();
            self.dec_level();
            self.write_ln(out);
            self.write_indent(out);
            if obj {
                self.write_end_obj(out);
            } else {
                self.write_end_arr(out);
            }
            let ghost o = seq![LF] + indent((l - 1) as nat) + end_tok(c, obj);
            assert(out@ =~= old(out)@ + o);
            assert(out@.subrange(old(out)@.len() as int, out@.len() as int) =~= o);
            return Ok(true);
        }
        self.expect_byte(COMMA)?;
        self.skip_whitespace();
        self.write_value_sep(out);
        self.write_indent(out);
        let ghost q = self@.pos;
        let ghost before = out@;
        self.parse_member(out, obj)?;
        proof {
            let m = out@.subrange(before.len() as int, out@.len() as int);
            assert(out@ =~= before + m);
            if let Ok((k, m2)) = member(s, q, l, c, obj) {
                assert(m =~= m2);
            }
            let o = value_sep_tok(c) + indent(l) + m;
            assert(out@ =~= old(out)@ + o);
            assert(out@.subrange(old(out)@.len() as int, out@.len() as int) =~= o);
        }
        Ok(false)
    }

    /// Scans one member of a container, nested `level` deep: `key: value` in
    /// an object, a value in an array.
    fn parse_member(&mut self, out: &mut Vec<u8>, obj: bool) -> (r: Result<(), FormatError>)
        requires
            old(self)@.wf(),
        ensures
            final(self)@.after(old(self)@),
            r is Ok ==> final(self)@.pos > old(self)@.pos,
            match member(old(self)@.input, old(self)@.pos, old(self)@.level, old(self)@.color, obj) {
                Ok((k, o)) => {
                    &&& r is Ok
                    &&& final(self)@.at(old(self)@, old(self)@.pos + k)
                    &&& final(out)@ == old(out)@ + o
                },
                Err(e) => r == Err::<(), FormatError>(e),
            },
        decreases MAX_INDENT_LEVEL - self.level, 3int,
    {
        if obj {
            let ghost before = out@;
            self.parse_string(out, StringMode::Key)?;
            self.skip_whitespace();
            self.expect_byte(COLON)?;
            self.write_name_sep(out);
            self.skip_whitespace();
            let ghost mid = out@;
            self.parse_value(out)?;
            assert(out@ =~= before + (mid.subrange(before.len() as int, mid.len() as int) + out@.subrange(mid.len() as int, out@.len() as int)));
            Ok(())
        } else {
            self.parse_value(out)
        }
    }
}

/// Scanners for strings, numbers and literals.
impl<'input> Formatter<'input> {
    /// Scans the number under the cursor (`[-]? int frac exp`) and writes it verbatim.
    pub fn parse_number(&mut self, out: &mut Vec<u8>) -> (r: Result<(), FormatError>)
        requires
            old(self)@.wf(),
        ensures
            final(self)@.after(old(self)@),
            final(self)@.level == old(self)@.level,
            r is Ok ==> final(self)@.pos > old(self)@.pos,
            match number_end(old(self)@.input, old(self)@.pos) {
                Ok(e) => {
                    &&& r is Ok
                    &&& final(self)@.pos == e
                    &&& final(out)@ == old(out)@ + wrapped(
                        old(self)@.color,
                        Style::Num,
                        old(self)@.input.subrange(old(self)@.pos, e),
                    )
                },
                Err(q) => r == Err::<(), FormatError>(error_at(old(self)@.input, q)),
            },
    {
        let start = self.pos.0;
        if self.peek_byte() == Some(MINUS) {
            self.next_byte();
        }
        self.parse_integer()?;
        self.parse_fraction()?;
        self.parse_exponent()?;
        self.write_number(&self.input[start..self.pos.0], out);
        Ok(())
    }

    /// Consumes one UTF-8 encoded scalar value.
    pub fn next_utf8_char(&mut self) -> (r: Result<(), FormatError>)
        requires
            old(self)@.wf(),
        ensures
            final(self)@.after(old(self)@),
            final(self)@.level == old(self)@.level,
            match utf8_end(old(self)@.input, old(self)@.pos) {
                Ok(e) => r is Ok && final(self)@.pos == e,
                Err(x) => r == Err::<(), FormatError>(x),
            },
    {
        let start = self.pos;
        let b1 = match self.next_byte() {
            Some(b) => b,
            None => return Err(FormatError::Eof),
        };
        if b1 < 0x80 {
            return Ok(());
        }
        let b2 = match self.next_byte() {
            Some(b) => b,
            None => return Err(FormatError::Eof),
        };
        if b1 < 0xe0 {
            return if 0xc2 <= b1 && is_cont_byte(b2) {
                Ok(())
            } else {
                Err(FormatError::InvalidUtf8([b1, b2, 0, 0], 2, start))
            };
        }
        let b3 = match self.next_byte() {
            Some(b) => b,
            None => return Err(FormatError::Eof),
        };
        if b1 < 0xf0 {
            return if three_byte_lead(b1, b2) && is_cont_byte(b3) {
                Ok(())
            } else {
                Err(FormatError::InvalidUtf8([b1, b2, b3, 0], 3, start))
            };
        }
        let b4 = match self.next_byte() {
            Some(b) => b,
            None => return Err(FormatError::Eof),
        };
        if four_byte_lead(b1, b2) && is_cont_byte(b3) && is_cont_byte(b4) {
            Ok(())
        } else {
            Err(FormatError::InvalidUtf8([b1, b2, b3, b4], 4, start))
        }
    }

    /// Scans the string under the cursor, escapes and all, and writes it verbatim.
    fn parse_string(&mut self, out: &mut Vec<u8>, mode: StringMode) -> (r: Result<(), FormatError>)
        requires
            old(self)@.wf(),
        ensures
            final(self)@.after(old(self)@),
            final(self)@.level == old(self)@.level,
            r is Ok ==> final(self)@.pos > old(self)@.pos,
            match string_end(old(self)@.input, old(self)@.pos) {
                Ok(e) => {
                    &&& r is Ok
                    &&& final(self)@.pos == e
                    &&& final(out)@ == old(out)@ + wrapped(
                        old(self)@.color,
                        mode_style(mode),
                        old(self)@.input.subrange(old(self)@.pos, e),
                    )
                },
                Err(x) => r == Err::<(), FormatError>(x),
            },
    {
        let ghost s = self@.input;
        let start = self.pos.0;
        self.expect_byte(QUOTE)?;
        loop
            invariant
                self@.after(old(self)@),
                self@.level == old(self)@.level,
                s == old(self)@.input,
                start == old(self)@.pos,
                start < self@.pos,
                string_end(s, start as int) == string_rest(s, self@.pos),
                *out == *old(out),
            decreases s.len() - self@.pos,
        {
            let b = match self.peek_byte() {
                Some(b) => b,
                None => return Err(FormatError::Eof),
            };
            if b == QUOTE {
                self.next_byte();
                let text = &self.input[start..self.pos.0];
                match mode {
                    StringMode::Key => self.write_key(text, out),
                    StringMode::Value => self.write_value(text, out),
                }
                return Ok(());
            } else if b == BACKSLASH {
                self.next_byte();
                let e = match self.next_byte() {
                    Some(e) => e,
                    None => return Err(FormatError::Eof),
                };
                if e == QUOTE || e == BACKSLASH || e == SLASH || e == LOWER_B || e == LOWER_F
                    || e == LOWER_N || e == LOWER_R || e == LOWER_T {
                } else if e == LOWER_U {
                    let ghost h = self@.pos;
                    let mut i: usize = 0;
                    while i < 4
                        invariant
                            self@.after(old(self)@),
                            self@.level == old(self)@.level,
                            s == old(self)@.input,
                            i <= 4,
                            self@.pos == h + i,
                            start == old(self)@.pos,
                            start < h - 1,
                            h <= s.len(),
                            s[h - 2] == BACKSLASH,
                            s[h - 1] == LOWER_U,
                            string_end(s, start as int) == string_rest(s, h - 2),
                            i > 0 ==> h < s.len() && is_hex(s[h]),
                            i > 1 ==> h + 1 < s.len() && is_hex(s[h + 1]),
                            i > 2 ==> h + 2 < s.len() && is_hex(s[h + 2]),
                            i > 3 ==> h + 3 < s.len() && is_hex(s[h + 3]),
                        decreases 4 - i,
                    {
                        let hex = match self.next_byte() {
                            Some(x) => x,
                            None => {
                                assert(hex4_fault(s, h) == Some(h + i));
                                return Err(FormatError::Eof);
                            },
                        };
                        if !is_hex_digit(hex) {
                            assert(hex4_fault(s, h) == Some(h + i));
                            return Err(FormatError::InvalidByte(hex, BytePos(self.pos.0 - 1)));
                        }
                        i = i + 1;
                    }
                } else {
                    return Err(FormatError::InvalidEscape(e, BytePos(self.pos.0 - 1)));
                }
            } else if b < SPACE {
                return Err(FormatError::InvalidByte(b, self.pos));
            } else {
                self.next_utf8_char()?;
            }
        }
    }

    /// Consumes the bytes of `lit` one by one.
    fn expect_literal(&mut self, lit: &[u8]) -> (r: Result<(), FormatError>)
        requires
            old(self)@.wf(),
        ensures
            final(self)@.after(old(self)@),
            final(self)@.level == old(self)@.level,
            match literal_fault(old(self)@.input, old(self)@.pos, lit@, 0) {
                None => r is Ok && final(self)@.pos == old(self)@.pos + lit@.len(),
                Some(q) => r == Err::<(), FormatError>(error_at(old(self)@.input, q)),
            },
    {
        let ghost s = self@.input;
        let ghost p = self@.pos;
        let mut i: usize = 0;
        while i < lit.len()
            invariant
                self@.after(old(self)@),
                self@.level == old(self)@.level,
                s == old(self)@.input,
                p == old(self)@.pos,
                i <= lit@.len(),
                self@.pos == p + i,
                literal_fault(s, p, lit@, 0) == literal_fault(s, p, lit@, i as nat),
            decreases lit@.len() - i,
        {
            self.expect_byte(lit[i])?;
            i = i + 1;
        }
        Ok(())
    }

    fn parse_true(&mut self, out: &mut Vec<u8>) -> (r: Result<(), FormatError>)
        requires
            old(self)@.wf(),
        ensures
            final(self)@.after(old(self)@),
            final(self)@.level == old(self)@.level,
            match literal(old(self)@.input, old(self)@.pos, true_bytes(), old(self)@.color, Style::Bool) {
                Ok((k, o)) => r is Ok && final(self)@.pos == old(self)@.pos + k && final(out)@ == old(out)@ + o,
                Err(x) => r == Err::<(), FormatError>(x),
            },
    {
        let t: [u8; 4] = [LOWER_T, LOWER_R, LOWER_U, LOWER_E];
        assert(t@ =~= true_bytes());
        self.expect_literal(t.as_slice())?;
        self.write_true(out);
        Ok(())
    }

    fn parse_false(&mut self, out: &mut Vec<u8>) -> (r: Result<(), FormatError>)
        requires
            old(self)@.wf(),
        ensures
            final(self)@.after(old(self)@),
            final(self)@.level == old(self)@.level,
            match literal(old(self)@.input, old(self)@.pos, false_bytes(), old(self)@.color, Style::Bool) {
                Ok((k, o)) => r is Ok && final(self)@.pos == old(self)@.pos + k && final(out)@ == old(out)@ + o,
                Err(x) => r == Err::<(), FormatError>(x),
            },
    {
        let t: [u8; 5] = [LOWER_F, LOWER_A, LOWER_L, LOWER_S, LOWER_E];
        assert(t@ =~= false_bytes());
        self.expect_literal(t.as_slice())?;
        self.write_false(out);
        Ok(())
    }

    fn parse_null(&mut self, out: &mut Vec<u8>) -> (r: Result<(), FormatError>)
        requires
            old(self)@.wf(),
        ensures
            final(self)@.after(old(self)@),
            final(self)@.level == old(self)@.level,
            match literal(old(self)@.input, old(self)@.pos, null_bytes(), old(self)@.color, Style::Null) {
                Ok((k, o)) => r is Ok && final(self)@.pos == old(self)@.pos + k && final(out)@ == old(out)@ + o,
                Err(x) => r == Err::<(), FormatError>(x),
            },
    {
        let t: [u8; 4] = [LOWER_N, LOWER_U, LOWER_L, LOWER_L];
        assert(t@ =~= null_bytes());
        self.expect_literal(t.as_slice())?;
        self.write_null(out);
        Ok(())
    }
}

fn is_cont_byte(b: u8) -> (r: bool)
    ensures
        r == is_cont(b),
{
    0x80 <= b && b <= 0xbf
}

fn three_byte_lead(b1: u8, b2: u8) -> (r: bool)
    ensures
        r == three_byte_head(b1, b2),
{
    if b1 == 0xe0 {
        0xa0 <= b2 && b2 <= 0xbf
    } else if b1 == 0xed {
        0x80 <= b2 && b2 <= 0x9f
    } else {
        ((0xe1 <= b1 && b1 <= 0xec) || (0xee <= b1 && b1 <= 0xef)) && is_cont_byte(b2)
    }
}

fn four_byte_lead(b1: u8, b2: u8) -> (r: bool)
    ensures
        r == four_byte_head(b1, b2),
{
    if b1 == 0xf0 {
        0x90 <= b2 && b2 <= 0xbf
    } else if b1 == 0xf4 {
        0x80 <= b2 && b2 <= 0x8f
    } else {
        0xf1 <= b1 && b1 <= 0xf3 && is_cont_byte(b2)
    }
}

/// The digits of the SGR code for `st`.
fn sgr_code(st: Style) -> (r: (u8, u8, u8))
    ensures
        r == sgr_digits(st),
{
    match st {
        Style::Punct => (0x31, 0x33, 0x39),
        Style::Key => (0x31, 0x33, 0x34),
        Style::Str => (0x30, 0x33, 0x32),
        Style::Num => (0x30, 0x33, 0x36),
        Style::Bool => (0x30, 0x33, 0x33),
        Style::Null => (0x30, 0x33, 0x35),
    }
}

fn push_all(out: &mut Vec<u8>, bytes: &[u8])
    ensures
        final(out)@ == old(out)@ + bytes@,
{
    let mut i: usize = 0;
    while i < bytes.len()
        invariant
            i <= bytes@.len(),
            out@ == old(out)@ + bytes@.subrange(0, i as int),
        decreases bytes@.len() - i,
    {
        out.push(bytes[i]);
        i = i + 1;
        assert(out@ =~= old(out)@ + bytes@.subrange(0, i as int));
    }
    assert(bytes@.subrange(0, i as int) =~= bytes@);
}

/// Methods that write tokens, in colour or not.
impl<'input> Formatter<'input> {
    fn open_style(&self, out: &mut Vec<u8>, st: Style)
        ensures
            final(out)@ == old(out)@ + (if self@.color == Color::AnsiCode {
                style_open(st)
            } else {
                Seq::empty()
            }),
    {
        if self.color == Color::AnsiCode {
            let (a, b, c) = sgr_code(st);
            out.push(ESC);
            out.push(LBRACKET);
            out.push(a);
            out.push(SEMICOLON);
            out.push(b);
            out.push(c);
            out.push(LOWER_M);
            assert(final(out)@ =~= old(out)@ + style_open(st));
        } else {
            assert(out@ =~= old(out)@ + Seq::empty());
        }
    }

    fn close_style(&self, out: &mut Vec<u8>)
        ensures
            final(out)@ == old(out)@ + (if self@.color == Color::AnsiCode {
                style_reset()
            } else {
                Seq::empty()
            }),
    {
        if self.color == Color::AnsiCode {
            out.push(ESC);
            out.push(LBRACKET);
            out.push(ZERO);
            out.push(LOWER_M);
            assert(final(out)@ =~= old(out)@ + style_reset());
        } else {
            assert(out@ =~= old(out)@ + Seq::empty());
        }
    }

    /// Writes `text` in style `st`.
    fn write_styled(&self, out: &mut Vec<u8>, st: Style, text: &[u8])
        ensures
            final(out)@ == old(out)@ + wrapped(self@.color, st, text@),
    {
        self.open_style(out, st);
        push_all(out, text);
        self.close_style(out);
        if self.color == Color::AnsiCode {
            assert(final(out)@ =~= old(out)@ + wrapped(self@.color, st, text@));
        } else {
            assert(final(out)@ =~= old(out)@ + wrapped(self@.color, st, text@));
        }
    }

    fn write_indent(&self, out: &mut Vec<u8>)
        requires
            self@.wf(),
        ensures
            final(out)@ == old(out)@ + indent(self@.level),
    {
        let n = self.level * 2;
        let mut i: usize = 0;
        while i < n
            invariant
                n == 2 * self@.level,
                i <= n,
                out@ == old(out)@ + Seq::new(i as nat, |j: int| SPACE),
            decreases n - i,
        {
            out.push(SPACE);
            i = i + 1;
            assert(out@ =~= old(out)@ + Seq::new(i as nat, |j: int| SPACE));
        }
        assert(indent(self@.level) =~= Seq::new(i as nat, |j: int| SPACE));
    }

    fn write_ln(&self, out: &mut Vec<u8>)
        ensures
            final(out)@ == old(out)@ + seq![LF],
    {
        out.push(LF);
        assert(final(out)@ =~= old(out)@ + seq![LF]);
    }

    fn write_empty_obj(&self, out: &mut Vec<u8>)
        ensures
            final(out)@ == old(out)@ + empty_tok(self@.color, true),
    {
        let t: [u8; 2] = [LBRACE, RBRACE];
        assert(t@ =~= seq![LBRACE, RBRACE]);
        self.write_styled(out, Style::Punct, t.as_slice());
    }

    fn write_begin_obj(&self, out: &mut Vec<u8>)
        ensures
            final(out)@ == old(out)@ + begin_tok(self@.color, true),
    {
        let t: [u8; 1] = [LBRACE];
        assert(t@ =~= seq![LBRACE]);
        self.write_styled(out, Style::Punct, t.as_slice());
        self.write_ln(out);
        assert(final(out)@ =~= old(out)@ + begin_tok(self@.color, true));
    }

    fn write_end_obj(&self, out: &mut Vec<u8>)
        ensures
            final(out)@ == old(out)@ + end_tok(self@.color, true),
    {
        let t: [u8; 1] = [RBRACE];
        assert(t@ =~= seq![RBRACE]);
        self.write_styled(out, Style::Punct, t.as_slice());
    }

    fn write_value_sep(&self, out: &mut Vec<u8>)
        ensures
            final(out)@ == old(out)@ + value_sep_tok(self@.color),
    {
        let t: [u8; 1] = [COMMA];
        assert(t@ =~= seq![COMMA]);
        self.write_styled(out, Style::Punct, t.as_slice());
        self.write_ln(out);
        assert(final(out)@ =~= old(out)@ + value_sep_tok(self@.color));
    }

    fn write_name_sep(&self, out: &mut Vec<u8>)
        ensures
            final(out)@ == old(out)@ + name_sep_tok(self@.color),
    {
        let t: [u8; 1] = [COLON];
        assert(t@ =~= seq![COLON]);
        self.write_styled(out, Style::Punct, t.as_slice());
        out.push(SPACE);
        assert(final(out)@ =~= old(out)@ + name_sep_tok(self@.color));
    }

    fn write_empty_arr(&self, out: &mut Vec<u8>)
        ensures
            final(out)@ == old(out)@ + empty_tok(self@.color, false),
    {
        let t: [u8; 2] = [LBRACKET, RBRACKET];
        assert(t@ =~= seq![LBRACKET, RBRACKET]);
        self.write_styled(out, Style::Punct, t.as_slice());
    }

    fn write_begin_arr(&self, out: &mut Vec<u8>)
        ensures
            final(out)@ == old(out)@ + begin_tok(self@.color, false),
    {
        let t: [u8; 1] = [LBRACKET];
        assert(t@ =~= seq![LBRACKET]);
        self.write_styled(out, Style::Punct, t.as_slice());
        self.write_ln(out);
        assert(final(out)@ =~= old(out)@ + begin_tok(self@.color, false));
    }

    fn write_end_arr(&self, out: &mut Vec<u8>)
        ensures
            final(out)@ == old(out)@ + end_tok(self@.color, false),
    {
        let t: [u8; 1] = [RBRACKET];
        assert(t@ =~= seq![RBRACKET]);
        self.write_styled(out, Style::Punct, t.as_slice());
    }

    fn write_key(&self, text: &[u8], out: &mut Vec<u8>)
        ensures
            final(out)@ == old(out)@ + wrapped(self@.color, Style::Key, text@),
    {
        self.write_styled(out, Style::Key, text);
    }

    fn write_value(&self, text: &[u8], out: &mut Vec<u8>)
        ensures
            final(out)@ == old(out)@ + wrapped(self@.color, Style::Str, text@),
    {
        self.write_styled(out, Style::Str, text);
    }

    fn write_true(&self, out: &mut Vec<u8>)
        ensures
            final(out)@ == old(out)@ + wrapped(self@.color, Style::Bool, true_bytes()),
    {
        let t: [u8; 4] = [LOWER_T, LOWER_R, LOWER_U, LOWER_E];
        assert(t@ =~= true_bytes());
        self.write_styled(out, Style::Bool, t.as_slice());
    }

    fn write_false(&self, out: &mut Vec<u8>)
        ensures
            final(out)@ == old(out)@ + wrapped(self@.color, Style::Bool, false_bytes()),
    {
        let t: [u8; 5] = [LOWER_F, LOWER_A, LOWER_L, LOWER_S, LOWER_E];
        assert(t@ =~= false_bytes());
        self.write_styled(out, Style::Bool, t.as_slice());
    }

    fn write_null(&self, out: &mut Vec<u8>)
        ensures
            final(out)@ == old(out)@ + wrapped(self@.color, Style::Null, null_bytes()),
    {
        let t: [u8; 4] = [LOWER_N, LOWER_U, LOWER_L, LOWER_L];
        assert(t@ =~= null_bytes());
        self.write_styled(out, Style::Null, t.as_slice());
    }

    fn write_number(&self, text: &[u8], out: &mut Vec<u8>)
        ensures
            final(out)@ == old(out)@ + wrapped(self@.color, Style::Num, text@),
    {
        self.write_styled(out, Style::Num, text);
    }
}

} // verus!
