//! What formatting a document yields: the pretty-printed bytes, or the first
//! error met while scanning it from left to right.
use vstd::prelude::*;
use crate::grammar::{BACKSLASH, COLON, COMMA, LBRACE, LBRACKET, LF, LOWER_F, LOWER_N, LOWER_T, LOWER_U, MINUS, QUOTE, SPACE, false_bytes, four_byte_head, hex4_fault, is_cont, is_digit, is_simple_escape, literal_fault, null_bytes, number_end, three_byte_head, true_bytes, ws_len};
use crate::style::{Color, Style, begin_tok, closer, empty_tok, end_tok, indent, name_sep_tok, opener, value_sep_tok, wrapped};
use crate::format::{BytePos, FormatError};

verus! {

/// The deepest nesting of non-empty containers that is formatted.
pub const MAX_INDENT_LEVEL: usize = 100;

/// What the formatter consumed (a byte count) and wrote, or why it stopped.
pub type Emitted = Result<(nat, Seq<u8>), FormatError>;

/// The error for an unexpected byte at `p`, or for the end of the input.
pub open spec fn error_at(s: Seq<u8>, p: int) -> FormatError {
    if 0 <= p < s.len() {
        FormatError::InvalidByte(s[p], BytePos(p as usize))
    } else {
        FormatError::Eof
    }
}

/// Bytes left from `p` on.
pub open spec fn remaining(s: Seq<u8>, p: int) -> nat {
    if p < s.len() {
        (s.len() - p) as nat
    } else {
        0
    }
}

/// `r`, after `d` more bytes consumed and `pre` written before it.
pub open spec fn prefixed(r: Emitted, d: nat, pre: Seq<u8>) -> Emitted {
    match r {
        Ok((k, o)) => Ok((d + k, pre + o)),
        Err(e) => Err(e),
    }
}

pub proof fn lemma_prefixed_prefixed(r: Emitted, d1: nat, a: Seq<u8>, d2: nat, b: Seq<u8>)
    ensures
        prefixed(prefixed(r, d1, a), d2, b) == prefixed(r, d2 + d1, b + a),
{
    if let Ok((k, o)) = r {
        assert(b + (a + o) =~= (b + a) + o);
    }
}

/// One UTF-8 encoded scalar value at `p`: the offset after it, or the error.
pub open spec fn utf8_end(s: Seq<u8>, p: int) -> Result<int, FormatError> {
    if !(0 <= p < s.len()) {
        Err(FormatError::Eof)
    } else if s[p] < 0x80 {
        Ok(p + 1)
    } else if p + 1 >= s.len() {
        Err(FormatError::Eof)
    } else if s[p] < 0xe0 {
        if 0xc2 <= s[p] && is_cont(s[p + 1]) {
            Ok(p + 2)
        } else {
            Err(FormatError::InvalidUtf8([s[p], s[p + 1], 0, 0], 2, BytePos(p as usize)))
        }
    } else if p + 2 >= s.len() {
        Err(FormatError::Eof)
    } else if s[p] < 0xf0 {
        if three_byte_head(s[p], s[p + 1]) && is_cont(s[p + 2]) {
            Ok(p + 3)
        } else {
            Err(FormatError::InvalidUtf8([s[p], s[p + 1], s[p + 2], 0], 3, BytePos(p as usize)))
        }
    } else if p + 3 >= s.len() {
        Err(FormatError::Eof)
    } else if four_byte_head(s[p], s[p + 1]) && is_cont(s[p + 2]) && is_cont(s[p + 3]) {
        Ok(p + 4)
    } else {
        Err(
            FormatError::InvalidUtf8(
                [s[p], s[p + 1], s[p + 2], s[p + 3]],
                4,
                BytePos(p as usize),
            ),
        )
    }
}

/// The rest of a string whose opening quote is before `p`: the offset after
/// the closing quote, or the error.
pub open spec fn string_rest(s: Seq<u8>, p: int) -> Result<int, FormatError>
    decreases s.len() - p,
{
    if !(0 <= p < s.len()) {
        Err(FormatError::Eof)
    } else if s[p] == QUOTE {
        Ok(p + 1)
    } else if s[p] == BACKSLASH {
        if p + 1 >= s.len() {
            Err(FormatError::Eof)
        } else if is_simple_escape(s[p + 1]) {
            string_rest(s, p + 2)
        } else if s[p + 1] == LOWER_U {
            match hex4_fault(s, p + 2) {
                Some(q) => Err(error_at(s, q)),
                None => string_rest(s, p + 6),
            }
        } else {
            Err(FormatError::InvalidEscape(s[p + 1], BytePos((p + 1) as usize)))
        }
    } else if s[p] < SPACE {
        Err(FormatError::InvalidByte(s[p], BytePos(p as usize)))
    } else {
        match utf8_end(s, p) {
            Ok(e) => string_rest(s, e),
            Err(x) => Err(x),
        }
    }
}

/// The string that starts at `p`: the offset after its closing quote, or the error.
pub open spec fn string_end(s: Seq<u8>, p: int) -> Result<int, FormatError> {
    if 0 <= p < s.len() && s[p] == QUOTE {
        string_rest(s, p + 1)
    } else {
        Err(error_at(s, p))
    }
}

pub proof fn lemma_string_rest_bounds(s: Seq<u8>, p: int)
    requires
        0 <= p,
    ensures
        string_rest(s, p) matches Ok(e) ==> p < e <= s.len(),
    decreases s.len() - p,
{
    if 0 <= p < s.len() && s[p] != QUOTE {
        if s[p] == BACKSLASH {
            if p + 1 < s.len() {
                if is_simple_escape(s[p + 1]) {
                    lemma_string_rest_bounds(s, p + 2);
                } else if s[p + 1] == LOWER_U && hex4_fault(s, p + 2) is None {
                    lemma_string_rest_bounds(s, p + 6);
                }
            }
        } else if s[p] >= SPACE {
            if let Ok(e) = utf8_end(s, p) {
                lemma_string_rest_bounds(s, e);
            }
        }
    }
}

pub proof fn lemma_string_end_bounds(s: Seq<u8>, p: int)
    requires
        0 <= p,
    ensures
        string_end(s, p) matches Ok(e) ==> p < e <= s.len(),
{
    lemma_string_rest_bounds(s, p + 1);
}

/// A scalar token (string or number) that ends at `end`, written in style `st`.
pub open spec fn span(s: Seq<u8>, p: int, end: int, c: Color, st: Style) -> Emitted {
    Ok(((end - p) as nat, wrapped(c, st, s.subrange(p, end))))
}

/// A literal `lit` at `p`, written in style `st`.
pub open spec fn literal(s: Seq<u8>, p: int, lit: Seq<u8>, c: Color, st: Style) -> Emitted {
    match literal_fault(s, p, lit, 0) {
        Some(q) => Err(error_at(s, q)),
        None => Ok((lit.len(), wrapped(c, st, lit))),
    }
}

/// The value that starts at `p`, nested `level` deep.
pub open spec fn value(s: Seq<u8>, p: int, level: nat, c: Color) -> Emitted
    decreases remaining(s, p), 2int,
{
    if !(0 <= p < s.len()) {
        Err(FormatError::Eof)
    } else {
        let b = s[p];
        if b == QUOTE {
            match string_end(s, p) {
                Ok(e) => span(s, p, e, c, Style::Str),
                Err(x) => Err(x),
            }
        } else if b == MINUS || is_digit(b) {
            match number_end(s, p) {
                Ok(e) => span(s, p, e, c, Style::Num),
                Err(q) => Err(error_at(s, q)),
            }
        } else if b == LBRACE {
            container(s, p, level, c, true)
        } else if b == LBRACKET {
            container(s, p, level, c, false)
        } else if b == LOWER_T {
            literal(s, p, true_bytes(), c, Style::Bool)
        } else if b == LOWER_F {
            literal(s, p, false_bytes(), c, Style::Bool)
        } else if b == LOWER_N {
            literal(s, p, null_bytes(), c, Style::Null)
        } else {
            Err(error_at(s, p))
        }
    }
}

/// The object (`obj`) or array that starts at `p`, nested `level` deep.
pub open spec fn container(s: Seq<u8>, p: int, level: nat, c: Color, obj: bool) -> Emitted
    decreases remaining(s, p), 1int,
{
    if !(0 <= p < s.len() && s[p] == opener(obj)) {
        Err(error_at(s, p))
    } else {
        let w = ws_len(s, p + 1);
        let q = p + 1 + w;
        if q < s.len() && s[q] == closer(obj) {
            Ok((2 + w, empty_tok(c, obj)))
        } else if level >= MAX_INDENT_LEVEL {
            Err(FormatError::MaxIndentLevel(level as usize, BytePos(q as usize)))
        } else {
            prefixed(members_first(s, q, level + 1, c, obj), 1 + w, begin_tok(c, obj))
        }
    }
}

/// The members of a non-empty container from the first one, which starts at `p`.
pub open spec fn members_first(s: Seq<u8>, p: int, level: nat, c: Color, obj: bool) -> Emitted
    decreases remaining(s, p), 4int,
{
    match member(s, p, level, c, obj) {
        Err(e) => Err(e),
        Ok((k, o)) => {
            let w = ws_len(s, p + k);
            prefixed(members_rest(s, p + k + w, level, c, obj), k + w, indent(level) + o)
        },
    }
}

/// The members of a container after the first, from the comma or the closer at `p`.
pub open spec fn members_rest(s: Seq<u8>, p: int, level: nat, c: Color, obj: bool) -> Emitted
    decreases remaining(s, p), 0int,
{
    if 0 <= p < s.len() && s[p] == closer(obj) {
        Ok((1, seq![LF] + indent((level - 1) as nat) + end_tok(c, obj)))
    } else if !(0 <= p < s.len() && s[p] == COMMA) {
        Err(error_at(s, p))
    } else {
        let w1 = ws_len(s, p + 1);
        let q = p + 1 + w1;
        match member(s, q, level, c, obj) {
            Err(e) => Err(e),
            Ok((k, o)) => {
                let w2 = ws_len(s, q + k);
                prefixed(
                    members_rest(s, q + k + w2, level, c, obj),
                    1 + w1 + k + w2,
                    value_sep_tok(c) + indent(level) + o,
                )
            },
        }
    }
}

/// One member at `p`: `key: value` in an object, a value in an array.
pub open spec fn member(s: Seq<u8>, p: int, level: nat, c: Color, obj: bool) -> Emitted
    decreases remaining(s, p), 3int,
{
    if obj {
        match string_end(s, p) {
            Err(e) => Err(e),
            Ok(e1) => {
                let q = e1 + ws_len(s, e1);
                if !(0 <= q < s.len() && s[q] == COLON) {
                    Err(error_at(s, q))
                } else {
                    let t = q + 1 + ws_len(s, q + 1);
                    proof {
                        if 0 <= p {
                            lemma_string_end_bounds(s, p);
                        }
                    }
                    prefixed(
                        value(s, t, level, c),
                        (t - p) as nat,
                        wrapped(c, Style::Key, s.subrange(p, e1)) + name_sep_tok(c),
                    )
                }
            },
        }
    } else {
        value(s, p, level, c)
    }
}

/// The offset after a leading byte-order mark, if there is one.
pub open spec fn bom_len(s: Seq<u8>) -> int {
    if s.len() >= 3 && s[0] == 0xef && s[1] == 0xbb && s[2] == 0xbf {
        3
    } else {
        0
    }
}

/// Where the top-level value starts: after the byte-order mark and whitespace.
pub open spec fn doc_start(s: Seq<u8>) -> int {
    bom_len(s) + ws_len(s, bom_len(s))
}

/// The document `s` formatted in colour mode `c`: one value with whitespace
/// around it, and nothing else.
pub open spec fn formatted(s: Seq<u8>, c: Color) -> Result<Seq<u8>, FormatError> {
    let p = doc_start(s);
    match value(s, p, 0, c) {
        Err(e) => Err(e),
        Ok((k, o)) => {
            let q = p + k + ws_len(s, p + k);
            if q < s.len() {
                Err(FormatError::InvalidByte(s[q], BytePos(q as usize)))
            } else {
                Ok(o)
            }
        },
    }
}

} // verus!
