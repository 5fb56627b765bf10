//! The lexical grammar of JSON over raw bytes: whitespace, numbers, string
//! escapes, literals and the UTF-8 scalar encodings that strings may hold.
use vstd::prelude::*;

verus! {

pub const TAB: u8 = 0x09;
pub const LF: u8 = 0x0a;
pub const CR: u8 = 0x0d;
pub const ESC: u8 = 0x1b;
pub const SPACE: u8 = 0x20;
pub const QUOTE: u8 = 0x22;
pub const PLUS: u8 = 0x2b;
pub const COMMA: u8 = 0x2c;
pub const MINUS: u8 = 0x2d;
pub const DOT: u8 = 0x2e;
pub const SLASH: u8 = 0x2f;
pub const ZERO: u8 = 0x30;
pub const NINE: u8 = 0x39;
pub const COLON: u8 = 0x3a;
pub const SEMICOLON: u8 = 0x3b;
pub const UPPER_A: u8 = 0x41;
pub const UPPER_E: u8 = 0x45;
pub const UPPER_F: u8 = 0x46;
pub const LBRACKET: u8 = 0x5b;
pub const BACKSLASH: u8 = 0x5c;
pub const RBRACKET: u8 = 0x5d;
pub const LOWER_A: u8 = 0x61;
pub const LOWER_B: u8 = 0x62;
pub const LOWER_E: u8 = 0x65;
pub const LOWER_F: u8 = 0x66;
pub const LOWER_L: u8 = 0x6c;
pub const LOWER_M: u8 = 0x6d;
pub const LOWER_N: u8 = 0x6e;
pub const LOWER_R: u8 = 0x72;
pub const LOWER_S: u8 = 0x73;
pub const LOWER_T: u8 = 0x74;
pub const LOWER_U: u8 = 0x75;
pub const LBRACE: u8 = 0x7b;
pub const RBRACE: u8 = 0x7d;

/// The four insignificant whitespace bytes of JSON.
pub open spec fn is_ws(b: u8) -> bool {
    b == SPACE || b == LF || b == CR || b == TAB
}

pub open spec fn is_digit(b: u8) -> bool {
    ZERO <= b <= NINE
}

pub open spec fn is_hex(b: u8) -> bool {
    is_digit(b) || (UPPER_A <= b <= UPPER_F) || (LOWER_A <= b <= LOWER_F)
}

/// The bytes that may follow a backslash on their own.
pub open spec fn is_simple_escape(b: u8) -> bool {
    b == QUOTE || b == BACKSLASH || b == SLASH || b == LOWER_B || b == LOWER_F || b == LOWER_N
        || b == LOWER_R || b == LOWER_T
}

/// Number of whitespace bytes that start at `p`.
pub open spec fn ws_len(s: Seq<u8>, p: int) -> nat
    decreases s.len() - p,
{
    if 0 <= p < s.len() && is_ws(s[p]) {
        1 + ws_len(s, p + 1)
    } else {
        0
    }
}

/// The offset just after the run of digits that starts at `p`.
pub open spec fn digits_end(s: Seq<u8>, p: int) -> int
    decreases s.len() - p,
{
    if 0 <= p < s.len() && is_digit(s[p]) {
        digits_end(s, p + 1)
    } else {
        p
    }
}

// The number scanners below return the offset just after what they matched,
// or, as `Err`, the offset of the byte that broke the grammar (the length of
// the input where the input ended too early).
/// `int = 0 | [1-9][0-9]*`
pub open spec fn int_part(s: Seq<u8>, p: int) -> Result<int, int> {
    if 0 <= p < s.len() && s[p] == ZERO {
        Ok(p + 1)
    } else if 0 <= p < s.len() && ZERO < s[p] <= NINE {
        Ok(digits_end(s, p + 1))
    } else {
        Err(p)
    }
}

/// `frac = [. [0-9]+]?`
pub open spec fn frac_part(s: Seq<u8>, p: int) -> Result<int, int> {
    if 0 <= p < s.len() && s[p] == DOT {
        if p + 1 < s.len() && is_digit(s[p + 1]) {
            Ok(digits_end(s, p + 2))
        } else {
            Err(p + 1)
        }
    } else {
        Ok(p)
    }
}

/// `exp = [(e|E) [+|-]? [0-9]+]?`
pub open spec fn exp_part(s: Seq<u8>, p: int) -> Result<int, int> {
    if 0 <= p < s.len() && (s[p] == LOWER_E || s[p] == UPPER_E) {
        let q = if p + 1 < s.len() && (s[p + 1] == PLUS || s[p + 1] == MINUS) {
            p + 2
        } else {
            p + 1
        };
        if q < s.len() && is_digit(s[q]) {
            Ok(digits_end(s, q + 1))
        } else {
            Err(q)
        }
    } else {
        Ok(p)
    }
}

/// The optional sign of a number that starts at `p`.
pub open spec fn sign_end(s: Seq<u8>, p: int) -> int {
    if 0 <= p < s.len() && s[p] == MINUS {
        p + 1
    } else {
        p
    }
}

/// `number = [-]? int frac exp`, scanned from `p`.
pub open spec fn number_end(s: Seq<u8>, p: int) -> Result<int, int> {
    match int_part(s, sign_end(s, p)) {
        Err(q) => Err(q),
        Ok(a) => match frac_part(s, a) {
            Err(q) => Err(q),
            Ok(b) => exp_part(s, b),
        },
    }
}

// The number grammar once more, as a description of a span `s[p..e]` rather
// than as a scanner.
/// Every byte of `s[a..b]` is a digit, and there is at least one.
pub open spec fn digit_span(s: Seq<u8>, a: int, b: int) -> bool {
    a < b && forall|x: int| a <= x < b ==> is_digit(#[trigger] s[x])
}

/// `s[i..j]` is `0`, or a digit other than `0` and more digits.
pub open spec fn int_span(s: Seq<u8>, i: int, j: int) -> bool {
    ||| (j == i + 1 && s[i] == ZERO)
    ||| (i < j && ZERO < s[i] <= NINE && forall|x: int| i < x < j ==> is_digit(#[trigger] s[x]))
}

/// `s[j..k]` is empty, or a dot and digits.
pub open spec fn frac_span(s: Seq<u8>, j: int, k: int) -> bool {
    k == j || (s[j] == DOT && digit_span(s, j + 1, k))
}

/// `s[k..e]` is empty, or `e` or `E`, an optional sign, and digits.
pub open spec fn exp_span(s: Seq<u8>, k: int, e: int) -> bool {
    ||| e == k
    ||| {
        &&& s[k] == LOWER_E || s[k] == UPPER_E
        &&& digit_span(s, k + 1, e) || ((s[k + 1] == PLUS || s[k + 1] == MINUS) && digit_span(s, k + 2, e))
    }
}

/// `s[p..e]` splits at `i`, `j` and `k` into sign, integer, fraction and exponent.
pub open spec fn number_split(s: Seq<u8>, p: int, i: int, j: int, k: int, e: int) -> bool {
    &&& 0 <= p <= i <= j <= k <= e <= s.len()
    &&& i == p || (i == p + 1 && s[p] == MINUS)
    &&& int_span(s, i, j)
    &&& frac_span(s, j, k)
    &&& exp_span(s, k, e)
}

/// The bytes `s[p..e]` form a JSON number.
pub open spec fn number_text(s: Seq<u8>, p: int, e: int) -> bool {
    exists|i: int, j: int, k: int| #[trigger] number_split(s, p, i, j, k, e)
}

/// Where the hex digits of a `\u` escape that start at `p` go wrong: the offset of
/// the first byte that is not a hex digit, or of the end of the input.
pub open spec fn hex4_fault(s: Seq<u8>, p: int) -> Option<int> {
    if !(p < s.len() && is_hex(s[p])) {
        Some(p)
    } else if !(p + 1 < s.len() && is_hex(s[p + 1])) {
        Some(p + 1)
    } else if !(p + 2 < s.len() && is_hex(s[p + 2])) {
        Some(p + 2)
    } else if !(p + 3 < s.len() && is_hex(s[p + 3])) {
        Some(p + 3)
    } else {
        None
    }
}

/// Where reading `lit` at `p` goes wrong: the offset of the first byte that
/// differs, or of the end of the input.
pub open spec fn literal_fault(s: Seq<u8>, p: int, lit: Seq<u8>, i: nat) -> Option<int>
    decreases lit.len() - i,
{
    if i >= lit.len() {
        None
    } else if 0 <= p + i < s.len() && s[p + i] == lit[i as int] {
        literal_fault(s, p, lit, i + 1)
    } else {
        Some(p + i)
    }
}

pub open spec fn true_bytes() -> Seq<u8> {
    seq![LOWER_T, LOWER_R, LOWER_U, LOWER_E]
}

pub open spec fn false_bytes() -> Seq<u8> {
    seq![LOWER_F, LOWER_A, LOWER_L, LOWER_S, LOWER_E]
}

pub open spec fn null_bytes() -> Seq<u8> {
    seq![LOWER_N, LOWER_U, LOWER_L, LOWER_L]
}

/// Whether `code` is a Unicode scalar value: at most U+10FFFF, no surrogate.
pub open spec fn is_scalar(code: int) -> bool {
    0 <= code <= 0x10ffff && !(0xd800 <= code <= 0xdfff)
}

/// The UTF-8 encoding of the code point `c`, as the Unicode standard gives it
/// (one to four bytes by the size of `c`).
pub open spec fn utf8_encode(c: int) -> Seq<u8> {
    if c < 0x80 {
        seq![c as u8]
    } else if c < 0x800 {
        seq![(0xc0 + c / 64) as u8, (0x80 + c % 64) as u8]
    } else if c < 0x10000 {
        seq![(0xe0 + c / 4096) as u8, (0x80 + (c / 64) % 64) as u8, (0x80 + c % 64) as u8]
    } else {
        seq![
            (0xf0 + c / 262144) as u8,
            (0x80 + (c / 4096) % 64) as u8,
            (0x80 + (c / 64) % 64) as u8,
            (0x80 + c % 64) as u8,
        ]
    }
}

/// Whether `bs` is the UTF-8 encoding of one Unicode scalar value.
pub open spec fn is_utf8_scalar(bs: Seq<u8>) -> bool {
    exists|c: int| is_scalar(c) && #[trigger] utf8_encode(c) == bs
}

/// A continuation byte of a multi-byte UTF-8 sequence.
pub open spec fn is_cont(b: u8) -> bool {
    0x80 <= b <= 0xbf
}

/// The lead byte and the first continuation byte of a well-formed three-byte
/// sequence (no overlong forms, no surrogates).
pub open spec fn three_byte_head(b1: u8, b2: u8) -> bool {
    if b1 == 0xe0 {
        0xa0 <= b2 <= 0xbf
    } else if b1 == 0xed {
        0x80 <= b2 <= 0x9f
    } else {
        (0xe1 <= b1 <= 0xec || 0xee <= b1 <= 0xef) && is_cont(b2)
    }
}

/// The lead byte and the first continuation byte of a well-formed four-byte
/// sequence (no overlong forms, nothing above U+10FFFF).
pub open spec fn four_byte_head(b1: u8, b2: u8) -> bool {
    if b1 == 0xf0 {
        0x90 <= b2 <= 0xbf
    } else if b1 == 0xf4 {
        0x80 <= b2 <= 0x8f
    } else {
        0xf1 <= b1 <= 0xf3 && is_cont(b2)
    }
}

} // verus!
