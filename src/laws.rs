//! Properties of the formatter that hold of every input.
use vstd::prelude::*;
use crate::grammar::{
    DOT, LOWER_E, MINUS, PLUS, UPPER_E, ZERO, digit_span, digits_end, frac_part, int_part, is_digit,
    number_end, number_split, number_text, sign_end, ws_len, four_byte_head, is_cont, is_scalar, is_utf8_scalar, three_byte_head, utf8_encode,
};
use crate::document::{doc_start, formatted, utf8_end, value};
use crate::style::Color;
use crate::format::{BytePos, FormatError};

verus! {

proof fn lemma_split(c: int, d: int)
    requires
        0 <= c,
        0 < d,
    ensures
        c == (c / d) * d + c % d,
        0 <= c % d < d,
        0 <= c / d,
{
    assert(c == (c / d) * d + c % d && 0 <= c % d < d && 0 <= c / d) by (nonlinear_arith)
        requires
            0 <= c,
            0 < d,
    ;
}

proof fn lemma_join(x: int, y: int, d: int)
    requires
        0 <= y < d,
        0 <= x,
    ensures
        (x * d + y) / d == x,
        (x * d + y) % d == y,
{
    assert((x * d + y) / d == x && (x * d + y) % d == y) by (nonlinear_arith)
        requires
            0 <= y < d,
            0 <= x,
    ;
}

/// Two bytes that the validator accepts encode one scalar value.
proof fn lemma_two_bytes(b1: u8, b2: u8)
    requires
        0xc2 <= b1 <= 0xdf,
        is_cont(b2),
    ensures
        is_utf8_scalar(seq![b1, b2]),
{
    let c = (b1 - 0xc0) * 64 + (b2 - 0x80);
    lemma_join(b1 - 0xc0, b2 - 0x80, 64);
    assert(utf8_encode(c) =~= seq![b1, b2]);
}

proof fn lemma_three_bytes(b1: u8, b2: u8, b3: u8)
    requires
        three_byte_head(b1, b2),
        is_cont(b3),
    ensures
        is_utf8_scalar(seq![b1, b2, b3]),
{
    let hi = (b1 - 0xe0) * 64 + (b2 - 0x80);
    let c = hi * 64 + (b3 - 0x80);
    lemma_join(hi, b3 - 0x80, 64);
    lemma_join(b1 - 0xe0, b2 - 0x80, 64);
    assert(c / 4096 == b1 - 0xe0) by (nonlinear_arith)
        requires
            c == ((b1 - 0xe0) * 64 + (b2 - 0x80)) * 64 + (b3 - 0x80),
            0 <= b2 - 0x80 < 64,
            0 <= b3 - 0x80 < 64,
            0 <= b1 - 0xe0,
    ;
    assert(utf8_encode(c) =~= seq![b1, b2, b3]);
}

proof fn lemma_four_bytes(b1: u8, b2: u8, b3: u8, b4: u8)
    requires
        four_byte_head(b1, b2),
        is_cont(b3),
        is_cont(b4),
    ensures
        is_utf8_scalar(seq![b1, b2, b3, b4]),
{
    let h1 = (b1 - 0xf0) * 64 + (b2 - 0x80);
    let h2 = h1 * 64 + (b3 - 0x80);
    let c = h2 * 64 + (b4 - 0x80);
    lemma_join(h2, b4 - 0x80, 64);
    lemma_join(h1, b3 - 0x80, 64);
    lemma_join(b1 - 0xf0, b2 - 0x80, 64);
    assert(c / 4096 == h1 && c / 262144 == b1 - 0xf0) by (nonlinear_arith)
        requires
            c == h2 * 64 + (b4 - 0x80),
            h2 == h1 * 64 + (b3 - 0x80),
            h1 == (b1 - 0xf0) * 64 + (b2 - 0x80),
            0 <= b2 - 0x80 < 64,
            0 <= b3 - 0x80 < 64,
            0 <= b4 - 0x80 < 64,
            0 <= b1 - 0xf0,
    ;
    assert(utf8_encode(c) =~= seq![b1, b2, b3, b4]);
}

/// The bytes that encode a scalar value pass the validator's checks, one by one.
proof fn lemma_encoding_is_valid(c: int)
    requires
        is_scalar(c),
    ensures
        ({
            let bs = utf8_encode(c);
            if c < 0x80 {
                bs.len() == 1 && bs[0] < 0x80 && bs[0] == c
            } else if c < 0x800 {
                bs.len() == 2 && 0xc2 <= bs[0] <= 0xdf && is_cont(bs[1])
            } else if c < 0x10000 {
                &&& bs.len() == 3
                &&& 0xe0 <= bs[0] < 0xf0
                &&& three_byte_head(bs[0], bs[1])
                &&& is_cont(bs[2])
            } else {
                &&& bs.len() == 4
                &&& 0xf0 <= bs[0] <= 0xf7
                &&& four_byte_head(bs[0], bs[1])
                &&& is_cont(bs[2])
                &&& is_cont(bs[3])
            }
        }),
{
    lemma_split(c, 64);
    lemma_split(c / 64, 64);
    lemma_split(c, 4096);
    lemma_split(c / 4096, 64);
    lemma_split(c, 262144);
    assert(c / 4096 == (c / 64) / 64) by (nonlinear_arith)
        requires
            0 <= c,
    {
        vstd::arithmetic::div_mod::lemma_div_denominator(c, 64, 64);
    }
}

/// The validator accepts exactly the UTF-8 encodings of scalar values: it
/// accepts the `n` bytes at `p` (and moves past them) if and only if they
/// encode one Unicode scalar value.
pub proof fn law_utf8_validator(s: Seq<u8>, p: int, n: int)
    requires
        0 <= p,
        1 <= n <= 4,
        p + n <= s.len(),
    ensures
        utf8_end(s, p) == Ok::<int, FormatError>(p + n) <==> is_utf8_scalar(s.subrange(p, p + n)),
{
    let bs = s.subrange(p, p + n);
    if utf8_end(s, p) == Ok::<int, FormatError>(p + n) {
        if n == 1 {
            assert(utf8_encode(s[p] as int) =~= bs);
        } else if n == 2 {
            lemma_two_bytes(s[p], s[p + 1]);
            assert(bs =~= seq![s[p], s[p + 1]]);
        } else if n == 3 {
            lemma_three_bytes(s[p], s[p + 1], s[p + 2]);
            assert(bs =~= seq![s[p], s[p + 1], s[p + 2]]);
        } else {
            lemma_four_bytes(s[p], s[p + 1], s[p + 2], s[p + 3]);
            assert(bs =~= seq![s[p], s[p + 1], s[p + 2], s[p + 3]]);
        }
    }
    if is_utf8_scalar(bs) {
        let c = choose|c: int| is_scalar(c) && #[trigger] utf8_encode(c) == bs;
        lemma_encoding_is_valid(c);
        assert(bs[0] == s[p]);
        assert(n >= 2 ==> bs[1] == s[p + 1]);
        assert(n >= 3 ==> bs[2] == s[p + 2]);
        assert(n >= 4 ==> bs[3] == s[p + 3]);
    }
}

pub(crate) proof fn lemma_digits_end(s: Seq<u8>, x: int)
    requires
        0 <= x <= s.len(),
    ensures
        x <= digits_end(s, x) <= s.len(),
        forall|z: int| x <= z < digits_end(s, x) ==> is_digit(#[trigger] s[z]),
        digits_end(s, x) < s.len() ==> !is_digit(s[digits_end(s, x)]),
    decreases s.len() - x,
{
    if x < s.len() && is_digit(s[x]) {
        lemma_digits_end(s, x + 1);
    }
}

/// A run of digits from `x` to `y` is no longer than the one that the scanner takes.
proof fn lemma_digit_run(s: Seq<u8>, x: int, y: int)
    requires
        0 <= x <= y <= s.len(),
        forall|z: int| x <= z < y ==> is_digit(#[trigger] s[z]),
    ensures
        y <= digits_end(s, x),
    decreases y - x,
{
    if x < y {
        assert(is_digit(s[x]));
        lemma_digit_run(s, x + 1, y);
    } else {
        lemma_digits_end(s, x);
    }
}

/// What the number scanner takes is a number, and no longer prefix of what
/// follows is one: it stops at the first byte that the grammar cannot take.
pub proof fn law_number_maximal(s: Seq<u8>, p: int)
    requires
        0 <= p <= s.len(),
    ensures
        number_end(s, p) matches Ok(e) ==> {
            &&& number_text(s, p, e)
            &&& forall|e2: int| e < e2 <= s.len() ==> !number_text(s, p, e2)
        },
{
    if let Ok(e) = number_end(s, p) {
        let i = sign_end(s, p);
        let a = int_part(s, i)->Ok_0;
        let b = frac_part(s, a)->Ok_0;
        if s[i] != ZERO {
            lemma_digits_end(s, i + 1);
        }
        if a < s.len() && s[a] == DOT {
            lemma_digits_end(s, a + 2);
        }
        let q = if b + 1 < s.len() && (s[b + 1] == PLUS || s[b + 1] == MINUS) {
            b + 2
        } else {
            b + 1
        };
        if b < s.len() && (s[b] == LOWER_E || s[b] == UPPER_E) {
            lemma_digits_end(s, q + 1);
        }
        assert(number_split(s, p, i, a, b, e));
        assert forall|e2: int| e < e2 <= s.len() implies !number_text(s, p, e2) by {
            if number_text(s, p, e2) {
                let (i2, j2, k2) = choose|i2: int, j2: int, k2: int| #[trigger] number_split(s, p, i2, j2, k2, e2);
                assert(i2 == i);
                if s[i] == ZERO {
                    assert(j2 == a);
                } else {
                    lemma_digit_run(s, i + 1, j2);
                    if j2 < a {
                        assert(is_digit(s[j2]));
                    }
                    assert(j2 == a);
                }
                if a < s.len() && s[a] == DOT {
                    if k2 == a {
                        assert(false);
                    }
                    lemma_digit_run(s, a + 1, k2);
                    lemma_digits_end(s, a + 1);
                    if k2 < b {
                        assert(is_digit(s[k2]));
                    }
                    assert(k2 == b);
                } else {
                    assert(k2 == b);
                }
                if b < s.len() && (s[b] == LOWER_E || s[b] == UPPER_E) {
                    lemma_digits_end(s, b + 1);
                    lemma_digits_end(s, b + 2);
                    if digit_span(s, b + 1, e2) {
                        lemma_digit_run(s, b + 1, e2);
                    } else {
                        lemma_digit_run(s, b + 2, e2);
                    }
                    assert(false);
                } else {
                    assert(false);
                }
            }
        }
    }
}

/// Formatting succeeds exactly when the input holds one value (after an
/// optional byte-order mark and whitespace) followed by whitespace alone; the
/// first other byte after the value is reported, with its offset.
pub proof fn law_one_value(s: Seq<u8>, c: Color)
    ensures
        formatted(s, c) is Ok <==> (value(s, doc_start(s), 0, c) matches Ok((k, _)) && {
            let q = doc_start(s) + k + ws_len(s, doc_start(s) + k);
            q >= s.len()
        }),
        value(s, doc_start(s), 0, c) matches Ok((k, _)) ==> {
            let q = doc_start(s) + k + ws_len(s, doc_start(s) + k);
            q < s.len() ==> formatted(s, c) == Err::<Seq<u8>, FormatError>(
                FormatError::InvalidByte(s[q], BytePos(q as usize)),
            )
        },
{
}

} // verus!
