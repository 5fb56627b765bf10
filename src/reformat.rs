//! Formatting is idempotent: the formatter's plain output, formatted again,
//! comes out unchanged.
//!
//! The proof rescans each piece of output where it stands in the new input:
//! strings, numbers and literals are copied verbatim, so their scanners take
//! the same decisions on the copy; containers are rebuilt from their members.
use vstd::prelude::*;
use crate::grammar::{
    COLON, COMMA, LBRACE, LBRACKET, LF, LOWER_F, LOWER_N, LOWER_T, false_bytes, is_ws,
    literal_fault, null_bytes, true_bytes, ws_len, BACKSLASH, DOT, LOWER_E, MINUS, QUOTE, SPACE, UPPER_E, ZERO, NINE, digits_end,
    exp_part, frac_part, int_part, is_digit, is_simple_escape, number_end, sign_end,
};
use crate::document::{
    MAX_INDENT_LEVEL, bom_len, container, prefixed, doc_start, formatted, lemma_string_end_bounds, lemma_string_rest_bounds,
    member, members_first, members_rest, remaining, string_end, string_rest, utf8_end, value,
};
use crate::style::{begin_tok, closer, indent, name_sep_tok, opener, value_sep_tok, Color};
use crate::format::FormatError;
use crate::laws::{lemma_digits_end, law_number_maximal};

verus! {

/// `t[q..q + n]` holds the same bytes as `s[p..p + n]`.
pub open spec fn agree(s: Seq<u8>, p: int, t: Seq<u8>, q: int, n: int) -> bool {
    &&& 0 <= p
    &&& 0 <= q
    &&& 0 <= n
    &&& p + n <= s.len()
    &&& q + n <= t.len()
    &&& t.subrange(q, q + n) == s.subrange(p, p + n)
}

proof fn lemma_agree_at(s: Seq<u8>, p: int, t: Seq<u8>, q: int, n: int, i: int)
    requires
        agree(s, p, t, q, n),
        0 <= i < n,
    ensures
        t[q + i] == s[p + i],
{
    assert(t.subrange(q, q + n)[i] == s.subrange(p, p + n)[i]);
}

proof fn lemma_agree_head(s: Seq<u8>, p: int, t: Seq<u8>, q: int, n: int)
    requires
        agree(s, p, t, q, n),
    ensures
        n > 0 ==> t[q] == s[p],
        n > 1 ==> t[q + 1] == s[p + 1],
        n > 2 ==> t[q + 2] == s[p + 2],
        n > 3 ==> t[q + 3] == s[p + 3],
        n > 4 ==> t[q + 4] == s[p + 4],
        n > 5 ==> t[q + 5] == s[p + 5],
{
    if n > 0 {
        lemma_agree_at(s, p, t, q, n, 0);
    }
    if n > 1 {
        lemma_agree_at(s, p, t, q, n, 1);
    }
    if n > 2 {
        lemma_agree_at(s, p, t, q, n, 2);
    }
    if n > 3 {
        lemma_agree_at(s, p, t, q, n, 3);
    }
    if n > 4 {
        lemma_agree_at(s, p, t, q, n, 4);
    }
    if n > 5 {
        lemma_agree_at(s, p, t, q, n, 5);
    }
}

proof fn lemma_agree_drop(s: Seq<u8>, p: int, t: Seq<u8>, q: int, n: int, j: int)
    requires
        agree(s, p, t, q, n),
        0 <= j <= n,
    ensures
        agree(s, p + j, t, q + j, n - j),
{
    assert(t.subrange(q + j, q + n) =~= t.subrange(q, q + n).subrange(j, n));
    assert(s.subrange(p + j, p + n) =~= s.subrange(p, p + n).subrange(j, n));
}

/// The string scanner reads nothing past the closing quote, so a copy of a
/// string scans the same.
proof fn lemma_string_rest_copy(s: Seq<u8>, p: int, t: Seq<u8>, q: int, e: int)
    requires
        string_rest(s, p) == Ok::<int, FormatError>(e),
        agree(s, p, t, q, e - p),
    ensures
        string_rest(t, q) == Ok::<int, FormatError>(q + (e - p)),
    decreases s.len() - p,
{
    lemma_string_rest_bounds(s, p);
    let n = e - p;
    lemma_agree_head(s, p, t, q, n);
    if s[p] == QUOTE {
    } else if s[p] == BACKSLASH {
        if is_simple_escape(s[p + 1]) {
            lemma_string_rest_bounds(s, p + 2);
            lemma_agree_drop(s, p, t, q, n, 2);
            lemma_string_rest_copy(s, p + 2, t, q + 2, e);
        } else {
            lemma_string_rest_bounds(s, p + 6);
            lemma_agree_drop(s, p, t, q, n, 6);
            lemma_string_rest_copy(s, p + 6, t, q + 6, e);
        }
    } else {
        let e1 = utf8_end(s, p)->Ok_0;
        lemma_string_rest_bounds(s, e1);
        lemma_agree_drop(s, p, t, q, n, e1 - p);
        lemma_string_rest_copy(s, e1, t, q + (e1 - p), e);
    }
}

pub proof fn lemma_string_copy(s: Seq<u8>, p: int, t: Seq<u8>, q: int, e: int)
    requires
        string_end(s, p) == Ok::<int, FormatError>(e),
        agree(s, p, t, q, e - p),
    ensures
        string_end(t, q) == Ok::<int, FormatError>(q + (e - p)),
{
    lemma_string_rest_bounds(s, p + 1);
    lemma_agree_head(s, p, t, q, e - p);
    lemma_agree_drop(s, p, t, q, e - p, 1);
    lemma_string_rest_copy(s, p + 1, t, q + 1, e);
}

/// Nothing at `y` could extend a number that ends there.
pub open spec fn ends_number(t: Seq<u8>, y: int) -> bool {
    y >= t.len() || !(is_digit(t[y]) || t[y] == DOT || t[y] == LOWER_E || t[y] == UPPER_E)
}

/// A run of digits inside `s[x..e]` is as long in a copy that is followed by
/// no digit.
proof fn lemma_digits_copy(s: Seq<u8>, x: int, t: Seq<u8>, d: int, e: int)
    requires
        0 <= x <= e <= s.len(),
        digits_end(s, x) <= e,
        agree(s, x, t, x + d, e - x),
        digits_end(s, x) == e ==> e + d >= t.len() || !is_digit(t[e + d]),
    ensures
        digits_end(t, x + d) == digits_end(s, x) + d,
    decreases e - x,
{
    lemma_digits_end(s, x);
    lemma_agree_head(s, x, t, x + d, e - x);
    if x < e && is_digit(s[x]) {
        lemma_agree_drop(s, x, t, x + d, e - x, 1);
        lemma_digits_copy(s, x + 1, t, d, e);
    }
}

/// A copy of a number, followed by a byte that cannot extend it, scans the same.
pub proof fn lemma_number_copy(s: Seq<u8>, p: int, t: Seq<u8>, q: int, e: int)
    requires
        0 <= p <= s.len(),
        number_end(s, p) == Ok::<int, int>(e),
        agree(s, p, t, q, e - p),
        ends_number(t, q + (e - p)),
    ensures
        number_end(t, q) == Ok::<int, int>(q + (e - p)),
{
    let d = q - p;
    let i = sign_end(s, p);
    let a = int_part(s, i)->Ok_0;
    let b = frac_part(s, a)->Ok_0;
    if 0 <= i < s.len() && ZERO < s[i] <= NINE {
        lemma_digits_end(s, i + 1);
    }
    if 0 <= a < s.len() && s[a] == DOT && a + 1 < s.len() {
        lemma_digits_end(s, a + 2);
    }
    let r = if b + 1 < s.len() && (s[b + 1] == crate::grammar::PLUS || s[b + 1] == MINUS) {
        b + 2
    } else {
        b + 1
    };
    if 0 <= b < s.len() && (s[b] == LOWER_E || s[b] == UPPER_E) && r < s.len() {
        lemma_digits_end(s, r + 1);
    }
    assert(p <= i < a <= b <= e);
    lemma_agree_head(s, p, t, q, e - p);
    assert(sign_end(t, q) == i + d);
    lemma_agree_drop(s, p, t, q, e - p, i - p);
    lemma_agree_head(s, i, t, i + d, e - i);
    if s[i] != ZERO {
        lemma_agree_drop(s, i, t, i + d, e - i, 1);
        lemma_digits_copy(s, i + 1, t, d, e);
    }
    assert(int_part(t, i + d) == Ok::<int, int>(a + d));
    lemma_agree_drop(s, p, t, q, e - p, a - p);
    lemma_agree_head(s, a, t, a + d, e - a);
    if a < e && s[a] == DOT {
        lemma_agree_drop(s, a, t, a + d, e - a, 2);
        lemma_digits_copy(s, a + 2, t, d, e);
    }
    assert(frac_part(t, a + d) == Ok::<int, int>(b + d));
    lemma_agree_drop(s, p, t, q, e - p, b - p);
    lemma_agree_head(s, b, t, b + d, e - b);
    if b < e {
        lemma_agree_drop(s, b, t, b + d, e - b, r + 1 - b);
        lemma_digits_copy(s, r + 1, t, d, e);
    }
    assert(exp_part(t, b + d) == Ok::<int, int>(e + d));
}

/// What may follow a value in plain formatted output: the end, a comma or a
/// line break.
pub open spec fn after_value(t: Seq<u8>, y: int) -> bool {
    y >= t.len() || t[y] == COMMA || t[y] == LF
}

/// The bytes that can start a value.
pub open spec fn value_head(b: u8) -> bool {
    b == QUOTE || b == MINUS || is_digit(b) || b == LBRACE || b == LBRACKET || b == LOWER_T
        || b == LOWER_F || b == LOWER_N
}

/// `t[q..q + o.len()]` is `o`.
pub open spec fn holds_at(t: Seq<u8>, q: int, o: Seq<u8>) -> bool {
    0 <= q && q + o.len() <= t.len() && t.subrange(q, q + o.len()) == o
}

proof fn lemma_holds_at(t: Seq<u8>, q: int, o: Seq<u8>, i: int)
    requires
        holds_at(t, q, o),
        0 <= i < o.len(),
    ensures
        t[q + i] == o[i],
{
    assert(t.subrange(q, q + o.len())[i] == o[i]);
}

proof fn lemma_holds_part(t: Seq<u8>, q: int, o: Seq<u8>, a: int, b: int)
    requires
        holds_at(t, q, o),
        0 <= a <= b <= o.len(),
    ensures
        holds_at(t, q + a, o.subrange(a, b)),
{
    assert(t.subrange(q + a, q + b) =~= t.subrange(q, q + o.len()).subrange(a, b));
}

/// `n` whitespace bytes from `x` on, and no more.
proof fn lemma_ws_run(t: Seq<u8>, x: int, n: int)
    requires
        0 <= x,
        0 <= n,
        x + n <= t.len(),
        forall|j: int| x <= j < x + n ==> is_ws(#[trigger] t[j]),
        x + n == t.len() || !is_ws(t[x + n]),
    ensures
        ws_len(t, x) == n,
    decreases n,
{
    if n > 0 {
        assert(is_ws(t[x]));
        lemma_ws_run(t, x + 1, n - 1);
    }
}

/// A line break and `ind` spaces at `q` in `t`, then a byte that is no whitespace.
proof fn lemma_break_and_indent(t: Seq<u8>, q: int, o: Seq<u8>, ind: nat)
    requires
        holds_at(t, q, o),
        o.len() > 1 + 2 * ind,
        o[0] == LF,
        o.subrange(1, 1 + 2 * ind as int) == indent(ind),
        !is_ws(o[1 + 2 * ind as int]),
    ensures
        ws_len(t, q) == 1 + 2 * ind,
{
    assert forall|j: int| q <= j < q + 1 + 2 * ind implies is_ws(#[trigger] t[j]) by {
        lemma_holds_at(t, q, o, j - q);
        if j > q {
            assert(o.subrange(1, 1 + 2 * ind as int)[j - q - 1] == o[j - q]);
        }
    }
    lemma_holds_at(t, q, o, 1 + 2 * ind as int);
    lemma_ws_run(t, q, 1 + 2 * ind as int);
}

proof fn lemma_literal_copy(t: Seq<u8>, q: int, lit: Seq<u8>, i: nat)
    requires
        holds_at(t, q, lit),
        i <= lit.len(),
    ensures
        literal_fault(t, q, lit, i) is None,
    decreases lit.len() - i,
{
    if i < lit.len() {
        lemma_holds_at(t, q, lit, i as int);
        lemma_literal_copy(t, q, lit, i + 1);
    }
}

proof fn lemma_value_head(s: Seq<u8>, p: int, level: nat)
    requires
        0 <= p,
        value(s, p, level, Color::NoColor) is Ok,
    ensures
        ({
            let o = value(s, p, level, Color::NoColor)->Ok_0.1;
            o.len() > 0 && value_head(o[0])
        }),
{
    if s[p] == QUOTE {
        lemma_string_end_bounds(s, p);
    } else if s[p] == MINUS || is_digit(s[p]) {
        law_number_maximal(s, p);
    }
}

proof fn lemma_member_head(s: Seq<u8>, p: int, level: nat, obj: bool)
    requires
        0 <= p,
        member(s, p, level, Color::NoColor, obj) is Ok,
    ensures
        ({
            let o = member(s, p, level, Color::NoColor, obj)->Ok_0.1;
            o.len() > 0 && value_head(o[0])
        }),
{
    if obj {
        lemma_string_end_bounds(s, p);
    } else {
        lemma_value_head(s, p, level);
    }
}

proof fn lemma_rest_head(s: Seq<u8>, p: int, level: nat, obj: bool)
    requires
        members_rest(s, p, level, Color::NoColor, obj) is Ok,
    ensures
        ({
            let o = members_rest(s, p, level, Color::NoColor, obj)->Ok_0.1;
            o.len() > 0 && (o[0] == COMMA || o[0] == LF)
        }),
{
}

proof fn lemma_open_container(t: Seq<u8>, q: int, level: nat, obj: bool)
    requires
        0 <= q < t.len(),
        t[q] == opener(obj),
        !(q + 1 + ws_len(t, q + 1) < t.len() && t[q + 1 + ws_len(t, q + 1)] == closer(obj)),
        level < MAX_INDENT_LEVEL,
    ensures
        container(t, q, level, Color::NoColor, obj) == prefixed(
            members_first(t, q + 1 + ws_len(t, q + 1), level + 1, Color::NoColor, obj),
            1 + ws_len(t, q + 1),
            seq![opener(obj), LF],
        ),
{
    assert(begin_tok(Color::NoColor, obj) =~= seq![opener(obj), LF]);
}

proof fn lemma_first_member(t: Seq<u8>, q: int, level: nat, obj: bool, k: nat, mo: Seq<u8>)
    requires
        member(t, q, level, Color::NoColor, obj) == Ok::<(nat, Seq<u8>), FormatError>((k, mo)),
    ensures
        members_first(t, q, level, Color::NoColor, obj) == prefixed(
            members_rest(t, q + k + ws_len(t, q + k), level, Color::NoColor, obj),
            k + ws_len(t, q + k),
            indent(level) + mo,
        ),
{
}

proof fn lemma_next_member(t: Seq<u8>, q: int, level: nat, obj: bool, k: nat, mo: Seq<u8>)
    requires
        0 <= q < t.len(),
        t[q] == COMMA,
        member(t, q + 1 + ws_len(t, q + 1), level, Color::NoColor, obj) == Ok::<(nat, Seq<u8>), FormatError>((k, mo)),
    ensures
        ({
            let q0 = q + 1 + ws_len(t, q + 1);
            members_rest(t, q, level, Color::NoColor, obj) == prefixed(
                members_rest(t, q0 + k + ws_len(t, q0 + k), level, Color::NoColor, obj),
                1 + ws_len(t, q + 1) + k + ws_len(t, q0 + k),
                seq![COMMA, LF] + indent(level) + mo,
            )
        }),
{
    assert(value_sep_tok(Color::NoColor) =~= seq![COMMA, LF]);
}

proof fn lemma_keyed_member(t: Seq<u8>, q: int, level: nat, e1: int)
    requires
        0 <= q,
        string_end(t, q) == Ok::<int, FormatError>(e1),
        ws_len(t, e1) == 0,
        0 <= e1 < t.len(),
        t[e1] == COLON,
    ensures
        member(t, q, level, Color::NoColor, true) == prefixed(
            value(t, e1 + 1 + ws_len(t, e1 + 1), level, Color::NoColor),
            (e1 + 1 + ws_len(t, e1 + 1) - q) as nat,
            t.subrange(q, e1) + seq![COLON, SPACE],
        ),
{
    assert(name_sep_tok(Color::NoColor) =~= seq![COLON, SPACE]);
}

proof fn lemma_value_copy(s: Seq<u8>, p: int, level: nat, t: Seq<u8>, q: int)
    requires
        0 <= p,
        value(s, p, level, Color::NoColor) is Ok,
        holds_at(t, q, value(s, p, level, Color::NoColor)->Ok_0.1),
        after_value(t, q + value(s, p, level, Color::NoColor)->Ok_0.1.len()),
    ensures
        ({
            let o = value(s, p, level, Color::NoColor)->Ok_0.1;
            value(t, q, level, Color::NoColor) == Ok::<(nat, Seq<u8>), FormatError>((o.len(), o))
        }),
    decreases remaining(s, p), 3int,
{
    let o = value(s, p, level, Color::NoColor)->Ok_0.1;
    lemma_value_head(s, p, level);
    lemma_holds_at(t, q, o, 0);
    if s[p] == QUOTE {
        let e = string_end(s, p)->Ok_0;
        lemma_string_end_bounds(s, p);
        lemma_string_copy(s, p, t, q, e);
    } else if s[p] == MINUS || is_digit(s[p]) {
        let e = number_end(s, p)->Ok_0;
        law_number_maximal(s, p);
        lemma_number_copy(s, p, t, q, e);
    } else if s[p] == LBRACE {
        lemma_container_copy(s, p, level, true, t, q);
    } else if s[p] == LBRACKET {
        lemma_container_copy(s, p, level, false, t, q);
    } else if s[p] == LOWER_T {
        lemma_literal_copy(t, q, true_bytes(), 0);
    } else if s[p] == LOWER_F {
        lemma_literal_copy(t, q, false_bytes(), 0);
    } else {
        lemma_literal_copy(t, q, null_bytes(), 0);
    }
}

proof fn lemma_container_copy(s: Seq<u8>, p: int, level: nat, obj: bool, t: Seq<u8>, q: int)
    requires
        0 <= p,
        container(s, p, level, Color::NoColor, obj) is Ok,
        holds_at(t, q, container(s, p, level, Color::NoColor, obj)->Ok_0.1),
        after_value(t, q + container(s, p, level, Color::NoColor, obj)->Ok_0.1.len()),
    ensures
        ({
            let o = container(s, p, level, Color::NoColor, obj)->Ok_0.1;
            container(t, q, level, Color::NoColor, obj) == Ok::<(nat, Seq<u8>), FormatError>((o.len(), o))
        }),
    decreases remaining(s, p), 2int,
{
    let w = ws_len(s, p + 1);
    let q0 = p + 1 + w;
    if q0 < s.len() && s[q0] == closer(obj) {
        lemma_empty_container_copy(s, p, level, obj, t, q);
    } else {
        lemma_open_container_copy(s, p, level, obj, t, q);
    }
}

proof fn lemma_empty_container_copy(s: Seq<u8>, p: int, level: nat, obj: bool, t: Seq<u8>, q: int)
    requires
        0 <= p,
        container(s, p, level, Color::NoColor, obj) is Ok,
        p + 1 + ws_len(s, p + 1) < s.len(),
        s[p + 1 + ws_len(s, p + 1)] == closer(obj),
        holds_at(t, q, container(s, p, level, Color::NoColor, obj)->Ok_0.1),
    ensures
        ({
            let o = container(s, p, level, Color::NoColor, obj)->Ok_0.1;
            container(t, q, level, Color::NoColor, obj) == Ok::<(nat, Seq<u8>), FormatError>((o.len(), o))
        }),
{
    let o = container(s, p, level, Color::NoColor, obj)->Ok_0.1;
    assert(o =~= seq![opener(obj), closer(obj)]);
    lemma_holds_at(t, q, o, 0);
    lemma_holds_at(t, q, o, 1);
    lemma_ws_run(t, q + 1, 0);
}

#[verifier::rlimit(100)]
proof fn lemma_open_container_copy(s: Seq<u8>, p: int, level: nat, obj: bool, t: Seq<u8>, q: int)
    requires
        0 <= p,
        container(s, p, level, Color::NoColor, obj) is Ok,
        !(p + 1 + ws_len(s, p + 1) < s.len() && s[p + 1 + ws_len(s, p + 1)] == closer(obj)),
        holds_at(t, q, container(s, p, level, Color::NoColor, obj)->Ok_0.1),
        after_value(t, q + container(s, p, level, Color::NoColor, obj)->Ok_0.1.len()),
    ensures
        ({
            let o = container(s, p, level, Color::NoColor, obj)->Ok_0.1;
            container(t, q, level, Color::NoColor, obj) == Ok::<(nat, Seq<u8>), FormatError>((o.len(), o))
        }),
    decreases remaining(s, p), 1int,
{
    let o = container(s, p, level, Color::NoColor, obj)->Ok_0.1;
    let q0 = p + 1 + ws_len(s, p + 1);
    let ind = level + 1;
    let n: int = 2 * ind as int;
    assert(level < MAX_INDENT_LEVEL);
    lemma_open_container(s, p, level, obj);
    let m = members_first(s, q0, ind, Color::NoColor, obj)->Ok_0.1;
    assert(o =~= seq![opener(obj), LF] + m);
    lemma_holds_at(t, q, o, 0);
    lemma_holds_part(t, q, o, 2, o.len() as int);
    assert(o.subrange(2, o.len() as int) =~= m);
    lemma_members_first_copy(s, q0, ind, obj, t, q + 2);
    let tail = o.subrange(1, o.len() as int);
    assert(tail[0] == LF);
    assert(tail.subrange(1, 1 + n) =~= m.subrange(0, n));
    assert(tail[1 + n] == m[n]);
    lemma_holds_part(t, q, o, 1, o.len() as int);
    lemma_break_and_indent(t, q + 1, tail, ind);
    lemma_holds_at(t, q, o, 2 + n);
    lemma_open_container(t, q, level, obj);
}

#[verifier::rlimit(100)]
proof fn lemma_members_first_copy(s: Seq<u8>, p: int, level: nat, obj: bool, t: Seq<u8>, q: int)
    requires
        0 <= p,
        members_first(s, p, level, Color::NoColor, obj) is Ok,
        holds_at(t, q, members_first(s, p, level, Color::NoColor, obj)->Ok_0.1),
        after_value(t, q + members_first(s, p, level, Color::NoColor, obj)->Ok_0.1.len()),
    ensures
        ({
            let o = members_first(s, p, level, Color::NoColor, obj)->Ok_0.1;
            &&& o.len() > 2 * level
            &&& o.subrange(0, 2 * level as int) == indent(level)
            &&& value_head(o[2 * level as int])
            &&& members_first(t, q + 2 * level, level, Color::NoColor, obj)
                == Ok::<(nat, Seq<u8>), FormatError>(((o.len() - 2 * level) as nat, o))
        }),
    decreases remaining(s, p), 5int,
{
    let o = members_first(s, p, level, Color::NoColor, obj)->Ok_0.1;
    let (k1, mo) = member(s, p, level, Color::NoColor, obj)->Ok_0;
    let x = p + k1;
    let w = ws_len(s, x);
    let ro = members_rest(s, x + w, level, Color::NoColor, obj)->Ok_0.1;
    let n: int = 2 * level as int;
    assert(o =~= indent(level) + mo + ro);
    lemma_member_head(s, p, level, obj);
    lemma_rest_head(s, x + w, level, obj);
    assert(o.subrange(0, n) =~= indent(level));
    assert(o[n] == mo[0]);
    lemma_holds_part(t, q, o, n, n + (mo.len() as int));
    assert(o.subrange(n, n + (mo.len() as int)) =~= mo);
    lemma_holds_at(t, q, o, n + (mo.len() as int));
    assert(o[n + (mo.len() as int)] == ro[0]);
    lemma_member_copy(s, p, level, obj, t, q + n);
    lemma_holds_part(t, q, o, n + (mo.len() as int), o.len() as int);
    assert(o.subrange(n + (mo.len() as int), o.len() as int) =~= ro);
    lemma_members_rest_copy(s, x + w, level, obj, t, q + n + (mo.len() as int));
    lemma_first_member(t, q + n, level, obj, mo.len(), mo);
    assert(indent(level) + mo + ro =~= o);
}

#[verifier::rlimit(100)]
proof fn lemma_members_rest_copy(s: Seq<u8>, p: int, level: nat, obj: bool, t: Seq<u8>, q: int)
    requires
        0 <= p,
        members_rest(s, p, level, Color::NoColor, obj) is Ok,
        holds_at(t, q, members_rest(s, p, level, Color::NoColor, obj)->Ok_0.1),
        after_value(t, q + members_rest(s, p, level, Color::NoColor, obj)->Ok_0.1.len()),
    ensures
        ({
            let o = members_rest(s, p, level, Color::NoColor, obj)->Ok_0.1;
            &&& ws_len(t, q) <= o.len()
            &&& members_rest(t, q + ws_len(t, q), level, Color::NoColor, obj)
                == Ok::<(nat, Seq<u8>), FormatError>(((o.len() - ws_len(t, q)) as nat, o))
        }),
    decreases remaining(s, p), 0int,
{
    let o = members_rest(s, p, level, Color::NoColor, obj)->Ok_0.1;
    if 0 <= p < s.len() && s[p] == closer(obj) {
        let ind = (level - 1) as nat;
        assert(o =~= seq![LF] + indent(ind) + seq![closer(obj)]);
        assert(o.subrange(1, 1 + 2 * ind as int) =~= indent(ind));
        lemma_break_and_indent(t, q, o, ind);
        lemma_holds_at(t, q, o, 1 + 2 * ind as int);
    } else {
        let w1 = ws_len(s, p + 1);
        let q0 = p + 1 + w1;
        let (k, mo) = member(s, q0, level, Color::NoColor, obj)->Ok_0;
        let w2 = ws_len(s, q0 + k);
        let ro = members_rest(s, q0 + k + w2, level, Color::NoColor, obj)->Ok_0.1;
        let n: int = 2 * level as int;
        assert(o =~= seq![COMMA, LF] + indent(level) + mo + ro);
        lemma_member_head(s, q0, level, obj);
        lemma_rest_head(s, q0 + k + w2, level, obj);
        lemma_holds_at(t, q, o, 0);
        lemma_ws_run(t, q, 0);
        lemma_holds_part(t, q, o, 1, o.len() as int);
        assert(o.subrange(1, o.len() as int).subrange(1, 1 + n) =~= indent(level));
        assert(o.subrange(1, o.len() as int)[1 + n] == mo[0]);
        lemma_break_and_indent(t, q + 1, o.subrange(1, o.len() as int), level);
        lemma_holds_part(t, q, o, 2 + n, 2 + n + (mo.len() as int));
        assert(o.subrange(2 + n, 2 + n + (mo.len() as int)) =~= mo);
        lemma_holds_at(t, q, o, 2 + n + (mo.len() as int));
        assert(o[2 + n + (mo.len() as int)] == ro[0]);
        lemma_member_copy(s, q0, level, obj, t, q + 2 + n);
        lemma_holds_part(t, q, o, 2 + n + (mo.len() as int), o.len() as int);
        assert(o.subrange(2 + n + (mo.len() as int), o.len() as int) =~= ro);
        lemma_members_rest_copy(s, q0 + k + w2, level, obj, t, q + 2 + n + (mo.len() as int));
        lemma_next_member(t, q, level, obj, mo.len(), mo);
        assert(seq![COMMA, LF] + indent(level) + mo + ro =~= o);
    }
}

proof fn lemma_member_copy(s: Seq<u8>, p: int, level: nat, obj: bool, t: Seq<u8>, q: int)
    requires
        0 <= p,
        member(s, p, level, Color::NoColor, obj) is Ok,
        holds_at(t, q, member(s, p, level, Color::NoColor, obj)->Ok_0.1),
        after_value(t, q + member(s, p, level, Color::NoColor, obj)->Ok_0.1.len()),
    ensures
        ({
            let o = member(s, p, level, Color::NoColor, obj)->Ok_0.1;
            member(t, q, level, Color::NoColor, obj) == Ok::<(nat, Seq<u8>), FormatError>((o.len(), o))
        }),
    decreases remaining(s, p), 4int,
{
    let o = member(s, p, level, Color::NoColor, obj)->Ok_0.1;
    if obj {
        let e1 = string_end(s, p)->Ok_0;
        lemma_string_end_bounds(s, p);
        let key = s.subrange(p, e1);
        let r = e1 + ws_len(s, e1);
        let v = r + 1 + ws_len(s, r + 1);
        let vo = value(s, v, level, Color::NoColor)->Ok_0.1;
        assert(o =~= key + seq![COLON, SPACE] + vo);
        let n: int = key.len() as int;
        lemma_holds_part(t, q, o, 0, n);
        assert(o.subrange(0, n) =~= key);
        lemma_string_copy(s, p, t, q, e1);
        lemma_holds_at(t, q, o, n);
        lemma_ws_run(t, q + n, 0);
        lemma_holds_at(t, q, o, n + 1);
        lemma_value_head(s, v, level);
        lemma_holds_at(t, q, o, n + 2);
        assert(o[n + 2] == vo[0]);
        assert(is_ws(t[q + n + 1]));
        lemma_ws_run(t, q + n + 1, 1);
        lemma_holds_part(t, q, o, n + 2, o.len() as int);
        assert(o.subrange(n + 2, o.len() as int) =~= vo);
        lemma_value_copy(s, v, level, t, q + n + 2);
        assert(t.subrange(q, q + n) =~= key);
        lemma_keyed_member(t, q, level, q + n);
        assert(o =~= t.subrange(q, q + n) + seq![COLON, SPACE] + vo);
    } else {
        lemma_value_copy(s, p, level, t, q);
    }
}

/// Formatting in plain mode is idempotent: formatting the output again gives
/// the same bytes. (Colour codes are not JSON, so this holds of plain output.)
pub proof fn law_idempotent(s: Seq<u8>)
    ensures
        formatted(s, Color::NoColor) matches Ok(o) ==> formatted(o, Color::NoColor) == Ok::<Seq<u8>, FormatError>(o),
{
    if let Ok(o) = formatted(s, Color::NoColor) {
        let p = doc_start(s);
        assert(0 <= p);
        lemma_value_head(s, p, 0);
        assert(o.subrange(0, o.len() as int) =~= o);
        lemma_value_copy(s, p, 0, o, 0);
        assert(bom_len(o) == 0);
        assert(ws_len(o, 0) == 0);
        assert(ws_len(o, o.len() as int) == 0);
    }
}

} // verus!
