//! A plainer pretty-printer: no colours, no byte-order mark, no compact form
//! for empty containers, no depth limit, and a UTF-8 decoder that only
//! refuses what is no Unicode scalar value once decoded.
use vstd::prelude::*;
use crate::grammar::{
    BACKSLASH, COLON, COMMA, CR, DOT, LBRACE, LBRACKET, LF, LOWER_A, LOWER_B, LOWER_E, LOWER_F,
    LOWER_L, LOWER_N, LOWER_R, LOWER_S, LOWER_T, LOWER_U, MINUS, NINE, PLUS, QUOTE, RBRACE,
    RBRACKET, SLASH, SPACE, TAB, UPPER_A, UPPER_E, UPPER_F, ZERO, digits_end, exp_part,
    false_bytes, frac_part, hex4_fault, int_part, is_cont, is_digit, is_hex, is_scalar, is_simple_escape,
    literal_fault, null_bytes, number_end, true_bytes, ws_len,
};
use crate::style::{closer, indent, opener};
use crate::document::remaining;

verus! {

/// Why parsing stopped.
#[derive(Debug, Copy, Clone, PartialEq, Eq, Structural)]
pub enum ParseError {
    Eof,
    InvalidByte(u8),
    InvalidUtf8,
    InvalidEscape(u8),
}

/// What the parser consumed (a byte count) and wrote, or why it stopped.
pub type Parsed = Result<(nat, Seq<u8>), ParseError>;

/// The error for an unexpected byte at `p`, or for the end of the input.
pub open spec fn fault_at(s: Seq<u8>, p: int) -> ParseError {
    if 0 <= p < s.len() {
        ParseError::InvalidByte(s[p])
    } else {
        ParseError::Eof
    }
}

/// `r`, after `d` more bytes consumed and `pre` written before it.
pub open spec fn after_prefix(r: Parsed, d: nat, pre: Seq<u8>) -> Parsed {
    match r {
        Ok((k, o)) => Ok((d + k, pre + o)),
        Err(e) => Err(e),
    }
}

/// The scalar value of the two-byte sequence `b1 b2`.
pub open spec fn decode2(b1: u8, b2: u8) -> int {
    (b1 - 0xc0) * 64 + (b2 - 0x80)
}

pub open spec fn decode3(b1: u8, b2: u8, b3: u8) -> int {
    (b1 - 0xe0) * 4096 + (b2 - 0x80) * 64 + (b3 - 0x80)
}

pub open spec fn decode4(b1: u8, b2: u8, b3: u8, b4: u8) -> int {
    (b1 - 0xf0) * 262144 + (b2 - 0x80) * 4096 + (b3 - 0x80) * 64 + (b4 - 0x80)
}

/// One UTF-8 sequence at `p`, read by its length bits alone: the offset after
/// it and its value, or the error.
pub open spec fn char_end(s: Seq<u8>, p: int) -> Result<(int, int), ParseError> {
    if !(0 <= p < s.len()) {
        Err(ParseError::Eof)
    } else if s[p] < 0x80 {
        Ok((p + 1, s[p] as int))
    } else if !(0xc0 <= s[p] <= 0xf7) {
        Err(ParseError::InvalidUtf8)
    } else if p + 1 >= s.len() {
        Err(ParseError::Eof)
    } else if !is_cont(s[p + 1]) {
        Err(ParseError::InvalidUtf8)
    } else if s[p] <= 0xdf {
        Ok((p + 2, decode2(s[p], s[p + 1])))
    } else if p + 2 >= s.len() {
        Err(ParseError::Eof)
    } else if !is_cont(s[p + 2]) {
        Err(ParseError::InvalidUtf8)
    } else if s[p] <= 0xef {
        if is_scalar(decode3(s[p], s[p + 1], s[p + 2])) {
            Ok((p + 3, decode3(s[p], s[p + 1], s[p + 2])))
        } else {
            Err(ParseError::InvalidUtf8)
        }
    } else if p + 3 >= s.len() {
        Err(ParseError::Eof)
    } else if !is_cont(s[p + 3]) {
        Err(ParseError::InvalidUtf8)
    } else if is_scalar(decode4(s[p], s[p + 1], s[p + 2], s[p + 3])) {
        Ok((p + 4, decode4(s[p], s[p + 1], s[p + 2], s[p + 3])))
    } else {
        Err(ParseError::InvalidUtf8)
    }
}

/// The rest of a string whose opening quote is before `p`.
pub open spec fn text_rest(s: Seq<u8>, p: int) -> Result<int, ParseError>
    decreases s.len() - p,
{
    if !(0 <= p < s.len()) {
        Err(ParseError::Eof)
    } else if s[p] == QUOTE {
        Ok(p + 1)
    } else if s[p] == BACKSLASH {
        if p + 1 >= s.len() {
            Err(ParseError::Eof)
        } else if is_simple_escape(s[p + 1]) {
            text_rest(s, p + 2)
        } else if s[p + 1] == LOWER_U {
            match hex4_fault(s, p + 2) {
                Some(q) => Err(fault_at(s, q)),
                None => text_rest(s, p + 6),
            }
        } else {
            Err(ParseError::InvalidEscape(s[p + 1]))
        }
    } else if s[p] < SPACE {
        Err(ParseError::InvalidByte(s[p]))
    } else {
        match char_end(s, p) {
            Ok((e, _)) => text_rest(s, e),
            Err(x) => Err(x),
        }
    }
}

/// The string that starts at `p`: the offset after its closing quote, or the error.
pub open spec fn text_end(s: Seq<u8>, p: int) -> Result<int, ParseError> {
    if 0 <= p < s.len() && s[p] == QUOTE {
        text_rest(s, p + 1)
    } else {
        Err(fault_at(s, p))
    }
}

pub proof fn lemma_text_rest_bounds(s: Seq<u8>, p: int)
    requires
        0 <= p,
    ensures
        text_rest(s, p) matches Ok(e) ==> p < e <= s.len(),
    decreases s.len() - p,
{
    if 0 <= p < s.len() && s[p] != QUOTE {
        if s[p] == BACKSLASH {
            if p + 1 < s.len() {
                if is_simple_escape(s[p + 1]) {
                    lemma_text_rest_bounds(s, p + 2);
                } else if s[p + 1] == LOWER_U && hex4_fault(s, p + 2) is None {
                    lemma_text_rest_bounds(s, p + 6);
                }
            }
        } else if s[p] >= SPACE {
            if let Ok((e, _)) = char_end(s, p) {
                lemma_text_rest_bounds(s, e);
            }
        }
    }
}

/// A verbatim token from `p` to `end`.
pub open spec fn verbatim(s: Seq<u8>, p: int, end: int) -> Parsed {
    Ok(((end - p) as nat, s.subrange(p, end)))
}

pub open spec fn word(s: Seq<u8>, p: int, lit: Seq<u8>) -> Parsed {
    match literal_fault(s, p, lit, 0) {
        Some(q) => Err(fault_at(s, q)),
        None => Ok((lit.len(), lit)),
    }
}

/// The value that starts at `p`, at indentation `ind`.
pub open spec fn p_value(s: Seq<u8>, p: int, ind: nat) -> Parsed
    decreases remaining(s, p), 2int,
{
    if !(0 <= p < s.len()) {
        Err(ParseError::Eof)
    } else {
        let b = s[p];
        if b == QUOTE {
            match text_end(s, p) {
                Ok(e) => verbatim(s, p, e),
                Err(x) => Err(x),
            }
        } else if b == MINUS || is_digit(b) {
            match number_end(s, p) {
                Ok(e) => verbatim(s, p, e),
                Err(q) => Err(fault_at(s, q)),
            }
        } else if b == LBRACE {
            p_container(s, p, ind, true)
        } else if b == LBRACKET {
            p_container(s, p, ind, false)
        } else if b == LOWER_T {
            word(s, p, true_bytes())
        } else if b == LOWER_F {
            word(s, p, false_bytes())
        } else if b == LOWER_N {
            word(s, p, null_bytes())
        } else {
            Err(fault_at(s, p))
        }
    }
}

/// The object (`obj`) or array that starts at `p`, at indentation `ind`: its
/// opener, a line break, the members one level deeper, and the closer.
pub open spec fn p_container(s: Seq<u8>, p: int, ind: nat, obj: bool) -> Parsed
    decreases remaining(s, p), 1int,
{
    if !(0 <= p < s.len() && s[p] == opener(obj)) {
        Err(fault_at(s, p))
    } else {
        after_prefix(p_members(s, p + 1, ind + 1, obj, true), 1, seq![opener(obj), LF])
    }
}

/// The members of a container from `p` (before whitespace) on, at indentation
/// `ind`; `first` until a member has been read.
pub open spec fn p_members(s: Seq<u8>, p: int, ind: nat, obj: bool, first: bool) -> Parsed
    decreases remaining(s, p), if first { 4int } else { 0int },
{
    let w = ws_len(s, p);
    let q = p + w;
    if 0 <= q < s.len() && s[q] == closer(obj) {
        Ok((w + 1, indent((ind - 1) as nat) + seq![closer(obj)]))
    } else if !first && !(0 <= q < s.len() && s[q] == COMMA) {
        Err(fault_at(s, q))
    } else {
        let d: nat = if first { w } else { w + 1 + ws_len(s, q + 1) };
        let sep = if first { Seq::empty() } else { seq![COMMA, LF] };
        match p_member(s, p + d, ind, obj) {
            Err(e) => Err(e),
            Ok((k, o)) => after_prefix(p_members(s, p + d + k, ind, obj, false), d + k, sep + indent(ind) + o),
        }
    }
}

/// One member at `p`: `key: value` in an object, a value in an array.
pub open spec fn p_member(s: Seq<u8>, p: int, ind: nat, obj: bool) -> Parsed
    decreases remaining(s, p), 3int,
{
    if obj {
        match text_end(s, p) {
            Err(e) => Err(e),
            Ok(e1) => {
                let q = e1 + ws_len(s, e1);
                if !(0 <= q < s.len() && s[q] == COLON) {
                    Err(fault_at(s, q))
                } else {
                    let t = q + 1 + ws_len(s, q + 1);
                    proof {
                        if 0 <= p {
                            lemma_text_rest_bounds(s, p + 1);
                        }
                    }
                    after_prefix(p_value(s, t, ind), (t - p) as nat, s.subrange(p, e1) + seq![COLON, SPACE])
                }
            },
        }
    } else {
        p_value(s, p, ind)
    }
}

/// The document `s` printed: one value with whitespace around it.
pub open spec fn printed(s: Seq<u8>) -> Result<Seq<u8>, ParseError> {
    let p = ws_len(s, 0) as int;
    match p_value(s, p, 0) {
        Err(e) => Err(e),
        Ok((k, o)) => {
            let q = p + k + ws_len(s, p + k);
            if q < s.len() {
                Err(ParseError::InvalidByte(s[q]))
            } else {
                Ok(o)
            }
        },
    }
}


/// A JSON pretty-printer without colours and without a depth limit.
pub struct Parser<'input> {
    input: &'input [u8],
    pos: usize,
    indent: usize,
}

/// The state of a parser: input, cursor and indentation.
pub struct ParserView {
    pub input: Seq<u8>,
    pub pos: int,
    pub indent: nat,
}

impl ParserView {
    /// Each level of indentation stands for an opener already consumed.
    pub open spec fn wf(self) -> bool {
        0 <= self.pos <= self.input.len() && self.indent <= self.pos
    }

    pub open spec fn peek(self) -> Option<u8> {
        if 0 <= self.pos < self.input.len() {
            Some(self.input[self.pos])
        } else {
            None
        }
    }

    /// `prev` with the cursor moved to `pos` and nothing else changed.
    pub open spec fn at(self, prev: Self, pos: int) -> bool {
        self.input == prev.input && self.indent == prev.indent && self.pos == pos
    }

    /// Well formed, with `prev`'s input and the cursor no further back.
    pub open spec fn after(self, prev: Self) -> bool {
        self.wf() && self.input == prev.input && prev.pos <= self.pos
    }
}

impl<'input> View for Parser<'input> {
    type V = ParserView;

    closed spec fn view(&self) -> ParserView {
        ParserView { input: self.input@, pos: self.pos as int, indent: self.indent as nat }
    }
}

fn hex_digit(b: u8) -> (r: bool)
    ensures
        r == is_hex(b),
{
    (ZERO <= b && b <= NINE) || (UPPER_A <= b && b <= UPPER_F) || (LOWER_A <= b && b <= LOWER_F)
}

fn cont_byte(b: u8) -> (r: bool)
    ensures
        r == is_cont(b),
{
    0x80 <= b && b <= 0xbf
}

fn scalar(code: u32) -> (r: bool)
    ensures
        r == is_scalar(code as int),
{
    code <= 0x10ffff && !(0xd800 <= code && code <= 0xdfff)
}

fn push_bytes(out: &mut Vec<u8>, bytes: &[u8])
    ensures
        final(out)@ == old(out)@ + bytes@,
{
    let mut i: usize = 0;
    while i < bytes.len()
        invariant
            i <= bytes@.len(),
            out@ == old(out)@ + bytes@.subrange(0, i as int),
        decreases bytes@.len() - i,
    {
        out.push(bytes[i]);
        i = i + 1;
        assert(out@ =~= old(out)@ + bytes@.subrange(0, i as int));
    }
    assert(bytes@.subrange(0, i as int) =~= bytes@);
}

impl<'input> Parser<'input> {
    pub fn new(input: &'input [u8]) -> (r: Self)
        ensures
            r@ == (ParserView { input: input@, pos: 0, indent: 0 }),
    {
        Parser { input, pos: 0, indent: 0 }
    }

    fn peek_byte(&self) -> (r: Option<u8>)
        requires
            self@.wf(),
        ensures
            r == self@.peek(),
    {
        if self.pos < self.input.len() {
            Some(self.input[self.pos])
        } else {
            None
        }
    }

    fn next_byte(&mut self) -> (r: Option<u8>)
        requires
            old(self)@.wf(),
        ensures
            final(self)@.wf(),
            r == old(self)@.peek(),
            final(self)@.at(old(self)@, if r is Some { old(self)@.pos + 1 } else { old(self)@.pos }),
    {
        if self.pos < self.input.len() {
            let b = self.input[self.pos];
            self.pos = self.pos + 1;
            Some(b)
        } else {
            None
        }
    }

    fn expect_byte(&mut self, expected: u8) -> (r: Result<(), ParseError>)
        requires
            old(self)@.wf(),
        ensures
            final(self)@.after(old(self)@),
            final(self)@.indent == old(self)@.indent,
            if old(self)@.peek() == Some(expected) {
                r is Ok && final(self)@.at(old(self)@, old(self)@.pos + 1)
            } else {
                r == Err::<(), ParseError>(fault_at(old(self)@.input, old(self)@.pos))
            },
    {
        match self.next_byte() {
            Some(b) => {
                if b == expected {
                    Ok(())
                } else {
                    Err(ParseError::InvalidByte(b))
                }
            },
            None => Err(ParseError::Eof),
        }
    }

    fn skip_whitespace(&mut self)
        requires
            old(self)@.wf(),
        ensures
            final(self)@.wf(),
            final(self)@.at(old(self)@, old(self)@.pos + ws_len(old(self)@.input, old(self)@.pos)),
    {
        let ghost s = self@.input;
        let ghost p0 = self@.pos;
        loop
            invariant
                self@.wf(),
                self@.at(old(self)@, self@.pos),
                s == old(self)@.input,
                p0 == old(self)@.pos,
                p0 <= self@.pos,
                ws_len(s, p0) == (self@.pos - p0) + ws_len(s, self@.pos),
            decreases s.len() - self@.pos,
        {
            if self.pos < self.input.len() {
                let b = self.input[self.pos];
                if b == SPACE || b == LF || b == CR || b == TAB {
                    self.pos = self.pos + 1;
                } else {
                    return;
                }
            } else {
                return;
            }
        }
    }

    fn skip_digits(&mut self)
        requires
            old(self)@.wf(),
        ensures
            final(self)@.wf(),
            final(self)@.at(old(self)@, digits_end(old(self)@.input, old(self)@.pos)),
            old(self)@.pos <= final(self)@.pos,
    {
        let ghost s = self@.input;
        let ghost p0 = self@.pos;
        loop
            invariant
                self@.wf(),
                self@.at(old(self)@, self@.pos),
                s == old(self)@.input,
                p0 == old(self)@.pos,
                p0 <= self@.pos,
                digits_end(s, p0) == digits_end(s, self@.pos),
            decreases s.len() - self@.pos,
        {
            if self.pos < self.input.len() {
                let b = self.input[self.pos];
                if ZERO <= b && b <= NINE {
                    self.pos = self.pos + 1;
                } else {
                    return;
                }
            } else {
                return;
            }
        }
    }

    fn write_indent(&self, out: &mut Vec<u8>)
        ensures
            final(out)@ == old(out)@ + indent(self@.indent),
    {
        let mut i: usize = 0;
        while i < self.indent
            invariant
                i <= self@.indent,
                out@ == old(out)@ + indent(i as nat),
            decreases self@.indent - i,
        {
            out.push(SPACE);
            out.push(SPACE);
            i = i + 1;
            assert(out@ =~= old(out)@ + indent(i as nat));
        }
    }

    /// Prints the whole input: whitespace, one value, whitespace, and the end
    /// of the input.
    pub fn parse(&mut self, out: &mut Vec<u8>) -> (r: Result<(), ParseError>)
        ensures
            final(self)@.wf(),
            final(self)@.input == old(self)@.input,
            match printed(old(self)@.input) {
                Ok(o) => {
                    &&& r is Ok
                    &&& final(out)@ == old(out)@ + o
                    &&& final(self)@.pos == old(self)@.input.len()
                },
                Err(e) => r == Err::<(), ParseError>(e),
            },
    {
        self.pos = 0;
        self.indent = 0;
        self.skip_whitespace();
        self.parse_value(out)?;
        self.skip_whitespace();
        match self.peek_byte() {
            Some(b) => Err(ParseError::InvalidByte(b)),
            None => Ok(()),
        }
    }

    fn parse_value(&mut self, out: &mut Vec<u8>) -> (r: Result<(), ParseError>)
        requires
            old(self)@.wf(),
        ensures
            final(self)@.after(old(self)@),
            r is Ok ==> final(self)@.pos > old(self)@.pos,
            match p_value(old(self)@.input, old(self)@.pos, old(self)@.indent) {
                Ok((k, o)) => {
                    &&& r is Ok
                    &&& final(self)@.at(old(self)@, old(self)@.pos + k)
                    &&& final(out)@ == old(out)@ + o
                },
                Err(e) => r == Err::<(), ParseError>(e),
            },
        decreases self.input@.len() - self.pos, 2int,
    {
        match self.peek_byte() {
            Some(b) => {
                if b == QUOTE {
                    self.parse_string(out)
                } else if b == MINUS || (ZERO <= b && b <= NINE) {
                    self.parse_number(out)
                } else if b == LBRACE {
                    self.parse_object(out)
                } else if b == LBRACKET {
                    self.parse_array(out)
                } else if b == LOWER_T {
                    self.parse_true(out)
                } else if b == LOWER_F {
                    self.parse_false(out)
                } else if b == LOWER_N {
                    self.parse_null(out)
                } else {
                    Err(ParseError::InvalidByte(b))
                }
            },
            None => Err(ParseError::Eof),
        }
    }

    fn parse_object(&mut self, out: &mut Vec<u8>) -> (r: Result<(), ParseError>)
        requires
            old(self)@.wf(),
        ensures
            final(self)@.after(old(self)@),
            r is Ok ==> final(self)@.pos > old(self)@.pos,
            match p_container(old(self)@.input, old(self)@.pos, old(self)@.indent, true) {
                Ok((k, o)) => {
                    &&& r is Ok
                    &&& final(self)@.at(old(self)@, old(self)@.pos + k)
                    &&& final(out)@ == old(out)@ + o
                },
                Err(e) => r == Err::<(), ParseError>(e),
            },
        decreases self.input@.len() - self.pos, 1int,
    {
        self.parse_container(out, true)
    }

    fn parse_array(&mut self, out: &mut Vec<u8>) -> (r: Result<(), ParseError>)
        requires
            old(self)@.wf(),
        ensures
            final(self)@.after(old(self)@),
            r is Ok ==> final(self)@.pos > old(self)@.pos,
            match p_container(old(self)@.input, old(self)@.pos, old(self)@.indent, false) {
                Ok((k, o)) => {
                    &&& r is Ok
                    &&& final(self)@.at(old(self)@, old(self)@.pos + k)
                    &&& final(out)@ == old(out)@ + o
                },
                Err(e) => r == Err::<(), ParseError>(e),
            },
        decreases self.input@.len() - self.pos, 1int,
    {
        self.parse_container(out, false)
    }

    /// Scans an object (`obj`) or an array, one member per line, one level deeper.
    fn parse_container(&mut self, out: &mut Vec<u8>, obj: bool) -> (r: Result<(), ParseError>)
        requires
            old(self)@.wf(),
        ensures
            final(self)@.after(old(self)@),
            r is Ok ==> final(self)@.pos > old(self)@.pos,
            match p_container(old(self)@.input, old(self)@.pos, old(self)@.indent, obj) {
                Ok((k, o)) => {
                    &&& r is Ok
                    &&& final(self)@.at(old(self)@, old(self)@.pos + k)
                    &&& final(out)@ == old(out)@ + o
                },
                Err(e) => r == Err::<(), ParseError>(e),
            },
        decreases self.input@.len() - self.pos, 0int,
    {
        let ghost s = self@.input;
        let ghost p0 = self@.pos;
        let ghost ind = self@.indent;
        let open = if obj { LBRACE } else { LBRACKET };
        self.expect_byte(open)?;
        out.push(open);
        out.push(LF);
        self.indent = self.indent + 1;
        let mut first = true;
        let ghost mut acc = seq![opener(obj), LF];
        assert(out@ =~= old(out)@ + acc);
        loop
            invariant
                self@.wf(),
                self@.input == s,
                self@.indent == ind + 1,
                s == old(self)@.input,
                ind == old(self)@.indent,
                p0 == old(self)@.pos,
                p0 < self@.pos,
                out@ == old(out)@ + acc,
                p_container(s, p0, ind, obj) == after_prefix(
                    p_members(s, self@.pos, ind + 1, obj, first),
                    (self@.pos - p0) as nat,
                    acc,
                ),
            decreases s.len() - self@.pos,
        {
            let ghost p = self@.pos;
            let ghost before = out@;
            let closed = self.parse_step(out, obj, first)?;
            proof {
                let o = out@.subrange(before.len() as int, out@.len() as int);
                assert(out@ =~= before + o);
                if !closed {
                    lemma_after_prefix_twice(
                        p_members(s, self@.pos, ind + 1, obj, false),
                        (self@.pos - p) as nat,
                        o,
                        (p - p0) as nat,
                        acc,
                    );
                }
                acc = acc + o;
                assert(out@ =~= old(out)@ + acc);
            }
            if closed {
                return Ok(());
            }
            first = false;
        }
    }

    #[verifier::rlimit(30)]
    /// One step through the members of a container from the cursor: either
    /// the closer, or (but first) a comma, then the next member. Tells whether
    /// the container closed.
    fn parse_step(&mut self, out: &mut Vec<u8>, obj: bool, first: bool) -> (r: Result<bool, ParseError>)
        requires
            old(self)@.wf(),
            old(self)@.indent > 0,
        ensures
            final(self)@.after(old(self)@),
            ({
                let s = old(self)@.input;
                let p = old(self)@.pos;
                let rest = p_members(s, p, old(self)@.indent, obj, first);
                let o = final(out)@.subrange(old(out)@.len() as int, final(out)@.len() as int);
                let k = (final(self)@.pos - p) as nat;
                &&& r is Ok ==> final(out)@ == old(out)@ + o
                &&& match r {
                    Ok(true) => {
                        &&& final(self)@.indent == old(self)@.indent - 1
                        &&& rest == Ok::<(nat, Seq<u8>), ParseError>((k, o))
                    },
                    Ok(false) => {
                        &&& p < final(self)@.pos
                        &&& final(self)@.indent == old(self)@.indent
                        &&& rest == after_prefix(p_members(s, final(self)@.pos, old(self)@.indent, obj, false), k, o)
                    },
                    Err(e) => rest == Err::<(nat, Seq<u8>), ParseError>(e),
                }
            }),
        decreases self.input@.len() - self.pos, 4int,
    {
        let ghost s = self@.input;
        let ghost ind = self@.indent;
        let close = if obj { RBRACE } else { RBRACKET };
        self.skip_whitespace();
        if self.peek_byte() == Some(close) {
            self.next_byte();
            self.indent = self.indent - 1;
            self.write_indent(out);
            out.push(close);
            let ghost o = indent((ind - 1) as nat) + seq![closer(obj)];
            assert(out@ =~= old(out)@ + o);
            assert(out@.subrange(old(out)@.len() as int, out@.len() as int) =~= o);
            return Ok(true);
        }
        let ghost sep = if first { Seq::<u8>::empty() } else { seq![COMMA, LF] };
        if !first {
            self.expect_byte(COMMA)?;
            self.skip_whitespace();
            out.push(COMMA);
            out.push(LF);
        }
        assert(out@ =~= old(out)@ + sep);
        self.write_indent(out);
        let ghost q = self@.pos;
        let ghost before = out@;
        proof {
            let w = ws_len(s, old(self)@.pos);
            let d: nat = if first { w } else { w + 1 + ws_len(s, old(self)@.pos + w + 1) };
            assert(q == old(self)@.pos + d);
        }
        self.parse_member(out, obj)?;
        proof {
            let m = out@.subrange(before.len() as int, out@.len() as int);
            assert(out@ =~= before + m);
            if let Ok((k, m2)) = p_member(s, q, ind, obj) {
                assert(m =~= m2);
            }
            let o = sep + indent(ind) + m;
            assert(out@ =~= old(out)@ + o);
            assert(out@.subrange(old(out)@.len() as int, out@.len() as int) =~= o);
        }
        Ok(false)
    }

    fn parse_member(&mut self, out: &mut Vec<u8>, obj: bool) -> (r: Result<(), ParseError>)
        requires
            old(self)@.wf(),
        ensures
            final(self)@.after(old(self)@),
            r is Ok ==> final(self)@.pos > old(self)@.pos,
            match p_member(old(self)@.input, old(self)@.pos, old(self)@.indent, obj) {
                Ok((k, o)) => {
                    &&& r is Ok
                    &&& final(self)@.at(old(self)@, old(self)@.pos + k)
                    &&& final(out)@ == old(out)@ + o
                },
                Err(e) => r == Err::<(), ParseError>(e),
            },
        decreases self.input@.len() - self.pos, 3int,
    {
        if obj {
            let ghost before = out@;
            self.parse_string(out)?;
            self.skip_whitespace();
            self.expect_byte(COLON)?;
            out.push(COLON);
            out.push(SPACE);
            self.skip_whitespace();
            let ghost mid = out@;
            self.parse_value(out)?;
            assert(out@ =~= before + (mid.subrange(before.len() as int, mid.len() as int) + out@.subrange(mid.len() as int, out@.len() as int)));
            Ok(())
        } else {
            self.parse_value(out)
        }
    }

    /// Scans the string under the cursor, escapes and all, and writes it verbatim.
    fn parse_string(&mut self, out: &mut Vec<u8>) -> (r: Result<(), ParseError>)
        requires
            old(self)@.wf(),
        ensures
            final(self)@.after(old(self)@),
            final(self)@.indent == old(self)@.indent,
            r is Ok ==> final(self)@.pos > old(self)@.pos,
            match text_end(old(self)@.input, old(self)@.pos) {
                Ok(e) => {
                    &&& r is Ok
                    &&& final(self)@.pos == e
                    &&& final(out)@ == old(out)@ + old(self)@.input.subrange(old(self)@.pos, e)
                },
                Err(x) => r == Err::<(), ParseError>(x),
            },
    {
        let ghost s = self@.input;
        let start = self.pos;
        self.expect_byte(QUOTE)?;
        loop
            invariant
                self@.after(old(self)@),
                self@.indent == old(self)@.indent,
                s == old(self)@.input,
                start == old(self)@.pos,
                start < self@.pos,
                text_end(s, start as int) == text_rest(s, self@.pos),
                *out == *old(out),
            decreases s.len() - self@.pos,
        {
            let b = match self.peek_byte() {
                Some(b) => b,
                None => return Err(ParseError::Eof),
            };
            if b == QUOTE {
                self.next_byte();
                push_bytes(out, &self.input[start..self.pos]);
                return Ok(());
            } else if b == BACKSLASH {
                self.next_byte();
                let e = match self.next_byte() {
                    Some(e) => e,
                    None => return Err(ParseError::Eof),
                };
                if e == QUOTE || e == BACKSLASH || e == SLASH || e == LOWER_B || e == LOWER_F
                    || e == LOWER_N || e == LOWER_R || e == LOWER_T {
                } else if e == LOWER_U {
                    let ghost h = self@.pos;
                    let mut i: usize = 0;
                    while i < 4
                        invariant
                            self@.after(old(self)@),
                            self@.indent == old(self)@.indent,
                            s == old(self)@.input,
                            start == old(self)@.pos,
                            i <= 4,
                            self@.pos == h + i,
                            start < h - 1,
                            h <= s.len(),
                            s[h - 2] == BACKSLASH,
                            s[h - 1] == LOWER_U,
                            text_end(s, start as int) == text_rest(s, h - 2),
                            i > 0 ==> h < s.len() && is_hex(s[h]),
                            i > 1 ==> h + 1 < s.len() && is_hex(s[h + 1]),
                            i > 2 ==> h + 2 < s.len() && is_hex(s[h + 2]),
                            i > 3 ==> h + 3 < s.len() && is_hex(s[h + 3]),
                        decreases 4 - i,
                    {
                        let hex = match self.next_byte() {
                            Some(x) => x,
                            None => {
                                assert(hex4_fault(s, h) == Some(h + i));
                                return Err(ParseError::Eof);
                            },
                        };
                        if !hex_digit(hex) {
                            assert(hex4_fault(s, h) == Some(h + i));
                            return Err(ParseError::InvalidByte(hex));
                        }
                        i = i + 1;
                    }
                } else {
                    return Err(ParseError::InvalidEscape(e));
                }
            } else if b < SPACE {
                return Err(ParseError::InvalidByte(b));
            } else {
                self.next_utf8_char()?;
            }
        }
    }

    /// Decodes one UTF-8 sequence, refusing what is no Unicode scalar value.
    fn next_utf8_char(&mut self) -> (r: Result<u32, ParseError>)
        requires
            old(self)@.wf(),
        ensures
            final(self)@.after(old(self)@),
            final(self)@.indent == old(self)@.indent,
            match char_end(old(self)@.input, old(self)@.pos) {
                Ok((e, c)) => r == Ok::<u32, ParseError>(c as u32) && final(self)@.pos == e,
                Err(x) => r == Err::<u32, ParseError>(x),
            },
    {
        let b1 = match self.next_byte() {
            Some(b) => b,
            None => return Err(ParseError::Eof),
        };
        if b1 < 0x80 {
            return Ok(b1 as u32);
        }
        if !(0xc0 <= b1 && b1 <= 0xf7) {
            return Err(ParseError::InvalidUtf8);
        }
        let b2 = match self.next_byte() {
            Some(b) => b,
            None => return Err(ParseError::Eof),
        };
        if !cont_byte(b2) {
            return Err(ParseError::InvalidUtf8);
        }
        if b1 <= 0xdf {
            return Ok((b1 - 0xc0) as u32 * 64 + (b2 - 0x80) as u32);
        }
        let b3 = match self.next_byte() {
            Some(b) => b,
            None => return Err(ParseError::Eof),
        };
        if !cont_byte(b3) {
            return Err(ParseError::InvalidUtf8);
        }
        if b1 <= 0xef {
            let code = (b1 - 0xe0) as u32 * 4096 + (b2 - 0x80) as u32 * 64 + (b3 - 0x80) as u32;
            return if scalar(code) {
                Ok(code)
            } else {
                Err(ParseError::InvalidUtf8)
            };
        }
        let b4 = match self.next_byte() {
            Some(b) => b,
            None => return Err(ParseError::Eof),
        };
        if !cont_byte(b4) {
            return Err(ParseError::InvalidUtf8);
        }
        let code = (b1 - 0xf0) as u32 * 262144 + (b2 - 0x80) as u32 * 4096 + (b3 - 0x80) as u32 * 64
            + (b4 - 0x80) as u32;
        if scalar(code) {
            Ok(code)
        } else {
            Err(ParseError::InvalidUtf8)
        }
    }

    fn expect_literal(&mut self, lit: &[u8]) -> (r: Result<(), ParseError>)
        requires
            old(self)@.wf(),
        ensures
            final(self)@.after(old(self)@),
            final(self)@.indent == old(self)@.indent,
            match literal_fault(old(self)@.input, old(self)@.pos, lit@, 0) {
                None => r is Ok && final(self)@.pos == old(self)@.pos + lit@.len(),
                Some(q) => r == Err::<(), ParseError>(fault_at(old(self)@.input, q)),
            },
    {
        let ghost s = self@.input;
        let ghost p = self@.pos;
        let mut i: usize = 0;
        while i < lit.len()
            invariant
                self@.after(old(self)@),
                self@.indent == old(self)@.indent,
                s == old(self)@.input,
                p == old(self)@.pos,
                i <= lit@.len(),
                self@.pos == p + i,
                literal_fault(s, p, lit@, 0) == literal_fault(s, p, lit@, i as nat),
            decreases lit@.len() - i,
        {
            self.expect_byte(lit[i])?;
            i = i + 1;
        }
        Ok(())
    }

    /// Consumes `lit` and writes it.
    fn parse_word(&mut self, out: &mut Vec<u8>, lit: &[u8]) -> (r: Result<(), ParseError>)
        requires
            old(self)@.wf(),
            lit@.len() > 0,
        ensures
            final(self)@.after(old(self)@),
            final(self)@.indent == old(self)@.indent,
            match word(old(self)@.input, old(self)@.pos, lit@) {
                Ok((k, o)) => r is Ok && final(self)@.pos == old(self)@.pos + k && final(out)@ == old(out)@ + o,
                Err(x) => r == Err::<(), ParseError>(x),
            },
    {
        self.expect_literal(lit)?;
        push_bytes(out, lit);
        Ok(())
    }

    fn parse_true(&mut self, out: &mut Vec<u8>) -> (r: Result<(), ParseError>)
        requires
            old(self)@.wf(),
        ensures
            final(self)@.after(old(self)@),
            final(self)@.indent == old(self)@.indent,
            match word(old(self)@.input, old(self)@.pos, true_bytes()) {
                Ok((k, o)) => r is Ok && final(self)@.pos == old(self)@.pos + k && final(out)@ == old(out)@ + o,
                Err(x) => r == Err::<(), ParseError>(x),
            },
    {
        let t: [u8; 4] = [LOWER_T, LOWER_R, LOWER_U, LOWER_E];
        assert(t@ =~= true_bytes());
        self.parse_word(out, t.as_slice())
    }

    fn parse_false(&mut self, out: &mut Vec<u8>) -> (r: Result<(), ParseError>)
        requires
            old(self)@.wf(),
        ensures
            final(self)@.after(old(self)@),
            final(self)@.indent == old(self)@.indent,
            match word(old(self)@.input, old(self)@.pos, false_bytes()) {
                Ok((k, o)) => r is Ok && final(self)@.pos == old(self)@.pos + k && final(out)@ == old(out)@ + o,
                Err(x) => r == Err::<(), ParseError>(x),
            },
    {
        let t: [u8; 5] = [LOWER_F, LOWER_A, LOWER_L, LOWER_S, LOWER_E];
        assert(t@ =~= false_bytes());
        self.parse_word(out, t.as_slice())
    }

    fn parse_null(&mut self, out: &mut Vec<u8>) -> (r: Result<(), ParseError>)
        requires
            old(self)@.wf(),
        ensures
            final(self)@.after(old(self)@),
            final(self)@.indent == old(self)@.indent,
            match word(old(self)@.input, old(self)@.pos, null_bytes()) {
                Ok((k, o)) => r is Ok && final(self)@.pos == old(self)@.pos + k && final(out)@ == old(out)@ + o,
                Err(x) => r == Err::<(), ParseError>(x),
            },
    {
        let t: [u8; 4] = [LOWER_N, LOWER_U, LOWER_L, LOWER_L];
        assert(t@ =~= null_bytes());
        self.parse_word(out, t.as_slice())
    }

    /// Scans the number under the cursor (`[-]? int frac exp`) and writes it verbatim.
    pub fn parse_number(&mut self, out: &mut Vec<u8>) -> (r: Result<(), ParseError>)
        requires
            old(self)@.wf(),
        ensures
            final(self)@.after(old(self)@),
            final(self)@.indent == old(self)@.indent,
            r is Ok ==> final(self)@.pos > old(self)@.pos,
            match number_end(old(self)@.input, old(self)@.pos) {
                Ok(e) => {
                    &&& r is Ok
                    &&& final(self)@.pos == e
                    &&& final(out)@ == old(out)@ + old(self)@.input.subrange(old(self)@.pos, e)
                },
                Err(q) => r == Err::<(), ParseError>(fault_at(old(self)@.input, q)),
            },
    {
        let start = self.pos;
        if self.peek_byte() == Some(MINUS) {
            self.next_byte();
        }
        self.parse_integer()?;
        self.parse_fraction()?;
        self.parse_exponent()?;
        push_bytes(out, &self.input[start..self.pos]);
        Ok(())
    }

    fn parse_integer(&mut self) -> (r: Result<(), ParseError>)
        requires
            old(self)@.wf(),
        ensures
            final(self)@.after(old(self)@),
            final(self)@.indent == old(self)@.indent,
            r is Ok ==> final(self)@.pos > old(self)@.pos,
            match int_part(old(self)@.input, old(self)@.pos) {
                Ok(e) => r is Ok && final(self)@.pos == e,
                Err(q) => r == Err::<(), ParseError>(fault_at(old(self)@.input, q)),
            },
    {
        match self.peek_byte() {
            Some(b) => {
                if b == ZERO {
                    self.next_byte();
                    Ok(())
                } else if ZERO < b && b <= NINE {
                    self.next_byte();
                    self.skip_digits();
                    Ok(())
                } else {
                    Err(ParseError::InvalidByte(b))
                }
            },
            None => Err(ParseError::Eof),
        }
    }

    fn parse_fraction(&mut self) -> (r: Result<(), ParseError>)
        requires
            old(self)@.wf(),
        ensures
            final(self)@.after(old(self)@),
            final(self)@.indent == old(self)@.indent,
            match frac_part(old(self)@.input, old(self)@.pos) {
                Ok(e) => r is Ok && final(self)@.pos == e,
                Err(q) => r == Err::<(), ParseError>(fault_at(old(self)@.input, q)),
            },
    {
        if self.peek_byte() == Some(DOT) {
            self.next_byte();
            match self.peek_byte() {
                Some(b) => {
                    if ZERO <= b && b <= NINE {
                        self.next_byte();
                        self.skip_digits();
                    } else {
                        return Err(ParseError::InvalidByte(b));
                    }
                },
                None => {
                    return Err(ParseError::Eof);
                },
            }
        }
        Ok(())
    }

    fn parse_exponent(&mut self) -> (r: Result<(), ParseError>)
        requires
            old(self)@.wf(),
        ensures
            final(self)@.after(old(self)@),
            final(self)@.indent == old(self)@.indent,
            match exp_part(old(self)@.input, old(self)@.pos) {
                Ok(e) => r is Ok && final(self)@.pos == e,
                Err(q) => r == Err::<(), ParseError>(fault_at(old(self)@.input, q)),
            },
    {
        let b = self.peek_byte();
        if b == Some(LOWER_E) || b == Some(UPPER_E) {
            self.next_byte();
            let sign = self.peek_byte();
            if sign == Some(PLUS) || sign == Some(MINUS) {
                self.next_byte();
            }
            match self.peek_byte() {
                Some(d) => {
                    if ZERO <= d && d <= NINE {
                        self.next_byte();
                        self.skip_digits();
                        Ok(())
                    } else {
                        Err(ParseError::InvalidByte(d))
                    }
                },
                None => Err(ParseError::Eof),
            }
        } else {
            Ok(())
        }
    }
}

pub proof fn lemma_after_prefix_twice(r: Parsed, d1: nat, a: Seq<u8>, d2: nat, b: Seq<u8>)
    ensures
        after_prefix(after_prefix(r, d1, a), d2, b) == after_prefix(r, d2 + d1, b + a),
{
    if let Ok((k, o)) = r {
        assert(b + (a + o) =~= (b + a) + o);
    }
}

} // verus!
