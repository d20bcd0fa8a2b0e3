//! The lexical grammar as spec functions: what one request for a token yields from a given
//! index, and the general facts about it.
use vstd::prelude::*;
use vstd::utf8::{decode_first_scalar, encode_scalar, is_scalar};
use crate::error::LexerError;
use crate::numeral::{
    all_digits, decimal_rendering, digit_chars, digit_value, digit_values, float_rendering,
    is_dec_digit, is_hex_digit, lemma_decimal_rendering, lemma_float_rendering_reads_back,
    lemma_integer_rendering_reads_back, lemma_value_of_prefix, numeral_token, value_of,
};
use crate::unicode::lemma_escape_round_trip;
use crate::token::{FloatV, Symbol, TokenV};

verus! {

/// The byte at `i`, or -1 outside `s`.
pub open spec fn byte_at(s: Seq<u8>, i: int) -> int {
    if 0 <= i < s.len() {
        s[i] as int
    } else {
        -1
    }
}

pub open spec fn hex_at(s: Seq<u8>, i: int) -> bool {
    0 <= i < s.len() && is_hex_digit(s[i])
}

pub open spec fn dec_at(s: Seq<u8>, i: int) -> bool {
    0 <= i < s.len() && is_dec_digit(s[i])
}

/// The byte that a one-character escape `\e` stands for.
pub open spec fn simple_escape(e: int) -> Option<u8> {
    if e == 0x61 {
        Some(7u8)
    } else if e == 0x62 {
        Some(8u8)
    } else if e == 0x66 {
        Some(12u8)
    } else if e == 0x6e {
        Some(10u8)
    } else if e == 0x72 {
        Some(13u8)
    } else if e == 0x74 {
        Some(9u8)
    } else if e == 0x76 {
        Some(11u8)
    } else if e == 0x5c {
        Some(0x5cu8)
    } else if e == 0x22 {
        Some(0x22u8)
    } else if e == 0x27 {
        Some(0x27u8)
    } else if e == 0x0a {
        Some(10u8)
    } else {
        None
    }
}

/// How many bytes of whitespace (space, tab, newline, CR LF) start at `j`.
pub open spec fn whitespace_len(s: Seq<u8>, j: int) -> nat
    decreases s.len() - j,
{
    if j < 0 || j >= s.len() {
        0
    } else if s[j] == 0x20 || s[j] == 0x09 || s[j] == 0x0a {
        1 + whitespace_len(s, j + 1)
    } else if s[j] == 0x0d && byte_at(s, j + 1) == 0x0a {
        2 + whitespace_len(s, j + 2)
    } else {
        0
    }
}

/// How many decimal digits, at most three, start at `j`.
pub open spec fn decimal_escape_len(s: Seq<u8>, j: int) -> nat {
    if !dec_at(s, j) {
        0
    } else if !dec_at(s, j + 1) {
        1
    } else if !dec_at(s, j + 2) {
        2
    } else {
        3
    }
}

/// The value of the `k` decimal digits at `j`.
pub open spec fn decimal_escape_value(s: Seq<u8>, j: int, k: nat) -> int {
    if k == 1 {
        digit_value(s[j]) as int
    } else if k == 2 {
        digit_value(s[j]) * 10 + digit_value(s[j + 1]) as int
    } else {
        digit_value(s[j]) * 100 + digit_value(s[j + 1]) * 10 + digit_value(s[j + 2]) as int
    }
}

/// How scanning a string or long bracket ends: with its content and the index after it, or an
/// error.
pub ghost enum Scanned {
    Done(Seq<u8>, int),
    Fail(LexerError),
}

/// Scanning the body of a short string closed by quote `q`, from `i`, with `buf` decoded so far.
/// `cp` is the code point of a `\u{...}` escape under way.
pub open spec fn short_string(s: Seq<u8>, i: int, q: u8, buf: Seq<u8>, cp: Option<u32>) -> Scanned
    decreases s.len() - i,
    via short_string_decreases
{
    if i < 0 || i >= s.len() {
        match cp {
            Some(_) => Scanned::Fail(LexerError::EscapeUnicodeEnd),
            None => Scanned::Fail(LexerError::UnfinishedShortString(q)),
        }
    } else {
        let c = s[i];
        match cp {
            Some(v) => {
                if is_hex_digit(c) {
                    let w = v * 16 + digit_value(c);
                    if w > 0x10ffff {
                        Scanned::Fail(LexerError::EscapeUnicodeInvalid)
                    } else {
                        short_string(s, i + 1, q, buf, Some(w as u32))
                    }
                } else if c == 0x7d {
                    if is_scalar(v) {
                        short_string(s, i + 1, q, buf + encode_scalar(v), None)
                    } else {
                        Scanned::Fail(LexerError::EscapeUnicodeInvalid)
                    }
                } else {
                    Scanned::Fail(LexerError::EscapeUnicodeEnd)
                }
            },
            None => {
                if c == q {
                    Scanned::Done(buf, i + 1)
                } else if c == 0x0a {
                    Scanned::Fail(LexerError::UnfinishedShortString(q))
                } else if c != 0x5c {
                    short_string(s, i + 1, q, buf.push(c), None)
                } else {
                    let e = byte_at(s, i + 1);
                    if e == -1 {
                        Scanned::Fail(LexerError::UnfinishedShortString(q))
                    } else if simple_escape(e) is Some {
                        short_string(s, i + 2, q, buf.push(simple_escape(e)->0), None)
                    } else if e == 0x78 {
                        if hex_at(s, i + 2) && hex_at(s, i + 3) {
                            let b = digit_value(s[i + 2]) * 16 + digit_value(s[i + 3]);
                            short_string(s, i + 4, q, buf.push(b as u8), None)
                        } else {
                            Scanned::Fail(LexerError::HexDigitExpected)
                        }
                    } else if e == 0x7a {
                        short_string(s, i + 2 + whitespace_len(s, i + 2), q, buf, None)
                    } else if is_dec_digit(e as u8) {
                        let k = decimal_escape_len(s, i + 1);
                        let v = decimal_escape_value(s, i + 1, k);
                        if v > 255 {
                            Scanned::Fail(LexerError::EscapeDecimalTooLarge)
                        } else {
                            short_string(s, i + 1 + k, q, buf.push(v as u8), None)
                        }
                    } else if e == 0x75 {
                        if byte_at(s, i + 2) == 0x7b {
                            short_string(s, i + 3, q, buf, Some(0u32))
                        } else {
                            Scanned::Fail(LexerError::EscapeUnicodeStart)
                        }
                    } else {
                        Scanned::Fail(LexerError::InvalidEscape)
                    }
                }
            },
        }
    }
}

/// How many `=` start at `j`.
pub open spec fn eq_run(s: Seq<u8>, j: int) -> nat
    decreases s.len() - j,
{
    if 0 <= j < s.len() && s[j] == 0x3d {
        1 + eq_run(s, j + 1)
    } else {
        0
    }
}

/// A closing long bracket of level `n` (`]`, `n` times `=`, `]`) starts at `j`.
pub open spec fn closes_at(s: Seq<u8>, j: int, n: nat) -> bool {
    &&& byte_at(s, j) == 0x5d
    &&& forall|k: int| 1 <= k <= n ==> #[trigger] byte_at(s, j + k) == 0x3d
    &&& byte_at(s, j + n + 1) == 0x5d
}

/// The first index from `j` on where a closing long bracket of level `n` starts.
pub open spec fn closer_from(s: Seq<u8>, j: int, n: nat) -> Option<int>
    decreases s.len() - j,
{
    if j < 0 || j >= s.len() {
        None
    } else if closes_at(s, j, n) {
        Some(j)
    } else {
        closer_from(s, j + 1, n)
    }
}

/// Scanning a long bracket whose first `[` stands just before `i`: its level is the number of
/// `=` that follow, a second `[` must come next, and the content runs up to the first closing
/// bracket of the same level.
pub open spec fn long_bracket(s: Seq<u8>, i: int) -> Scanned {
    let n = eq_run(s, i);
    let b = i + n;
    if b >= s.len() {
        Scanned::Fail(LexerError::UnfinishedLongString)
    } else if s[b] != 0x5b {
        Scanned::Fail(LexerError::InvalidLongStringDelimiter)
    } else {
        match closer_from(s, b + 1, n) {
            None => Scanned::Fail(LexerError::UnfinishedLongString),
            Some(k) => Scanned::Done(s.subrange(b + 1, k), k + n + 2),
        }
    }
}

/// Where no closing bracket starts in `[x, y)`, the first one from `x` is the first from `y`.
pub proof fn lemma_closer_skip(s: Seq<u8>, x: int, y: int, n: nat)
    requires
        0 <= x <= y,
        forall|t: int| x <= t < y ==> !closes_at(s, t, n),
    ensures
        closer_from(s, x, n) == closer_from(s, y, n),
    decreases y - x,
{
    if x < y {
        lemma_closer_skip(s, x + 1, y, n);
        if x >= s.len() {
            lemma_closer_none_after_end(s, y, n);
        }
    }
}

proof fn lemma_closer_none_after_end(s: Seq<u8>, y: int, n: nat)
    requires
        y >= s.len(),
    ensures
        closer_from(s, y, n) is None,
{
}

/// The classes of bytes that runs are made of.
pub enum ByteClass {
    NameChar,
    DecDigit,
    HexDigit,
    NotNewline,
}

pub open spec fn is_name_start(b: u8) -> bool {
    (0x61 <= b <= 0x7a) || (0x41 <= b <= 0x5a) || b == 0x5f
}

pub open spec fn in_class(b: u8, class: ByteClass) -> bool {
    match class {
        ByteClass::NameChar => is_name_start(b) || is_dec_digit(b),
        ByteClass::DecDigit => is_dec_digit(b),
        ByteClass::HexDigit => is_hex_digit(b),
        ByteClass::NotNewline => b != 0x0a,
    }
}

/// How many bytes of `class` start at `j`.
pub open spec fn run_len(s: Seq<u8>, j: int, class: ByteClass) -> nat
    decreases s.len() - j,
{
    if 0 <= j < s.len() && in_class(s[j], class) {
        1 + run_len(s, j + 1, class)
    } else {
        0
    }
}

/// The digits of a numeral's base: hexadecimal or decimal.
pub open spec fn digit_class(hex: bool) -> ByteClass {
    if hex {
        ByteClass::HexDigit
    } else {
        ByteClass::DecDigit
    }
}

/// The end of an optional exponent at `b`: marker (`p`/`P` after `0x`, else `e`/`E`), an
/// optional sign, and at least one digit of the numeral's base; `b` itself where there is none.
/// Which digits denote an exponent is left to the numeral reader.
pub open spec fn exponent_end(s: Seq<u8>, b: int, hex: bool) -> int {
    let m = byte_at(s, b);
    let marker = if hex {
        m == 0x70 || m == 0x50
    } else {
        m == 0x65 || m == 0x45
    };
    if marker {
        let c = if byte_at(s, b + 1) == 0x2b || byte_at(s, b + 1) == 0x2d {
            b + 2
        } else {
            b + 1
        };
        if 0 <= c < s.len() && in_class(s[c], digit_class(hex)) {
            c + run_len(s, c, digit_class(hex))
        } else {
            b
        }
    } else {
        b
    }
}

/// The end of the numeral lexeme at `i`: the longest span shaped like a decimal or (after `0x`)
/// hexadecimal numeral, with an optional radix point and exponent.
pub open spec fn numeral_end(s: Seq<u8>, i: int) -> int {
    if byte_at(s, i) == 0x30 && (byte_at(s, i + 1) == 0x78 || byte_at(s, i + 1) == 0x58) {
        let a = i + 2 + run_len(s, i + 2, ByteClass::HexDigit);
        let b = if byte_at(s, a) == 0x2e {
            a + 1 + run_len(s, a + 1, ByteClass::HexDigit)
        } else {
            a
        };
        exponent_end(s, b, true)
    } else {
        let a = i + run_len(s, i, ByteClass::DecDigit);
        let b = if byte_at(s, a) == 0x2e {
            a + 1 + run_len(s, a + 1, ByteClass::DecDigit)
        } else {
            a
        };
        exponent_end(s, b, false)
    }
}

/// The operator or punctuation at `i`, the longest that matches, with its width.
pub open spec fn operator(s: Seq<u8>, i: int) -> Option<(Symbol, int)> {
    let c = byte_at(s, i);
    let d = byte_at(s, i + 1);
    if c == 0x2b {
        Some((Symbol::Add, 1))
    } else if c == 0x2d {
        Some((Symbol::Minus, 1))
    } else if c == 0x2a {
        Some((Symbol::Mul, 1))
    } else if c == 0x2f {
        if d == 0x2f {
            Some((Symbol::IDiv, 2))
        } else {
            Some((Symbol::Div, 1))
        }
    } else if c == 0x25 {
        Some((Symbol::Mod, 1))
    } else if c == 0x5e {
        Some((Symbol::Pow, 1))
    } else if c == 0x23 {
        Some((Symbol::Len, 1))
    } else if c == 0x3d {
        if d == 0x3d {
            Some((Symbol::Equal, 2))
        } else {
            Some((Symbol::Assign, 1))
        }
    } else if c == 0x7e {
        if d == 0x3d {
            Some((Symbol::NotEqual, 2))
        } else {
            Some((Symbol::BitNotXor, 1))
        }
    } else if c == 0x3c {
        if d == 0x3d {
            Some((Symbol::LessEqual, 2))
        } else if d == 0x3c {
            Some((Symbol::ShiftLeft, 2))
        } else {
            Some((Symbol::LessThan, 1))
        }
    } else if c == 0x3e {
        if d == 0x3d {
            Some((Symbol::GreaterEqual, 2))
        } else if d == 0x3e {
            Some((Symbol::ShiftRight, 2))
        } else {
            Some((Symbol::GreaterThan, 1))
        }
    } else if c == 0x28 {
        Some((Symbol::LeftParen, 1))
    } else if c == 0x29 {
        Some((Symbol::RightParen, 1))
    } else if c == 0x7b {
        Some((Symbol::LeftBrace, 1))
    } else if c == 0x7d {
        Some((Symbol::RightBrace, 1))
    } else if c == 0x5d {
        Some((Symbol::RightBracket, 1))
    } else if c == 0x3b {
        Some((Symbol::SemiColon, 1))
    } else if c == 0x3a {
        if d == 0x3a {
            Some((Symbol::DoubleColon, 2))
        } else {
            Some((Symbol::Colon, 1))
        }
    } else if c == 0x2c {
        Some((Symbol::Comma, 1))
    } else if c == 0x2e {
        if d == 0x2e {
            if byte_at(s, i + 2) == 0x2e {
                Some((Symbol::Dots, 3))
            } else {
                Some((Symbol::Concat, 2))
            }
        } else {
            Some((Symbol::Dot, 1))
        }
    } else if c == 0x26 {
        Some((Symbol::BitAnd, 1))
    } else if c == 0x7c {
        Some((Symbol::BitOr, 1))
    } else {
        None
    }
}

/// The keyword spelled by `w`, if any.
pub open spec fn keyword(w: Seq<u8>) -> Option<Symbol> {
    if w == seq![0x61u8, 0x6eu8, 0x64u8] {
        Some(Symbol::And)
    } else if w == seq![0x62u8, 0x72u8, 0x65u8, 0x61u8, 0x6bu8] {
        Some(Symbol::Break)
    } else if w == seq![0x64u8, 0x6fu8] {
        Some(Symbol::Do)
    } else if w == seq![0x65u8, 0x6cu8, 0x73u8, 0x65u8] {
        Some(Symbol::Else)
    } else if w == seq![0x65u8, 0x6cu8, 0x73u8, 0x65u8, 0x69u8, 0x66u8] {
        Some(Symbol::ElseIf)
    } else if w == seq![0x65u8, 0x6eu8, 0x64u8] {
        Some(Symbol::End)
    } else if w == seq![0x66u8, 0x61u8, 0x6cu8, 0x73u8, 0x65u8] {
        Some(Symbol::False)
    } else if w == seq![0x66u8, 0x6fu8, 0x72u8] {
        Some(Symbol::For)
    } else if w == seq![0x66u8, 0x75u8, 0x6eu8, 0x63u8, 0x74u8, 0x69u8, 0x6fu8, 0x6eu8] {
        Some(Symbol::Function)
    } else if w == seq![0x67u8, 0x6fu8, 0x74u8, 0x6fu8] {
        Some(Symbol::Goto)
    } else if w == seq![0x69u8, 0x66u8] {
        Some(Symbol::If)
    } else if w == seq![0x69u8, 0x6eu8] {
        Some(Symbol::In)
    } else if w == seq![0x6cu8, 0x6fu8, 0x63u8, 0x61u8, 0x6cu8] {
        Some(Symbol::Local)
    } else if w == seq![0x6eu8, 0x69u8, 0x6cu8] {
        Some(Symbol::Nil)
    } else if w == seq![0x6eu8, 0x6fu8, 0x74u8] {
        Some(Symbol::Not)
    } else if w == seq![0x6fu8, 0x72u8] {
        Some(Symbol::Or)
    } else if w == seq![0x72u8, 0x65u8, 0x70u8, 0x65u8, 0x61u8, 0x74u8] {
        Some(Symbol::Repeat)
    } else if w == seq![0x72u8, 0x65u8, 0x74u8, 0x75u8, 0x72u8, 0x6eu8] {
        Some(Symbol::Return)
    } else if w == seq![0x74u8, 0x68u8, 0x65u8, 0x6eu8] {
        Some(Symbol::Then)
    } else if w == seq![0x74u8, 0x72u8, 0x75u8, 0x65u8] {
        Some(Symbol::True)
    } else if w == seq![0x75u8, 0x6eu8, 0x74u8, 0x69u8, 0x6cu8] {
        Some(Symbol::Until)
    } else if w == seq![0x77u8, 0x68u8, 0x69u8, 0x6cu8, 0x65u8] {
        Some(Symbol::While)
    } else {
        None
    }
}

#[via_fn]
proof fn short_string_decreases(s: Seq<u8>, i: int, q: u8, buf: Seq<u8>, cp: Option<u32>) {
    if 0 <= i < s.len() && i + 2 <= s.len() {
        lemma_whitespace_len_bound(s, i + 2);
    }
}

/// The outcome of asking for the next token from index `i`.
pub ghost enum Lexed {
    /// A token and the span `[start, end)` of its lexeme.
    Token(TokenV, int, int),
    /// Nothing but whitespace and comments is left.
    End,
    Fail(LexerError),
}

/// The next token of `s` from index `i`, after skipping whitespace and comments.
pub open spec fn lex(s: Seq<u8>, i: int) -> Lexed
    decreases s.len() - i,
    via lex_decreases
{
    if i < 0 || i >= s.len() {
        Lexed::End
    } else {
        let c = s[i];
        if whitespace_len(s, i) > 0 {
            lex(s, i + whitespace_len(s, i))
        } else if c == 0x2d && byte_at(s, i + 1) == 0x2d {
            if byte_at(s, i + 2) == 0x5b && (byte_at(s, i + 3) == 0x5b || byte_at(s, i + 3) == 0x3d) {
                match long_bracket(s, i + 3) {
                    Scanned::Done(_, e) => lex(s, e),
                    Scanned::Fail(err) => Lexed::Fail(err),
                }
            } else {
                lex(s, i + 2 + run_len(s, i + 2, ByteClass::NotNewline))
            }
        } else if c == 0x22 || c == 0x27 {
            match short_string(s, i + 1, c, Seq::empty(), None) {
                Scanned::Done(b, e) => Lexed::Token(TokenV::Str(b), i, e),
                Scanned::Fail(err) => Lexed::Fail(err),
            }
        } else if c == 0x5b {
            if byte_at(s, i + 1) == 0x5b || byte_at(s, i + 1) == 0x3d {
                match long_bracket(s, i + 1) {
                    Scanned::Done(b, e) => Lexed::Token(TokenV::Str(b), i, e),
                    Scanned::Fail(err) => Lexed::Fail(err),
                }
            } else {
                Lexed::Token(TokenV::Sym(Symbol::LeftBracket), i, i + 1)
            }
        } else if is_name_start(c) {
            let e = i + run_len(s, i, ByteClass::NameChar);
            let w = s.subrange(i, e);
            match keyword(w) {
                Some(k) => Lexed::Token(TokenV::Sym(k), i, e),
                None => Lexed::Token(TokenV::Name(w), i, e),
            }
        } else if is_dec_digit(c) || (c == 0x2e && dec_at(s, i + 1)) {
            let e = numeral_end(s, i);
            match numeral_token(s.subrange(i, e)) {
                Ok(t) => Lexed::Token(t, i, e),
                Err(err) => Lexed::Fail(err),
            }
        } else {
            match operator(s, i) {
                Some((k, w)) => Lexed::Token(TokenV::Sym(k), i, i + w),
                None => Lexed::Fail(LexerError::UnexpectedCharacter(c)),
            }
        }
    }
}

#[via_fn]
proof fn lex_decreases(s: Seq<u8>, i: int) {
    if 0 <= i < s.len() {
        lemma_whitespace_len_bound(s, i);
        lemma_long_bracket_end(s, i + 3);
        if i + 2 <= s.len() {
            lemma_run_len_bound(s, i + 2, ByteClass::NotNewline);
        }
    }
}

pub proof fn lemma_closer_from_ge(s: Seq<u8>, j: int, n: nat)
    ensures
        closer_from(s, j, n) matches Some(k) ==> j <= k < s.len() && closes_at(s, k, n),
    decreases s.len() - j,
{
    if 0 <= j < s.len() && !closes_at(s, j, n) {
        lemma_closer_from_ge(s, j + 1, n);
    }
}

proof fn lemma_run_len_bound(s: Seq<u8>, j: int, class: ByteClass)
    requires
        0 <= j <= s.len(),
    ensures
        j + run_len(s, j, class) <= s.len(),
    decreases s.len() - j,
{
    if j < s.len() {
        lemma_run_len_bound(s, j + 1, class);
    }
}

/// A long bracket ends after the index it starts from, and within the input.
pub proof fn lemma_long_bracket_end(s: Seq<u8>, i: int)
    ensures
        long_bracket(s, i) matches Scanned::Done(_, e) ==> i < e <= s.len(),
{
    lemma_closer_from_ge(s, i + eq_run(s, i) + 1, eq_run(s, i));
}

/// Input made of whitespace alone (spaces, tabs, newlines, CR LF pairs) holds no token: the
/// first request already reaches the end, and the whole input yields no token.
pub proof fn lemma_whitespace_only_input(s: Seq<u8>)
    requires
        whitespace_len(s, 0) == s.len(),
    ensures
        lex(s, 0) == Lexed::End,
        lex_all(s, 0) == Ok::<Seq<(TokenV, int, int)>, LexerError>(Seq::empty()),
{
    if s.len() > 0 {
        assert(lex(s, 0) == lex(s, s.len() as int));
    }
    lemma_lex_all_step(s, 0);
}

/// `n` equals signs.
pub open spec fn equals_signs(n: nat) -> Seq<u8> {
    Seq::new(n, |k: int| 0x3du8)
}

/// The opening long bracket of level `n`: `[`, `n` times `=`, `[`.
pub open spec fn opening_bracket(n: nat) -> Seq<u8> {
    seq![0x5bu8] + equals_signs(n) + seq![0x5bu8]
}

/// The closing long bracket of level `n`: `]`, `n` times `=`, `]`.
pub open spec fn closing_bracket(n: nat) -> Seq<u8> {
    seq![0x5du8] + equals_signs(n) + seq![0x5du8]
}

proof fn lemma_eq_run_exact(s: Seq<u8>, j: int, m: nat)
    requires
        0 <= j,
        j + m < s.len(),
        forall|t: int| j <= t < j + m ==> s[t] == 0x3d,
        s[j + m] != 0x3d,
    ensures
        eq_run(s, j) == m,
    decreases m,
{
    if m > 0 {
        lemma_eq_run_exact(s, j + 1, (m - 1) as nat);
    }
}

/// A long string of any level `n` whose content `c` holds no closing bracket of level `n`
/// (not even one that ends in the final closer) lexes to its content, verbatim, whatever follows
/// it: closing brackets of other levels inside it are content, the string ends exactly at the
/// first closing bracket of its own level, and lexing goes on right after that closer.
pub proof fn lemma_long_string_verbatim(n: nat, c: Seq<u8>, rest: Seq<u8>)
    requires
        forall|j: int| 0 <= j < c.len() ==> !closes_at(c + closing_bracket(n), j, n),
    ensures
        ({
            let s = opening_bracket(n) + c + closing_bracket(n) + rest;
            let end = (opening_bracket(n) + c + closing_bracket(n)).len() as int;
            &&& lex(s, 0) == Lexed::Token(TokenV::Str(c), 0, end)
            &&& lex_all(s, 0) == after_prefix(seq![(TokenV::Str(c), 0, end)], lex_all(s, end))
        }),
{
    let o = opening_bracket(n);
    let t = c + closing_bracket(n);
    let s = o + c + closing_bracket(n) + rest;
    assert(s =~= o + t + rest);
    let b: int = n as int + 2;
    assert(o.len() == b);
    assert forall|x: int| 0 <= x < t.len() implies #[trigger] byte_at(s, b + x) == byte_at(t, x) by {
        assert(s[b + x] == t[x]);
    }
    assert forall|j: int| b <= j < b + c.len() implies !closes_at(s, j, n) by {
        let x = j - b;
        assert(!closes_at(t, x, n));
        assert(byte_at(s, j) == byte_at(t, x));
        assert(byte_at(s, b + (x + n + 1)) == byte_at(t, x + n + 1));
        if closes_at(s, j, n) {
            assert forall|k: int| 1 <= k <= n implies #[trigger] byte_at(t, x + k) == 0x3d by {
                assert(byte_at(s, b + (x + k)) == byte_at(t, x + k));
                assert(byte_at(s, j + k) == 0x3d);
            }
        }
    }
    let k: int = b + c.len();
    assert(closes_at(s, k, n)) by {
        assert forall|m: int| 1 <= m <= n implies #[trigger] byte_at(s, k + m) == 0x3d by {
            assert(s[k + m] == closing_bracket(n)[m]);
        }
        assert(s[k] == 0x5d);
        assert(s[k + n + 1] == closing_bracket(n)[n + 1int]);
    }
    lemma_closer_skip(s, b, k, n);
    assert(closer_from(s, k, n) == Some(k));
    assert forall|x: int| 1 <= x < 1 + n implies s[x] == 0x3d by {
        assert(s[x] == o[x]);
    }
    assert(s[1 + n as int] == 0x5b);
    lemma_eq_run_exact(s, 1, n);
    assert(s.subrange(b, k) =~= c);
    assert(whitespace_len(s, 0) == 0);
    assert(s[0] == 0x5b);
    if n == 0 {
        assert(byte_at(s, 1) == 0x5b);
    } else {
        assert(byte_at(s, 1) == 0x3d);
    }
    assert(lex(s, 0) == Lexed::Token(TokenV::Str(c), 0, k + n + 2));
    lemma_lex_all_step(s, 0);
}

proof fn lemma_run_len_exact(s: Seq<u8>, j: int, m: nat, class: ByteClass)
    requires
        0 <= j,
        j + m <= s.len(),
        forall|t: int| j <= t < j + m ==> in_class(#[trigger] s[t], class),
        j + m == s.len() || !in_class(s[j + m], class),
    ensures
        run_len(s, j, class) == m,
    decreases m,
{
    if m > 0 {
        lemma_run_len_exact(s, j + 1, (m - 1) as nat, class);
    }
}

/// Lexing the decimal rendering of a non-negative integer gives back that integer, as one
/// token over the whole input.
pub proof fn lemma_integer_rendering_relexes(n: i64)
    requires
        n >= 0,
    ensures
        lex(decimal_rendering(n as nat), 0) == Lexed::Token(
            TokenV::Integer(n),
            0,
            decimal_rendering(n as nat).len() as int,
        ),
{
    let s = decimal_rendering(n as nat);
    lemma_decimal_rendering(n as nat);
    lemma_integer_rendering_reads_back(n);
    assert(is_dec_digit(s[0]));
    assert(whitespace_len(s, 0) == 0);
    lemma_run_len_exact(s, 0, s.len(), ByteClass::DecDigit);
    if s.len() > 1 {
        assert(is_dec_digit(s[1]));
    }
    assert(numeral_end(s, 0) == s.len());
    assert(s.subrange(0, s.len() as int) =~= s);
}

/// Lexing the canonical rendering of a decimal float gives back that float, as one token over
/// the whole input.
pub proof fn lemma_float_rendering_relexes(f: FloatV)
    requires
        !f.hex,
        f.mantissa.len() > 0,
        forall|i: int| 0 <= i < f.mantissa.len() ==> f.mantissa[i] < 10,
    ensures
        lex(float_rendering(f), 0) == Lexed::Token(TokenV::Float(f), 0, float_rendering(f).len() as int),
{
    let s = float_rendering(f);
    lemma_float_rendering_reads_back(f);
    let m = digit_chars(f.mantissa);
    let ml = m.len() as int;
    let magnitude = if f.exponent < 0 {
        -f.exponent
    } else {
        f.exponent
    };
    let r = decimal_rendering(magnitude as nat);
    lemma_decimal_rendering(magnitude as nat);
    assert(all_digits(m, false));
    assert(forall|i: int| 0 <= i < ml ==> s[i] == m[i]);
    assert(s[ml] == 0x65);
    assert(is_dec_digit(s[0]));
    assert(whitespace_len(s, 0) == 0);
    lemma_run_len_exact(s, 0, ml as nat, ByteClass::DecDigit);
    assert(byte_at(s, 1) != 0x78 && byte_at(s, 1) != 0x58) by {
        if ml >= 2 {
            assert(s[1] == m[1]);
        }
    }
    let c = if f.exponent < 0 {
        ml + 2
    } else {
        ml + 1
    };
    assert(forall|i: int| 0 <= i < r.len() ==> s[c + i] == r[i]);
    assert(s.len() == c + r.len());
    lemma_run_len_exact(s, c, r.len(), ByteClass::DecDigit);
    assert(numeral_end(s, 0) == s.len());
    assert(s.subrange(0, s.len() as int) =~= s);
}

proof fn lemma_unicode_digits(s: Seq<u8>, i: int, q: u8, buf: Seq<u8>, h: Seq<u8>, m: int)
    requires
        0 <= i,
        0 <= m <= h.len(),
        i + h.len() < s.len(),
        s.subrange(i, i + h.len()) == h,
        all_digits(h, true),
        value_of(digit_values(h), 16) <= 0x10ffff,
    ensures
        short_string(s, i + m, q, buf, Some(value_of(digit_values(h).take(m), 16) as u32))
            == short_string(s, i + h.len(), q, buf, Some(value_of(digit_values(h), 16) as u32)),
    decreases h.len() - m,
{
    let d = digit_values(h);
    if m < h.len() {
        lemma_unicode_digits(s, i, q, buf, h, m + 1);
        lemma_value_of_prefix(d, 16, m + 1);
        assert(d.take(m + 1).drop_last() =~= d.take(m));
        assert(s[i + m] == h[m]);
        assert(is_hex_digit(h[m]));
        assert(value_of(d.take(m + 1), 16) == value_of(d.take(m), 16) * 16 + digit_value(h[m]));
    } else {
        assert(d.take(m) =~= d);
    }
}

/// A `\u{...}` escape whose hexadecimal digits `h` denote a Unicode scalar value `c` appends the
/// UTF-8 encoding of `c` to the string under way; decoding those bytes gives back `c`.
pub proof fn lemma_unicode_escape_round_trip(s: Seq<u8>, i: int, q: u8, buf: Seq<u8>, h: Seq<u8>)
    requires
        0 <= i,
        i + h.len() < s.len(),
        s.subrange(i, i + h.len()) == h,
        s[i + h.len()] == 0x7d,
        all_digits(h, true),
        value_of(digit_values(h), 16) <= 0x10ffff,
        is_scalar(value_of(digit_values(h), 16) as u32),
    ensures
        short_string(s, i, q, buf, Some(0u32)) == short_string(
            s,
            i + h.len() + 1,
            q,
            buf + encode_scalar(value_of(digit_values(h), 16) as u32),
            None,
        ),
        decode_first_scalar(encode_scalar(value_of(digit_values(h), 16) as u32)) == value_of(
            digit_values(h),
            16,
        ),
{
    let c = value_of(digit_values(h), 16) as u32;
    lemma_unicode_digits(s, i, q, buf, h, 0);
    assert(digit_values(h).take(0) =~= Seq::<u8>::empty());
    assert(value_of(Seq::<u8>::empty(), 16) == 0);
    lemma_escape_round_trip(c);
}

/// `b` raised to `e`.
pub open spec fn power(b: nat, e: nat) -> nat
    decreases e,
{
    if e == 0 {
        1
    } else {
        b * power(b, (e - 1) as nat)
    }
}

/// The exact value of a float, as a numerator and a denominator.
pub open spec fn float_fraction(f: FloatV) -> (nat, nat) {
    let m = value_of(f.mantissa, if f.hex {
        16
    } else {
        10
    });
    let r: nat = if f.hex {
        2
    } else {
        10
    };
    if f.exponent >= 0 {
        (m * power(r, f.exponent as nat), 1)
    } else {
        (m, power(r, (-f.exponent) as nat))
    }
}

/// Two floats denote the same number.
pub open spec fn same_value(f: FloatV, g: FloatV) -> bool {
    float_fraction(f).0 * float_fraction(g).1 == float_fraction(g).0 * float_fraction(f).1
}

/// The decimal float with the same value as `f`: `f` itself when decimal; for a hexadecimal
/// `m * 2^e`, the digits of `m * 2^e` when `e >= 0`, else those of `m * 5^-e` over `10^-e`.
pub open spec fn decimal_form(f: FloatV) -> FloatV {
    let m = value_of(f.mantissa, 16);
    if !f.hex {
        f
    } else if f.exponent >= 0 {
        FloatV {
            hex: false,
            mantissa: digit_values(decimal_rendering(m * power(2, f.exponent as nat))),
            exponent: 0,
        }
    } else {
        FloatV {
            hex: false,
            mantissa: digit_values(decimal_rendering(m * power(5, (-f.exponent) as nat))),
            exponent: f.exponent,
        }
    }
}

proof fn lemma_power_ten(k: nat)
    ensures
        power(10, k) == power(5, k) * power(2, k),
    decreases k,
{
    if k > 0 {
        lemma_power_ten((k - 1) as nat);
        let a = power(5, (k - 1) as nat);
        let b = power(2, (k - 1) as nat);
        assert(power(5, k) == 5 * a);
        assert(power(2, k) == 2 * b);
        assert(power(10, k) == 10 * power(10, (k - 1) as nat));
        assert(5 * a * (2 * b) == 10 * (a * b)) by (nonlinear_arith);
    } else {
        assert(power(10, 0) == 1 && power(5, 0) == 1 && power(2, 0) == 1);
    }
}

/// Lexing the canonical decimal rendering of any float (decimal or hexadecimal) gives back one
/// float token over the whole input, and that float has the same value.
pub proof fn lemma_float_value_relexes(f: FloatV)
    requires
        f.mantissa.len() > 0,
        forall|i: int| 0 <= i < f.mantissa.len() ==> f.mantissa[i] < (if f.hex {
            16int
        } else {
            10int
        }),
    ensures
        lex(float_rendering(decimal_form(f)), 0) == Lexed::Token(
            TokenV::Float(decimal_form(f)),
            0,
            float_rendering(decimal_form(f)).len() as int,
        ),
        same_value(f, decimal_form(f)),
{
    let g = decimal_form(f);
    if !f.hex {
        lemma_float_rendering_relexes(f);
        return;
    }
    let m = value_of(f.mantissa, 16);
    let n: nat = if f.exponent >= 0 {
        m * power(2, f.exponent as nat)
    } else {
        m * power(5, (-f.exponent) as nat)
    };
    let r = decimal_rendering(n);
    lemma_decimal_rendering(n);
    assert(g.mantissa == digit_values(r));
    assert forall|i: int| 0 <= i < g.mantissa.len() implies g.mantissa[i] < 10 by {
        assert(is_dec_digit(r[i]));
    }
    lemma_float_rendering_relexes(g);
    assert(value_of(g.mantissa, 10) == n);
    if f.exponent >= 0 {
        assert(power(10, 0) == 1);
        assert(float_fraction(g) == (n * 1, 1nat));
    } else {
        let k = (-f.exponent) as nat;
        lemma_power_ten(k);
        assert(float_fraction(f) == (m, power(2, k)));
        assert(float_fraction(g) == (n, power(10, k)));
        assert(m * (power(5, k) * power(2, k)) == m * power(5, k) * power(2, k)) by (nonlinear_arith);
    }
}

/// `l` with its span moved `d` bytes on.
pub open spec fn shifted(l: Lexed, d: int) -> Lexed {
    match l {
        Lexed::Token(t, a, b) => Lexed::Token(t, a + d, b + d),
        other => other,
    }
}

pub open spec fn shifted_scan(r: Scanned, d: int) -> Scanned {
    match r {
        Scanned::Done(b, e) => Scanned::Done(b, e + d),
        other => other,
    }
}

proof fn lemma_shift_whitespace(p: Seq<u8>, r: Seq<u8>, i: int)
    requires
        0 <= i,
    ensures
        whitespace_len(p + r, p.len() + i) == whitespace_len(r, i),
    decreases r.len() - i,
{
    let s = p + r;
    assert(forall|x: int| 0 <= x ==> #[trigger] byte_at(s, p.len() + x) == byte_at(r, x));
    if i < r.len() {
        assert(s[p.len() + i] == r[i]);
        assert(byte_at(s, p.len() + i + 1) == byte_at(r, i + 1));
        lemma_shift_whitespace(p, r, i + 1);
        if i + 2 <= r.len() {
            lemma_shift_whitespace(p, r, i + 2);
        }
    }
}

proof fn lemma_shift_run(p: Seq<u8>, r: Seq<u8>, i: int, class: ByteClass)
    requires
        0 <= i,
    ensures
        run_len(p + r, p.len() + i, class) == run_len(r, i, class),
    decreases r.len() - i,
{
    if i < r.len() {
        assert((p + r)[p.len() + i] == r[i]);
        lemma_shift_run(p, r, i + 1, class);
    }
}

proof fn lemma_shift_eq_run(p: Seq<u8>, r: Seq<u8>, i: int)
    requires
        0 <= i,
    ensures
        eq_run(p + r, p.len() + i) == eq_run(r, i),
    decreases r.len() - i,
{
    if i < r.len() {
        assert((p + r)[p.len() + i] == r[i]);
        lemma_shift_eq_run(p, r, i + 1);
    }
}

proof fn lemma_shift_closer(p: Seq<u8>, r: Seq<u8>, j: int, n: nat)
    requires
        0 <= j,
    ensures
        closer_from(p + r, p.len() + j, n) == (match closer_from(r, j, n) {
            Some(k) => Some(k + p.len()),
            None => None,
        }),
    decreases r.len() - j,
{
    let s = p + r;
    let d = p.len() as int;
    assert forall|x: int| 0 <= x implies #[trigger] byte_at(s, d + x) == byte_at(r, x) by {
        if x < r.len() {
            assert(s[d + x] == r[x]);
        }
    }
    if j < r.len() {
        assert(byte_at(s, d + j) == byte_at(r, j));
        assert(byte_at(s, d + j + n + 1) == byte_at(r, j + n + 1)) by {
            assert(byte_at(s, d + (j + n + 1)) == byte_at(r, j + n + 1));
        }
        if closes_at(r, j, n) {
            assert forall|k: int| 1 <= k <= n implies #[trigger] byte_at(s, d + j + k) == 0x3d by {
                assert(byte_at(s, d + (j + k)) == byte_at(r, j + k));
            }
        }
        if closes_at(s, d + j, n) {
            assert forall|k: int| 1 <= k <= n implies #[trigger] byte_at(r, j + k) == 0x3d by {
                assert(byte_at(s, d + (j + k)) == byte_at(r, j + k));
                assert(byte_at(s, d + j + k) == 0x3d);
            }
        }
        assert(closes_at(s, d + j, n) == closes_at(r, j, n));
        lemma_shift_closer(p, r, j + 1, n);
    }
}

proof fn lemma_shift_long_bracket(p: Seq<u8>, r: Seq<u8>, i: int)
    requires
        0 <= i,
    ensures
        long_bracket(p + r, p.len() + i) == shifted_scan(long_bracket(r, i), p.len() as int),
{
    let s = p + r;
    let d = p.len() as int;
    lemma_shift_eq_run(p, r, i);
    let n = eq_run(r, i);
    let b = i + n;
    if b < r.len() {
        assert(s[d + b] == r[b]);
        lemma_shift_closer(p, r, b + 1, n);
        if let Some(k) = closer_from(r, b + 1, n) {
            lemma_closer_from_ge(r, b + 1, n);
            assert(s.subrange(d + b + 1, d + k) =~= r.subrange(b + 1, k));
        }
    }
}

proof fn lemma_shift_short_string(p: Seq<u8>, r: Seq<u8>, i: int, q: u8, buf: Seq<u8>, cp: Option<u32>)
    requires
        0 <= i,
    ensures
        short_string(p + r, p.len() + i, q, buf, cp) == shifted_scan(
            short_string(r, i, q, buf, cp),
            p.len() as int,
        ),
    decreases r.len() - i,
{
    let s = p + r;
    let d = p.len() as int;
    assert forall|x: int| 0 <= x implies #[trigger] byte_at(s, d + x) == byte_at(r, x) by {
        if x < r.len() {
            assert(s[d + x] == r[x]);
        }
    }
    if i < r.len() {
        let c = r[i];
        assert(s[d + i] == c);
        assert(byte_at(s, d + i + 1) == byte_at(r, i + 1));
        assert(byte_at(s, d + i + 2) == byte_at(r, i + 2));
        assert(byte_at(s, d + i + 3) == byte_at(r, i + 3));
        assert(hex_at(s, d + i + 2) == hex_at(r, i + 2));
        assert(hex_at(s, d + i + 3) == hex_at(r, i + 3));
        assert(dec_at(s, d + i + 1) == dec_at(r, i + 1));
        assert(dec_at(s, d + i + 2) == dec_at(r, i + 2));
        assert(dec_at(s, d + i + 3) == dec_at(r, i + 3));
        assert(decimal_escape_len(s, d + i + 1) == decimal_escape_len(r, i + 1));
        match cp {
            Some(v) => {
                if is_hex_digit(c) {
                    let w = v * 16 + digit_value(c);
                    if w <= 0x10ffff {
                        lemma_shift_short_string(p, r, i + 1, q, buf, Some(w as u32));
                    }
                } else if c == 0x7d && is_scalar(v) {
                    lemma_shift_short_string(p, r, i + 1, q, buf + encode_scalar(v), None);
                }
            },
            None => {
                if c != q && c != 0x0a {
                    if c != 0x5c {
                        lemma_shift_short_string(p, r, i + 1, q, buf.push(c), None);
                    } else {
                        let e = byte_at(r, i + 1);
                        if e != -1 {
                            if simple_escape(e) is Some {
                                lemma_shift_short_string(p, r, i + 2, q, buf.push(simple_escape(e)->0), None);
                            } else if e == 0x78 {
                                if hex_at(r, i + 2) && hex_at(r, i + 3) {
                                    assert(s[d + i + 2] == r[i + 2] && s[d + i + 3] == r[i + 3]);
                                    let b = digit_value(r[i + 2]) * 16 + digit_value(r[i + 3]);
                                    lemma_shift_short_string(p, r, i + 4, q, buf.push(b as u8), None);
                                }
                            } else if e == 0x7a {
                                lemma_shift_whitespace(p, r, i + 2);
                                lemma_whitespace_len_bound(r, i + 2);
                                lemma_shift_short_string(p, r, i + 2 + whitespace_len(r, i + 2), q, buf, None);
                            } else if is_dec_digit(e as u8) {
                                let k = decimal_escape_len(r, i + 1);
                                assert(s[d + i + 1] == r[i + 1]);
                                if k >= 2 {
                                    assert(s[d + i + 2] == r[i + 2]);
                                }
                                if k >= 3 {
                                    assert(s[d + i + 3] == r[i + 3]);
                                }
                                assert(decimal_escape_value(s, d + i + 1, k) == decimal_escape_value(r, i + 1, k));
                                let v = decimal_escape_value(r, i + 1, k);
                                if v <= 255 {
                                    lemma_shift_short_string(p, r, i + 1 + k, q, buf.push(v as u8), None);
                                }
                            } else if e == 0x75 && byte_at(r, i + 2) == 0x7b {
                                lemma_shift_short_string(p, r, i + 3, q, buf, Some(0u32));
                            }
                        }
                    }
                }
            },
        }
    }
}

proof fn lemma_shift_bytes(p: Seq<u8>, r: Seq<u8>)
    ensures
        forall|x: int| 0 <= x ==> #[trigger] byte_at(p + r, p.len() + x) == byte_at(r, x),
{
    assert forall|x: int| 0 <= x implies #[trigger] byte_at(p + r, p.len() + x) == byte_at(r, x) by {
        if x < r.len() {
            assert((p + r)[p.len() + x] == r[x]);
        }
    }
}

proof fn lemma_shift_exponent_end(p: Seq<u8>, r: Seq<u8>, b: int, hex: bool)
    requires
        0 <= b,
    ensures
        exponent_end(p + r, p.len() + b, hex) == exponent_end(r, b, hex) + p.len(),
{
    let s = p + r;
    let d = p.len() as int;
    lemma_shift_bytes(p, r);
    assert(byte_at(s, d + b) == byte_at(r, b));
    assert(byte_at(s, d + (b + 1)) == byte_at(r, b + 1));
    let c = if byte_at(r, b + 1) == 0x2b || byte_at(r, b + 1) == 0x2d {
        b + 2
    } else {
        b + 1
    };
    if 0 <= c < r.len() {
        assert(s[d + c] == r[c]);
    }
    lemma_shift_run(p, r, c, digit_class(hex));
}

proof fn lemma_shift_numeral_end(p: Seq<u8>, r: Seq<u8>, i: int)
    requires
        0 <= i,
    ensures
        numeral_end(p + r, p.len() + i) == numeral_end(r, i) + p.len(),
{
    let s = p + r;
    let d = p.len() as int;
    lemma_shift_bytes(p, r);
    assert(byte_at(s, d + i) == byte_at(r, i));
    assert(byte_at(s, d + (i + 1)) == byte_at(r, i + 1));
    if byte_at(r, i) == 0x30 && (byte_at(r, i + 1) == 0x78 || byte_at(r, i + 1) == 0x58) {
        lemma_shift_run(p, r, i + 2, ByteClass::HexDigit);
        let a = i + 2 + run_len(r, i + 2, ByteClass::HexDigit);
        assert(byte_at(s, d + a) == byte_at(r, a));
        lemma_shift_run(p, r, a + 1, ByteClass::HexDigit);
        lemma_shift_exponent_end(p, r, a, true);
        lemma_shift_exponent_end(p, r, a + 1 + run_len(r, a + 1, ByteClass::HexDigit), true);
    } else {
        lemma_shift_run(p, r, i, ByteClass::DecDigit);
        let a = i + run_len(r, i, ByteClass::DecDigit);
        assert(byte_at(s, d + a) == byte_at(r, a));
        lemma_shift_run(p, r, a + 1, ByteClass::DecDigit);
        lemma_shift_exponent_end(p, r, a, false);
        lemma_shift_exponent_end(p, r, a + 1 + run_len(r, a + 1, ByteClass::DecDigit), false);
    }
}

proof fn lemma_shift_operator(p: Seq<u8>, r: Seq<u8>, i: int)
    requires
        0 <= i,
    ensures
        operator(p + r, p.len() + i) == operator(r, i),
{
    let s = p + r;
    let d = p.len() as int;
    lemma_shift_bytes(p, r);
    assert(byte_at(s, d + i) == byte_at(r, i));
    assert(byte_at(s, d + i + 1) == byte_at(r, i + 1)) by {
        assert(byte_at(s, d + (i + 1)) == byte_at(r, i + 1));
    }
    assert(byte_at(s, d + i + 2) == byte_at(r, i + 2)) by {
        assert(byte_at(s, d + (i + 2)) == byte_at(r, i + 2));
    }
}

/// Lexing from an index of `r` after some prefix `p` finds what lexing `r` alone finds there,
/// with the span moved by the prefix's length.
#[verifier::rlimit(100)]
pub proof fn lemma_shift_lex(p: Seq<u8>, r: Seq<u8>, i: int)
    requires
        0 <= i,
    ensures
        lex(p + r, p.len() + i) == shifted(lex(r, i), p.len() as int),
    decreases r.len() - i,
{
    let s = p + r;
    let d = p.len() as int;
    lemma_shift_bytes(p, r);
    if i < r.len() {
        let c = r[i];
        assert(s[d + i] == c);
        assert(byte_at(s, d + (i + 1)) == byte_at(r, i + 1));
        assert(byte_at(s, d + (i + 2)) == byte_at(r, i + 2));
        assert(byte_at(s, d + (i + 3)) == byte_at(r, i + 3));
        assert(dec_at(s, d + i + 1) == dec_at(r, i + 1));
        lemma_shift_whitespace(p, r, i);
        lemma_whitespace_len_bound(r, i);
        if whitespace_len(r, i) > 0 {
            lemma_shift_lex(p, r, i + whitespace_len(r, i));
        } else if c == 0x2d && byte_at(r, i + 1) == 0x2d {
            if byte_at(r, i + 2) == 0x5b && (byte_at(r, i + 3) == 0x5b || byte_at(r, i + 3) == 0x3d) {
                lemma_shift_long_bracket(p, r, i + 3);
                lemma_long_bracket_end(r, i + 3);
                if let Scanned::Done(_, e) = long_bracket(r, i + 3) {
                    lemma_shift_lex(p, r, e);
                }
            } else {
                lemma_shift_run(p, r, i + 2, ByteClass::NotNewline);
                lemma_run_len_bound(r, i + 2, ByteClass::NotNewline);
                lemma_shift_lex(p, r, i + 2 + run_len(r, i + 2, ByteClass::NotNewline));
            }
        } else if c == 0x22 || c == 0x27 {
            lemma_shift_short_string(p, r, i + 1, c, Seq::empty(), None);
        } else if c == 0x5b {
            lemma_shift_long_bracket(p, r, i + 1);
        } else if is_name_start(c) {
            lemma_shift_run(p, r, i, ByteClass::NameChar);
            lemma_run_len_bound(r, i, ByteClass::NameChar);
            let e = i + run_len(r, i, ByteClass::NameChar);
            assert(s.subrange(d + i, d + e) =~= r.subrange(i, e));
        } else if is_dec_digit(c) || (c == 0x2e && dec_at(r, i + 1)) {
            lemma_shift_numeral_end(p, r, i);
            lemma_numeral_end(r, i);
            let e = numeral_end(r, i);
            assert(s.subrange(d + i, d + e) =~= r.subrange(i, e));
        } else {
            lemma_shift_operator(p, r, i);
        }
    }
}

/// `res` with every span moved `d` bytes on.
pub open spec fn shifted_all(
    res: Result<Seq<(TokenV, int, int)>, LexerError>,
    d: int,
) -> Result<Seq<(TokenV, int, int)>, LexerError> {
    match res {
        Ok(ts) => Ok(ts.map_values(|x: (TokenV, int, int)| (x.0, x.1 + d, x.2 + d))),
        Err(e) => Err(e),
    }
}

/// Lexing the whole of `r` after a prefix `p`, from an index of `r` on, gives the tokens of `r`
/// alone, with their spans moved by the prefix's length.
#[verifier::rlimit(100)]
pub proof fn lemma_shift_lex_all(p: Seq<u8>, r: Seq<u8>, i: int)
    requires
        0 <= i,
    ensures
        lex_all(p + r, p.len() + i) == shifted_all(lex_all(r, i), p.len() as int),
    decreases r.len() - i,
{
    let s = p + r;
    let d = p.len() as int;
    lemma_shift_lex(p, r, i);
    lemma_lex_all_step(r, i);
    lemma_lex_all_step(s, d + i);
    let f = |x: (TokenV, int, int)| (x.0, x.1 + d, x.2 + d);
    assert(Seq::<(TokenV, int, int)>::empty().map_values(f) =~= Seq::<(TokenV, int, int)>::empty());
    if let Lexed::Token(t, a, b) = lex(r, i) {
        lemma_shift_lex_all(p, r, b);
        match lex_all(r, b) {
            Ok(rest) => {
                assert((seq![(t, a, b)] + rest).map_values(f) =~= seq![(t, a + d, b + d)]
                    + rest.map_values(f));
            },
            Err(_) => {},
        }
    }
}

/// After a long string of any level `n` whose content `c` holds no closing bracket of level `n`,
/// the rest of the input lexes exactly as it would alone: the string token comes first, then the
/// tokens (or the error) of `rest`, their spans moved past the string.
pub proof fn lemma_long_string_then_rest(n: nat, c: Seq<u8>, rest: Seq<u8>)
    requires
        forall|j: int| 0 <= j < c.len() ==> !closes_at(c + closing_bracket(n), j, n),
    ensures
        ({
            let head = opening_bracket(n) + c + closing_bracket(n);
            lex_all(head + rest, 0) == after_prefix(
                seq![(TokenV::Str(c), 0, head.len() as int)],
                shifted_all(lex_all(rest, 0), head.len() as int),
            )
        }),
{
    let head = opening_bracket(n) + c + closing_bracket(n);
    lemma_long_string_verbatim(n, c, rest);
    lemma_shift_lex_all(head, rest, 0);
}

proof fn lemma_short_string_end(s: Seq<u8>, i: int, q: u8, buf: Seq<u8>, cp: Option<u32>)
    requires
        0 <= i,
    ensures
        short_string(s, i, q, buf, cp) matches Scanned::Done(_, e) ==> i < e <= s.len(),
    decreases s.len() - i,
{
    if i < s.len() {
        let c = s[i];
        match cp {
            Some(v) => {
                if is_hex_digit(c) {
                    let w = v * 16 + digit_value(c);
                    if w <= 0x10ffff {
                        lemma_short_string_end(s, i + 1, q, buf, Some(w as u32));
                    }
                } else if c == 0x7d && is_scalar(v) {
                    lemma_short_string_end(s, i + 1, q, buf + encode_scalar(v), None);
                }
            },
            None => {
                if c != q && c != 0x0a {
                    if c != 0x5c {
                        lemma_short_string_end(s, i + 1, q, buf.push(c), None);
                    } else {
                        let e = byte_at(s, i + 1);
                        if e != -1 {
                            if simple_escape(e) is Some {
                                lemma_short_string_end(s, i + 2, q, buf.push(simple_escape(e)->0), None);
                            } else if e == 0x78 {
                                if hex_at(s, i + 2) && hex_at(s, i + 3) {
                                    let b = digit_value(s[i + 2]) * 16 + digit_value(s[i + 3]);
                                    lemma_short_string_end(s, i + 4, q, buf.push(b as u8), None);
                                }
                            } else if e == 0x7a {
                                lemma_whitespace_len_bound(s, i + 2);
                                lemma_short_string_end(s, i + 2 + whitespace_len(s, i + 2), q, buf, None);
                            } else if is_dec_digit(e as u8) {
                                let k = decimal_escape_len(s, i + 1);
                                let v = decimal_escape_value(s, i + 1, k);
                                if v <= 255 {
                                    lemma_short_string_end(s, i + 1 + k, q, buf.push(v as u8), None);
                                }
                            } else if e == 0x75 && byte_at(s, i + 2) == 0x7b {
                                lemma_short_string_end(s, i + 3, q, buf, Some(0u32));
                            }
                        }
                    }
                }
            },
        }
    }
}

proof fn lemma_exponent_end(s: Seq<u8>, b: int, hex: bool)
    requires
        0 <= b <= s.len(),
    ensures
        b <= exponent_end(s, b, hex) <= s.len(),
{
    let c = if byte_at(s, b + 1) == 0x2b || byte_at(s, b + 1) == 0x2d {
        b + 2
    } else {
        b + 1
    };
    if 0 <= c < s.len() {
        lemma_run_len_bound(s, c, digit_class(hex));
    }
}

proof fn lemma_numeral_end(s: Seq<u8>, i: int)
    requires
        0 <= i < s.len(),
        is_dec_digit(s[i]) || (s[i] == 0x2e && dec_at(s, i + 1)),
    ensures
        i < numeral_end(s, i) <= s.len(),
{
    if byte_at(s, i) == 0x30 && (byte_at(s, i + 1) == 0x78 || byte_at(s, i + 1) == 0x58) {
        let a = i + 2 + run_len(s, i + 2, ByteClass::HexDigit);
        lemma_run_len_bound(s, i + 2, ByteClass::HexDigit);
        if byte_at(s, a) == 0x2e {
            lemma_run_len_bound(s, a + 1, ByteClass::HexDigit);
            lemma_exponent_end(s, a + 1 + run_len(s, a + 1, ByteClass::HexDigit), true);
        } else {
            lemma_exponent_end(s, a, true);
        }
    } else {
        let a = i + run_len(s, i, ByteClass::DecDigit);
        lemma_run_len_bound(s, i, ByteClass::DecDigit);
        if byte_at(s, a) == 0x2e {
            lemma_run_len_bound(s, a + 1, ByteClass::DecDigit);
            lemma_exponent_end(s, a + 1 + run_len(s, a + 1, ByteClass::DecDigit), false);
        } else {
            lemma_exponent_end(s, a, false);
        }
    }
}

/// A token found from `i` starts at or after `i`, is not empty, and lies within the input.
pub proof fn lemma_token_span(s: Seq<u8>, i: int)
    requires
        0 <= i,
    ensures
        lex(s, i) matches Lexed::Token(_, a, b) ==> i <= a < b <= s.len(),
    decreases s.len() - i,
{
    if i < s.len() {
        let c = s[i];
        lemma_whitespace_len_bound(s, i);
        lemma_long_bracket_end(s, i + 3);
        lemma_long_bracket_end(s, i + 1);
        if whitespace_len(s, i) > 0 {
            lemma_token_span(s, i + whitespace_len(s, i));
        } else if c == 0x2d && byte_at(s, i + 1) == 0x2d {
            if byte_at(s, i + 2) == 0x5b && (byte_at(s, i + 3) == 0x5b || byte_at(s, i + 3) == 0x3d) {
                if let Scanned::Done(_, e) = long_bracket(s, i + 3) {
                    lemma_token_span(s, e);
                }
            } else {
                lemma_run_len_bound(s, i + 2, ByteClass::NotNewline);
                lemma_token_span(s, i + 2 + run_len(s, i + 2, ByteClass::NotNewline));
            }
        } else if c == 0x22 || c == 0x27 {
            lemma_short_string_end(s, i + 1, c, Seq::empty(), None);
        } else if c == 0x5b {
        } else if is_name_start(c) {
            lemma_run_len_bound(s, i, ByteClass::NameChar);
        } else if is_dec_digit(c) || (c == 0x2e && dec_at(s, i + 1)) {
            lemma_numeral_end(s, i);
        }
    }
}

/// The tokens of `s` from `i` on, with their spans, up to the end of input; or the first error.
pub open spec fn lex_all(s: Seq<u8>, i: int) -> Result<Seq<(TokenV, int, int)>, LexerError>
    decreases s.len() - i,
    via lex_all_decreases
{
    if i < 0 {
        Ok(Seq::empty())
    } else {
        match lex(s, i) {
            Lexed::End => Ok(Seq::empty()),
            Lexed::Fail(e) => Err(e),
            Lexed::Token(t, a, b) => match lex_all(s, b) {
                Ok(rest) => Ok(seq![(t, a, b)] + rest),
                Err(e) => Err(e),
            },
        }
    }
}

/// `r` with `prefix` put before the tokens it holds, if it holds any.
pub open spec fn after_prefix(
    prefix: Seq<(TokenV, int, int)>,
    r: Result<Seq<(TokenV, int, int)>, LexerError>,
) -> Result<Seq<(TokenV, int, int)>, LexerError> {
    match r {
        Ok(rest) => Ok(prefix + rest),
        Err(e) => Err(e),
    }
}

/// One step of [`lex_all`]: the first token found from `p`, then the rest.
pub proof fn lemma_lex_all_step(s: Seq<u8>, p: int)
    requires
        0 <= p,
    ensures
        lex(s, p) is End ==> lex_all(s, p) == Ok::<Seq<(TokenV, int, int)>, LexerError>(Seq::empty()),
        lex(s, p) matches Lexed::Fail(e) ==> lex_all(s, p) == Err::<Seq<(TokenV, int, int)>, LexerError>(e),
        lex(s, p) matches Lexed::Token(t, a, b) ==> p <= a < b <= s.len() && lex_all(s, p) == after_prefix(
            seq![(t, a, b)],
            lex_all(s, b),
        ),
{
    lemma_token_span(s, p);
}

#[via_fn]
proof fn lex_all_decreases(s: Seq<u8>, i: int) {
    if i >= 0 {
        lemma_token_span(s, i);
    }
}

pub proof fn lemma_whitespace_len_bound(s: Seq<u8>, j: int)
    requires
        0 <= j <= s.len(),
    ensures
        j + whitespace_len(s, j) <= s.len(),
    decreases s.len() - j,
{
    if j < s.len() {
        if s[j] == 0x20 || s[j] == 0x09 || s[j] == 0x0a {
            lemma_whitespace_len_bound(s, j + 1);
        } else if s[j] == 0x0d && byte_at(s, j + 1) == 0x0a {
            lemma_whitespace_len_bound(s, j + 2);
        }
    }
}

} // verus!
