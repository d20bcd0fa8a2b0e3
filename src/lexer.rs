//! The scanner: a state machine from source bytes to tokens.
use vstd::prelude::*;
use vstd::utf8::encode_utf8;
use crate::error::LexerError;
use crate::numeral::{digit_value, is_dec_digit, is_hex_digit, read_numeral};
use crate::token::{Symbol, Token, TokenV};
use crate::unicode::push_utf8;
use crate::grammar::{
    ByteClass, Lexed, Scanned, after_prefix, byte_at, closer_from, closes_at, eq_run,
    exponent_end, in_class, keyword, lemma_closer_skip, lemma_lex_all_step,
    lemma_long_bracket_end, lex, lex_all, long_bracket, numeral_end, operator, run_len,
    short_string, simple_escape, whitespace_len,
};
use vstd::slice::{slice_subrange, slice_to_vec};

verus! {

/// Which of the two quotes opened the short string under way.
#[derive(Debug, Clone, Copy, PartialEq, Eq, Structural)]
pub enum Quote {
    Single,
    Double,
}

impl Default for Quote {
    fn default() -> (r: Quote)
        ensures
            r == Quote::Single,
    {
        Quote::Single
    }
}

impl Quote {
    pub open spec fn byte(self) -> u8 {
        match self {
            Quote::Single => 0x27,
            Quote::Double => 0x22,
        }
    }
}

/// The scratch record of the state machine, carried across the bytes of one construct.
#[derive(Debug, Clone)]
pub struct LexerState {
    /// Number of opening `=`s seen when parsing a long string.
    pub long_string_opening_eqs: usize,
    /// Number of closing `=`s seen when parsing a long string.
    pub long_string_closing_eqs: usize,
    /// When parsing a short string, whether it started with a double or a single quote.
    pub short_string_delim: Quote,
    /// Buffer for strings.
    pub string_buf: Vec<u8>,
    /// When parsing a long bracket, whether it is a comment (no token) or a string.
    pub in_comment: bool,
    /// Unicode code point being parsed.
    pub unicode_codepoint: u32,
}

impl Default for LexerState {
    fn default() -> (r: LexerState)
        ensures
            r.long_string_opening_eqs == 0,
            r.long_string_closing_eqs == 0,
            r.short_string_delim == Quote::Single,
            r.string_buf@ == Seq::<u8>::empty(),
            !r.in_comment,
            r.unicode_codepoint == 0,
    {
        LexerState::new()
    }
}

impl LexerState {
    pub fn new() -> (r: LexerState)
        ensures
            r.long_string_opening_eqs == 0,
            r.long_string_closing_eqs == 0,
            r.short_string_delim == Quote::Single,
            r.string_buf@ == Seq::<u8>::empty(),
            !r.in_comment,
            r.unicode_codepoint == 0,
    {
        LexerState {
            long_string_opening_eqs: 0,
            long_string_closing_eqs: 0,
            short_string_delim: Quote::Single,
            string_buf: Vec::new(),
            in_comment: false,
            unicode_codepoint: 0,
        }
    }
}

fn peek(s: &Vec<u8>, i: usize) -> (r: i32)
    ensures
        r == byte_at(s@, i as int),
{
    if i < s.len() {
        s[i] as i32
    } else {
        -1
    }
}

fn peek_at(s: &Vec<u8>, i: usize, off: usize) -> (r: i32)
    requires
        i <= s@.len(),
    ensures
        r == byte_at(s@, i + off),
{
    if off < s.len() - i {
        s[i + off] as i32
    } else {
        -1
    }
}

fn is_hex_byte(b: i32) -> (r: bool)
    ensures
        r == (0 <= b <= 255 && is_hex_digit(b as u8)),
{
    (0x30 <= b && b <= 0x39) || (0x41 <= b && b <= 0x46) || (0x61 <= b && b <= 0x66)
}

fn is_dec_byte(b: i32) -> (r: bool)
    ensures
        r == (0 <= b <= 255 && is_dec_digit(b as u8)),
{
    0x30 <= b && b <= 0x39
}

fn hex_value(b: i32) -> (r: u32)
    requires
        0 <= b <= 255,
        is_hex_digit(b as u8),
    ensures
        r == digit_value(b as u8),
        r < 16,
{
    if 0x30 <= b && b <= 0x39 {
        (b - 0x30) as u32
    } else if 0x41 <= b && b <= 0x46 {
        (b - 0x37) as u32
    } else {
        (b - 0x57) as u32
    }
}

fn escape_byte(e: i32) -> (r: Option<u8>)
    ensures
        r == simple_escape(e as int),
{
    if e == 0x61 {
        Some(7)
    } else if e == 0x62 {
        Some(8)
    } else if e == 0x66 {
        Some(12)
    } else if e == 0x6e {
        Some(10)
    } else if e == 0x72 {
        Some(13)
    } else if e == 0x74 {
        Some(9)
    } else if e == 0x76 {
        Some(11)
    } else if e == 0x5c {
        Some(0x5c)
    } else if e == 0x22 {
        Some(0x22)
    } else if e == 0x27 {
        Some(0x27)
    } else if e == 0x0a {
        Some(10)
    } else {
        None
    }
}

/// The width of the whitespace unit at `i`: 1 for space, tab or newline, 2 for CR LF, else 0.
fn whitespace_width(s: &Vec<u8>, i: usize) -> (r: usize)
    requires
        i <= s@.len(),
    ensures
        r == (if byte_at(s@, i as int) == 0x20 || byte_at(s@, i as int) == 0x09 || byte_at(
            s@,
            i as int,
        ) == 0x0a {
            1usize
        } else if byte_at(s@, i as int) == 0x0d && byte_at(s@, i + 1) == 0x0a {
            2usize
        } else {
            0usize
        }),
        i + r <= s@.len(),
{
    if i >= s.len() {
        return 0;
    }
    let c = s[i];
    if c == 0x20 || c == 0x09 || c == 0x0a {
        1
    } else if c == 0x0d && peek(s, i + 1) == 0x0a {
        2
    } else {
        0
    }
}

/// The index after the whitespace that starts at `j`.
fn skip_whitespace(s: &Vec<u8>, j: usize) -> (r: usize)
    requires
        j <= s@.len(),
    ensures
        r == j + whitespace_len(s@, j as int),
        r <= s@.len(),
{
    let mut i = j;
    let n = s.len();
    loop
        invariant
            j <= i <= s@.len(),
            n == s@.len(),
            j + whitespace_len(s@, j as int) == i + whitespace_len(s@, i as int),
        decreases s@.len() - i,
    {
        let w = whitespace_width(s, i);
        if w == 0 {
            return i;
        }
        i += w;
    }
}

fn quote_byte(q: Quote) -> (r: u8)
    ensures
        r == q.byte(),
{
    match q {
        Quote::Single => 0x27,
        Quote::Double => 0x22,
    }
}

/// Scans the body of a short string from `start`, just after its opening quote, decoding it into
/// `st.string_buf`; on success, the index after the closing quote.
fn scan_short_string(s: &Vec<u8>, start: usize, st: &mut LexerState) -> (r: Result<usize, LexerError>)
    requires
        start <= s@.len(),
    ensures
        final(st).short_string_delim == old(st).short_string_delim,
        r matches Ok(e) ==> e <= s@.len(),
        match short_string(s@, start as int, old(st).short_string_delim.byte(), Seq::empty(), None) {
            Scanned::Done(b, e) => r matches Ok(x) && x == e && final(st).string_buf@ == b,
            Scanned::Fail(err) => r == Err::<usize, LexerError>(err),
        },
{
    let q = quote_byte(st.short_string_delim);
    let ghost delim = st.short_string_delim;
    st.string_buf.clear();
    let mut in_unicode = false;
    let mut i = start;
    let n = s.len();
    loop
        invariant
            i <= n == s@.len(),
            q == delim.byte(),
            st.short_string_delim == delim,
            delim == old(st).short_string_delim,
            in_unicode ==> st.unicode_codepoint <= 0x10ffff,
            short_string(
                s@,
                i as int,
                q,
                st.string_buf@,
                if in_unicode {
                    Some(st.unicode_codepoint)
                } else {
                    None
                },
            ) == short_string(s@, start as int, q, Seq::empty(), None),
        decreases n - i,
    {
        if i >= n {
            if in_unicode {
                return Err(LexerError::EscapeUnicodeEnd);
            } else {
                return Err(LexerError::UnfinishedShortString(q));
            }
        }
        let c = s[i];
        if in_unicode {
            if is_hex_byte(c as i32) {
                let w = st.unicode_codepoint * 16 + hex_value(c as i32);
                if w > 0x10ffff {
                    return Err(LexerError::EscapeUnicodeInvalid);
                }
                st.unicode_codepoint = w;
                i += 1;
            } else if c == 0x7d {
                let cp = st.unicode_codepoint;
                if cp >= 0xd800 && cp <= 0xdfff {
                    return Err(LexerError::EscapeUnicodeInvalid);
                }
                push_utf8(&mut st.string_buf, cp);
                in_unicode = false;
                i += 1;
            } else {
                return Err(LexerError::EscapeUnicodeEnd);
            }
        } else if c == q {
            return Ok(i + 1);
        } else if c == 0x0a {
            return Err(LexerError::UnfinishedShortString(q));
        } else if c != 0x5c {
            st.string_buf.push(c);
            i += 1;
        } else {
            let e = peek(s, i + 1);
            if e == -1 {
                return Err(LexerError::UnfinishedShortString(q));
            }
            match escape_byte(e) {
                Some(b) => {
                    st.string_buf.push(b);
                    i += 2;
                },
                None => {
                    if e == 0x78 {
                        let h1 = peek(s, i + 2);
                        let h2 = peek_at(s, i, 3);
                        if !(is_hex_byte(h1) && is_hex_byte(h2)) {
                            return Err(LexerError::HexDigitExpected);
                        }
                        let b = hex_value(h1) * 16 + hex_value(h2);
                        st.string_buf.push(b as u8);
                        i += 4;
                    } else if e == 0x7a {
                        i = skip_whitespace(s, i + 2);
                    } else if is_dec_byte(e) {
                        let d1 = peek(s, i + 2);
                        let d2 = peek_at(s, i, 3);
                        let v0 = hex_value(e);
                        let (k, v): (usize, u32) = if !is_dec_byte(d1) {
                            (1, v0)
                        } else if !is_dec_byte(d2) {
                            (2, v0 * 10 + hex_value(d1))
                        } else {
                            (3, v0 * 100 + hex_value(d1) * 10 + hex_value(d2))
                        };
                        if v > 255 {
                            return Err(LexerError::EscapeDecimalTooLarge);
                        }
                        st.string_buf.push(v as u8);
                        i += 1 + k;
                    } else if e == 0x75 {
                        if peek(s, i + 2) != 0x7b {
                            return Err(LexerError::EscapeUnicodeStart);
                        }
                        st.unicode_codepoint = 0;
                        in_unicode = true;
                        i += 3;
                    } else {
                        return Err(LexerError::InvalidEscape);
                    }
                },
            }
        }
    }
}

/// Scans a long bracket whose first `[` stands just before `i`; on success, the bounds of its
/// content and the index after its closing bracket.
fn scan_long_bracket(s: &Vec<u8>, i: usize, st: &mut LexerState) -> (r: Result<(usize, usize, usize), LexerError>)
    requires
        i <= s@.len(),
    ensures
        final(st).in_comment == old(st).in_comment,
        match long_bracket(s@, i as int) {
            Scanned::Done(c, e) => r matches Ok((from, to, end)) && from <= to <= s@.len()
                && s@.subrange(from as int, to as int) == c && end == e,
            Scanned::Fail(err) => r == Err::<(usize, usize, usize), LexerError>(err),
        },
{
    let n = s.len();
    st.long_string_opening_eqs = 0;
    let mut j = i;
    while j < n && s[j] == 0x3d
        invariant
            i <= j <= n == s@.len(),
            st.long_string_opening_eqs == j - i,
            st.in_comment == old(st).in_comment,
            eq_run(s@, i as int) == (j - i) + eq_run(s@, j as int),
        decreases n - j,
    {
        st.long_string_opening_eqs += 1;
        j += 1;
    }
    if j >= n {
        return Err(LexerError::UnfinishedLongString);
    }
    if s[j] != 0x5b {
        return Err(LexerError::InvalidLongStringDelimiter);
    }
    let level = st.long_string_opening_eqs;
    let ghost lv = level as nat;
    assert(eq_run(s@, j as int) == 0);
    assert(eq_run(s@, i as int) == lv);
    let body = j + 1;
    let mut k = body;
    let mut closing = false;
    let mut cand = body;
    st.long_string_closing_eqs = 0;
    loop
        invariant
            body <= cand <= k <= n == s@.len(),
            lv == level,
            eq_run(s@, i as int) == lv,
            body == i + lv + 1,
            s@[i + lv] == 0x5b,
            st.in_comment == old(st).in_comment,
            closing ==> s@[cand as int] == 0x5d && cand + 1 + st.long_string_closing_eqs == k,
            closing ==> forall|t: int| cand < t < k ==> s@[t] == 0x3d,
            !closing ==> cand == k,
            closer_from(s@, body as int, lv) == closer_from(s@, cand as int, lv),
        decreases n - k,
    {
        let ghost ce = st.long_string_closing_eqs as int;
        if k >= n {
            proof {
                if closing {
                    assert(!closes_at(s@, cand as int, lv)) by {
                        if ce < lv {
                            assert(byte_at(s@, cand + (ce + 1)) != 0x3d);
                        } else if ce > lv {
                            assert(byte_at(s@, cand + lv + 1) == 0x3d);
                        }
                    }
                    assert forall|t: int| cand <= t < n implies !closes_at(s@, t, lv) by {
                        if t > cand {
                            assert(s@[t] == 0x3d);
                        }
                    }
                    lemma_closer_skip(s@, cand as int, n as int, lv);
                }
                assert(closer_from(s@, n as int, lv) is None);
                assert(closer_from(s@, body as int, lv) is None);
            }
            return Err(LexerError::UnfinishedLongString);
        }
        let c = s[k];
        if !closing {
            if c == 0x5d {
                closing = true;
                cand = k;
                st.long_string_closing_eqs = 0;
            } else {
                cand = k + 1;
            }
            k += 1;
        } else if c == 0x3d {
            st.long_string_closing_eqs += 1;
            k += 1;
        } else if c == 0x5d && st.long_string_closing_eqs == level {
            proof {
                assert forall|m: int| 1 <= m <= lv implies #[trigger] byte_at(s@, cand + m) == 0x3d by {
                    assert(s@[cand + m] == 0x3d);
                }
                assert(closes_at(s@, cand as int, lv));
                assert(closer_from(s@, cand as int, lv) == Some(cand as int));
            }
            return Ok((body, cand, k + 1));
        } else {
            proof {
                assert(!closes_at(s@, cand as int, lv)) by {
                    if ce < lv {
                        assert(byte_at(s@, cand + (ce + 1)) != 0x3d);
                    } else if ce > lv {
                        assert(byte_at(s@, cand + lv + 1) == 0x3d);
                    }
                }
                assert forall|t: int| cand <= t < k implies !closes_at(s@, t, lv) by {
                    if t > cand {
                        assert(s@[t] == 0x3d);
                    }
                }
                lemma_closer_skip(s@, cand as int, k as int, lv);
            }
            if c == 0x5d {
                cand = k;
                st.long_string_closing_eqs = 0;
            } else {
                closing = false;
                cand = k + 1;
            }
            k += 1;
        }
    }
}

fn in_class_exec(b: u8, class: &ByteClass) -> (r: bool)
    ensures
        r == in_class(b, *class),
{
    match class {
        ByteClass::NameChar => (0x61 <= b && b <= 0x7a) || (0x41 <= b && b <= 0x5a) || b == 0x5f || (
        0x30 <= b && b <= 0x39),
        ByteClass::DecDigit => 0x30 <= b && b <= 0x39,
        ByteClass::HexDigit => (0x30 <= b && b <= 0x39) || (0x41 <= b && b <= 0x46) || (0x61 <= b
            && b <= 0x66),
        ByteClass::NotNewline => b != 0x0a,
    }
}

/// The index after the run of `class` that starts at `j`.
fn run_end(s: &Vec<u8>, j: usize, class: ByteClass) -> (r: usize)
    requires
        j <= s@.len(),
    ensures
        r == j + run_len(s@, j as int, class),
        r <= s@.len(),
{
    let n = s.len();
    let mut i = j;
    while i < n && in_class_exec(s[i], &class)
        invariant
            j <= i <= n == s@.len(),
            j + run_len(s@, j as int, class) == i + run_len(s@, i as int, class),
        decreases n - i,
    {
        i += 1;
    }
    i
}

fn exponent_end_exec(s: &Vec<u8>, b: usize, hex: bool) -> (r: usize)
    requires
        b <= s@.len(),
    ensures
        r == exponent_end(s@, b as int, hex),
        b <= r <= s@.len(),
{
    let len = s.len();
    let m = peek(s, b);
    let marker = if hex {
        m == 0x70 || m == 0x50
    } else {
        m == 0x65 || m == 0x45
    };
    if marker {
        let sign = peek_at(s, b, 1);
        let c = if sign == 0x2b || sign == 0x2d {
            b + 2
        } else {
            b + 1
        };
        let class = if hex {
            ByteClass::HexDigit
        } else {
            ByteClass::DecDigit
        };
        if c < len && in_class_exec(s[c], &class) {
            run_end(s, c, class)
        } else {
            b
        }
    } else {
        b
    }
}

fn numeral_end_exec(s: &Vec<u8>, i: usize) -> (r: usize)
    requires
        i < s@.len(),
    ensures
        r == numeral_end(s@, i as int),
        i <= r <= s@.len(),
{
    let len = s.len();
    let c = s[i];
    let d = peek_at(s, i, 1);
    if c == 0x30 && (d == 0x78 || d == 0x58) {
        let a = run_end(s, i + 2, ByteClass::HexDigit);
        let b = if peek(s, a) == 0x2e {
            run_end(s, a + 1, ByteClass::HexDigit)
        } else {
            a
        };
        exponent_end_exec(s, b, true)
    } else {
        let a = run_end(s, i, ByteClass::DecDigit);
        let b = if peek(s, a) == 0x2e {
            run_end(s, a + 1, ByteClass::DecDigit)
        } else {
            a
        };
        exponent_end_exec(s, b, false)
    }
}

fn operator_at(s: &Vec<u8>, i: usize) -> (r: Option<(Symbol, usize)>)
    requires
        i < s@.len(),
    ensures
        match operator(s@, i as int) {
            Some((k, w)) => r == Some((k, w as usize)) && i + w <= s@.len(),
            None => r is None,
        },
{
    let len = s.len();
    let c = s[i];
    let d = peek_at(s, i, 1);
    if c == 0x2b {
        Some((Symbol::Add, 1))
    } else if c == 0x2d {
        Some((Symbol::Minus, 1))
    } else if c == 0x2a {
        Some((Symbol::Mul, 1))
    } else if c == 0x2f {
        if d == 0x2f {
            Some((Symbol::IDiv, 2))
        } else {
            Some((Symbol::Div, 1))
        }
    } else if c == 0x25 {
        Some((Symbol::Mod, 1))
    } else if c == 0x5e {
        Some((Symbol::Pow, 1))
    } else if c == 0x23 {
        Some((Symbol::Len, 1))
    } else if c == 0x3d {
        if d == 0x3d {
            Some((Symbol::Equal, 2))
        } else {
            Some((Symbol::Assign, 1))
        }
    } else if c == 0x7e {
        if d == 0x3d {
            Some((Symbol::NotEqual, 2))
        } else {
            Some((Symbol::BitNotXor, 1))
        }
    } else if c == 0x3c {
        if d == 0x3d {
            Some((Symbol::LessEqual, 2))
        } else if d == 0x3c {
            Some((Symbol::ShiftLeft, 2))
        } else {
            Some((Symbol::LessThan, 1))
        }
    } else if c == 0x3e {
        if d == 0x3d {
            Some((Symbol::GreaterEqual, 2))
        } else if d == 0x3e {
            Some((Symbol::ShiftRight, 2))
        } else {
            Some((Symbol::GreaterThan, 1))
        }
    } else if c == 0x28 {
        Some((Symbol::LeftParen, 1))
    } else if c == 0x29 {
        Some((Symbol::RightParen, 1))
    } else if c == 0x7b {
        Some((Symbol::LeftBrace, 1))
    } else if c == 0x7d {
        Some((Symbol::RightBrace, 1))
    } else if c == 0x5d {
        Some((Symbol::RightBracket, 1))
    } else if c == 0x3b {
        Some((Symbol::SemiColon, 1))
    } else if c == 0x3a {
        if d == 0x3a {
            Some((Symbol::DoubleColon, 2))
        } else {
            Some((Symbol::Colon, 1))
        }
    } else if c == 0x2c {
        Some((Symbol::Comma, 1))
    } else if c == 0x2e {
        if d == 0x2e {
            if peek_at(s, i, 2) == 0x2e {
                Some((Symbol::Dots, 3))
            } else {
                Some((Symbol::Concat, 2))
            }
        } else {
            Some((Symbol::Dot, 1))
        }
    } else if c == 0x26 {
        Some((Symbol::BitAnd, 1))
    } else if c == 0x7c {
        Some((Symbol::BitOr, 1))
    } else {
        None
    }
}

fn keyword_of(w: &Vec<u8>) -> (r: Option<Symbol>)
    ensures
        r == keyword(w@),
{
    let n = w.len();
    if n == 3 && w[0] == 0x61 && w[1] == 0x6e && w[2] == 0x64 {
        assert(w@ =~= seq![0x61u8, 0x6eu8, 0x64u8]);
        return Some(Symbol::And);
    }
    if n == 5 && w[0] == 0x62 && w[1] == 0x72 && w[2] == 0x65 && w[3] == 0x61 && w[4] == 0x6b {
        assert(w@ =~= seq![0x62u8, 0x72u8, 0x65u8, 0x61u8, 0x6bu8]);
        return Some(Symbol::Break);
    }
    if n == 2 && w[0] == 0x64 && w[1] == 0x6f {
        assert(w@ =~= seq![0x64u8, 0x6fu8]);
        return Some(Symbol::Do);
    }
    if n == 4 && w[0] == 0x65 && w[1] == 0x6c && w[2] == 0x73 && w[3] == 0x65 {
        assert(w@ =~= seq![0x65u8, 0x6cu8, 0x73u8, 0x65u8]);
        return Some(Symbol::Else);
    }
    if n == 6 && w[0] == 0x65 && w[1] == 0x6c && w[2] == 0x73 && w[3] == 0x65 && w[4] == 0x69 && w[5] == 0x66 {
        assert(w@ =~= seq![0x65u8, 0x6cu8, 0x73u8, 0x65u8, 0x69u8, 0x66u8]);
        return Some(Symbol::ElseIf);
    }
    if n == 3 && w[0] == 0x65 && w[1] == 0x6e && w[2] == 0x64 {
        assert(w@ =~= seq![0x65u8, 0x6eu8, 0x64u8]);
        return Some(Symbol::End);
    }
    if n == 5 && w[0] == 0x66 && w[1] == 0x61 && w[2] == 0x6c && w[3] == 0x73 && w[4] == 0x65 {
        assert(w@ =~= seq![0x66u8, 0x61u8, 0x6cu8, 0x73u8, 0x65u8]);
        return Some(Symbol::False);
    }
    if n == 3 && w[0] == 0x66 && w[1] == 0x6f && w[2] == 0x72 {
        assert(w@ =~= seq![0x66u8, 0x6fu8, 0x72u8]);
        return Some(Symbol::For);
    }
    if n == 8 && w[0] == 0x66 && w[1] == 0x75 && w[2] == 0x6e && w[3] == 0x63 && w[4] == 0x74 && w[5] == 0x69 && w[6] == 0x6f && w[7] == 0x6e {
        assert(w@ =~= seq![0x66u8, 0x75u8, 0x6eu8, 0x63u8, 0x74u8, 0x69u8, 0x6fu8, 0x6eu8]);
        return Some(Symbol::Function);
    }
    if n == 4 && w[0] == 0x67 && w[1] == 0x6f && w[2] == 0x74 && w[3] == 0x6f {
        assert(w@ =~= seq![0x67u8, 0x6fu8, 0x74u8, 0x6fu8]);
        return Some(Symbol::Goto);
    }
    if n == 2 && w[0] == 0x69 && w[1] == 0x66 {
        assert(w@ =~= seq![0x69u8, 0x66u8]);
        return Some(Symbol::If);
    }
    if n == 2 && w[0] == 0x69 && w[1] == 0x6e {
        assert(w@ =~= seq![0x69u8, 0x6eu8]);
        return Some(Symbol::In);
    }
    if n == 5 && w[0] == 0x6c && w[1] == 0x6f && w[2] == 0x63 && w[3] == 0x61 && w[4] == 0x6c {
        assert(w@ =~= seq![0x6cu8, 0x6fu8, 0x63u8, 0x61u8, 0x6cu8]);
        return Some(Symbol::Local);
    }
    if n == 3 && w[0] == 0x6e && w[1] == 0x69 && w[2] == 0x6c {
        assert(w@ =~= seq![0x6eu8, 0x69u8, 0x6cu8]);
        return Some(Symbol::Nil);
    }
    if n == 3 && w[0] == 0x6e && w[1] == 0x6f && w[2] == 0x74 {
        assert(w@ =~= seq![0x6eu8, 0x6fu8, 0x74u8]);
        return Some(Symbol::Not);
    }
    if n == 2 && w[0] == 0x6f && w[1] == 0x72 {
        assert(w@ =~= seq![0x6fu8, 0x72u8]);
        return Some(Symbol::Or);
    }
    if n == 6 && w[0] == 0x72 && w[1] == 0x65 && w[2] == 0x70 && w[3] == 0x65 && w[4] == 0x61 && w[5] == 0x74 {
        assert(w@ =~= seq![0x72u8, 0x65u8, 0x70u8, 0x65u8, 0x61u8, 0x74u8]);
        return Some(Symbol::Repeat);
    }
    if n == 6 && w[0] == 0x72 && w[1] == 0x65 && w[2] == 0x74 && w[3] == 0x75 && w[4] == 0x72 && w[5] == 0x6e {
        assert(w@ =~= seq![0x72u8, 0x65u8, 0x74u8, 0x75u8, 0x72u8, 0x6eu8]);
        return Some(Symbol::Return);
    }
    if n == 4 && w[0] == 0x74 && w[1] == 0x68 && w[2] == 0x65 && w[3] == 0x6e {
        assert(w@ =~= seq![0x74u8, 0x68u8, 0x65u8, 0x6eu8]);
        return Some(Symbol::Then);
    }
    if n == 4 && w[0] == 0x74 && w[1] == 0x72 && w[2] == 0x75 && w[3] == 0x65 {
        assert(w@ =~= seq![0x74u8, 0x72u8, 0x75u8, 0x65u8]);
        return Some(Symbol::True);
    }
    if n == 5 && w[0] == 0x75 && w[1] == 0x6e && w[2] == 0x74 && w[3] == 0x69 && w[4] == 0x6c {
        assert(w@ =~= seq![0x75u8, 0x6eu8, 0x74u8, 0x69u8, 0x6cu8]);
        return Some(Symbol::Until);
    }
    if n == 5 && w[0] == 0x77 && w[1] == 0x68 && w[2] == 0x69 && w[3] == 0x6c && w[4] == 0x65 {
        assert(w@ =~= seq![0x77u8, 0x68u8, 0x69u8, 0x6cu8, 0x65u8]);
        return Some(Symbol::While);
    }
    None
}

/// The bytes `s[from..to]`.
fn copy_range(s: &Vec<u8>, from: usize, to: usize) -> (r: Vec<u8>)
    requires
        from <= to <= s@.len(),
    ensures
        r@ == s@.subrange(from as int, to as int),
{
    slice_to_vec(slice_subrange(s.as_slice(), from, to))
}

/// The next token of `s` from `pos`, after whitespace and comments, with the span of its lexeme.
fn scan_token(s_vec: &Vec<u8>, pos: usize, st: &mut LexerState) -> (r: Option<
    Result<(usize, Token, usize), LexerError>,
>)
    requires
        pos <= s_vec@.len(),
    ensures
        match lex(s_vec@, pos as int) {
            Lexed::End => r is None,
            Lexed::Fail(e) => r == Some(Err::<(usize, Token, usize), LexerError>(e)),
            Lexed::Token(t, a, b) => r matches Some(Ok((x, tok, y))) && x == a && y == b && tok@ == t
                && y <= s_vec@.len(),
        },
{
    let ghost s = s_vec@;
    let ghost start = pos as int;
    let n = s_vec.len();
    let mut i = pos;
    loop
        invariant
            i <= n == s.len(),
            s_vec@ == s,
            start == pos,
            lex(s, i as int) == lex(s, start),
        decreases n - i,
    {
        if i >= n {
            return None;
        }
        let c = s_vec[i];
        let w = whitespace_width(s_vec, i);
        if w > 0 {
            i = skip_whitespace(s_vec, i);
            continue;
        }
        assert(whitespace_len(s, i as int) == 0);
        if c == 0x2d && peek_at(s_vec, i, 1) == 0x2d {
            let b2 = peek_at(s_vec, i, 2);
            let b3 = peek_at(s_vec, i, 3);
            if b2 == 0x5b && (b3 == 0x5b || b3 == 0x3d) {
                st.in_comment = true;
                proof {
                    lemma_long_bracket_end(s, i + 3);
                }
                match scan_long_bracket(s_vec, i + 3, st) {
                    Ok((_, _, e)) => {
                        i = e;
                    },
                    Err(err) => {
                        return Some(Err(err));
                    },
                }
            } else {
                i = run_end(s_vec, i + 2, ByteClass::NotNewline);
            }
            continue;
        }
        if c == 0x22 || c == 0x27 {
            st.short_string_delim = if c == 0x22 {
                Quote::Double
            } else {
                Quote::Single
            };
            assert(st.short_string_delim.byte() == c);
            match scan_short_string(s_vec, i + 1, st) {
                Ok(e) => {
                    let mut buf: Vec<u8> = Vec::new();
                    std::mem::swap(&mut buf, &mut st.string_buf);
                    return Some(Ok((i, Token::Str(buf), e)));
                },
                Err(err) => {
                    return Some(Err(err));
                },
            }
        }
        if c == 0x5b {
            let b1 = peek_at(s_vec, i, 1);
            if b1 == 0x5b || b1 == 0x3d {
                st.in_comment = false;
                proof {
                    lemma_long_bracket_end(s, i + 1);
                }
                match scan_long_bracket(s_vec, i + 1, st) {
                    Ok((from, to, e)) => {
                        st.string_buf = copy_range(s_vec, from, to);
                        let mut buf: Vec<u8> = Vec::new();
                        std::mem::swap(&mut buf, &mut st.string_buf);
                        return Some(Ok((i, Token::Str(buf), e)));
                    },
                    Err(err) => {
                        return Some(Err(err));
                    },
                }
            } else {
                return Some(Ok((i, Token::Sym(Symbol::LeftBracket), i + 1)));
            }
        }
        if in_class_exec(c, &ByteClass::NameChar) && !(0x30 <= c && c <= 0x39) {
            let e = run_end(s_vec, i, ByteClass::NameChar);
            let word = copy_range(s_vec, i, e);
            match keyword_of(&word) {
                Some(k) => {
                    return Some(Ok((i, Token::Sym(k), e)));
                },
                None => {
                    return Some(Ok((i, Token::Name(word), e)));
                },
            }
        }
        if (0x30 <= c && c <= 0x39) || (c == 0x2e && is_dec_byte(peek_at(s_vec, i, 1))) {
            let e = numeral_end_exec(s_vec, i);
            match read_numeral(slice_subrange(s_vec.as_slice(), i, e)) {
                Ok(t) => {
                    return Some(Ok((i, t, e)));
                },
                Err(err) => {
                    return Some(Err(err));
                },
            }
        }
        match operator_at(s_vec, i) {
            Some((k, w)) => {
                return Some(Ok((i, Token::Sym(k), i + w)));
            },
            None => {
                return Some(Err(LexerError::UnexpectedCharacter(c)));
            },
        }
    }
}

/// A lexing session over one source buffer, handing out one token per call.
pub struct Lexer {
    input: Vec<u8>,
    pos: usize,
    finished: bool,
    state: LexerState,
}

impl Lexer {
    /// The bytes being lexed.
    pub closed spec fn source(&self) -> Seq<u8> {
        self.input@
    }

    /// Where the next token request starts.
    pub closed spec fn position(&self) -> int {
        self.pos as int
    }

    /// Whether the session has reached the end of input or an error.
    pub closed spec fn is_finished(&self) -> bool {
        self.finished
    }

    #[verifier::type_invariant]
    spec fn wf(&self) -> bool {
        self.pos <= self.input@.len()
    }

    /// A session over the UTF-8 bytes of `source`.
    pub fn new(source: &str) -> (r: Lexer)
        ensures
            r.source() == encode_utf8(source@),
            r.position() == 0,
            !r.is_finished(),
    {
        Lexer::from_bytes(slice_to_vec(source.as_bytes()))
    }

    /// A session over `source`.
    pub fn from_bytes(source: Vec<u8>) -> (r: Lexer)
        ensures
            r.source() == source@,
            r.position() == 0,
            !r.is_finished(),
    {
        Lexer { input: source, pos: 0, finished: false, state: LexerState::new() }
    }

    /// The next token with the span of its lexeme; `None` once the input holds nothing but
    /// whitespace and comments. An error ends the session: every later call gives `None`.
    pub fn next_token(&mut self) -> (r: Option<Result<(usize, Token, usize), LexerError>>)
        ensures
            final(self).source() == old(self).source(),
            old(self).is_finished() ==> r is None && final(self).is_finished(),
            !old(self).is_finished() ==> match lex(old(self).source(), old(self).position()) {
                Lexed::End => r is None && final(self).is_finished(),
                Lexed::Fail(e) => r == Some(Err::<(usize, Token, usize), LexerError>(e))
                    && final(self).is_finished(),
                Lexed::Token(t, a, b) => r matches Some(Ok((x, tok, y))) && x == a && y == b && tok@
                    == t && final(self).position() == b && !final(self).is_finished(),
            },
    {
        proof {
            use_type_invariant(&*self);
        }
        if self.finished {
            return None;
        }
        let mut st = LexerState::new();
        std::mem::swap(&mut st, &mut self.state);
        let r = scan_token(&self.input, self.pos, &mut st);
        std::mem::swap(&mut st, &mut self.state);
        match &r {
            Some(Ok((_, _, e))) => {
                self.pos = *e;
            },
            _ => {
                self.finished = true;
            },
        }
        r
    }
}

/// The tokens with their spans, as mathematical values.
pub open spec fn spans_view(v: Seq<(usize, Token, usize)>) -> Seq<(TokenV, int, int)> {
    v.map_values(|x: (usize, Token, usize)| (x.1@, x.0 as int, x.2 as int))
}

/// All tokens of `source` with the spans of their lexemes, or the first error.
pub fn tokenize(source: &str) -> (r: Result<Vec<(usize, Token, usize)>, LexerError>)
    ensures
        match lex_all(encode_utf8(source@), 0) {
            Ok(ts) => r matches Ok(v) && spans_view(v@) == ts,
            Err(e) => r == Err::<Vec<(usize, Token, usize)>, LexerError>(e),
        },
{
    let mut lexer = Lexer::new(source);
    let ghost s = encode_utf8(source@);
    let mut out: Vec<(usize, Token, usize)> = Vec::new();
    assert(spans_view(out@) + Seq::empty() =~= Seq::<(TokenV, int, int)>::empty());
    loop
        invariant
            s == encode_utf8(source@),
            lexer.source() == s,
            !lexer.is_finished(),
            0 <= lexer.position() <= s.len(),
            lex_all(s, 0) == after_prefix(spans_view(out@), lex_all(s, lexer.position())),
        decreases s.len() - lexer.position(),
    {
        let ghost p = lexer.position();
        let ghost before = out@;
        proof {
            lemma_lex_all_step(s, p);
        }
        match lexer.next_token() {
            None => {
                assert(lex(s, p) is End);
                assert(spans_view(out@) + Seq::empty() =~= spans_view(out@));
                return Ok(out);
            },
            Some(Err(e)) => {
                assert(lex(s, p) == Lexed::Fail(e));
                return Err(e);
            },
            Some(Ok(item)) => {
                out.push(item);
                proof {
                    let t = lex(s, p)->Token_0;
                    let a = lex(s, p)->Token_1;
                    let b = lex(s, p)->Token_2;
                    assert(spans_view(out@) =~= spans_view(before).push((item.1@, a, b)));
                    assert(spans_view(out@) =~= spans_view(before) + seq![(t, a, b)]);
                    match lex_all(s, b) {
                        Ok(rest) => {
                            assert(spans_view(before) + (seq![(t, a, b)] + rest) =~= spans_view(out@)
                                + rest);
                        },
                        Err(_) => {},
                    }
                }
            },
        }
    }
}


} // verus!
