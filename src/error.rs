use vstd::prelude::*;
use vstd::utf8::{encode_scalar, encode_utf8};
use crate::unicode::push_utf8;

verus! {

/// The ways in which lexing can fail. Every error ends the lexing session.
#[derive(Debug, Clone, Copy, PartialEq, Eq, Structural)]
pub enum LexerError {
    /// End of input or a raw newline inside a short string; carries the expected quote.
    UnfinishedShortString(u8),
    /// A byte that starts no token.
    UnexpectedCharacter(u8),
    /// `\x` not followed by two hexadecimal digits.
    HexDigitExpected,
    /// `\u` not followed by `{`.
    EscapeUnicodeStart,
    /// `\u{...` not closed by `}`.
    EscapeUnicodeEnd,
    /// `\u{...}` whose value is not a Unicode scalar value.
    EscapeUnicodeInvalid,
    /// `\ddd` whose value is above 255.
    EscapeDecimalTooLarge,
    /// A backslash followed by a character that starts no escape.
    InvalidEscape,
    /// `[` followed by `=`s and then something other than `[`.
    InvalidLongStringDelimiter,
    /// End of input inside a long string or long comment.
    UnfinishedLongString,
    /// A numeral that denotes no value.
    BadNumber,
}

/// The human-readable rendering of an error, as UTF-8; the offending byte is shown as the
/// character with that code point.
pub open spec fn message_text(e: LexerError) -> Seq<u8> {
    match e {
        LexerError::UnfinishedShortString(c) => encode_utf8(
            "short string not finished, expected matching "@,
        ) + encode_scalar(c as u32),
        LexerError::UnexpectedCharacter(c) => encode_utf8("unexpected character: '"@) + encode_scalar(
            c as u32,
        ) + encode_utf8("'"@),
        LexerError::HexDigitExpected => encode_utf8("hexadecimal digit expected"@),
        LexerError::EscapeUnicodeStart => encode_utf8("missing '{' in \\u{xxxx} escape"@),
        LexerError::EscapeUnicodeEnd => encode_utf8("missing '}' in \\u{xxxx} escape"@),
        LexerError::EscapeUnicodeInvalid => encode_utf8("invalid unicode value in \\u{xxxx} escape"@),
        LexerError::EscapeDecimalTooLarge => encode_utf8("\\ddd escape out of 0-255 range"@),
        LexerError::InvalidEscape => encode_utf8("invalid escape sequence"@),
        LexerError::InvalidLongStringDelimiter => encode_utf8("invalid long string delimiter"@),
        LexerError::UnfinishedLongString => encode_utf8("unfinished long string"@),
        LexerError::BadNumber => encode_utf8("malformed number"@),
    }
}

impl LexerError {
    /// The human-readable rendering of this error, as UTF-8 bytes.
    pub fn message(&self) -> (r: Vec<u8>)
        ensures
            r@ == message_text(*self),
    {
        let mut v: Vec<u8> = Vec::new();
        match self {
            LexerError::UnfinishedShortString(c) => {
                v.extend_from_slice("short string not finished, expected matching ".as_bytes());
                push_utf8(&mut v, *c as u32);
            },
            LexerError::UnexpectedCharacter(c) => {
                v.extend_from_slice("unexpected character: '".as_bytes());
                push_utf8(&mut v, *c as u32);
                v.extend_from_slice("'".as_bytes());
            },
            LexerError::HexDigitExpected => {
                v.extend_from_slice("hexadecimal digit expected".as_bytes());
            },
            LexerError::EscapeUnicodeStart => {
                v.extend_from_slice("missing '{' in \\u{xxxx} escape".as_bytes());
            },
            LexerError::EscapeUnicodeEnd => {
                v.extend_from_slice("missing '}' in \\u{xxxx} escape".as_bytes());
            },
            LexerError::EscapeUnicodeInvalid => {
                v.extend_from_slice("invalid unicode value in \\u{xxxx} escape".as_bytes());
            },
            LexerError::EscapeDecimalTooLarge => {
                v.extend_from_slice("\\ddd escape out of 0-255 range".as_bytes());
            },
            LexerError::InvalidEscape => {
                v.extend_from_slice("invalid escape sequence".as_bytes());
            },
            LexerError::InvalidLongStringDelimiter => {
                v.extend_from_slice("invalid long string delimiter".as_bytes());
            },
            LexerError::UnfinishedLongString => {
                v.extend_from_slice("unfinished long string".as_bytes());
            },
            LexerError::BadNumber => {
                v.extend_from_slice("malformed number".as_bytes());
            },
        }
        v
    }
}

} // verus!
