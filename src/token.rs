use vstd::prelude::*;
use crate::numeral::value_of;

verus! {

/// Operators, punctuation and keywords: the tokens without a payload.
#[derive(Debug, Clone, Copy, PartialEq, Eq, Structural)]
pub enum Symbol {
    Add,
    Minus,
    Mul,
    Div,
    IDiv,
    Mod,
    Pow,
    Len,
    Equal,
    NotEqual,
    LessEqual,
    GreaterEqual,
    LessThan,
    GreaterThan,
    Assign,
    LeftParen,
    RightParen,
    LeftBrace,
    RightBrace,
    LeftBracket,
    RightBracket,
    SemiColon,
    Colon,
    Comma,
    Dot,
    Concat,
    Dots,
    BitAnd,
    BitOr,
    BitNotXor,
    ShiftRight,
    ShiftLeft,
    DoubleColon,
    And,
    Break,
    Do,
    Else,
    ElseIf,
    End,
    False,
    For,
    Function,
    If,
    In,
    Local,
    Nil,
    Not,
    Or,
    Repeat,
    Return,
    Then,
    True,
    Until,
    While,
    Goto,
}

/// A floating-point numeral, kept exactly as written, so that no exponent overflows.
///
/// `mantissa` holds the value of each digit of the numeral (integer and fractional part, in
/// order), `fraction_digits` how many of them follow the radix point, and `exponent_digits` the
/// decimal digits of the written exponent's magnitude (none where no exponent is written), whose
/// sign is `exponent_negative`. The number denoted is the mantissa read in base 16 (when `hex`)
/// or 10, times 2 (when `hex`) or 10 raised to the written exponent less 4 (when `hex`) or 1 per
/// fraction digit.
#[derive(Debug, Clone, PartialEq, Eq)]
pub struct FloatLit {
    pub hex: bool,
    pub mantissa: Vec<u8>,
    pub fraction_digits: usize,
    pub exponent_negative: bool,
    pub exponent_digits: Vec<u8>,
}

/// The mathematical content of a float: its mantissa digits and the exponent of 2 (when `hex`)
/// or 10 that scales them.
pub ghost struct FloatV {
    pub hex: bool,
    pub mantissa: Seq<u8>,
    pub exponent: int,
}

impl View for FloatLit {
    type V = FloatV;

    open spec fn view(&self) -> FloatV {
        let written = value_of(self.exponent_digits@, 10) as int;
        let step: int = if self.hex {
            4
        } else {
            1
        };
        FloatV {
            hex: self.hex,
            mantissa: self.mantissa@,
            exponent: (if self.exponent_negative {
                -written
            } else {
                written
            }) - self.fraction_digits * step,
        }
    }
}

/// A token of Lua source.
#[derive(Debug, Clone, PartialEq, Eq)]
pub enum Token {
    Sym(Symbol),
    /// An identifier that is not a keyword.
    Name(Vec<u8>),
    /// The bytes denoted by a short or long string literal.
    Str(Vec<u8>),
    Integer(i64),
    Float(FloatLit),
}

/// The mathematical content of a [`Token`].
pub ghost enum TokenV {
    Sym(Symbol),
    Name(Seq<u8>),
    Str(Seq<u8>),
    Integer(i64),
    Float(FloatV),
}

impl View for Token {
    type V = TokenV;

    open spec fn view(&self) -> TokenV {
        match self {
            Token::Sym(s) => TokenV::Sym(*s),
            Token::Name(v) => TokenV::Name(v@),
            Token::Str(v) => TokenV::Str(v@),
            Token::Integer(i) => TokenV::Integer(*i),
            Token::Float(f) => TokenV::Float(f@),
        }
    }
}

/// The mathematical content of the outcome of a step that yields a token or fails.
pub open spec fn result_view(r: Result<Token, crate::error::LexerError>) -> Result<TokenV, crate::error::LexerError> {
    match r {
        Ok(t) => Ok(t@),
        Err(e) => Err(e),
    }
}

} // verus!
