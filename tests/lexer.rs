use lua_lexer::error::LexerError;
use lua_lexer::lexer::{tokenize, Lexer};
use lua_lexer::numeral::read_numeral;
use lua_lexer::token::{FloatLit, Symbol, Token};

fn lex_all(src: &str) -> Result<Vec<Token>, LexerError> {
    let mut lexer = Lexer::new(src);
    let mut out = Vec::new();
    loop {
        match lexer.next_token() {
            Some(Ok((_, t, _))) => out.push(t),
            Some(Err(e)) => return Err(e),
            None => return Ok(out),
        }
    }
}

fn float_value(f: &FloatLit) -> f64 {
    let base: f64 = if f.hex { 16.0 } else { 10.0 };
    let mut m: f64 = 0.0;
    for d in &f.mantissa {
        m = m * base + (*d as f64);
    }
    let scale: f64 = if f.hex { 2.0 } else { 10.0 };
    m * scale.powi(f.exponent().unwrap() as i32)
}

fn lit(hex: bool, mantissa: Vec<u8>, fraction_digits: usize, negative: bool, exponent: Vec<u8>) -> FloatLit {
    FloatLit { hex, mantissa, fraction_digits, exponent_negative: negative, exponent_digits: exponent }
}

fn single_float(src: &str) -> f64 {
    match lex_all(src).unwrap().as_slice() {
        [Token::Float(f)] => float_value(f),
        other => panic!("not one float: {:?}", other),
    }
}

fn sym(s: Symbol) -> Token {
    Token::Sym(s)
}

fn str_tok(b: &[u8]) -> Token {
    Token::Str(b.to_vec())
}

#[test]
fn plus_alone() {
    assert_eq!(lex_all("+").unwrap(), vec![sym(Symbol::Add)]);
}

#[test]
fn plus_then_assign() {
    assert_eq!(lex_all("+=").unwrap(), vec![sym(Symbol::Add), sym(Symbol::Assign)]);
}

#[test]
fn local_assignment() {
    assert_eq!(
        lex_all("local x = 10").unwrap(),
        vec![sym(Symbol::Local), Token::Name(b"x".to_vec()), sym(Symbol::Assign), Token::Integer(10)]
    );
}

#[test]
fn long_comment_is_suppressed() {
    assert_eq!(lex_all("--[[ comment ]]x").unwrap(), vec![Token::Name(b"x".to_vec())]);
}

#[test]
fn long_string_closer_needs_equal_level() {
    assert_eq!(lex_all("[=[hi]==]=]").unwrap(), vec![str_tok(b"hi]==")]);
}

#[test]
fn long_string_without_matching_closer() {
    assert_eq!(lex_all("[=[hi]==]==]"), Err(LexerError::UnfinishedLongString));
}

#[test]
fn hex_integer() {
    assert_eq!(lex_all("0x1A").unwrap(), vec![Token::Integer(26)]);
}

#[test]
fn decimal_float() {
    assert_eq!(single_float("3.14e2"), 314.0);
}

#[test]
fn hex_float() {
    assert_eq!(single_float("0x1p4"), 16.0);
}

#[test]
fn z_escape_skips_whitespace_only() {
    assert_eq!(lex_all("\"\\z   \\n\"").unwrap(), vec![str_tok(b"\n")]);
}

#[test]
fn whitespace_only_gives_no_token() {
    assert_eq!(lex_all(" \t\n\r\n  ").unwrap(), vec![]);
    assert_eq!(lex_all("").unwrap(), vec![]);
}

#[test]
fn end_of_input_is_idempotent() {
    let mut lexer = Lexer::new("x");
    assert!(matches!(lexer.next_token(), Some(Ok((0, Token::Name(_), 1)))));
    assert!(lexer.next_token().is_none());
    assert!(lexer.next_token().is_none());
}

#[test]
fn error_ends_the_session() {
    let mut lexer = Lexer::new("$ x");
    assert_eq!(lexer.next_token(), Some(Err(LexerError::UnexpectedCharacter(b'$'))));
    assert!(lexer.next_token().is_none());
}

#[test]
fn spans_cover_lexemes() {
    let mut lexer = Lexer::new("local  xy");
    assert_eq!(lexer.next_token(), Some(Ok((0, sym(Symbol::Local), 5))));
    assert_eq!(lexer.next_token(), Some(Ok((7, Token::Name(b"xy".to_vec()), 9))));
    assert_eq!(lexer.next_token(), None);
}

#[test]
fn operators_longest_match() {
    assert_eq!(
        lex_all("... .. . << <= < >> >= > // / == ~= ~ :: : [ ]").unwrap(),
        vec![
            sym(Symbol::Dots),
            sym(Symbol::Concat),
            sym(Symbol::Dot),
            sym(Symbol::ShiftLeft),
            sym(Symbol::LessEqual),
            sym(Symbol::LessThan),
            sym(Symbol::ShiftRight),
            sym(Symbol::GreaterEqual),
            sym(Symbol::GreaterThan),
            sym(Symbol::IDiv),
            sym(Symbol::Div),
            sym(Symbol::Equal),
            sym(Symbol::NotEqual),
            sym(Symbol::BitNotXor),
            sym(Symbol::DoubleColon),
            sym(Symbol::Colon),
            sym(Symbol::LeftBracket),
            sym(Symbol::RightBracket),
        ]
    );
}

#[test]
fn keywords_and_names() {
    assert_eq!(
        lex_all("while whiles _end function elseif goto").unwrap(),
        vec![
            sym(Symbol::While),
            Token::Name(b"whiles".to_vec()),
            Token::Name(b"_end".to_vec()),
            sym(Symbol::Function),
            sym(Symbol::ElseIf),
            sym(Symbol::Goto),
        ]
    );
}

#[test]
fn line_comment_ends_at_newline() {
    assert_eq!(
        lex_all("-- note [[x]]\ny -x").unwrap(),
        vec![Token::Name(b"y".to_vec()), sym(Symbol::Minus), Token::Name(b"x".to_vec())]
    );
}

#[test]
fn long_string_levels() {
    assert_eq!(lex_all("[[a]b]]").unwrap(), vec![str_tok(b"a]b")]);
    assert_eq!(lex_all("[==[x]=]]==]").unwrap(), vec![str_tok(b"x]=]")]);
    assert_eq!(lex_all("[[\n\\n]]").unwrap(), vec![str_tok(b"\n\\n")]);
}

#[test]
fn simple_escapes() {
    assert_eq!(
        lex_all("'\\a\\b\\f\\n\\r\\t\\v\\\\\\\"\\''").unwrap(),
        vec![str_tok(&[7, 8, 12, 10, 13, 9, 11, b'\\', b'"', b'\''])]
    );
    assert_eq!(lex_all("'a\\\nb'").unwrap(), vec![str_tok(b"a\nb")]);
    assert_eq!(lex_all("'say \"hi\"'").unwrap(), vec![str_tok(b"say \"hi\"")]);
}

#[test]
fn numeric_escapes() {
    assert_eq!(lex_all("'\\65\\0669\\x41\\x7a'").unwrap(), vec![str_tok(b"AB9Az")]);
    assert_eq!(lex_all("'\\255'").unwrap(), vec![str_tok(&[255])]);
}

#[test]
fn unicode_escapes() {
    assert_eq!(lex_all("'\\u{48}\\u{20AC}\\u{10FFFF}'").unwrap(), vec![str_tok(&[
        0x48, 0xe2, 0x82, 0xac, 0xf4, 0x8f, 0xbf, 0xbf
    ])]);
    assert_eq!(lex_all("'\\u{e9}'").unwrap(), vec![str_tok("é".as_bytes())]);
}

#[test]
fn raw_multibyte_characters_are_copied() {
    assert_eq!(lex_all("'héllo€'").unwrap(), vec![str_tok("héllo€".as_bytes())]);
}

#[test]
fn string_errors() {
    assert_eq!(lex_all("\"abc"), Err(LexerError::UnfinishedShortString(b'"')));
    assert_eq!(lex_all("'ab\ncd'"), Err(LexerError::UnfinishedShortString(b'\'')));
    assert_eq!(lex_all("'\\xg1'"), Err(LexerError::HexDigitExpected));
    assert_eq!(lex_all("'\\u41'"), Err(LexerError::EscapeUnicodeStart));
    assert_eq!(lex_all("'\\u{41'"), Err(LexerError::EscapeUnicodeEnd));
    assert_eq!(lex_all("'\\u{D800}'"), Err(LexerError::EscapeUnicodeInvalid));
    assert_eq!(lex_all("'\\u{110000}'"), Err(LexerError::EscapeUnicodeInvalid));
    assert_eq!(lex_all("'\\256'"), Err(LexerError::EscapeDecimalTooLarge));
    assert_eq!(lex_all("'\\q'"), Err(LexerError::InvalidEscape));
}

#[test]
fn long_bracket_errors() {
    assert_eq!(lex_all("[=x"), Err(LexerError::InvalidLongStringDelimiter));
    assert_eq!(lex_all("[[abc"), Err(LexerError::UnfinishedLongString));
    assert_eq!(lex_all("--[==[abc]=]"), Err(LexerError::UnfinishedLongString));
}

#[test]
fn unexpected_character() {
    assert_eq!(lex_all("x = $"), Err(LexerError::UnexpectedCharacter(b'$')));
    assert_eq!(lex_all("\r"), Err(LexerError::UnexpectedCharacter(b'\r')));
}

#[test]
fn numerals() {
    assert_eq!(lex_all("9223372036854775807").unwrap(), vec![Token::Integer(i64::MAX)]);
    assert_eq!(
        lex_all("9223372036854775808").unwrap(),
        vec![Token::Float(lit(
            false,
            vec![9, 2, 2, 3, 3, 7, 2, 0, 3, 6, 8, 5, 4, 7, 7, 5, 8, 0, 8],
            0,
            false,
            vec![]
        ))]
    );
    assert_eq!(single_float(".5"), 0.5);
    assert_eq!(single_float("3."), 3.0);
    assert_eq!(single_float("1E-2"), 0.01);
    assert_eq!(single_float("0x.8"), 0.5);
    assert_eq!(single_float("0xA.8P+1"), 21.0);
    assert_eq!(lex_all("0xff 007").unwrap(), vec![Token::Integer(255), Token::Integer(7)]);
    assert_eq!(lex_all("0x"), Err(LexerError::BadNumber));
}

#[test]
fn read_numeral_directly() {
    assert_eq!(read_numeral(b"42"), Ok(Token::Integer(42)));
    assert_eq!(
        read_numeral(b"1.50e+3"),
        Ok(Token::Float(lit(false, vec![1, 5, 0], 2, false, vec![3])))
    );
    assert_eq!(
        read_numeral(b"0x1.8p-1"),
        Ok(Token::Float(lit(true, vec![1, 8], 1, true, vec![1])))
    );
    assert_eq!(read_numeral(b"1..2"), Err(LexerError::BadNumber));
    assert_eq!(read_numeral(b"1e"), Err(LexerError::BadNumber));
    assert_eq!(read_numeral(b"0x1pA"), Err(LexerError::BadNumber));
    assert_eq!(read_numeral(b"."), Err(LexerError::BadNumber));
}

#[test]
fn canonical_rendering_relexes_to_same_value() {
    for n in [0i64, 7, 10, 123456789, i64::MAX] {
        assert_eq!(lex_all(&n.to_string()).unwrap(), vec![Token::Integer(n)]);
    }
    let f = match read_numeral(b"2.5e-3") {
        Ok(Token::Float(f)) => f,
        other => panic!("{:?}", other),
    };
    let rendered = format!("{}", float_value(&f));
    assert_eq!(single_float(&rendered), float_value(&f));
}

fn message(e: LexerError) -> String {
    String::from_utf8(e.message()).unwrap()
}

#[test]
fn error_messages() {
    assert_eq!(message(LexerError::UnfinishedShortString(b'"')), "short string not finished, expected matching \"");
    assert_eq!(message(LexerError::UnexpectedCharacter(b'$')), "unexpected character: '$'");
    assert_eq!(message(LexerError::UnexpectedCharacter(0xe9)), "unexpected character: 'é'");
    assert_eq!(message(LexerError::HexDigitExpected), "hexadecimal digit expected");
    assert_eq!(message(LexerError::EscapeUnicodeStart), "missing '{' in \\u{xxxx} escape");
    assert_eq!(message(LexerError::EscapeUnicodeEnd), "missing '}' in \\u{xxxx} escape");
    assert_eq!(message(LexerError::EscapeUnicodeInvalid), "invalid unicode value in \\u{xxxx} escape");
    assert_eq!(message(LexerError::EscapeDecimalTooLarge), "\\ddd escape out of 0-255 range");
    assert_eq!(message(LexerError::InvalidEscape), "invalid escape sequence");
    assert_eq!(message(LexerError::InvalidLongStringDelimiter), "invalid long string delimiter");
    assert_eq!(message(LexerError::UnfinishedLongString), "unfinished long string");
    assert_eq!(message(LexerError::BadNumber), "malformed number");
}

#[test]
fn unicode_escape_round_trip() {
    for c in ['A', 'é', '€', '😀', '\u{10FFFF}', '\u{0}'] {
        let src = format!("'\\u{{{:X}}}'", c as u32);
        match lex_all(&src).unwrap().as_slice() {
            [Token::Str(bytes)] => {
                let decoded: Vec<char> = std::str::from_utf8(bytes).unwrap().chars().collect();
                assert_eq!(decoded, vec![c]);
            }
            other => panic!("{:?}", other),
        }
    }
}

#[test]
fn long_bracket_levels_must_match() {
    for n in 0..4usize {
        let eqs = "=".repeat(n);
        let other = "=".repeat(n + 1);
        let body = format!("a]{}]b]]", other);
        let src = format!("[{}[{}]{}]", eqs, body, eqs);
        let expected = if n == 0 { "a]=]b".to_string() } else { body.clone() };
        let tokens = lex_all(&src).unwrap();
        assert_eq!(tokens[0], Token::Str(expected.into_bytes()));
    }
    assert_eq!(lex_all("--[==[ ]] ]=] ]===] ]==]z").unwrap(), vec![Token::Name(b"z".to_vec())]);
}

#[test]
fn comment_forms() {
    assert_eq!(lex_all("--[ not long\nx").unwrap(), vec![Token::Name(b"x".to_vec())]);
    assert_eq!(lex_all("--").unwrap(), vec![]);
    assert_eq!(lex_all("--[=x"), Err(LexerError::InvalidLongStringDelimiter));
    assert_eq!(lex_all("a--[[\n]]b").unwrap(), vec![Token::Name(b"a".to_vec()), Token::Name(b"b".to_vec())]);
}

#[test]
fn hex_integer_overflow_becomes_float() {
    assert_eq!(
        lex_all("0xffffffffffffffff").unwrap(),
        vec![Token::Float(lit(true, vec![15; 16], 0, false, vec![]))]
    );
    assert_eq!(lex_all("0x7fffffffffffffff").unwrap(), vec![Token::Integer(i64::MAX)]);
}

#[test]
fn tokenize_whole_input() {
    assert_eq!(
        tokenize("x = [[a]] -- c\n..."),
        Ok(vec![
            (0, Token::Name(b"x".to_vec()), 1),
            (2, sym(Symbol::Assign), 3),
            (4, str_tok(b"a"), 9),
            (15, sym(Symbol::Dots), 18),
        ])
    );
    assert_eq!(tokenize("  \n\t"), Ok(vec![]));
    assert_eq!(tokenize("a 'b"), Err(LexerError::UnfinishedShortString(b'\'')));
}

#[test]
fn hex_exponent_with_hex_digits_is_one_bad_numeral() {
    assert_eq!(lex_all("0x1pA"), Err(LexerError::BadNumber));
    assert_eq!(lex_all("0x1p-F"), Err(LexerError::BadNumber));
    assert_eq!(lex_all("0x"), Err(LexerError::BadNumber));
    assert_eq!(tokenize("0x1pA"), Err(LexerError::BadNumber));
    assert_eq!(single_float("0x1p+4"), 16.0);
    assert_eq!(
        lex_all("1e5x").unwrap(),
        vec![Token::Float(lit(false, vec![1], 0, false, vec![5])), Token::Name(b"x".to_vec())]
    );
}

#[test]
fn hex_float_decimal_rendering_relexes_to_same_value() {
    let f = match read_numeral(b"0x1.8p-3") {
        Ok(Token::Float(f)) => f,
        other => panic!("{:?}", other),
    };
    assert_eq!(f, lit(true, vec![1, 8], 1, true, vec![3]));
    assert_eq!(f.exponent(), Some(-7));
    // 0x18 * 2^-7 = 24 * 5^7 / 10^7
    let decimal = format!("{}e-7", 24u64 * 5u64.pow(7));
    assert_eq!(single_float(&decimal), float_value(&f));
    assert_eq!(float_value(&f), 0.1875);
}

#[test]
fn default_state() {
    use_default_state();
}

fn use_default_state() {
    let st = lua_lexer::lexer::LexerState::default();
    assert_eq!(st.long_string_opening_eqs, 0);
    assert!(st.string_buf.is_empty());
    assert_eq!(st.short_string_delim, lua_lexer::lexer::Quote::default());
    assert_eq!(st.short_string_delim, lua_lexer::lexer::Quote::Single);
    let copy = st.clone();
    assert_eq!(copy.unicode_codepoint, 0);
}

#[test]
fn rest_after_long_string_lexes_as_alone() {
    let rest = " x = 0x1F --c\n 'a' ]=]";
    let head = "[==[ a]=]b ]] ]===] ]==]";
    let whole = tokenize(&format!("{}{}", head, rest)).unwrap();
    let alone = tokenize(rest).unwrap();
    assert_eq!(whole[0], (0, str_tok(b" a]=]b ]] ]===] "), head.len()));
    let moved: Vec<_> = alone.into_iter().map(|(a, t, b)| (a + head.len(), t, b + head.len())).collect();
    assert_eq!(whole[1..].to_vec(), moved);
    assert_eq!(tokenize(&format!("{}{}", head, "$")), Err(LexerError::UnexpectedCharacter(b'$')));
}

#[test]
fn huge_exponents_are_kept_exactly() {
    assert_eq!(
        read_numeral(b"1e99999999999999999999999"),
        Ok(Token::Float(lit(false, vec![1], 0, false, vec![9; 23])))
    );
    assert_eq!(
        read_numeral(b"0e99999999999999999999"),
        Ok(Token::Float(lit(false, vec![0], 0, false, vec![9; 20])))
    );
    assert_eq!(
        read_numeral(b"0x0p99999999999999999999"),
        Ok(Token::Float(lit(true, vec![0], 0, false, vec![9; 20])))
    );
    assert_eq!(
        lex_all("1e-99999999999999999999").unwrap(),
        vec![Token::Float(lit(false, vec![1], 0, true, vec![9; 20]))]
    );
    match read_numeral(b"1e99999999999999999999999") {
        Ok(Token::Float(f)) => assert_eq!(f.exponent(), None),
        other => panic!("{:?}", other),
    }
    match read_numeral(b"1.25e-9223372036854775806") {
        Ok(Token::Float(f)) => assert_eq!(f.exponent(), Some(i64::MIN)),
        other => panic!("{:?}", other),
    }
    match read_numeral(b"0x.8p+3") {
        Ok(Token::Float(f)) => assert_eq!(f.exponent(), Some(-1)),
        other => panic!("{:?}", other),
    }
}
