use astatine::lexer::{
    LexHalt, Lexer, MalformedLiteralError, QualifiedTokenizeError, Token, TokenizeError,
};
use astatine::syntax::{Keyword, LiteralKind};

fn lex(input: &str) -> Result<Vec<Token>, QualifiedTokenizeError> {
    Lexer::new(input).tokenize()
}

fn literal(kind: LiteralKind, value: &str) -> Token {
    Token::Literal { kind, value: value.to_string() }
}

fn ident(name: &str) -> Token {
    Token::Identifier(name.to_string())
}

fn malformed(input: &str) -> (MalformedLiteralError, usize) {
    match lex(input) {
        Err(QualifiedTokenizeError { tokenize_error: TokenizeError::MalformedLiteral(e), line }) => (e, line),
        other => panic!("expected a malformed literal, got {:?}", other),
    }
}

fn invalid_escape(input: &str) -> String {
    match malformed(input).0 {
        MalformedLiteralError::InvalidEscapeSequence(s) => s,
        other => panic!("expected an invalid escape sequence, got {:?}", other),
    }
}

#[test]
fn tokenizes_a_small_program() {
    let tokens = lex("func main() { let x = 42; }").unwrap();
    assert_eq!(
        tokens,
        vec![
            Token::Keyword(Keyword::Func),
            ident("main"),
            Token::LeftParen,
            Token::RightParen,
            Token::LeftCurly,
            Token::Keyword(Keyword::Let),
            ident("x"),
            Token::Eq,
            literal(LiteralKind::Integer, "42"),
            Token::Semicolon,
            Token::RightCurly,
        ]
    );
}

#[test]
fn empty_input_has_no_tokens() {
    assert_eq!(lex("").unwrap(), vec![]);
    assert_eq!(lex(" \t\r\n\n ").unwrap(), vec![]);
}

#[test]
fn keywords_and_identifiers() {
    let tokens = lex("if else for func let match return struct break continue const foo_Bar9").unwrap();
    assert_eq!(
        tokens,
        vec![
            Token::Keyword(Keyword::If),
            Token::Keyword(Keyword::Else),
            Token::Keyword(Keyword::For),
            Token::Keyword(Keyword::Func),
            Token::Keyword(Keyword::Let),
            Token::Keyword(Keyword::Match),
            Token::Keyword(Keyword::Return),
            Token::Keyword(Keyword::Struct),
            Token::Keyword(Keyword::Break),
            Token::Keyword(Keyword::Continue),
            ident("const"),
            ident("foo_Bar9"),
        ]
    );
}

#[test]
fn number_literals() {
    assert_eq!(lex("3.14").unwrap(), vec![literal(LiteralKind::Float, "3.14")]);
    assert_eq!(lex("1_000").unwrap(), vec![literal(LiteralKind::Integer, "1000")]);
    assert_eq!(lex("7.").unwrap(), vec![literal(LiteralKind::Float, "7.")]);
    assert_eq!(
        lex("12abc").unwrap(),
        vec![literal(LiteralKind::Integer, "12"), ident("abc")]
    );
}

#[test]
fn second_period_is_an_invalid_number() {
    let (e, line) = malformed("1.2.3");
    assert_eq!(line, 1);
    match e {
        MalformedLiteralError::InvalidNumber(s) => assert_eq!(s, "1.2."),
        other => panic!("unexpected {:?}", other),
    }
}

#[test]
fn character_literals() {
    assert_eq!(lex("'a'").unwrap(), vec![literal(LiteralKind::Char, "a")]);
    assert_eq!(lex("'\\n'").unwrap(), vec![literal(LiteralKind::Char, "\n")]);
    assert_eq!(lex("'\\''").unwrap(), vec![literal(LiteralKind::Char, "'")]);
    assert_eq!(lex("'\\0'").unwrap(), vec![literal(LiteralKind::Char, "\0")]);
    assert_eq!(lex("'\\u{41}'").unwrap(), vec![literal(LiteralKind::Char, "A")]);
    assert_eq!(lex("'\\u{1F600}'").unwrap(), vec![literal(LiteralKind::Char, "\u{1F600}")]);
}

#[test]
fn empty_character_literal() {
    assert!(matches!(malformed("''").0, MalformedLiteralError::EmptyChar));
}

#[test]
fn multicharacter_literal() {
    match malformed("'ab'").0 {
        MalformedLiteralError::MulticharLiteral(s) => assert_eq!(s, "ab"),
        other => panic!("unexpected {:?}", other),
    }
}

#[test]
fn unterminated_character_literal() {
    assert!(matches!(malformed("'a\n'").0, MalformedLiteralError::UnterminatedCharacter));
    assert!(matches!(malformed("'\\u").0, MalformedLiteralError::UnterminatedCharacter));
    // the input ending before the closing quote leaves the literal unterminated
    assert!(matches!(malformed("'a").0, MalformedLiteralError::UnterminatedCharacter));
    assert!(matches!(malformed("'\\u{41").0, MalformedLiteralError::UnterminatedCharacter));
    assert!(matches!(malformed("'\\").0, MalformedLiteralError::UnterminatedCharacter));
    assert!(matches!(malformed("'").0, MalformedLiteralError::UnterminatedCharacter));
    assert!(matches!(malformed("\"\\u").0, MalformedLiteralError::UnterminatedCharacter));
    // a backslash that ends the input escapes nothing
    assert_eq!(lex("\"\\").unwrap(), vec![literal(LiteralKind::String, "")]);
}

#[test]
fn invalid_escape_sequences() {
    assert_eq!(invalid_escape("'\\q'"), "q");
    assert_eq!(invalid_escape("'\\u[41]'"), "[");
    assert_eq!(invalid_escape("'\\u{4g}'"), "u{4g");
    assert_eq!(invalid_escape("'\\u{}'"), "u{}");
    assert_eq!(invalid_escape("'\\u{d800}'"), "u{d800}");
    assert_eq!(invalid_escape("'\\u{110000}'"), "u{110000}");
    assert_eq!(invalid_escape("'\\u{100000000}'"), "u{100000000}");
    assert_eq!(invalid_escape("\"\\x\""), "x");
}

#[test]
fn leading_zeros_in_unicode_escape() {
    assert_eq!(lex("'\\u{0000000041}'").unwrap(), vec![literal(LiteralKind::Char, "A")]);
}

#[test]
fn string_literals() {
    assert_eq!(
        lex("\"hi\\tthere \\\"you\\\"\"").unwrap(),
        vec![literal(LiteralKind::String, "hi\tthere \"you\"")]
    );
    assert_eq!(lex("\"abc").unwrap(), vec![literal(LiteralKind::String, "abc")]);
    assert_eq!(lex("\"@#\"").unwrap(), vec![literal(LiteralKind::String, "@#")]);
}

#[test]
fn line_breaks_inside_strings_are_not_counted() {
    match lex("\"a\nb\" =+") {
        Err(e) => {
            assert_eq!(e.line, 1);
            assert!(matches!(e.tokenize_error, TokenizeError::InvalidPunctuation(ref s) if s == "=+"));
        },
        Ok(t) => panic!("unexpected tokens {:?}", t),
    }
}

#[test]
fn punctuation() {
    let tokens = lex("&& || != == ! = & | . , : * / % + - ; ( ) [ ] { }").unwrap();
    assert_eq!(
        tokens,
        vec![
            Token::AndAnd,
            Token::OrOr,
            Token::BangEq,
            Token::EqEq,
            Token::Bang,
            Token::Eq,
            Token::Amp,
            Token::Pipe,
            Token::Period,
            Token::Comma,
            Token::Colon,
            Token::Asterisk,
            Token::Slash,
            Token::Percent,
            Token::Plus,
            Token::Minus,
            Token::Semicolon,
            Token::LeftParen,
            Token::RightParen,
            Token::LeftSquare,
            Token::RightSquare,
            Token::LeftCurly,
            Token::RightCurly,
        ]
    );
    assert_eq!(lex("a;b").unwrap(), vec![ident("a"), Token::Semicolon, ident("b")]);
    assert_eq!(lex("(=)").unwrap(), vec![Token::LeftParen, Token::Eq, Token::RightParen]);
}

#[test]
fn invalid_punctuation_and_its_line() {
    match lex("x\ny\n=+ z") {
        Err(e) => {
            assert_eq!(e.line, 3);
            assert!(matches!(e.tokenize_error, TokenizeError::InvalidPunctuation(ref s) if s == "=+"));
        },
        Ok(t) => panic!("unexpected tokens {:?}", t),
    }
    match lex("///") {
        Err(e) => assert!(matches!(e.tokenize_error, TokenizeError::InvalidPunctuation(ref s) if s == "///")),
        Ok(t) => panic!("unexpected tokens {:?}", t),
    }
}

#[test]
fn comments_yield_no_tokens() {
    assert_eq!(lex("// a comment @ with # symbols\nx").unwrap(), vec![ident("x")]);
    assert_eq!(lex("//x").unwrap(), vec![]);
    assert_eq!(lex("// trailing").unwrap(), vec![]);
}

#[test]
fn unicode_whitespace_is_skipped() {
    assert_eq!(lex("\u{3000}x\u{a0}").unwrap(), vec![ident("x")]);
}

#[test]
fn punctuation_stops_at_unicode_letters() {
    match Lexer::new("=é").scan() {
        Err(LexHalt::UnknownSymbol(c)) => assert_eq!(c, 'é'),
        other => panic!("unexpected {:?}", other),
    }
}

#[test]
fn scan_reports_unknown_symbols() {
    match Lexer::new("x @").scan() {
        Err(LexHalt::UnknownSymbol(c)) => assert_eq!(c, '@'),
        other => panic!("unexpected {:?}", other),
    }
}

#[test]
fn minus_is_a_token() {
    assert_eq!(lex("a - b").unwrap(), vec![ident("a"), Token::Minus, ident("b")]);
    assert_eq!(
        lex("x = -1").unwrap(),
        vec![ident("x"), Token::Eq, Token::Minus, literal(LiteralKind::Integer, "1")]
    );
    match lex("a -= b") {
        Err(e) => assert!(matches!(e.tokenize_error, TokenizeError::InvalidPunctuation(ref s) if s == "-=")),
        Ok(t) => panic!("unexpected tokens {:?}", t),
    }
}

#[test]
fn the_line_break_after_a_comment_is_counted() {
    let (e, line) = malformed("// c\n'ab'");
    assert_eq!(line, 2);
    assert!(matches!(e, MalformedLiteralError::MulticharLiteral(ref s) if s == "ab"));
    assert_eq!(lex("// c\n\n=+").unwrap_err().line, 3);
}

#[test]
fn scan_agrees_with_tokenize() {
    let input = "let s = \"text\"; // done\nreturn s";
    let scanned = Lexer::new(input).scan().unwrap();
    assert_eq!(scanned, lex(input).unwrap());
    match Lexer::new("'ab'").scan() {
        Err(LexHalt::Error(e)) => assert!(matches!(
            e.tokenize_error,
            TokenizeError::MalformedLiteral(MalformedLiteralError::MulticharLiteral(_))
        )),
        other => panic!("unexpected {:?}", other),
    }
}

#[test]
fn tokens_never_outnumber_characters() {
    let input = "a;b;c(1)";
    let tokens = lex(input).unwrap();
    assert_eq!(tokens.len(), 8);
    assert!(tokens.len() <= input.chars().count());
}

#[test]
fn error_line_lies_within_the_input() {
    let input = "\n\n\n'ab'";
    let (_, line) = malformed(input);
    assert_eq!(line, 4);
    assert!(line <= 1 + input.matches('\n').count());
}

#[test]
fn qualify_attaches_the_line() {
    let q = TokenizeError::InvalidPunctuation("=+".to_string()).qualify(7);
    assert_eq!(q.line, 7);
    assert!(matches!(q.tokenize_error, TokenizeError::InvalidPunctuation(ref s) if s == "=+"));
}

#[test]
fn tokens_clone_to_equal_tokens() {
    let t = literal(LiteralKind::String, "x");
    assert_eq!(t.clone(), t);
}

#[test]
fn blanks_before_the_input_change_nothing() {
    assert_eq!(lex("  \t x = 1").unwrap(), lex("x = 1").unwrap());
    let shifted = lex(" \t=+").unwrap_err();
    let plain = lex("=+").unwrap_err();
    assert_eq!(shifted.line, plain.line);
}

#[test]
fn a_line_break_before_the_input_moves_errors_one_line_on() {
    assert_eq!(lex("\nx = 1").unwrap(), lex("x = 1").unwrap());
    assert_eq!(lex("\n=+").unwrap_err().line, lex("=+").unwrap_err().line + 1);
}

#[test]
fn keywords_parse_through_from_str() {
    assert_eq!("match".parse::<Keyword>(), Ok(Keyword::Match));
    assert_eq!("const".parse::<Keyword>(), Err(()));
}

#[test]
fn blanks_between_tokens_change_nothing() {
    assert_eq!(lex("a \t = b;").unwrap(), lex("a=b;").unwrap());
    assert_eq!(lex("f ( 1 ) - 2").unwrap(), lex("f(1)-2").unwrap());
    let spaced = lex("x \n  'ab'").unwrap_err();
    let plain = lex("x\n'ab'").unwrap_err();
    assert_eq!(spaced.line, 2);
    assert_eq!(plain.line, 2);
    assert!(matches!(spaced.tokenize_error, TokenizeError::MalformedLiteral(MalformedLiteralError::MulticharLiteral(ref s)) if s == "ab"));
}
