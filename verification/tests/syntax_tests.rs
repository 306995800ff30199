use astatine::parser::{Parser, ParseError};
use astatine::lexer::Token;
use astatine::syntax::{BinaryOp, Keyword, StructDefinition, Type};

#[test]
fn binary_operators_from_text() {
    let cases = [
        ("*", BinaryOp::Multiply),
        ("/", BinaryOp::Divide),
        ("%", BinaryOp::Modulo),
        ("+", BinaryOp::Add),
        ("-", BinaryOp::Subtract),
        ("<<", BinaryOp::ShiftL),
        (">>", BinaryOp::ShiftR),
        ("&", BinaryOp::BitAnd),
        ("^", BinaryOp::Xor),
        ("|", BinaryOp::BitOr),
        ("==", BinaryOp::Equal),
        ("!=", BinaryOp::Unequal),
        ("<", BinaryOp::LessThan),
        (">", BinaryOp::GreaterThan),
        ("<=", BinaryOp::LessOrEqual),
        (">=", BinaryOp::GreaterOrEqual),
        ("&&", BinaryOp::And),
        ("||", BinaryOp::Or),
    ];
    for (text, op) in cases {
        assert_eq!(BinaryOp::try_from(text).unwrap(), op);
        assert_eq!(BinaryOp::try_from(text.to_string()).unwrap(), op);
    }
}

#[test]
fn unknown_operator_is_refused_with_its_text() {
    let e = BinaryOp::try_from("<>").unwrap_err();
    assert_eq!(e.0, "<>");
    let e = BinaryOp::try_from(String::from("=")).unwrap_err();
    assert_eq!(e.clone().0, "=");
}

#[test]
fn keywords_from_text() {
    assert_eq!(Keyword::from_str("if"), Ok(Keyword::If));
    assert_eq!(Keyword::from_str("continue"), Ok(Keyword::Continue));
    assert_eq!(Keyword::from_str("struct"), Ok(Keyword::Struct));
    assert_eq!(Keyword::from_str("const"), Err(()));
    assert_eq!(Keyword::from_str("iff"), Err(()));
    assert_eq!(Keyword::from_str(""), Err(()));
}

#[test]
fn type_name_is_the_struct_name() {
    let ty = Type::Struct(StructDefinition { name: "Point".to_string(), fields: vec!["x".to_string()] });
    assert_eq!(ty.name(), "Point");
    let copy = StructDefinition { name: "P".to_string(), fields: vec!["a".to_string(), "b".to_string()] }.clone();
    assert_eq!(copy.name, "P");
    assert_eq!(copy.fields, vec!["a".to_string(), "b".to_string()]);
}

#[test]
fn parsing_no_tokens_yields_no_nodes() {
    let tokens: Vec<Token> = vec![];
    assert!(Parser::new(&tokens).parse().unwrap().is_empty());
}

#[test]
fn parsing_rejects_a_leading_non_keyword() {
    let tokens = vec![Token::Identifier("x".to_string()), Token::Semicolon];
    match Parser::new(&tokens).parse() {
        Err(ParseError::UnexpectedToken(t)) => assert_eq!(t, Token::Identifier("x".to_string())),
        _ => panic!("expected an unexpected token"),
    }
}

#[test]
fn parsing_rejects_a_leading_keyword_that_opens_no_definition() {
    let tokens = vec![Token::Keyword(Keyword::Let)];
    match Parser::new(&tokens).parse() {
        Err(ParseError::UnexpectedKeyword(k)) => assert_eq!(k, Keyword::Let),
        _ => panic!("expected an unexpected keyword"),
    }
}
