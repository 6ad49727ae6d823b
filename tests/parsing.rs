use itrees::{lex, parse_program, Error, Token};

#[test]
fn lexes_all_token_kinds() {
    let toks = lex(b"= * ( ) [ ] { } 42 ab_1");
    assert_eq!(
        toks,
        vec![
            Ok(Token::Eq),
            Ok(Token::Era),
            Ok(Token::OpenParen),
            Ok(Token::CloseParen),
            Ok(Token::OpenBracket),
            Ok(Token::CloseBracket),
            Ok(Token::OpenBrace),
            Ok(Token::CloseBrace),
            Ok(Token::Number(42)),
            Ok(Token::Ident(19, 23)),
        ]
    );
}

#[test]
fn lexing_stops_at_the_first_bad_byte() {
    assert_eq!(lex(b"a $ b"), vec![Ok(Token::Ident(0, 1)), Err(Error::LexError)]);
    assert_eq!(lex(b"99999999999999999999999"), vec![Err(Error::LexError)]);
    assert_eq!(lex(b"12ab"), vec![Ok(Token::Number(12)), Ok(Token::Ident(2, 4))]);
}

#[test]
fn parse_errors() {
    assert_eq!(parse_program("(a").err(), Some(Error::UnexpectedEOF));
    assert_eq!(parse_program("{x a b}").err(), Some(Error::ExpectedNumber));
    assert_eq!(parse_program(")").err(), Some(Error::ExpectedTree));
    assert_eq!(parse_program("(a b]").err(), Some(Error::InvalidClose));
    assert_eq!(parse_program("a = b c d").err(), Some(Error::ExpectedEq));
    assert_eq!(parse_program("a % b").err(), Some(Error::LexError));
    assert_eq!(parse_program("= a").err(), Some(Error::ExpectedTree));
}

#[test]
fn parses_empty_and_free_only_programs() {
    let (free, net) = parse_program("").unwrap();
    assert!(free.is_empty());
    assert!(net.active.is_empty());
    let (free, net) = parse_program(" x\t\nx ").unwrap();
    assert_eq!(free.len(), 2);
    assert!(net.active.is_empty());
}

#[test]
fn error_default_is_lex_error() {
    assert_eq!(Error::default(), Error::LexError);
}
