use icicle::lexer::{LexError, Lexer, Token};

fn tokens(src: &str) -> Vec<Result<(usize, Token), LexError>> {
    let mut lexer = Lexer::new(src);
    let mut out = Vec::new();
    while let Some(r) = lexer.next() {
        out.push(r.map(|l| (l.location.offset, l.token)));
    }
    out
}

#[test]
fn punctuation_and_keyword() {
    let t = tokens(" ( ) +\t~\nfun");
    assert_eq!(t.len(), 5);
    assert!(matches!(t[0], Ok((1, Token::LeftParenthesis))));
    assert!(matches!(t[1], Ok((3, Token::RightParenthesis))));
    assert!(matches!(t[2], Ok((5, Token::PlusSign))));
    assert!(matches!(t[3], Ok((7, Token::Tilde))));
    assert!(matches!(t[4], Ok((9, Token::FunKeyword))));
}

#[test]
fn identifiers() {
    let t = tokens("fun_ x1 funny");
    match &t[0] {
        Ok((0, Token::Identifier(s))) => assert_eq!(s, "fun_"),
        _ => panic!("expected identifier"),
    }
    match &t[1] {
        Ok((5, Token::Identifier(s))) => assert_eq!(s, "x1"),
        _ => panic!("expected identifier"),
    }
    match &t[2] {
        Ok((8, Token::Identifier(s))) => assert_eq!(s, "funny"),
        _ => panic!("expected identifier"),
    }
}

#[test]
fn string_literal_with_multibyte_characters() {
    let t = tokens("'h\u{e9}' x");
    match &t[0] {
        Ok((0, Token::StringLiteral(b))) => assert_eq!(b, &"h\u{e9}".as_bytes().to_vec()),
        _ => panic!("expected string literal"),
    }
    match &t[1] {
        Ok((6, Token::Identifier(s))) => assert_eq!(s, "x"),
        _ => panic!("expected identifier"),
    }
}

#[test]
fn offsets_count_bytes() {
    let t = tokens("'\u{1F600}'(");
    assert!(matches!(t[1], Ok((6, Token::LeftParenthesis))));
}

#[test]
fn invalid_token() {
    let t = tokens("( 9");
    assert_eq!(t.len(), 2);
    assert!(matches!(t[1], Err(LexError::InvalidToken('9'))));
}

#[test]
fn unterminated_string_literal() {
    let t = tokens("'abc");
    assert_eq!(t.len(), 1);
    assert!(matches!(t[0], Err(LexError::UnterminatedStringLiteral)));
}

#[test]
fn empty_input() {
    assert!(tokens("").is_empty());
    assert!(tokens(" \n\t\r ").is_empty());
}

#[test]
fn token_descriptions() {
    assert_eq!(Token::FunKeyword.describe(), "`fun`");
    assert_eq!(Token::Identifier(String::from("a")).describe(), "identifier");
}
