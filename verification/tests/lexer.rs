use refdes::lexer::Lexer;
use refdes::token::{Token, TokenWithSymbol};

#[test]
fn test_lexer() {
    let mut lexer = Lexer::new("R1,R2 (R3),R4-9)");
    assert_eq!(
        lexer.token(),
        Some(TokenWithSymbol::new(Token::Identifier("R1".to_string())))
    );
    assert_eq!(lexer.token(), Some(TokenWithSymbol::new(Token::Comma)));
    assert_eq!(
        lexer.token(),
        Some(TokenWithSymbol::new(Token::Identifier("R2".to_string())))
    );
    assert_eq!(lexer.token(), Some(TokenWithSymbol::new(Token::Whitespace)));
    assert_eq!(lexer.token(), Some(TokenWithSymbol::new(Token::OpenParen)));
    assert_eq!(
        lexer.token(),
        Some(TokenWithSymbol::new(Token::Identifier("R3".to_string())))
    );
    assert_eq!(lexer.token(), Some(TokenWithSymbol::new(Token::CloseParen)));
    assert_eq!(lexer.token(), Some(TokenWithSymbol::new(Token::Comma)));
    assert_eq!(
        lexer.token(),
        Some(TokenWithSymbol::new(Token::Identifier("R4".to_string())))
    );
    assert_eq!(lexer.token(), Some(TokenWithSymbol::new(Token::Range('-'))));
    assert_eq!(
        lexer.token(),
        Some(TokenWithSymbol::new(Token::Identifier("9".to_string())))
    );
}

#[test]
fn lexer_ends_with_none() {
    let mut lexer = Lexer::new("R1)");
    assert!(lexer.token().is_some());
    assert_eq!(lexer.token(), Some(TokenWithSymbol::new(Token::CloseParen)));
    assert_eq!(lexer.token(), None);
    assert_eq!(lexer.token(), None);
}

#[test]
fn lexer_trims_the_input() {
    let mut lexer = Lexer::new(" \t\u{3000}R1 \n");
    assert_eq!(
        lexer.token(),
        Some(TokenWithSymbol::new(Token::Identifier("R1".to_string())))
    );
    assert_eq!(lexer.token(), None);
}

#[test]
fn lexer_of_blank_text_has_no_token() {
    assert_eq!(Lexer::new("").token(), None);
    assert_eq!(Lexer::new("  \n ").token(), None);
}

#[test]
fn lexer_knows_all_range_symbols() {
    let mut lexer = Lexer::new("~-\u{ff5e}");
    assert_eq!(lexer.token(), Some(TokenWithSymbol::new(Token::Range('~'))));
    assert_eq!(lexer.token(), Some(TokenWithSymbol::new(Token::Range('-'))));
    assert_eq!(
        lexer.token(),
        Some(TokenWithSymbol::new(Token::Range('\u{ff5e}')))
    );
    assert_eq!(lexer.token(), None);
}

#[test]
fn lexer_takes_every_whitespace_character_as_whitespace() {
    let mut lexer = Lexer::new("a\u{a0}b\tc");
    assert_eq!(
        lexer.token(),
        Some(TokenWithSymbol::new(Token::Identifier("a".to_string())))
    );
    assert_eq!(lexer.token(), Some(TokenWithSymbol::new(Token::Whitespace)));
    assert_eq!(
        lexer.token(),
        Some(TokenWithSymbol::new(Token::Identifier("b".to_string())))
    );
    assert_eq!(lexer.token(), Some(TokenWithSymbol::new(Token::Whitespace)));
    assert_eq!(
        lexer.token(),
        Some(TokenWithSymbol::new(Token::Identifier("c".to_string())))
    );
    assert_eq!(lexer.token(), None);
}

#[test]
fn identifiers_are_maximal() {
    let mut lexer = Lexer::new("IC100_abc.def");
    assert_eq!(
        lexer.token(),
        Some(TokenWithSymbol::new(Token::Identifier(
            "IC100_abc.def".to_string()
        )))
    );
    assert_eq!(lexer.token(), None);
}
