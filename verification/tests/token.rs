use refdes::token::{
    get_token_symbol, Token, TokenWithSymbol, CLOSE_PAREN, COMMA, IDENTIFIER, OPEN_PAREN, RANGE,
    WHITESPACE,
};

#[test]
fn test_token() {
    assert_eq!(TokenWithSymbol::new(Token::Whitespace).symbol(), WHITESPACE);
    assert_eq!(TokenWithSymbol::new(Token::Comma).symbol(), COMMA);
    assert_eq!(
        TokenWithSymbol::new(Token::CloseParen).symbol(),
        CLOSE_PAREN
    );
    assert_eq!(TokenWithSymbol::new(Token::OpenParen).symbol(), OPEN_PAREN);
    assert_eq!(TokenWithSymbol::new(Token::Range('-')).symbol(), RANGE);
    assert_eq!(
        TokenWithSymbol::new(Token::Identifier("abc".to_string())).symbol(),
        IDENTIFIER
    );

    let mut token = TokenWithSymbol::new(Token::Identifier("abc".to_string()));
    token.parenthesize();
    assert_eq!(token.symbol(), IDENTIFIER.to_ascii_uppercase());

    assert_eq!(
        token.merge_token(&Token::Identifier("def".to_string())),
        Ok(())
    );
    assert_eq!(token.token().to_string(), "abcdef".to_string());
}

#[test]
fn symbols_of_tokens() {
    assert_eq!(get_token_symbol(&Token::Whitespace), ' ');
    assert_eq!(get_token_symbol(&Token::Comma), ',');
    assert_eq!(get_token_symbol(&Token::CloseParen), ')');
    assert_eq!(get_token_symbol(&Token::OpenParen), '(');
    assert_eq!(get_token_symbol(&Token::Range('-')), '~');
    assert_eq!(get_token_symbol(&Token::Identifier(String::new())), 'i');
}

#[test]
fn texts_of_tokens() {
    assert_eq!(Token::Whitespace.to_string(), " ");
    assert_eq!(Token::Comma.to_string(), ",");
    assert_eq!(Token::CloseParen.to_string(), ")");
    assert_eq!(Token::OpenParen.to_string(), "(");
    assert_eq!(Token::Range('-').to_string(), "-");
    assert_eq!(Token::Range('\u{ff5e}').to_string(), "\u{ff5e}");
    assert_eq!(Token::Identifier("R1".to_string()).to_string(), "R1");
}

#[test]
fn classes_of_tokens() {
    let token = TokenWithSymbol::new(Token::Range('-'));
    assert!(token.is_range());
    assert!(!token.is_identifier());
    assert!(!token.is_whitespace());
    assert!(!token.is_comma());
    assert!(!token.is_open_paren());
    assert!(!token.is_close_paren());
    assert!(TokenWithSymbol::new(Token::Whitespace).is_whitespace());
    assert!(TokenWithSymbol::new(Token::Comma).is_comma());
    assert!(TokenWithSymbol::new(Token::OpenParen).is_open_paren());
    assert!(TokenWithSymbol::new(Token::CloseParen).is_close_paren());
    assert!(TokenWithSymbol::new(Token::Identifier("a".to_string())).is_identifier());
    assert_eq!(token.token(), &Token::Range('-'));
}

#[test]
fn change_symbol_takes_the_symbols_of_the_classes() {
    for symbol in [',', ')', '(', '~', 'i', 'I', ' ', '\t', '\u{3000}'] {
        let mut token = TokenWithSymbol::new(Token::Identifier("a".to_string()));
        assert_eq!(token.change_symbol(symbol), Ok(()));
        assert_eq!(token.symbol(), symbol);
        assert_eq!(token.token(), &Token::Identifier("a".to_string()));
    }
}

#[test]
fn change_symbol_refuses_other_characters() {
    for symbol in ['x', '-', '>', '0', '\u{ff5e}'] {
        let mut token = TokenWithSymbol::new(Token::Comma);
        assert_eq!(token.change_symbol(symbol), Err("invalid token symbol"));
        assert_eq!(token.symbol(), COMMA);
    }
}

#[test]
fn merge_needs_an_identifier() {
    let mut token = TokenWithSymbol::new(Token::Comma);
    assert_eq!(
        token.merge_token(&Token::Identifier("a".to_string())),
        Err("only identifiers can be merged")
    );
    assert_eq!(token, TokenWithSymbol::new(Token::Comma));
    let mut reclassified = TokenWithSymbol::new(Token::OpenParen);
    reclassified.convert_symbol_to_identifier();
    assert_eq!(
        reclassified.merge_token(&Token::Comma),
        Err("only identifiers can be merged")
    );
}

#[test]
fn merge_appends_the_text_of_any_token() {
    let mut token = TokenWithSymbol::new(Token::Identifier("a".to_string()));
    assert_eq!(token.merge_token(&Token::OpenParen), Ok(()));
    assert_eq!(token.merge_token(&Token::Range('-')), Ok(()));
    assert_eq!(token.merge_token(&Token::Whitespace), Ok(()));
    assert_eq!(token.merge_token(&Token::Comma), Ok(()));
    assert_eq!(token.merge_token(&Token::CloseParen), Ok(()));
    assert_eq!(token.token().to_string(), "a(- ,)");
    assert_eq!(token.symbol(), IDENTIFIER);
}

#[test]
fn transform_rebuilds_the_payload() {
    let mut paren = TokenWithSymbol::new(Token::OpenParen);
    paren.convert_symbol_to_identifier();
    assert_eq!(paren.token(), &Token::OpenParen);
    paren.transform();
    assert_eq!(paren.token(), &Token::Identifier("(".to_string()));
    assert_eq!(paren.symbol(), IDENTIFIER);

    let mut dash = TokenWithSymbol::new(Token::Range('-'));
    dash.convert_symbol_to_identifier();
    dash.transform();
    assert_eq!(dash.token(), &Token::Identifier("-".to_string()));

    let mut space = TokenWithSymbol::new(Token::CloseParen);
    space.convert_symbol_to_whitespace();
    space.transform();
    assert_eq!(space, TokenWithSymbol::new(Token::Whitespace));

    let mut comma = TokenWithSymbol::new(Token::Whitespace);
    comma.convert_symbol_to_comma();
    comma.transform();
    assert_eq!(comma, TokenWithSymbol::new(Token::Comma));

    let mut range = TokenWithSymbol::new(Token::Identifier("x".to_string()));
    assert_eq!(range.change_symbol(RANGE), Ok(()));
    range.transform();
    assert_eq!(range, TokenWithSymbol::new(Token::Range('~')));

    let mut open = TokenWithSymbol::new(Token::Comma);
    assert_eq!(open.change_symbol(OPEN_PAREN), Ok(()));
    open.transform();
    assert_eq!(open, TokenWithSymbol::new(Token::OpenParen));

    let mut close = TokenWithSymbol::new(Token::Comma);
    assert_eq!(close.change_symbol(CLOSE_PAREN), Ok(()));
    close.transform();
    assert_eq!(close, TokenWithSymbol::new(Token::CloseParen));
}

#[test]
fn transform_leaves_a_fitting_payload() {
    let mut dash = TokenWithSymbol::new(Token::Range('-'));
    dash.transform();
    assert_eq!(dash.token(), &Token::Range('-'));
    let mut marked = TokenWithSymbol::new(Token::Identifier("a".to_string()));
    marked.parenthesize();
    marked.transform();
    assert_eq!(marked.token(), &Token::Identifier("a".to_string()));
    assert!(marked.is_parenthesized());
    assert!(marked.is_identifier());
}

#[test]
fn transform_takes_any_whitespace_symbol() {
    let mut tab = TokenWithSymbol::new(Token::Comma);
    assert_eq!(tab.change_symbol('\t'), Ok(()));
    assert!(tab.is_whitespace());
    tab.transform();
    assert_eq!(tab.token(), &Token::Whitespace);
    assert_eq!(tab.symbol(), '\t');
}

#[test]
fn only_identifiers_are_marked() {
    let mut comma = TokenWithSymbol::new(Token::Comma);
    comma.parenthesize();
    assert_eq!(comma.symbol(), COMMA);
    assert!(!comma.is_parenthesized());
    let mut space = TokenWithSymbol::new(Token::Whitespace);
    space.parenthesize();
    assert_eq!(space.symbol(), WHITESPACE);
}

#[test]
fn a_marked_identifier_stays_an_identifier() {
    let mut token = TokenWithSymbol::new(Token::Identifier("a".to_string()));
    token.parenthesize();
    token.convert_symbol_to_identifier();
    assert_eq!(token.symbol(), 'I');
}

#[test]
fn clone_of_a_token() {
    let token = Token::Identifier("abc".to_string());
    assert_eq!(token.clone(), token);
    assert_eq!(Token::Range('-').clone(), Token::Range('-'));
}
