use refdes::lexer::Lexer;
use refdes::materialize::convert_to_designators;
use refdes::passes::{
    convert_prefix_notation, put_in_parentheses, rebuild, replace_inline_parentheses,
    replace_invalid_parentheses, replace_invalid_range_symbols, replace_whitespace_to_comma,
};
use refdes::token::{Token, TokenWithSymbol};

fn lex(input: &str) -> Vec<TokenWithSymbol> {
    let mut lexer = Lexer::new(input);
    let mut tokens = Vec::new();
    while let Some(token) = lexer.token() {
        tokens.push(token);
    }
    tokens
}

fn symbols(tokens: &[TokenWithSymbol]) -> String {
    tokens.iter().map(|t| t.symbol()).collect()
}

fn payloads(tokens: &[TokenWithSymbol]) -> Vec<String> {
    tokens.iter().map(|t| t.token().to_string()).collect()
}

fn names(designators: Vec<refdes::designator::Designator>) -> Vec<String> {
    designators.iter().map(|d| d.to_string()).collect()
}

#[test]
fn lexed_symbols() {
    assert_eq!(symbols(&lex("R1,R2 (R3),R4-9)")), "i,i (i),i~i)");
}

#[test]
fn inline_parentheses_become_identifiers() {
    let mut tokens = lex("IC1(DIP8),(R2)");
    assert_eq!(symbols(&tokens), "i(i),(i)");
    replace_inline_parentheses(&mut tokens);
    assert_eq!(symbols(&tokens), "iiii,(i)");
    assert_eq!(
        payloads(&tokens),
        vec!["IC1", "(", "DIP8", ")", ",", "(", "R2", ")"]
    );
}

#[test]
fn inline_parentheses_close_again() {
    let mut tokens = lex("A(b) (c)");
    replace_inline_parentheses(&mut tokens);
    assert_eq!(symbols(&tokens), "iiii (i)");
    let mut nested = lex("A(b(c)d)e (f)");
    replace_inline_parentheses(&mut nested);
    assert_eq!(symbols(&nested), "iiiiiiiii (i)");
    let mut again = lex("A(b)c(d)");
    replace_inline_parentheses(&mut again);
    assert_eq!(symbols(&again), "iiiiiiii");
}

#[test]
fn inline_parentheses_take_in_whitespace_and_ranges() {
    let mut tokens = lex("A(b -c) d");
    replace_inline_parentheses(&mut tokens);
    assert_eq!(symbols(&tokens), "iiiiiii i");
}

#[test]
fn a_comma_closes_all_inline_parentheses() {
    let mut tokens = lex("A(b(c,d)e)");
    replace_inline_parentheses(&mut tokens);
    assert_eq!(symbols(&tokens), "iiiii,i)i)");
}

#[test]
fn parentheses_without_partner_become_identifiers() {
    let mut tokens = lex("(a))(");
    assert_eq!(symbols(&tokens), "(i))(");
    replace_invalid_parentheses(&mut tokens);
    assert_eq!(symbols(&tokens), "(i)ii");
    let mut nested = lex("((a)(b");
    replace_invalid_parentheses(&mut nested);
    assert_eq!(symbols(&nested), "i(i)ii");
    let mut fine = lex("(a,(b),c)");
    replace_invalid_parentheses(&mut fine);
    assert_eq!(symbols(&fine), "(i,(i),i)");
}

#[test]
fn grouping_parentheses_mark_their_identifiers() {
    let mut tokens = lex("a,(b,c-d),e");
    put_in_parentheses(&mut tokens);
    assert_eq!(symbols(&tokens), "i, I,I~I ,i");
    assert_eq!(
        payloads(&tokens),
        vec!["a", ",", "(", "b", ",", "c", "-", "d", ")", ",", "e"]
    );
    let mut nested = lex("((a)b)c");
    put_in_parentheses(&mut nested);
    assert_eq!(symbols(&nested), "  I I i");
}

#[test]
fn whitespace_becomes_comma_unless_next_to_a_range_symbol() {
    let mut tokens = lex("a b - c d");
    assert_eq!(symbols(&tokens), "i i ~ i i");
    replace_whitespace_to_comma(&mut tokens);
    assert_eq!(symbols(&tokens), "i,i ~ i,i");
}

#[test]
fn whitespace_at_the_ends_becomes_comma() {
    let mut tokens = vec![
        TokenWithSymbol::new(Token::Whitespace),
        TokenWithSymbol::new(Token::Whitespace),
        TokenWithSymbol::new(Token::Range('~')),
        TokenWithSymbol::new(Token::Whitespace),
        TokenWithSymbol::new(Token::Identifier("a".to_string())),
        TokenWithSymbol::new(Token::Range('~')),
        TokenWithSymbol::new(Token::Whitespace),
    ];
    replace_whitespace_to_comma(&mut tokens);
    assert_eq!(symbols(&tokens), ",,~ i~,");
    let mut blank = vec![
        TokenWithSymbol::new(Token::Whitespace),
        TokenWithSymbol::new(Token::Whitespace),
    ];
    replace_whitespace_to_comma(&mut blank);
    assert_eq!(symbols(&blank), ",,");
    let mut none: Vec<TokenWithSymbol> = Vec::new();
    replace_whitespace_to_comma(&mut none);
    assert_eq!(symbols(&none), "");
}

#[test]
fn range_symbols_outside_a_range_become_identifiers() {
    let mut tokens = lex("a~b,c~d~e,~f,g ~ h,i~,a~b c");
    assert_eq!(symbols(&tokens), "i~i,i~i~i,~i,i ~ i,i~,i~i i");
    replace_invalid_range_symbols(&mut tokens);
    assert_eq!(symbols(&tokens), "i~i,iiiii,ii,i ~ i,ii,i~i i");
}

#[test]
fn rebuild_merges_and_drops() {
    let mut tokens = lex("a(b),,c");
    replace_inline_parentheses(&mut tokens);
    assert_eq!(symbols(&tokens), "iiii,,i");
    let rebuilt = rebuild(tokens);
    assert_eq!(symbols(&rebuilt), "i,i");
    assert_eq!(payloads(&rebuilt), vec!["a(b)", ",", "c"]);
}

#[test]
fn rebuild_brings_payloads_in_line() {
    let mut tokens = lex("(a) b-");
    put_in_parentheses(&mut tokens);
    replace_whitespace_to_comma(&mut tokens);
    replace_invalid_range_symbols(&mut tokens);
    assert_eq!(symbols(&tokens), ",I,,ii");
    let rebuilt = rebuild(tokens);
    assert_eq!(symbols(&rebuilt), ",I,i");
    assert_eq!(payloads(&rebuilt), vec![",", "a", ",", "b-"]);
    assert_eq!(rebuilt[0], {
        let mut comma = TokenWithSymbol::new(Token::Comma);
        comma.convert_symbol_to_comma();
        comma
    });
}

#[test]
fn rebuild_keeps_whitespace_next_to_ranges() {
    let tokens = lex("a - b");
    let rebuilt = rebuild(tokens);
    assert_eq!(symbols(&rebuilt), "i ~ i");
}

#[test]
fn range_symbols_come_to_the_front() {
    let mut tokens = lex("a~b,c,d -e");
    convert_prefix_notation(&mut tokens);
    assert_eq!(symbols(&tokens), "~ii,i,~ ii");
    assert_eq!(
        payloads(&tokens),
        vec!["~", "a", "b", ",", "c", ",", "-", " ", "d", "e"]
    );
}

#[test]
fn only_the_first_range_symbol_moves() {
    let mut tokens = lex("a~b~c");
    convert_prefix_notation(&mut tokens);
    assert_eq!(payloads(&tokens), vec!["~", "a", "b", "~", "c"]);
}

#[test]
fn designators_of_a_canonical_stream() {
    let mut tokens = lex("R1~3,5,C1a,b");
    convert_prefix_notation(&mut tokens);
    assert_eq!(
        names(convert_to_designators(tokens)),
        vec!["R1", "R2", "R3", "R5", "C1a", "C1b"]
    );
}

#[test]
fn a_marked_identifier_gives_a_designator_in_parentheses() {
    let mut marked = TokenWithSymbol::new(Token::Identifier("R7".to_string()));
    marked.parenthesize();
    let tokens = vec![
        TokenWithSymbol::new(Token::Identifier("R1".to_string())),
        TokenWithSymbol::new(Token::Comma),
        marked,
    ];
    assert_eq!(names(convert_to_designators(tokens)), vec!["R1", "(R7)"]);
}

#[test]
fn a_range_with_one_marked_end() {
    let mut marked = TokenWithSymbol::new(Token::Identifier("R1".to_string()));
    marked.parenthesize();
    let tokens = vec![
        TokenWithSymbol::new(Token::Range('~')),
        marked,
        TokenWithSymbol::new(Token::Identifier("3".to_string())),
    ];
    assert_eq!(
        names(convert_to_designators(tokens)),
        vec!["(R1)", "(R2)", "R3"]
    );
}

#[test]
fn a_range_symbol_without_both_ends_gives_nothing() {
    assert_eq!(
        names(convert_to_designators(vec![TokenWithSymbol::new(
            Token::Range('~')
        )])),
        Vec::<String>::new()
    );
    assert_eq!(
        names(convert_to_designators(vec![
            TokenWithSymbol::new(Token::Range('~')),
            TokenWithSymbol::new(Token::Whitespace),
            TokenWithSymbol::new(Token::Identifier("R1".to_string())),
            TokenWithSymbol::new(Token::Whitespace),
        ])),
        Vec::<String>::new()
    );
}

#[test]
fn a_part_that_begins_with_whitespace_gives_nothing() {
    assert_eq!(
        names(convert_to_designators(vec![
            TokenWithSymbol::new(Token::Whitespace),
            TokenWithSymbol::new(Token::Identifier("R1".to_string())),
            TokenWithSymbol::new(Token::Comma),
            TokenWithSymbol::new(Token::Identifier("R2".to_string())),
        ])),
        vec!["R2"]
    );
}

#[test]
fn empty_texts_in_a_range_that_does_not_rise() {
    let tokens = vec![
        TokenWithSymbol::new(Token::Range('-')),
        TokenWithSymbol::new(Token::Identifier(String::new())),
        TokenWithSymbol::new(Token::Identifier("B".to_string())),
    ];
    assert_eq!(names(convert_to_designators(tokens)), vec!["", "-B"]);
}
