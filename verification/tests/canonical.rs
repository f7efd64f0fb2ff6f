use refdes::lexer::Lexer;
use refdes::passes::{
    convert_prefix_notation, put_in_parentheses, rebuild, replace_inline_parentheses,
    replace_invalid_parentheses, replace_invalid_range_symbols, replace_whitespace_to_comma,
};
use refdes::token::TokenWithSymbol;

struct Random(u64);

impl Random {
    fn next(&mut self, bound: u64) -> u64 {
        self.0 = self
            .0
            .wrapping_mul(6364136223846793005)
            .wrapping_add(1442695040888963407);
        (self.0 >> 33) % bound
    }
}

fn raw_tokens(input: &str) -> Vec<TokenWithSymbol> {
    let mut lexer = Lexer::new(input);
    let mut tokens: Vec<TokenWithSymbol> = Vec::new();
    let mut separator: Option<TokenWithSymbol> = None;
    let mut started = false;
    while let Some(token) = lexer.token() {
        let is_separator = token.is_whitespace() || token.is_comma();
        if !started {
            if is_separator {
                continue;
            }
            started = true;
            tokens.push(token);
        } else if token.is_whitespace() {
            if separator.is_none() {
                separator = Some(token);
            }
        } else if token.is_comma() {
            separator = Some(token);
        } else {
            if let Some(s) = separator.take() {
                tokens.push(s);
            }
            tokens.push(token);
        }
    }
    tokens
}

fn canonical(mut tokens: Vec<TokenWithSymbol>) -> Vec<TokenWithSymbol> {
    replace_inline_parentheses(&mut tokens);
    replace_invalid_parentheses(&mut tokens);
    put_in_parentheses(&mut tokens);
    replace_whitespace_to_comma(&mut tokens);
    later_passes(tokens)
}

fn later_passes(mut tokens: Vec<TokenWithSymbol>) -> Vec<TokenWithSymbol> {
    replace_invalid_range_symbols(&mut tokens);
    let mut tokens = rebuild(tokens);
    convert_prefix_notation(&mut tokens);
    tokens
}

fn ranges_have_both_ends(tokens: &[TokenWithSymbol]) -> bool {
    tokens.split(|t| t.is_comma()).all(|chunk| {
        if chunk.is_empty() || !chunk[0].is_range() {
            return true;
        }
        let left = if chunk.len() > 1 && chunk[1].is_whitespace() {
            2
        } else {
            1
        };
        let right = if chunk.len() > left + 1 && chunk[left + 1].is_whitespace() {
            left + 2
        } else {
            left + 1
        };
        right < chunk.len()
    })
}

#[test]
fn ranges_of_canonical_tokens_have_both_ends() {
    let alphabet = ['R', '1', 'a', ' ', ',', '(', ')', '~', '-', ' ', ','];
    let mut random = Random(7);
    for _ in 0..40000 {
        let length = random.next(10) as usize;
        let text: String = (0..length)
            .map(|_| alphabet[random.next(alphabet.len() as u64) as usize])
            .collect();
        let tokens = canonical(raw_tokens(&text));
        assert!(ranges_have_both_ends(&tokens), "{:?}", text);
    }
}

#[test]
fn ranges_have_both_ends_behind_the_later_passes_on_any_tokens() {
    let symbols = [' ', ',', '(', ')', '~', 'i', 'I'];
    let mut random = Random(11);
    for _ in 0..40000 {
        let length = random.next(9) as usize;
        let tokens: Vec<TokenWithSymbol> = (0..length)
            .map(|_| {
                let mut token = Lexer::new("x").token().unwrap();
                let symbol = symbols[random.next(symbols.len() as u64) as usize];
                assert_eq!(token.change_symbol(symbol), Ok(()));
                token
            })
            .collect();
        let shown: String = tokens.iter().map(|t| t.symbol()).collect();
        let tokens = later_passes(tokens);
        assert!(ranges_have_both_ends(&tokens), "{:?}", shown);
    }
}
