//! Tokens and their classification.
//!
//! A token carries a literal payload and, beside it, a one-character symbol
//! that says how the parser currently classifies the token.  The passes of the
//! parser change the symbol first; [`TokenWithSymbol::transform`] later
//! rebuilds the payload to match it.

use crate::text::{
    char_is_whitespace, char_to_ascii_lowercase, char_to_ascii_uppercase, is_whitespace,
    to_ascii_lowercase, to_ascii_uppercase,
};
use vstd::prelude::*;
use vstd::string::*;

verus! {

/// The symbol of whitespace.
pub const WHITESPACE: char = ' ';

/// The symbol of the comma.
pub const COMMA: char = ',';

/// The symbol of the closing parenthesis.
pub const CLOSE_PAREN: char = ')';

/// The symbol of the opening parenthesis.
pub const OPEN_PAREN: char = '(';

/// The symbol of the range symbols, and the range symbol of the compact
/// text.
pub const RANGE: char = '~';

/// The symbol of identifiers.
pub const IDENTIFIER: char = 'i';

/// The fullwidth form of the range symbol.
pub const FULLWIDTH_RANGE: char = '\u{ff5e}';

/// The dash that is accepted as a range symbol.
pub const DASH: char = '-';

/// What a token holds.
#[derive(PartialEq, Debug)]
pub enum Token {
    Whitespace,
    Comma,
    CloseParen,
    OpenParen,
    Range(char),
    Identifier(String),
}

/// The mathematical value of a [`Token`].
pub enum TokenView {
    Whitespace,
    Comma,
    CloseParen,
    OpenParen,
    Range(char),
    Identifier(Seq<char>),
}

impl TokenView {
    /// The symbol of the class that the payload belongs to by itself.
    pub open spec fn symbol(self) -> char {
        match self {
            TokenView::Whitespace => WHITESPACE,
            TokenView::Comma => COMMA,
            TokenView::CloseParen => CLOSE_PAREN,
            TokenView::OpenParen => OPEN_PAREN,
            TokenView::Range(_) => RANGE,
            TokenView::Identifier(_) => IDENTIFIER,
        }
    }

    /// The text that the payload stands for.
    pub open spec fn text(self) -> Seq<char> {
        match self {
            TokenView::Whitespace => seq![WHITESPACE],
            TokenView::Comma => seq![COMMA],
            TokenView::CloseParen => seq![CLOSE_PAREN],
            TokenView::OpenParen => seq![OPEN_PAREN],
            TokenView::Range(c) => seq![c],
            TokenView::Identifier(s) => s,
        }
    }
}

impl View for Token {
    type V = TokenView;

    open spec fn view(&self) -> TokenView {
        match self {
            Token::Whitespace => TokenView::Whitespace,
            Token::Comma => TokenView::Comma,
            Token::CloseParen => TokenView::CloseParen,
            Token::OpenParen => TokenView::OpenParen,
            Token::Range(c) => TokenView::Range(*c),
            Token::Identifier(s) => TokenView::Identifier(s@),
        }
    }
}

pub fn get_token_symbol(token: &Token) -> (symbol: char)
    ensures
        symbol == token@.symbol(),
{
    match token {
        Token::Whitespace => WHITESPACE,
        Token::Comma => COMMA,
        Token::CloseParen => CLOSE_PAREN,
        Token::OpenParen => OPEN_PAREN,
        Token::Range(_) => RANGE,
        Token::Identifier(_) => IDENTIFIER,
    }
}

impl Token {
    /// The text that the token stands for.
    pub fn to_string(&self) -> (s: String)
        ensures
            s@ == self@.text(),
    {
        let mut s = String::new();
        match self {
            Token::Whitespace => s.push(WHITESPACE),
            Token::Comma => s.push(COMMA),
            Token::CloseParen => s.push(CLOSE_PAREN),
            Token::OpenParen => s.push(OPEN_PAREN),
            Token::Range(c) => s.push(*c),
            Token::Identifier(ident) => s.append(ident.as_str()),
        }
        s
    }

    /// Appends `text` to the identifier that the token holds, and says
    /// whether it holds one.
    fn append(&mut self, text: &str) -> (is_identifier: bool)
        ensures
            is_identifier == old(self)@ is Identifier,
            final(self)@ == match old(self)@ {
                TokenView::Identifier(s) => TokenView::Identifier(s + text@),
                other => other,
            },
    {
        match self {
            Token::Identifier(ident) => {
                ident.append(text);
                true
            },
            _ => false,
        }
    }
}

impl Clone for Token {
    fn clone(&self) -> (t: Self)
        ensures
            t@ == self@,
    {
        match self {
            Token::Whitespace => Token::Whitespace,
            Token::Comma => Token::Comma,
            Token::CloseParen => Token::CloseParen,
            Token::OpenParen => Token::OpenParen,
            Token::Range(c) => Token::Range(*c),
            Token::Identifier(ident) => Token::Identifier(ident.clone()),
        }
    }
}

/// Whether `symbol` names one of the token classes.  The identifier class has
/// two symbols: the upper-case one marks an identifier that stood inside
/// grouping parentheses.  Every whitespace character names the whitespace
/// class.
pub open spec fn is_token_symbol(symbol: char) -> bool {
    let lower = to_ascii_lowercase(symbol);
    ||| lower == COMMA
    ||| lower == CLOSE_PAREN
    ||| lower == OPEN_PAREN
    ||| lower == RANGE
    ||| lower == IDENTIFIER
    ||| is_whitespace(lower)
}

/// The symbol that the class of `symbol` is written with in a freshly made
/// token.
pub open spec fn class_symbol(symbol: char) -> char {
    let lower = to_ascii_lowercase(symbol);
    if is_whitespace(lower) {
        WHITESPACE
    } else {
        lower
    }
}

/// The payload that [`TokenWithSymbol::transform`] gives a token whose symbol
/// no longer names the class of its payload.
pub open spec fn payload_for(symbol: char, token: TokenView) -> TokenView {
    let lower = to_ascii_lowercase(symbol);
    if is_whitespace(lower) {
        TokenView::Whitespace
    } else if lower == COMMA {
        TokenView::Comma
    } else if lower == CLOSE_PAREN {
        TokenView::CloseParen
    } else if lower == OPEN_PAREN {
        TokenView::OpenParen
    } else if lower == RANGE {
        TokenView::Range(RANGE)
    } else {
        TokenView::Identifier(token.text())
    }
}

/// The mathematical value of a [`TokenWithSymbol`].
pub struct Tagged {
    pub symbol: char,
    pub token: TokenView,
}

impl Tagged {
    pub open spec fn is_whitespace(self) -> bool {
        is_whitespace(self.symbol)
    }

    pub open spec fn is_comma(self) -> bool {
        self.symbol == COMMA
    }

    pub open spec fn is_close_paren(self) -> bool {
        self.symbol == CLOSE_PAREN
    }

    pub open spec fn is_open_paren(self) -> bool {
        self.symbol == OPEN_PAREN
    }

    pub open spec fn is_range(self) -> bool {
        self.symbol == RANGE
    }

    pub open spec fn is_identifier(self) -> bool {
        to_ascii_lowercase(self.symbol) == IDENTIFIER
    }

    /// Whether the token is an identifier that stood inside grouping
    /// parentheses.
    pub open spec fn is_parenthesized(self) -> bool {
        self.symbol == to_ascii_uppercase(IDENTIFIER)
    }

    /// The token classified by `symbol`.
    pub open spec fn with_symbol(self, symbol: char) -> Tagged {
        Tagged { symbol, token: self.token }
    }

    /// The token classified as an identifier; an identifier keeps its symbol.
    pub open spec fn as_identifier(self) -> Tagged {
        if self.is_identifier() {
            self
        } else {
            self.with_symbol(IDENTIFIER)
        }
    }

    pub open spec fn as_whitespace(self) -> Tagged {
        self.with_symbol(WHITESPACE)
    }

    pub open spec fn as_comma(self) -> Tagged {
        self.with_symbol(COMMA)
    }

    /// The token marked as standing inside grouping parentheses.  Only the
    /// symbol of an identifier has an upper-case form.
    pub open spec fn parenthesized(self) -> Tagged {
        self.with_symbol(to_ascii_uppercase(self.symbol))
    }

    /// Whether the symbol names the class of the payload.
    pub open spec fn in_sync(self) -> bool {
        class_symbol(self.symbol) == self.token.symbol()
    }

    /// The token with its payload rebuilt from the symbol, where the two
    /// disagree.
    pub open spec fn transformed(self) -> Tagged {
        if self.in_sync() {
            self
        } else {
            Tagged { symbol: self.symbol, token: payload_for(self.symbol, self.token) }
        }
    }

    /// The token with `text` appended to its identifier payload; any other
    /// payload is left as it is.
    pub open spec fn merged(self, text: Seq<char>) -> Tagged {
        match self.token {
            TokenView::Identifier(s) => Tagged {
                symbol: self.symbol,
                token: TokenView::Identifier(s + text),
            },
            _ => self,
        }
    }
}

/// A token together with the symbol of the class that the parser takes it
/// for.
#[derive(PartialEq, Debug)]
pub struct TokenWithSymbol {
    symbol: char,
    token: Token,
}

impl View for TokenWithSymbol {
    type V = Tagged;

    closed spec fn view(&self) -> Tagged {
        Tagged { symbol: self.symbol, token: self.token@ }
    }
}

impl DeepView for TokenWithSymbol {
    type V = Tagged;

    open spec fn deep_view(&self) -> Tagged {
        self@
    }
}

impl TokenWithSymbol {
    #[verifier::type_invariant]
    spec fn well_formed(&self) -> bool {
        is_token_symbol(self.symbol)
    }

    pub fn new(token: Token) -> (t: Self)
        ensures
            t@ == (Tagged { symbol: token@.symbol(), token: token@ }),
    {
        Self { symbol: get_token_symbol(&token), token }
    }

    pub fn symbol(&self) -> (symbol: char)
        ensures
            symbol == self@.symbol,
            is_token_symbol(symbol),
    {
        proof {
            use_type_invariant(self);
        }
        self.symbol
    }

    pub fn token(&self) -> (token: &Token)
        ensures
            token@ == self@.token,
    {
        &self.token
    }

    pub fn is_whitespace(&self) -> (r: bool)
        ensures
            r == self@.is_whitespace(),
    {
        char_is_whitespace(self.symbol)
    }

    pub fn is_comma(&self) -> (r: bool)
        ensures
            r == self@.is_comma(),
    {
        self.symbol == COMMA
    }

    pub fn is_close_paren(&self) -> (r: bool)
        ensures
            r == self@.is_close_paren(),
    {
        self.symbol == CLOSE_PAREN
    }

    pub fn is_open_paren(&self) -> (r: bool)
        ensures
            r == self@.is_open_paren(),
    {
        self.symbol == OPEN_PAREN
    }

    pub fn is_range(&self) -> (r: bool)
        ensures
            r == self@.is_range(),
    {
        self.symbol == RANGE
    }

    pub fn is_identifier(&self) -> (r: bool)
        ensures
            r == self@.is_identifier(),
    {
        char_to_ascii_lowercase(self.symbol) == IDENTIFIER
    }

    /// Whether the token is an identifier that was marked by
    /// [`Self::parenthesize`].
    pub fn is_parenthesized(&self) -> (r: bool)
        ensures
            r == self@.is_parenthesized(),
    {
        self.symbol == char_to_ascii_uppercase(IDENTIFIER)
    }

    pub fn convert_symbol_to_whitespace(&mut self)
        ensures
            final(self)@ == old(self)@.as_whitespace(),
    {
        self.symbol = WHITESPACE;
    }

    pub fn convert_symbol_to_comma(&mut self)
        ensures
            final(self)@ == old(self)@.as_comma(),
    {
        self.symbol = COMMA;
    }

    pub fn convert_symbol_to_identifier(&mut self)
        ensures
            final(self)@ == old(self)@.as_identifier(),
    {
        if !self.is_identifier() {
            self.symbol = IDENTIFIER;
        }
    }

    /// Reclassifies the token; the payload stays as it is.  A symbol that
    /// names no token class is refused and leaves the token unchanged.
    pub fn change_symbol(&mut self, symbol: char) -> (r: Result<(), &'static str>)
        ensures
            is_token_symbol(symbol) ==> r is Ok && final(self)@ == old(self)@.with_symbol(symbol),
            !is_token_symbol(symbol) ==> r is Err && final(self)@ == old(self)@,
            r matches Err(message) ==> message@ == "invalid token symbol"@,
    {
        let lower = char_to_ascii_lowercase(symbol);
        if lower == COMMA || lower == CLOSE_PAREN || lower == OPEN_PAREN || lower == RANGE || lower
            == IDENTIFIER || char_is_whitespace(lower) {
            self.symbol = symbol;
            Ok(())
        } else {
            Err("invalid token symbol")
        }
    }

    pub fn parenthesize(&mut self)
        ensures
            final(self)@ == old(self)@.parenthesized(),
    {
        proof {
            use_type_invariant(&*self);
        }
        self.symbol = char_to_ascii_uppercase(self.symbol);
    }

    /// Rebuilds the payload from the symbol where the two disagree.
    pub fn transform(&mut self)
        ensures
            final(self)@ == old(self)@.transformed(),
            final(self)@.in_sync(),
    {
        proof {
            use_type_invariant(&*self);
        }
        let lower = char_to_ascii_lowercase(self.symbol);
        let whitespace = char_is_whitespace(lower);
        let natural = get_token_symbol(&self.token);
        if (whitespace && natural != WHITESPACE) || (!whitespace && lower != natural) {
            if whitespace {
                self.token = Token::Whitespace;
            } else if lower == COMMA {
                self.token = Token::Comma;
            } else if lower == CLOSE_PAREN {
                self.token = Token::CloseParen;
            } else if lower == OPEN_PAREN {
                self.token = Token::OpenParen;
            } else if lower == RANGE {
                self.token = Token::Range(RANGE);
            } else {
                self.token = Token::Identifier(self.token.to_string());
            }
        }
    }

    /// Appends the text of `other` to the identifier that the token holds.
    /// A token that holds no identifier is left unchanged.
    pub fn merge_token(&mut self, other: &Token) -> (r: Result<(), &'static str>)
        ensures
            r is Ok <==> old(self)@.token is Identifier,
            final(self)@ == old(self)@.merged(other@.text()),
            r matches Err(message) ==> message@ == "only identifiers can be merged"@,
    {
        proof {
            use_type_invariant(&*self);
        }
        let text = other.to_string();
        let mut payload = Token::Whitespace;
        core::mem::swap(&mut self.token, &mut payload);
        let is_identifier = payload.append(text.as_str());
        self.token = payload;
        if is_identifier {
            Ok(())
        } else {
            Err("only identifiers can be merged")
        }
    }
}

} // verus!
