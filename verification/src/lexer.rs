//! The lexer: from characters to raw tokens.
//!
//! Whitespace, the comma, the two parentheses and the range symbols are
//! tokens of one character each.  Every maximal run of other characters is
//! one identifier.

use crate::text::{char_is_whitespace, is_whitespace, trim, trimmed_chars};
use crate::token::{
    Tagged, Token, TokenView, TokenWithSymbol, CLOSE_PAREN, COMMA, DASH, FULLWIDTH_RANGE,
    OPEN_PAREN, RANGE,
};
use vstd::prelude::*;

verus! {

/// The token that the character `c` is by itself, if it is one.
pub open spec fn char_token(c: char) -> Option<TokenView> {
    if is_whitespace(c) {
        Some(TokenView::Whitespace)
    } else if c == COMMA {
        Some(TokenView::Comma)
    } else if c == CLOSE_PAREN {
        Some(TokenView::CloseParen)
    } else if c == OPEN_PAREN {
        Some(TokenView::OpenParen)
    } else if c == RANGE || c == DASH || c == FULLWIDTH_RANGE {
        Some(TokenView::Range(c))
    } else {
        None
    }
}

/// A freshly lexed token: its symbol names the class of its payload.
pub open spec fn fresh(token: TokenView) -> Tagged {
    Tagged { symbol: token.symbol(), token }
}

/// The number of characters at the start of `s` that are no token by
/// themselves.
pub open spec fn identifier_len(s: Seq<char>) -> nat
    decreases s.len(),
{
    if s.len() > 0 && char_token(s[0]) is None {
        1 + identifier_len(s.drop_first())
    } else {
        0
    }
}

/// The number of characters that the first token of `s` takes.
pub open spec fn first_token_len(s: Seq<char>) -> nat {
    if s.len() == 0 {
        0
    } else if char_token(s[0]) is Some {
        1
    } else {
        identifier_len(s)
    }
}

/// The first token of `s`; `s` is not empty.
pub open spec fn first_token(s: Seq<char>) -> TokenView {
    match char_token(s[0]) {
        Some(token) => token,
        None => TokenView::Identifier(s.take(identifier_len(s) as int)),
    }
}

/// The tokens of `s`.
pub open spec fn tokens_of(s: Seq<char>) -> Seq<Tagged>
    decreases s.len(),
{
    if s.len() == 0 {
        Seq::empty()
    } else {
        let n = first_token_len(s);
        if 0 < n <= s.len() {
            seq![fresh(first_token(s))] + tokens_of(s.skip(n as int))
        } else {
            Seq::empty()
        }
    }
}

/// An identifier run is as long as the characters allow: it ends at the end
/// of the text or in front of a character that is a token by itself.
pub proof fn lemma_identifier_len(s: Seq<char>)
    ensures
        identifier_len(s) <= s.len(),
        forall|i: int| 0 <= i < identifier_len(s) ==> char_token(#[trigger] s[i]) is None,
        identifier_len(s) < s.len() ==> char_token(s[identifier_len(s) as int]) is Some,
    decreases s.len(),
{
    if s.len() > 0 && char_token(s[0]) is None {
        let rest = s.drop_first();
        lemma_identifier_len(rest);
        assert forall|i: int| 0 <= i < identifier_len(s) implies char_token(#[trigger] s[i])
            is None by {
            if i > 0 {
                assert(s[i] == rest[i - 1]);
            }
        }
        if identifier_len(s) < s.len() {
            assert(s[identifier_len(s) as int] == rest[identifier_len(rest) as int]);
        }
    }
}

/// A run of `k` characters that are no tokens, followed by the end of the
/// text or by a token character, is the identifier run of `s`.
pub proof fn lemma_identifier_len_is(s: Seq<char>, k: int)
    requires
        0 <= k <= s.len(),
        forall|i: int| 0 <= i < k ==> char_token(#[trigger] s[i]) is None,
        k < s.len() ==> char_token(s[k]) is Some,
    ensures
        identifier_len(s) == k,
    decreases k,
{
    if k > 0 {
        let rest = s.drop_first();
        assert forall|i: int| 0 <= i < k - 1 implies char_token(#[trigger] rest[i]) is None by {
            assert(rest[i] == s[i + 1]);
        }
        lemma_identifier_len_is(rest, k - 1);
    }
}

/// The first token of a text that is not empty takes at least one character
/// and no more than there are.
pub proof fn lemma_first_token_len(s: Seq<char>)
    requires
        s.len() > 0,
    ensures
        0 < first_token_len(s) <= s.len(),
{
    lemma_identifier_len(s);
}

/// The tokens of a text that is not empty are its first token and the tokens
/// of what follows it.
pub proof fn lemma_tokens_of(s: Seq<char>)
    requires
        s.len() > 0,
    ensures
        0 < first_token_len(s) <= s.len(),
        tokens_of(s) == seq![fresh(first_token(s))] + tokens_of(s.skip(first_token_len(s) as int)),
{
    lemma_first_token_len(s);
}

/// The token that the character `c` is by itself, if it is one.
pub fn get_char_token(c: char) -> (r: Option<TokenWithSymbol>)
    ensures
        match char_token(c) {
            Some(token) => r is Some && r->0@ == fresh(token),
            None => r is None,
        },
{
    if char_is_whitespace(c) {
        Some(TokenWithSymbol::new(Token::Whitespace))
    } else if c == COMMA {
        Some(TokenWithSymbol::new(Token::Comma))
    } else if c == CLOSE_PAREN {
        Some(TokenWithSymbol::new(Token::CloseParen))
    } else if c == OPEN_PAREN {
        Some(TokenWithSymbol::new(Token::OpenParen))
    } else if c == RANGE || c == DASH || c == FULLWIDTH_RANGE {
        Some(TokenWithSymbol::new(Token::Range(c)))
    } else {
        None
    }
}

/// A lexer over a text.  Its value is the part of the text that it has not
/// turned into tokens yet.
pub struct Lexer {
    chars: Vec<char>,
    position: usize,
}

impl View for Lexer {
    type V = Seq<char>;

    closed spec fn view(&self) -> Seq<char> {
        self.chars@.skip(self.position as int)
    }
}

impl Lexer {
    #[verifier::type_invariant]
    spec fn well_formed(&self) -> bool {
        self.position <= self.chars@.len()
    }

    /// A lexer over `input` without its surrounding whitespace.
    pub fn new(input: &str) -> (lexer: Lexer)
        ensures
            lexer@ == trim(input@),
    {
        let chars = trimmed_chars(input);
        assert(chars@.skip(0) == chars@);
        Lexer { chars, position: 0 }
    }

    /// The next token, or `None` at the end of the text.
    pub fn token(&mut self) -> (r: Option<TokenWithSymbol>)
        ensures
            old(self)@.len() == 0 ==> r is None && final(self)@ == old(self)@,
            old(self)@.len() > 0 ==> r is Some && r->0@ == fresh(first_token(old(self)@))
                && final(self)@ == old(self)@.skip(first_token_len(old(self)@) as int),
    {
        proof {
            use_type_invariant(&*self);
        }
        if self.position >= self.chars.len() {
            return None;
        }
        let ghost rest = self@;
        let start = self.position;
        let c = self.chars[start];
        assert(rest[0] == c);
        let single = get_char_token(c);
        if single.is_some() {
            self.position = start + 1;
            assert(self@ == rest.skip(1));
            return single;
        }
        let mut ident = String::new();
        let mut end = start;
        while end < self.chars.len() && get_char_token(self.chars[end]).is_none()
            invariant
                start <= end <= self.chars@.len(),
                self.position == start,
                rest == self.chars@.skip(start as int),
                ident@ == self.chars@.subrange(start as int, end as int),
                forall|i: int| 0 <= i < end - start ==> char_token(#[trigger] rest[i]) is None,
            decreases self.chars@.len() - end,
        {
            ident.push(self.chars[end]);
            assert(self.chars@.subrange(start as int, end + 1) == self.chars@.subrange(
                start as int,
                end as int,
            ).push(self.chars@[end as int]));
            assert(rest[end - start] == self.chars@[end as int]);
            end += 1;
        }
        proof {
            if end < self.chars@.len() {
                assert(rest[end - start] == self.chars@[end as int]);
            }
            lemma_identifier_len_is(rest, end - start);
            assert(rest.take(end - start) == ident@);
            assert(self.chars@.skip(end as int) == rest.skip(end - start));
        }
        self.position = end;
        Some(TokenWithSymbol::new(Token::Identifier(ident)))
    }
}

} // verus!
