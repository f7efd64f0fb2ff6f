//! The parser: from a free-form text to the designators that it names.
//!
//! The text is lexed, the raw tokens are brought into canonical form by the
//! passes of [`crate::passes`], and the canonical tokens are turned into
//! designators.  Nothing a text can hold makes the parser fail: what cannot be
//! read as a separator, a group or a range is read as a part of a designator.

use crate::designator::DesignatorView;
use crate::lexer::{lemma_tokens_of, tokens_of, Lexer};
use crate::materialize::{convert_to_designators, materialized};
use crate::passes::{
    absorb_inline, convert_prefix_notation, group, lemma_move_head, prefix_notation,
    put_in_parentheses, rebuild, rebuilt, replace_inline_parentheses, replace_invalid_parentheses,
    replace_invalid_range_symbols, replace_whitespace_to_comma, sanitize_parentheses,
    sanitize_ranges, separate,
};
use crate::token::{Tagged, TokenWithSymbol};
use vstd::prelude::*;

verus! {

/// Whether the token separates designators.
pub open spec fn is_separator(t: Tagged) -> bool {
    t.is_whitespace() || t.is_comma()
}

/// `ts` without the separators at its start.
pub open spec fn skip_separators(ts: Seq<Tagged>) -> Seq<Tagged>
    decreases ts.len(),
{
    if ts.len() > 0 && is_separator(ts[0]) {
        skip_separators(ts.drop_first())
    } else {
        ts
    }
}

/// The separator that stands for a run of separators of which `pending`
/// stands for those seen so far and `t` is the next: a comma wins over
/// whitespace, and the first whitespace over later ones.
pub open spec fn merged_separator(pending: Option<Tagged>, t: Tagged) -> Option<Tagged> {
    if t.is_whitespace() && pending is Some {
        pending
    } else {
        Some(t)
    }
}

/// The tokens of `ts` with every run of separators made one separator, where
/// `pending` stands for the separators in front of `ts`.  Separators at the
/// end are dropped.
pub open spec fn collapse_separators(ts: Seq<Tagged>, pending: Option<Tagged>) -> Seq<Tagged>
    decreases ts.len(),
{
    if ts.len() == 0 {
        Seq::empty()
    } else if is_separator(ts[0]) {
        collapse_separators(ts.drop_first(), merged_separator(pending, ts[0]))
    } else {
        let head = match pending {
            Some(p) => seq![p, ts[0]],
            None => seq![ts[0]],
        };
        head + collapse_separators(ts.drop_first(), None)
    }
}

/// The raw tokens of `text`: its tokens without the separators at the start
/// and the end, and with one separator for every run of them.
pub open spec fn raw_tokens(text: Seq<char>) -> Seq<Tagged> {
    let ts = skip_separators(tokens_of(text));
    if ts.len() == 0 {
        Seq::empty()
    } else {
        seq![ts[0]] + collapse_separators(ts.drop_first(), None)
    }
}

/// The canonical tokens of `text`: its raw tokens after all passes.
pub open spec fn canonical_tokens(text: Seq<char>) -> Seq<Tagged> {
    prefix_notation(
        rebuilt(
            sanitize_ranges(
                separate(group(sanitize_parentheses(absorb_inline(raw_tokens(text))))),
            ),
        ),
    )
}

/// The designators that `text` names, in the order in which it names them.
pub open spec fn parsed_designators(text: Seq<char>) -> Seq<DesignatorView> {
    materialized(canonical_tokens(text))
}

/// The texts of the designators that `text` names.
pub open spec fn parsed_texts(text: Seq<char>) -> Seq<Seq<char>> {
    parsed_designators(text).map_values(|d: DesignatorView| d.text())
}

/// The value of a token that may be missing.
pub open spec fn value_of(token: Option<TokenWithSymbol>) -> Option<Tagged> {
    match token {
        Some(t) => Some(t@),
        None => None,
    }
}

/// The designators that `input` names, each as its text, in the order in
/// which `input` names them.
pub fn parse(input: &str) -> (designators: Vec<String>)
    ensures
        designators.deep_view() == parsed_texts(crate::text::trim(input@)),
{
    let mut parser = Parser::new(input);
    parser.parse()
}

/// A parser over a text.  Its value is the part of the text that it has not
/// read yet.
pub struct Parser {
    lexer: Lexer,
}

impl View for Parser {
    type V = Seq<char>;

    closed spec fn view(&self) -> Seq<char> {
        self.lexer@
    }
}

impl Parser {
    /// A parser over `input` without its surrounding whitespace.
    pub fn new(input: &str) -> (parser: Self)
        ensures
            parser@ == crate::text::trim(input@),
    {
        Self { lexer: Lexer::new(input) }
    }

    /// The designators that the text names, each as its text, in the order in
    /// which the text names them.  Nothing is left to read afterwards.
    pub fn parse(&mut self) -> (designators: Vec<String>)
        ensures
            designators.deep_view() == parsed_texts(old(self)@),
            final(self)@.len() == 0,
    {
        let ghost text = self@;
        let mut tokens: Vec<TokenWithSymbol> = Vec::new();
        match self.skip_start() {
            Some(token) => {
                tokens.push(token);
            },
            None => {},
        }
        let ghost first = tokens.deep_view();
        let mut rest = self.read();
        let ghost others = rest.deep_view();
        tokens.append(&mut rest);
        proof {
            assert(tokens.deep_view() =~= first + others);
            assert(tokens.deep_view() =~= raw_tokens(text));
        }
        replace_inline_parentheses(&mut tokens);
        replace_invalid_parentheses(&mut tokens);
        put_in_parentheses(&mut tokens);
        replace_whitespace_to_comma(&mut tokens);
        replace_invalid_range_symbols(&mut tokens);
        let mut tokens = rebuild(tokens);
        convert_prefix_notation(&mut tokens);
        let designators = convert_to_designators(tokens);
        let mut texts: Vec<String> = Vec::new();
        let mut i: usize = 0;
        while i < designators.len()
            invariant
                i <= designators.len(),
                texts.deep_view() == designators.deep_view().take(i as int).map_values(
                    |d: DesignatorView| d.text(),
                ),
            decreases designators.len() - i,
        {
            let ghost before = texts.deep_view();
            texts.push(designators[i].to_string());
            assert(texts.deep_view() =~= before.push(designators.deep_view()[i as int].text()));
            i += 1;
            assert(texts.deep_view() =~= designators.deep_view().take(i as int).map_values(
                |d: DesignatorView| d.text(),
            ));
        }
        assert(designators.deep_view().take(designators.len() as int) == designators.deep_view());
        texts
    }

    /// The first token that is no separator, if there is one.
    fn skip_start(&mut self) -> (r: Option<TokenWithSymbol>)
        ensures
            match r {
                Some(token) => {
                    let ts = skip_separators(tokens_of(old(self)@));
                    ts.len() > 0 && token@ == ts[0] && tokens_of(final(self)@) == ts.drop_first()
                },
                None => skip_separators(tokens_of(old(self)@)).len() == 0 && final(self)@.len()
                    == 0,
            },
    {
        loop
            invariant
                skip_separators(tokens_of(self@)) == skip_separators(tokens_of(old(self)@)),
            decreases self@.len(),
        {
            let ghost text = self.lexer@;
            proof {
                if text.len() > 0 {
                    lemma_tokens_of(text);
                    let ts = tokens_of(text);
                    assert(ts.drop_first() =~= tokens_of(
                        text.skip(crate::lexer::first_token_len(text) as int),
                    ));
                }
            }
            match self.lexer.token() {
                Some(token) => {
                    if token.is_whitespace() || token.is_comma() {
                    } else {
                        return Some(token);
                    }
                },
                None => {
                    return None;
                },
            }
        }
    }

    /// The tokens that are left, with one separator for every run of
    /// separators and none at the end.
    fn read(&mut self) -> (tokens: Vec<TokenWithSymbol>)
        ensures
            tokens.deep_view() == collapse_separators(tokens_of(old(self)@), None),
            final(self)@.len() == 0,
    {
        let ghost given = tokens_of(self@);
        let mut tokens: Vec<TokenWithSymbol> = Vec::new();
        let mut separator: Option<TokenWithSymbol> = None;
        proof {
            assert(tokens.deep_view() + collapse_separators(given, None) =~= collapse_separators(
                given,
                None,
            ));
        }
        loop
            invariant
                tokens.deep_view() + collapse_separators(tokens_of(self@), value_of(separator))
                    == collapse_separators(given, None),
            ensures
                tokens.deep_view() == collapse_separators(given, None),
                self@.len() == 0,
            decreases self@.len(),
        {
            let ghost text = self.lexer@;
            let ghost done = tokens.deep_view();
            let ghost pending = value_of(separator);
            proof {
                if text.len() > 0 {
                    lemma_tokens_of(text);
                    let ts = tokens_of(text);
                    assert(ts.drop_first() =~= tokens_of(
                        text.skip(crate::lexer::first_token_len(text) as int),
                    ));
                } else {
                    assert(done + Seq::<Tagged>::empty() =~= done);
                }
            }
            match self.lexer.token() {
                Some(token) => {
                    if token.is_whitespace() {
                        if separator.is_none() {
                            separator = Some(token);
                        }
                    } else if token.is_comma() {
                        separator = Some(token);
                    } else {
                        let ghost t = token@;
                        let ghost tail = collapse_separators(tokens_of(self@), None);
                        match separator {
                            Some(s) => {
                                tokens.push(s);
                                tokens.push(token);
                                proof {
                                    let p = pending->0;
                                    assert(tokens.deep_view() =~= done.push(p).push(t));
                                    assert(done.push(p).push(t) + tail =~= done + (seq![p, t]
                                        + tail));
                                }
                            },
                            None => {
                                tokens.push(token);
                                proof {
                                    assert(tokens.deep_view() =~= done.push(t));
                                    lemma_move_head(done, t, tail);
                                }
                            },
                        }
                        separator = None;
                    }
                },
                None => {
                    break ;
                },
            }
        }
        tokens
    }
}

} // verus!
