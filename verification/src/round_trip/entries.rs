//! The entries of a compact text: what stands between its commas.
//!
//! An entry is the text of one designator, or the texts of the two ends of a
//! range.  This file holds the text and the tokens of a list of entries, and
//! shows that the lexer reads the one as the other.

use crate::builder::{joined, label, run_text, runs_text, Run};
use crate::designator::DesignatorView;
use crate::lexer::{char_token, fresh, lemma_identifier_len_is, lemma_tokens_of, tokens_of};
use crate::round_trip::regular::is_solid_text;
use crate::text::{is_whitespace, to_ascii_uppercase};
use crate::token::{Tagged, TokenView, COMMA, IDENTIFIER, RANGE};
use vstd::prelude::*;

verus! {

/// One entry: the text of a designator, and that of the end of the range
/// which begins with it, if it begins one.
pub struct Entry {
    pub first: Seq<char>,
    pub last: Option<Seq<char>>,
}

/// An identifier token; `marked` says whether it stands in parentheses.
pub open spec fn identifier(text: Seq<char>, marked: bool) -> Tagged {
    Tagged {
        symbol: if marked {
            to_ascii_uppercase(IDENTIFIER)
        } else {
            IDENTIFIER
        },
        token: TokenView::Identifier(text),
    }
}

/// A comma as the lexer gives it.
pub open spec fn comma() -> Tagged {
    fresh(TokenView::Comma)
}

/// The range symbol of the compact text as the lexer gives it.
pub open spec fn range_symbol() -> Tagged {
    fresh(TokenView::Range(RANGE))
}

/// Whether the texts of the entry are not empty and hold no character that
/// is a token by itself.
pub open spec fn is_solid_entry(e: Entry) -> bool {
    &&& e.first.len() > 0
    &&& is_solid_text(e.first)
    &&& e.last matches Some(l) ==> l.len() > 0 && is_solid_text(l)
}

/// Whether every entry of `es` is solid.
pub open spec fn are_solid_entries(es: Seq<Entry>) -> bool {
    forall|i: int| 0 <= i < es.len() ==> is_solid_entry(#[trigger] es[i])
}

/// The text of an entry.
pub open spec fn entry_text(e: Entry) -> Seq<char> {
    match e.last {
        Some(l) => e.first + seq![RANGE] + l,
        None => e.first,
    }
}

/// The tokens of an entry as it is written.
pub open spec fn entry_tokens(e: Entry, marked: bool) -> Seq<Tagged> {
    match e.last {
        Some(l) => seq![identifier(e.first, marked), range_symbol(), identifier(l, marked)],
        None => seq![identifier(e.first, marked)],
    }
}

/// The texts of the entries with commas between them.
pub open spec fn entries_text(es: Seq<Entry>) -> Seq<char>
    decreases es.len(),
{
    if es.len() == 0 {
        Seq::empty()
    } else {
        joined(entries_text(es.drop_last()), seq![COMMA], entry_text(es.last()))
    }
}

/// The tokens of the entries with commas between them.
pub open spec fn entries_tokens(es: Seq<Entry>, marked: bool) -> Seq<Tagged>
    decreases es.len(),
{
    if es.len() == 0 {
        Seq::empty()
    } else if es.len() == 1 {
        entry_tokens(es[0], marked)
    } else {
        entries_tokens(es.drop_last(), marked) + seq![comma()] + entry_tokens(es.last(), marked)
    }
}

/// Whether `rest` can follow a text without changing its last token: it is
/// empty or begins with a character that is a token by itself.
pub open spec fn is_apart(rest: Seq<char>) -> bool {
    rest.len() == 0 || char_token(rest[0]) is Some
}

/// A character that is a token by itself is read as that token.
pub proof fn lemma_lex_symbol(c: char, rest: Seq<char>)
    requires
        char_token(c) is Some,
    ensures
        tokens_of(seq![c] + rest) == seq![fresh(char_token(c)->0)] + tokens_of(rest),
{
    let s = seq![c] + rest;
    lemma_tokens_of(s);
    assert(s.skip(1) =~= rest);
}

/// A text of which no character is a token by itself is read as one
/// identifier where nothing behind it can belong to it.
pub proof fn lemma_lex_identifier(text: Seq<char>, rest: Seq<char>)
    requires
        text.len() > 0,
        is_solid_text(text),
        is_apart(rest),
    ensures
        tokens_of(text + rest) == seq![identifier(text, false)] + tokens_of(rest),
{
    let s = text + rest;
    assert forall|i: int| 0 <= i < text.len() implies char_token(#[trigger] s[i]) is None by {
        assert(s[i] == text[i]);
    }
    if rest.len() > 0 {
        assert(s[text.len() as int] == rest[0]);
    }
    lemma_identifier_len_is(s, text.len() as int);
    lemma_tokens_of(s);
    assert(s.skip(text.len() as int) =~= rest);
    assert(s.take(text.len() as int) =~= text);
}

/// The text of an entry is read as its tokens.
pub proof fn lemma_lex_entry(e: Entry, rest: Seq<char>)
    requires
        is_solid_entry(e),
        is_apart(rest),
    ensures
        tokens_of(entry_text(e) + rest) == entry_tokens(e, false) + tokens_of(rest),
{
    match e.last {
        Some(l) => {
            let tail = seq![RANGE] + (l + rest);
            assert(entry_text(e) + rest =~= e.first + tail);
            lemma_lex_identifier(e.first, tail);
            lemma_lex_symbol(RANGE, l + rest);
            lemma_lex_identifier(l, rest);
            assert(entry_tokens(e, false) + tokens_of(rest) =~= seq![identifier(e.first, false)]
                + (seq![range_symbol()] + (seq![identifier(l, false)] + tokens_of(rest))));
        },
        None => {
            lemma_lex_identifier(e.first, rest);
        },
    }
}

/// The text of a list of entries is not empty, holds no whitespace and
/// begins with no token character.
pub proof fn lemma_entries_text(es: Seq<Entry>)
    requires
        es.len() > 0,
        are_solid_entries(es),
    ensures
        entries_text(es).len() > 0,
        forall|i: int| 0 <= i < entries_text(es).len() ==> !is_whitespace(
            #[trigger] entries_text(es)[i],
        ),
        entries_text(es) == if es.len() == 1 {
            entry_text(es.last())
        } else {
            entries_text(es.drop_last()) + seq![COMMA] + entry_text(es.last())
        },
    decreases es.len(),
{
    let e = es.last();
    assert(is_solid_entry(e));
    let own = entry_text(e);
    assert forall|i: int| 0 <= i < own.len() implies !is_whitespace(#[trigger] own[i]) by {
        match e.last {
            Some(l) => {
                if i < e.first.len() {
                    assert(char_token(e.first[i]) is None);
                } else if i > e.first.len() {
                    assert(char_token(l[i - e.first.len() - 1]) is None);
                }
            },
            None => {
                assert(char_token(e.first[i]) is None);
            },
        }
    }
    if es.len() > 1 {
        let front = es.drop_last();
        assert(are_solid_entries(front));
        lemma_entries_text(front);
        let all = entries_text(es);
        assert(all == entries_text(front) + seq![COMMA] + own);
        assert forall|i: int| 0 <= i < all.len() implies !is_whitespace(#[trigger] all[i]) by {
            let n = entries_text(front).len();
            if i < n {
                assert(all[i] == entries_text(front)[i]);
            } else if i > n {
                assert(all[i] == own[i - n - 1]);
            }
        }
    } else {
        assert(es.drop_last().len() == 0);
        assert(entries_text(es.drop_last()).len() == 0);
        assert(entries_text(es) == own);
    }
}

/// The text of a list of entries is read as its tokens.
pub proof fn lemma_lex_entries(es: Seq<Entry>, rest: Seq<char>)
    requires
        es.len() > 0,
        are_solid_entries(es),
        is_apart(rest),
    ensures
        tokens_of(entries_text(es) + rest) == entries_tokens(es, false) + tokens_of(rest),
    decreases es.len(),
{
    let e = es.last();
    assert(is_solid_entry(e));
    lemma_entries_text(es);
    if es.len() == 1 {
        lemma_lex_entry(e, rest);
    } else {
        let front = es.drop_last();
        assert(are_solid_entries(front));
        let tail = seq![COMMA] + (entry_text(e) + rest);
        assert(entries_text(es) + rest =~= entries_text(front) + tail);
        lemma_lex_entries(front, tail);
        lemma_lex_symbol(COMMA, entry_text(e) + rest);
        lemma_lex_entry(e, rest);
        assert(entries_tokens(es, false) + tokens_of(rest) =~= entries_tokens(front, false) + (
        seq![comma()] + (entry_tokens(e, false) + tokens_of(rest))));
    }
}

/// The entries of one run: each of up to two designators by itself, three and
/// more as a range.
pub open spec fn run_entries(sorted: Seq<DesignatorView>, run: Run) -> Seq<Entry> {
    if run.end - run.start <= 1 {
        seq![Entry { first: label(sorted, run.start), last: None }]
    } else if run.end - run.start == 2 {
        seq![
            Entry { first: label(sorted, run.start), last: None },
            Entry { first: label(sorted, run.start + 1), last: None },
        ]
    } else {
        seq![Entry { first: label(sorted, run.start), last: Some(label(sorted, run.end - 1)) }]
    }
}

/// The entries of the runs `runs`.
pub open spec fn runs_entries(sorted: Seq<DesignatorView>, runs: Seq<Run>) -> Seq<Entry>
    decreases runs.len(),
{
    if runs.len() == 0 {
        Seq::empty()
    } else {
        runs_entries(sorted, runs.drop_last()) + run_entries(sorted, runs.last())
    }
}

/// The text of runs is the text of their entries, where these are solid.
pub proof fn lemma_runs_text(sorted: Seq<DesignatorView>, runs: Seq<Run>)
    requires
        forall|k: int| 0 <= k < runs.len() ==> are_solid_entries(
            run_entries(sorted, #[trigger] runs[k]),
        ),
    ensures
        runs_text(sorted, runs) == entries_text(runs_entries(sorted, runs)),
        are_solid_entries(runs_entries(sorted, runs)),
        runs.len() > 0 ==> runs_entries(sorted, runs).len() > 0,
    decreases runs.len(),
{
    if runs.len() > 0 {
        let front = runs.drop_last();
        let run = runs.last();
        assert forall|k: int| 0 <= k < front.len() implies are_solid_entries(
            run_entries(sorted, #[trigger] front[k]),
        ) by {
            assert(front[k] == runs[k]);
        }
        lemma_runs_text(sorted, front);
        let before = runs_entries(sorted, front);
        let own = run_entries(sorted, run);
        let all = before + own;
        assert(are_solid_entries(own));
        assert forall|i: int| 0 <= i < all.len() implies is_solid_entry(#[trigger] all[i]) by {
            if i < before.len() {
                assert(all[i] == before[i]);
            } else {
                assert(all[i] == own[i - before.len()]);
            }
        }
        if before.len() > 0 {
            lemma_entries_text(before);
        }
        if own.len() == 1 {
            assert(all.drop_last() =~= before);
            assert(entry_text(own[0]) == run_text(sorted, run));
        } else {
            let first = own[0];
            let second = own[1];
            assert(is_solid_entry(first));
            assert(all.drop_last() =~= before.push(first));
            assert(all.drop_last().drop_last() =~= before);
            assert(all.drop_last().last() == first);
            assert(all.last() == second);
            assert(run_text(sorted, run) == entry_text(first) + seq![COMMA] + entry_text(second));
            let shorter = entries_text(all.drop_last());
            assert(shorter == joined(entries_text(before), seq![COMMA], entry_text(first)));
            assert(entry_text(first).len() > 0);
            assert(shorter.len() > 0);
            assert(entries_text(all) == shorter + seq![COMMA] + entry_text(second));
            assert(entries_text(all) =~= joined(
                entries_text(before),
                seq![COMMA],
                run_text(sorted, run),
            ));
        }
    }
}

} // verus!
