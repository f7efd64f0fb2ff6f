//! What the parser reads a compact text as, before its passes: the stream
//! of [`crate::round_trip::stream`].

use crate::builder::{joined, LINE_BREAK};
use crate::round_trip::canonical::{
    has_single_commas, lemma_entries_tokens, lemma_entries_tokens_commas,
};
use crate::round_trip::entries::{
    are_solid_entries, comma, entries_text, entries_tokens, lemma_entries_text, lemma_lex_entries,
    lemma_lex_symbol, Entry,
};
use crate::lexer::{fresh, tokens_of};
use crate::parser::{collapse_separators, is_separator, raw_tokens, skip_separators};
use crate::round_trip::stream::{are_solid, close_paren, is_solid_token, open_paren, stream};
use crate::text::{is_whitespace, trim, trim_end, trim_start};
use crate::token::{Tagged, TokenView, CLOSE_PAREN, COMMA, OPEN_PAREN};
use vstd::prelude::*;

verus! {

/// The compact text of two lists of entries, of which the second one stands
/// in parentheses: the text of [`crate::builder::build_text`], put together
/// from entries.
pub open spec fn compact_text(plain: Seq<Entry>, wrapped: Seq<Entry>) -> Seq<char> {
    if wrapped.len() > 0 {
        joined(
            entries_text(plain),
            seq![COMMA, LINE_BREAK],
            seq![OPEN_PAREN] + entries_text(wrapped) + seq![CLOSE_PAREN],
        )
    } else {
        entries_text(plain)
    }
}

/// Whitespace as the lexer gives it.
pub open spec fn whitespace() -> Tagged {
    fresh(TokenView::Whitespace)
}

/// The tokens of a compact text.
pub open spec fn lexed_stream(plain: Seq<Tagged>, wrapped: Seq<Tagged>) -> Seq<Tagged> {
    if wrapped.len() > 0 {
        (if plain.len() > 0 {
            plain + seq![comma(), whitespace()]
        } else {
            plain
        }) + seq![open_paren()] + wrapped + seq![close_paren()]
    } else {
        plain
    }
}

/// The lexer reads a compact text as the tokens of its entries, with those
/// of the second list in parentheses behind a comma and whitespace.
pub proof fn lemma_lex_compact(plain: Seq<Entry>, wrapped: Seq<Entry>)
    requires
        are_solid_entries(plain),
        are_solid_entries(wrapped),
    ensures
        tokens_of(compact_text(plain, wrapped)) == lexed_stream(
            entries_tokens(plain, false),
            entries_tokens(wrapped, false),
        ),
{
    let a = entries_tokens(plain, false);
    let b = entries_tokens(wrapped, false);
    let none = Seq::<char>::empty();
    let nothing = Seq::<Tagged>::empty();
    let text = compact_text(plain, wrapped);
    lemma_entries_tokens(plain, false);
    lemma_entries_tokens(wrapped, false);
    if wrapped.len() > 0 {
        let closing = seq![CLOSE_PAREN] + none;
        lemma_lex_symbol(CLOSE_PAREN, none);
        assert(tokens_of(closing) == seq![close_paren()] + nothing);
        lemma_lex_entries(wrapped, closing);
        let inner = entries_text(wrapped) + closing;
        lemma_lex_symbol(OPEN_PAREN, inner);
        let group = seq![OPEN_PAREN] + inner;
        assert(group =~= seq![OPEN_PAREN] + entries_text(wrapped) + seq![CLOSE_PAREN]);
        let group_lexed = seq![open_paren()] + (b + (seq![close_paren()] + nothing));
        assert(tokens_of(group) == group_lexed);
        if plain.len() > 0 {
            lemma_entries_text(plain);
            let broken = seq![LINE_BREAK] + group;
            lemma_lex_symbol(LINE_BREAK, group);
            let behind = seq![COMMA] + broken;
            lemma_lex_symbol(COMMA, broken);
            lemma_lex_entries(plain, behind);
            assert(text =~= entries_text(plain) + behind);
            assert(lexed_stream(a, b) =~= a + (seq![comma()] + (seq![whitespace()]
                + group_lexed)));
        } else {
            assert(entries_text(plain).len() == 0);
            assert(text == group);
            assert(lexed_stream(a, b) =~= group_lexed);
        }
    } else {
        if plain.len() > 0 {
            lemma_lex_entries(plain, none);
            assert(entries_text(plain) + none =~= entries_text(plain));
            assert(a + nothing =~= a);
        } else {
            assert(entries_text(plain).len() == 0);
            assert(text =~= none);
        }
    }
}

/// Solid tokens of which every comma is followed by a token that is none are
/// left as they are where runs of separators are made one.
pub proof fn lemma_collapse_solid(xs: Seq<Tagged>, tail: Seq<Tagged>, pending: Option<Tagged>)
    requires
        are_solid(xs),
        has_single_commas(xs),
        xs.len() > 0,
        pending is Some ==> !xs[0].is_comma(),
    ensures
        collapse_separators(xs + tail, pending) == (match pending {
            Some(p) => seq![p],
            None => Seq::empty(),
        }) + xs + collapse_separators(tail, None),
    decreases xs.len(),
{
    let x = xs[0];
    let rest = xs.drop_first();
    let all = xs + tail;
    let then = collapse_separators(tail, None);
    assert(is_solid_token(x));
    assert(all[0] == x);
    assert(all.drop_first() =~= rest + tail);
    assert(are_solid(rest)) by {
        assert forall|i: int| 0 <= i < rest.len() implies is_solid_token(#[trigger] rest[i]) by {
            assert(rest[i] == xs[i + 1]);
        }
    }
    assert(has_single_commas(rest)) by {
        assert forall|i: int| 0 <= i < rest.len() && (#[trigger] rest[i]).is_comma() implies i
            + 1 < rest.len() by {
            assert(rest[i] == xs[i + 1]);
            assert(xs[i + 1].is_comma());
        }
        assert forall|i: int, j: int|
            0 <= i && j == i + 1 && j < rest.len() && (#[trigger] rest[i]).is_comma() implies !(
            #[trigger] rest[j]).is_comma() by {
            assert(rest[i] == xs[i + 1]);
            assert(rest[j] == xs[j + 1]);
            assert(xs[i + 1].is_comma());
        }
    }
    if x.is_comma() {
        assert(rest.len() > 0 && !rest[0].is_comma()) by {
            assert(xs[0].is_comma());
            assert(rest[0] == xs[1]);
        }
        lemma_collapse_solid(rest, tail, Some(x));
        assert(seq![x] + rest + then =~= Seq::<Tagged>::empty() + xs + then);
    } else {
        let head = match pending {
            Some(p) => seq![p, x],
            None => seq![x],
        };
        let front = match pending {
            Some(p) => seq![p],
            None => Seq::<Tagged>::empty(),
        };
        if rest.len() > 0 {
            lemma_collapse_solid(rest, tail, None);
            assert(head + (Seq::<Tagged>::empty() + rest + then) =~= front + xs + then);
        } else {
            assert(rest + tail =~= tail);
            assert(head + then =~= front + xs + then);
        }
    }
}

/// The raw tokens of a compact text are the stream of its entries: the
/// whitespace behind the comma in front of the parentheses is gone.
pub proof fn lemma_raw_compact(plain: Seq<Entry>, wrapped: Seq<Entry>)
    requires
        are_solid_entries(plain),
        are_solid_entries(wrapped),
    ensures
        raw_tokens(compact_text(plain, wrapped)) == stream(
            entries_tokens(plain, false),
            open_paren(),
            entries_tokens(wrapped, false),
            close_paren(),
        ),
{
    let a = entries_tokens(plain, false);
    let b = entries_tokens(wrapped, false);
    let nothing = Seq::<Tagged>::empty();
    let text = compact_text(plain, wrapped);
    let ts = lexed_stream(a, b);
    let wanted = stream(a, open_paren(), b, close_paren());
    lemma_lex_compact(plain, wrapped);
    lemma_entries_tokens(plain, false);
    lemma_entries_tokens(wrapped, false);
    lemma_entries_tokens_commas(plain, false);
    lemma_entries_tokens_commas(wrapped, false);
    assert(collapse_separators(nothing, None) =~= nothing);
    if ts.len() > 0 {
        assert(!is_separator(ts[0])) by {
            if a.len() > 0 {
                assert(ts[0] == a[0]);
            } else {
                assert(ts[0] == open_paren());
            }
        }
        assert(skip_separators(ts) == ts);
        assert(raw_tokens(text) == collapse_separators(ts, None));
        if wrapped.len() > 0 {
            let closing = seq![close_paren()];
            assert(closing.drop_first() =~= nothing);
            assert(collapse_separators(closing, None) =~= closing);
            lemma_collapse_solid(b, closing, None);
            let group = seq![open_paren()] + (b + closing);
            assert(group.drop_first() =~= b + closing);
            assert(collapse_separators(group, None) =~= group);
            if plain.len() > 0 {
                let broken = seq![whitespace()] + group;
                let behind = seq![comma()] + broken;
                assert(behind.drop_first() =~= broken);
                assert(broken.drop_first() =~= group);
                assert(collapse_separators(group, Some(comma())) =~= seq![comma(), open_paren()]
                    + (b + closing)) by {
                    assert(collapse_separators(b + closing, None) == nothing + b + closing);
                }
                assert(collapse_separators(broken, Some(comma())) == collapse_separators(
                    group,
                    Some(comma()),
                ));
                assert(collapse_separators(behind, None) == collapse_separators(
                    broken,
                    Some(comma()),
                ));
                lemma_collapse_solid(a, behind, None);
                assert(ts =~= a + behind);
                assert(wanted =~= nothing + a + (seq![comma(), open_paren()] + (b + closing)));
            } else {
                assert(ts =~= group);
                assert(wanted =~= group);
            }
        } else {
            lemma_collapse_solid(a, nothing, None);
            assert(a + nothing =~= a);
            assert(nothing + a + nothing =~= a);
        }
    } else {
        assert(skip_separators(ts) == ts);
        assert(a.len() == 0);
        assert(wanted =~= nothing);
    }
}

/// A compact text has no whitespace around it.
pub proof fn lemma_trim_compact(plain: Seq<Entry>, wrapped: Seq<Entry>)
    requires
        are_solid_entries(plain),
        are_solid_entries(wrapped),
    ensures
        trim(compact_text(plain, wrapped)) == compact_text(plain, wrapped),
{
    let text = compact_text(plain, wrapped);
    if plain.len() > 0 {
        lemma_entries_text(plain);
    } else {
        assert(entries_text(plain).len() == 0);
    }
    if text.len() > 0 {
        assert(!is_whitespace(text[0])) by {
            if plain.len() > 0 {
                assert(text[0] == entries_text(plain)[0]);
            } else {
                assert(text[0] == OPEN_PAREN);
            }
        }
        assert(!is_whitespace(text.last())) by {
            if wrapped.len() > 0 {
                assert(text.last() == CLOSE_PAREN);
            } else {
                assert(text.last() == entries_text(plain).last());
            }
        }
    }
    assert(trim_start(text) == text);
    assert(trim_end(text) == text);
}

} // verus!
