//! What the first passes of the parser do to the tokens of a compact text.
//!
//! The tokens of a compact text are those of a list of entries, which may be
//! followed by a second list in one pair of parentheses.  Apart from this pair
//! every token is solid: an identifier, a comma or a range symbol that is
//! classified as what it is.

use crate::lexer::fresh;
use crate::passes::{
    absorb_inline, absorb_inline_from, becomes_comma, group, group_from, is_unmatched, open_stack,
    sanitize_parentheses, separate,
};
use crate::token::{Tagged, TokenView};
use vstd::prelude::*;

verus! {

/// Whether the token is an identifier, a comma or a range symbol that is
/// classified as what it is.
pub open spec fn is_solid_token(t: Tagged) -> bool {
    (t.is_identifier() || t.is_comma() || t.is_range()) && t.in_sync()
}

/// Whether every token of `ts` is solid.
pub open spec fn are_solid(ts: Seq<Tagged>) -> bool {
    forall|i: int| 0 <= i < ts.len() ==> is_solid_token(#[trigger] ts[i])
}

/// The token as it is within parentheses: an identifier is marked.
pub open spec fn marked_token(t: Tagged) -> Tagged {
    if t.is_identifier() {
        t.parenthesized()
    } else {
        t
    }
}

/// The tokens `ts` as they are within parentheses.
pub open spec fn marked(ts: Seq<Tagged>) -> Seq<Tagged> {
    ts.map_values(|t: Tagged| marked_token(t))
}

/// An opening parenthesis as the lexer gives it.
pub open spec fn open_paren() -> Tagged {
    fresh(TokenView::OpenParen)
}

/// A closing parenthesis as the lexer gives it.
pub open spec fn close_paren() -> Tagged {
    fresh(TokenView::CloseParen)
}

/// What stands in front of the group in parentheses: the tokens `plain` and
/// the comma behind them, or nothing.
pub open spec fn lead(plain: Seq<Tagged>) -> Seq<Tagged> {
    if plain.len() > 0 {
        plain.push(fresh(TokenView::Comma))
    } else {
        plain
    }
}

/// The tokens `plain`, followed by the tokens `wrapped` in parentheses if
/// there are any.  `open` and `close` are the two parentheses as they are
/// classified at the time.
pub open spec fn stream(
    plain: Seq<Tagged>,
    open: Tagged,
    wrapped: Seq<Tagged>,
    close: Tagged,
) -> Seq<Tagged> {
    if wrapped.len() > 0 {
        lead(plain) + seq![open] + wrapped + seq![close]
    } else {
        plain
    }
}

/// Solid tokens are left as they are where no parenthesis is open, and do
/// not open one.
pub proof fn lemma_absorb_solid(xs: Seq<Tagged>, tail: Seq<Tagged>, after_identifier: bool)
    requires
        are_solid(xs),
    ensures
        absorb_inline_from(xs + tail, 0, after_identifier) == xs + absorb_inline_from(
            tail,
            0,
            if xs.len() > 0 {
                xs.last().is_identifier()
            } else {
                after_identifier
            },
        ),
    decreases xs.len(),
{
    if xs.len() == 0 {
        assert(xs + tail =~= tail);
        assert(xs + absorb_inline_from(tail, 0, after_identifier) =~= absorb_inline_from(
            tail,
            0,
            after_identifier,
        ));
    } else {
        let x = xs[0];
        let rest = xs.drop_first();
        assert(is_solid_token(x));
        assert(are_solid(rest)) by {
            assert forall|i: int| 0 <= i < rest.len() implies is_solid_token(
                #[trigger] rest[i],
            ) by {
                assert(rest[i] == xs[i + 1]);
            }
        }
        assert((xs + tail)[0] == x);
        assert((xs + tail).drop_first() =~= rest + tail);
        lemma_absorb_solid(rest, tail, x.is_identifier());
        if rest.len() > 0 {
            assert(rest.last() == xs.last());
        }
        let then = absorb_inline_from(
            tail,
            0,
            if xs.len() > 0 {
                xs.last().is_identifier()
            } else {
                after_identifier
            },
        );
        assert(seq![x] + (rest + then) =~= xs + then);
    }
}

/// The first pass leaves the stream as it is.
pub proof fn lemma_absorb_stream(plain: Seq<Tagged>, wrapped: Seq<Tagged>)
    requires
        are_solid(plain),
        are_solid(wrapped),
    ensures
        absorb_inline(stream(plain, open_paren(), wrapped, close_paren())) == stream(
            plain,
            open_paren(),
            wrapped,
            close_paren(),
        ),
{
    let all = stream(plain, open_paren(), wrapped, close_paren());
    if wrapped.len() > 0 {
        let front = lead(plain);
        assert(are_solid(front)) by {
            assert forall|i: int| 0 <= i < front.len() implies is_solid_token(
                #[trigger] front[i],
            ) by {
                if i < plain.len() {
                    assert(front[i] == plain[i]);
                }
            }
        }
        let closing = seq![close_paren()];
        let inner = seq![open_paren()] + (wrapped + closing);
        assert(all =~= front + inner);
        lemma_absorb_solid(front, inner, false);
        let b: bool = if front.len() > 0 {
            front.last().is_identifier()
        } else {
            false
        };
        assert(!b);
        assert(inner[0] == open_paren());
        assert(inner.drop_first() =~= wrapped + closing);
        lemma_absorb_solid(wrapped, closing, false);
        assert(closing.drop_first() =~= Seq::<Tagged>::empty());
        assert(absorb_inline_from(closing, 0, true) =~= closing) by {
            assert(absorb_inline_from(closing.drop_first(), 0, false) =~= Seq::<Tagged>::empty());
        }
        assert(absorb_inline_from(inner, 0, false) =~= inner);
    } else {
        assert(plain + Seq::<Tagged>::empty() =~= plain);
        lemma_absorb_solid(plain, Seq::empty(), false);
    }
}

/// Where the only parentheses are an opening one at `p` and a closing one at
/// `q` behind it, the opening one waits from behind `p` up to `q`.
pub proof fn lemma_open_stack_pair(ts: Seq<Tagged>, p: int, q: int, upto: int)
    requires
        0 <= p < q < ts.len(),
        0 <= upto <= ts.len(),
        ts[p].is_open_paren(),
        ts[q].is_close_paren(),
        forall|i: int|
            0 <= i < ts.len() && i != p && i != q ==> !(#[trigger] ts[i]).is_open_paren()
                && !ts[i].is_close_paren(),
    ensures
        open_stack(ts, upto) == if p < upto <= q {
            seq![p]
        } else {
            Seq::<int>::empty()
        },
    decreases upto,
{
    if upto > 0 {
        lemma_open_stack_pair(ts, p, q, upto - 1);
        let before = open_stack(ts, upto - 1);
        if upto - 1 == p {
            assert(before.push(p) =~= seq![p]);
        } else if upto - 1 == q {
            assert(before.drop_last() =~= Seq::<int>::empty());
        }
    }
}

/// The second pass leaves a stream with one pair of parentheses as it is.
pub proof fn lemma_sanitize_pair(ts: Seq<Tagged>, p: int, q: int)
    requires
        0 <= p < q < ts.len(),
        ts[p].is_open_paren(),
        ts[q].is_close_paren(),
        forall|i: int|
            0 <= i < ts.len() && i != p && i != q ==> !(#[trigger] ts[i]).is_open_paren()
                && !ts[i].is_close_paren(),
    ensures
        sanitize_parentheses(ts) == ts,
{
    lemma_open_stack_pair(ts, p, q, q);
    lemma_open_stack_pair(ts, p, q, ts.len() as int);
    assert forall|i: int| 0 <= i < ts.len() implies !is_unmatched(ts, i) by {
        assert(!Seq::<int>::empty().contains(i));
    }
    assert(sanitize_parentheses(ts) =~= ts);
}

/// The second pass leaves a stream without parentheses as it is.
pub proof fn lemma_sanitize_none(ts: Seq<Tagged>)
    requires
        forall|i: int|
            0 <= i < ts.len() ==> !(#[trigger] ts[i]).is_open_paren() && !ts[i].is_close_paren(),
    ensures
        sanitize_parentheses(ts) == ts,
{
    assert(sanitize_parentheses(ts) =~= ts);
}

/// The third pass marks the identifiers among solid tokens where a
/// parenthesis is open, and leaves them as they are where none is.
pub proof fn lemma_group_solid(xs: Seq<Tagged>, tail: Seq<Tagged>, depth: int)
    requires
        are_solid(xs),
    ensures
        group_from(xs + tail, depth) == (if depth > 0 {
            marked(xs)
        } else {
            xs
        }) + group_from(tail, depth),
    decreases xs.len(),
{
    let then = group_from(tail, depth);
    if xs.len() == 0 {
        assert(xs + tail =~= tail);
        assert(xs + then =~= then);
        assert(marked(xs) + then =~= then);
    } else {
        let x = xs[0];
        let rest = xs.drop_first();
        assert(is_solid_token(x));
        assert(are_solid(rest)) by {
            assert forall|i: int| 0 <= i < rest.len() implies is_solid_token(
                #[trigger] rest[i],
            ) by {
                assert(rest[i] == xs[i + 1]);
            }
        }
        assert((xs + tail)[0] == x);
        assert((xs + tail).drop_first() =~= rest + tail);
        lemma_group_solid(rest, tail, depth);
        if depth > 0 {
            assert(seq![marked_token(x)] + (marked(rest) + then) =~= marked(xs) + then);
        } else {
            assert(seq![x] + (rest + then) =~= xs + then);
        }
    }
}

/// The third pass turns the two parentheses of the stream into whitespace
/// and marks the identifiers between them.
pub proof fn lemma_group_stream(plain: Seq<Tagged>, wrapped: Seq<Tagged>)
    requires
        are_solid(plain),
        are_solid(wrapped),
    ensures
        group(stream(plain, open_paren(), wrapped, close_paren())) == stream(
            plain,
            open_paren().as_whitespace(),
            marked(wrapped),
            close_paren().as_whitespace(),
        ),
{
    let all = stream(plain, open_paren(), wrapped, close_paren());
    if wrapped.len() > 0 {
        let front = lead(plain);
        assert(are_solid(front)) by {
            assert forall|i: int| 0 <= i < front.len() implies is_solid_token(
                #[trigger] front[i],
            ) by {
                if i < plain.len() {
                    assert(front[i] == plain[i]);
                }
            }
        }
        let closing = seq![close_paren()];
        let inner = seq![open_paren()] + (wrapped + closing);
        assert(all =~= front + inner);
        lemma_group_solid(front, inner, 0);
        assert(inner[0] == open_paren());
        assert(inner.drop_first() =~= wrapped + closing);
        lemma_group_solid(wrapped, closing, 1);
        assert(closing.drop_first() =~= Seq::<Tagged>::empty());
        assert(group_from(closing, 1) =~= seq![close_paren().as_whitespace()]) by {
            assert(group_from(closing.drop_first(), 0) =~= Seq::<Tagged>::empty());
        }
        assert(group_from(inner, 0) =~= seq![open_paren().as_whitespace()] + (marked(wrapped)
            + seq![close_paren().as_whitespace()]));
        assert(marked(wrapped).len() == wrapped.len());
        assert(group(all) =~= stream(
            plain,
            open_paren().as_whitespace(),
            marked(wrapped),
            close_paren().as_whitespace(),
        ));
    } else {
        assert(plain + Seq::<Tagged>::empty() =~= plain);
        lemma_group_solid(plain, Seq::empty(), 0);
        assert(marked(wrapped).len() == 0);
    }
}

/// Marking leaves solid tokens solid.
pub proof fn lemma_marked_solid(ts: Seq<Tagged>)
    requires
        are_solid(ts),
    ensures
        are_solid(marked(ts)),
        marked(ts).len() == ts.len(),
{
    assert forall|i: int| 0 <= i < marked(ts).len() implies is_solid_token(
        #[trigger] marked(ts)[i],
    ) by {
        assert(is_solid_token(ts[i]));
    }
}

/// The fourth pass turns the two parentheses of the stream, which are
/// whitespace by now, into commas.
pub proof fn lemma_separate_stream(plain: Seq<Tagged>, wrapped: Seq<Tagged>)
    requires
        are_solid(plain),
        are_solid(wrapped),
        wrapped.len() > 0 ==> wrapped[0].is_identifier(),
    ensures
        separate(
            stream(plain, open_paren().as_whitespace(), wrapped, close_paren().as_whitespace()),
        ) == stream(
            plain,
            open_paren().as_whitespace().as_comma(),
            wrapped,
            close_paren().as_whitespace().as_comma(),
        ),
{
    let open = open_paren().as_whitespace();
    let close = close_paren().as_whitespace();
    let ts = stream(plain, open, wrapped, close);
    let wanted = stream(plain, open.as_comma(), wrapped, close.as_comma());
    if wrapped.len() > 0 {
        let front = lead(plain);
        let p = front.len() as int;
        let q = ts.len() - 1;
        assert(ts[p] == open);
        assert(ts[q] == close);
        assert forall|i: int| 0 <= i < ts.len() && i != p && i != q implies is_solid_token(
            #[trigger] ts[i],
        ) by {
            if i < p {
                if i < plain.len() {
                    assert(ts[i] == plain[i]);
                }
            } else {
                assert(ts[i] == wrapped[i - p - 1]);
            }
        }
        assert(becomes_comma(ts, q)) by {
            assert(ts.skip(q + 1) =~= Seq::<Tagged>::empty());
        }
        assert(becomes_comma(ts, p)) by {
            if p == 0 {
                assert(ts.take(0) =~= Seq::<Tagged>::empty());
            } else {
                assert(ts[p - 1] == fresh(TokenView::Comma));
                assert(ts[p + 1] == wrapped[0]);
            }
        }
        assert forall|i: int| 0 <= i < ts.len() implies separate(ts)[i] == wanted[i] by {
            if i != p && i != q {
                assert(is_solid_token(ts[i]));
                assert(!becomes_comma(ts, i));
            }
        }
        assert(separate(ts) =~= wanted);
    } else {
        assert forall|i: int| 0 <= i < ts.len() implies separate(ts)[i] == ts[i] by {
            assert(is_solid_token(ts[i]));
        }
        assert(separate(ts) =~= ts);
    }
}

/// The comma that the opening parenthesis has become behind the first four
/// passes.
pub open spec fn open_comma() -> Tagged {
    open_paren().as_whitespace().as_comma()
}

/// The comma that the closing parenthesis has become.
pub open spec fn close_comma() -> Tagged {
    close_paren().as_whitespace().as_comma()
}

/// After its first four passes the parser holds the stream with its two
/// parentheses turned into commas and the identifiers between them marked.
pub proof fn lemma_first_passes(plain: Seq<Tagged>, wrapped: Seq<Tagged>)
    requires
        are_solid(plain),
        are_solid(wrapped),
        wrapped.len() > 0 ==> wrapped[0].is_identifier(),
    ensures
        separate(
            group(
                sanitize_parentheses(
                    absorb_inline(stream(plain, open_paren(), wrapped, close_paren())),
                ),
            ),
        ) == stream(plain, open_comma(), marked(wrapped), close_comma()),
{
    let ts = stream(plain, open_paren(), wrapped, close_paren());
    lemma_absorb_stream(plain, wrapped);
    if wrapped.len() > 0 {
        let front = lead(plain);
        let p = front.len() as int;
        let q = ts.len() - 1;
        assert(ts[p] == open_paren());
        assert(ts[q] == close_paren());
        assert forall|i: int| 0 <= i < ts.len() && i != p && i != q implies !(
        #[trigger] ts[i]).is_open_paren() && !ts[i].is_close_paren() by {
            if i < p {
                if i < plain.len() {
                    assert(ts[i] == plain[i]);
                    assert(is_solid_token(plain[i]));
                }
            } else {
                assert(ts[i] == wrapped[i - p - 1]);
                assert(is_solid_token(wrapped[i - p - 1]));
            }
        }
        lemma_sanitize_pair(ts, p, q);
    } else {
        assert forall|i: int| 0 <= i < ts.len() implies !(#[trigger] ts[i]).is_open_paren()
            && !ts[i].is_close_paren() by {
            assert(is_solid_token(ts[i]));
        }
        lemma_sanitize_none(ts);
    }
    lemma_group_stream(plain, wrapped);
    lemma_marked_solid(wrapped);
    if wrapped.len() > 0 {
        assert(marked(wrapped)[0] == marked_token(wrapped[0]));
    }
    lemma_separate_stream(plain, marked(wrapped));
}

} // verus!
