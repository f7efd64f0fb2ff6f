//! The passes that turn the raw token stream into its canonical form.
//!
//! Each pass reads the symbols of the tokens and reclassifies some of them;
//! [`rebuild`] then brings the payloads in line with the symbols.  The passes
//! are meant to run in the order in which they stand here.

use crate::token::{Tagged, Token, TokenWithSymbol};
use vstd::prelude::*;

verus! {

/// Prepending an element to what follows is the same as appending it to what
/// came before.
pub proof fn lemma_move_head<T>(done: Seq<T>, head: T, tail: Seq<T>)
    ensures
        done.push(head) + tail == done + (seq![head] + tail),
{
    assert(done.push(head) + tail =~= done + (seq![head] + tail));
}

/// The tokens of `ts` with parentheses that stand directly behind an
/// identifier taken into the identifier, together with all that stands
/// between them.
///
/// `depth` counts the parentheses that are open; `after_identifier` says
/// whether the token in front was an identifier.  An opening parenthesis
/// behind an identifier opens one more level.  Inside, every token becomes an
/// identifier, and a closing parenthesis closes one level.  A comma is never
/// taken in: it closes all levels.
pub open spec fn absorb_inline_from(ts: Seq<Tagged>, depth: nat, after_identifier: bool) -> Seq<
    Tagged,
>
    decreases ts.len(),
{
    if ts.len() == 0 {
        ts
    } else {
        let t = ts[0];
        let opened: nat = if t.is_open_paren() && after_identifier {
            depth + 1
        } else if t.is_comma() {
            0
        } else {
            depth
        };
        if opened > 0 {
            let closed: nat = if t.is_close_paren() {
                (opened - 1) as nat
            } else {
                opened
            };
            seq![t.as_identifier()] + absorb_inline_from(ts.drop_first(), closed, true)
        } else {
            seq![t] + absorb_inline_from(ts.drop_first(), 0, t.is_identifier())
        }
    }
}

/// The tokens of `ts` behind the first pass.
pub open spec fn absorb_inline(ts: Seq<Tagged>) -> Seq<Tagged> {
    absorb_inline_from(ts, 0, false)
}

/// Turns parentheses that stand directly behind an identifier, and what they
/// hold, into identifiers.
pub fn replace_inline_parentheses(tokens: &mut Vec<TokenWithSymbol>)
    ensures
        final(tokens).deep_view() == absorb_inline(old(tokens).deep_view()),
{
    let ghost given = tokens.deep_view();
    let mut depth: usize = 0;
    let mut after_identifier = false;
    let mut i: usize = 0;
    proof {
        assert(given.skip(0) == given);
        assert(given.take(0) + absorb_inline(given) =~= absorb_inline(given));
    }
    while i < tokens.len()
        invariant
            i <= tokens.len(),
            tokens.len() == given.len(),
            depth <= i,
            tokens.deep_view().skip(i as int) == given.skip(i as int),
            tokens.deep_view().take(i as int) + absorb_inline_from(
                given.skip(i as int),
                depth as nat,
                after_identifier,
            ) == absorb_inline(given),
        decreases tokens.len() - i,
    {
        let ghost before = tokens.deep_view();
        let ghost t = given[i as int];
        assert(before[i as int] == before.skip(i as int)[0]);
        assert(given.skip(i as int)[0] == t);
        assert(given.skip(i as int).drop_first() == given.skip(i + 1));
        let closes = tokens[i].is_close_paren();
        if tokens[i].is_open_paren() && after_identifier {
            depth += 1;
        } else if tokens[i].is_comma() {
            depth = 0;
        }
        if depth > 0 {
            tokens[i].convert_symbol_to_identifier();
            after_identifier = true;
            if closes {
                depth -= 1;
            }
        } else {
            after_identifier = tokens[i].is_identifier();
        }
        proof {
            let after = tokens.deep_view();
            assert(after =~= before.update(i as int, after[i as int]));
            assert(after.skip(i + 1) =~= before.skip(i + 1));
            assert(before.skip(i + 1) =~= before.skip(i as int).skip(1));
            assert(after.take(i + 1) =~= before.take(i as int).push(after[i as int]));
            lemma_move_head(
                before.take(i as int),
                after[i as int],
                absorb_inline_from(given.skip(i + 1), depth as nat, after_identifier),
            );
        }
        i += 1;
    }
    proof {
        assert(tokens.deep_view().take(i as int) == tokens.deep_view());
        assert(given.skip(i as int).len() == 0);
        assert(tokens.deep_view() + given.skip(i as int) =~= tokens.deep_view());
    }
}

/// The positions of the opening parentheses in `ts[..upto]` that still wait
/// for their closing parenthesis, the innermost one last.
pub open spec fn open_stack(ts: Seq<Tagged>, upto: int) -> Seq<int>
    decreases upto,
{
    if upto <= 0 {
        Seq::empty()
    } else {
        let before = open_stack(ts, upto - 1);
        let t = ts[upto - 1];
        if t.is_open_paren() {
            before.push(upto - 1)
        } else if t.is_close_paren() && before.len() > 0 {
            before.drop_last()
        } else {
            before
        }
    }
}

/// Whether the token at `i` is a parenthesis without a partner: a closing one
/// where no opening one waits, or an opening one that still waits at the end.
pub open spec fn is_unmatched(ts: Seq<Tagged>, i: int) -> bool {
    ||| ts[i].is_close_paren() && open_stack(ts, i).len() == 0
    ||| ts[i].is_open_paren() && open_stack(ts, ts.len() as int).contains(i)
}

/// The tokens of `ts` with every parenthesis that has no partner turned into
/// an identifier.
pub open spec fn sanitize_parentheses(ts: Seq<Tagged>) -> Seq<Tagged> {
    Seq::new(
        ts.len(),
        |i: int|
            if is_unmatched(ts, i) {
                ts[i].as_identifier()
            } else {
                ts[i]
            },
    )
}

/// The waiting positions are positions of opening parentheses, in rising
/// order.
pub proof fn lemma_open_stack(ts: Seq<Tagged>, upto: int)
    requires
        0 <= upto <= ts.len(),
    ensures
        forall|k: int|
            0 <= k < open_stack(ts, upto).len() ==> 0 <= #[trigger] open_stack(ts, upto)[k] < upto
                && ts[open_stack(ts, upto)[k]].is_open_paren(),
        forall|k: int, l: int|
            0 <= k < l < open_stack(ts, upto).len() ==> open_stack(ts, upto)[k] < open_stack(
                ts,
                upto,
            )[l],
    decreases upto,
{
    if upto > 0 {
        lemma_open_stack(ts, upto - 1);
        let before = open_stack(ts, upto - 1);
        let now = open_stack(ts, upto);
        assert forall|k: int| 0 <= k < now.len() implies 0 <= #[trigger] now[k] < upto
            && ts[now[k]].is_open_paren() by {
            if k < before.len() {
                assert(now[k] == before[k]);
            }
        }
        assert forall|k: int, l: int| 0 <= k < l < now.len() implies now[k] < now[l] by {
            assert(now[k] == before[k]);
            if l < before.len() {
                assert(now[l] == before[l]);
            }
        }
    }
}

/// Whether the opening parenthesis at `p` finds its partner.
pub open spec fn finds_partner(ts: Seq<Tagged>) -> spec_fn(int) -> bool {
    |p: int| !open_stack(ts, ts.len() as int).contains(p)
}

/// An opening parenthesis that does not wait any more does not wait again.
proof fn lemma_gone_for_good(ts: Seq<Tagged>, p: int, from: int, upto: int)
    requires
        0 <= p < from <= upto <= ts.len(),
        !open_stack(ts, from).contains(p),
    ensures
        !open_stack(ts, upto).contains(p),
    decreases upto - from,
{
    if from < upto {
        lemma_gone_for_good(ts, p, from, upto - 1);
        let before = open_stack(ts, upto - 1);
        let now = open_stack(ts, upto);
        if now.contains(p) {
            let k = choose|k: int| 0 <= k < now.len() && now[k] == p;
            if k < before.len() {
                assert(before[k] == p);
            }
        }
    }
}

/// After the second pass the parentheses that wait at any time are those
/// that waited before and find their partner.
proof fn lemma_sanitized_stack(ts: Seq<Tagged>, upto: int)
    requires
        0 <= upto <= ts.len(),
    ensures
        open_stack(sanitize_parentheses(ts), upto) == open_stack(ts, upto).filter(
            finds_partner(ts),
        ),
    decreases upto,
{
    let r = sanitize_parentheses(ts);
    let keep = finds_partner(ts);
    reveal(Seq::filter);
    if upto > 0 {
        let k = upto - 1;
        lemma_sanitized_stack(ts, k);
        lemma_open_stack(ts, upto);
        lemma_open_stack(ts, k);
        let before = open_stack(ts, k);
        let t = ts[k];
        if t.is_open_paren() {
            before.lemma_filter_push(k, keep);
        } else if t.is_close_paren() && before.len() > 0 {
            let q = before.last();
            assert(keep(q)) by {
                let now = open_stack(ts, upto);
                if now.contains(q) {
                    let l = choose|l: int| 0 <= l < now.len() && now[l] == q;
                    assert(before[l] == q);
                }
                lemma_gone_for_good(ts, q, upto, ts.len() as int);
            }
            assert(before =~= before.drop_last().push(q));
            before.drop_last().lemma_filter_push(q, keep);
            assert(before.filter(keep).drop_last() =~= before.drop_last().filter(keep));
        }
    }
}

/// After the second pass every parenthesis has its partner.
pub proof fn lemma_sanitized_parentheses_match(ts: Seq<Tagged>)
    ensures
        forall|i: int|
            0 <= i < ts.len() ==> !is_unmatched(sanitize_parentheses(ts), i),
{
    let r = sanitize_parentheses(ts);
    let keep = finds_partner(ts);
    let n = ts.len() as int;
    assert forall|i: int| 0 <= i < ts.len() implies !is_unmatched(r, i) by {
        lemma_sanitized_stack(ts, i);
        lemma_sanitized_stack(ts, n);
        let last = open_stack(ts, n);
        if r[i].is_open_paren() {
            assert(last.filter(keep).len() == 0) by {
                if last.filter(keep).len() > 0 {
                    last.lemma_filter_pred(keep, 0);
                    let x = last.filter(keep)[0];
                    assert(last.filter(keep).contains(x));
                    last.lemma_filter_contains_rev(keep, x);
                }
            }
            assert(!open_stack(r, n).contains(i));
        }
        if r[i].is_close_paren() {
            let before = open_stack(ts, i);
            assert(before.len() > 0);
            let q = before.last();
            assert(keep(q)) by {
                lemma_open_stack(ts, i);
                let now = open_stack(ts, i + 1);
                assert(now == before.drop_last());
                if now.contains(q) {
                    let l = choose|l: int| 0 <= l < now.len() && now[l] == q;
                    assert(before[l] == q);
                }
                lemma_gone_for_good(ts, q, i + 1, n);
            }
            before.lemma_filter_contains(keep, before.len() - 1);
        }
    }
}

/// Turns every parenthesis that has no partner into an identifier.
pub fn replace_invalid_parentheses(tokens: &mut Vec<TokenWithSymbol>)
    ensures
        final(tokens).deep_view() == sanitize_parentheses(old(tokens).deep_view()),
        forall|i: int|
            0 <= i < final(tokens).deep_view().len() ==> !is_unmatched(
                final(tokens).deep_view(),
                i,
            ),
{
    let ghost given = tokens.deep_view();
    let mut indices: Vec<usize> = Vec::new();
    let mut i: usize = 0;
    while i < tokens.len()
        invariant
            i <= tokens.len(),
            tokens.len() == given.len(),
            indices@.len() == open_stack(given, i as int).len(),
            forall|k: int| 0 <= k < indices@.len() ==> #[trigger] indices@[k] == open_stack(
                given,
                i as int,
            )[k],
            forall|j: int|
                0 <= j < given.len() ==> #[trigger] tokens.deep_view()[j] == if j < i
                    && given[j].is_close_paren() && open_stack(given, j).len() == 0 {
                    given[j].as_identifier()
                } else {
                    given[j]
                },
        decreases tokens.len() - i,
    {
        let ghost before = tokens.deep_view();
        assert(before[i as int] == given[i as int]);
        if tokens[i].is_open_paren() {
            indices.push(i);
        } else if tokens[i].is_close_paren() {
            if indices.pop().is_none() {
                tokens[i].convert_symbol_to_identifier();
            }
        }
        proof {
            let after = tokens.deep_view();
            assert(after =~= before.update(i as int, after[i as int]));
            assert forall|j: int| 0 <= j < given.len() implies #[trigger] after[j] == if j < i + 1
                && given[j].is_close_paren() && open_stack(given, j).len() == 0 {
                given[j].as_identifier()
            } else {
                given[j]
            } by {
                if j != i {
                    assert(after[j] == before[j]);
                }
            }
        }
        i += 1;
    }
    let ghost closed = tokens.deep_view();
    let ghost waiting = open_stack(given, given.len() as int);
    proof {
        lemma_open_stack(given, given.len() as int);
    }
    let mut k: usize = 0;
    while k < indices.len()
        invariant
            k <= indices@.len(),
            tokens.len() == given.len(),
            indices@.len() == waiting.len(),
            waiting == open_stack(given, given.len() as int),
            forall|l: int| 0 <= l < indices@.len() ==> #[trigger] indices@[l] == waiting[l],
            forall|l: int|
                0 <= l < waiting.len() ==> 0 <= #[trigger] waiting[l] < given.len()
                    && given[waiting[l]].is_open_paren(),
            forall|l: int, m: int| 0 <= l < m < waiting.len() ==> waiting[l] < waiting[m],
            forall|j: int|
                0 <= j < given.len() ==> #[trigger] tokens.deep_view()[j] == if (
                given[j].is_close_paren() && open_stack(given, j).len() == 0) || (exists|l: int|
                    0 <= l < k && waiting[l] == j) {
                    given[j].as_identifier()
                } else {
                    given[j]
                },
        decreases indices@.len() - k,
    {
        let ghost before = tokens.deep_view();
        let at = indices[k];
        assert(at == waiting[k as int]);
        assert(before[at as int] == given[at as int]) by {
            if exists|l: int| 0 <= l < k && waiting[l] == at {
                let l = choose|l: int| 0 <= l < k && waiting[l] == at;
                assert(waiting[l] < waiting[k as int]);
            }
        }
        tokens[at].convert_symbol_to_identifier();
        proof {
            let after = tokens.deep_view();
            assert(after =~= before.update(at as int, after[at as int]));
            assert forall|j: int| 0 <= j < given.len() implies #[trigger] after[j] == if (
            given[j].is_close_paren() && open_stack(given, j).len() == 0) || (exists|l: int|
                0 <= l < k + 1 && waiting[l] == j) {
                given[j].as_identifier()
            } else {
                given[j]
            } by {
                if j == at {
                    assert(waiting[k as int] == j);
                } else {
                    assert(after[j] == before[j]);
                    if exists|l: int| 0 <= l < k + 1 && waiting[l] == j {
                        let l = choose|l: int| 0 <= l < k + 1 && waiting[l] == j;
                        assert(l < k);
                    }
                }
            }
        }
        k += 1;
    }
    proof {
        let after = tokens.deep_view();
        let wanted = sanitize_parentheses(given);
        assert forall|j: int| 0 <= j < given.len() implies after[j] == wanted[j] by {
            if given[j].is_open_paren() && waiting.contains(j) {
                let l = choose|l: int| 0 <= l < waiting.len() && waiting[l] == j;
                assert(0 <= l < k && waiting[l] == j);
            }
            if exists|l: int| 0 <= l < k && waiting[l] == j {
                let l = choose|l: int| 0 <= l < k && waiting[l] == j;
                assert(waiting.contains(j));
            }
        }
        assert(after =~= wanted);
        lemma_sanitized_parentheses_match(given);
    }
}

/// The tokens of `ts` with the parentheses that group designators resolved:
/// the parentheses themselves become whitespace, and every identifier
/// between them is marked as standing in parentheses.  `depth` is the number
/// of parentheses that are open.
pub open spec fn group_from(ts: Seq<Tagged>, depth: int) -> Seq<Tagged>
    decreases ts.len(),
{
    if ts.len() == 0 {
        ts
    } else {
        let t = ts[0];
        if t.is_open_paren() {
            seq![t.as_whitespace()] + group_from(ts.drop_first(), depth + 1)
        } else if t.is_close_paren() {
            seq![t.as_whitespace()] + group_from(ts.drop_first(), depth - 1)
        } else if t.is_identifier() && depth > 0 {
            seq![t.parenthesized()] + group_from(ts.drop_first(), depth)
        } else {
            seq![t] + group_from(ts.drop_first(), depth)
        }
    }
}

/// The tokens of `ts` behind the third pass.
pub open spec fn group(ts: Seq<Tagged>) -> Seq<Tagged> {
    group_from(ts, 0)
}

/// Behind the third pass no token is a parenthesis any more.
pub proof fn lemma_group_no_parentheses(ts: Seq<Tagged>, depth: int)
    ensures
        group_from(ts, depth).len() == ts.len(),
        forall|i: int|
            0 <= i < ts.len() ==> !(#[trigger] group_from(ts, depth)[i]).is_open_paren()
                && !group_from(ts, depth)[i].is_close_paren(),
    decreases ts.len(),
{
    if ts.len() > 0 {
        let t = ts[0];
        let rest = ts.drop_first();
        let next = if t.is_open_paren() {
            depth + 1
        } else if t.is_close_paren() {
            depth - 1
        } else {
            depth
        };
        lemma_group_no_parentheses(rest, next);
        let all = group_from(ts, depth);
        let others = group_from(rest, next);
        assert forall|i: int| 0 <= i < ts.len() implies !(#[trigger] all[i]).is_open_paren()
            && !all[i].is_close_paren() by {
            if i > 0 {
                assert(all[i] == others[i - 1]);
            }
        }
    }
}

/// Turns the parentheses into whitespace and marks the identifiers between
/// them.
pub fn put_in_parentheses(tokens: &mut Vec<TokenWithSymbol>)
    ensures
        final(tokens).deep_view() == group(old(tokens).deep_view()),
{
    let ghost given = tokens.deep_view();
    // The depth is the number of opening parentheses seen so far less that of
    // the closing ones.
    let mut opened: usize = 0;
    let mut closed: usize = 0;
    let mut i: usize = 0;
    proof {
        assert(given.skip(0) == given);
        assert(given.take(0) + group(given) =~= group(given));
    }
    while i < tokens.len()
        invariant
            i <= tokens.len(),
            tokens.len() == given.len(),
            opened <= i,
            closed <= i,
            tokens.deep_view().skip(i as int) == given.skip(i as int),
            tokens.deep_view().take(i as int) + group_from(given.skip(i as int), opened - closed)
                == group(given),
        decreases tokens.len() - i,
    {
        let ghost before = tokens.deep_view();
        assert(before[i as int] == before.skip(i as int)[0]);
        assert(given.skip(i as int).drop_first() == given.skip(i + 1));
        if tokens[i].is_open_paren() {
            opened += 1;
            tokens[i].convert_symbol_to_whitespace();
        } else if tokens[i].is_close_paren() {
            closed += 1;
            tokens[i].convert_symbol_to_whitespace();
        } else if tokens[i].is_identifier() && opened > closed {
            tokens[i].parenthesize();
        }
        proof {
            let after = tokens.deep_view();
            assert(after =~= before.update(i as int, after[i as int]));
            assert(after.skip(i + 1) =~= before.skip(i + 1));
            assert(before.skip(i + 1) =~= before.skip(i as int).skip(1));
            assert(after.take(i + 1) =~= before.take(i as int).push(after[i as int]));
            lemma_move_head(
                before.take(i as int),
                after[i as int],
                group_from(given.skip(i + 1), opened - closed),
            );
        }
        i += 1;
    }
    proof {
        assert(tokens.deep_view().take(i as int) == tokens.deep_view());
        assert(tokens.deep_view() + given.skip(i as int) =~= tokens.deep_view());
    }
}

/// Whether every token of `ts` is whitespace.
pub open spec fn all_whitespace(ts: Seq<Tagged>) -> bool {
    forall|i: int| 0 <= i < ts.len() ==> (#[trigger] ts[i]).is_whitespace()
}

/// Whether the whitespace at `i` separates designators: it does at the start
/// and at the end of the tokens, and wherever no range symbol stands next to
/// it.
pub open spec fn becomes_comma(ts: Seq<Tagged>, i: int) -> bool {
    &&& ts[i].is_whitespace()
    &&& {
        ||| all_whitespace(ts.take(i))
        ||| all_whitespace(ts.skip(i + 1))
        ||| (0 < i < ts.len() - 1 && !ts[i - 1].is_range() && !ts[i + 1].is_range())
    }
}

/// The tokens of `ts` with the whitespace that separates designators turned
/// into commas.  Whitespace next to a range symbol stays.
pub open spec fn separate(ts: Seq<Tagged>) -> Seq<Tagged> {
    Seq::new(
        ts.len(),
        |i: int|
            if becomes_comma(ts, i) {
                ts[i].as_comma()
            } else {
                ts[i]
            },
    )
}

/// Whether a range symbol stands next to the token at `i`.
pub open spec fn is_next_to_range(ts: Seq<Tagged>, i: int) -> bool {
    (i > 0 && ts[i - 1].is_range()) || (i + 1 < ts.len() && ts[i + 1].is_range())
}

/// Behind the fourth pass whitespace is left only next to a range symbol, and
/// neither at the start nor at the end.
pub proof fn lemma_separate_whitespace(ts: Seq<Tagged>, i: int)
    requires
        0 <= i < ts.len(),
        separate(ts)[i].is_whitespace(),
    ensures
        0 < i < ts.len() - 1,
        is_next_to_range(separate(ts), i),
{
    assert(ts[i].is_whitespace());
    assert(!becomes_comma(ts, i));
    if i == 0 {
        assert(all_whitespace(ts.take(0)));
    }
    if i == ts.len() - 1 {
        assert(all_whitespace(ts.skip(i + 1)));
    }
}

/// Turns the whitespace that separates designators into commas.
pub fn replace_whitespace_to_comma(tokens: &mut Vec<TokenWithSymbol>)
    ensures
        final(tokens).deep_view() == separate(old(tokens).deep_view()),
{
    let ghost given = tokens.deep_view();
    let n = tokens.len();
    let mut lead: usize = 0;
    while lead < n && tokens[lead].is_whitespace()
        invariant
            lead <= n,
            n == tokens.len(),
            given == tokens.deep_view(),
            forall|j: int| 0 <= j < lead ==> (#[trigger] given[j]).is_whitespace(),
        decreases n - lead,
    {
        lead += 1;
    }
    let mut tail: usize = n;
    while tail > 0 && tokens[tail - 1].is_whitespace()
        invariant
            tail <= n,
            n == tokens.len(),
            given == tokens.deep_view(),
            forall|j: int| tail <= j < n ==> (#[trigger] given[j]).is_whitespace(),
        decreases tail,
    {
        tail -= 1;
    }
    let mut i: usize = 0;
    while i < n
        invariant
            i <= n,
            lead <= n,
            tail <= n,
            n == tokens.len(),
            n == given.len(),
            forall|j: int| 0 <= j < lead ==> (#[trigger] given[j]).is_whitespace(),
            lead < n ==> !given[lead as int].is_whitespace(),
            forall|j: int| tail <= j < n ==> (#[trigger] given[j]).is_whitespace(),
            tail > 0 ==> !given[tail - 1].is_whitespace(),
            forall|j: int|
                0 <= j < n ==> #[trigger] tokens.deep_view()[j] == if j < i && becomes_comma(
                    given,
                    j,
                ) {
                    given[j].as_comma()
                } else {
                    given[j]
                },
        decreases n - i,
    {
        let ghost before = tokens.deep_view();
        assert(before[i as int] == given[i as int]);
        if tokens[i].is_whitespace() {
            let at_edge = i < lead || i >= tail;
            proof {
                if at_edge {
                    if i < lead {
                        assert forall|j: int| 0 <= j < given.take(i as int).len() implies (
                        #[trigger] given.take(i as int)[j]).is_whitespace() by {
                            assert(given[j].is_whitespace());
                        }
                    } else {
                        assert forall|j: int| 0 <= j < given.skip(i + 1).len() implies (
                        #[trigger] given.skip(i + 1)[j]).is_whitespace() by {
                            assert(given[j + i + 1].is_whitespace());
                        }
                    }
                } else {
                    assert(lead < i);
                    assert(given.take(i as int)[lead as int] == given[lead as int]);
                    assert(i + 1 < tail);
                    assert(given.skip(i + 1)[tail - 1 - (i + 1)] == given[tail - 1]);
                }
            }
            let inner = i > 0 && i + 1 < n;
            let free = if inner {
                assert(before[i - 1].is_range() == given[i - 1].is_range());
                assert(before[i + 1] == given[i + 1]);
                !tokens[i - 1].is_range() && !tokens[i + 1].is_range()
            } else {
                false
            };
            if at_edge || free {
                tokens[i].convert_symbol_to_comma();
            }
        }
        proof {
            let after = tokens.deep_view();
            assert(after =~= before.update(i as int, after[i as int]));
            assert forall|j: int| 0 <= j < n implies #[trigger] after[j] == if j < i + 1
                && becomes_comma(given, j) {
                given[j].as_comma()
            } else {
                given[j]
            } by {
                if j != i {
                    assert(after[j] == before[j]);
                }
            }
        }
        i += 1;
    }
    assert(tokens.deep_view() =~= separate(given));
}

/// The position at which the part between two commas that holds position
/// `i` begins.
pub open spec fn chunk_start(ts: Seq<Tagged>, i: int) -> int
    decreases i,
{
    if i <= 0 {
        0
    } else if ts[i - 1].is_comma() {
        i
    } else {
        chunk_start(ts, i - 1)
    }
}

/// The position of the first comma at or behind `i`, or the length of `ts`.
pub open spec fn chunk_end(ts: Seq<Tagged>, i: int) -> int
    decreases ts.len() - i,
{
    if i >= ts.len() {
        ts.len() as int
    } else if ts[i].is_comma() {
        i
    } else {
        chunk_end(ts, i + 1)
    }
}

/// The tokens between the two commas around position `i`.
pub open spec fn chunk_at(ts: Seq<Tagged>, i: int) -> Seq<Tagged> {
    ts.subrange(chunk_start(ts, i), chunk_end(ts, i))
}

/// Whether `ts[start..end]` is a whole part between two commas.
pub open spec fn is_chunk(ts: Seq<Tagged>, start: int, end: int) -> bool {
    &&& 0 <= start <= end <= ts.len()
    &&& start > 0 ==> ts[start - 1].is_comma()
    &&& end < ts.len() ==> ts[end].is_comma()
    &&& forall|j: int| start <= j < end ==> !(#[trigger] ts[j]).is_comma()
}

/// Every position of a part between two commas has the bounds of that part.
pub proof fn lemma_chunk_bounds(ts: Seq<Tagged>, start: int, end: int, i: int)
    requires
        is_chunk(ts, start, end),
        start <= i <= end,
    ensures
        chunk_start(ts, i) == start,
        chunk_end(ts, i) == end,
{
    lemma_chunk_start(ts, start, end, i);
    lemma_chunk_end(ts, start, end, i);
}

proof fn lemma_chunk_start(ts: Seq<Tagged>, start: int, end: int, i: int)
    requires
        is_chunk(ts, start, end),
        start <= i <= end,
    ensures
        chunk_start(ts, i) == start,
    decreases i - start,
{
    if i > start {
        lemma_chunk_start(ts, start, end, i - 1);
    }
}

proof fn lemma_chunk_end(ts: Seq<Tagged>, start: int, end: int, i: int)
    requires
        is_chunk(ts, start, end),
        start <= i <= end,
    ensures
        chunk_end(ts, i) == end,
    decreases end - i,
{
    if i < end {
        lemma_chunk_end(ts, start, end, i + 1);
    }
}

/// The number of range symbols in `ts`.
pub open spec fn count_ranges(ts: Seq<Tagged>) -> nat
    decreases ts.len(),
{
    if ts.len() == 0 {
        0
    } else {
        count_ranges(ts.drop_last()) + if ts.last().is_range() {
            1nat
        } else {
            0nat
        }
    }
}

/// `ts` without the whitespace at its start.
pub open spec fn skip_whitespace(ts: Seq<Tagged>) -> Seq<Tagged>
    decreases ts.len(),
{
    if ts.len() > 0 && ts[0].is_whitespace() {
        skip_whitespace(ts.drop_first())
    } else {
        ts
    }
}

/// Whether the part `chunk` is a range: it holds one range symbol, and
/// without its whitespace it begins with an identifier, the range symbol and
/// an identifier.
pub open spec fn is_range_expression(chunk: Seq<Tagged>) -> bool {
    let first = skip_whitespace(chunk);
    let second = skip_whitespace(first.drop_first());
    let third = skip_whitespace(second.drop_first());
    &&& count_ranges(chunk) == 1
    &&& first.len() > 0 && first[0].is_identifier()
    &&& second.len() > 0 && second[0].is_range()
    &&& third.len() > 0 && third[0].is_identifier()
}

/// The tokens of `ts` with every range symbol turned into an identifier that
/// stands in a part which is no range.
pub open spec fn sanitize_ranges(ts: Seq<Tagged>) -> Seq<Tagged> {
    Seq::new(
        ts.len(),
        |i: int|
            if ts[i].is_range() && !is_range_expression(chunk_at(ts, i)) {
                ts[i].as_identifier()
            } else {
                ts[i]
            },
    )
}

/// The position of the first comma in `tokens[from..]`, or the length.
pub fn find_comma(tokens: &Vec<TokenWithSymbol>, from: usize) -> (end: usize)
    requires
        from <= tokens.len(),
    ensures
        from <= end <= tokens.len(),
        end == chunk_end(tokens.deep_view(), from as int),
        forall|j: int| from <= j < end ==> !(#[trigger] tokens.deep_view()[j]).is_comma(),
        end < tokens.len() ==> tokens.deep_view()[end as int].is_comma(),
{
    let ghost ts = tokens.deep_view();
    let mut end = from;
    while end < tokens.len() && !tokens[end].is_comma()
        invariant
            from <= end <= tokens.len(),
            ts == tokens.deep_view(),
            chunk_end(ts, from as int) == chunk_end(ts, end as int),
            forall|j: int| from <= j < end ==> !(#[trigger] ts[j]).is_comma(),
        decreases tokens.len() - end,
    {
        end += 1;
    }
    end
}

/// The number of range symbols in `tokens[start..end]`, counted up to two.
fn count_range_symbols(tokens: &Vec<TokenWithSymbol>, start: usize, end: usize) -> (count: usize)
    requires
        start <= end <= tokens.len(),
    ensures
        count <= 2,
        count < 2 ==> count == count_ranges(
            tokens.deep_view().subrange(start as int, end as int),
        ),
        count == 2 ==> count_ranges(tokens.deep_view().subrange(start as int, end as int)) >= 2,
{
    let ghost ts = tokens.deep_view();
    let mut count: usize = 0;
    let mut j = start;
    assert(ts.subrange(start as int, start as int) =~= Seq::<Tagged>::empty());
    while j < end
        invariant
            start <= j <= end <= tokens.len(),
            ts == tokens.deep_view(),
            count <= 2,
            count < 2 ==> count == count_ranges(ts.subrange(start as int, j as int)),
            count == 2 ==> count_ranges(ts.subrange(start as int, j as int)) >= 2,
        decreases end - j,
    {
        assert(ts.subrange(start as int, j + 1).drop_last() == ts.subrange(
            start as int,
            j as int,
        ));
        if tokens[j].is_range() && count < 2 {
            count += 1;
        }
        j += 1;
    }
    count
}

/// The position of the first token in `tokens[from..end]` that is no
/// whitespace, or `end`.
fn find_solid(tokens: &Vec<TokenWithSymbol>, from: usize, end: usize) -> (at: usize)
    requires
        from <= end <= tokens.len(),
    ensures
        from <= at <= end,
        skip_whitespace(tokens.deep_view().subrange(from as int, end as int))
            == tokens.deep_view().subrange(at as int, end as int),
{
    let ghost ts = tokens.deep_view();
    let mut at = from;
    while at < end && tokens[at].is_whitespace()
        invariant
            from <= at <= end <= tokens.len(),
            ts == tokens.deep_view(),
            skip_whitespace(ts.subrange(from as int, end as int)) == skip_whitespace(
                ts.subrange(at as int, end as int),
            ),
        decreases end - at,
    {
        assert(ts.subrange(at as int, end as int).drop_first() == ts.subrange(
            at + 1,
            end as int,
        ));
        at += 1;
    }
    at
}

/// Whether `tokens[start..end]` is a range.
fn check_range_expression(tokens: &Vec<TokenWithSymbol>, start: usize, end: usize) -> (r: bool)
    requires
        start <= end <= tokens.len(),
    ensures
        r == is_range_expression(tokens.deep_view().subrange(start as int, end as int)),
{
    let ghost ts = tokens.deep_view();
    if count_range_symbols(tokens, start, end) != 1 {
        return false;
    }
    let first = find_solid(tokens, start, end);
    if first == end || !tokens[first].is_identifier() {
        return false;
    }
    assert(ts.subrange(first as int, end as int).drop_first() == ts.subrange(
        first + 1,
        end as int,
    ));
    let second = find_solid(tokens, first + 1, end);
    if second == end || !tokens[second].is_range() {
        return false;
    }
    assert(ts.subrange(second as int, end as int).drop_first() == ts.subrange(
        second + 1,
        end as int,
    ));
    let third = find_solid(tokens, second + 1, end);
    third < end && tokens[third].is_identifier()
}

/// Turns every range symbol into an identifier that stands in a part which
/// is no range.
pub fn replace_invalid_range_symbols(tokens: &mut Vec<TokenWithSymbol>)
    ensures
        final(tokens).deep_view() == sanitize_ranges(old(tokens).deep_view()),
{
    let ghost given = tokens.deep_view();
    let n = tokens.len();
    let mut start: usize = 0;
    let mut finished = false;
    while !finished
        invariant
            start <= n,
            n == tokens.len(),
            n == given.len(),
            !finished ==> (start > 0 ==> given[start - 1].is_comma()),
            forall|j: int|
                0 <= j < n ==> #[trigger] tokens.deep_view()[j] == if (finished || j < start)
                    && given[j].is_range() && !is_range_expression(chunk_at(given, j)) {
                    given[j].as_identifier()
                } else {
                    given[j]
                },
        decreases n - start + if finished { 0int } else { 1int },
    {
        let ghost before = tokens.deep_view();
        let end = find_comma(tokens, start);
        let valid = check_range_expression(tokens, start, end);
        proof {
            assert forall|j: int| start <= j < end implies !(#[trigger] given[j]).is_comma() by {
                assert(before[j] == given[j]);
            }
            if end < n {
                assert(before[end as int] == given[end as int]);
            }
            assert(is_chunk(given, start as int, end as int));
            assert(before.subrange(start as int, end as int) =~= given.subrange(
                start as int,
                end as int,
            ));
        }
        let mut j = start;
        while j < end
            invariant
                start <= j <= end <= n,
                n == tokens.len(),
                n == given.len(),
                is_chunk(given, start as int, end as int),
                valid == is_range_expression(given.subrange(start as int, end as int)),
                forall|l: int|
                    0 <= l < n ==> #[trigger] tokens.deep_view()[l] == if (l < j)
                        && given[l].is_range() && !is_range_expression(chunk_at(given, l)) {
                        given[l].as_identifier()
                    } else {
                        given[l]
                    },
            decreases end - j,
        {
            let ghost inner = tokens.deep_view();
            assert(inner[j as int] == given[j as int]);
            proof {
                lemma_chunk_bounds(given, start as int, end as int, j as int);
            }
            if !valid && tokens[j].is_range() {
                tokens[j].convert_symbol_to_identifier();
            }
            proof {
                let after = tokens.deep_view();
                assert(after =~= inner.update(j as int, after[j as int]));
                assert forall|l: int| 0 <= l < n implies #[trigger] after[l] == if (l < j + 1)
                    && given[l].is_range() && !is_range_expression(chunk_at(given, l)) {
                    given[l].as_identifier()
                } else {
                    given[l]
                } by {
                    if l != j {
                        assert(after[l] == inner[l]);
                    }
                }
            }
            j += 1;
        }
        if end == n {
            finished = true;
            start = n;
        } else {
            start = end + 1;
        }
    }
    assert(tokens.deep_view() =~= sanitize_ranges(given));
}

/// The rebuilt tokens `out` with the token `t` taken in: behind a comma,
/// whitespace and commas are dropped; an identifier behind an identifier is
/// made one with it; any other token is added with its payload rebuilt from
/// its symbol.
pub open spec fn rebuild_step(out: Seq<Tagged>, t: Tagged) -> Seq<Tagged> {
    if out.len() > 0 && out.last().is_comma() && (t.is_whitespace() || t.is_comma()) {
        out
    } else if out.len() > 0 && out.last().is_identifier() && t.is_identifier() {
        out.drop_last().push(out.last().merged(t.token.text()))
    } else {
        out.push(t.transformed())
    }
}

/// The tokens of `ts` rebuilt one after the other.
pub open spec fn rebuilt(ts: Seq<Tagged>) -> Seq<Tagged>
    decreases ts.len(),
{
    if ts.len() == 0 {
        Seq::empty()
    } else {
        rebuild_step(rebuilt(ts.drop_last()), ts.last())
    }
}

/// In a rebuilt stream no identifier follows an identifier, and neither a
/// comma nor whitespace follows a comma.
pub proof fn lemma_rebuilt_compact(ts: Seq<Tagged>, i: int)
    requires
        0 <= i,
        i + 1 < rebuilt(ts).len(),
    ensures
        !(rebuilt(ts)[i].is_identifier() && rebuilt(ts)[i + 1].is_identifier()),
        rebuilt(ts)[i].is_comma() ==> !rebuilt(ts)[i + 1].is_comma() && !rebuilt(ts)[i
            + 1].is_whitespace(),
    decreases ts.len(),
{
    if ts.len() > 0 {
        let out = rebuilt(ts.drop_last());
        let all = rebuilt(ts);
        if i + 1 < out.len() {
            lemma_rebuilt_compact(ts.drop_last(), i);
        }
    }
}

/// Whether the payload of every token of `ts` fits its symbol.
pub open spec fn all_in_sync(ts: Seq<Tagged>) -> bool {
    forall|i: int| 0 <= i < ts.len() ==> (#[trigger] ts[i]).in_sync()
}

/// A new token stream in which the payload of every token fits its symbol,
/// neighbouring identifiers are one and no separator follows a comma.
pub fn rebuild(tokens: Vec<TokenWithSymbol>) -> (out: Vec<TokenWithSymbol>)
    ensures
        out.deep_view() == rebuilt(tokens.deep_view()),
        all_in_sync(out.deep_view()),
{
    let ghost given = tokens.deep_view();
    let mut out: Vec<TokenWithSymbol> = Vec::new();
    assert(out.deep_view() =~= rebuilt(given.take(0)));
    for token in it: tokens
        invariant
            it.seq() == tokens@,
            given == tokens.deep_view(),
            out.deep_view() == rebuilt(given.take(it.index())),
            all_in_sync(out.deep_view()),
    {
        let ghost i = it.index();
        let ghost before = out.deep_view();
        assert(given.take(i + 1).drop_last() == given.take(i));
        assert(given.take(i + 1).last() == token@);
        let n = out.len();
        let mut token = token;
        if n > 0 && out[n - 1].is_comma() && (token.is_whitespace() || token.is_comma()) {
        } else if n > 0 && out[n - 1].is_identifier() && token.is_identifier() {
            assert(before.last().in_sync());
            // The token in front holds an identifier, so the two can be merged.
            match out[n - 1].merge_token(token.token()) {
                Ok(()) => {},
                Err(_) => {
                    assert(false);
                },
            }
            assert(out.deep_view() =~= before.drop_last().push(
                before.last().merged(token@.token.text()),
            ));
        } else {
            token.transform();
            out.push(token);
            assert(out.deep_view() =~= before.push(given[i].transformed()));
        }
    }
    assert(given.take(given.len() as int) == given);
    out
}

/// The position of the first range symbol in `ts`, or its length.
pub open spec fn first_range(ts: Seq<Tagged>) -> int
    decreases ts.len(),
{
    if ts.len() == 0 {
        0
    } else if ts[0].is_range() {
        0
    } else {
        1 + first_range(ts.drop_first())
    }
}

/// No range symbol stands in front of the first one.
pub proof fn lemma_first_range(ts: Seq<Tagged>)
    ensures
        0 <= first_range(ts) <= ts.len(),
        forall|j: int| 0 <= j < first_range(ts) ==> !(#[trigger] ts[j]).is_range(),
        first_range(ts) < ts.len() ==> ts[first_range(ts)].is_range(),
    decreases ts.len(),
{
    if ts.len() > 0 && !ts[0].is_range() {
        let rest = ts.drop_first();
        lemma_first_range(rest);
        assert forall|j: int| 0 <= j < first_range(ts) implies !(#[trigger] ts[j]).is_range() by {
            if j > 0 {
                assert(ts[j] == rest[j - 1]);
            }
        }
        if first_range(ts) < ts.len() {
            assert(ts[first_range(ts)] == rest[first_range(rest)]);
        }
    }
}

/// A range symbol that no range symbol stands in front of is the first
/// one.
pub proof fn lemma_first_range_is(ts: Seq<Tagged>, k: int)
    requires
        0 <= k <= ts.len(),
        forall|j: int| 0 <= j < k ==> !(#[trigger] ts[j]).is_range(),
        k < ts.len() ==> ts[k].is_range(),
    ensures
        first_range(ts) == k,
    decreases k,
{
    if k > 0 {
        let rest = ts.drop_first();
        assert forall|j: int| 0 <= j < k - 1 implies !(#[trigger] rest[j]).is_range() by {
            assert(rest[j] == ts[j + 1]);
        }
        lemma_first_range_is(rest, k - 1);
    }
}

/// The position of the first range symbol in the part between two commas
/// that holds position `i`, or the end of that part.
pub open spec fn range_position(ts: Seq<Tagged>, i: int) -> int {
    chunk_start(ts, i) + first_range(chunk_at(ts, i))
}

/// The tokens of `ts` with the range symbol of every part brought to the
/// front of its part: the first range symbol of the part and the first token
/// of the part change places.
pub open spec fn prefix_notation(ts: Seq<Tagged>) -> Seq<Tagged> {
    Seq::new(
        ts.len(),
        |i: int|
            if range_position(ts, i) < chunk_end(ts, i) {
                if i == chunk_start(ts, i) {
                    ts[range_position(ts, i)]
                } else if i == range_position(ts, i) {
                    ts[chunk_start(ts, i)]
                } else {
                    ts[i]
                }
            } else {
                ts[i]
            },
    )
}

/// Exchanges the tokens at `a` and `b`.
fn swap_tokens(tokens: &mut Vec<TokenWithSymbol>, a: usize, b: usize)
    requires
        a < old(tokens).len(),
        b < old(tokens).len(),
    ensures
        final(tokens).len() == old(tokens).len(),
        final(tokens).deep_view() == old(tokens).deep_view().update(
            a as int,
            old(tokens).deep_view()[b as int],
        ).update(b as int, old(tokens).deep_view()[a as int]),
{
    let ghost before = tokens.deep_view();
    if a != b {
        let mut held = TokenWithSymbol::new(Token::Whitespace);
        core::mem::swap(&mut tokens[a], &mut held);
        core::mem::swap(&mut tokens[b], &mut held);
        core::mem::swap(&mut tokens[a], &mut held);
    }
    assert(tokens.deep_view() =~= before.update(a as int, before[b as int]).update(
        b as int,
        before[a as int],
    ));
}

/// Brings the range symbol of every part between two commas to the front of
/// its part.
pub fn convert_prefix_notation(tokens: &mut Vec<TokenWithSymbol>)
    ensures
        final(tokens).deep_view() == prefix_notation(old(tokens).deep_view()),
{
    let ghost given = tokens.deep_view();
    let n = tokens.len();
    let mut start: usize = 0;
    let mut finished = false;
    while !finished
        invariant
            start <= n,
            n == tokens.len(),
            n == given.len(),
            !finished ==> (start > 0 ==> given[start - 1].is_comma()),
            forall|j: int|
                0 <= j < n ==> #[trigger] tokens.deep_view()[j] == if finished || j < start {
                    prefix_notation(given)[j]
                } else {
                    given[j]
                },
        decreases n - start + if finished { 0int } else { 1int },
    {
        let ghost before = tokens.deep_view();
        let end = find_comma(tokens, start);
        let mut at = start;
        while at < end && !tokens[at].is_range()
            invariant
                start <= at <= end <= n,
                n == tokens.len(),
                before == tokens.deep_view(),
                forall|j: int| start <= j < at ==> !(#[trigger] before[j]).is_range(),
            decreases end - at,
        {
            at += 1;
        }
        proof {
            assert forall|j: int| start <= j < end implies !(#[trigger] given[j]).is_comma() by {
                assert(before[j] == given[j]);
            }
            if end < n {
                assert(before[end as int] == given[end as int]);
            }
            assert(is_chunk(given, start as int, end as int));
            let chunk = given.subrange(start as int, end as int);
            assert forall|j: int| 0 <= j < at - start implies !(#[trigger] chunk[j]).is_range() by {
                assert(before[j + start] == given[j + start]);
            }
            if at < end {
                assert(before[at as int] == given[at as int]);
            }
            lemma_first_range_is(chunk, at - start);
            assert forall|j: int| start <= j <= end implies chunk_start(given, j) == start
                && chunk_end(given, j) == end by {
                lemma_chunk_bounds(given, start as int, end as int, j);
            }
        }
        if at < end {
            swap_tokens(tokens, start, at);
        }
        proof {
            let after = tokens.deep_view();
            let wanted = prefix_notation(given);
            let next: int = if end == n { n as int } else { end + 1 };
            assert forall|j: int| 0 <= j < n implies #[trigger] after[j] == if j < next {
                wanted[j]
            } else {
                given[j]
            } by {
                if j < start || j > end {
                    assert(after[j] == before[j]);
                } else {
                    assert(before[j] == given[j]);
                    assert(before[start as int] == given[start as int]);
                    if at < end {
                        assert(before[at as int] == given[at as int]);
                    }
                    assert(chunk_start(given, j) == start && chunk_end(given, j) == end);
                    assert(range_position(given, j) == at);
                }
            }
        }
        if end == n {
            finished = true;
            start = n;
        } else {
            start = end + 1;
        }
    }
    assert(tokens.deep_view() =~= prefix_notation(given));
}

} // verus!
