//! What the later passes of the parser do to the tokens of a list of
//! entries: the tokens of every entry stay as they are but for the range
//! symbol, which comes to the front of its entry.

use crate::chunks::{
    has_no_comma, lemma_prefix_notation_concat, lemma_sanitize_ranges_concat, lemma_single_chunk,
};
use crate::round_trip::entries::{
    comma, entries_tokens, entry_tokens, identifier, range_symbol, Entry,
};
use crate::passes::{
    count_ranges, first_range, is_range_expression, prefix_notation, range_position, rebuild_step,
    rebuilt, sanitize_ranges, skip_whitespace,
};
use crate::round_trip::stream::{are_solid, is_solid_token, marked, marked_token};
use crate::token::Tagged;
use vstd::prelude::*;

verus! {

/// The tokens of an entry with the range symbol in front.
pub open spec fn entry_prefix_tokens(e: Entry, is_marked: bool) -> Seq<Tagged> {
    match e.last {
        Some(l) => seq![range_symbol(), identifier(e.first, is_marked), identifier(l, is_marked)],
        None => seq![identifier(e.first, is_marked)],
    }
}

/// The tokens of the entries, each with its range symbol in front, with
/// commas between them.
pub open spec fn entries_prefix_tokens(es: Seq<Entry>, is_marked: bool) -> Seq<Tagged>
    decreases es.len(),
{
    if es.len() == 0 {
        Seq::empty()
    } else if es.len() == 1 {
        entry_prefix_tokens(es[0], is_marked)
    } else {
        entries_prefix_tokens(es.drop_last(), is_marked) + seq![comma()] + entry_prefix_tokens(
            es.last(),
            is_marked,
        )
    }
}

/// The tokens of an entry are solid and hold no comma; they begin and end
/// with an identifier.
pub proof fn lemma_entry_tokens(e: Entry, is_marked: bool)
    ensures
        are_solid(entry_tokens(e, is_marked)),
        has_no_comma(entry_tokens(e, is_marked)),
        entry_tokens(e, is_marked).len() > 0,
        entry_tokens(e, is_marked)[0].is_identifier(),
        entry_tokens(e, is_marked).last().is_identifier(),
        marked(entry_tokens(e, false)) == entry_tokens(e, true),
{
    let c = entry_tokens(e, is_marked);
    assert(is_solid_token(identifier(e.first, is_marked)));
    assert(is_solid_token(range_symbol()));
    if let Some(l) = e.last {
        assert(is_solid_token(identifier(l, is_marked)));
    }
    assert(marked_token(identifier(e.first, false)) == identifier(e.first, true));
    assert(marked(entry_tokens(e, false)) =~= entry_tokens(e, true));
}

/// The tokens of entries are solid; they begin and end with an identifier.
pub proof fn lemma_entries_tokens(es: Seq<Entry>, is_marked: bool)
    ensures
        are_solid(entries_tokens(es, is_marked)),
        es.len() > 0 ==> entries_tokens(es, is_marked).len() > 0 && entries_tokens(
            es,
            is_marked,
        )[0].is_identifier() && entries_tokens(es, is_marked).last().is_identifier(),
        es.len() == 0 ==> entries_tokens(es, is_marked).len() == 0,
        marked(entries_tokens(es, false)) == entries_tokens(es, true),
    decreases es.len(),
{
    if es.len() == 0 {
        assert(marked(entries_tokens(es, false)) =~= entries_tokens(es, true));
    } else if es.len() == 1 {
        lemma_entry_tokens(es[0], is_marked);
    } else {
        let front = es.drop_last();
        let e = es.last();
        lemma_entries_tokens(front, is_marked);
        lemma_entry_tokens(e, is_marked);
        let x = entries_tokens(front, is_marked);
        let c = entry_tokens(e, is_marked);
        let all = entries_tokens(es, is_marked);
        assert(all == x + seq![comma()] + c);
        assert(is_solid_token(comma()));
        assert forall|i: int| 0 <= i < all.len() implies is_solid_token(#[trigger] all[i]) by {
            if i < x.len() {
                assert(all[i] == x[i]);
            } else if i > x.len() {
                assert(all[i] == c[i - x.len() - 1]);
            }
        }
        assert(all[0] == x[0]);
        assert(all.last() == c.last());
        let plain_front = entries_tokens(front, false);
        let plain_own = entry_tokens(e, false);
        assert(marked(plain_front + seq![comma()] + plain_own) =~= marked(plain_front)
            + seq![comma()] + marked(plain_own));
    }
}

/// The number of range symbols in the tokens of a range is one.
proof fn lemma_count_ranges_of_range(a: Tagged, b: Tagged)
    requires
        a.is_identifier(),
        b.is_identifier(),
    ensures
        count_ranges(seq![a, range_symbol(), b]) == 1,
{
    let c = seq![a, range_symbol(), b];
    let two = seq![a, range_symbol()];
    let one = seq![a];
    assert(c.drop_last() =~= two);
    assert(two.drop_last() =~= one);
    assert(one.drop_last() =~= Seq::<Tagged>::empty());
    assert(count_ranges(one.drop_last()) == 0);
    assert(count_ranges(one) == 0);
    assert(count_ranges(two) == 1);
}

/// The pass that takes back range symbols leaves the tokens of an entry as
/// they are.
pub proof fn lemma_sanitize_entry(e: Entry, is_marked: bool)
    ensures
        sanitize_ranges(entry_tokens(e, is_marked)) == entry_tokens(e, is_marked),
{
    let c = entry_tokens(e, is_marked);
    lemma_entry_tokens(e, is_marked);
    match e.last {
        Some(l) => {
            let a = identifier(e.first, is_marked);
            let b = identifier(l, is_marked);
            lemma_count_ranges_of_range(a, b);
            let second = seq![range_symbol(), b];
            let third = seq![b];
            assert(c.drop_first() =~= second);
            assert(second.drop_first() =~= third);
            assert(skip_whitespace(c) == c);
            assert(skip_whitespace(second) == second);
            assert(skip_whitespace(third) == third);
            assert(is_range_expression(c));
            assert forall|i: int| 0 <= i < c.len() implies sanitize_ranges(c)[i] == c[i] by {
                lemma_single_chunk(c, i);
            }
        },
        None => {},
    }
    assert(sanitize_ranges(c) =~= c);
}

/// The pass that takes back range symbols leaves the tokens of entries as
/// they are.
pub proof fn lemma_sanitize_entries(es: Seq<Entry>, is_marked: bool)
    ensures
        sanitize_ranges(entries_tokens(es, is_marked)) == entries_tokens(es, is_marked),
    decreases es.len(),
{
    if es.len() == 0 {
        assert(sanitize_ranges(entries_tokens(es, is_marked)) =~= entries_tokens(es, is_marked));
    } else if es.len() == 1 {
        lemma_sanitize_entry(es[0], is_marked);
    } else {
        lemma_sanitize_entries(es.drop_last(), is_marked);
        lemma_sanitize_entry(es.last(), is_marked);
        lemma_sanitize_ranges_concat(
            entries_tokens(es.drop_last(), is_marked),
            comma(),
            entry_tokens(es.last(), is_marked),
        );
    }
}

/// The pass that brings range symbols to the front does so in the tokens of
/// an entry.
pub proof fn lemma_prefix_entry(e: Entry, is_marked: bool)
    ensures
        prefix_notation(entry_tokens(e, is_marked)) == entry_prefix_tokens(e, is_marked),
{
    let c = entry_tokens(e, is_marked);
    lemma_entry_tokens(e, is_marked);
    assert forall|i: int| 0 <= i < c.len() implies prefix_notation(c)[i] == entry_prefix_tokens(
        e,
        is_marked,
    )[i] by {
        lemma_single_chunk(c, i);
        match e.last {
            Some(l) => {
                let rest = seq![range_symbol(), identifier(l, is_marked)];
                assert(c.drop_first() =~= rest);
                assert(first_range(rest) == 0);
                assert(first_range(c) == 1);
            },
            None => {
                assert(c.drop_first() =~= Seq::<Tagged>::empty());
                assert(first_range(c.drop_first()) == 0);
                assert(first_range(c) == 1);
            },
        }
        assert(range_position(c, i) == 1);
    }
    assert(prefix_notation(c) =~= entry_prefix_tokens(e, is_marked));
}

/// The pass that brings range symbols to the front does so in every entry.
pub proof fn lemma_prefix_entries(es: Seq<Entry>, is_marked: bool)
    ensures
        prefix_notation(entries_tokens(es, is_marked)) == entries_prefix_tokens(es, is_marked),
    decreases es.len(),
{
    if es.len() == 0 {
        assert(prefix_notation(entries_tokens(es, is_marked)) =~= entries_prefix_tokens(
            es,
            is_marked,
        ));
    } else if es.len() == 1 {
        lemma_prefix_entry(es[0], is_marked);
    } else {
        lemma_prefix_entries(es.drop_last(), is_marked);
        lemma_prefix_entry(es.last(), is_marked);
        lemma_prefix_notation_concat(
            entries_tokens(es.drop_last(), is_marked),
            comma(),
            entry_tokens(es.last(), is_marked),
        );
    }
}

/// Rebuilding goes token by token.
pub proof fn lemma_rebuilt_push(ts: Seq<Tagged>, t: Tagged)
    ensures
        rebuilt(ts.push(t)) == rebuild_step(rebuilt(ts), t),
{
    assert(ts.push(t).drop_last() =~= ts);
}

/// Whether a rebuilt stream takes the tokens of an entry as they are: it is
/// empty or ends with a comma.
pub open spec fn is_open_end(out: Seq<Tagged>) -> bool {
    out.len() == 0 || out.last().is_comma()
}

/// Rebuilding takes the tokens of an entry as they are behind a comma and at
/// the start.
pub proof fn lemma_rebuilt_entry(pre: Seq<Tagged>, e: Entry, is_marked: bool)
    requires
        is_open_end(rebuilt(pre)),
    ensures
        rebuilt(pre + entry_tokens(e, is_marked)) == rebuilt(pre) + entry_tokens(e, is_marked),
{
    let out = rebuilt(pre);
    let a = identifier(e.first, is_marked);
    lemma_rebuilt_push(pre, a);
    assert(rebuilt(pre.push(a)) == out.push(a));
    match e.last {
        Some(l) => {
            let b = identifier(l, is_marked);
            lemma_rebuilt_push(pre.push(a), range_symbol());
            lemma_rebuilt_push(pre.push(a).push(range_symbol()), b);
            assert(pre + entry_tokens(e, is_marked) =~= pre.push(a).push(range_symbol()).push(b));
            assert(out + entry_tokens(e, is_marked) =~= out.push(a).push(range_symbol()).push(b));
        },
        None => {
            assert(pre + entry_tokens(e, is_marked) =~= pre.push(a));
            assert(out + entry_tokens(e, is_marked) =~= out.push(a));
        },
    }
}

/// Rebuilding takes a comma as it is behind an identifier.
pub proof fn lemma_rebuilt_comma(ts: Seq<Tagged>)
    requires
        rebuilt(ts).len() > 0,
        rebuilt(ts).last().is_identifier(),
    ensures
        rebuilt(ts.push(comma())) == rebuilt(ts).push(comma()),
        is_open_end(rebuilt(ts.push(comma()))),
{
    lemma_rebuilt_push(ts, comma());
    assert(comma().transformed() == comma());
}

/// Rebuilding takes the tokens of entries as they are behind a comma and at
/// the start.
pub proof fn lemma_rebuilt_entries(pre: Seq<Tagged>, es: Seq<Entry>, is_marked: bool)
    requires
        is_open_end(rebuilt(pre)),
    ensures
        rebuilt(pre + entries_tokens(es, is_marked)) == rebuilt(pre) + entries_tokens(
            es,
            is_marked,
        ),
    decreases es.len(),
{
    let out = rebuilt(pre);
    if es.len() == 0 {
        assert(pre + entries_tokens(es, is_marked) =~= pre);
        assert(out + entries_tokens(es, is_marked) =~= out);
    } else if es.len() == 1 {
        lemma_rebuilt_entry(pre, es[0], is_marked);
    } else {
        let front = es.drop_last();
        let e = es.last();
        let x = entries_tokens(front, is_marked);
        let c = entry_tokens(e, is_marked);
        lemma_rebuilt_entries(pre, front, is_marked);
        lemma_entries_tokens(front, is_marked);
        assert((out + x).last() == x.last());
        lemma_rebuilt_comma(pre + x);
        let so_far = (pre + x).push(comma());
        lemma_rebuilt_entry(so_far, e, is_marked);
        lemma_concat_entry(pre, x, c);
        lemma_concat_entry(out, x, c);
    }
}

/// Putting streams one behind the other does not depend on where one
/// begins.
proof fn lemma_concat_entry(pre: Seq<Tagged>, x: Seq<Tagged>, c: Seq<Tagged>)
    ensures
        pre + (x + seq![comma()] + c) == (pre + x).push(comma()) + c,
{
    assert(pre + (x + seq![comma()] + c) =~= (pre + x).push(comma()) + c);
}

/// Whether every comma of `ts` is followed by a token that is none.
pub open spec fn has_single_commas(ts: Seq<Tagged>) -> bool {
    &&& forall|i: int| 0 <= i < ts.len() && (#[trigger] ts[i]).is_comma() ==> i + 1 < ts.len()
    &&& forall|i: int, j: int|
        0 <= i && j == i + 1 && j < ts.len() && (#[trigger] ts[i]).is_comma() ==> !(
        #[trigger] ts[j]).is_comma()
}

/// Every comma among the tokens of entries is followed by an identifier.
pub proof fn lemma_entries_tokens_commas(es: Seq<Entry>, is_marked: bool)
    ensures
        has_single_commas(entries_tokens(es, is_marked)),
    decreases es.len(),
{
    let all = entries_tokens(es, is_marked);
    if es.len() == 1 {
        lemma_entry_tokens(es[0], is_marked);
        assert(has_no_comma(all));
    } else if es.len() > 1 {
        let front = es.drop_last();
        let e = es.last();
        lemma_entries_tokens_commas(front, is_marked);
        lemma_entries_tokens(front, is_marked);
        lemma_entry_tokens(e, is_marked);
        let x = entries_tokens(front, is_marked);
        let c = entry_tokens(e, is_marked);
        assert(all == x + seq![comma()] + c);
        assert forall|i: int| 0 <= i < all.len() && (#[trigger] all[i]).is_comma() implies i + 1
            < all.len() by {
            if i < x.len() {
                assert(all[i] == x[i]);
            } else if i > x.len() {
                assert(all[i] == c[i - x.len() - 1]);
            }
        }
        assert forall|i: int, j: int|
            0 <= i && j == i + 1 && j < all.len() && (#[trigger] all[i]).is_comma() implies !(
            #[trigger] all[j]).is_comma() by {
            if i < x.len() {
                assert(all[i] == x[i]);
                if j < x.len() {
                    assert(all[j] == x[j]);
                }
            } else if i == x.len() {
                assert(all[j] == c[0]);
            } else {
                assert(all[i] == c[i - x.len() - 1]);
            }
        }
    }
}

} // verus!
