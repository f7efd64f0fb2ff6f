//! The canonical tokens of a compact text, and the designators that the
//! parser makes of them.
//!
//! The tokens of a compact text are a stream as [`crate::round_trip::stream`] describes
//! it.  This file follows the stream through the later passes of the parser
//! and through its last step.

use crate::round_trip::canonical::{
    entries_prefix_tokens, lemma_entries_tokens, lemma_prefix_entries, lemma_rebuilt_entries,
    lemma_rebuilt_push, lemma_sanitize_entries,
};
use crate::chunks::{has_no_comma, lemma_prefix_notation_concat, lemma_sanitize_ranges_concat};
use crate::designator::DesignatorView;
use crate::round_trip::entries::{comma, entries_tokens, runs_entries, Entry};
use crate::round_trip::expand::{
    after, flagged_all, is_regular_group, lemma_group_designators, lemma_materialized_chunk,
};
use crate::builder::runs_from;
use crate::materialize::{chunk_designators, materialized, materialized_from};
use crate::passes::{prefix_notation, rebuilt, sanitize_ranges};
use crate::round_trip::stream::{close_comma, lead, open_comma, stream};
use crate::token::Tagged;
use vstd::prelude::*;

verus! {

/// What stands in front of the second group after rebuilding: the tokens
/// `plain` and a comma.
pub open spec fn comma_behind(plain: Seq<Tagged>) -> Seq<Tagged> {
    plain.push(comma())
}

/// The tokens `plain`, followed by the tokens `wrapped` between two commas if
/// there are any.
pub open spec fn rebuilt_stream(plain: Seq<Tagged>, wrapped: Seq<Tagged>) -> Seq<Tagged> {
    if wrapped.len() > 0 {
        comma_behind(plain) + wrapped + seq![comma()]
    } else {
        plain
    }
}

/// The passes leave an empty stream empty.
pub proof fn lemma_sanitize_empty()
    ensures
        sanitize_ranges(Seq::<Tagged>::empty()) == Seq::<Tagged>::empty(),
        prefix_notation(Seq::<Tagged>::empty()) == Seq::<Tagged>::empty(),
        rebuilt(Seq::<Tagged>::empty()) == Seq::<Tagged>::empty(),
{
    assert(sanitize_ranges(Seq::<Tagged>::empty()) =~= Seq::<Tagged>::empty());
    assert(prefix_notation(Seq::<Tagged>::empty()) =~= Seq::<Tagged>::empty());
}

/// The pass that takes back range symbols leaves the stream as it is.
pub proof fn lemma_sanitize_stream(plain: Seq<Entry>, wrapped: Seq<Entry>)
    ensures
        sanitize_ranges(
            stream(
                entries_tokens(plain, false),
                open_comma(),
                entries_tokens(wrapped, true),
                close_comma(),
            ),
        ) == stream(
            entries_tokens(plain, false),
            open_comma(),
            entries_tokens(wrapped, true),
            close_comma(),
        ),
{
    let a = entries_tokens(plain, false);
    let b = entries_tokens(wrapped, true);
    let all = stream(a, open_comma(), b, close_comma());
    let none = Seq::<Tagged>::empty();
    lemma_sanitize_entries(plain, false);
    lemma_sanitize_entries(wrapped, true);
    lemma_sanitize_empty();
    if b.len() > 0 {
        let z = b + seq![close_comma()] + none;
        lemma_sanitize_ranges_concat(b, close_comma(), none);
        let y = none + seq![open_comma()] + z;
        lemma_sanitize_ranges_concat(none, open_comma(), z);
        if a.len() > 0 {
            lemma_sanitize_ranges_concat(a, comma(), y);
            assert(all =~= a + seq![comma()] + y);
        } else {
            assert(all =~= y);
        }
    }
}

/// Rebuilding drops the first of the two commas that were parentheses where
/// it follows a comma, and gives both the payload of a comma.
pub proof fn lemma_rebuilt_stream(plain: Seq<Entry>, wrapped: Seq<Entry>)
    ensures
        rebuilt(
            stream(
                entries_tokens(plain, false),
                open_comma(),
                entries_tokens(wrapped, true),
                close_comma(),
            ),
        ) == rebuilt_stream(entries_tokens(plain, false), entries_tokens(wrapped, true)),
{
    let a = entries_tokens(plain, false);
    let b = entries_tokens(wrapped, true);
    let all = stream(a, open_comma(), b, close_comma());
    let none = Seq::<Tagged>::empty();
    lemma_sanitize_empty();
    lemma_entries_tokens(plain, false);
    lemma_entries_tokens(wrapped, true);
    lemma_rebuilt_entries(none, plain, false);
    assert(none + a =~= a);
    assert(rebuilt(a) == a);
    if b.len() > 0 {
        let front = lead(a).push(open_comma());
        assert(rebuilt(front) == comma_behind(a)) by {
            if a.len() > 0 {
                lemma_rebuilt_push(a, comma());
                lemma_rebuilt_push(a.push(comma()), open_comma());
                assert(comma().transformed() == comma());
            } else {
                lemma_rebuilt_push(none, open_comma());
                assert(open_comma().transformed() == comma());
                assert(none.push(comma()) =~= comma_behind(a));
            }
        }
        lemma_rebuilt_entries(front, wrapped, true);
        lemma_rebuilt_push(front + b, close_comma());
        assert(close_comma().transformed() == comma());
        assert((comma_behind(a) + b).last() == b.last());
        assert(all =~= (front + b).push(close_comma()));
        assert(rebuilt_stream(a, b) =~= (comma_behind(a) + b).push(comma()));
    }
}

/// The pass that brings range symbols to the front does so in every entry of
/// the stream.
pub proof fn lemma_prefix_stream(plain: Seq<Entry>, wrapped: Seq<Entry>)
    ensures
        prefix_notation(
            rebuilt_stream(entries_tokens(plain, false), entries_tokens(wrapped, true)),
        ) == rebuilt_stream(
            entries_prefix_tokens(plain, false),
            entries_prefix_tokens(wrapped, true),
        ),
        entries_prefix_tokens(wrapped, true).len() > 0 <==> wrapped.len() > 0,
{
    let a = entries_tokens(plain, false);
    let b = entries_tokens(wrapped, true);
    let a2 = entries_prefix_tokens(plain, false);
    let b2 = entries_prefix_tokens(wrapped, true);
    let none = Seq::<Tagged>::empty();
    lemma_prefix_entries(plain, false);
    lemma_prefix_entries(wrapped, true);
    lemma_entries_tokens(wrapped, true);
    lemma_sanitize_empty();
    assert(b2.len() == b.len()) by {
        crate::passes::lemma_first_range(b);
    }
    if b.len() > 0 {
        let z = b + seq![comma()] + none;
        lemma_prefix_notation_concat(b, comma(), none);
        lemma_prefix_notation_concat(a, comma(), z);
        assert(rebuilt_stream(a, b) =~= a + seq![comma()] + z);
        assert(rebuilt_stream(a2, b2) =~= a2 + seq![comma()] + (b2 + seq![comma()] + none));
    }
}

/// The designators of an empty stream.
pub proof fn lemma_materialized_end(done: Seq<DesignatorView>)
    ensures
        materialized_from(Seq::<Tagged>::empty(), done) == done,
{
    let none = Seq::<Tagged>::empty();
    assert(none.take(0) =~= none);
    assert(chunk_designators(none, crate::materialize::last_of(done)) =~= Seq::<
        DesignatorView,
    >::empty());
    assert(done + Seq::<DesignatorView>::empty() =~= done);
}

/// The tokens of a group of designators with the range symbols in front.
pub open spec fn group_tokens(group: Seq<DesignatorView>, marked: bool) -> Seq<Tagged> {
    entries_prefix_tokens(runs_entries(group, runs_from(group, 0)), marked)
}

/// The last step of the parser reads the tokens of a group, and of nothing
/// else, as the designators of the group.
pub proof fn lemma_materialized_group(
    group: Seq<DesignatorView>,
    marked: bool,
    tail: Seq<Tagged>,
    done: Seq<DesignatorView>,
)
    requires
        is_regular_group(group),
        group.len() > 0,
        crate::round_trip::expand::is_tail(tail),
    ensures
        materialized_from(group_tokens(group, marked) + tail, done) == after(
            tail,
            done + flagged_all(group, marked),
        ),
{
    lemma_group_designators(group, marked, 0, tail, done);
    assert(group.subrange(0, group.len() as int) =~= group);
}

/// The last step of the parser reads the canonical tokens of two groups as
/// the designators of the one and the designators of the other, which are in
/// parentheses.
pub proof fn lemma_materialized_stream(plain: Seq<DesignatorView>, wrapped: Seq<DesignatorView>)
    requires
        is_regular_group(plain),
        is_regular_group(wrapped),
        wrapped.len() > 0 <==> group_tokens(wrapped, true).len() > 0,
    ensures
        materialized(rebuilt_stream(group_tokens(plain, false), group_tokens(wrapped, true)))
            == flagged_all(plain, false) + flagged_all(wrapped, true),
{
    let a = group_tokens(plain, false);
    let b = group_tokens(wrapped, true);
    let all = rebuilt_stream(a, b);
    let none = Seq::<Tagged>::empty();
    let nothing = Seq::<DesignatorView>::empty();
    let first = flagged_all(plain, false);
    let second = flagged_all(wrapped, true);
    lemma_materialized_end(nothing);
    if wrapped.len() > 0 {
        let closing = seq![comma()];
        let behind = seq![comma()] + (b + closing);
        assert(closing.drop_first() =~= none);
        assert(behind.drop_first() =~= b + closing);
        if plain.len() > 0 {
            assert(all =~= a + behind);
            lemma_materialized_group(plain, false, behind, nothing);
            assert(nothing + first =~= first);
        } else {
            assert(runs_from(plain, 0) =~= Seq::empty());
            assert(runs_entries(plain, runs_from(plain, 0)) =~= Seq::<Entry>::empty());
            assert(a =~= none);
            assert(all =~= none + behind);
            assert(has_no_comma(none));
            lemma_materialized_chunk(none, behind, nothing);
            assert(nothing + chunk_designators(none, None) =~= nothing);
            assert(first =~= nothing);
        }
        lemma_materialized_group(wrapped, true, closing, first);
        lemma_materialized_end(first + second);
    } else {
        assert(second =~= nothing);
        assert(first + second =~= first);
        if plain.len() > 0 {
            assert(all + none =~= all);
            lemma_materialized_group(plain, false, none, nothing);
            assert(nothing + first =~= first);
        } else {
            assert(runs_from(plain, 0) =~= Seq::empty());
            assert(runs_entries(plain, runs_from(plain, 0)) =~= Seq::<Entry>::empty());
            assert(a =~= none);
            assert(first =~= nothing);
        }
    }
}

} // verus!
