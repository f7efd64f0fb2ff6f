//! The parser reads what the builder writes.
//!
//! The compact text of a list of regular designators names these
//! designators again: the parser gives back each of them as often as the list
//! holds it, those without parentheses first and those in parentheses behind
//! them, each group in the order of designators.

pub mod canonical;
pub mod compact;
pub mod entries;
pub mod expand;
pub mod reading;
pub mod regular;
pub mod stream;

use crate::builder::{
    build_text, group_members, in_parentheses, label, lemma_runs_from, lemma_sorted_designators,
    not_in_parentheses, runs_from, runs_text, sorted_designators, Run,
};
use crate::round_trip::canonical::{entries_prefix_tokens, lemma_entries_tokens};
use crate::round_trip::compact::{
    group_tokens, lemma_materialized_stream, lemma_prefix_stream, lemma_rebuilt_stream,
    lemma_sanitize_stream, rebuilt_stream,
};
use crate::designator::{decode, designator_order, lemma_designator_order, DesignatorView};
use crate::round_trip::entries::{
    are_solid_entries, entries_text, entries_tokens, is_solid_entry, lemma_runs_text, run_entries,
    runs_entries, Entry,
};
use crate::round_trip::expand::{are_apart, flagged_all, is_regular_group};
use crate::parser::{canonical_tokens, parsed_designators};
use crate::round_trip::reading::{compact_text, lemma_raw_compact, lemma_trim_compact};
use crate::round_trip::regular::{
    flagged, is_regular, lemma_decode_body_text, lemma_read_behind, lemma_read_first,
};
use crate::round_trip::stream::lemma_first_passes;
use crate::text::trim;
use vstd::prelude::*;
use vstd::seq_lib::{
    lemma_multiset_commutative, lemma_sorted_unique, to_multiset_build, to_multiset_len,
    to_multiset_remove,
};

verus! {

/// Whether the compact text can carry the designators `ds`: each of them is
/// regular, and among those with parentheses and among those without them no
/// word has the prefix of a designator that is none.
pub open spec fn is_regular_list(ds: Seq<DesignatorView>) -> bool {
    &&& forall|i: int| 0 <= i < ds.len() ==> is_regular(#[trigger] ds[i])
    &&& forall|i: int, j: int|
        0 <= i < ds.len() && 0 <= j < ds.len() && ds[i].parenthesized == ds[j].parenthesized
            ==> #[trigger] are_apart(ds[i], ds[j])
}

/// The texts of the designators `ds`.
pub open spec fn texts_of(ds: Seq<DesignatorView>) -> Seq<Seq<char>> {
    ds.map_values(|d: DesignatorView| d.text())
}

/// The designators `ds` without their parentheses.
pub open spec fn stripped(ds: Seq<DesignatorView>) -> Seq<DesignatorView> {
    ds.map_values(|d: DesignatorView| d.without_parentheses())
}

/// The text of a regular designator is read as that designator.
pub proof fn lemma_decode_text(d: DesignatorView)
    requires
        is_regular(d),
    ensures
        decode(d.text()) == d,
{
    reveal(is_regular);
    let bare = d.without_parentheses();
    lemma_decode_body_text(bare);
    if d.parenthesized {
        let body = d.body_text();
        let text = d.text();
        assert(text.first() == crate::token::OPEN_PAREN);
        assert(text.last() == crate::token::CLOSE_PAREN);
        assert(text.subrange(1, text.len() - 1) =~= body);
        assert(!crate::designator::is_wrapped(body)) by {
            assert(decode(body) == bare);
        }
    }
}

/// The designators that the texts of regular designators stand for are these
/// designators.
pub proof fn lemma_decode_texts(ds: Seq<DesignatorView>)
    requires
        forall|i: int| 0 <= i < ds.len() ==> is_regular(#[trigger] ds[i]),
    ensures
        texts_of(ds).map_values(|s: Seq<char>| decode(s)) == ds,
{
    let read = texts_of(ds).map_values(|s: Seq<char>| decode(s));
    assert forall|i: int| 0 <= i < ds.len() implies read[i] == ds[i] by {
        lemma_decode_text(ds[i]);
    }
    assert(read =~= ds);
}

/// The designators without parentheses of a regular list, sorted, are a
/// regular group.
pub proof fn lemma_plain_group(ds: Seq<DesignatorView>)
    requires
        is_regular_list(ds),
    ensures
        is_regular_group(group_members(ds.filter(not_in_parentheses()), false)),
        group_members(ds.filter(not_in_parentheses()), false).len() == ds.filter(
            not_in_parentheses(),
        ).len(),
{
    let plain = ds.filter(not_in_parentheses());
    let group = group_members(plain, false);
    lemma_sorted_designators(plain);
    assert forall|i: int| 0 <= i < group.len() implies ds.contains(#[trigger] group[i])
        && !group[i].parenthesized by {
        let x = group[i];
        assert(plain.contains(x));
        let k = choose|k: int| 0 <= k < plain.len() && plain[k] == x;
        ds.lemma_filter_pred(not_in_parentheses(), k);
        ds.lemma_filter_contains_rev(not_in_parentheses(), x);
    }
    assert forall|i: int| 0 <= i < group.len() implies is_regular(#[trigger] group[i])
        && !group[i].parenthesized by {
        let a = choose|a: int| 0 <= a < ds.len() && ds[a] == group[i];
    }
    assert forall|i: int, j: int| 0 <= i < group.len() && 0 <= j < group.len() implies #[trigger]
        are_apart(group[i], group[j]) by {
        let a = choose|a: int| 0 <= a < ds.len() && ds[a] == group[i];
        let b = choose|b: int| 0 <= b < ds.len() && ds[b] == group[j];
        assert(are_apart(ds[a], ds[b]));
    }
}

/// The designators in parentheses of a regular list, without their
/// parentheses and sorted, are a regular group.
pub proof fn lemma_wrapped_group(ds: Seq<DesignatorView>)
    requires
        is_regular_list(ds),
    ensures
        is_regular_group(group_members(ds.filter(in_parentheses()), true)),
        group_members(ds.filter(in_parentheses()), true).len() == ds.filter(in_parentheses()).len(),
{
    reveal(is_regular);
    let wrapped = ds.filter(in_parentheses());
    let bare = stripped(wrapped);
    let group = group_members(wrapped, true);
    assert(group == sorted_designators(bare));
    lemma_sorted_designators(bare);
    assert forall|i: int| 0 <= i < group.len() implies #[trigger] is_stripped_member(
        ds,
        group[i],
    ) by {
        let x = group[i];
        assert(bare.contains(x));
        let k = choose|k: int| 0 <= k < bare.len() && bare[k] == x;
        ds.lemma_filter_pred(in_parentheses(), k);
        assert(wrapped.contains(wrapped[k]));
        ds.lemma_filter_contains_rev(in_parentheses(), wrapped[k]);
        let a = choose|a: int| 0 <= a < ds.len() && ds[a] == wrapped[k];
        assert(ds[a].without_parentheses() == x);
    }
    assert forall|i: int| 0 <= i < group.len() implies is_regular(#[trigger] group[i])
        && !group[i].parenthesized by {
        assert(is_stripped_member(ds, group[i]));
        let a = choose|a: int|
            0 <= a < ds.len() && ds[a].parenthesized && #[trigger] ds[a].without_parentheses()
                == group[i];
        assert(is_regular(ds[a]));
    }
    assert forall|i: int, j: int| 0 <= i < group.len() && 0 <= j < group.len() implies #[trigger]
        are_apart(group[i], group[j]) by {
        assert(is_stripped_member(ds, group[i]));
        assert(is_stripped_member(ds, group[j]));
        let a = choose|a: int|
            0 <= a < ds.len() && ds[a].parenthesized && #[trigger] ds[a].without_parentheses()
                == group[i];
        let b = choose|b: int|
            0 <= b < ds.len() && ds[b].parenthesized && #[trigger] ds[b].without_parentheses()
                == group[j];
        assert(are_apart(ds[a], ds[b]));
    }
}

/// Whether `d` is a designator of `ds` that was in parentheses, without
/// them.
pub open spec fn is_stripped_member(ds: Seq<DesignatorView>, d: DesignatorView) -> bool {
    exists|a: int|
        0 <= a < ds.len() && ds[a].parenthesized && #[trigger] ds[a].without_parentheses() == d
}

/// The entries of a group of designators.
pub open spec fn group_entries(group: Seq<DesignatorView>) -> Seq<Entry> {
    runs_entries(group, runs_from(group, 0))
}

/// The text of every designator of a regular group, as it stands in the
/// compact text, is not empty and holds no character that is a token by
/// itself.
pub proof fn lemma_label(group: Seq<DesignatorView>, i: int)
    requires
        is_regular_group(group),
        0 <= i < group.len(),
    ensures
        is_solid_entry(Entry { first: label(group, i), last: None }),
{
    if i > 0 {
        assert(are_apart(group[i], group[i - 1]));
        lemma_read_behind(group[i], group[i - 1], false);
    } else {
        lemma_read_first(group[0], None, false);
    }
}

/// The entries of a regular group are solid, and their text is that of the
/// runs of the group.
pub proof fn lemma_group_entries(group: Seq<DesignatorView>)
    requires
        is_regular_group(group),
    ensures
        are_solid_entries(group_entries(group)),
        runs_text(group, runs_from(group, 0)) == entries_text(group_entries(group)),
        group.len() > 0 <==> group_entries(group).len() > 0,
{
    let runs = runs_from(group, 0);
    lemma_runs_from(group, 0);
    assert forall|k: int| 0 <= k < runs.len() implies are_solid_entries(
        run_entries(group, #[trigger] runs[k]),
    ) by {
        let run = runs[k];
        lemma_label(group, run.start);
        lemma_label(group, run.end - 1);
        if run.end - run.start == 2 {
            lemma_label(group, run.start + 1);
        }
    }
    lemma_runs_text(group, runs);
    if group.len() == 0 {
        assert(runs_entries(group, runs) =~= Seq::<Entry>::empty());
    }
}

/// The compact text of a list of regular designators is the compact text of
/// the entries of its two groups.
pub proof fn lemma_build_text(ds: Seq<DesignatorView>)
    requires
        is_regular_list(ds),
    ensures
        build_text(texts_of(ds)) == compact_text(
            group_entries(group_members(ds.filter(not_in_parentheses()), false)),
            group_entries(group_members(ds.filter(in_parentheses()), true)),
        ),
{
    let texts = texts_of(ds);
    let plain = ds.filter(not_in_parentheses());
    let wrapped = ds.filter(in_parentheses());
    let first = group_members(plain, false);
    let second = group_members(wrapped, true);
    lemma_decode_texts(ds);
    lemma_plain_group(ds);
    lemma_wrapped_group(ds);
    lemma_group_entries(first);
    lemma_group_entries(second);
    let wanted = compact_text(group_entries(first), group_entries(second));
    if ds.len() == 0 {
        reveal(Seq::filter);
        assert(entries_text(group_entries(first)).len() == 0);
    } else if ds.len() == 1 {
        lemma_single(ds);
    } else {
        if plain.len() == 0 {
            assert(entries_text(group_entries(first)).len() == 0);
        }
    }
}

/// The compact text of a single regular designator is its text.
proof fn lemma_single(ds: Seq<DesignatorView>)
    requires
        is_regular_list(ds),
        ds.len() == 1,
    ensures
        ds[0].text() == compact_text(
            group_entries(group_members(ds.filter(not_in_parentheses()), false)),
            group_entries(group_members(ds.filter(in_parentheses()), true)),
        ),
{
    let d = ds[0];
    let plain = ds.filter(not_in_parentheses());
    let wrapped = ds.filter(in_parentheses());
    let first = group_members(plain, false);
    let second = group_members(wrapped, true);
    reveal(Seq::filter);
    assert(ds.drop_last().filter(not_in_parentheses()) =~= Seq::<DesignatorView>::empty());
    assert(ds.drop_last().filter(in_parentheses()) =~= Seq::<DesignatorView>::empty());
    lemma_plain_group(ds);
    lemma_wrapped_group(ds);
    lemma_group_entries(first);
    lemma_group_entries(second);
    let bare = d.without_parentheses();
    let group = seq![bare];
    if d.parenthesized {
        assert(wrapped =~= seq![d]);
        assert(plain.len() == 0);
        assert(stripped(wrapped) =~= group);
        lemma_sorted_one(bare);
        assert(second == group);
        assert(entries_text(group_entries(first)).len() == 0);
    } else {
        assert(plain =~= seq![d]);
        assert(wrapped.len() == 0);
        lemma_sorted_one(bare);
        assert(first == group);
    }
    lemma_one_entry(bare);
}

/// A list of one designator is sorted.
proof fn lemma_sorted_one(d: DesignatorView)
    ensures
        sorted_designators(seq![d]) == seq![d],
{
    let one = seq![d];
    lemma_designator_order();
    one.lemma_sort_by_ensures(designator_order());
    lemma_sorted_unique(one, sorted_designators(one), designator_order());
}

/// The entries of a group of one designator are its text.
proof fn lemma_one_entry(d: DesignatorView)
    ensures
        entries_text(group_entries(seq![d])) == d.text(),
{
    let group = seq![d];
    let run = Run { start: 0, end: 1 };
    assert(crate::builder::run_end(group, 1) == 1);
    assert(runs_from(group, 1) =~= Seq::<Run>::empty());
    let runs = runs_from(group, 0);
    assert(runs =~= seq![run]);
    assert(runs.drop_last() =~= Seq::<Run>::empty());
    assert(runs_entries(group, runs.drop_last()) =~= Seq::<Entry>::empty());
    let es = runs_entries(group, runs);
    assert(es =~= seq![Entry { first: d.text(), last: None }]);
    assert(es.drop_last() =~= Seq::<Entry>::empty());
    assert(entries_text(es.drop_last()).len() == 0);
}

/// The canonical tokens of the compact text of two lists of entries.
pub proof fn lemma_canonical_compact(plain: Seq<Entry>, wrapped: Seq<Entry>)
    requires
        are_solid_entries(plain),
        are_solid_entries(wrapped),
    ensures
        canonical_tokens(compact_text(plain, wrapped)) == rebuilt_stream(
            entries_prefix_tokens(plain, false),
            entries_prefix_tokens(wrapped, true),
        ),
        entries_prefix_tokens(wrapped, true).len() > 0 <==> wrapped.len() > 0,
{
    let a = entries_tokens(plain, false);
    let b = entries_tokens(wrapped, false);
    lemma_raw_compact(plain, wrapped);
    lemma_entries_tokens(plain, false);
    lemma_entries_tokens(wrapped, false);
    lemma_first_passes(a, b);
    lemma_sanitize_stream(plain, wrapped);
    lemma_rebuilt_stream(plain, wrapped);
    lemma_prefix_stream(plain, wrapped);
}

/// The parser reads the compact text of a list of regular designators as
/// the designators of its two groups.
pub proof fn lemma_parse_build(ds: Seq<DesignatorView>)
    requires
        is_regular_list(ds),
    ensures
        parsed_designators(trim(build_text(texts_of(ds)))) == flagged_all(
            group_members(ds.filter(not_in_parentheses()), false),
            false,
        ) + flagged_all(group_members(ds.filter(in_parentheses()), true), true),
{
    let first = group_members(ds.filter(not_in_parentheses()), false);
    let second = group_members(ds.filter(in_parentheses()), true);
    lemma_build_text(ds);
    lemma_plain_group(ds);
    lemma_wrapped_group(ds);
    lemma_group_entries(first);
    lemma_group_entries(second);
    lemma_trim_compact(group_entries(first), group_entries(second));
    lemma_canonical_compact(group_entries(first), group_entries(second));
    assert(group_tokens(first, false) == entries_prefix_tokens(group_entries(first), false));
    assert(group_tokens(second, true) == entries_prefix_tokens(group_entries(second), true));
    lemma_materialized_stream(first, second);
}

/// A list falls into those of its members that are in parentheses and those
/// that are not.
pub proof fn lemma_partition(ds: Seq<DesignatorView>)
    ensures
        ds.filter(not_in_parentheses()).to_multiset().add(
            ds.filter(in_parentheses()).to_multiset(),
        ) == ds.to_multiset(),
    decreases ds.len(),
{
    broadcast use vstd::multiset::group_multiset_axioms;

    reveal(Seq::filter);
    let plain = ds.filter(not_in_parentheses());
    let wrapped = ds.filter(in_parentheses());
    if ds.len() == 0 {
        to_multiset_len(ds);
        to_multiset_len(plain);
        to_multiset_len(wrapped);
        assert(plain.to_multiset().add(wrapped.to_multiset()) =~= ds.to_multiset());
    } else {
        let front = ds.drop_last();
        let d = ds.last();
        lemma_partition(front);
        assert(ds =~= front.push(d));
        to_multiset_build(front, d);
        if d.parenthesized {
            to_multiset_build(front.filter(in_parentheses()), d);
        } else {
            to_multiset_build(front.filter(not_in_parentheses()), d);
        }
        assert(plain.to_multiset().add(wrapped.to_multiset()) =~= ds.to_multiset());
    }
}

/// Two lists with the same members have the same members after the same
/// change to each member.
pub proof fn lemma_map_members(
    a: Seq<DesignatorView>,
    b: Seq<DesignatorView>,
    f: spec_fn(DesignatorView) -> DesignatorView,
)
    requires
        a.to_multiset() == b.to_multiset(),
    ensures
        a.map_values(f).to_multiset() == b.map_values(f).to_multiset(),
    decreases a.len(),
{
    broadcast use vstd::multiset::group_multiset_axioms;

    to_multiset_len(a);
    to_multiset_len(b);
    if a.len() == 0 {
        assert(a.map_values(f) =~= b.map_values(f));
    } else {
        let x = a.last();
        let front = a.drop_last();
        assert(a =~= front.push(x));
        to_multiset_build(front, x);
        vstd::seq_lib::to_multiset_contains(b, x);
        assert(b.contains(x));
        let k = choose|k: int| 0 <= k < b.len() && b[k] == x;
        let others = b.remove(k);
        to_multiset_remove(b, k);
        assert(front.to_multiset() =~= others.to_multiset());
        lemma_map_members(front, others, f);
        assert(a.map_values(f) =~= front.map_values(f).push(f(x)));
        to_multiset_build(front.map_values(f), f(x));
        assert(b.map_values(f).remove(k) =~= others.map_values(f));
        to_multiset_remove(b.map_values(f), k);
        vstd::seq_lib::to_multiset_contains(b.map_values(f), f(x));
        assert(b.map_values(f).contains(b.map_values(f)[k]));
        assert(a.map_values(f).to_multiset() =~= b.map_values(f).to_multiset());
    }
}

/// The members of the two groups are the members of the list.
pub proof fn lemma_groups_members(ds: Seq<DesignatorView>)
    ensures
        (flagged_all(group_members(ds.filter(not_in_parentheses()), false), false) + flagged_all(
            group_members(ds.filter(in_parentheses()), true),
            true,
        )).to_multiset() == ds.to_multiset(),
{
    let plain = ds.filter(not_in_parentheses());
    let wrapped = ds.filter(in_parentheses());
    let first = group_members(plain, false);
    let second = group_members(wrapped, true);
    let mark = |d: DesignatorView| flagged(d, true);
    let clear = |d: DesignatorView| flagged(d, false);
    lemma_sorted_designators(plain);
    lemma_sorted_designators(stripped(wrapped));
    lemma_map_members(first, plain, clear);
    lemma_map_members(second, stripped(wrapped), mark);
    assert(plain.map_values(clear) =~= plain) by {
        assert forall|i: int| 0 <= i < plain.len() implies plain.map_values(clear)[i]
            == plain[i] by {
            ds.lemma_filter_pred(not_in_parentheses(), i);
        }
    }
    assert(stripped(wrapped).map_values(mark) =~= wrapped) by {
        assert forall|i: int| 0 <= i < wrapped.len() implies stripped(wrapped).map_values(
            mark,
        )[i] == wrapped[i] by {
            ds.lemma_filter_pred(in_parentheses(), i);
        }
    }
    assert(flagged_all(first, false) == first.map_values(clear));
    assert(flagged_all(second, true) == second.map_values(mark));
    lemma_multiset_commutative(flagged_all(first, false), flagged_all(second, true));
    lemma_partition(ds);
}

/// The parser reads what the builder writes: the compact text of a list of
/// regular designators names each designator of the list as often as the list
/// holds it.
pub proof fn lemma_round_trip(ds: Seq<DesignatorView>)
    requires
        is_regular_list(ds),
    ensures
        parsed_designators(trim(build_text(texts_of(ds)))).to_multiset() == ds.to_multiset(),
{
    lemma_parse_build(ds);
    lemma_groups_members(ds);
}

} // verus!
