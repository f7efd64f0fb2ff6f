//! What the last step of the parser makes of the tokens of a group of
//! regular designators: the designators of the group.

use crate::builder::{label, lemma_run_end, run_end, runs_from, step, Run};
use crate::round_trip::canonical::entries_prefix_tokens;
use crate::chunks::{has_no_comma, lemma_chunk_at_front, lemma_single_chunk};
use crate::designator::DesignatorView;
use crate::round_trip::entries::{comma, identifier, range_symbol, run_entries, runs_entries, Entry};
use crate::materialize::{
    chunk_designators, expansion, is_before, last_of, left_position, materialized_from, operand,
    range_designators, range_parts, right_position,
};
use crate::round_trip::regular::{
    flagged, is_regular, lemma_advanced_twice, lemma_difference_of_advanced, lemma_one_step,
    lemma_read_behind, lemma_read_first, lemma_read_in_run,
};
use crate::text::is_ascii_lowercase;
use crate::token::Tagged;
use vstd::prelude::*;

verus! {

/// Whether `tail` can follow a part of the stream: it is empty or begins with
/// a comma.
pub open spec fn is_tail(tail: Seq<Tagged>) -> bool {
    tail.len() == 0 || tail[0].is_comma()
}

/// The designators of what follows a part of the stream, behind the
/// designators `done`.
pub open spec fn after(tail: Seq<Tagged>, done: Seq<DesignatorView>) -> Seq<DesignatorView> {
    if tail.len() == 0 {
        done
    } else {
        materialized_from(tail.drop_first(), done)
    }
}

/// The designators of a stream are those of its first part and those of what
/// follows it.
pub proof fn lemma_materialized_chunk(c: Seq<Tagged>, tail: Seq<Tagged>, done: Seq<DesignatorView>)
    requires
        has_no_comma(c),
        is_tail(tail),
    ensures
        materialized_from(c + tail, done) == after(
            tail,
            done + chunk_designators(c, last_of(done)),
        ),
{
    let ts = c + tail;
    if tail.len() == 0 {
        assert(ts =~= c);
        lemma_single_chunk(c, 0);
        assert(c.take(c.len() as int) =~= c);
    } else {
        let sep = tail[0];
        let rest = tail.drop_first();
        assert(ts =~= c + seq![sep] + rest);
        lemma_chunk_at_front(c, sep, rest, 0);
        lemma_single_chunk(c, 0);
        assert(ts.take(c.len() as int) =~= c);
        assert(ts.skip(c.len() as int + 1) =~= rest);
    }
}

/// A group of designators as the builder sorts it: all are regular and
/// without parentheses, and no word has the prefix of a designator that is
/// none.
pub open spec fn is_regular_group(group: Seq<DesignatorView>) -> bool {
    &&& forall|i: int|
        0 <= i < group.len() ==> is_regular(#[trigger] group[i]) && !group[i].parenthesized
    &&& forall|i: int, j: int|
        0 <= i < group.len() && 0 <= j < group.len() ==> #[trigger] are_apart(group[i], group[j])
}

/// Whether `a` and `b` can stand in one group: if one of them is a word then
/// the other is one too, or has another prefix.
pub open spec fn are_apart(a: DesignatorView, b: DesignatorView) -> bool {
    a.is_word() != b.is_word() ==> a.prefix != b.prefix
}

/// The designators `group` in parentheses if `marked` says so.
pub open spec fn flagged_all(group: Seq<DesignatorView>, marked: bool) -> Seq<DesignatorView> {
    group.map_values(|d: DesignatorView| flagged(d, marked))
}

/// Within a run every designator is the first one of the run some steps
/// further, none is a word and all have one prefix.
pub proof fn lemma_run_member(group: Seq<DesignatorView>, start: int, j: int)
    requires
        is_regular_group(group),
        0 <= start <= j < group.len(),
        forall|i: int| start < i <= j ==> step(group, i) == 1,
    ensures
        group[j] == group[start].advanced(j - start),
        group[j].prefix == group[start].prefix,
        start < j ==> !group[j].is_word() && !group[start].is_word(),
        group[start].suffix is Some == group[j].suffix is Some,
        group[start].suffix matches Some(c) ==> group[j].suffix->0 as int == c as int + (j
            - start) && is_ascii_lowercase(c) == is_ascii_lowercase(group[j].suffix->0),
    decreases j - start,
{
    reveal(is_regular);
    let first = group[start];
    if j == start {
        match first.suffix {
            Some(c) => {
                assert(((c as int + 0) as char) == c);
            },
            None => {},
        }
    } else {
        lemma_run_member(group, start, j - 1);
        let before = group[j - 1];
        let own = group[j];
        assert(are_apart(own, before));
        assert(step(group, j) == 1);
        assert(own.difference(before) == Some(1int));
        lemma_one_step(own, before);
        assert(!own.is_word());
        assert(!before.is_word());
        assert(!first.is_word());
        lemma_advanced_twice(first, j - 1 - start, 1);
    }
}

/// The last step of the parser reads the tokens of a designator that stands
/// by itself as that designator.
pub proof fn lemma_single_designators(
    group: Seq<DesignatorView>,
    marked: bool,
    i: int,
    previous: Option<DesignatorView>,
)
    requires
        is_regular_group(group),
        0 <= i < group.len(),
        i > 0 ==> previous == Some(flagged(group[i - 1], marked)),
    ensures
        chunk_designators(seq![identifier(label(group, i), marked)], previous) == seq![
            flagged(group[i], marked),
        ],
{
    let t = identifier(label(group, i), marked);
    assert(t.is_parenthesized() == marked);
    if i > 0 {
        assert(are_apart(group[i], group[i - 1]));
        lemma_read_behind(group[i], group[i - 1], marked);
    } else {
        lemma_read_first(group[0], previous, marked);
    }
}

/// The two ends of the range that stands for a run are read as the first and
/// the last designator of the run.
pub proof fn lemma_range_ends(
    group: Seq<DesignatorView>,
    marked: bool,
    run: Run,
    previous: Option<DesignatorView>,
)
    requires
        is_regular_group(group),
        0 <= run.start,
        run.start + 3 <= run.end <= group.len(),
        forall|i: int| run.start < i < run.end ==> step(group, i) == 1,
        run.start > 0 ==> previous == Some(flagged(group[run.start - 1], marked)),
    ensures
        operand(identifier(label(group, run.start), marked), previous) == flagged(
            group[run.start],
            marked,
        ),
        operand(
            identifier(label(group, run.end - 1), marked),
            Some(flagged(group[run.start], marked)),
        ) == flagged(group[run.end - 1], marked),
{
    reveal(is_regular);
    let s = run.start;
    let e = run.end;
    let first = identifier(label(group, s), marked);
    let second = identifier(label(group, e - 1), marked);
    assert(first.is_parenthesized() == marked);
    assert(second.is_parenthesized() == marked);
    if s > 0 {
        assert(are_apart(group[s], group[s - 1]));
        lemma_read_behind(group[s], group[s - 1], marked);
    } else {
        lemma_read_first(group[0], previous, marked);
    }
    lemma_run_member(group, s, e - 1);
    lemma_run_member(group, s, e - 2);
    lemma_read_in_run(group[e - 1], group[e - 2], group[s], marked);
}

/// The range from the first to the last designator of a run is the run.
pub proof fn lemma_range_expansion(group: Seq<DesignatorView>, marked: bool, run: Run)
    requires
        is_regular_group(group),
        0 <= run.start,
        run.start + 3 <= run.end <= group.len(),
        forall|i: int| run.start < i < run.end ==> step(group, i) == 1,
    ensures
        is_before(flagged(group[run.start], marked), flagged(group[run.end - 1], marked)),
        expansion(flagged(group[run.start], marked), flagged(group[run.end - 1], marked))
            == flagged_all(group.subrange(run.start, run.end), marked),
{
    reveal(is_regular);
    let s = run.start;
    let e = run.end;
    let left = flagged(group[s], marked);
    let right = flagged(group[e - 1], marked);
    let k = e - 1 - s;
    lemma_run_member(group, s, e - 1);
    lemma_difference_of_advanced(group[s], k);
    assert(right.difference(left) == Some(k));
    assert(left.successor() is Some);
    let wanted = flagged_all(group.subrange(s, e), marked);
    let got = expansion(left, right);
    assert(got.len() == wanted.len());
    assert forall|j: int| 0 <= j < got.len() implies got[j] == wanted[j] by {
        if 0 < j < k {
            lemma_run_member(group, s, s + j);
            assert(got[j] == left.advanced(j));
            assert(wanted[j] == flagged(group[s + j], marked));
        }
    }
    assert(got =~= wanted);
}

/// The last step of the parser reads the tokens of the range that stands for
/// a run as the designators of the run.
pub proof fn lemma_range_designators(
    group: Seq<DesignatorView>,
    marked: bool,
    run: Run,
    previous: Option<DesignatorView>,
)
    requires
        is_regular_group(group),
        0 <= run.start,
        run.start + 3 <= run.end <= group.len(),
        forall|i: int| run.start < i < run.end ==> step(group, i) == 1,
        run.start > 0 ==> previous == Some(flagged(group[run.start - 1], marked)),
    ensures
        chunk_designators(
            seq![
                range_symbol(),
                identifier(label(group, run.start), marked),
                identifier(label(group, run.end - 1), marked),
            ],
            previous,
        ) == flagged_all(group.subrange(run.start, run.end), marked),
{
    let first = identifier(label(group, run.start), marked);
    let second = identifier(label(group, run.end - 1), marked);
    let chunk = seq![range_symbol(), first, second];
    assert(left_position(chunk) == 1);
    assert(right_position(chunk) == 2);
    let parts = range_parts(chunk)->0;
    assert(parts.left == first && parts.right == second);
    lemma_range_ends(group, marked, run, previous);
    lemma_range_expansion(group, marked, run);
    assert(chunk_designators(chunk, previous) == range_designators(parts, previous));
}

/// The entries of runs are those of the first run and those of the others.
pub proof fn lemma_runs_entries_front(group: Seq<DesignatorView>, first: Run, others: Seq<Run>)
    ensures
        runs_entries(group, seq![first] + others) == run_entries(group, first) + runs_entries(
            group,
            others,
        ),
    decreases others.len(),
{
    let all = seq![first] + others;
    if others.len() == 0 {
        assert(all.drop_last() =~= Seq::<Run>::empty());
        assert(runs_entries(group, all.drop_last()) =~= Seq::<Entry>::empty());
        assert(runs_entries(group, all) =~= run_entries(group, first));
        assert(run_entries(group, first) + runs_entries(group, others) =~= run_entries(
            group,
            first,
        ));
    } else {
        lemma_runs_entries_front(group, first, others.drop_last());
        assert(all.drop_last() =~= seq![first] + others.drop_last());
        assert(all.last() == others.last());
        assert(runs_entries(group, all) =~= run_entries(group, first) + runs_entries(
            group,
            others,
        ));
    }
}

/// The tokens of two lists of entries, one behind the other, are the tokens
/// of the one, a comma and the tokens of the other.
pub proof fn lemma_entries_prefix_tokens_concat(x: Seq<Entry>, y: Seq<Entry>, marked: bool)
    requires
        x.len() > 0,
        y.len() > 0,
    ensures
        entries_prefix_tokens(x + y, marked) == entries_prefix_tokens(x, marked) + seq![comma()]
            + entries_prefix_tokens(y, marked),
    decreases y.len(),
{
    let all = x + y;
    assert(all.drop_last() =~= x + y.drop_last());
    assert(all.last() == y.last());
    if y.len() == 1 {
        assert(x + y.drop_last() =~= x);
    } else {
        lemma_entries_prefix_tokens_concat(x, y.drop_last(), marked);
        assert(entries_prefix_tokens(all, marked) =~= entries_prefix_tokens(x, marked)
            + seq![comma()] + entries_prefix_tokens(y, marked));
    }
}

/// The designators of a run of one.
proof fn lemma_run_of_one(
    group: Seq<DesignatorView>,
    marked: bool,
    s: int,
    tail: Seq<Tagged>,
    done: Seq<DesignatorView>,
)
    requires
        is_regular_group(group),
        0 <= s < group.len(),
        s > 0 ==> last_of(done) == Some(flagged(group[s - 1], marked)),
        is_tail(tail),
    ensures
        materialized_from(seq![identifier(label(group, s), marked)] + tail, done) == after(
            tail,
            done.push(flagged(group[s], marked)),
        ),
{
    let c = seq![identifier(label(group, s), marked)];
    lemma_single_designators(group, marked, s, last_of(done));
    assert(has_no_comma(c));
    lemma_materialized_chunk(c, tail, done);
    assert(done + seq![flagged(group[s], marked)] =~= done.push(flagged(group[s], marked)));
}

/// The designators of a run of three and more.
proof fn lemma_run_of_many(
    group: Seq<DesignatorView>,
    marked: bool,
    run: Run,
    tail: Seq<Tagged>,
    done: Seq<DesignatorView>,
)
    requires
        is_regular_group(group),
        0 <= run.start,
        run.start + 3 <= run.end <= group.len(),
        forall|i: int| run.start < i < run.end ==> step(group, i) == 1,
        run.start > 0 ==> last_of(done) == Some(flagged(group[run.start - 1], marked)),
        is_tail(tail),
    ensures
        materialized_from(
            seq![
                range_symbol(),
                identifier(label(group, run.start), marked),
                identifier(label(group, run.end - 1), marked),
            ] + tail,
            done,
        ) == after(tail, done + flagged_all(group.subrange(run.start, run.end), marked)),
{
    let c = seq![
        range_symbol(),
        identifier(label(group, run.start), marked),
        identifier(label(group, run.end - 1), marked),
    ];
    lemma_range_designators(group, marked, run, last_of(done));
    assert(has_no_comma(c));
    lemma_materialized_chunk(c, tail, done);
}

/// The tokens of the entries of a run.
pub open spec fn run_tokens(group: Seq<DesignatorView>, marked: bool, run: Run) -> Seq<Tagged> {
    if run.end - run.start <= 1 {
        seq![identifier(label(group, run.start), marked)]
    } else if run.end - run.start == 2 {
        seq![
            identifier(label(group, run.start), marked),
            comma(),
            identifier(label(group, run.start + 1), marked),
        ]
    } else {
        seq![
            range_symbol(),
            identifier(label(group, run.start), marked),
            identifier(label(group, run.end - 1), marked),
        ]
    }
}

/// The tokens of the entries of a run, with the range symbol in front.
pub proof fn lemma_run_tokens(group: Seq<DesignatorView>, marked: bool, run: Run)
    ensures
        entries_prefix_tokens(run_entries(group, run), marked) == run_tokens(group, marked, run),
        run_entries(group, run).len() > 0,
{
    let es = run_entries(group, run);
    if run.end - run.start == 2 {
        assert(es.drop_last() =~= seq![es[0]]);
        assert(entries_prefix_tokens(es.drop_last(), marked) == seq![
            identifier(label(group, run.start), marked),
        ]);
        assert(entries_prefix_tokens(es, marked) =~= run_tokens(group, marked, run));
    }
}

/// The designators of a run of two.
proof fn lemma_run_of_two(
    group: Seq<DesignatorView>,
    marked: bool,
    s: int,
    tail: Seq<Tagged>,
    done: Seq<DesignatorView>,
)
    requires
        is_regular_group(group),
        0 <= s,
        s + 2 <= group.len(),
        s > 0 ==> last_of(done) == Some(flagged(group[s - 1], marked)),
        is_tail(tail),
    ensures
        materialized_from(
            seq![
                identifier(label(group, s), marked),
                comma(),
                identifier(label(group, s + 1), marked),
            ] + tail,
            done,
        ) == after(
            tail,
            done.push(flagged(group[s], marked)).push(flagged(group[s + 1], marked)),
        ),
{
    let first = seq![identifier(label(group, s), marked)];
    let second = seq![identifier(label(group, s + 1), marked)];
    let behind = seq![comma()] + (second + tail);
    assert(seq![
        identifier(label(group, s), marked),
        comma(),
        identifier(label(group, s + 1), marked),
    ] + tail =~= first + behind);
    lemma_run_of_one(group, marked, s, behind, done);
    let then = done.push(flagged(group[s], marked));
    assert(behind.drop_first() =~= second + tail);
    lemma_run_of_one(group, marked, s + 1, tail, then);
}

/// The designators of a run, behind the designators `done`.
proof fn lemma_run_members(
    group: Seq<DesignatorView>,
    marked: bool,
    run: Run,
    done: Seq<DesignatorView>,
)
    requires
        0 <= run.start < run.end <= group.len(),
    ensures
        last_of(done + flagged_all(group.subrange(run.start, run.end), marked)) == Some(
            flagged(group[run.end - 1], marked),
        ),
        run.end - run.start == 1 ==> done + flagged_all(
            group.subrange(run.start, run.end),
            marked,
        ) == done.push(flagged(group[run.start], marked)),
        run.end - run.start == 2 ==> done + flagged_all(
            group.subrange(run.start, run.end),
            marked,
        ) == done.push(flagged(group[run.start], marked)).push(
            flagged(group[run.start + 1], marked),
        ),
{
    let members = flagged_all(group.subrange(run.start, run.end), marked);
    assert(members.last() == flagged(group[run.end - 1], marked));
    assert((done + members).last() == members.last());
    if run.end - run.start == 1 {
        assert(done + members =~= done.push(flagged(group[run.start], marked)));
    } else if run.end - run.start == 2 {
        assert(done + members =~= done.push(flagged(group[run.start], marked)).push(
            flagged(group[run.start + 1], marked),
        ));
    }
}

/// The last step of the parser reads the tokens of a run as the designators
/// of the run.
pub proof fn lemma_run_designators(
    group: Seq<DesignatorView>,
    marked: bool,
    run: Run,
    tail: Seq<Tagged>,
    done: Seq<DesignatorView>,
)
    requires
        is_regular_group(group),
        0 <= run.start < run.end <= group.len(),
        forall|i: int| run.start < i < run.end ==> step(group, i) == 1,
        run.start > 0 ==> last_of(done) == Some(flagged(group[run.start - 1], marked)),
        is_tail(tail),
    ensures
        materialized_from(run_tokens(group, marked, run) + tail, done) == after(
            tail,
            done + flagged_all(group.subrange(run.start, run.end), marked),
        ),
        last_of(done + flagged_all(group.subrange(run.start, run.end), marked)) == Some(
            flagged(group[run.end - 1], marked),
        ),
{
    lemma_run_members(group, marked, run, done);
    if run.end - run.start == 1 {
        lemma_run_of_one(group, marked, run.start, tail, done);
    } else if run.end - run.start == 2 {
        lemma_run_of_two(group, marked, run.start, tail, done);
    } else {
        lemma_run_of_many(group, marked, run, tail, done);
    }
}

/// The runs from `start` on are the run that begins at `start` and the runs
/// behind it.
pub proof fn lemma_runs_from_front(group: Seq<DesignatorView>, start: int)
    requires
        0 <= start < group.len(),
    ensures
        start < run_end(group, start + 1) <= group.len(),
        forall|i: int| start < i < run_end(group, start + 1) ==> step(group, i) == 1,
        runs_from(group, start) == seq![Run { start, end: run_end(group, start + 1) }]
            + runs_from(group, run_end(group, start + 1)),
{
    lemma_run_end(group, start + 1);
}

/// The tokens of a group from `start` on are those of the run that begins
/// at `start` and, behind a comma, those of the runs behind it.
pub proof fn lemma_group_tokens_front(group: Seq<DesignatorView>, marked: bool, start: int)
    requires
        0 <= start < group.len(),
    ensures
        entries_prefix_tokens(runs_entries(group, runs_from(group, start)), marked) == if run_end(
            group,
            start + 1,
        ) == group.len() {
            run_tokens(group, marked, Run { start, end: run_end(group, start + 1) })
        } else {
            run_tokens(group, marked, Run { start, end: run_end(group, start + 1) })
                + seq![comma()] + entries_prefix_tokens(
                runs_entries(group, runs_from(group, run_end(group, start + 1))),
                marked,
            )
        },
{
    let end = run_end(group, start + 1);
    let run = Run { start, end };
    let others = runs_from(group, end);
    lemma_runs_from_front(group, start);
    lemma_runs_entries_front(group, run, others);
    lemma_run_tokens(group, marked, run);
    let own = run_entries(group, run);
    if end == group.len() {
        assert(others.len() == 0);
        assert(runs_entries(group, others) =~= Seq::<Entry>::empty());
        assert(own + runs_entries(group, others) =~= own);
    } else {
        lemma_runs_entries_some(group, end);
        lemma_entries_prefix_tokens_concat(own, runs_entries(group, others), marked);
    }
}

/// The last step of the parser reads the tokens of a group of regular
/// designators, from the designator at `start` on, as these designators.
pub proof fn lemma_group_designators(
    group: Seq<DesignatorView>,
    marked: bool,
    start: int,
    tail: Seq<Tagged>,
    done: Seq<DesignatorView>,
)
    requires
        is_regular_group(group),
        0 <= start < group.len(),
        start > 0 ==> last_of(done) == Some(flagged(group[start - 1], marked)),
        is_tail(tail),
    ensures
        materialized_from(
            entries_prefix_tokens(runs_entries(group, runs_from(group, start)), marked) + tail,
            done,
        ) == after(
            tail,
            done + flagged_all(group.subrange(start, group.len() as int), marked),
        ),
    decreases group.len() - start,
{
    let end = run_end(group, start + 1);
    let run = Run { start, end };
    lemma_runs_from_front(group, start);
    lemma_group_tokens_front(group, marked, start);
    let own_tokens = run_tokens(group, marked, run);
    let members = flagged_all(group.subrange(start, end), marked);
    if end == group.len() {
        lemma_run_designators(group, marked, run, tail, done);
    } else {
        let rest_tokens = entries_prefix_tokens(
            runs_entries(group, runs_from(group, end)),
            marked,
        );
        let behind = seq![comma()] + (rest_tokens + tail);
        lemma_concat_behind(own_tokens, rest_tokens, tail);
        lemma_run_designators(group, marked, run, behind, done);
        assert(behind.drop_first() =~= rest_tokens + tail);
        lemma_group_designators(group, marked, end, tail, done + members);
        lemma_members_split(group, marked, start, end, done);
    }
}

/// Putting streams one behind the other does not depend on where one
/// begins.
proof fn lemma_concat_behind(a: Seq<Tagged>, b: Seq<Tagged>, tail: Seq<Tagged>)
    ensures
        a + seq![comma()] + b + tail == a + (seq![comma()] + (b + tail)),
{
    assert(a + seq![comma()] + b + tail =~= a + (seq![comma()] + (b + tail)));
}

/// There are entries wherever there are designators.
proof fn lemma_runs_entries_some(group: Seq<DesignatorView>, start: int)
    requires
        0 <= start < group.len(),
    ensures
        runs_entries(group, runs_from(group, start)).len() > 0,
{
    let end = run_end(group, start + 1);
    let run = Run { start, end };
    lemma_runs_entries_front(group, run, runs_from(group, end));
    lemma_run_tokens(group, false, run);
}

/// The designators from `start` on are those up to `end` and those from
/// `end` on.
proof fn lemma_members_split(
    group: Seq<DesignatorView>,
    marked: bool,
    start: int,
    end: int,
    done: Seq<DesignatorView>,
)
    requires
        0 <= start <= end <= group.len(),
    ensures
        done + flagged_all(group.subrange(start, end), marked) + flagged_all(
            group.subrange(end, group.len() as int),
            marked,
        ) == done + flagged_all(group.subrange(start, group.len() as int), marked),
{
    assert(done + flagged_all(group.subrange(start, end), marked) + flagged_all(
        group.subrange(end, group.len() as int),
        marked,
    ) =~= done + flagged_all(group.subrange(start, group.len() as int), marked));
}

} // verus!
