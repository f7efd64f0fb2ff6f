//! The builder: from a list of designators to their compact text.
//!
//! The designators are sorted; every run of designators that follow each
//! other by one step is written as a range once it is three or more long;
//! designators in parentheses form a group of their own behind the others.

use crate::designator::{
    decode, designator_order, lemma_designator_order, lemma_order_total, Designator, DesignatorView,
};
use crate::token::{CLOSE_PAREN, COMMA, OPEN_PAREN, RANGE};
use vstd::prelude::*;
use vstd::relations::{sorted_by, total_ordering};
use vstd::seq_lib::{lemma_multiset_commutative, lemma_sorted_unique};
use vstd::string::StringExecFns;

verus! {

/// The character that separates the group without parentheses from the group
/// in parentheses, behind a comma.
pub const LINE_BREAK: char = '\n';

/// The designators `ds` in their order.
pub open spec fn sorted_designators(ds: Seq<DesignatorView>) -> Seq<DesignatorView> {
    ds.sort_by(designator_order())
}

/// Sorting puts the designators in their order and keeps each of them as
/// often as it was there.
pub proof fn lemma_sorted_designators(ds: Seq<DesignatorView>)
    ensures
        sorted_by(sorted_designators(ds), designator_order()),
        sorted_designators(ds).to_multiset() == ds.to_multiset(),
        sorted_designators(ds).len() == ds.len(),
        forall|i: int|
            0 <= i < sorted_designators(ds).len() ==> ds.contains(
                #[trigger] sorted_designators(ds)[i],
            ),
{
    let sorted = sorted_designators(ds);
    lemma_designator_order();
    ds.lemma_sort_by_ensures(designator_order());
    vstd::seq_lib::to_multiset_len(ds);
    vstd::seq_lib::to_multiset_len(sorted);
    assert forall|i: int| 0 <= i < sorted.len() implies ds.contains(#[trigger] sorted[i]) by {
        assert(sorted.contains(sorted[i]));
    }
}

/// How far the designator at `i` lies behind the one in front of it; -1 for
/// the first one and wherever the two cannot stand in one range.
pub open spec fn step(sorted: Seq<DesignatorView>, i: int) -> int {
    if i <= 0 {
        -1
    } else {
        match sorted[i].difference(sorted[i - 1]) {
            Some(d) => d,
            None => -1,
        }
    }
}

/// The text of the designator at `i`: the first one in full, each other one
/// as it is written behind the one in front of it.
pub open spec fn label(sorted: Seq<DesignatorView>, i: int) -> Seq<char> {
    if i <= 0 {
        sorted[0].text()
    } else {
        sorted[i].omitted_text(sorted[i - 1])
    }
}

/// The first position at or behind `from` that does not continue a run, or
/// the length of `sorted`.
pub open spec fn run_end(sorted: Seq<DesignatorView>, from: int) -> int
    decreases sorted.len() - from,
{
    if from >= sorted.len() {
        sorted.len() as int
    } else if step(sorted, from) != 1 {
        from
    } else {
        run_end(sorted, from + 1)
    }
}

/// A run ends where the first designator stands that does not lie one step
/// behind the one in front of it.
pub proof fn lemma_run_end(sorted: Seq<DesignatorView>, from: int)
    requires
        0 <= from <= sorted.len(),
    ensures
        from <= run_end(sorted, from) <= sorted.len(),
        forall|j: int| from <= j < run_end(sorted, from) ==> step(sorted, j) == 1,
        run_end(sorted, from) < sorted.len() ==> step(sorted, run_end(sorted, from)) != 1,
    decreases sorted.len() - from,
{
    if from < sorted.len() && step(sorted, from) == 1 {
        lemma_run_end(sorted, from + 1);
    }
}

/// A run: the positions from `start` up to `end`, without `end`.
pub struct Run {
    pub start: int,
    pub end: int,
}

/// The runs of `sorted` from `start` on.  A run begins at `start` and goes on
/// for as long as each designator lies one step behind the one in front.
pub open spec fn runs_from(sorted: Seq<DesignatorView>, start: int) -> Seq<Run>
    decreases sorted.len() - start,
{
    if 0 <= start < sorted.len() {
        let end = run_end(sorted, start + 1);
        proof {
            lemma_run_end(sorted, start + 1);
        }
        seq![Run { start, end }] + runs_from(sorted, end)
    } else {
        Seq::empty()
    }
}

/// Whether the runs `runs` cover `sorted` from `start` on without a gap, each
/// of them as long as it can be: within a run every designator lies one step
/// behind the one in front of it, and the designator behind a run does not.
pub open spec fn are_whole_runs(sorted: Seq<DesignatorView>, start: int, runs: Seq<Run>) -> bool {
    &&& start < sorted.len() ==> runs.len() > 0 && runs[0].start == start && runs.last().end
        == sorted.len()
    &&& start >= sorted.len() ==> runs.len() == 0
    &&& forall|k: int|
        0 <= k < runs.len() ==> start <= (#[trigger] runs[k]).start < runs[k].end <= sorted.len()
    &&& forall|k: int, j: int|
        0 <= k < runs.len() && (#[trigger] runs[k]).start < j < runs[k].end ==> #[trigger] step(
            sorted,
            j,
        ) == 1
    &&& forall|k: int|
        0 <= k < runs.len() && (#[trigger] runs[k]).end < sorted.len() ==> step(
            sorted,
            runs[k].end,
        ) != 1
    &&& forall|k: int, l: int|
        0 <= k && l == k + 1 && l < runs.len() ==> (#[trigger] runs[l]).start == (
        #[trigger] runs[k]).end
}

/// The runs from `start` on cover the designators from `start` on without a
/// gap, each of them as long as it can be.
pub proof fn lemma_runs_from(sorted: Seq<DesignatorView>, start: int)
    requires
        0 <= start <= sorted.len(),
    ensures
        are_whole_runs(sorted, start, runs_from(sorted, start)),
    decreases sorted.len() - start,
{
    if start < sorted.len() {
        let end = run_end(sorted, start + 1);
        lemma_run_end(sorted, start + 1);
        lemma_runs_from(sorted, end);
        let rest = runs_from(sorted, end);
        let all = runs_from(sorted, start);
        assert(all == seq![Run { start, end }] + rest);
        assert forall|k: int| 0 <= k < all.len() implies start <= (#[trigger] all[k]).start
            < all[k].end <= sorted.len() by {
            if k > 0 {
                assert(all[k] == rest[k - 1]);
            }
        }
        assert forall|k: int, j: int|
            0 <= k < all.len() && (#[trigger] all[k]).start < j < all[k].end implies #[trigger]
            step(sorted, j) == 1 by {
            if k > 0 {
                assert(all[k] == rest[k - 1]);
            }
        }
        assert forall|k: int| 0 <= k < all.len() && (#[trigger] all[k]).end < sorted.len() implies
            step(sorted, all[k].end) != 1 by {
            if k > 0 {
                assert(all[k] == rest[k - 1]);
            }
        }
        assert forall|k: int, l: int| 0 <= k && l == k + 1 && l < all.len() implies (
        #[trigger] all[l]).start == (#[trigger] all[k]).end by {
            assert(all[l] == rest[l - 1]);
            if k > 0 {
                assert(all[k] == rest[k - 1]);
            }
        }
        if rest.len() > 0 {
            assert(all.last() == rest.last());
        }
    }
}

/// Whether the run is written as a range.
pub open spec fn is_written_as_range(run: Run) -> bool {
    run.end - run.start >= 3
}

/// The text is collapsed as far as it can be: two designators of which one
/// lies one step behind the other always stand in one run, and a run is
/// written as a range unless it has one or two members.  So two such
/// designators are written one by one only where they are a run of exactly
/// two.
pub proof fn lemma_fully_collapsed(sorted: Seq<DesignatorView>, i: int)
    requires
        0 < i < sorted.len(),
        step(sorted, i) == 1,
    ensures
        exists|k: int|
            #![trigger runs_from(sorted, 0)[k]]
            {
                &&& 0 <= k < runs_from(sorted, 0).len()
                &&& runs_from(sorted, 0)[k].start <= i - 1
                &&& i < runs_from(sorted, 0)[k].end
                &&& (is_written_as_range(runs_from(sorted, 0)[k]) || (runs_from(sorted, 0)[k].start
                    == i - 1 && runs_from(sorted, 0)[k].end == i + 1))
                &&& is_written_as_range(runs_from(sorted, 0)[k]) ==> run_text(
                    sorted,
                    runs_from(sorted, 0)[k],
                ) == label(sorted, runs_from(sorted, 0)[k].start) + seq![RANGE] + label(
                    sorted,
                    runs_from(sorted, 0)[k].end - 1,
                )
            },
{
    let runs = runs_from(sorted, 0);
    lemma_runs_from(sorted, 0);
    let k = run_holding(sorted, runs, i, 0);
    if runs[k].start == i {
        assert(k > 0);
        assert(runs[k - 1].end == i);
        assert(step(sorted, runs[k - 1].end) != 1);
    }
}

/// The position of the run among `runs` that holds position `i`, which lies
/// at or behind the start of the run at `from`.
proof fn run_holding(sorted: Seq<DesignatorView>, runs: Seq<Run>, i: int, from: int) -> (k: int)
    requires
        are_whole_runs(sorted, 0, runs),
        0 <= from < runs.len(),
        runs[from].start <= i < sorted.len(),
    ensures
        0 <= k < runs.len(),
        runs[k].start <= i < runs[k].end,
    decreases runs.len() - from,
{
    if i < runs[from].end {
        from
    } else {
        if from + 1 == runs.len() {
            assert(runs[from] == runs.last());
        }
        assert(runs[from + 1].start == runs[from].end);
        run_holding(sorted, runs, i, from + 1)
    }
}

/// The text of one run: up to two designators are written one by one; of
/// three and more only the first and the last one are written, with the range
/// symbol between them.
pub open spec fn run_text(sorted: Seq<DesignatorView>, run: Run) -> Seq<char> {
    if run.end - run.start <= 1 {
        label(sorted, run.start)
    } else if run.end - run.start == 2 {
        label(sorted, run.start) + seq![COMMA] + label(sorted, run.start + 1)
    } else {
        label(sorted, run.start) + seq![RANGE] + label(sorted, run.end - 1)
    }
}

/// `text` with `piece` behind it; `separator` parts the two unless `text` is
/// empty.
pub open spec fn joined(text: Seq<char>, separator: Seq<char>, piece: Seq<char>) -> Seq<char> {
    if text.len() > 0 {
        text + separator + piece
    } else {
        piece
    }
}

/// The text of the runs `runs`, one behind the other.
pub open spec fn runs_text(sorted: Seq<DesignatorView>, runs: Seq<Run>) -> Seq<char>
    decreases runs.len(),
{
    if runs.len() == 0 {
        Seq::empty()
    } else {
        joined(
            runs_text(sorted, runs.drop_last()),
            seq![COMMA],
            run_text(sorted, runs.last()),
        )
    }
}

/// The designators of one group as they are sorted: those of the group in
/// parentheses lose their parentheses first.
pub open spec fn group_members(ds: Seq<DesignatorView>, has_paren: bool) -> Seq<DesignatorView> {
    if has_paren {
        sorted_designators(ds.map_values(|d: DesignatorView| d.without_parentheses()))
    } else {
        sorted_designators(ds)
    }
}

/// The text of one group of designators.
pub open spec fn group_text(ds: Seq<DesignatorView>, has_paren: bool) -> Seq<char> {
    let sorted = group_members(ds, has_paren);
    let body = runs_text(sorted, runs_from(sorted, 0));
    if has_paren {
        seq![OPEN_PAREN] + body + seq![CLOSE_PAREN]
    } else {
        body
    }
}

/// What tells the designators in parentheses from the others.
pub open spec fn in_parentheses() -> spec_fn(DesignatorView) -> bool {
    |d: DesignatorView| d.parenthesized
}

/// What tells the designators without parentheses from the others.
pub open spec fn not_in_parentheses() -> spec_fn(DesignatorView) -> bool {
    |d: DesignatorView| !d.parenthesized
}

/// The compact text of the designators that the texts `texts` stand for.
///
/// No text gives the empty text and a single one is given back as it is.
/// Otherwise the designators without parentheses come first and those in
/// parentheses behind them, after a comma and a line break.
pub open spec fn build_text(texts: Seq<Seq<char>>) -> Seq<char> {
    if texts.len() == 0 {
        Seq::empty()
    } else if texts.len() == 1 {
        texts[0]
    } else {
        let all = texts.map_values(|s: Seq<char>| decode(s));
        let plain = all.filter(not_in_parentheses());
        let wrapped = all.filter(in_parentheses());
        let first = if plain.len() > 0 {
            group_text(plain, false)
        } else {
            Seq::empty()
        };
        if wrapped.len() > 0 {
            joined(first, seq![COMMA, LINE_BREAK], group_text(wrapped, true))
        } else {
            first
        }
    }
}

/// The designators of the sorted lists `a` and `b`, in their order.
fn merge(a: Vec<Designator>, b: Vec<Designator>) -> (r: Vec<Designator>)
    requires
        sorted_by(a.deep_view(), designator_order()),
        sorted_by(b.deep_view(), designator_order()),
    ensures
        sorted_by(r.deep_view(), designator_order()),
        r.deep_view().to_multiset() == a.deep_view().to_multiset().add(
            b.deep_view().to_multiset(),
        ),
{
    let ghost left = a.deep_view();
    let ghost right = b.deep_view();
    let mut out: Vec<Designator> = Vec::new();
    let mut i: usize = 0;
    let mut j: usize = 0;
    proof {
        lemma_designator_order();
        lemma_multiset_commutative(left.take(0), right.take(0));
        assert(out.deep_view() =~= left.take(0) + right.take(0));
    }
    while i < a.len() || j < b.len()
        invariant
            i <= a.len(),
            j <= b.len(),
            left == a.deep_view(),
            right == b.deep_view(),
            total_ordering(designator_order()),
            sorted_by(left, designator_order()),
            sorted_by(right, designator_order()),
            sorted_by(out.deep_view(), designator_order()),
            out.deep_view().to_multiset() == left.take(i as int).to_multiset().add(
                right.take(j as int).to_multiset(),
            ),
            out.len() > 0 && i < a.len() ==> designator_order()(
                out.deep_view().last(),
                left[i as int],
            ),
            out.len() > 0 && j < b.len() ==> designator_order()(
                out.deep_view().last(),
                right[j as int],
            ),
        decreases a.len() - i + b.len() - j,
    {
        let ghost before = out.deep_view();
        let from_left = if j == b.len() {
            true
        } else if i == a.len() {
            false
        } else {
            !b[j].precedes(&a[i])
        };
        if from_left {
            let ghost x = left[i as int];
            out.push(a[i].clone());
            proof {
                assert(out.deep_view() =~= before.push(x));
                if j < b.len() {
                    lemma_order_total(right[j as int], x);
                }
                lemma_merged(before, x);
                assert(left.take(i + 1) =~= left.take(i as int).push(x));
                vstd::seq_lib::to_multiset_build(left.take(i as int), x);
                broadcast use vstd::multiset::group_multiset_axioms;

                assert(out.deep_view().to_multiset() =~= left.take(i + 1).to_multiset().add(
                    right.take(j as int).to_multiset(),
                ));
            }
            i += 1;
        } else {
            let ghost x = right[j as int];
            out.push(b[j].clone());
            proof {
                assert(out.deep_view() =~= before.push(x));
                lemma_merged(before, x);
                assert(right.take(j + 1) =~= right.take(j as int).push(x));
                vstd::seq_lib::to_multiset_build(right.take(j as int), x);
                broadcast use vstd::multiset::group_multiset_axioms;

                assert(out.deep_view().to_multiset() =~= left.take(i as int).to_multiset().add(
                    right.take(j + 1).to_multiset(),
                ));
            }
            j += 1;
        }
    }
    assert(left.take(a.len() as int) == left);
    assert(right.take(b.len() as int) == right);
    out
}

/// A sorted list stays sorted with a designator behind it that its last
/// member does not follow, and gains that designator as a member.
proof fn lemma_merged(out: Seq<DesignatorView>, x: DesignatorView)
    requires
        total_ordering(designator_order()),
        sorted_by(out, designator_order()),
        out.len() > 0 ==> designator_order()(out.last(), x),
    ensures
        sorted_by(out.push(x), designator_order()),
        out.push(x).to_multiset() == out.to_multiset().insert(x),
{
    let longer = out.push(x);
    assert forall|k: int, l: int| 0 <= k < l < longer.len() implies #[trigger]
        designator_order()(longer[k], longer[l]) by {
        if l == out.len() {
            if k < out.len() - 1 {
                assert(designator_order()(out[k], out.last()));
            }
        } else {
            assert(designator_order()(out[k], out[l]));
        }
    }
    vstd::seq_lib::to_multiset_build(out, x);
}

/// The designators of `v` in their order.
fn sort(v: Vec<Designator>) -> (r: Vec<Designator>)
    ensures
        r.deep_view() == sorted_designators(v.deep_view()),
    decreases v.len(),
{
    let ghost all = v.deep_view();
    proof {
        lemma_designator_order();
        all.lemma_sort_by_ensures(designator_order());
    }
    if v.len() <= 1 {
        proof {
            lemma_sorted_unique(all, all.sort_by(designator_order()), designator_order());
        }
        return v;
    }
    let mut first = v;
    let middle = first.len() / 2;
    let second = first.split_off(middle);
    let ghost left = first.deep_view();
    let ghost right = second.deep_view();
    assert(left + right =~= all);
    let first = sort(first);
    let second = sort(second);
    proof {
        left.lemma_sort_by_ensures(designator_order());
        right.lemma_sort_by_ensures(designator_order());
    }
    let merged = merge(first, second);
    proof {
        lemma_multiset_commutative(left, right);
        lemma_sorted_unique(
            merged.deep_view(),
            all.sort_by(designator_order()),
            designator_order(),
        );
    }
    merged
}

/// The text of the designator at `i` of `sorted`.
fn label_of(sorted: &Vec<Designator>, i: usize) -> (s: String)
    requires
        i < sorted.len(),
    ensures
        s@ == label(sorted.deep_view(), i as int),
{
    if i == 0 {
        sorted[0].to_string()
    } else {
        sorted[i].to_omitted_string(&sorted[i - 1])
    }
}

/// Whether the designator at `i` of `sorted` lies one step behind the one in
/// front of it.
fn continues_run(sorted: &Vec<Designator>, i: usize) -> (r: bool)
    requires
        0 < i < sorted.len(),
    ensures
        r == (step(sorted.deep_view(), i as int) == 1),
{
    match sorted[i].difference(&sorted[i - 1]) {
        Some(d) => d == 1,
        None => false,
    }
}

/// Appends the text of the run `sorted[start..end]` to `body`, behind a
/// comma unless `body` is empty.
fn push_run(body: &mut String, sorted: &Vec<Designator>, start: usize, end: usize)
    requires
        start < end <= sorted.len(),
    ensures
        final(body)@ == joined(
            old(body)@,
            seq![COMMA],
            run_text(sorted.deep_view(), Run { start: start as int, end: end as int }),
        ),
{
    if !body.as_str().is_empty() {
        body.push(COMMA);
    }
    let first = label_of(sorted, start);
    body.append(first.as_str());
    if end - start == 2 {
        body.push(COMMA);
        let second = label_of(sorted, start + 1);
        body.append(second.as_str());
    } else if end - start > 2 {
        body.push(RANGE);
        let last = label_of(sorted, end - 1);
        body.append(last.as_str());
    }
}

/// The text of one group of designators; `has_paren` says that it is the
/// group in parentheses.
pub fn build_inner(designators: Vec<Designator>, has_paren: bool) -> (text: String)
    ensures
        text@ == group_text(designators.deep_view(), has_paren),
{
    let ghost given = designators.deep_view();
    let members = if has_paren {
        let mut bare: Vec<Designator> = Vec::new();
        let mut i: usize = 0;
        while i < designators.len()
            invariant
                i <= designators.len(),
                given == designators.deep_view(),
                bare.deep_view() == given.take(i as int).map_values(
                    |d: DesignatorView| d.without_parentheses(),
                ),
            decreases designators.len() - i,
        {
            let ghost before = bare.deep_view();
            bare.push(designators[i].without_parentheses());
            assert(bare.deep_view() =~= before.push(given[i as int].without_parentheses()));
            i += 1;
            assert(given.take(i as int) == given.take(i - 1).push(given[i - 1]));
            assert(bare.deep_view() =~= given.take(i as int).map_values(
                |d: DesignatorView| d.without_parentheses(),
            ));
        }
        assert(given.take(designators.len() as int) == given);
        bare
    } else {
        designators
    };
    let sorted = sort(members);
    let ghost views = sorted.deep_view();
    assert(views == group_members(given, has_paren));
    let mut body = String::new();
    let ghost mut done: Seq<Run> = Seq::empty();
    let mut start: usize = 0;
    while start < sorted.len()
        invariant
            start <= sorted.len(),
            views == sorted.deep_view(),
            done + runs_from(views, start as int) == runs_from(views, 0),
            body@ == runs_text(views, done),
        decreases sorted.len() - start,
    {
        let mut end: usize = start + 1;
        while end < sorted.len() && continues_run(&sorted, end)
            invariant
                start < end <= sorted.len(),
                views == sorted.deep_view(),
                run_end(views, start + 1) == run_end(views, end as int),
            decreases sorted.len() - end,
        {
            end += 1;
        }
        let ghost run = Run { start: start as int, end: end as int };
        push_run(&mut body, &sorted, start, end);
        proof {
            assert(runs_from(views, start as int) == seq![run] + runs_from(views, end as int));
            let longer = done.push(run);
            assert(longer.drop_last() == done);
            assert(longer + runs_from(views, end as int) == done + runs_from(views, start as int));
            done = longer;
        }
        start = end;
    }
    proof {
        assert(done + Seq::<Run>::empty() == done);
    }
    if has_paren {
        let mut text = String::new();
        text.push(OPEN_PAREN);
        text.append(body.as_str());
        text.push(CLOSE_PAREN);
        text
    } else {
        body
    }
}

/// The compact text of the designators that `designators` holds as texts.
pub fn build(designators: Vec<String>) -> (text: String)
    ensures
        text@ == build_text(designators.deep_view()),
        designators.len() == 0 ==> text@.len() == 0,
        designators.len() == 1 ==> text@ == designators[0]@,
{
    if designators.len() == 0 {
        return String::new();
    }
    if designators.len() == 1 {
        return designators[0].clone();
    }
    let ghost texts = designators.deep_view();
    let ghost all = texts.map_values(|s: Seq<char>| decode(s));
    let mut plain: Vec<Designator> = Vec::new();
    let mut wrapped: Vec<Designator> = Vec::new();
    let mut i: usize = 0;
    proof {
        assert(all.take(0) =~= Seq::<DesignatorView>::empty());
        reveal(Seq::filter);
        assert(plain.deep_view() =~= all.take(0).filter(not_in_parentheses()));
        assert(wrapped.deep_view() =~= all.take(0).filter(in_parentheses()));
    }
    while i < designators.len()
        invariant
            i <= designators.len(),
            texts == designators.deep_view(),
            all == texts.map_values(|s: Seq<char>| decode(s)),
            plain.deep_view() == all.take(i as int).filter(not_in_parentheses()),
            wrapped.deep_view() == all.take(i as int).filter(in_parentheses()),
        decreases designators.len() - i,
    {
        let d = Designator::from(designators[i].as_str());
        let ghost plain_before = plain.deep_view();
        let ghost wrapped_before = wrapped.deep_view();
        proof {
            assert(d@ == all[i as int]);
            assert(all.take(i + 1) == all.take(i as int).push(all[i as int]));
            all.take(i as int).lemma_filter_push(all[i as int], not_in_parentheses());
            all.take(i as int).lemma_filter_push(all[i as int], in_parentheses());
        }
        if d.has_paren() {
            wrapped.push(d);
            assert(wrapped.deep_view() =~= wrapped_before.push(all[i as int]));
        } else {
            plain.push(d);
            assert(plain.deep_view() =~= plain_before.push(all[i as int]));
        }
        i += 1;
    }
    assert(all.take(designators.len() as int) == all);
    let mut text = String::new();
    if plain.len() > 0 {
        text = build_inner(plain, false);
    }
    if wrapped.len() > 0 {
        if !text.as_str().is_empty() {
            text.push(COMMA);
            text.push(LINE_BREAK);
        }
        let second = build_inner(wrapped, true);
        text.append(second.as_str());
    }
    text
}

} // verus!
