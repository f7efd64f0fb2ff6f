//! Every range of the canonical token stream has its two ends.
//!
//! The pass that takes back range symbols leaves a range symbol only where
//! an identifier stands in front of it and another one behind it, in the same
//! part of the stream.  Rebuilding keeps that, and so the last step of the
//! parser finds both ends behind every range symbol that the pass before it
//! has brought to the front.

use crate::chunks::{
    has_no_comma, lemma_chunk_at_back, lemma_chunk_at_front, lemma_prefix_notation_concat,
    lemma_sanitize_ranges_concat, lemma_single_chunk,
};
use crate::materialize::{left_position, range_parts, right_position};
use crate::parser::{canonical_tokens, raw_tokens};
use crate::passes::{
    absorb_inline, chunk_at, chunk_start, count_ranges, first_range, group, is_range_expression,
    lemma_first_range, prefix_notation, range_position, rebuilt, sanitize_parentheses,
    sanitize_ranges, separate, skip_whitespace,
};
use crate::token::Tagged;
use vstd::prelude::*;

verus! {

/// How far a reader has come in the part of the stream that it is reading.
pub struct Progress {
    /// 0: nothing yet; 1: an identifier; 2: a range symbol behind an
    /// identifier; 3: an identifier behind the range symbol.
    pub seen: int,
    /// Whether every range symbol so far stood behind an identifier, and
    /// every part that held one held an identifier behind it.
    pub good: bool,
}

/// The progress of a reader that has read nothing.
pub open spec fn at_start() -> Progress {
    Progress { seen: 0, good: true }
}

/// The progress behind one more token.
pub open spec fn step(p: Progress, t: Tagged) -> Progress {
    if t.is_comma() {
        Progress { seen: 0, good: p.good && p.seen != 2 }
    } else if t.is_identifier() {
        Progress {
            seen: if p.seen == 0 {
                1
            } else if p.seen == 2 {
                3
            } else {
                p.seen
            },
            good: p.good,
        }
    } else if t.is_range() {
        Progress { seen: 2, good: p.good && (p.seen == 1 || p.seen == 3) }
    } else {
        p
    }
}

/// The progress behind the tokens `ts`, from the progress `from` on.
pub open spec fn progress_from(from: Progress, ts: Seq<Tagged>) -> Progress
    decreases ts.len(),
{
    if ts.len() == 0 {
        from
    } else {
        step(progress_from(from, ts.drop_last()), ts.last())
    }
}

/// The progress behind the tokens `ts`.
pub open spec fn progress(ts: Seq<Tagged>) -> Progress {
    progress_from(at_start(), ts)
}

/// Whether the progress is that at the end of a part which is in order.
pub open spec fn is_whole(p: Progress) -> bool {
    p.good && p.seen != 2
}

/// Whether every range symbol of `ts` stands between two identifiers of its
/// part of the stream.
pub open spec fn has_whole_ranges(ts: Seq<Tagged>) -> bool {
    is_whole(progress(ts))
}

/// Whether every part of `ts` that begins with a range symbol holds the two
/// ends of the range behind it.
pub open spec fn has_both_ends(ts: Seq<Tagged>) -> bool {
    forall|i: int|
        0 <= i <= ts.len() && (#[trigger] chunk_at(ts, i)).len() > 0 && chunk_at(
            ts,
            i,
        )[0].is_range() ==> range_parts(chunk_at(ts, i)) is Some
}

/// The progress behind one more token is one step further.
pub proof fn lemma_progress_push(from: Progress, ts: Seq<Tagged>, t: Tagged)
    ensures
        progress_from(from, ts.push(t)) == step(progress_from(from, ts), t),
{
    assert(ts.push(t).drop_last() =~= ts);
}

/// The progress behind two streams, one behind the other.
pub proof fn lemma_progress_concat(from: Progress, a: Seq<Tagged>, b: Seq<Tagged>)
    ensures
        progress_from(from, a + b) == progress_from(progress_from(from, a), b),
    decreases b.len(),
{
    if b.len() == 0 {
        assert(a + b =~= a);
    } else {
        lemma_progress_concat(from, a, b.drop_last());
        assert((a + b).drop_last() =~= a + b.drop_last());
    }
}

/// What the reader has seen is one of four things, and once it is not good
/// any more it stays so.
pub proof fn lemma_progress_bounds(from: Progress, ts: Seq<Tagged>)
    requires
        0 <= from.seen <= 3,
    ensures
        0 <= progress_from(from, ts).seen <= 3,
        progress_from(from, ts).good ==> from.good,
    decreases ts.len(),
{
    if ts.len() > 0 {
        lemma_progress_bounds(from, ts.drop_last());
    }
}

/// Rebuilding does not change the progress of a reader.
pub proof fn lemma_rebuilt_progress(ts: Seq<Tagged>)
    ensures
        progress(rebuilt(ts)) == progress(ts),
    decreases ts.len(),
{
    if ts.len() > 0 {
        let front = ts.drop_last();
        let t = ts.last();
        lemma_rebuilt_progress(front);
        let out = rebuilt(front);
        let p = progress(out);
        lemma_progress_bounds(at_start(), out);
        if out.len() > 0 {
            lemma_progress_bounds(at_start(), out.drop_last());
        }
        if out.len() > 0 && out.last().is_comma() && (t.is_whitespace() || t.is_comma()) {
            assert(step(p, t) == p);
        } else if out.len() > 0 && out.last().is_identifier() && t.is_identifier() {
            let merged = out.last().merged(t.token.text());
            lemma_progress_push(at_start(), out.drop_last(), merged);
            assert(step(progress(out.drop_last()), merged) == p);
            assert(step(p, t) == p);
        } else {
            lemma_progress_push(at_start(), out, t.transformed());
        }
    }
}

/// Whether the token changes nothing for a reader: it is no comma, no
/// identifier and no range symbol.
pub open spec fn is_quiet(t: Tagged) -> bool {
    !t.is_comma() && !t.is_identifier() && !t.is_range()
}

/// Whether the progress was good at the start plays no part in what the
/// reader sees.
pub proof fn lemma_progress_good(seen: int, good: bool, ts: Seq<Tagged>)
    ensures
        progress_from(Progress { seen, good }, ts).seen == progress_from(
            Progress { seen, good: true },
            ts,
        ).seen,
        progress_from(Progress { seen, good }, ts).good == (good && progress_from(
            Progress { seen, good: true },
            ts,
        ).good),
    decreases ts.len(),
{
    if ts.len() > 0 {
        lemma_progress_good(seen, good, ts.drop_last());
    }
}

/// The ranges of a stream are whole if and only if they are so on both sides
/// of any of its commas.
pub proof fn lemma_whole_ranges_concat(x: Seq<Tagged>, sep: Tagged, y: Seq<Tagged>)
    requires
        sep.is_comma(),
    ensures
        has_whole_ranges(x + seq![sep] + y) == (has_whole_ranges(x) && has_whole_ranges(y)),
{
    let p = progress(x);
    lemma_progress_concat(at_start(), x + seq![sep], y);
    lemma_progress_push(at_start(), x, sep);
    assert(x + seq![sep] =~= x.push(sep));
    lemma_progress_good(0, p.good && p.seen != 2, y);
}

/// The progress behind the first `m + 1` tokens is that behind the first `m`
/// and the token at `m`.
pub proof fn lemma_progress_take(from: Progress, ts: Seq<Tagged>, m: int)
    requires
        0 <= m < ts.len(),
    ensures
        progress_from(from, ts.take(m + 1)) == step(progress_from(from, ts.take(m)), ts[m]),
{
    assert(ts.take(m + 1).drop_last() =~= ts.take(m));
}

/// Quiet tokens do not change the progress.
pub proof fn lemma_progress_quiet(from: Progress, ts: Seq<Tagged>, a: int, b: int)
    requires
        0 <= a <= b <= ts.len(),
        forall|j: int| a <= j < b ==> is_quiet(#[trigger] ts[j]),
    ensures
        progress_from(from, ts.take(b)) == progress_from(from, ts.take(a)),
    decreases b - a,
{
    if a < b {
        lemma_progress_quiet(from, ts, a, b - 1);
        lemma_progress_take(from, ts, b - 1);
    }
}

/// Behind both ends of a range, tokens that are neither commas nor range
/// symbols do not change the progress.
pub proof fn lemma_progress_behind(from: Progress, ts: Seq<Tagged>, a: int, b: int)
    requires
        0 <= a <= b <= ts.len(),
        progress_from(from, ts.take(a)).seen == 3,
        forall|j: int| a <= j < b ==> !(#[trigger] ts[j]).is_comma() && !ts[j].is_range(),
    ensures
        progress_from(from, ts.take(b)) == progress_from(from, ts.take(a)),
    decreases b - a,
{
    if a < b {
        lemma_progress_behind(from, ts, a, b - 1);
        lemma_progress_take(from, ts, b - 1);
    }
}

/// In front of the first range symbol of a part, a reader that has seen
/// nothing at the start has seen an identifier if and only if there is one.
pub proof fn lemma_progress_before(ts: Seq<Tagged>, b: int)
    requires
        0 <= b <= ts.len(),
        forall|j: int| 0 <= j < b ==> !(#[trigger] ts[j]).is_comma() && !ts[j].is_range(),
    ensures
        progress(ts.take(b)).good,
        progress(ts.take(b)).seen == 0 || progress(ts.take(b)).seen == 1,
        progress(ts.take(b)).seen == 1 ==> exists|j: int|
            0 <= j < b && (#[trigger] ts[j]).is_identifier(),
    decreases b,
{
    if b > 0 {
        lemma_progress_before(ts, b - 1);
        lemma_progress_take(at_start(), ts, b - 1);
        if progress(ts.take(b)).seen == 1 {
            if ts[b - 1].is_identifier() {
            } else {
                let j = choose|j: int| 0 <= j < b - 1 && (#[trigger] ts[j]).is_identifier();
                assert(ts[j].is_identifier());
            }
        }
    }
}

/// A reader that waits for the second end of a range goes on waiting where
/// no identifier and no comma comes.
pub proof fn lemma_progress_waiting(from: Progress, ts: Seq<Tagged>, a: int, b: int)
    requires
        0 <= a <= b <= ts.len(),
        progress_from(from, ts.take(a)).seen == 2,
        forall|j: int| a <= j < b ==> !(#[trigger] ts[j]).is_comma() && !ts[j].is_identifier(),
    ensures
        progress_from(from, ts.take(b)).seen == 2,
    decreases b - a,
{
    if a < b {
        lemma_progress_waiting(from, ts, a, b - 1);
        lemma_progress_take(from, ts, b - 1);
    }
}

/// Where the last part of a stream begins: behind its last comma.
pub proof fn lemma_last_chunk(ts: Seq<Tagged>, i: int)
    requires
        0 <= i <= ts.len(),
    ensures
        0 <= chunk_start(ts, i) <= i,
        forall|j: int| chunk_start(ts, i) <= j < i ==> !(#[trigger] ts[j]).is_comma(),
        chunk_start(ts, i) > 0 ==> ts[chunk_start(ts, i) - 1].is_comma(),
    decreases i,
{
    if i > 0 && !ts[i - 1].is_comma() {
        lemma_last_chunk(ts, i - 1);
    }
}


/// The number of whitespace tokens at the start of `ts`.
pub open spec fn leading_whitespace(ts: Seq<Tagged>) -> int {
    ts.len() - skip_whitespace(ts).len()
}

/// Skipping whitespace drops the whitespace tokens at the start, and no
/// more.
pub proof fn lemma_skip_whitespace(ts: Seq<Tagged>)
    ensures
        0 <= leading_whitespace(ts) <= ts.len(),
        skip_whitespace(ts) == ts.skip(leading_whitespace(ts)),
        forall|j: int| 0 <= j < leading_whitespace(ts) ==> (#[trigger] ts[j]).is_whitespace(),
        leading_whitespace(ts) < ts.len() ==> !ts[leading_whitespace(ts)].is_whitespace(),
    decreases ts.len(),
{
    if ts.len() > 0 && ts[0].is_whitespace() {
        let rest = ts.drop_first();
        lemma_skip_whitespace(rest);
        let k = leading_whitespace(rest);
        assert(rest.skip(k) =~= ts.skip(k + 1));
        assert forall|j: int| 0 <= j < k + 1 implies (#[trigger] ts[j]).is_whitespace() by {
            if j > 0 {
                assert(ts[j] == rest[j - 1]);
            }
        }
        if k < rest.len() {
            assert(ts[k + 1] == rest[k]);
        }
    } else {
        assert(ts.skip(0) =~= ts);
    }
}

/// A stream counts at least the range symbols of each of its beginnings.
pub proof fn lemma_count_ranges_take(ts: Seq<Tagged>, m: int)
    requires
        0 <= m <= ts.len(),
    ensures
        count_ranges(ts.take(m)) <= count_ranges(ts),
    decreases ts.len() - m,
{
    if m < ts.len() {
        lemma_count_ranges_take(ts, m + 1);
        assert(ts.take(m + 1).drop_last() =~= ts.take(m));
    } else {
        assert(ts.take(m) =~= ts);
    }
}

/// A stream with one range symbol has it at one position only.
pub proof fn lemma_single_range(ts: Seq<Tagged>, i: int, j: int)
    requires
        0 <= i < j < ts.len(),
        ts[i].is_range(),
        ts[j].is_range(),
    ensures
        count_ranges(ts) >= 2,
{
    lemma_count_ranges_take(ts, j + 1);
    lemma_count_ranges_take(ts.take(j), i + 1);
    assert(ts.take(j + 1).drop_last() =~= ts.take(j));
    assert(ts.take(j).take(i + 1) =~= ts.take(i + 1));
    assert(ts.take(i + 1).drop_last() =~= ts.take(i));
}

/// The ranges of a part that is a range are whole.
pub proof fn lemma_range_expression_whole(c: Seq<Tagged>)
    requires
        has_no_comma(c),
        is_range_expression(c),
    ensures
        has_whole_ranges(c),
{
    let first = skip_whitespace(c);
    let second = skip_whitespace(first.drop_first());
    let third = skip_whitespace(second.drop_first());
    lemma_skip_whitespace(c);
    let f1 = leading_whitespace(c);
    assert(first[0] == c[f1]);
    assert(first.drop_first() =~= c.skip(f1 + 1));
    lemma_skip_whitespace(c.skip(f1 + 1));
    let k2 = leading_whitespace(c.skip(f1 + 1));
    let f2 = f1 + 1 + k2;
    assert(second =~= c.skip(f2));
    assert(second[0] == c[f2]);
    assert(second.drop_first() =~= c.skip(f2 + 1));
    lemma_skip_whitespace(c.skip(f2 + 1));
    let k3 = leading_whitespace(c.skip(f2 + 1));
    let f3 = f2 + 1 + k3;
    assert(third =~= c.skip(f3));
    assert(third[0] == c[f3]);
    assert forall|j: int| 0 <= j < f1 implies is_quiet(#[trigger] c[j]) by {
        assert(c[j].is_whitespace());
    }
    assert forall|j: int| f1 + 1 <= j < f2 implies is_quiet(#[trigger] c[j]) by {
        assert(c.skip(f1 + 1)[j - f1 - 1].is_whitespace());
    }
    assert forall|j: int| f2 + 1 <= j < f3 implies is_quiet(#[trigger] c[j]) by {
        assert(c.skip(f2 + 1)[j - f2 - 1].is_whitespace());
    }
    assert forall|j: int| f3 + 1 <= j < c.len() implies !(#[trigger] c[j]).is_comma()
        && !c[j].is_range() by {
        if c[j].is_range() {
            lemma_single_range(c, f2, j);
        }
    }
    let start = at_start();
    assert(c.take(0) =~= Seq::<Tagged>::empty());
    lemma_progress_quiet(start, c, 0, f1);
    lemma_progress_take(start, c, f1);
    lemma_progress_quiet(start, c, f1 + 1, f2);
    lemma_progress_take(start, c, f2);
    lemma_progress_quiet(start, c, f2 + 1, f3);
    lemma_progress_take(start, c, f3);
    lemma_progress_behind(start, c, f3 + 1, c.len() as int);
    assert(c.take(c.len() as int) =~= c);
}

/// The ranges of a part without range symbols are whole.
pub proof fn lemma_no_range_whole(c: Seq<Tagged>)
    requires
        forall|j: int| 0 <= j < c.len() ==> !(#[trigger] c[j]).is_comma() && !c[j].is_range(),
    ensures
        has_whole_ranges(c),
{
    lemma_progress_before(c, c.len() as int);
    assert(c.take(c.len() as int) =~= c);
}

/// The pass that takes back range symbols leaves the ranges of a part whole.
pub proof fn lemma_sanitized_chunk_whole(c: Seq<Tagged>)
    requires
        has_no_comma(c),
    ensures
        has_whole_ranges(sanitize_ranges(c)),
{
    let r = sanitize_ranges(c);
    assert forall|j: int| 0 <= j < c.len() implies chunk_at(c, j) == c by {
        lemma_single_chunk(c, j);
    }
    if is_range_expression(c) {
        assert(r =~= c);
        lemma_range_expression_whole(c);
    } else {
        assert forall|j: int| 0 <= j < r.len() implies !(#[trigger] r[j]).is_comma()
            && !r[j].is_range() by {
            assert(chunk_at(c, j) == c);
            assert(!c[j].is_comma());
        }
        lemma_no_range_whole(r);
    }
}

/// The pass that takes back range symbols leaves the ranges of a stream
/// whole: behind it every range symbol stands between two identifiers of its
/// part.
pub proof fn lemma_sanitized_whole(ts: Seq<Tagged>)
    ensures
        has_whole_ranges(sanitize_ranges(ts)),
    decreases ts.len(),
{
    let n = ts.len() as int;
    let start = chunk_start(ts, n);
    lemma_last_chunk(ts, n);
    if start == 0 {
        lemma_sanitized_chunk_whole(ts);
    } else {
        let x = ts.take(start - 1);
        let sep = ts[start - 1];
        let y = ts.skip(start);
        assert(ts =~= x + seq![sep] + y);
        assert(has_no_comma(y)) by {
            assert forall|j: int| 0 <= j < y.len() implies !(#[trigger] y[j]).is_comma() by {
                assert(y[j] == ts[j + start]);
            }
        }
        lemma_sanitized_whole(x);
        lemma_sanitized_chunk_whole(y);
        lemma_sanitize_ranges_concat(x, sep, y);
        lemma_whole_ranges_concat(sanitize_ranges(x), sep, sanitize_ranges(y));
    }
}

/// A part that begins with a range symbol and holds two identifiers holds
/// both ends of the range.
pub proof fn lemma_two_identifiers(c: Seq<Tagged>, a: int, b: int)
    requires
        0 < a < b < c.len(),
        c[a].is_identifier(),
        c[b].is_identifier(),
    ensures
        range_parts(c) is Some,
{
    let left = left_position(c);
    let right = right_position(c);
    if left == 2 {
        assert(c[1].is_whitespace());
    }
    if right == left + 2 {
        assert(c[left + 1].is_whitespace());
    }
}

/// The pass that brings range symbols to the front gives every part with
/// whole ranges both ends of its range.
pub proof fn lemma_prefix_chunk_both_ends(c: Seq<Tagged>)
    requires
        has_no_comma(c),
        has_whole_ranges(c),
    ensures
        has_both_ends(prefix_notation(c)),
{
    let r = prefix_notation(c);
    let n = c.len() as int;
    let p = first_range(c);
    lemma_first_range(c);
    assert forall|i: int| 0 <= i <= n implies chunk_at(c, i) == c && chunk_start(c, i) == 0
        && range_position(c, i) == p by {
        lemma_single_chunk(c, i);
    }
    assert(has_no_comma(r)) by {
        assert forall|i: int| 0 <= i < r.len() implies !(#[trigger] r[i]).is_comma() by {
            lemma_single_chunk(c, i);
            assert(range_position(c, i) == p);
            if p < n {
                assert(!c[p].is_comma());
                assert(!c[0].is_comma());
            }
            assert(!c[i].is_comma());
        }
    }
    assert forall|i: int| 0 <= i <= n implies chunk_at(r, i) == r by {
        lemma_single_chunk(r, i);
    }
    if n > 0 && r[0].is_range() {
        lemma_single_chunk(c, 0);
        assert(range_position(c, 0) == p);
        assert(p < n) by {
            if p >= n {
                assert(r[0] == c[0]);
            }
        }
        assert(c.take(n) =~= c);
        lemma_progress_concat(at_start(), c.take(p + 1), c.skip(p + 1));
        assert(c.take(p + 1) + c.skip(p + 1) =~= c);
        lemma_progress_before(c, p);
        lemma_progress_take(at_start(), c, p);
        lemma_progress_bounds(progress(c.take(p + 1)), c.skip(p + 1));
        assert(progress(c.take(p + 1)).good);
        assert(progress(c.take(p)).seen == 1);
        let j = choose|j: int| 0 <= j < p && (#[trigger] c[j]).is_identifier();
        assert(exists|k: int| p < k < n && (#[trigger] c[k]).is_identifier()) by {
            if !(exists|k: int| p < k < n && (#[trigger] c[k]).is_identifier()) {
                lemma_progress_waiting(at_start(), c, p + 1, n);
            }
        }
        let k = choose|k: int| p < k < n && (#[trigger] c[k]).is_identifier();
        let a = if j == 0 {
            p
        } else {
            j
        };
        lemma_single_chunk(c, a);
        lemma_single_chunk(c, k);
        assert(range_position(c, a) == p);
        assert(range_position(c, k) == p);
        assert(r[a].is_identifier());
        assert(r[k] == c[k]);
        lemma_two_identifiers(r, a, k);
    }
}

/// Every part of a stream has both ends of its range if every part has them
/// on both sides of one of its commas.
pub proof fn lemma_both_ends_concat(x: Seq<Tagged>, sep: Tagged, y: Seq<Tagged>)
    requires
        sep.is_comma(),
        has_both_ends(x),
        has_both_ends(y),
    ensures
        has_both_ends(x + seq![sep] + y),
{
    let ts = x + seq![sep] + y;
    assert forall|i: int|
        0 <= i <= ts.len() && (#[trigger] chunk_at(ts, i)).len() > 0 && chunk_at(
            ts,
            i,
        )[0].is_range() implies range_parts(chunk_at(ts, i)) is Some by {
        if i <= x.len() {
            lemma_chunk_at_front(x, sep, y, i);
            assert(chunk_at(ts, i) == chunk_at(x, i));
        } else {
            let j = i - x.len() - 1;
            lemma_chunk_at_back(x, sep, y, j);
            assert(chunk_at(ts, i) == chunk_at(y, j));
        }
    }
}

/// The pass that brings range symbols to the front gives every part of a
/// stream with whole ranges both ends of its range.
pub proof fn lemma_prefix_both_ends(ts: Seq<Tagged>)
    requires
        has_whole_ranges(ts),
    ensures
        has_both_ends(prefix_notation(ts)),
    decreases ts.len(),
{
    let n = ts.len() as int;
    let start = chunk_start(ts, n);
    lemma_last_chunk(ts, n);
    if start == 0 {
        lemma_prefix_chunk_both_ends(ts);
    } else {
        let x = ts.take(start - 1);
        let sep = ts[start - 1];
        let y = ts.skip(start);
        assert(ts =~= x + seq![sep] + y);
        assert(has_no_comma(y)) by {
            assert forall|j: int| 0 <= j < y.len() implies !(#[trigger] y[j]).is_comma() by {
                assert(y[j] == ts[j + start]);
            }
        }
        lemma_whole_ranges_concat(x, sep, y);
        lemma_prefix_both_ends(x);
        lemma_prefix_chunk_both_ends(y);
        lemma_prefix_notation_concat(x, sep, y);
        lemma_both_ends_concat(prefix_notation(x), sep, prefix_notation(y));
    }
}

/// Behind the last three passes every part of the stream that begins with a
/// range symbol holds both ends of the range, whatever the stream was.
pub proof fn lemma_later_passes_both_ends(ts: Seq<Tagged>)
    ensures
        has_both_ends(prefix_notation(rebuilt(sanitize_ranges(ts)))),
{
    lemma_sanitized_whole(ts);
    lemma_rebuilt_progress(sanitize_ranges(ts));
    lemma_prefix_both_ends(rebuilt(sanitize_ranges(ts)));
}

/// Every part of the canonical tokens of a text that begins with a range
/// symbol holds both ends of the range: the parser never meets a range symbol
/// that lacks an end.
pub proof fn lemma_canonical_tokens_both_ends(text: Seq<char>)
    ensures
        has_both_ends(canonical_tokens(text)),
{
    lemma_later_passes_both_ends(
        separate(group(sanitize_parentheses(absorb_inline(raw_tokens(text))))),
    );
}

} // verus!
