//! The passes that go part by part, on a token stream that is put together
//! from parts.
//!
//! A comma ends a part: what the passes do to the tokens in front of a comma
//! does not depend on what stands behind it, and the other way round.

use crate::passes::{
    chunk_at, chunk_end, chunk_start, is_chunk, lemma_chunk_bounds, lemma_first_range,
    prefix_notation, range_position, sanitize_ranges,
};
use crate::token::Tagged;
use vstd::prelude::*;

verus! {

/// Whether no token of `ts` is a comma.
pub open spec fn has_no_comma(ts: Seq<Tagged>) -> bool {
    forall|i: int| 0 <= i < ts.len() ==> !(#[trigger] ts[i]).is_comma()
}

/// In front of a comma, where a part begins does not depend on what stands
/// behind the comma.
pub proof fn lemma_chunk_start_front(x: Seq<Tagged>, sep: Tagged, y: Seq<Tagged>, i: int)
    requires
        0 <= i <= x.len(),
    ensures
        chunk_start(x + seq![sep] + y, i) == chunk_start(x, i),
    decreases i,
{
    let ts = x + seq![sep] + y;
    if i > 0 {
        assert(ts[i - 1] == x[i - 1]);
        lemma_chunk_start_front(x, sep, y, i - 1);
    }
}

/// In front of a comma, a part ends at the latest at the comma.
pub proof fn lemma_chunk_end_front(x: Seq<Tagged>, sep: Tagged, y: Seq<Tagged>, i: int)
    requires
        sep.is_comma(),
        0 <= i <= x.len(),
    ensures
        chunk_end(x + seq![sep] + y, i) == chunk_end(x, i),
    decreases x.len() - i,
{
    let ts = x + seq![sep] + y;
    if i < x.len() {
        assert(ts[i] == x[i]);
        lemma_chunk_end_front(x, sep, y, i + 1);
    } else {
        assert(ts[i] == sep);
    }
}

/// Behind a comma, a part begins at the earliest behind the comma.
pub proof fn lemma_chunk_start_back(x: Seq<Tagged>, sep: Tagged, y: Seq<Tagged>, j: int)
    requires
        sep.is_comma(),
        0 <= j <= y.len(),
    ensures
        chunk_start(x + seq![sep] + y, x.len() + 1 + j) == x.len() + 1 + chunk_start(y, j),
    decreases j,
{
    let ts = x + seq![sep] + y;
    if j > 0 {
        assert(ts[x.len() + 1 + j - 1] == y[j - 1]);
        lemma_chunk_start_back(x, sep, y, j - 1);
    } else {
        assert(ts[x.len() as int] == sep);
    }
}

/// Behind a comma, where a part ends does not depend on what stands in front
/// of the comma.
pub proof fn lemma_chunk_end_back(x: Seq<Tagged>, sep: Tagged, y: Seq<Tagged>, j: int)
    requires
        0 <= j <= y.len(),
    ensures
        chunk_end(x + seq![sep] + y, x.len() + 1 + j) == x.len() + 1 + chunk_end(y, j),
    decreases y.len() - j,
{
    let ts = x + seq![sep] + y;
    if j < y.len() {
        assert(ts[x.len() + 1 + j] == y[j]);
        lemma_chunk_end_back(x, sep, y, j + 1);
    }
}

/// A position lies within the part that holds it.
pub proof fn lemma_chunk_bounds_within(ts: Seq<Tagged>, i: int)
    requires
        0 <= i <= ts.len(),
    ensures
        0 <= chunk_start(ts, i) <= i <= chunk_end(ts, i) <= ts.len(),
{
    lemma_chunk_start_within(ts, i);
    lemma_chunk_end_within(ts, i);
}

proof fn lemma_chunk_start_within(ts: Seq<Tagged>, i: int)
    requires
        0 <= i <= ts.len(),
    ensures
        0 <= chunk_start(ts, i) <= i,
    decreases i,
{
    if i > 0 && !ts[i - 1].is_comma() {
        lemma_chunk_start_within(ts, i - 1);
    }
}

proof fn lemma_chunk_end_within(ts: Seq<Tagged>, i: int)
    requires
        0 <= i <= ts.len(),
    ensures
        i <= chunk_end(ts, i) <= ts.len(),
    decreases ts.len() - i,
{
    if i < ts.len() && !ts[i].is_comma() {
        lemma_chunk_end_within(ts, i + 1);
    }
}

/// The part around a position in front of a comma is the same with and
/// without what stands behind the comma.
pub proof fn lemma_chunk_at_front(x: Seq<Tagged>, sep: Tagged, y: Seq<Tagged>, i: int)
    requires
        sep.is_comma(),
        0 <= i <= x.len(),
    ensures
        chunk_start(x + seq![sep] + y, i) == chunk_start(x, i),
        chunk_end(x + seq![sep] + y, i) == chunk_end(x, i),
        chunk_at(x + seq![sep] + y, i) == chunk_at(x, i),
{
    lemma_chunk_start_front(x, sep, y, i);
    lemma_chunk_end_front(x, sep, y, i);
    lemma_chunk_bounds_within(x, i);
    assert(chunk_at(x + seq![sep] + y, i) =~= chunk_at(x, i));
}

/// The part around a position behind a comma is the same with and without
/// what stands in front of the comma.
pub proof fn lemma_chunk_at_back(x: Seq<Tagged>, sep: Tagged, y: Seq<Tagged>, j: int)
    requires
        sep.is_comma(),
        0 <= j <= y.len(),
    ensures
        chunk_start(x + seq![sep] + y, x.len() + 1 + j) == x.len() + 1 + chunk_start(y, j),
        chunk_end(x + seq![sep] + y, x.len() + 1 + j) == x.len() + 1 + chunk_end(y, j),
        chunk_at(x + seq![sep] + y, x.len() + 1 + j) == chunk_at(y, j),
{
    lemma_chunk_start_back(x, sep, y, j);
    lemma_chunk_end_back(x, sep, y, j);
    lemma_chunk_bounds_within(y, j);
    assert(chunk_at(x + seq![sep] + y, x.len() + 1 + j) =~= chunk_at(y, j));
}

/// The pass that takes back range symbols works on each side of a comma by
/// itself.
pub proof fn lemma_sanitize_ranges_concat(x: Seq<Tagged>, sep: Tagged, y: Seq<Tagged>)
    requires
        sep.is_comma(),
    ensures
        sanitize_ranges(x + seq![sep] + y) == sanitize_ranges(x) + seq![sep] + sanitize_ranges(y),
{
    let ts = x + seq![sep] + y;
    let wanted = sanitize_ranges(x) + seq![sep] + sanitize_ranges(y);
    assert forall|i: int| 0 <= i < ts.len() implies sanitize_ranges(ts)[i] == wanted[i] by {
        if i < x.len() {
            lemma_chunk_at_front(x, sep, y, i);
            assert(ts[i] == x[i]);
        } else if i == x.len() {
            assert(ts[i] == sep);
        } else {
            let j = i - x.len() - 1;
            lemma_chunk_at_back(x, sep, y, j);
            assert(ts[i] == y[j]);
        }
    }
    assert(sanitize_ranges(ts) =~= wanted);
}

/// The pass that brings range symbols to the front works on each side of a
/// comma by itself.
pub proof fn lemma_prefix_notation_concat(x: Seq<Tagged>, sep: Tagged, y: Seq<Tagged>)
    requires
        sep.is_comma(),
    ensures
        prefix_notation(x + seq![sep] + y) == prefix_notation(x) + seq![sep] + prefix_notation(y),
{
    let ts = x + seq![sep] + y;
    let wanted = prefix_notation(x) + seq![sep] + prefix_notation(y);
    assert forall|i: int| 0 <= i < ts.len() implies prefix_notation(ts)[i] == wanted[i] by {
        if i <= x.len() {
            lemma_chunk_at_front(x, sep, y, i);
            lemma_chunk_bounds_within(x, i);
            lemma_first_range(chunk_at(x, i));
            let start = chunk_start(x, i);
            let at = range_position(x, i);
            assert(range_position(ts, i) == at);
            if at < chunk_end(x, i) {
                assert(ts[at] == x[at]);
                assert(ts[start] == x[start]);
            }
            if i < x.len() {
                assert(ts[i] == x[i]);
            } else {
                assert(ts[i] == sep);
            }
        } else {
            let j = i - x.len() - 1;
            lemma_chunk_at_back(x, sep, y, j);
            lemma_chunk_bounds_within(y, j);
            lemma_first_range(chunk_at(y, j));
            let start = chunk_start(y, j);
            let at = range_position(y, j);
            assert(range_position(ts, i) == x.len() + 1 + at);
            if at < chunk_end(y, j) {
                assert(ts[x.len() + 1 + at] == y[at]);
                assert(ts[x.len() + 1 + start] == y[start]);
            }
            assert(ts[i] == y[j]);
        }
    }
    assert(prefix_notation(ts) =~= wanted);
}

/// Every position of a stream without commas lies in the part that is the
/// whole stream.
pub proof fn lemma_single_chunk(c: Seq<Tagged>, i: int)
    requires
        has_no_comma(c),
        0 <= i <= c.len(),
    ensures
        chunk_start(c, i) == 0,
        chunk_end(c, i) == c.len(),
        chunk_at(c, i) == c,
{
    assert(is_chunk(c, 0, c.len() as int));
    lemma_chunk_bounds(c, 0, c.len() as int, i);
    assert(c.subrange(0, c.len() as int) =~= c);
}

} // verus!
