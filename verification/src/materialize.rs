//! The last step of the parser: from the canonical token stream to
//! designators.
//!
//! The stream is read part by part, where commas separate the parts.  A part
//! that begins with an identifier stands for one designator.  A part that
//! begins with a range symbol holds the two ends of a range behind it, and
//! stands for all designators from the one to the other.

use crate::designator::{decode, Designator, DesignatorView};
use crate::passes::{chunk_end, find_comma};
use crate::text::{is_ascii_alphabetic, is_ascii_lowercase};
use crate::token::{Tagged, TokenWithSymbol};
use vstd::prelude::*;
use vstd::string::StringExecFns;

verus! {

/// The last designator of `done`, if there is one.
pub open spec fn last_of(done: Seq<DesignatorView>) -> Option<DesignatorView> {
    if done.len() > 0 {
        Some(done.last())
    } else {
        None
    }
}

/// The designator that the text `text` stands for, in parentheses if
/// `marked` says so.
pub open spec fn literal(text: Seq<char>, marked: bool) -> DesignatorView {
    if marked {
        decode(text).with_parentheses()
    } else {
        decode(text)
    }
}

/// The designator that the token `t` stands for behind the designator
/// `previous`: what its text stands for, in parentheses if the token is
/// marked so, with what it leaves out filled in from `previous`.
pub open spec fn operand(t: Tagged, previous: Option<DesignatorView>) -> DesignatorView {
    let own = literal(t.token.text(), t.is_parenthesized());
    match previous {
        Some(p) => own.complemented(p),
        None => own,
    }
}

/// Whether `left` lies before `right` in a range.
pub open spec fn is_before(left: DesignatorView, right: DesignatorView) -> bool {
    right.difference(left) matches Some(d) && d > 0
}

/// The designators of the range from `left` to `right`, where `left` lies
/// before `right`: `left`, the designators between the two, and `right`.  A
/// `left` that has no successor has nothing between itself and `right`.
pub open spec fn expansion(left: DesignatorView, right: DesignatorView) -> Seq<DesignatorView> {
    let between = if left.successor() is Some {
        Seq::new(
            (right.difference(left)->0 - 1) as nat,
            |j: int| left.advanced(j + 1),
        )
    } else {
        Seq::empty()
    };
    seq![left] + between + seq![right]
}

/// The texts of a part that was no range after all, on their way to
/// designators: those that are finished, and the text that is still growing
/// with its mark.
pub struct Literals {
    pub done: Seq<DesignatorView>,
    pub text: Seq<char>,
    pub marked: bool,
}

impl Literals {
    pub open spec fn start() -> Literals {
        Literals { done: Seq::empty(), text: Seq::empty(), marked: false }
    }

    /// Takes in one more text.  An empty text stands for whitespace: it
    /// finishes the text that was growing.  Any other text is added to it.
    pub open spec fn add(self, text: Seq<char>, marked: bool) -> Literals {
        if text.len() == 0 {
            Literals {
                done: self.done.push(literal(self.text, self.marked)),
                text: Seq::empty(),
                marked: false,
            }
        } else {
            Literals { done: self.done, text: self.text + text, marked: self.marked || marked }
        }
    }

    pub open spec fn finish(self) -> Seq<DesignatorView> {
        self.done.push(literal(self.text, self.marked))
    }
}

/// The range of a part, as its tokens give it.
pub struct RangeParts {
    /// The range symbol.
    pub symbol: Tagged,
    /// Whether whitespace stands between the range symbol and `left`.
    pub gap_left: bool,
    pub left: Tagged,
    /// Whether whitespace stands between `left` and `right`.
    pub gap_right: bool,
    pub right: Tagged,
}

/// The position of the left end of the range in a part that begins with a
/// range symbol.
pub open spec fn left_position(chunk: Seq<Tagged>) -> int {
    if chunk.len() > 1 && chunk[1].is_whitespace() {
        2
    } else {
        1
    }
}

/// The position of the right end of the range in a part that begins with a
/// range symbol.
pub open spec fn right_position(chunk: Seq<Tagged>) -> int {
    let after = left_position(chunk) + 1;
    if chunk.len() > after && chunk[after].is_whitespace() {
        after + 1
    } else {
        after
    }
}

/// The range of the part `chunk`, which begins with a range symbol, if both
/// of its ends are there.
pub open spec fn range_parts(chunk: Seq<Tagged>) -> Option<RangeParts> {
    if right_position(chunk) < chunk.len() {
        Some(
            RangeParts {
                symbol: chunk[0],
                gap_left: left_position(chunk) == 2,
                left: chunk[left_position(chunk)],
                gap_right: right_position(chunk) == left_position(chunk) + 2,
                right: chunk[right_position(chunk)],
            },
        )
    } else {
        None
    }
}

/// The designators of a part that was no range after all: the texts of its
/// tokens, one designator for each stretch that whitespace does not
/// interrupt.  A designator is in parentheses if one of the two ends in it is
/// marked so.
pub open spec fn literals(parts: RangeParts) -> Seq<DesignatorView> {
    let first = Literals::start().add(parts.left.token.text(), parts.left.is_parenthesized());
    let second = if parts.gap_left {
        first.add(Seq::empty(), false)
    } else {
        first
    };
    let third = second.add(parts.symbol.token.text(), false);
    let fourth = if parts.gap_right {
        third.add(Seq::empty(), false)
    } else {
        third
    };
    fourth.add(parts.right.token.text(), parts.right.is_parenthesized()).finish()
}

/// The designators of a range behind the designator `previous`.  Its left
/// end is read behind `previous`, its right end behind the left end.  Where
/// the left end lies before the right end the range is expanded; else its
/// texts are taken as they are.
pub open spec fn range_designators(parts: RangeParts, previous: Option<DesignatorView>) -> Seq<
    DesignatorView,
> {
    let left = operand(parts.left, previous);
    let right = operand(parts.right, Some(left));
    if is_before(left, right) {
        expansion(left, right)
    } else {
        literals(parts)
    }
}

/// The designators of the part `chunk`, which stands behind the designator
/// `previous`.  An empty part, a part that begins with neither an identifier
/// nor a range symbol, and a range symbol without both ends give nothing.
pub open spec fn chunk_designators(chunk: Seq<Tagged>, previous: Option<DesignatorView>) -> Seq<
    DesignatorView,
> {
    if chunk.len() == 0 {
        Seq::empty()
    } else if chunk[0].is_identifier() {
        seq![operand(chunk[0], previous)]
    } else if chunk[0].is_range() {
        match range_parts(chunk) {
            Some(parts) => range_designators(parts, previous),
            None => Seq::empty(),
        }
    } else {
        Seq::empty()
    }
}

/// The designators of the tokens `ts` behind the designators `done`, with
/// `done` in front of them.
pub open spec fn materialized_from(ts: Seq<Tagged>, done: Seq<DesignatorView>) -> Seq<
    DesignatorView,
>
    decreases ts.len(),
{
    let end = chunk_end(ts, 0);
    let out = done + chunk_designators(ts.take(end), last_of(done));
    if 0 <= end < ts.len() {
        materialized_from(ts.skip(end + 1), out)
    } else {
        out
    }
}

/// The designators that the canonical token stream `ts` stands for.
pub open spec fn materialized(ts: Seq<Tagged>) -> Seq<DesignatorView> {
    materialized_from(ts, Seq::empty())
}

/// The end of a part does not depend on where the counting begins.
pub proof fn lemma_chunk_end_skip(ts: Seq<Tagged>, start: int, i: int)
    requires
        0 <= start <= i <= ts.len(),
    ensures
        chunk_end(ts.skip(start), i - start) == chunk_end(ts, i) - start,
    decreases ts.len() - i,
{
    if i < ts.len() {
        assert(ts.skip(start)[i - start] == ts[i]);
        if !ts[i].is_comma() {
            lemma_chunk_end_skip(ts, start, i + 1);
        }
    }
}

/// The suffix of a designator that a text stands for is a letter.
pub proof fn lemma_decode_suffix(s: Seq<char>)
    ensures
        decode(s).in_range(),
        decode(s).suffix matches Some(c) ==> is_ascii_alphabetic(c),
{
}

/// The suffix of an end of a range is a letter wherever the designator in
/// front of it keeps the limits of the executable type.
pub proof fn lemma_operand_suffix(t: Tagged, previous: Option<DesignatorView>)
    requires
        previous matches Some(p) ==> p.in_range(),
    ensures
        operand(t, previous).in_range(),
        operand(t, previous).suffix matches Some(c) ==> is_ascii_alphabetic(c),
{
    lemma_decode_suffix(t.token.text());
}

/// On the way from `left` to a `right` whose suffix is a letter, every
/// designator lies as many steps before `right` as are left to go.
pub proof fn lemma_advanced_difference(left: DesignatorView, right: DesignatorView, j: int)
    requires
        left.in_range(),
        right.in_range(),
        right.suffix matches Some(c) ==> is_ascii_alphabetic(c),
        is_before(left, right),
        0 <= j <= right.difference(left)->0,
    ensures
        right.difference(left.advanced(j)) == Some(right.difference(left)->0 - j),
        left.advanced(j).in_range(),
        left.advanced(0) == left,
        j < right.difference(left)->0 ==> left.advanced(j).can_step(),
        left.successor() is Some ==> left.advanced(j).successor() == Some(left.advanced(j + 1)),
{
    match left.suffix {
        Some(c) => {
            let b = right.suffix->0;
            let moved = (c as int + j) as char;
            assert(moved as int == c as int + j);
            assert(is_ascii_lowercase(moved) == is_ascii_lowercase(b));
            assert(((moved as int + 1) as char) == ((c as int + (j + 1)) as char));
            assert(((c as int + 0) as char) == c);
        },
        None => {},
    }
}

/// The designator that `token` stands for behind `previous`.
fn decode_operand(token: &TokenWithSymbol, previous: Option<&Designator>) -> (d: Designator)
    ensures
        d@ == operand(
            token@,
            match previous {
                Some(p) => Some(p@),
                None => None,
            },
        ),
{
    let text = token.token().to_string();
    let mut d = Designator::from(text.as_str());
    if token.is_parenthesized() {
        d.parenthesize();
    }
    if let Some(p) = previous {
        d.complement(p);
    }
    d
}

/// Appends the designators of the range from `left` to `right`.
fn push_expansion(out: &mut Vec<Designator>, left: Designator, right: Designator)
    requires
        is_before(left@, right@),
        right@.suffix matches Some(c) ==> is_ascii_alphabetic(c),
    ensures
        final(out).deep_view() == old(out).deep_view() + expansion(left@, right@),
{
    let ghost before = out.deep_view();
    let ghost first = left@;
    let ghost last = right@;
    let ghost distance = last.difference(first)->0;
    proof {
        use_type_invariant(&left);
        use_type_invariant(&right);
        lemma_advanced_difference(first, last, 0);
    }
    out.push(left.clone());
    assert(out.deep_view() =~= before + seq![first]);
    let mut current = left;
    let mut steps: Ghost<int> = Ghost(0);
    let mut going = true;
    while going
        invariant
            first.in_range(),
            last == right@,
            last.in_range(),
            last.suffix matches Some(c) ==> is_ascii_alphabetic(c),
            is_before(first, last),
            distance == last.difference(first)->0,
            0 <= steps@ < distance,
            steps@ > 0 ==> first.successor() is Some,
            current@ == first.advanced(steps@),
            going ==> out.deep_view() == before + seq![first] + Seq::new(
                steps@ as nat,
                |j: int| first.advanced(j + 1),
            ),
            !going ==> out.deep_view() == before + expansion(first, last).drop_last(),
        decreases distance - steps@, if going { 1int } else { 0int },
    {
        let ghost so_far = out.deep_view();
        proof {
            lemma_advanced_difference(first, last, steps@);
            lemma_advanced_difference(first, last, steps@ + 1);
            if first.successor() is None {
                assert(steps@ == 0);
                assert(Seq::new(0nat, |j: int| first.advanced(j + 1)) =~= Seq::empty());
                assert(expansion(first, last).drop_last() =~= seq![first]);
                assert(before + seq![first] + Seq::<DesignatorView>::empty() =~= before
                    + seq![first]);
            }
        }
        match current.next() {
            None => {
                going = false;
            },
            Some(next) => {
                let further = match right.difference(&next) {
                    Some(d) => d > 0,
                    None => false,
                };
                if further {
                    out.push(next.clone());
                    current = next;
                    proof {
                        assert(first.advanced(0) == first);
                        assert(first.successor() is Some);
                        assert(current@ == first.advanced(steps@ + 1));
                        assert(out.deep_view() =~= so_far.push(first.advanced(steps@ + 1)));
                        assert(out.deep_view() =~= before + seq![first] + Seq::new(
                            (steps@ + 1) as nat,
                            |j: int| first.advanced(j + 1),
                        ));
                        steps@ = steps@ + 1;
                    }
                } else {
                    going = false;
                    proof {
                        assert(steps@ + 1 == distance);
                        assert(expansion(first, last).drop_last() =~= seq![first] + Seq::new(
                            steps@ as nat,
                            |j: int| first.advanced(j + 1),
                        ));
                        assert(before + (seq![first] + Seq::new(
                            steps@ as nat,
                            |j: int| first.advanced(j + 1),
                        )) =~= so_far);
                    }
                }
            },
        }
    }
    let ghost nearly = out.deep_view();
    out.push(right);
    assert(out.deep_view() =~= nearly.push(last));
    assert(expansion(first, last) =~= expansion(first, last).drop_last().push(last));
    assert(out.deep_view() =~= before + expansion(first, last));
}

/// What is on the way to designators while the texts of a part are read.
struct Pending {
    text: String,
    marked: bool,
}

/// Appends the designator that the text `text` stands for.
fn push_literal(out: &mut Vec<Designator>, text: &str, marked: bool)
    ensures
        final(out).deep_view() == old(out).deep_view().push(literal(text@, marked)),
{
    let ghost before = out.deep_view();
    let mut d = Designator::from(text);
    if marked {
        d.parenthesize();
    }
    out.push(d);
    assert(out.deep_view() =~= before.push(literal(text@, marked)));
}

/// Takes in one more text of a part that was no range after all.
fn add_text(
    out: &mut Vec<Designator>,
    pending: &mut Pending,
    text: &str,
    marked: bool,
    Ghost(base): Ghost<Seq<DesignatorView>>,
    Ghost(state): Ghost<Literals>,
)
    requires
        old(out).deep_view() == base + state.done,
        old(pending).text@ == state.text,
        old(pending).marked == state.marked,
    ensures
        final(out).deep_view() == base + state.add(text@, marked).done,
        final(pending).text@ == state.add(text@, marked).text,
        final(pending).marked == state.add(text@, marked).marked,
{
    if text.is_empty() {
        push_literal(out, pending.text.as_str(), pending.marked);
        pending.text = String::new();
        pending.marked = false;
        assert(out.deep_view() =~= base + state.add(text@, marked).done);
    } else {
        pending.text.append(text);
        pending.marked = pending.marked || marked;
    }
}

/// Appends the designators of a part that was no range after all.
fn push_literals(
    out: &mut Vec<Designator>,
    symbol: &TokenWithSymbol,
    gap_left: bool,
    left: &TokenWithSymbol,
    gap_right: bool,
    right: &TokenWithSymbol,
)
    ensures
        final(out).deep_view() == old(out).deep_view() + literals(
            RangeParts { symbol: symbol@, gap_left, left: left@, gap_right, right: right@ },
        ),
{
    let ghost base = out.deep_view();
    let ghost mut state = Literals::start();
    let mut pending = Pending { text: String::new(), marked: false };
    assert(out.deep_view() =~= base + state.done);
    let left_text = left.token().to_string();
    add_text(
        out,
        &mut pending,
        left_text.as_str(),
        left.is_parenthesized(),
        Ghost(base),
        Ghost(state),
    );
    proof {
        state = state.add(left@.token.text(), left@.is_parenthesized());
    }
    if gap_left {
        add_text(out, &mut pending, "", false, Ghost(base), Ghost(state));
        proof {
            reveal_strlit("");
            assert(""@ =~= Seq::<char>::empty());
            state = state.add(Seq::empty(), false);
        }
    }
    let symbol_text = symbol.token().to_string();
    add_text(out, &mut pending, symbol_text.as_str(), false, Ghost(base), Ghost(state));
    proof {
        state = state.add(symbol@.token.text(), false);
    }
    if gap_right {
        add_text(out, &mut pending, "", false, Ghost(base), Ghost(state));
        proof {
            reveal_strlit("");
            assert(""@ =~= Seq::<char>::empty());
            state = state.add(Seq::empty(), false);
        }
    }
    let right_text = right.token().to_string();
    add_text(
        out,
        &mut pending,
        right_text.as_str(),
        right.is_parenthesized(),
        Ghost(base),
        Ghost(state),
    );
    proof {
        state = state.add(right@.token.text(), right@.is_parenthesized());
    }
    push_literal(out, pending.text.as_str(), pending.marked);
    assert(out.deep_view() =~= base + state.finish());
}

/// Appends the designators of the part `tokens[start..end]`.
fn push_chunk(out: &mut Vec<Designator>, tokens: &Vec<TokenWithSymbol>, start: usize, end: usize)
    requires
        start <= end <= tokens.len(),
    ensures
        final(out).deep_view() == old(out).deep_view() + chunk_designators(
            tokens.deep_view().subrange(start as int, end as int),
            last_of(old(out).deep_view()),
        ),
{
    let ghost before = out.deep_view();
    let ghost chunk = tokens.deep_view().subrange(start as int, end as int);
    let ghost previous = last_of(before);
    assert(before + Seq::<DesignatorView>::empty() =~= before);
    if start == end {
        return ;
    }
    assert(chunk[0] == tokens.deep_view()[start as int]);
    let known = out.len();
    if tokens[start].is_identifier() {
        let d = if known > 0 {
            decode_operand(&tokens[start], Some(&out[known - 1]))
        } else {
            decode_operand(&tokens[start], None)
        };
        out.push(d);
        assert(out.deep_view() =~= before + seq![operand(chunk[0], previous)]);
    } else if tokens[start].is_range() {
        let gap_left = end - start > 1 && tokens[start + 1].is_whitespace();
        let left_at = if gap_left { start + 2 } else { start + 1 };
        assert(end - start > 1 ==> chunk[1] == tokens.deep_view()[start + 1]);
        assert(left_at - start == left_position(chunk));
        if left_at >= end {
            return ;
        }
        let gap_right = end - left_at > 1 && tokens[left_at + 1].is_whitespace();
        let right_at = if gap_right { left_at + 2 } else { left_at + 1 };
        assert(end - left_at > 1 ==> chunk[left_at + 1 - start] == tokens.deep_view()[left_at
            + 1]);
        assert(right_at - start == right_position(chunk));
        if right_at >= end {
            return ;
        }
        assert(chunk[left_at - start] == tokens.deep_view()[left_at as int]);
        assert(chunk[right_at - start] == tokens.deep_view()[right_at as int]);
        let ghost parts = range_parts(chunk)->0;
        let left = if known > 0 {
            let before_left = &out[known - 1];
            proof {
                use_type_invariant(before_left);
            }
            decode_operand(&tokens[left_at], Some(before_left))
        } else {
            decode_operand(&tokens[left_at], None)
        };
        proof {
            lemma_operand_suffix(parts.left, previous);
        }
        let right = decode_operand(&tokens[right_at], Some(&left));
        proof {
            lemma_operand_suffix(parts.right, Some(left@));
        }
        let expands = match right.difference(&left) {
            Some(d) => d > 0,
            None => false,
        };
        if expands {
            push_expansion(out, left, right);
        } else {
            push_literals(
                out,
                &tokens[start],
                gap_left,
                &tokens[left_at],
                gap_right,
                &tokens[right_at],
            );
        }
    }
}

/// The designators that the canonical token stream `tokens` stands for.
pub fn convert_to_designators(tokens: Vec<TokenWithSymbol>) -> (designators: Vec<Designator>)
    ensures
        designators.deep_view() == materialized(tokens.deep_view()),
{
    let ghost given = tokens.deep_view();
    let n = tokens.len();
    let mut out: Vec<Designator> = Vec::new();
    let mut start: usize = 0;
    let mut finished = false;
    proof {
        assert(given.skip(0) == given);
        assert(out.deep_view() =~= Seq::<DesignatorView>::empty());
    }
    while !finished
        invariant
            start <= n,
            n == tokens.len(),
            given == tokens.deep_view(),
            !finished ==> materialized_from(given.skip(start as int), out.deep_view())
                == materialized(given),
            finished ==> out.deep_view() == materialized(given),
        decreases n - start + if finished { 0int } else { 1int },
    {
        let ghost rest = given.skip(start as int);
        let ghost done = out.deep_view();
        let end = find_comma(&tokens, start);
        proof {
            lemma_chunk_end_skip(given, start as int, start as int);
            assert(rest.take(end - start) == given.subrange(start as int, end as int));
            if end < n {
                assert(rest.skip(end - start + 1) == given.skip(end + 1));
            }
        }
        push_chunk(&mut out, &tokens, start, end);
        if end == n {
            finished = true;
            start = n;
        } else {
            start = end + 1;
        }
    }
    out
}

} // verus!
