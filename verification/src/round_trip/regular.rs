//! Regular designators: those that the compact text can carry.
//!
//! A regular designator has either a prefix of plain characters and a number
//! with, perhaps, a letter behind it, or it is a word: a text that is read as
//! a word and is no single letter.  This file holds what the text of such a
//! designator is read as.

use crate::designator::{
    decode, is_wrapped, lemma_complement_of_complete, lemma_digit_run_is, lemma_digit_start_is,
    number_text, suffix_text, unwrapped, DesignatorView,
};
use crate::lexer::char_token;
use crate::materialize::{is_before, literal};
use crate::text::{
    digits_value, is_ascii_alphabetic, is_ascii_digit, is_ascii_lowercase, lemma_decimal_digits,
    lemma_digits_value_decimal,
};
use vstd::prelude::*;

verus! {

/// Whether `c` can stand in a prefix: it is no digit and no token by itself.
pub open spec fn is_plain(c: char) -> bool {
    char_token(c) is None && !is_ascii_digit(c)
}

/// Whether every character of `s` can stand in a prefix.
pub open spec fn is_plain_text(s: Seq<char>) -> bool {
    forall|i: int| 0 <= i < s.len() ==> is_plain(#[trigger] s[i])
}

/// Whether no character of `s` is a token by itself.
pub open spec fn is_solid_text(s: Seq<char>) -> bool {
    forall|i: int| 0 <= i < s.len() ==> char_token(#[trigger] s[i]) is None
}

/// Whether `d` is regular.  Parentheses play no part.
#[verifier::opaque]
pub open spec fn is_regular(d: DesignatorView) -> bool {
    &&& d.prefix.len() > 0
    &&& d.number <= isize::MAX
    &&& d.suffix matches Some(c) ==> is_ascii_alphabetic(c) && d.number > 0
    &&& if d.number == 0 {
        is_regular_word(d.prefix)
    } else {
        is_plain_text(d.prefix)
    }
}

/// Whether the text `s` is a word that the compact text can carry: no
/// character of it is a token by itself, it is read as a word, and it is no
/// single letter.
pub open spec fn is_regular_word(s: Seq<char>) -> bool {
    &&& is_solid_text(s)
    &&& decode(s) == DesignatorView::word(s, false)
    &&& !(s.len() == 1 && is_ascii_alphabetic(s[0]))
}

/// The designator `d` in parentheses if `marked` says so, else without.
pub open spec fn flagged(d: DesignatorView, marked: bool) -> DesignatorView {
    DesignatorView { parenthesized: marked, ..d }
}

/// The text of a prefix, a number and a suffix is read as what it was made
/// from, and no character of it is a token by itself.
pub proof fn lemma_decode_parts(prefix: Seq<char>, number: nat, suffix: Option<char>)
    requires
        is_plain_text(prefix),
        prefix.len() > 0 || number > 0,
        number <= isize::MAX,
        suffix matches Some(c) ==> is_ascii_alphabetic(c) && number > 0,
    ensures
        decode(prefix + number_text(number) + suffix_text(suffix)) == (DesignatorView {
            prefix,
            number,
            suffix,
            parenthesized: false,
        }),
        (prefix + number_text(number) + suffix_text(suffix)).len() > 0,
        is_solid_text(prefix + number_text(number) + suffix_text(suffix)),
{
    let digits = number_text(number);
    let tail = suffix_text(suffix);
    let body = prefix + digits + tail;
    let start = prefix.len() as int;
    let end = start + digits.len();
    if number > 0 {
        lemma_decimal_digits(number);
        lemma_digits_value_decimal(number);
    }
    assert forall|i: int| 0 <= i < body.len() implies char_token(#[trigger] body[i]) is None by {
        if i < start {
            assert(is_plain(prefix[i]));
        } else if i < end {
            assert(is_ascii_digit(digits[i - start]));
        }
    }
    assert(!is_wrapped(body)) by {
        if prefix.len() > 0 {
            assert(is_plain(prefix[0]));
        } else {
            assert(is_ascii_digit(digits[0]));
        }
    }
    assert(unwrapped(body) == body);
    assert forall|i: int| 0 <= i < start implies !is_ascii_digit(#[trigger] body[i]) by {
        assert(is_plain(prefix[i]));
    }
    if number > 0 {
        assert(body[start] == digits[0]);
    }
    lemma_digit_start_is(body, start);
    if number == 0 {
        assert(body =~= prefix);
    } else {
        let rest = body.skip(start);
        assert(rest =~= digits + tail);
        assert forall|i: int| 0 <= i < digits.len() implies is_ascii_digit(#[trigger] rest[i]) by {
            assert(rest[i] == digits[i]);
        }
        lemma_digit_run_is(rest, digits.len() as int);
        assert(body.subrange(start, end) =~= digits);
        assert(body.take(start) =~= prefix);
        assert(digits_value(digits) == number);
    }
}

/// The text of a regular designator without parentheses is read as that
/// designator.
pub proof fn lemma_decode_body_text(d: DesignatorView)
    requires
        is_regular(d),
        !d.parenthesized,
    ensures
        decode(d.body_text()) == d,
        d.body_text().len() > 0,
        is_solid_text(d.body_text()),
        d.text() == d.body_text(),
{
    reveal(is_regular);
    if d.number == 0 {
        assert(d.body_text() =~= d.prefix);
    } else {
        lemma_decode_parts(d.prefix, d.number, d.suffix);
    }
}

/// The text of a regular designator as it stands behind `previous` is read,
/// behind `previous`, as that designator.  `marked` says whether the two are
/// in parentheses, which the text never shows.
pub proof fn lemma_read_behind(d: DesignatorView, previous: DesignatorView, marked: bool)
    requires
        is_regular(d),
        is_regular(previous),
        !d.parenthesized,
        !previous.parenthesized,
        d.is_word() != previous.is_word() ==> d.prefix != previous.prefix,
    ensures
        literal(d.omitted_text(previous), marked).complemented(flagged(previous, marked))
            == flagged(d, marked),
        d.omitted_text(previous).len() > 0,
        is_solid_text(d.omitted_text(previous)),
{
    reveal(is_regular);
    let text = d.omitted_text(previous);
    if d.is_word() || previous.is_word() || d.prefix != previous.prefix {
        lemma_decode_body_text(d);
        assert(text == d.body_text());
        lemma_complement_of_complete(flagged(d, marked), flagged(previous, marked));
    } else {
        lemma_decode_parts(Seq::empty(), d.number, d.suffix);
        assert(Seq::<char>::empty() + number_text(d.number) + suffix_text(d.suffix) =~= text);
        let own = literal(text, marked);
        assert(own.prefix.len() == 0);
        assert(own.complemented(flagged(previous, marked)).prefix =~= d.prefix);
    }
}

/// The text of a regular designator in full is read as that designator
/// behind any designator.
pub proof fn lemma_read_first(d: DesignatorView, previous: Option<DesignatorView>, marked: bool)
    requires
        is_regular(d),
        !d.parenthesized,
    ensures
        (match previous {
            Some(p) => literal(d.text(), marked).complemented(p),
            None => literal(d.text(), marked),
        }) == flagged(d, marked),
        d.text().len() > 0,
        is_solid_text(d.text()),
{
    reveal(is_regular);
    lemma_decode_body_text(d);
    if let Some(p) = previous {
        lemma_complement_of_complete(flagged(d, marked), p);
    }
}

/// A designator that lies one step behind a regular designator is that
/// designator one step further.
pub proof fn lemma_one_step(d: DesignatorView, previous: DesignatorView)
    requires
        is_regular(d),
        is_regular(previous),
        d.parenthesized == previous.parenthesized,
        d.difference(previous) == Some(1int),
    ensures
        d == previous.advanced(1),
{
    reveal(is_regular);
    match (d.suffix, previous.suffix) {
        (Some(mine), Some(theirs)) => {
            assert(mine as int == theirs as int + 1);
            assert(((theirs as int + 1) as char) == mine);
        },
        _ => {},
    }
}

/// Going on by `a` steps and then by `b` steps is going on by `a + b` steps,
/// as long as the way stays among the letters and the characters next to
/// them.
pub proof fn lemma_advanced_twice(d: DesignatorView, a: int, b: int)
    requires
        0 <= a,
        0 <= b,
        d.suffix matches Some(c) ==> 0 <= c as int && c as int + a + b <= 0xff,
    ensures
        d.advanced(a).advanced(b) == d.advanced(a + b),
{
    match d.suffix {
        Some(c) => {
            let moved = (c as int + a) as char;
            assert(moved as int == c as int + a);
        },
        None => {},
    }
}

/// A regular designator lies before the one that is `k` steps further by `k`
/// steps.
pub proof fn lemma_difference_of_advanced(d: DesignatorView, k: int)
    requires
        is_regular(d),
        0 < k,
        is_regular(d.advanced(k)),
        d.suffix matches Some(c) ==> is_ascii_lowercase(c) == is_ascii_lowercase(
            d.advanced(k).suffix->0,
        ),
        d.suffix matches Some(c) ==> c as int + k <= 0xff,
    ensures
        d.advanced(k).difference(d) == Some(k),
        is_before(d, d.advanced(k)),
{
    reveal(is_regular);
    match d.suffix {
        Some(c) => {
            let moved = (c as int + k) as char;
            assert(moved as int == c as int + k);
        },
        None => {},
    }
}

/// The text of a regular designator as it stands within a run is read as
/// that designator behind the first designator of the run too: the two
/// designators in front have the same prefix.
pub proof fn lemma_read_in_run(
    d: DesignatorView,
    previous: DesignatorView,
    left: DesignatorView,
    marked: bool,
)
    requires
        is_regular(d),
        is_regular(previous),
        is_regular(left),
        !d.parenthesized,
        !d.is_word(),
        !previous.is_word(),
        !left.is_word(),
        d.prefix == previous.prefix,
        d.prefix == left.prefix,
    ensures
        literal(d.omitted_text(previous), marked).complemented(flagged(left, marked)) == flagged(
            d,
            marked,
        ),
{
    reveal(is_regular);
    let text = d.omitted_text(previous);
    lemma_decode_parts(Seq::empty(), d.number, d.suffix);
    assert(Seq::<char>::empty() + number_text(d.number) + suffix_text(d.suffix) =~= text);
    let own = literal(text, marked);
    assert(own.prefix.len() == 0);
    assert(own.complemented(flagged(left, marked)).prefix =~= d.prefix);
}

} // verus!
