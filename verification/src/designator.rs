//! Reference designators: a prefix, a number and a one-letter suffix, each of
//! which may be missing, and a flag for designators written in parentheses.

use crate::text::{
    all_digits, char_code, char_is_ascii_alphabetic, char_is_ascii_digit, char_is_ascii_lowercase,
    chars_precede, copy_chars, decimal, digits_value, is_ascii_alphabetic, is_ascii_digit,
    is_ascii_lowercase, lemma_text_order_total, lemma_text_order_transitive, push_chars,
    push_decimal, same_chars, text_precedes, to_chars,
};
use crate::token::{CLOSE_PAREN, OPEN_PAREN};
use vstd::prelude::*;
use vstd::relations::total_ordering;
use vstd::std_specs::convert::FromSpecImpl;

verus! {

/// The mathematical value of a [`Designator`].
pub struct DesignatorView {
    pub prefix: Seq<char>,
    /// Zero stands for "no number".
    pub number: nat,
    pub suffix: Option<char>,
    pub parenthesized: bool,
}

/// The text of an optional number: nothing for zero.
pub open spec fn number_text(number: nat) -> Seq<char> {
    if number > 0 {
        decimal(number)
    } else {
        Seq::empty()
    }
}

/// The text of an optional suffix.
pub open spec fn suffix_text(suffix: Option<char>) -> Seq<char> {
    match suffix {
        Some(c) => seq![c],
        None => Seq::empty(),
    }
}

/// The character that follows `c` by code.
pub open spec fn next_char(c: char) -> char {
    (c as int + 1) as char
}

impl DesignatorView {
    /// The designator that stands for nothing.
    pub open spec fn empty(parenthesized: bool) -> DesignatorView {
        DesignatorView { prefix: Seq::empty(), number: 0, suffix: None, parenthesized }
    }

    /// The designator that is the opaque text `text`.
    pub open spec fn word(text: Seq<char>, parenthesized: bool) -> DesignatorView {
        DesignatorView { prefix: text, number: 0, suffix: None, parenthesized }
    }

    pub open spec fn is_empty(self) -> bool {
        self.prefix.len() == 0 && self.number == 0 && self.suffix is None
    }

    pub open spec fn is_word(self) -> bool {
        self.prefix.len() > 0 && self.number == 0 && self.suffix is None
    }

    /// The limits that the executable type keeps: the number fits a signed
    /// machine word and the suffix fits a byte.
    pub open spec fn in_range(self) -> bool {
        &&& self.number <= isize::MAX
        &&& self.suffix matches Some(c) ==> '\u{0}' <= c && c <= '\u{ff}'
    }

    pub open spec fn without_parentheses(self) -> DesignatorView {
        DesignatorView { parenthesized: false, ..self }
    }

    pub open spec fn with_parentheses(self) -> DesignatorView {
        DesignatorView { parenthesized: true, ..self }
    }

    /// The text between the parentheses, if there are any.
    pub open spec fn body_text(self) -> Seq<char> {
        self.prefix + number_text(self.number) + suffix_text(self.suffix)
    }

    /// The full text of the designator.
    pub open spec fn text(self) -> Seq<char> {
        if self.parenthesized {
            seq![OPEN_PAREN] + self.body_text() + seq![CLOSE_PAREN]
        } else {
            self.body_text()
        }
    }

    /// The text of the designator where it follows `other` in a list: the
    /// prefix is left out where `other` has the same.  A designator that is
    /// empty or a word, or follows one, is written in full.
    pub open spec fn omitted_text(self, other: DesignatorView) -> Seq<char> {
        if self.is_empty() || other.is_empty() || self.is_word() || other.is_word() {
            self.text()
        } else if self.prefix == other.prefix {
            number_text(self.number) + suffix_text(self.suffix)
        } else {
            self.body_text()
        }
    }

    /// How many steps `self` lies behind `other` in a range, where the two
    /// can stand in one range at all: they have the same prefix and either
    /// both have no suffix, or they have the same number and suffixes of the
    /// same letter case.  Parentheses play no part.
    pub open spec fn difference(self, other: DesignatorView) -> Option<int> {
        if self.prefix != other.prefix {
            None
        } else {
            match (self.suffix, other.suffix) {
                (Some(mine), Some(theirs)) => {
                    if self.number != other.number || is_ascii_lowercase(mine)
                        != is_ascii_lowercase(theirs) {
                        None
                    } else {
                        Some(mine as int - theirs as int)
                    }
                },
                (None, None) => Some(self.number - other.number),
                _ => None,
            }
        }
    }

    /// Whether the designator has a successor that the executable type can
    /// hold.
    pub open spec fn can_step(self) -> bool {
        match self.suffix {
            Some(c) => c < '\u{ff}',
            None => self.number < isize::MAX,
        }
    }

    /// The designator one step further: the suffix moves on by one character
    /// where there is one, else the number grows by one.  A designator that
    /// is empty or a word has no successor.
    pub open spec fn successor(self) -> Option<DesignatorView> {
        if self.is_empty() || self.is_word() {
            None
        } else {
            match self.suffix {
                Some(c) => Some(DesignatorView { suffix: Some(next_char(c)), ..self }),
                None => Some(DesignatorView { number: self.number + 1, ..self }),
            }
        }
    }

    /// The designator `steps` steps further.
    pub open spec fn advanced(self, steps: int) -> DesignatorView {
        match self.suffix {
            Some(c) => DesignatorView { suffix: Some((c as int + steps) as char), ..self },
            None => DesignatorView { number: (self.number + steps) as nat, ..self },
        }
    }

    /// Whether `self` is a single letter that is read as a suffix where it
    /// follows `other`.
    pub open spec fn takes_suffix_from(self, other: DesignatorView) -> bool {
        &&& other.suffix is Some
        &&& self.is_word()
        &&& self.prefix.len() == 1
        &&& is_ascii_alphabetic(self.prefix[0])
    }

    /// The designator with what it leaves out filled in from `other`, the
    /// designator in front of it.
    ///
    /// Nothing is filled in where `self` or `other` is empty or `other` is a
    /// word.  Where `other` has a suffix, a single letter is read as a
    /// suffix, and a suffix without a number gets the number of `other`.  A
    /// missing prefix is that of `other`.
    pub open spec fn complemented(self, other: DesignatorView) -> DesignatorView {
        if self.is_empty() || other.is_empty() || other.is_word() {
            self
        } else {
            let first = if self.takes_suffix_from(other) {
                DesignatorView { prefix: Seq::empty(), suffix: Some(self.prefix[0]), ..self }
            } else {
                self
            };
            let second = if other.suffix is Some && first.suffix is Some && first.number == 0 {
                DesignatorView { number: other.number, ..first }
            } else {
                first
            };
            if second.prefix.len() == 0 {
                DesignatorView { prefix: other.prefix, ..second }
            } else {
                second
            }
        }
    }
}

/// Whether the suffix `a` comes before the suffix `b`: no suffix comes before
/// any suffix, and suffixes go by their characters.
pub open spec fn suffix_precedes(a: Option<char>, b: Option<char>) -> bool {
    match (a, b) {
        (None, Some(_)) => true,
        (Some(x), Some(y)) => x < y,
        _ => false,
    }
}

impl DesignatorView {
    /// The order of designators: those without parentheses first, then by
    /// prefix, by number and by suffix.
    pub open spec fn precedes(self, other: DesignatorView) -> bool {
        if self.parenthesized != other.parenthesized {
            !self.parenthesized
        } else if self.prefix != other.prefix {
            text_precedes(self.prefix, other.prefix)
        } else if self.number != other.number {
            self.number < other.number
        } else {
            suffix_precedes(self.suffix, other.suffix)
        }
    }

    /// Whether `self` is `other` or comes before it.
    pub open spec fn at_most(self, other: DesignatorView) -> bool {
        self == other || self.precedes(other)
    }
}

/// The order of designators as a relation.
pub open spec fn designator_order() -> spec_fn(DesignatorView, DesignatorView) -> bool {
    |a: DesignatorView, b: DesignatorView| a.at_most(b)
}

/// Of two designators that differ, exactly one comes before the other.
pub proof fn lemma_order_total(a: DesignatorView, b: DesignatorView)
    ensures
        a != b ==> (a.precedes(b) <==> !b.precedes(a)),
        a == b ==> !a.precedes(b),
{
    lemma_text_order_total(a.prefix, b.prefix);
    if a.parenthesized == b.parenthesized && a.prefix == b.prefix && a.number == b.number
        && a.suffix == b.suffix {
        assert(a == b);
    }
}

/// The order of designators is transitive.
pub proof fn lemma_order_transitive(a: DesignatorView, b: DesignatorView, c: DesignatorView)
    requires
        a.precedes(b),
        b.precedes(c),
    ensures
        a.precedes(c),
{
    lemma_text_order_total(a.prefix, b.prefix);
    lemma_text_order_total(b.prefix, c.prefix);
    lemma_text_order_total(a.prefix, c.prefix);
    if a.parenthesized == b.parenthesized && b.parenthesized == c.parenthesized {
        if a.prefix != b.prefix && b.prefix != c.prefix {
            lemma_text_order_transitive(a.prefix, b.prefix, c.prefix);
        }
    }
}

/// The order of designators is a total order.
pub proof fn lemma_designator_order()
    ensures
        total_ordering(designator_order()),
{
    let r = designator_order();
    assert forall|x: DesignatorView, y: DesignatorView| #[trigger] r(x, y) && #[trigger] r(y, x)
        implies x == y by {
        lemma_order_total(x, y);
    }
    assert forall|x: DesignatorView, y: DesignatorView, z: DesignatorView| #[trigger]
        r(x, y) && #[trigger] r(y, z) implies r(x, z) by {
        if x != y && y != z {
            lemma_order_transitive(x, y, z);
        }
    }
    assert forall|x: DesignatorView, y: DesignatorView| #[trigger] r(x, y) || #[trigger] r(
        y,
        x,
    ) by {
        lemma_order_total(x, y);
    }
}

/// Filling in from the same designator a second time changes nothing.
pub proof fn lemma_complement_idempotent(d: DesignatorView, other: DesignatorView)
    ensures
        d.complemented(other).complemented(other) == d.complemented(other),
{
    let once = d.complemented(other);
    if !(d.is_empty() || other.is_empty() || other.is_word()) {
        if d.takes_suffix_from(other) {
            assert(once.suffix == Some(d.prefix[0]));
            assert(!once.is_empty() && !once.is_word());
        } else {
            if once.is_word() {
                assert(once.prefix == d.prefix);
            }
            assert(!once.takes_suffix_from(other));
        }
        assert(once.complemented(other).prefix =~= once.prefix);
    }
}

/// A designator that has a prefix, and a number wherever it has a suffix, is
/// left as it is, unless it is a single letter that is read as a suffix.
pub proof fn lemma_complement_of_complete(d: DesignatorView, other: DesignatorView)
    requires
        d.prefix.len() > 0,
        d.suffix is Some ==> d.number != 0,
        !d.takes_suffix_from(other),
    ensures
        d.complemented(other) == d,
{
}

/// Whether `s` is written in a pair of parentheses.
pub open spec fn is_wrapped(s: Seq<char>) -> bool {
    s.len() >= 2 && s.first() == OPEN_PAREN && s.last() == CLOSE_PAREN
}

/// `s` without the pair of parentheses around it, if there is one.
pub open spec fn unwrapped(s: Seq<char>) -> Seq<char> {
    if is_wrapped(s) {
        s.subrange(1, s.len() - 1)
    } else {
        s
    }
}

/// The number of characters in front of the first digit of `s`.
pub open spec fn digit_start(s: Seq<char>) -> nat
    decreases s.len(),
{
    if s.len() > 0 && !is_ascii_digit(s[0]) {
        1 + digit_start(s.drop_first())
    } else {
        0
    }
}

/// The number of digits at the start of `s`.
pub open spec fn digit_run(s: Seq<char>) -> nat
    decreases s.len(),
{
    if s.len() > 0 && is_ascii_digit(s[0]) {
        1 + digit_run(s.drop_first())
    } else {
        0
    }
}

/// The designator that the text `body`, which is not in parentheses any
/// more, stands for.
///
/// A text without a digit is a word.  Otherwise the first run of digits is
/// the number; at most one character may follow it, a letter, which is the
/// suffix.  A text with more behind the number, or with a number that does
/// not fit a signed machine word, is a word as a whole.
pub open spec fn decode_body(body: Seq<char>, parenthesized: bool) -> DesignatorView {
    let start = digit_start(body) as int;
    let end = start + digit_run(body.skip(start));
    let number = digits_value(body.subrange(start, end));
    if body.len() == 0 {
        DesignatorView::empty(parenthesized)
    } else if start == body.len() {
        DesignatorView::word(body, parenthesized)
    } else if end + 1 < body.len() {
        DesignatorView::word(body, parenthesized)
    } else if end < body.len() && !is_ascii_alphabetic(body[end]) {
        DesignatorView::word(body, parenthesized)
    } else if number > isize::MAX {
        DesignatorView::word(body, parenthesized)
    } else {
        DesignatorView {
            prefix: body.take(start),
            number,
            suffix: if end < body.len() {
                Some(body[end])
            } else {
                None
            },
            parenthesized,
        }
    }
}

/// The designator that the text `s` stands for.
pub open spec fn decode(s: Seq<char>) -> DesignatorView {
    decode_body(unwrapped(s), is_wrapped(s))
}

/// A run of `k` characters that are no digits, followed by a digit or by the
/// end of the text, is what stands in front of the first digit of `s`.
pub proof fn lemma_digit_start_is(s: Seq<char>, k: int)
    requires
        0 <= k <= s.len(),
        forall|i: int| 0 <= i < k ==> !is_ascii_digit(#[trigger] s[i]),
        k < s.len() ==> is_ascii_digit(s[k]),
    ensures
        digit_start(s) == k,
    decreases k,
{
    if k > 0 {
        let rest = s.drop_first();
        assert forall|i: int| 0 <= i < k - 1 implies !is_ascii_digit(#[trigger] rest[i]) by {
            assert(rest[i] == s[i + 1]);
        }
        lemma_digit_start_is(rest, k - 1);
    }
}

/// The digits at the start of `s` are digits, and what follows them is
/// none.
pub proof fn lemma_digit_run(s: Seq<char>)
    ensures
        digit_run(s) <= s.len(),
        forall|i: int| 0 <= i < digit_run(s) ==> is_ascii_digit(#[trigger] s[i]),
        digit_run(s) < s.len() ==> !is_ascii_digit(s[digit_run(s) as int]),
    decreases s.len(),
{
    if s.len() > 0 && is_ascii_digit(s[0]) {
        let rest = s.drop_first();
        lemma_digit_run(rest);
        assert forall|i: int| 0 <= i < digit_run(s) implies is_ascii_digit(#[trigger] s[i]) by {
            if i > 0 {
                assert(s[i] == rest[i - 1]);
            }
        }
        if digit_run(s) < s.len() {
            assert(s[digit_run(s) as int] == rest[digit_run(rest) as int]);
        }
    }
}

/// A run of `k` digits, followed by a character that is none or by the end
/// of the text, is the run of digits at the start of `s`.
pub proof fn lemma_digit_run_is(s: Seq<char>, k: int)
    requires
        0 <= k <= s.len(),
        forall|i: int| 0 <= i < k ==> is_ascii_digit(#[trigger] s[i]),
        k < s.len() ==> !is_ascii_digit(s[k]),
    ensures
        digit_run(s) == k,
    decreases k,
{
    if k > 0 {
        let rest = s.drop_first();
        assert forall|i: int| 0 <= i < k - 1 implies is_ascii_digit(#[trigger] rest[i]) by {
            assert(rest[i] == s[i + 1]);
        }
        lemma_digit_run_is(rest, k - 1);
    }
}

/// A run of digits denotes at least what any of its beginnings denotes.
pub proof fn lemma_digits_value_grows(s: Seq<char>, k: int)
    requires
        0 <= k <= s.len(),
    ensures
        digits_value(s.take(k)) <= digits_value(s),
    decreases s.len(),
{
    if k == s.len() {
        assert(s.take(k) == s);
    } else {
        lemma_digits_value_grows(s.drop_last(), k);
        assert(s.drop_last().take(k) == s.take(k));
    }
}

/// The number that the digits `chars[from..to]` denote, unless it is too
/// large.
fn parse_number(chars: &Vec<char>, from: usize, to: usize) -> (r: Option<usize>)
    requires
        from <= to <= chars@.len(),
        all_digits(chars@.subrange(from as int, to as int)),
    ensures
        r == if digits_value(chars@.subrange(from as int, to as int)) <= isize::MAX {
            Some(digits_value(chars@.subrange(from as int, to as int)) as usize)
        } else {
            None
        },
{
    let ghost digits = chars@.subrange(from as int, to as int);
    let limit: usize = isize::MAX as usize;
    let mut value: usize = 0;
    let mut i: usize = from;
    while i < to
        invariant
            from <= i <= to <= chars@.len(),
            digits == chars@.subrange(from as int, to as int),
            all_digits(digits),
            value == digits_value(digits.take(i - from)),
            value <= limit,
            limit == isize::MAX,
        decreases to - i,
    {
        let c = chars[i];
        assert(c == digits[i - from]);
        let d: usize = (char_code(c) - 48) as usize;
        proof {
            let longer = digits.take(i + 1 - from);
            assert(longer.drop_last() == digits.take(i - from));
            assert(longer.last() == c);
            assert(digits_value(longer) == value * 10 + d);
            lemma_digits_value_grows(digits, i + 1 - from);
        }
        if value > (limit - d) / 10 {
            return None;
        }
        value = value * 10 + d;
        i += 1;
    }
    assert(digits.take(to - from) == digits);
    Some(value)
}

/// A reference designator.
///
/// The fields stand in the order in which designators are compared, so that
/// the derived `Ord` agrees with [`DesignatorView::precedes`].
#[derive(Debug, Ord)]
pub struct Designator {
    has_paren: bool,
    prefix: Vec<char>,
    number: usize,
    suffix: Option<char>,
}

impl View for Designator {
    type V = DesignatorView;

    closed spec fn view(&self) -> DesignatorView {
        DesignatorView {
            prefix: self.prefix@,
            number: self.number as nat,
            suffix: self.suffix,
            parenthesized: self.has_paren,
        }
    }
}

impl DeepView for Designator {
    type V = DesignatorView;

    open spec fn deep_view(&self) -> DesignatorView {
        self@
    }
}

impl From<&str> for Designator {
    /// The designator that the text `s` stands for.
    fn from(s: &str) -> (r: Self)
        ensures
            r@ == decode(s@),
            r@.in_range(),
    {
        let chars = to_chars(s);
        let n = chars.len();
        if n >= 2 && chars[0] == OPEN_PAREN && chars[n - 1] == CLOSE_PAREN {
            Self::from_chars(&chars, 1, n - 1, true)
        } else {
            assert(chars@.subrange(0, n as int) == chars@);
            Self::from_chars(&chars, 0, n, false)
        }
    }
}

/// Contracts speak of the value of a designator, not of the designator
/// itself: what `from` gives is said where `from` is declared, and nothing
/// is said by way of `from_spec`.
impl FromSpecImpl<&str> for Designator {
    open spec fn obeys_from_spec() -> bool {
        false
    }

    open spec fn from_spec(s: &str) -> Self {
        arbitrary()
    }
}

impl Clone for Designator {
    fn clone(&self) -> (r: Self)
        ensures
            r@ == self@,
    {
        proof {
            use_type_invariant(self);
        }
        Designator {
            has_paren: self.has_paren,
            prefix: copy_chars(&self.prefix),
            number: self.number,
            suffix: self.suffix,
        }
    }
}

impl Designator {
    /// What every designator keeps: its number and its suffix are within the
    /// limits of [`DesignatorView::in_range`].
    #[verifier::type_invariant]
    pub open spec fn well_formed(&self) -> bool {
        self@.in_range()
    }

    /// The empty designator.
    pub fn new() -> (r: Self)
        ensures
            r@ == DesignatorView::empty(false),
    {
        Self { has_paren: false, prefix: Vec::new(), number: 0, suffix: None }
    }

    /// The designator that is the opaque text `s`.
    pub fn word(s: String, has_paren: bool) -> (r: Self)
        ensures
            r@ == DesignatorView::word(s@, has_paren),
    {
        Self { has_paren, prefix: to_chars(s.as_str()), number: 0, suffix: None }
    }

    /// The designator that the text `chars[low..high]`, which is not in
    /// parentheses any more, stands for.
    fn from_chars(chars: &Vec<char>, low: usize, high: usize, has_paren: bool) -> (r: Self)
        requires
            low <= high <= chars@.len(),
        ensures
            r@ == decode_body(chars@.subrange(low as int, high as int), has_paren),
            r@.in_range(),
    {
        let ghost body = chars@.subrange(low as int, high as int);
        let start = skip_to_digit(chars, low, high);
        if start == high {
            assert(body.len() == 0 ==> body == Seq::<char>::empty());
            return Self {
                has_paren,
                prefix: slice_chars(chars, low, high),
                number: 0,
                suffix: None,
            };
        }
        let end = skip_digits(chars, start, high);
        assert(body.subrange(start - low, end - low) == chars@.subrange(start as int, end as int));
        assert(body.skip(start - low) == chars@.subrange(start as int, high as int));
        proof {
            lemma_digit_run(chars@.subrange(start as int, high as int));
            assert forall|i: int| 0 <= i < end - start implies is_ascii_digit(
                #[trigger] chars@.subrange(start as int, end as int)[i],
            ) by {
                assert(chars@.subrange(start as int, end as int)[i] == chars@.subrange(
                    start as int,
                    high as int,
                )[i]);
            }
        }
        if high - end > 1 || (end < high && !char_is_ascii_alphabetic(chars[end])) {
            return Self {
                has_paren,
                prefix: slice_chars(chars, low, high),
                number: 0,
                suffix: None,
            };
        }
        match parse_number(chars, start, end) {
            Some(number) => {
                let suffix = if end < high {
                    Some(chars[end])
                } else {
                    None
                };
                assert(body.take(start - low) == chars@.subrange(low as int, start as int));
                Self { has_paren, prefix: slice_chars(chars, low, start), number, suffix }
            },
            None => Self {
                has_paren,
                prefix: slice_chars(chars, low, high),
                number: 0,
                suffix: None,
            },
        }
    }

    /// The full text of the designator.
    pub fn to_string(&self) -> (s: String)
        ensures
            s@ == self@.text(),
    {
        let mut s = String::new();
        if self.has_paren {
            s.push(OPEN_PAREN);
        }
        self.push_body(&mut s, true);
        if self.has_paren {
            s.push(CLOSE_PAREN);
        }
        s
    }

    /// Appends the prefix, if it is asked for, the number and the suffix.
    fn push_body(&self, s: &mut String, with_prefix: bool)
        ensures
            final(s)@ == old(s)@ + (if with_prefix {
                self@.prefix
            } else {
                Seq::empty()
            }) + number_text(self@.number) + suffix_text(self@.suffix),
    {
        if with_prefix {
            push_chars(s, &self.prefix, 0, self.prefix.len());
            assert(self.prefix@.subrange(0, self.prefix@.len() as int) == self.prefix@);
        }
        if self.number > 0 {
            push_decimal(s, self.number);
        }
        if let Some(suffix) = self.suffix {
            s.push(suffix);
        }
    }

    pub fn is_empty(&self) -> (r: bool)
        ensures
            r == self@.is_empty(),
    {
        self.prefix.len() == 0 && self.number == 0 && self.suffix.is_none()
    }

    pub fn is_word(&self) -> (r: bool)
        ensures
            r == self@.is_word(),
    {
        self.prefix.len() != 0 && self.number == 0 && self.suffix.is_none()
    }

    pub fn has_paren(&self) -> (r: bool)
        ensures
            r == self@.parenthesized,
    {
        self.has_paren
    }

    pub fn without_parentheses(&self) -> (r: Self)
        ensures
            r@ == self@.without_parentheses(),
    {
        proof {
            use_type_invariant(self);
        }
        Self {
            has_paren: false,
            prefix: copy_chars(&self.prefix),
            number: self.number,
            suffix: self.suffix,
        }
    }

    /// Marks the designator as written in parentheses.
    pub fn parenthesize(&mut self)
        ensures
            final(self)@ == old(self)@.with_parentheses(),
    {
        proof {
            use_type_invariant(&*self);
        }
        self.has_paren = true;
    }

    /// The text of the designator where it follows `other` in a list.
    pub fn to_omitted_string(&self, other: &Self) -> (s: String)
        ensures
            s@ == self@.omitted_text(other@),
    {
        if self.is_empty() || other.is_empty() || self.is_word() || other.is_word() {
            return self.to_string();
        }
        let mut omitted = String::new();
        self.push_body(&mut omitted, !same_chars(&self.prefix, &other.prefix));
        omitted
    }

    /// Whether [`Self::next`] takes the designator: it has no successor at
    /// all, or one that can be held.
    pub fn can_step(&self) -> (r: bool)
        ensures
            r == (self@.is_empty() || self@.is_word() || self@.can_step()),
    {
        if self.is_empty() || self.is_word() {
            return true;
        }
        match self.suffix {
            Some(c) => c < '\u{ff}',
            None => self.number < isize::MAX as usize,
        }
    }

    /// The designator one step further, if there is one.  A designator at
    /// the limits of [`DesignatorView::in_range`] has no successor that could
    /// be held, and is not taken.
    pub fn next(&self) -> (r: Option<Self>)
        requires
            self@.is_empty() || self@.is_word() || self@.can_step(),
        ensures
            r is Some <==> self@.successor() is Some,
            r matches Some(d) ==> Some(d@) == self@.successor(),
    {
        proof {
            use_type_invariant(self);
        }
        if self.is_empty() || self.is_word() {
            return None;
        }
        match self.suffix {
            Some(c) => {
                let code: u8 = char_code(c);
                Some(
                    Self {
                        has_paren: self.has_paren,
                        prefix: copy_chars(&self.prefix),
                        number: self.number,
                        suffix: Some((code + 1) as char),
                    },
                )
            },
            None => Some(
                Self {
                    has_paren: self.has_paren,
                    prefix: copy_chars(&self.prefix),
                    number: self.number + 1,
                    suffix: None,
                },
            ),
        }
    }

    /// Fills in what the designator leaves out from `other`, the designator
    /// in front of it.
    pub fn complement(&mut self, other: &Designator)
        ensures
            final(self)@ == old(self)@.complemented(other@),
    {
        proof {
            use_type_invariant(&*self);
            use_type_invariant(other);
        }
        if self.is_empty() || other.is_empty() || other.is_word() {
            return ;
        }
        if other.suffix.is_some() {
            if self.is_word() && self.prefix.len() == 1 && char_is_ascii_alphabetic(
                self.prefix[0],
            ) {
                self.suffix = Some(self.prefix[0]);
                self.prefix = Vec::new();
            }
            if self.suffix.is_some() && self.number == 0 {
                self.number = other.number;
            }
        }
        if self.prefix.len() == 0 {
            self.prefix = copy_chars(&other.prefix);
        }
    }

    /// Whether the two designators are the same in every part.
    pub fn same_as(&self, other: &Designator) -> (r: bool)
        ensures
            r == (self@ == other@),
    {
        self.has_paren == other.has_paren && same_chars(&self.prefix, &other.prefix)
            && self.number == other.number && self.suffix == other.suffix
    }

    /// Whether the designator comes before `other` in the order of
    /// designators.
    pub fn precedes(&self, other: &Designator) -> (r: bool)
        ensures
            r == self@.precedes(other@),
    {
        if self.has_paren != other.has_paren {
            !self.has_paren
        } else if !same_chars(&self.prefix, &other.prefix) {
            chars_precede(&self.prefix, &other.prefix)
        } else if self.number != other.number {
            self.number < other.number
        } else {
            match (self.suffix, other.suffix) {
                (None, Some(_)) => true,
                (Some(x), Some(y)) => x < y,
                _ => false,
            }
        }
    }

    /// How many steps the designator lies behind `other` in a range, if the
    /// two can stand in one range.
    pub fn difference(&self, other: &Designator) -> (r: Option<isize>)
        ensures
            r is Some <==> self@.difference(other@) is Some,
            r matches Some(d) ==> Some(d as int) == self@.difference(other@),
    {
        proof {
            use_type_invariant(self);
            use_type_invariant(other);
        }
        if !same_chars(&self.prefix, &other.prefix) {
            return None;
        }
        match (self.suffix, other.suffix) {
            (Some(mine), Some(theirs)) => {
                if self.number != other.number || char_is_ascii_lowercase(mine)
                    != char_is_ascii_lowercase(theirs) {
                    None
                } else {
                    Some(char_code(mine) as isize - char_code(theirs) as isize)
                }
            },
            (None, None) => Some(self.number as isize - other.number as isize),
            _ => None,
        }
    }
}

/// The characters `chars[from..to]`.
fn slice_chars(chars: &Vec<char>, from: usize, to: usize) -> (v: Vec<char>)
    requires
        from <= to <= chars@.len(),
    ensures
        v@ == chars@.subrange(from as int, to as int),
{
    let mut v: Vec<char> = Vec::new();
    let mut i: usize = from;
    while i < to
        invariant
            from <= i <= to <= chars@.len(),
            v@ == chars@.subrange(from as int, i as int),
        decreases to - i,
    {
        v.push(chars[i]);
        assert(chars@.subrange(from as int, i + 1) == chars@.subrange(from as int, i as int).push(
            chars@[i as int],
        ));
        i += 1;
    }
    v
}

/// The position of the first digit in `chars[from..to]`, or `to`.
fn skip_to_digit(chars: &Vec<char>, from: usize, to: usize) -> (at: usize)
    requires
        from <= to <= chars@.len(),
    ensures
        from <= at <= to,
        at - from == digit_start(chars@.subrange(from as int, to as int)),
{
    let ghost part = chars@.subrange(from as int, to as int);
    let mut at = from;
    while at < to && !char_is_ascii_digit(chars[at])
        invariant
            from <= at <= to <= chars@.len(),
            part == chars@.subrange(from as int, to as int),
            forall|i: int| 0 <= i < at - from ==> !is_ascii_digit(#[trigger] part[i]),
        decreases to - at,
    {
        assert(part[at - from] == chars@[at as int]);
        at += 1;
    }
    proof {
        if at < to {
            assert(part[at - from] == chars@[at as int]);
        }
        lemma_digit_start_is(part, at - from);
    }
    at
}

/// The position behind the digits at the start of `chars[from..to]`.
fn skip_digits(chars: &Vec<char>, from: usize, to: usize) -> (at: usize)
    requires
        from <= to <= chars@.len(),
    ensures
        from <= at <= to,
        at - from == digit_run(chars@.subrange(from as int, to as int)),
{
    let ghost part = chars@.subrange(from as int, to as int);
    let mut at = from;
    while at < to && char_is_ascii_digit(chars[at])
        invariant
            from <= at <= to <= chars@.len(),
            part == chars@.subrange(from as int, to as int),
            forall|i: int| 0 <= i < at - from ==> is_ascii_digit(#[trigger] part[i]),
        decreases to - at,
    {
        assert(part[at - from] == chars@[at as int]);
        at += 1;
    }
    proof {
        if at < to {
            assert(part[at - from] == chars@[at as int]);
        }
        lemma_digit_run_is(part, at - from);
    }
    at
}

} // verus!
