//! Character-level helpers that the workout grammar is written in.
//!
//! A text is modelled as a `Seq<char>`. The executable helpers work on the
//! characters of a whole text and on [`Span`]s of it, and say what they
//! return over the spec functions of this module.

use vstd::prelude::*;

verus! {

/// Whether `c` is white space: the characters that Unicode gives the
/// property `White_Space`.
pub open spec fn is_whitespace(c: char) -> bool {
    let n = c as u32;
    ||| 0x09 <= n <= 0x0d
    ||| n == 0x20
    ||| n == 0x85
    ||| n == 0xa0
    ||| n == 0x1680
    ||| 0x2000 <= n <= 0x200a
    ||| n == 0x2028
    ||| n == 0x2029
    ||| n == 0x202f
    ||| n == 0x205f
    ||| n == 0x3000
}

/// Whether `c` is one of the ten decimal digits.
pub open spec fn is_digit(c: char) -> bool {
    0x30 <= c as u32 <= 0x39
}

/// The value of the decimal digit `c`.
pub open spec fn digit_value(c: char) -> nat
    recommends
        is_digit(c),
{
    (c as u32 - 0x30) as nat
}

/// Whether `s` holds decimal digits only.
pub open spec fn all_digits(s: Seq<char>) -> bool {
    forall|i: int| 0 <= i < s.len() ==> is_digit(#[trigger] s[i])
}

/// The number that the decimal digits of `s` write.
pub open spec fn decimal_value(s: Seq<char>) -> nat
    recommends
        all_digits(s),
    decreases s.len(),
{
    if s.len() == 0 {
        0
    } else {
        10 * decimal_value(s.drop_last()) + digit_value(s.last())
    }
}

/// The number that `s` writes, where it is an optional plus sign and then
/// one or more decimal digits that write a number of 16 bits.
pub open spec fn parse_u16(s: Seq<char>) -> Option<u16> {
    let digits = if s.len() > 0 && s[0] == '+' {
        s.skip(1)
    } else {
        s
    };
    if digits.len() > 0 && all_digits(digits) && decimal_value(digits) <= u16::MAX {
        Some(decimal_value(digits) as u16)
    } else {
        None
    }
}

/// Whether `s` holds white space only.
pub open spec fn is_blank(s: Seq<char>) -> bool {
    forall|i: int| 0 <= i < s.len() ==> is_whitespace(#[trigger] s[i])
}

/// The number of white-space characters that `s` begins with.
pub open spec fn leading_whitespace(s: Seq<char>) -> nat
    decreases s.len(),
{
    if s.len() > 0 && is_whitespace(s[0]) {
        1 + leading_whitespace(s.skip(1))
    } else {
        0
    }
}

/// `s` without the white space that it begins with.
pub open spec fn trim_start(s: Seq<char>) -> Seq<char> {
    s.skip(leading_whitespace(s) as int)
}

/// What follows `prefix` in `s`, where `s` begins with it.
pub open spec fn strip_prefix(s: Seq<char>, prefix: Seq<char>) -> Option<Seq<char>> {
    if prefix.is_prefix_of(s) {
        Some(s.skip(prefix.len() as int))
    } else {
        None
    }
}

/// What stands before and after the first `c` in `s`.
pub open spec fn split_once(s: Seq<char>, c: char) -> Option<(Seq<char>, Seq<char>)> {
    match s.index_of_first(c) {
        Some(i) => Some((s.take(i), s.skip(i + 1))),
        None => None,
    }
}

/// What stands before and after the last `c` in `s`.
pub open spec fn rsplit_once(s: Seq<char>, c: char) -> Option<(Seq<char>, Seq<char>)> {
    match s.index_of_last(c) {
        Some(i) => Some((s.take(i), s.skip(i + 1))),
        None => None,
    }
}

/// `s` without the carriage return that it ends in, if it ends in one.
pub open spec fn strip_carriage_return(s: Seq<char>) -> Seq<char> {
    if s.len() > 0 && s.last() == '\r' {
        s.drop_last()
    } else {
        s
    }
}

/// The lines of `s`. A line ends at a line feed, or at a carriage return
/// and a line feed; neither belongs to the line. The last line need not end
/// in a line feed, and then keeps a carriage return at its end.
pub open spec fn lines(s: Seq<char>) -> Seq<Seq<char>>
    decreases s.len(),
{
    if s.len() == 0 {
        Seq::empty()
    } else {
        match s.index_of_first('\n') {
            Some(n) => {
                proof {
                    s.index_of_first_ensures('\n');
                }
                seq![strip_carriage_return(s.take(n))] + lines(s.skip(n + 1))
            },
            None => seq![s],
        }
    }
}

/// The test that a line is not blank.
pub open spec fn not_blank() -> spec_fn(Seq<char>) -> bool {
    |line: Seq<char>| !is_blank(line)
}

/// The lines of `s` that are not blank.
pub open spec fn content_lines(s: Seq<char>) -> Seq<Seq<char>> {
    lines(s).filter(not_blank())
}

/// A stretch of a text: its characters from `start` up to, not including,
/// `end`.
#[derive(Debug, Clone, Copy, PartialEq, Eq, Structural)]
pub struct Span {
    pub start: usize,
    pub end: usize,
}

impl Span {
    /// Whether the span lies within `text`.
    pub open spec fn within(self, text: Seq<char>) -> bool {
        self.start <= self.end <= text.len()
    }

    /// The characters of `text` that the span covers.
    pub open spec fn of(self, text: Seq<char>) -> Seq<char> {
        text.subrange(self.start as int, self.end as int)
    }
}

/// The stretches of `text` that `spans` cover, in order.
pub open spec fn spans_of(spans: Seq<Span>, text: Seq<char>) -> Seq<Seq<char>> {
    Seq::new(spans.len(), |i: int| spans[i].of(text))
}

/// The first occurrence of `c` in a sequence is the one that nothing equal
/// stands before.
pub proof fn lemma_first_index(s: Seq<char>, c: char, i: int)
    requires
        0 <= i < s.len(),
        s[i] == c,
        forall|j: int| 0 <= j < i ==> s[j] != c,
    ensures
        s.index_of_first(c) == Some(i),
{
    s.index_of_first_ensures(c);
    assert(s.contains(c));
}

/// The last occurrence of `c` in a sequence is the one that nothing equal
/// stands behind.
pub proof fn lemma_last_index(s: Seq<char>, c: char, i: int)
    requires
        0 <= i < s.len(),
        s[i] == c,
        forall|j: int| i < j < s.len() ==> s[j] != c,
    ensures
        s.index_of_last(c) == Some(i),
{
    s.index_of_last_ensures(c);
    assert(s.contains(c));
}

/// A sequence in which `c` stands nowhere has no first and no last
/// occurrence of it.
pub proof fn lemma_no_index(s: Seq<char>, c: char)
    requires
        forall|j: int| 0 <= j < s.len() ==> s[j] != c,
    ensures
        s.index_of_first(c) is None,
        s.index_of_last(c) is None,
{
    s.index_of_first_ensures(c);
    s.index_of_last_ensures(c);
}

/// The white space that a sequence begins with ends at its first character
/// that is none.
pub proof fn lemma_leading_whitespace(s: Seq<char>, n: int)
    requires
        0 <= n <= s.len(),
        forall|j: int| 0 <= j < n ==> is_whitespace(#[trigger] s[j]),
        n < s.len() ==> !is_whitespace(s[n]),
    ensures
        leading_whitespace(s) == n,
    decreases n,
{
    if n > 0 {
        let rest = s.skip(1);
        assert forall|j: int| 0 <= j < n - 1 implies is_whitespace(#[trigger] rest[j]) by {
            assert(rest[j] == s[j + 1]);
        }
        lemma_leading_whitespace(rest, n - 1);
    }
}

/// The digits of a prefix never write more than the digits of the whole.
pub proof fn lemma_decimal_value_prefix(s: Seq<char>, n: int)
    requires
        0 <= n <= s.len(),
    ensures
        decimal_value(s.take(n)) <= decimal_value(s),
    decreases s.len() - n,
{
    if n == s.len() {
        assert(s.take(n) =~= s);
    } else {
        lemma_decimal_value_prefix(s, n + 1);
        assert(s.take(n + 1).drop_last() =~= s.take(n));
    }
}

/// Whether `c` is white space.
pub fn is_space(c: char) -> (yes: bool)
    ensures
        yes == is_whitespace(c),
{
    let n: u32 = c as u32;
    (0x09 <= n && n <= 0x0d) || n == 0x20 || n == 0x85 || n == 0xa0 || n == 0x1680
        || (0x2000 <= n && n <= 0x200a) || n == 0x2028 || n == 0x2029 || n == 0x202f
        || n == 0x205f || n == 0x3000
}

/// The value of `c`, where it is a decimal digit.
pub fn digit_of(c: char) -> (digit: Option<u8>)
    ensures
        digit is Some == is_digit(c),
        digit matches Some(d) ==> d == digit_value(c),
{
    let n: u32 = c as u32;
    if 0x30 <= n && n <= 0x39 {
        Some((n - 0x30) as u8)
    } else {
        None
    }
}

/// The characters of `s`, in order.
pub fn collect_chars(s: &str) -> (chars: Vec<char>)
    ensures
        chars@ == s@,
{
    let mut chars: Vec<char> = Vec::new();
    for c in it: s.chars()
        invariant
            chars@ == it.seq().take(it.index() as int),
            it.seq() == s@,
    {
        chars.push(c);
    }
    chars
}

/// The place of the first `c` in the span.
pub(crate) fn find_first(chars: &Vec<char>, span: Span, c: char) -> (at: Option<usize>)
    requires
        span.within(chars@),
    ensures
        match at {
            Some(i) => span.start <= i < span.end && span.of(chars@).index_of_first(c) == Some(
                i - span.start,
            ),
            None => span.of(chars@).index_of_first(c) is None,
        },
{
    let ghost s = span.of(chars@);
    let mut i: usize = span.start;
    while i < span.end
        invariant
            span.within(chars@),
            s == span.of(chars@),
            span.start <= i <= span.end,
            forall|j: int| 0 <= j < i - span.start ==> s[j] != c,
        decreases span.end - i,
    {
        if chars[i] == c {
            proof {
                lemma_first_index(s, c, i - span.start);
            }
            return Some(i);
        }
        i += 1;
    }
    proof {
        lemma_no_index(s, c);
    }
    None
}

/// The place of the last `c` in the span.
pub(crate) fn find_last(chars: &Vec<char>, span: Span, c: char) -> (at: Option<usize>)
    requires
        span.within(chars@),
    ensures
        match at {
            Some(i) => span.start <= i < span.end && span.of(chars@).index_of_last(c) == Some(
                i - span.start,
            ),
            None => span.of(chars@).index_of_last(c) is None,
        },
{
    let ghost s = span.of(chars@);
    let mut i: usize = span.end;
    while i > span.start
        invariant
            span.within(chars@),
            s == span.of(chars@),
            span.start <= i <= span.end,
            forall|j: int| i - span.start <= j < s.len() ==> s[j] != c,
        decreases i,
    {
        i -= 1;
        if chars[i] == c {
            proof {
                lemma_last_index(s, c, i - span.start);
            }
            return Some(i);
        }
    }
    proof {
        lemma_no_index(s, c);
    }
    None
}

/// The span without the white space that it begins with.
pub(crate) fn skip_whitespace(chars: &Vec<char>, span: Span) -> (rest: Span)
    requires
        span.within(chars@),
    ensures
        rest.within(chars@),
        span.start <= rest.start,
        rest.end == span.end,
        rest.of(chars@) == trim_start(span.of(chars@)),
{
    let ghost s = span.of(chars@);
    let mut i: usize = span.start;
    while i < span.end && is_space(chars[i])
        invariant
            span.within(chars@),
            s == span.of(chars@),
            span.start <= i <= span.end,
            forall|j: int| 0 <= j < i - span.start ==> is_whitespace(#[trigger] s[j]),
        decreases span.end - i,
    {
        i += 1;
    }
    let rest = Span { start: i, end: span.end };
    proof {
        lemma_leading_whitespace(s, i - span.start);
        assert(rest.of(chars@) =~= s.skip(i - span.start));
    }
    rest
}

/// Whether the span holds white space only.
pub(crate) fn is_blank_span(chars: &Vec<char>, span: Span) -> (yes: bool)
    requires
        span.within(chars@),
    ensures
        yes == is_blank(span.of(chars@)),
{
    let rest = skip_whitespace(chars, span);
    proof {
        let s = span.of(chars@);
        let n = leading_whitespace(s) as int;
        lemma_leading_whitespace_bounds(s);
        if rest.start == rest.end {
            assert(n == s.len());
        } else {
            assert(n < s.len());
            assert(!is_whitespace(s[n]));
        }
    }
    rest.start == rest.end
}

/// The leading white space of a sequence lies within it, is white space
/// throughout, and ends before a character that is none.
pub proof fn lemma_leading_whitespace_bounds(s: Seq<char>)
    ensures
        leading_whitespace(s) <= s.len(),
        forall|j: int| 0 <= j < leading_whitespace(s) ==> is_whitespace(#[trigger] s[j]),
        leading_whitespace(s) < s.len() ==> !is_whitespace(s[leading_whitespace(s) as int]),
        trim_start(s).len() == s.len() - leading_whitespace(s),
    decreases s.len(),
{
    if s.len() > 0 && is_whitespace(s[0]) {
        let rest = s.skip(1);
        lemma_leading_whitespace_bounds(rest);
        assert forall|j: int| 0 <= j < leading_whitespace(s) implies is_whitespace(
            #[trigger] s[j],
        ) by {
            if j > 0 {
                assert(s[j] == rest[j - 1]);
            }
        }
        if leading_whitespace(s) < s.len() {
            assert(s[leading_whitespace(s) as int] == rest[leading_whitespace(rest) as int]);
        }
    }
}

/// What follows `prefix` in the span, where the span begins with it.
pub(crate) fn strip_prefix_span(chars: &Vec<char>, span: Span, prefix: &str) -> (rest: Option<Span>)
    requires
        span.within(chars@),
    ensures
        match rest {
            Some(r) => r.within(chars@) && r.start == span.start + prefix@.len() && r.end
                == span.end && strip_prefix(span.of(chars@), prefix@) == Some(r.of(chars@)),
            None => strip_prefix(span.of(chars@), prefix@) is None,
        },
{
    let wanted = collect_chars(prefix);
    let ghost s = span.of(chars@);
    if wanted.len() > span.end - span.start {
        return None;
    }
    let mut i: usize = 0;
    while i < wanted.len()
        invariant
            span.within(chars@),
            s == span.of(chars@),
            wanted@ == prefix@,
            wanted.len() <= span.end - span.start,
            i <= wanted.len(),
            forall|j: int| 0 <= j < i ==> s[j] == wanted@[j],
        decreases wanted.len() - i,
    {
        if chars[span.start + i] != wanted[i] {
            proof {
                assert(s[i as int] != wanted@[i as int]);
                if wanted@.is_prefix_of(s) {
                    assert(s.subrange(0, wanted@.len() as int)[i as int] == s[i as int]);
                }
            }
            return None;
        }
        i += 1;
    }
    let rest = Span { start: span.start + wanted.len(), end: span.end };
    proof {
        assert(s.subrange(0, wanted@.len() as int) =~= wanted@);
        assert(rest.of(chars@) =~= s.skip(wanted@.len() as int));
    }
    Some(rest)
}

/// Whether the span reads as `word`.
pub(crate) fn span_is(chars: &Vec<char>, span: Span, word: &str) -> (yes: bool)
    requires
        span.within(chars@),
    ensures
        yes == (span.of(chars@) == word@),
{
    match strip_prefix_span(chars, span, word) {
        Some(rest) => {
            proof {
                let s = span.of(chars@);
                assert(s.subrange(0, word@.len() as int) == word@);
                if rest.start == rest.end {
                    assert(s.subrange(0, word@.len() as int) =~= s);
                }
            }
            rest.start == rest.end
        },
        None => {
            proof {
                let s = span.of(chars@);
                if s == word@ {
                    assert(s.subrange(0, s.len() as int) =~= s);
                }
            }
            false
        },
    }
}

/// The number that the span writes, as [`parse_u16`] reads it.
pub(crate) fn parse_u16_span(chars: &Vec<char>, span: Span) -> (number: Option<u16>)
    requires
        span.within(chars@),
    ensures
        number == parse_u16(span.of(chars@)),
{
    let ghost s = span.of(chars@);
    let first: usize = if span.start < span.end && chars[span.start] == '+' {
        span.start + 1
    } else {
        span.start
    };
    let ghost digits = if s.len() > 0 && s[0] == '+' {
        s.skip(1)
    } else {
        s
    };
    assert(digits =~= chars@.subrange(first as int, span.end as int));
    if first == span.end {
        return None;
    }
    let mut value: u32 = 0;
    let mut i: usize = first;
    while i < span.end
        invariant
            span.within(chars@),
            span.start <= first <= i <= span.end,
            digits == chars@.subrange(first as int, span.end as int),
            digits.len() > 0,
            parse_u16(span.of(chars@)) == (if all_digits(digits) && decimal_value(digits)
                <= u16::MAX {
                Some(decimal_value(digits) as u16)
            } else {
                None
            }),
            all_digits(digits.take(i - first)),
            value == decimal_value(digits.take(i - first)),
            value <= u16::MAX,
        decreases span.end - i,
    {
        let ghost before = digits.take(i - first);
        let ghost upto = digits.take(i - first + 1);
        proof {
            assert(upto.drop_last() =~= before);
            assert(upto.last() == digits[i - first]);
            assert(digits[i - first] == chars@[i as int]);
        }
        match digit_of(chars[i]) {
            Some(d) => {
                value = value * 10 + d as u32;
                proof {
                    assert forall|j: int| 0 <= j < upto.len() implies is_digit(
                        #[trigger] upto[j],
                    ) by {
                        if j < before.len() {
                            assert(upto[j] == before[j]);
                        }
                    }
                }
                if value > 0xffff {
                    proof {
                        lemma_decimal_value_prefix(digits, i - first + 1);
                    }
                    return None;
                }
            },
            None => {
                assert(!is_digit(digits[i - first]));
                return None;
            },
        }
        i += 1;
    }
    proof {
        assert(digits.take(i - first) =~= digits);
    }
    Some(value as u16)
}

/// The spans of the lines of `chars` that are not blank, in order.
pub(crate) fn content_line_spans(chars: &Vec<char>) -> (spans: Vec<Span>)
    ensures
        spans_of(spans@, chars@) == content_lines(chars@),
        forall|i: int| 0 <= i < spans.len() ==> (#[trigger] spans[i]).within(chars@),
{
    let ghost text = chars@;
    let n: usize = chars.len();
    let mut spans: Vec<Span> = Vec::new();
    let mut pos: usize = 0;
    proof {
        assert(text.skip(0) =~= text);
        assert(spans_of(spans@, text) + content_lines(text.skip(0)) =~= content_lines(text));
    }
    while pos < n
        invariant
            text == chars@,
            n == chars.len(),
            pos <= n,
            spans_of(spans@, text) + content_lines(text.skip(pos as int)) == content_lines(text),
            forall|i: int| 0 <= i < spans.len() ==> (#[trigger] spans[i]).within(text),
        decreases n - pos,
    {
        let ghost rest = text.skip(pos as int);
        let ghost before = spans_of(spans@, text);
        let tail = Span { start: pos, end: n };
        assert(tail.of(text) =~= rest);
        let (line, next): (Span, usize) = match find_first(chars, tail, '\n') {
            Some(nl) => {
                let end: usize = if nl > pos && chars[nl - 1] == '\r' {
                    nl - 1
                } else {
                    nl
                };
                let line = Span { start: pos, end };
                proof {
                    let k = nl - pos;
                    assert(rest.take(k) =~= text.subrange(pos as int, nl as int));
                    assert(line.of(text) =~= strip_carriage_return(rest.take(k)));
                    assert(rest.skip(k + 1) =~= text.skip(nl + 1));
                    assert(lines(rest) == seq![line.of(text)] + lines(text.skip(nl + 1)));
                }
                (line, nl + 1)
            },
            None => {
                proof {
                    assert(lines(rest) == seq![rest]);
                    assert(lines(text.skip(n as int)) =~= Seq::<Seq<char>>::empty());
                    assert(seq![rest] + lines(text.skip(n as int)) =~= seq![rest]);
                }
                (tail, n)
            },
        };
        proof {
            let after = lines(text.skip(next as int));
            assert(lines(rest) == seq![line.of(text)] + after);
            after.lemma_filter_prepend(line.of(text), not_blank());
        }
        if !is_blank_span(chars, line) {
            spans.push(line);
            proof {
                assert(spans_of(spans@, text) =~= before + seq![line.of(text)]);
                assert(spans_of(spans@, text) + content_lines(text.skip(next as int)) =~= before
                    + (seq![line.of(text)] + content_lines(text.skip(next as int))));
            }
        } else {
            proof {
                assert(Seq::<Seq<char>>::empty() + content_lines(text.skip(next as int))
                    =~= content_lines(text.skip(next as int)));
            }
        }
        pos = next;
    }
    proof {
        assert(text.skip(pos as int) =~= Seq::<char>::empty());
        assert(lines(text.skip(pos as int)) =~= Seq::<Seq<char>>::empty());
        reveal(Seq::filter);
        assert(content_lines(text.skip(pos as int)) =~= Seq::<Seq<char>>::empty());
        assert(spans_of(spans@, text) + Seq::<Seq<char>>::empty() =~= spans_of(spans@, text));
    }
    spans
}

} // verus!
