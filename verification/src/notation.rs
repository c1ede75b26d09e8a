//! Feedback in writing: the exact count and the colour count in decimal,
//! separated by a comma, as a player types it and as it is printed.

use crate::error::GameError;
use crate::feedback::MatchKeys;
use vstd::prelude::*;

verus! {

/// White space: the characters with the Unicode property `White_Space`.
pub open spec fn is_space(c: char) -> bool {
    ||| '\u{9}' <= c <= '\u{d}'
    ||| c == ' '
    ||| c == '\u{85}'
    ||| c == '\u{a0}'
    ||| c == '\u{1680}'
    ||| '\u{2000}' <= c <= '\u{200a}'
    ||| c == '\u{2028}'
    ||| c == '\u{2029}'
    ||| c == '\u{202f}'
    ||| c == '\u{205f}'
    ||| c == '\u{3000}'
}

/// `text` from its first character that is not white space.
pub open spec fn without_leading_space(text: Seq<char>) -> Seq<char>
    decreases text.len(),
{
    if text.len() > 0 && is_space(text.first()) {
        without_leading_space(text.drop_first())
    } else {
        text
    }
}

/// `text` up to its last character that is not white space.
pub open spec fn without_trailing_space(text: Seq<char>) -> Seq<char>
    decreases text.len(),
{
    if text.len() > 0 && is_space(text.last()) {
        without_trailing_space(text.drop_last())
    } else {
        text
    }
}

/// `text` without the white space at either end.
pub open spec fn trimmed(text: Seq<char>) -> Seq<char> {
    without_trailing_space(without_leading_space(text))
}

/// One of the ten decimal digits.
pub open spec fn is_digit(c: char) -> bool {
    '0' <= c <= '9'
}

/// Every character of `text` is a decimal digit.
pub open spec fn all_digits(text: Seq<char>) -> bool {
    forall|i: int| 0 <= i < text.len() ==> is_digit(#[trigger] text[i])
}

/// The number that a run of decimal digits denotes.
pub open spec fn decimal_value(digits: Seq<char>) -> nat
    decreases digits.len(),
{
    if digits.len() == 0 {
        0
    } else {
        decimal_value(digits.drop_last()) * 10 + (digits.last() as nat - '0' as nat) as nat
    }
}

/// The count that `field` denotes: one or more decimal digits, after an
/// optional `+`, that denote a number within `u32`.
pub open spec fn count_of(field: Seq<char>) -> Option<u32> {
    let digits = if field.len() > 0 && field[0] == '+' {
        field.drop_first()
    } else {
        field
    };
    if digits.len() > 0 && all_digits(digits) && decimal_value(digits) <= u32::MAX {
        Some(decimal_value(digits) as u32)
    } else {
        None
    }
}

/// The part of `text` before its first comma; all of it where it has none.
pub open spec fn first_field(text: Seq<char>) -> Seq<char> {
    match text.index_of_first(',') {
        Some(comma) => text.subrange(0, comma),
        None => text,
    }
}

/// The part of `text` after its first comma, where it has one.
pub open spec fn after_first_field(text: Seq<char>) -> Option<Seq<char>> {
    match text.index_of_first(',') {
        Some(comma) => Some(text.subrange(comma + 1, text.len() as int)),
        None => None,
    }
}

/// The feedback that `line` denotes. Between the white space at its ends the
/// line holds fields separated by commas; the first two are the exact count
/// and the colour count, and further fields are ignored.
pub open spec fn feedback_of(line: Seq<char>) -> Option<MatchKeys> {
    let text = trimmed(line);
    match after_first_field(text) {
        Some(rest) => match (count_of(first_field(text)), count_of(first_field(rest))) {
            (Some(exact_count), Some(color_count)) => Some(MatchKeys { exact_count, color_count }),
            _ => None,
        },
        None => None,
    }
}

/// Reads the feedback that a player typed: the exact count and the colour
/// count, separated by a comma.
pub fn parse_match_keys(line: &str) -> (result: Result<MatchKeys, GameError>)
    ensures
        result == match feedback_of(line@) {
            Some(keys) => Ok::<MatchKeys, GameError>(keys),
            None => Err::<MatchKeys, GameError>(GameError::MalformedFeedback),
        },
{
    let chars = characters(line);
    let (start, end) = trim_bounds(&chars);
    let ghost text = trimmed(line@);
    let comma = find_comma(&chars, start, end);
    if comma == end {
        return Err(GameError::MalformedFeedback);
    }
    let second_end = find_comma(&chars, comma + 1, end);
    proof {
        let rest = text.subrange(comma - start + 1, text.len() as int);
        assert(text.subrange(0, comma - start) =~= chars@.subrange(start as int, comma as int));
        assert(rest =~= chars@.subrange(comma + 1, end as int));
        assert(rest.subrange(0, second_end - comma - 1) =~= chars@.subrange(
            comma + 1,
            second_end as int,
        ));
        assert(first_field(rest) =~= chars@.subrange(comma + 1, second_end as int));
    }
    let exact = parse_count(&chars, start, comma);
    let color = parse_count(&chars, comma + 1, second_end);
    match (exact, color) {
        (Some(exact_count), Some(color_count)) => Ok(MatchKeys { exact_count, color_count }),
        _ => Err(GameError::MalformedFeedback),
    }
}

/// The characters of `text`, in order.
fn characters(text: &str) -> (chars: Vec<char>)
    ensures
        chars@ == text@,
{
    let mut chars: Vec<char> = Vec::new();
    for c in rest: text.chars()
        invariant
            rest.seq() == text@,
            chars@ == text@.take(rest.index() as int),
    {
        proof {
            assert(text@.take(rest.index() + 1) =~= text@.take(rest.index() as int).push(c));
        }
        chars.push(c);
    }
    assert(text@.take(text@.len() as int) =~= text@);
    chars
}

/// Whether `c` is white space.
fn is_whitespace(c: char) -> (space: bool)
    ensures
        space == is_space(c),
{
    (c >= '\u{9}' && c <= '\u{d}') || c == ' ' || c == '\u{85}' || c == '\u{a0}' || c
        == '\u{1680}' || (c >= '\u{2000}' && c <= '\u{200a}') || c == '\u{2028}' || c
        == '\u{2029}' || c == '\u{202f}' || c == '\u{205f}' || c == '\u{3000}'
}

/// Where the trimmed text starts and ends within `chars`.
fn trim_bounds(chars: &Vec<char>) -> (bounds: (usize, usize))
    ensures
        bounds.0 <= bounds.1 <= chars@.len(),
        chars@.subrange(bounds.0 as int, bounds.1 as int) == trimmed(chars@),
{
    let len = chars.len();
    let mut start: usize = 0;
    proof {
        assert(chars@.subrange(0, len as int) =~= chars@);
    }
    while start < len
        invariant
            len == chars@.len(),
            start <= len,
            without_leading_space(chars@) == without_leading_space(
                chars@.subrange(start as int, len as int),
            ),
        ensures
            start <= len,
            without_leading_space(chars@) == chars@.subrange(start as int, len as int),
        decreases len - start,
    {
        if !is_whitespace(chars[start]) {
            break ;
        }
        proof {
            assert(chars@.subrange(start as int, len as int).drop_first() =~= chars@.subrange(
                start + 1,
                len as int,
            ));
        }
        start += 1;
    }
    let ghost tail = chars@.subrange(start as int, len as int);
    let mut end: usize = len;
    while end > start
        invariant
            len == chars@.len(),
            start <= end <= len,
            tail == chars@.subrange(start as int, len as int),
            without_trailing_space(tail) == without_trailing_space(
                chars@.subrange(start as int, end as int),
            ),
        ensures
            start <= end <= len,
            without_trailing_space(tail) == chars@.subrange(start as int, end as int),
        decreases end,
    {
        if !is_whitespace(chars[end - 1]) {
            break ;
        }
        proof {
            assert(chars@.subrange(start as int, end as int).drop_last() =~= chars@.subrange(
                start as int,
                end - 1,
            ));
        }
        end -= 1;
    }
    (start, end)
}

/// The position of the first comma of `chars` in `from .. to`, or `to` where
/// there is none.
fn find_comma(chars: &Vec<char>, from: usize, to: usize) -> (at: usize)
    requires
        from <= to <= chars@.len(),
    ensures
        from <= at <= to,
        match chars@.subrange(from as int, to as int).index_of_first(',') {
            Some(comma) => at == from + comma && at < to,
            None => at == to,
        },
        first_field(chars@.subrange(from as int, to as int)) == chars@.subrange(
            from as int,
            at as int,
        ),
{
    let ghost part = chars@.subrange(from as int, to as int);
    let mut at: usize = from;
    while at < to
        invariant
            from <= at <= to <= chars@.len(),
            part == chars@.subrange(from as int, to as int),
            forall|i: int| 0 <= i < at - from ==> part[i] != ',',
        ensures
            from <= at <= to,
            forall|i: int| 0 <= i < at - from ==> part[i] != ',',
            at < to ==> part[at - from] == ',',
        decreases to - at,
    {
        if chars[at] == ',' {
            break ;
        }
        at += 1;
    }
    proof {
        part.index_of_first_ensures(',');
        if at < to {
            assert(part.contains(','));
            assert(part.subrange(0, at - from) =~= chars@.subrange(from as int, at as int));
        } else {
            assert(part =~= chars@.subrange(from as int, at as int));
        }
    }
    at
}

/// A run of digits denotes at least what any of its beginnings denotes.
proof fn lemma_decimal_prefix(digits: Seq<char>, len: int)
    requires
        all_digits(digits),
        0 <= len <= digits.len(),
    ensures
        decimal_value(digits.take(len)) <= decimal_value(digits),
    decreases digits.len(),
{
    if len == digits.len() {
        assert(digits.take(len) =~= digits);
    } else {
        assert(digits.drop_last().take(len) =~= digits.take(len));
        assert(is_digit(digits.last()));
        lemma_decimal_prefix(digits.drop_last(), len);
    }
}

/// The count that the characters `from .. to` of `chars` denote.
fn parse_count(chars: &Vec<char>, from: usize, to: usize) -> (count: Option<u32>)
    requires
        from <= to <= chars@.len(),
    ensures
        count == count_of(chars@.subrange(from as int, to as int)),
{
    let ghost field = chars@.subrange(from as int, to as int);
    let mut at: usize = from;
    if at < to && chars[at] == '+' {
        at += 1;
    }
    let first = at;
    let ghost digits = chars@.subrange(first as int, to as int);
    proof {
        if first > from {
            assert(field[0] == '+');
            assert(field.drop_first() =~= digits);
        } else {
            if field.len() > 0 {
                assert(field[0] == chars@[from as int]);
            }
            assert(field =~= digits);
        }
    }
    if at == to {
        return None;
    }
    let mut value: u32 = 0;
    proof {
        assert(digits.take(0) =~= Seq::<char>::empty());
    }
    while at < to
        invariant
            first <= at <= to <= chars@.len(),
            field == chars@.subrange(from as int, to as int),
            digits == chars@.subrange(first as int, to as int),
            digits == if field.len() > 0 && field[0] == '+' {
                field.drop_first()
            } else {
                field
            },
            all_digits(digits.take(at - first)),
            value == decimal_value(digits.take(at - first)),
        decreases to - at,
    {
        let c = chars[at];
        let ghost seen = digits.take(at - first);
        let ghost longer = digits.take(at - first + 1);
        proof {
            assert(digits[at - first] == c);
            assert(longer.drop_last() =~= seen);
            assert(longer.last() == c);
        }
        if !(c >= '0' && c <= '9') {
            return None;
        }
        proof {
            assert forall|i: int| 0 <= i < longer.len() implies is_digit(#[trigger] longer[i]) by {
                if i < seen.len() {
                    assert(seen[i] == longer[i]);
                }
            }
            if all_digits(digits) {
                lemma_decimal_prefix(digits, at - first + 1);
            }
        }
        let digit = c as u32 - '0' as u32;
        match value.checked_mul(10) {
            Some(tens) => match tens.checked_add(digit) {
                Some(next) => {
                    value = next;
                },
                None => {
                    return None;
                },
            },
            None => {
                return None;
            },
        }
        at += 1;
    }
    proof {
        assert(digits.take(to - first) =~= digits);
    }
    Some(value)
}

/// The character that stands for the digit `d`.
pub open spec fn digit_char(d: nat) -> char {
    ('0' as nat + d) as char
}

/// The decimal digits of `n`, without leading zeros; `0` is written `0`.
pub open spec fn decimal_digits(n: nat) -> Seq<char>
    decreases n,
{
    if n < 10 {
        seq![digit_char(n)]
    } else {
        decimal_digits(n / 10).push(digit_char(n % 10))
    }
}

/// Feedback as text: the exact count, a comma, the colour count.
pub open spec fn text_of_feedback(keys: MatchKeys) -> Seq<char> {
    decimal_digits(keys.exact_count as nat).push(',') + decimal_digits(keys.color_count as nat)
}

impl MatchKeys {
    /// The feedback as text: the exact count, a comma, the colour count,
    /// both in decimal.
    pub fn to_text(&self) -> (text: String)
        ensures
            text@ == text_of_feedback(*self),
    {
        let mut text = String::new();
        push_decimal(&mut text, self.exact_count);
        text.push(',');
        push_decimal(&mut text, self.color_count);
        text
    }
}

/// Appends the decimal digits of `n` to `text`.
fn push_decimal(text: &mut String, n: u32)
    ensures
        final(text)@ == old(text)@ + decimal_digits(n as nat),
{
    let mut last_first: Vec<char> = Vec::new();
    let mut rest = n;
    while rest >= 10
        invariant
            forall|i: int|
                0 <= i < last_first@.len() ==> #[trigger] last_first@[i] == decimal_digits(
                    n as nat,
                )[decimal_digits(n as nat).len() - 1 - i],
            decimal_digits(n as nat).len() == decimal_digits(rest as nat).len() + last_first@.len(),
            decimal_digits(n as nat).take(decimal_digits(rest as nat).len() as int)
                == decimal_digits(rest as nat),
        decreases rest,
    {
        proof {
            let whole = decimal_digits(n as nat);
            let here = decimal_digits(rest as nat);
            let shorter = decimal_digits((rest / 10) as nat);
            assert(here == shorter.push(digit_char((rest % 10) as nat)));
            assert(whole[here.len() - 1] == whole.take(here.len() as int)[here.len() - 1]);
            assert(whole.take(shorter.len() as int) =~= here.take(shorter.len() as int));
            assert(here.take(shorter.len() as int) =~= shorter);
        }
        last_first.push(digit_symbol(rest % 10));
        rest = rest / 10;
    }
    proof {
        let whole = decimal_digits(n as nat);
        let here = decimal_digits(rest as nat);
        assert(here.len() == 1);
        assert(whole[0] == whole.take(1)[0]);
    }
    last_first.push(digit_symbol(rest));
    let ghost before = text@;
    let ghost whole = decimal_digits(n as nat);
    let mut left: usize = last_first.len();
    proof {
        assert(before + whole.take(0) =~= before);
    }
    while left > 0
        invariant
            left <= last_first@.len(),
            last_first@.len() == whole.len(),
            whole == decimal_digits(n as nat),
            forall|i: int|
                0 <= i < last_first@.len() ==> #[trigger] last_first@[i] == whole[whole.len() - 1
                    - i],
            text@ == before + whole.take(whole.len() - left),
        decreases left,
    {
        left -= 1;
        text.push(last_first[left]);
        proof {
            assert(whole.take(whole.len() - left) =~= whole.take(whole.len() - left - 1).push(
                whole[whole.len() - left - 1],
            ));
            assert(text@ =~= before + whole.take(whole.len() - left));
        }
    }
    proof {
        assert(whole.take(whole.len() as int) =~= whole);
    }
}

/// The character that stands for the digit `d`.
fn digit_symbol(d: u32) -> (c: char)
    requires
        d < 10,
    ensures
        c == digit_char(d as nat),
        is_digit(c),
{
    if d == 0 {
        '0'
    } else if d == 1 {
        '1'
    } else if d == 2 {
        '2'
    } else if d == 3 {
        '3'
    } else if d == 4 {
        '4'
    } else if d == 5 {
        '5'
    } else if d == 6 {
        '6'
    } else if d == 7 {
        '7'
    } else if d == 8 {
        '8'
    } else {
        '9'
    }
}

/// The decimal digits of a number are digits, at least one, and they denote
/// the number.
pub proof fn lemma_decimal_digits(n: nat)
    ensures
        decimal_digits(n).len() >= 1,
        all_digits(decimal_digits(n)),
        decimal_value(decimal_digits(n)) == n,
    decreases n,
{
    if n < 10 {
        let digits = decimal_digits(n);
        assert(digits.drop_last() =~= Seq::<char>::empty());
        assert(decimal_value(digits.drop_last()) == 0);
    } else {
        lemma_decimal_digits(n / 10);
        let shorter = decimal_digits(n / 10);
        let digits = decimal_digits(n);
        assert(digits.drop_last() =~= shorter);
        assert forall|i: int| 0 <= i < digits.len() implies is_digit(#[trigger] digits[i]) by {
            if i < shorter.len() {
                assert(digits[i] == shorter[i]);
            }
        }
    }
}

/// A run of digits holds no comma: it is its own first field.
proof fn lemma_digits_are_one_field(digits: Seq<char>)
    requires
        all_digits(digits),
    ensures
        first_field(digits) == digits,
{
    digits.index_of_first_ensures(',');
    if digits.contains(',') {
        let at = digits.index_of_first(',').unwrap();
        assert(is_digit(digits[at]));
    }
}

/// A run of digits that denotes a number within `u32` is read as that number.
proof fn lemma_count_of_digits(n: u32)
    ensures
        count_of(decimal_digits(n as nat)) == Some(n),
{
    lemma_decimal_digits(n as nat);
    assert(is_digit(decimal_digits(n as nat)[0]));
}

/// Reading the text of a feedback gives the feedback back.
pub proof fn lemma_feedback_round_trip(keys: MatchKeys)
    ensures
        feedback_of(text_of_feedback(keys)) == Some(keys),
{
    let exact = decimal_digits(keys.exact_count as nat);
    let color = decimal_digits(keys.color_count as nat);
    let text = text_of_feedback(keys);
    lemma_decimal_digits(keys.exact_count as nat);
    lemma_decimal_digits(keys.color_count as nat);
    lemma_count_of_digits(keys.exact_count);
    lemma_count_of_digits(keys.color_count);
    lemma_digits_are_one_field(color);
    assert(text.first() == exact[0] && is_digit(exact[0]));
    assert(text.last() == color[color.len() - 1] && is_digit(color[color.len() - 1]));
    assert(trimmed(text) == text);
    text.index_of_first_ensures(',');
    assert(text[exact.len() as int] == ',');
    assert(text.contains(','));
    let comma = text.index_of_first(',').unwrap();
    if comma < exact.len() {
        assert(text[comma] == exact[comma] && is_digit(exact[comma]));
    }
    assert(comma == exact.len());
    assert(text.subrange(0, comma) =~= exact);
    assert(text.subrange(comma + 1, text.len() as int) =~= color);
}

} // verus!
