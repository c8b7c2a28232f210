//! The text form of a list of integers: one decimal number per line.
//!
//! Reading splits the bytes at line feeds, drops the carriage return that
//! stands before a line feed, and keeps each line that is a decimal integer
//! within the 64-bit range; any other line is passed over. Writing puts each
//! integer in decimal, followed by a line feed.

use vstd::prelude::*;

verus! {

/// The digit `0`.
pub const DIGIT_ZERO: u8 = 48;

/// The digit `9`.
pub const DIGIT_NINE: u8 = 57;

/// The sign `+`.
pub const PLUS: u8 = 43;

/// The sign `-`.
pub const MINUS: u8 = 45;

/// The line feed, which ends a line.
pub const LINE_FEED: u8 = 10;

/// The carriage return, which may stand before a line feed.
pub const CARRIAGE_RETURN: u8 = 13;

/// The byte is a decimal digit.
pub open spec fn is_digit(b: u8) -> bool {
    DIGIT_ZERO <= b <= DIGIT_NINE
}

/// Every byte is a decimal digit.
pub open spec fn all_digits(s: Seq<u8>) -> bool {
    forall|i: int| 0 <= i < s.len() ==> is_digit(#[trigger] s[i])
}

/// The number that a run of decimal digits stands for.
pub open spec fn digits_value(s: Seq<u8>) -> int
    decreases s.len(),
{
    if s.len() == 0 {
        0
    } else {
        digits_value(s.drop_last()) * 10 + (s.last() - DIGIT_ZERO)
    }
}

/// The integer that a line holds: an optional `+` or `-`, then at least one
/// digit and nothing else. A line of another shape, or one whose number does
/// not fit in 64 bits, holds none.
pub open spec fn line_value(line: Seq<u8>) -> Option<i64> {
    let signed = line.len() > 0 && (line[0] == PLUS || line[0] == MINUS);
    let negative = line.len() > 0 && line[0] == MINUS;
    let body = if signed {
        line.subrange(1, line.len() as int)
    } else {
        line
    };
    let value = if negative {
        -digits_value(body)
    } else {
        digits_value(body)
    };
    if body.len() > 0 && all_digits(body) && i64::MIN <= value <= i64::MAX {
        Some(value as i64)
    } else {
        None
    }
}

/// Where the first line of `text` ends: the index of its first line feed, or
/// its length where it holds none.
pub open spec fn line_end(text: Seq<u8>) -> nat
    decreases text.len(),
{
    if text.len() == 0 || text[0] == LINE_FEED {
        0
    } else {
        1 + line_end(text.drop_first())
    }
}

/// The line without the carriage return at its end, if it has one.
pub open spec fn without_return(line: Seq<u8>) -> Seq<u8> {
    if line.len() > 0 && line.last() == CARRIAGE_RETURN {
        line.drop_last()
    } else {
        line
    }
}

/// The lines of a text. Each line feed ends a line, and a carriage return
/// just before it goes with it. What follows the last line feed is a line of
/// its own, taken as it stands, unless nothing follows.
pub open spec fn lines_of(text: Seq<u8>) -> Seq<Seq<u8>>
    decreases text.len(),
{
    if text.len() == 0 {
        Seq::empty()
    } else {
        let end = line_end(text) as int;
        if end >= text.len() {
            seq![text]
        } else {
            seq![without_return(text.subrange(0, end))] + lines_of(
                text.subrange(end + 1, text.len() as int),
            )
        }
    }
}

/// The integers that the lines hold, in order; a line that holds none is
/// passed over.
pub open spec fn integers_of(lines: Seq<Seq<u8>>) -> Seq<i64>
    decreases lines.len(),
{
    if lines.len() == 0 {
        Seq::empty()
    } else {
        let rest = integers_of(lines.drop_first());
        match line_value(lines[0]) {
            Some(value) => seq![value] + rest,
            None => rest,
        }
    }
}

/// The integers of a text, one to a line.
pub open spec fn integers_in(text: Seq<u8>) -> Seq<i64> {
    integers_of(lines_of(text))
}

/// The decimal digits of a number that is not negative, the most
/// significant first, with no leading zero but for zero itself.
pub open spec fn digits_of(n: nat) -> Seq<u8>
    decreases n,
{
    if n < 10 {
        seq![(DIGIT_ZERO + n) as u8]
    } else {
        digits_of(n / 10).push((DIGIT_ZERO + n % 10) as u8)
    }
}

/// An integer in decimal: `-` before a negative one, then its digits.
pub open spec fn decimal(value: int) -> Seq<u8> {
    if value < 0 {
        seq![MINUS] + digits_of((-value) as nat)
    } else {
        digits_of(value as nat)
    }
}

/// The text of a list of integers: each in decimal, followed by a line feed.
pub open spec fn rendered(content: Seq<i64>) -> Seq<u8>
    decreases content.len(),
{
    if content.len() == 0 {
        Seq::empty()
    } else {
        decimal(content[0] as int).push(LINE_FEED) + rendered(content.drop_first())
    }
}

/// A run of digits stands for a number that is not negative.
proof fn lemma_digits_value_nonnegative(s: Seq<u8>)
    requires
        all_digits(s),
    ensures
        0 <= digits_value(s),
    decreases s.len(),
{
    if s.len() > 0 {
        lemma_digits_value_nonnegative(s.drop_last());
    }
}

/// A prefix of a run of digits stands for no more than the whole run.
proof fn lemma_digits_value_prefix(s: Seq<u8>, k: int)
    requires
        all_digits(s),
        0 <= k <= s.len(),
    ensures
        0 <= digits_value(s.subrange(0, k)) <= digits_value(s),
    decreases s.len() - k,
{
    if k == s.len() {
        assert(s.subrange(0, k) =~= s);
        lemma_digits_value_nonnegative(s);
    } else {
        lemma_digits_value_prefix(s, k + 1);
        let longer = s.subrange(0, k + 1);
        assert(longer.drop_last() =~= s.subrange(0, k));
        lemma_digits_value_nonnegative(s.subrange(0, k));
    }
}

/// The first line ends at `end` where no line feed stands before `end` and
/// one stands there, or the text ends there.
proof fn lemma_line_end(text: Seq<u8>, end: int)
    requires
        0 <= end <= text.len(),
        forall|k: int| 0 <= k < end ==> text[k] != LINE_FEED,
        end < text.len() ==> text[end] == LINE_FEED,
    ensures
        line_end(text) == end,
    decreases end,
{
    if end > 0 {
        let rest = text.drop_first();
        lemma_line_end(rest, end - 1);
    }
}

/// The integers of a text whose first line ends with a line feed at `end`:
/// that line's integer, if it holds one, then those of the rest.
proof fn lemma_integers_in_first_line(text: Seq<u8>, end: int)
    requires
        0 <= end < text.len(),
        forall|k: int| 0 <= k < end ==> text[k] != LINE_FEED,
        text[end] == LINE_FEED,
    ensures
        integers_in(text) == (match line_value(without_return(text.subrange(0, end))) {
            Some(value) => seq![value],
            None => Seq::<i64>::empty(),
        }) + integers_in(text.subrange(end + 1, text.len() as int)),
{
    lemma_line_end(text, end);
    let first = without_return(text.subrange(0, end));
    let rest = lines_of(text.subrange(end + 1, text.len() as int));
    let lines = seq![first] + rest;
    assert(lines.drop_first() =~= rest);
}

/// The integers of a text without a line feed: that of the whole text, if it
/// holds one.
proof fn lemma_integers_in_last_line(text: Seq<u8>)
    requires
        forall|k: int| 0 <= k < text.len() ==> text[k] != LINE_FEED,
    ensures
        integers_in(text) == (if text.len() == 0 {
            Seq::<i64>::empty()
        } else {
            match line_value(text) {
                Some(value) => seq![value],
                None => Seq::<i64>::empty(),
            }
        }),
{
    if text.len() > 0 {
        lemma_line_end(text, text.len() as int);
        let lines = seq![text];
        assert(integers_of(lines.drop_first()) =~= Seq::<i64>::empty());
    }
}

/// The text of a list with one more integer at its end is the text of the
/// list, then the line of that integer.
proof fn lemma_rendered_push(content: Seq<i64>, value: i64)
    ensures
        rendered(content.push(value)) == rendered(content) + decimal(value as int).push(LINE_FEED),
    decreases content.len(),
{
    let longer = content.push(value);
    if content.len() == 0 {
        assert(rendered(longer.drop_first()) =~= Seq::<u8>::empty());
    } else {
        assert(longer.drop_first() =~= content.drop_first().push(value));
        lemma_rendered_push(content.drop_first(), value);
    }
}

/// The digits of a number are digits, at least one, and stand for it.
pub proof fn lemma_digits_of(n: nat)
    ensures
        digits_of(n).len() > 0,
        all_digits(digits_of(n)),
        digits_value(digits_of(n)) == n,
    decreases n,
{
    if n < 10 {
        let one = seq![(DIGIT_ZERO + n) as u8];
        assert(digits_value(one.drop_last()) == 0);
    } else {
        lemma_digits_of(n / 10);
        let head = digits_of(n / 10);
        let digit = (DIGIT_ZERO + n % 10) as u8;
        let all = head.push(digit);
        assert(all.drop_last() =~= head);
    }
}

/// A line that holds an integer in decimal is read as that integer, and
/// holds neither a line feed nor a carriage return.
pub proof fn lemma_decimal_line(value: i64)
    ensures
        line_value(decimal(value as int)) == Some(value),
        decimal(value as int).len() > 0,
        forall|k: int|
            0 <= k < decimal(value as int).len() ==> {
                &&& #[trigger] decimal(value as int)[k] != LINE_FEED
                &&& decimal(value as int)[k] != CARRIAGE_RETURN
            },
{
    let line = decimal(value as int);
    if value < 0 {
        let digits = digits_of((-value) as nat);
        lemma_digits_of((-value) as nat);
        assert(line.subrange(1, line.len() as int) =~= digits);
    } else {
        lemma_digits_of(value as nat);
    }
}

/// Reading the text of a list of integers gives the list back.
pub proof fn lemma_text_round_trip(content: Seq<i64>)
    ensures
        integers_in(rendered(content)) == content,
    decreases content.len(),
{
    if content.len() > 0 {
        let line = decimal(content[0] as int);
        let rest = rendered(content.drop_first());
        let text = line.push(LINE_FEED) + rest;
        let end = line.len() as int;
        lemma_decimal_line(content[0]);
        lemma_text_round_trip(content.drop_first());
        lemma_integers_in_first_line(text, end);
        assert(text.subrange(0, end) =~= line);
        assert(text.subrange(end + 1, text.len() as int) =~= rest);
    }
}

/// Reads one line as an integer.
pub fn parse_line(line: &[u8]) -> (value: Option<i64>)
    ensures
        value == line_value(line@),
{
    let len: usize = line.len();
    if len == 0 {
        return None;
    }
    let negative: bool = line[0] == MINUS;
    let start: usize = if line[0] == PLUS || line[0] == MINUS {
        1
    } else {
        0
    };
    if start == len {
        return None;
    }
    let ghost body = line@.subrange(start as int, len as int);
    let limit: i128 = if negative {
        9223372036854775808
    } else {
        9223372036854775807
    };
    let mut acc: i128 = 0;
    let mut idx: usize = start;
    while idx < len
        invariant
            start <= idx <= len,
            start < len == line@.len(),
            negative == (line@[0] == MINUS),
            start == (if line@[0] == PLUS || line@[0] == MINUS { 1int } else { 0int }),
            limit == (if negative { 9223372036854775808int } else { 9223372036854775807int }),
            body == line@.subrange(start as int, len as int),
            start == 0 ==> body == line@,
            all_digits(body.subrange(0, idx - start)),
            acc == digits_value(body.subrange(0, idx - start)),
            0 <= acc <= limit,
        decreases len - idx,
    {
        let b: u8 = line[idx];
        if b < DIGIT_ZERO || b > DIGIT_NINE {
            return None;
        }
        proof {
            let longer = body.subrange(0, idx - start + 1);
            assert(longer.drop_last() =~= body.subrange(0, idx - start));
        }
        acc = acc * 10 + (b - DIGIT_ZERO) as i128;
        if acc > limit {
            proof {
                if all_digits(body) {
                    lemma_digits_value_prefix(body, idx - start + 1);
                }
            }
            return None;
        }
        idx += 1;
    }
    proof {
        assert(body.subrange(0, idx - start) =~= body);
    }
    if negative {
        Some((-acc) as i64)
    } else {
        Some(acc as i64)
    }
}

/// Reads the integers of a text, one to a line. A line that is no integer,
/// or one too large for 64 bits, is passed over.
pub fn parse_content(text: &[u8]) -> (content: Vec<i64>)
    ensures
        content@ == integers_in(text@),
{
    let mut content: Vec<i64> = Vec::new();
    let len: usize = text.len();
    let mut start: usize = 0;
    let mut idx: usize = 0;
    proof {
        assert(text@.subrange(0, len as int) =~= text@);
    }
    while idx < len
        invariant
            start <= idx <= len,
            len == text@.len(),
            forall|k: int| start <= k < idx ==> text@[k] != LINE_FEED,
            integers_in(text@) == content@ + integers_in(text@.subrange(start as int, len as int)),
        decreases len - idx,
    {
        if text[idx] == LINE_FEED {
            let mut end: usize = idx;
            if end > start && text[end - 1] == CARRIAGE_RETURN {
                end -= 1;
            }
            let ghost rest = text@.subrange(start as int, len as int);
            proof {
                lemma_integers_in_first_line(rest, idx - start);
                assert(rest.subrange(idx - start + 1, rest.len() as int) =~= text@.subrange(
                    idx + 1,
                    len as int,
                ));
                assert(without_return(rest.subrange(0, idx - start)) =~= text@.subrange(
                    start as int,
                    end as int,
                ));
            }
            match parse_line(&text[start..end]) {
                Some(value) => {
                    content.push(value);
                },
                None => {},
            }
            start = idx + 1;
        }
        idx += 1;
    }
    proof {
        lemma_integers_in_last_line(text@.subrange(start as int, len as int));
    }
    if start < len {
        match parse_line(&text[start..len]) {
            Some(value) => {
                content.push(value);
            },
            None => {},
        }
    }
    content
}

/// Appends the decimal form of `value` to `out`.
pub fn render_integer(value: i64, out: &mut Vec<u8>)
    ensures
        final(out)@ == old(out)@ + decimal(value as int),
{
    let magnitude: u64 = if value < 0 {
        (-(value as i128)) as u64
    } else {
        value as u64
    };
    if value < 0 {
        out.push(MINUS);
    }
    let ghost base = out@;
    // The digits, the least significant first.
    let mut digits: Vec<u8> = Vec::new();
    digits.push(DIGIT_ZERO + (magnitude % 10) as u8);
    let mut rest: u64 = magnitude / 10;
    while rest > 0
        invariant
            0 < digits@.len(),
            digits_of(magnitude as nat) == (if rest > 0 {
                digits_of(rest as nat)
            } else {
                Seq::<u8>::empty()
            }) + digits@.reverse(),
        decreases rest,
    {
        let digit: u8 = DIGIT_ZERO + (rest % 10) as u8;
        digits.push(digit);
        rest = rest / 10;
    }
    let mut left: usize = digits.len();
    while left > 0
        invariant
            left <= digits@.len(),
            out@ == base + digits@.reverse().subrange(0, digits@.len() - left),
        decreases left,
    {
        left -= 1;
        out.push(digits[left]);
    }
}

/// Writes a list of integers as text: each in decimal, followed by a line
/// feed.
pub fn render_content(content: &[i64]) -> (text: Vec<u8>)
    ensures
        text@ == rendered(content@),
{
    let mut text: Vec<u8> = Vec::new();
    let mut idx: usize = 0;
    while idx < content.len()
        invariant
            idx <= content@.len(),
            text@ == rendered(content@.subrange(0, idx as int)),
        decreases content@.len() - idx,
    {
        render_integer(content[idx], &mut text);
        text.push(LINE_FEED);
        proof {
            let done = content@.subrange(0, idx as int);
            lemma_rendered_push(done, content@[idx as int]);
            assert(content@.subrange(0, idx + 1) =~= done.push(content@[idx as int]));
        }
        idx += 1;
    }
    proof {
        assert(content@.subrange(0, idx as int) =~= content@);
    }
    text
}

} // verus!
