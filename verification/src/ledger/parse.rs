//! The text of a ledger: one entry to a line, four numbers to an entry,
//! white space between them.

use vstd::prelude::*;

verus! {

/// The byte is a decimal digit.
pub open spec fn is_digit(b: u8) -> bool {
    48 <= b <= 57
}

/// Every byte is a decimal digit.
pub open spec fn all_digits(s: Seq<u8>) -> bool {
    forall|i: int| 0 <= i < s.len() ==> is_digit(#[trigger] s[i])
}

/// The number that a sequence of decimal digits writes.
pub open spec fn digits_value(s: Seq<u8>) -> int
    decreases s.len(),
{
    if s.len() == 0 {
        0
    } else {
        digits_value(s.drop_last()) * 10 + (s.last() - 48)
    }
}

/// The digits of a number's text: what follows its sign, if it has one.
pub open spec fn digits_of(s: Seq<u8>) -> Seq<u8> {
    if s.len() > 0 && (s[0] == 45 || s[0] == 43) {
        s.subrange(1, s.len() as int)
    } else {
        s
    }
}

/// The number that a text writes: an optional `+` or `-`, then one decimal
/// digit or more, with a value that an `i32` holds. Any other text writes no
/// number.
pub open spec fn parse_number(s: Seq<u8>) -> Option<i32> {
    let digits = digits_of(s);
    let value = if s.len() > 0 && s[0] == 45 {
        -digits_value(digits)
    } else {
        digits_value(digits)
    };
    if digits.len() > 0 && all_digits(digits) && i32::MIN <= value <= i32::MAX {
        Some(value as i32)
    } else {
        None
    }
}

/// The byte is white space: a space, a tab, a line feed, a vertical tab, a
/// form feed or a carriage return.
pub open spec fn is_space(b: u8) -> bool {
    b == 32 || 9 <= b <= 13
}

/// Where the white space that starts at `start` ends: at the first byte at or
/// after `start` that is not white space, or at the end of the line.
pub open spec fn skip_spaces(line: Seq<u8>, start: int) -> int
    decreases line.len() - start,
{
    if start < 0 || start >= line.len() {
        line.len() as int
    } else if !is_space(line[start]) {
        start
    } else {
        skip_spaces(line, start + 1)
    }
}

/// Where the field that starts at `start` ends: at the first white space at
/// or after `start`, or at the end of the line.
pub open spec fn field_end(line: Seq<u8>, start: int) -> int
    decreases line.len() - start,
{
    if start < 0 || start >= line.len() {
        line.len() as int
    } else if is_space(line[start]) {
        start
    } else {
        field_end(line, start + 1)
    }
}

/// Where the field with number `k` starts, counting from zero. A field is a
/// longest run of bytes that are not white space: the first starts behind the
/// white space that opens the line, each later one behind the white space
/// that follows the field before it. A line without that many fields gives
/// its end.
pub open spec fn field_start(line: Seq<u8>, k: nat) -> int
    decreases k,
{
    if k == 0 {
        skip_spaces(line, 0)
    } else {
        skip_spaces(line, field_end(line, field_start(line, (k - 1) as nat)))
    }
}

/// The text of the field with number `k`.
pub open spec fn field(line: Seq<u8>, k: nat) -> Seq<u8> {
    line.subrange(field_start(line, k), field_end(line, field_start(line, k)))
}

/// The line has a field with number `k`.
pub open spec fn has_field(line: Seq<u8>, k: nat) -> bool {
    field_start(line, k) < line.len()
}

/// A field ends at or after its start and within the line, white space or
/// the end of the line follows it, and no white space lies in it.
pub proof fn lemma_field_end(line: Seq<u8>, start: int)
    requires
        0 <= start <= line.len(),
    ensures
        start <= field_end(line, start) <= line.len(),
        field_end(line, start) < line.len() ==> is_space(line[field_end(line, start)]),
        forall|i: int| start <= i < field_end(line, start) ==> !is_space(#[trigger] line[i]),
    decreases line.len() - start,
{
    if start < line.len() && !is_space(line[start]) {
        lemma_field_end(line, start + 1);
    }
}

/// White space ends at or after its start and within the line, a byte that is
/// not white space or the end of the line follows it, and it holds white
/// space only.
pub proof fn lemma_skip_spaces(line: Seq<u8>, start: int)
    requires
        0 <= start <= line.len(),
    ensures
        start <= skip_spaces(line, start) <= line.len(),
        skip_spaces(line, start) < line.len() ==> !is_space(line[skip_spaces(line, start)]),
        forall|i: int| start <= i < skip_spaces(line, start) ==> is_space(#[trigger] line[i]),
    decreases line.len() - start,
{
    if start < line.len() && is_space(line[start]) {
        lemma_skip_spaces(line, start + 1);
    }
}

/// All but the last of a sequence of digits are digits.
proof fn lemma_digits_drop_last(s: Seq<u8>)
    requires
        all_digits(s),
        s.len() > 0,
    ensures
        all_digits(s.drop_last()),
        is_digit(s.last()),
{
    assert(is_digit(s[s.len() - 1]));
    assert forall|i: int| 0 <= i < s.drop_last().len() implies is_digit(
        #[trigger] s.drop_last()[i],
    ) by {
        assert(s.drop_last()[i] == s[i]);
    }
}

/// A sequence of digits writes a number that is not negative, and more digits
/// never write a smaller number.
pub proof fn lemma_digits_grow(s: Seq<u8>, n: int)
    requires
        all_digits(s),
        0 <= n <= s.len(),
    ensures
        0 <= digits_value(s.take(n)) <= digits_value(s),
    decreases s.len(),
{
    if s.len() == 0 || n == s.len() {
        assert(s.take(n) == s);
    }
    if s.len() > 0 {
        lemma_digits_drop_last(s);
        if n == s.len() {
            lemma_digits_grow(s.drop_last(), n - 1);
        } else {
            lemma_digits_grow(s.drop_last(), n);
            assert(s.drop_last().take(n) == s.take(n));
        }
    }
}

/// Tells whether the byte is white space.
pub fn is_space_byte(b: u8) -> (space: bool)
    ensures
        space == is_space(b),
{
    b == 32 || (9 <= b && b <= 13)
}

/// Finds the end of the white space that starts at `start`.
pub fn find_field_start(line: &[u8], start: usize) -> (at: usize)
    requires
        start <= line@.len(),
    ensures
        at == skip_spaces(line@, start as int),
        start <= at <= line@.len(),
{
    let mut at: usize = start;
    proof {
        lemma_skip_spaces(line@, start as int);
    }
    while at < line.len() && is_space_byte(line[at])
        invariant
            start <= at <= line@.len(),
            skip_spaces(line@, start as int) == skip_spaces(line@, at as int),
        decreases line@.len() - at,
    {
        at = at + 1;
    }
    at
}

/// Finds the end of the field that starts at `start`.
pub fn find_field_end(line: &[u8], start: usize) -> (end: usize)
    requires
        start <= line@.len(),
    ensures
        end == field_end(line@, start as int),
        start <= end <= line@.len(),
{
    let mut end: usize = start;
    proof {
        lemma_field_end(line@, start as int);
    }
    while end < line.len() && !is_space_byte(line[end])
        invariant
            start <= end <= line@.len(),
            field_end(line@, start as int) == field_end(line@, end as int),
        decreases line@.len() - end,
    {
        end = end + 1;
    }
    end
}

/// Reads the number that the bytes of `line` from `start` to `end` write.
pub fn read_number(line: &[u8], start: usize, end: usize) -> (number: Option<i32>)
    requires
        start <= end <= line@.len(),
    ensures
        number == parse_number(line@.subrange(start as int, end as int)),
{
    let ghost text = line@.subrange(start as int, end as int);
    if start == end {
        return None;
    }
    let first: u8 = line[start];
    assert(text[0] == first);
    let negative: bool = first == 45;
    let from: usize = if first == 45 || first == 43 {
        start + 1
    } else {
        start
    };
    let ghost digits = digits_of(text);
    assert(digits == line@.subrange(from as int, end as int));
    if from == end {
        return None;
    }
    let limit: i64 = 2147483648;
    let mut value: i64 = 0;
    let mut i: usize = from;
    assert(digits.take(0) == Seq::<u8>::empty());
    while i < end
        invariant
            start <= from <= i <= end <= line@.len(),
            text == line@.subrange(start as int, end as int),
            digits == digits_of(text),
            digits == line@.subrange(from as int, end as int),
            negative == (text.len() > 0 && text[0] == 45),
            all_digits(digits.take(i - from)),
            value == digits_value(digits.take(i - from)),
            0 <= value <= limit,
            limit == 2147483648,
        decreases end - i,
    {
        let b: u8 = line[i];
        let ghost seen = digits.take(i - from);
        let ghost more = digits.take(i - from + 1);
        assert(more.drop_last() == seen);
        assert(more.last() == b);
        assert(digits[i - from] == b);
        if b < 48 || b > 57 {
            assert(!all_digits(digits));
            return None;
        }
        assert(all_digits(more)) by {
            assert forall|j: int| 0 <= j < more.len() implies is_digit(#[trigger] more[j]) by {
                if j < seen.len() {
                    assert(seen[j] == more[j]);
                }
            }
        }
        value = value * 10 + (b - 48) as i64;
        i = i + 1;
        if value > limit {
            proof {
                if all_digits(digits) {
                    lemma_digits_grow(digits, i - from);
                }
            }
            return None;
        }
    }
    assert(digits.take(i - from) == digits);
    if negative {
        Some((-value) as i32)
    } else if value == limit {
        None
    } else {
        Some(value as i32)
    }
}

} // verus!
