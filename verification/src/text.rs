//! Reading text: character classes, unsigned numbers, trimming and
//! splitting, all over sequences of characters.

use vstd::prelude::*;

verus! {

/// Why a text is not an unsigned number that fits.
#[derive(Debug, Clone, Copy, PartialEq, Eq, Structural)]
pub enum NumberError {
    /// The text is empty.
    Empty,
    /// A character is not a digit, or a sign stands alone.
    InvalidDigit,
    /// The digits read so far already exceed the largest allowed value.
    TooLarge,
}

/// An ASCII decimal digit.
pub open spec fn is_digit(c: char) -> bool {
    0x30 <= c as u32 <= 0x39
}

/// The number that a decimal digit stands for.
pub open spec fn digit_value(c: char) -> nat {
    (c as u32 - 0x30) as nat
}

/// An ASCII hexadecimal digit, in either case.
pub open spec fn is_hex_digit(c: char) -> bool {
    is_digit(c) || 0x41 <= c as u32 <= 0x46 || 0x61 <= c as u32 <= 0x66
}

/// The number that a hexadecimal digit stands for.
pub open spec fn hex_digit_value(c: char) -> nat {
    if is_digit(c) {
        (c as u32 - 0x30) as nat
    } else if 0x41 <= c as u32 <= 0x46 {
        (c as u32 - 0x41 + 10) as nat
    } else {
        (c as u32 - 0x61 + 10) as nat
    }
}

/// A character with the Unicode property White_Space.
pub open spec fn is_space(c: char) -> bool {
    let u = c as u32;
    ||| 0x09 <= u <= 0x0D
    ||| u == 0x20
    ||| u == 0x85
    ||| u == 0xA0
    ||| u == 0x1680
    ||| 0x2000 <= u <= 0x200A
    ||| u == 0x2028
    ||| u == 0x2029
    ||| u == 0x202F
    ||| u == 0x205F
    ||| u == 0x3000
}

/// Every character of `s` is a decimal digit.
pub open spec fn all_digits(s: Seq<char>) -> bool {
    forall|i: int| 0 <= i < s.len() ==> is_digit(#[trigger] s[i])
}

/// Every character of `s` is a hexadecimal digit.
pub open spec fn all_hex_digits(s: Seq<char>) -> bool {
    forall|i: int| 0 <= i < s.len() ==> is_hex_digit(#[trigger] s[i])
}

/// The number that a sequence of decimal digits denotes, most significant
/// digit first. The empty sequence denotes zero.
pub open spec fn decimal_value(digits: Seq<char>) -> nat
    decreases digits.len(),
{
    if digits.len() == 0 {
        0
    } else {
        decimal_value(digits.drop_last()) * 10 + digit_value(digits.last())
    }
}

/// The number that a sequence of hexadecimal digits denotes, most
/// significant digit first.
pub open spec fn hex_value(digits: Seq<char>) -> nat
    decreases digits.len(),
{
    if digits.len() == 0 {
        0
    } else {
        hex_value(digits.drop_last()) * 16 + hex_digit_value(digits.last())
    }
}

/// How many decimal digits `s` begins with.
pub open spec fn leading_digits(s: Seq<char>) -> nat
    decreases s.len(),
{
    if s.len() > 0 && is_digit(s[0]) {
        1 + leading_digits(s.skip(1))
    } else {
        0
    }
}

/// What remains of a number's text once an optional leading `+` is taken
/// off.
pub open spec fn unsigned_digits(text: Seq<char>) -> Seq<char> {
    if text.len() > 0 && text[0] == '+' {
        text.skip(1)
    } else {
        text
    }
}

/// The unsigned decimal number that `text` spells, if it is one and does
/// not exceed `max`.
///
/// A number is an optional `+` followed by one or more decimal digits and
/// nothing else. Reading stops at the first fault met from the left: where
/// the digits up to a foreign character already exceed `max` the text is
/// `TooLarge`, otherwise a foreign character (or a missing digit) makes it
/// `InvalidDigit`.
pub open spec fn unsigned_number(text: Seq<char>, max: nat) -> Result<nat, NumberError> {
    let digits = unsigned_digits(text);
    let read = digits.take(leading_digits(digits) as int);
    if text.len() == 0 {
        Err(NumberError::Empty)
    } else if decimal_value(read) > max {
        Err(NumberError::TooLarge)
    } else if digits.len() == 0 || read.len() < digits.len() {
        Err(NumberError::InvalidDigit)
    } else {
        Ok(decimal_value(digits))
    }
}

/// `s` without the white space it begins with.
pub open spec fn trim_start(s: Seq<char>) -> Seq<char>
    decreases s.len(),
{
    if s.len() > 0 && is_space(s[0]) {
        trim_start(s.skip(1))
    } else {
        s
    }
}

/// `s` without the white space it ends with.
pub open spec fn trim_end(s: Seq<char>) -> Seq<char>
    decreases s.len(),
{
    if s.len() > 0 && is_space(s.last()) {
        trim_end(s.drop_last())
    } else {
        s
    }
}

/// `s` without the white space at either end.
pub open spec fn trimmed(s: Seq<char>) -> Seq<char> {
    trim_end(trim_start(s))
}

/// The position of the first `sep` in `s`, or the length of `s` where it
/// holds none.
pub open spec fn first_index(s: Seq<char>, sep: char) -> nat
    decreases s.len(),
{
    if s.len() == 0 || s[0] == sep {
        0
    } else {
        1 + first_index(s.skip(1), sep)
    }
}

/// The pieces of `s` between occurrences of `sep`, in order. A text without
/// `sep` is a single piece; pieces may be empty.
pub open spec fn pieces(s: Seq<char>, sep: char) -> Seq<Seq<char>>
    decreases s.len(),
{
    let at = first_index(s, sep) as int;
    if at >= s.len() {
        seq![s]
    } else {
        seq![s.take(at)] + pieces(s.skip(at + 1), sep)
    }
}

/// `leading_digits` counts exactly the digits before the first character
/// that is none.
pub proof fn lemma_leading_digits(s: Seq<char>, count: int)
    requires
        0 <= count <= s.len(),
        all_digits(s.take(count)),
        count == s.len() || !is_digit(s[count]),
    ensures
        leading_digits(s) == count,
    decreases count,
{
    if count == 0 {
    } else {
        assert(s.take(count)[0] == s[0]);
        let rest = s.skip(1);
        assert forall|i: int| 0 <= i < count - 1 implies is_digit(
            #[trigger] rest.take(count - 1)[i],
        ) by {
            assert(rest.take(count - 1)[i] == s.take(count)[i + 1]);
        }
        lemma_leading_digits(rest, count - 1);
    }
}

/// Reading more digits never gives a smaller number.
pub proof fn lemma_decimal_value_grows(digits: Seq<char>, shorter: int, longer: int)
    requires
        0 <= shorter <= longer <= digits.len(),
    ensures
        decimal_value(digits.take(shorter)) <= decimal_value(digits.take(longer)),
    decreases longer - shorter,
{
    if shorter < longer {
        lemma_decimal_value_grows(digits, shorter, longer - 1);
        assert(digits.take(longer).drop_last() =~= digits.take(longer - 1));
    }
}

/// The characters of a string, in order.
pub fn chars_of(s: &str) -> (out: Vec<char>)
    ensures
        out@ == s@,
{
    let mut out: Vec<char> = Vec::new();
    for c in it: s.chars()
        invariant
            it.seq() == s@,
            out@ == it.seq().take(it.index() as int),
    {
        out.push(c);
    }
    out
}

/// Whether `text` is the string `word`, character by character.
pub fn spells(text: &[char], word: &str) -> (same: bool)
    ensures
        same == (text@ == word@),
{
    let want = chars_of(word);
    if text.len() != want.len() {
        return false;
    }
    let mut i: usize = 0;
    while i < text.len()
        invariant
            i <= text.len(),
            text.len() == want.len(),
            want@ == word@,
            forall|j: int| 0 <= j < i ==> text@[j] == want@[j],
        decreases text.len() - i,
    {
        if text[i] != want[i] {
            return false;
        }
        i += 1;
    }
    assert(text@ =~= want@);
    true
}

/// The value of a decimal digit, or `None` for any other character.
pub fn decimal_digit(c: char) -> (value: Option<u8>)
    ensures
        value is Some == is_digit(c),
        value matches Some(v) ==> v == digit_value(c),
{
    let u = c as u32;
    if 0x30 <= u && u <= 0x39 {
        Some((u - 0x30) as u8)
    } else {
        None
    }
}

/// The value of a hexadecimal digit, or `None` for any other character.
pub fn hex_digit(c: char) -> (value: Option<u8>)
    ensures
        value is Some == is_hex_digit(c),
        value matches Some(v) ==> v == hex_digit_value(c),
{
    let u = c as u32;
    if 0x30 <= u && u <= 0x39 {
        Some((u - 0x30) as u8)
    } else if 0x41 <= u && u <= 0x46 {
        Some((u - 0x41 + 10) as u8)
    } else if 0x61 <= u && u <= 0x66 {
        Some((u - 0x61 + 10) as u8)
    } else {
        None
    }
}

/// Whether a character is white space.
pub fn is_whitespace(c: char) -> (space: bool)
    ensures
        space == is_space(c),
{
    let u = c as u32;
    (0x09 <= u && u <= 0x0D) || u == 0x20 || u == 0x85 || u == 0xA0 || u == 0x1680 || (0x2000 <= u
        && u <= 0x200A) || u == 0x2028 || u == 0x2029 || u == 0x202F || u == 0x205F || u == 0x3000
}

/// Reads an unsigned decimal number no larger than `max`.
pub fn parse_unsigned(text: &[char], max: u32) -> (number: Result<u32, NumberError>)
    ensures
        match number {
            Ok(n) => unsigned_number(text@, max as nat) == Ok::<nat, NumberError>(n as nat),
            Err(e) => unsigned_number(text@, max as nat) == Err::<nat, NumberError>(e),
        },
{
    let len = text.len();
    if len == 0 {
        return Err(NumberError::Empty);
    }
    let start: usize = if text[0] == '+' {
        1
    } else {
        0
    };
    let ghost digits = unsigned_digits(text@);
    assert(digits == text@.skip(start as int));
    let mut value: u32 = 0;
    let mut i: usize = start;
    assert(digits.take(0) =~= Seq::<char>::empty());
    while i < len
        invariant
            start <= i <= len,
            len == text@.len(),
            digits == text@.skip(start as int),
            digits == unsigned_digits(text@),
            all_digits(digits.take(i - start)),
            value == decimal_value(digits.take(i - start)),
            value <= max,
        decreases len - i,
    {
        let ghost read = digits.take(i - start);
        let ghost next = digits.take(i - start + 1);
        assert(next.drop_last() =~= read);
        assert(next.last() == text@[i as int]);
        assert(digits[i - start] == text@[i as int]);
        assert(decimal_value(next) == decimal_value(read) * 10 + digit_value(text@[i as int]));
        match decimal_digit(text[i]) {
            None => {
                proof {
                    lemma_leading_digits(digits, i - start);
                }
                return Err(NumberError::InvalidDigit);
            },
            Some(d) => {
                assert(all_digits(next)) by {
                    assert forall|j: int| 0 <= j < next.len() implies is_digit(
                        #[trigger] next[j],
                    ) by {
                        if j < read.len() {
                            assert(next[j] == read[j]);
                        }
                    }
                }
                let grown: u64 = value as u64 * 10 + d as u64;
                if grown > max as u64 {
                    proof {
                        lemma_leading_digits_reach(digits, i - start + 1);
                        lemma_decimal_value_grows(
                            digits,
                            i - start + 1,
                            leading_digits(digits) as int,
                        );
                    }
                    return Err(NumberError::TooLarge);
                }
                value = grown as u32;
                i += 1;
            },
        }
    }
    proof {
        assert(digits.take(i - start) =~= digits);
        lemma_leading_digits(digits, i - start);
    }
    if start == len {
        return Err(NumberError::InvalidDigit);
    }
    Ok(value)
}

/// Where the first `count` characters are digits, `leading_digits` counts
/// at least that many.
pub proof fn lemma_leading_digits_reach(s: Seq<char>, count: int)
    requires
        0 <= count <= s.len(),
        all_digits(s.take(count)),
    ensures
        leading_digits(s) >= count,
        leading_digits(s) <= s.len(),
    decreases s.len(),
{
    if s.len() == 0 {
    } else if count == 0 {
        if is_digit(s[0]) {
            assert(s.skip(1).take(0) =~= Seq::<char>::empty());
            lemma_leading_digits_reach(s.skip(1), 0);
        }
    } else {
        assert(s.take(count)[0] == s[0]);
        let rest = s.skip(1);
        assert forall|i: int| 0 <= i < count - 1 implies is_digit(
            #[trigger] rest.take(count - 1)[i],
        ) by {
            assert(rest.take(count - 1)[i] == s.take(count)[i + 1]);
        }
        lemma_leading_digits_reach(rest, count - 1);
    }
}

/// The range of `text` that is left when the white space at both ends is
/// taken off.
pub fn trim(text: &[char]) -> (range: (usize, usize))
    ensures
        range.0 <= range.1 <= text@.len(),
        text@.subrange(range.0 as int, range.1 as int) == trimmed(text@),
{
    let len = text.len();
    let mut start: usize = 0;
    assert(text@.skip(0) =~= text@);
    while start < len && is_whitespace(text[start])
        invariant
            start <= len,
            len == text@.len(),
            trim_start(text@) == trim_start(text@.skip(start as int)),
        decreases len - start,
    {
        assert(text@.skip(start as int).skip(1) =~= text@.skip(start + 1));
        start += 1;
    }
    let ghost kept = text@.skip(start as int);
    assert(trim_start(text@) == kept);
    let mut end: usize = len;
    assert(text@.subrange(start as int, len as int) =~= kept);
    while end > start && is_whitespace(text[end - 1])
        invariant
            start <= end <= len,
            len == text@.len(),
            trim_end(kept) == trim_end(text@.subrange(start as int, end as int)),
        decreases end,
    {
        assert(text@.subrange(start as int, end as int).drop_last() =~= text@.subrange(
            start as int,
            end - 1,
        ));
        end -= 1;
    }
    (start, end)
}

/// The ranges of `text` that lie between occurrences of `sep`.
pub fn split(text: &[char], sep: char) -> (ranges: Vec<(usize, usize)>)
    ensures
        ranges@.len() == pieces(text@, sep).len(),
        forall|k: int|
            0 <= k < ranges@.len() ==> {
                &&& (#[trigger] ranges@[k]).0 <= ranges@[k].1 <= text@.len()
                &&& text@.subrange(ranges@[k].0 as int, ranges@[k].1 as int) == pieces(
                    text@,
                    sep,
                )[k]
            },
{
    let len = text.len();
    let mut ranges: Vec<(usize, usize)> = Vec::new();
    let mut start: usize = 0;
    let mut i: usize = 0;
    let ghost mut done: Seq<Seq<char>> = Seq::empty();
    assert(text@.skip(0) =~= text@);
    while i < len
        invariant
            start <= i <= len,
            len == text@.len(),
            ranges@.len() == done.len(),
            pieces(text@, sep) == done + pieces(text@.skip(start as int), sep),
            forall|j: int| start <= j < i ==> text@[j] != sep,
            forall|k: int|
                0 <= k < ranges@.len() ==> {
                    &&& (#[trigger] ranges@[k]).0 <= ranges@[k].1 <= text@.len()
                    &&& text@.subrange(ranges@[k].0 as int, ranges@[k].1 as int) == done[k]
                },
        decreases len - i,
    {
        if text[i] == sep {
            proof {
                let rest = text@.skip(start as int);
                lemma_first_index(rest, sep, i - start);
                assert(rest.take(i - start) =~= text@.subrange(start as int, i as int));
                assert(rest.skip(i - start + 1) =~= text@.skip(i + 1));
                let piece = text@.subrange(start as int, i as int);
                assert(done + (seq![piece] + pieces(text@.skip(i + 1), sep)) =~= done.push(piece)
                    + pieces(text@.skip(i + 1), sep));
                done = done.push(piece);
            }
            ranges.push((start, i));
            start = i + 1;
        }
        i += 1;
    }
    proof {
        let rest = text@.skip(start as int);
        lemma_first_index(rest, sep, len - start);
        assert(rest =~= text@.subrange(start as int, len as int));
        assert(done + seq![rest] =~= done.push(rest));
        done = done.push(rest);
    }
    ranges.push((start, len));
    ranges
}

/// `first_index` is the position before which no `sep` stands and at which
/// one does, or the text ends.
pub proof fn lemma_first_index(s: Seq<char>, sep: char, at: int)
    requires
        0 <= at <= s.len(),
        forall|j: int| 0 <= j < at ==> s[j] != sep,
        at == s.len() || s[at] == sep,
    ensures
        first_index(s, sep) == at,
    decreases at,
{
    if at > 0 {
        lemma_first_index(s.skip(1), sep, at - 1);
    }
}

/// The character of a decimal digit.
pub open spec fn digit_char(d: nat) -> char {
    ((0x30 + d) as u8) as char
}

/// The character of a hexadecimal digit, in lower case.
pub open spec fn hex_char(d: nat) -> char {
    if d < 10 {
        digit_char(d)
    } else {
        ((0x61 + d - 10) as u8) as char
    }
}

/// A byte written as two hexadecimal digits.
pub open spec fn hex_pair(value: u8) -> Seq<char> {
    seq![hex_char(value as nat / 16), hex_char(value as nat % 16)]
}

/// Written as two hexadecimal digits, a byte reads back as itself.
pub proof fn lemma_hex_pair(value: u8)
    ensures
        hex_pair(value).len() == 2,
        all_hex_digits(hex_pair(value)),
        hex_value(hex_pair(value)) == value,
{
    let pair = hex_pair(value);
    let high = value as nat / 16;
    let low = value as nat % 16;
    assert(hex_char(high) as u32 == if high < 10 {
        0x30 + high as int
    } else {
        0x61 + high as int - 10
    });
    assert(hex_char(low) as u32 == if low < 10 {
        0x30 + low as int
    } else {
        0x61 + low as int - 10
    });
    assert(is_hex_digit(pair[0]) && hex_digit_value(pair[0]) == high);
    assert(is_hex_digit(pair[1]) && hex_digit_value(pair[1]) == low);
    reveal_with_fuel(hex_value, 3);
    assert(pair.drop_last().drop_last() =~= Seq::<char>::empty());
    assert(pair.drop_last().last() == pair[0]);
    assert(pair.last() == pair[1]);
}

/// The usual way to write `n` in decimal: no sign, no leading zero.
pub open spec fn decimal_digits(n: nat) -> Seq<char>
    decreases n,
{
    if n < 10 {
        seq![digit_char(n)]
    } else {
        decimal_digits(n / 10).push(digit_char(n % 10))
    }
}

/// Where `leading_digits` reaches the end, every character is a digit.
pub proof fn lemma_leading_digits_whole(s: Seq<char>)
    requires
        leading_digits(s) >= s.len(),
    ensures
        all_digits(s),
    decreases s.len(),
{
    if s.len() > 0 {
        let rest = s.skip(1);
        lemma_leading_digits_whole(rest);
        assert forall|i: int| 0 <= i < s.len() implies is_digit(#[trigger] s[i]) by {
            if i > 0 {
                assert(rest[i - 1] == s[i]);
            }
        }
    }
}

/// A text made of digits only is the number that its digits denote, where
/// that is not too large.
pub proof fn lemma_digits_are_a_number(digits: Seq<char>, max: nat)
    requires
        digits.len() > 0,
        all_digits(digits),
    ensures
        unsigned_number(digits, max) == if decimal_value(digits) <= max {
            Ok::<nat, NumberError>(decimal_value(digits))
        } else {
            Err::<nat, NumberError>(NumberError::TooLarge)
        },
{
    assert(is_digit(digits[0]));
    assert(digits.take(digits.len() as int) =~= digits);
    lemma_leading_digits(digits, digits.len() as int);
}

/// A number that was read does not exceed the largest allowed value.
pub proof fn lemma_number_fits(text: Seq<char>, max: nat)
    ensures
        unsigned_number(text, max) matches Ok(n) ==> n <= max,
{
    let digits = unsigned_digits(text);
    if unsigned_number(text, max) is Ok {
        lemma_leading_digits_reach(digits, 0);
        assert(digits.take(leading_digits(digits) as int) =~= digits);
    }
}

/// Every character of a number is a digit, but for a `+` that may stand
/// first.
pub proof fn lemma_number_characters(text: Seq<char>, max: nat)
    requires
        unsigned_number(text, max) is Ok,
    ensures
        text.len() > 0,
        forall|i: int|
            0 <= i < text.len() ==> is_digit(#[trigger] text[i]) || (i == 0 && text[i] == '+'),
{
    let digits = unsigned_digits(text);
    lemma_leading_digits_reach(digits, 0);
    lemma_leading_digits_whole(digits);
    assert forall|i: int| 0 <= i < text.len() implies is_digit(#[trigger] text[i]) || (i == 0
        && text[i] == '+') by {
        if text[0] == '+' {
            if i > 0 {
                assert(digits[i - 1] == text[i]);
            }
        } else {
            assert(digits[i] == text[i]);
        }
    }
}

/// A text that holds a character which is neither a digit nor a leading
/// `+` is no number.
pub proof fn lemma_foreign_character(text: Seq<char>, max: nat, at: int)
    requires
        0 <= at < text.len(),
        !is_digit(text[at]),
        at > 0 || text[at] != '+',
    ensures
        unsigned_number(text, max) is Err,
{
    if unsigned_number(text, max) is Ok {
        lemma_number_characters(text, max);
    }
}

/// Written the usual way, a number reads back as itself.
pub proof fn lemma_decimal_digits(n: nat)
    ensures
        decimal_digits(n).len() > 0,
        all_digits(decimal_digits(n)),
        decimal_value(decimal_digits(n)) == n,
    decreases n,
{
    let digits = decimal_digits(n);
    if n < 10 {
        assert(digits.drop_last() =~= Seq::<char>::empty());
        assert(digits.last() == digit_char(n));
        assert(digit_char(n) as u32 == 0x30 + n);
        reveal_with_fuel(decimal_value, 2);
    } else {
        lemma_decimal_digits(n / 10);
        let front = decimal_digits(n / 10);
        assert(digits.drop_last() =~= front);
        assert(digits.last() == digit_char(n % 10));
        assert(digit_char(n % 10) as u32 == 0x30 + n % 10);
        assert forall|i: int| 0 <= i < digits.len() implies is_digit(#[trigger] digits[i]) by {
            if i < front.len() {
                assert(digits[i] == front[i]);
            }
        }
    }
}

/// Each character of a text is white space or is still there when the text
/// is trimmed.
pub proof fn lemma_trimmed_characters(s: Seq<char>, at: int)
    requires
        0 <= at < s.len(),
    ensures
        is_space(s[at]) || trimmed(s).contains(s[at]),
{
    lemma_trim_start_characters(s, at);
    if !is_space(s[at]) {
        let front = trim_start(s);
        let k = choose|k: int| 0 <= k < front.len() && front[k] == s[at];
        lemma_trim_end_characters(front, k);
    }
}

proof fn lemma_trim_start_characters(s: Seq<char>, at: int)
    requires
        0 <= at < s.len(),
    ensures
        is_space(s[at]) || trim_start(s).contains(s[at]),
    decreases s.len(),
{
    if is_space(s[0]) {
        if at > 0 {
            assert(s.skip(1)[at - 1] == s[at]);
            lemma_trim_start_characters(s.skip(1), at - 1);
        }
    } else {
        assert(trim_start(s)[at] == s[at]);
    }
}

proof fn lemma_trim_end_characters(s: Seq<char>, at: int)
    requires
        0 <= at < s.len(),
    ensures
        is_space(s[at]) || trim_end(s).contains(s[at]),
    decreases s.len(),
{
    if is_space(s.last()) {
        if at < s.len() - 1 {
            assert(s.drop_last()[at] == s[at]);
            lemma_trim_end_characters(s.drop_last(), at);
        }
    } else {
        assert(trim_end(s)[at] == s[at]);
    }
}

/// A text that does not hold `sep` is one piece.
pub proof fn lemma_one_piece(s: Seq<char>, sep: char)
    requires
        !s.contains(sep),
    ensures
        pieces(s, sep) == seq![s],
{
    assert forall|j: int| 0 <= j < s.len() implies s[j] != sep by {
        if s[j] == sep {
            assert(s.contains(sep));
        }
    }
    lemma_first_index(s, sep, s.len() as int);
}

/// The pieces of a text that begins with a piece free of `sep`, then `sep`,
/// are that piece and the pieces of what follows.
pub proof fn lemma_first_piece(head: Seq<char>, tail: Seq<char>, sep: char)
    requires
        !head.contains(sep),
    ensures
        pieces(head + seq![sep] + tail, sep) == seq![head] + pieces(tail, sep),
{
    let s = head + seq![sep] + tail;
    assert forall|j: int| 0 <= j < head.len() implies s[j] != sep by {
        assert(s[j] == head[j]);
        if head[j] == sep {
            assert(head.contains(sep));
        }
    }
    assert(s[head.len() as int] == sep);
    lemma_first_index(s, sep, head.len() as int);
    assert(s.take(head.len() as int) =~= head);
    assert(s.skip(head.len() as int + 1) =~= tail);
}

} // verus!
