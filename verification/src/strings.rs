//! Taking text apart: trimming, splitting and reading numbers.
use vstd::prelude::*;

verus! {

/// What counts as white space in Unicode.
pub open spec fn is_white(c: char) -> bool {
    let code = c as int;
    9 <= code <= 13 || code == 0x20 || code == 0x85 || code == 0xa0 || code == 0x1680 || 0x2000
        <= code <= 0x200a || code == 0x2028 || code == 0x2029 || code == 0x202f || code == 0x205f
        || code == 0x3000
}

/// Returns whether a character is white space.
pub fn is_white_space(c: char) -> (white: bool)
    ensures
        white == is_white(c),
{
    let code: u32 = c as u32;
    (9 <= code && code <= 13) || code == 0x20 || code == 0x85 || code == 0xa0 || code == 0x1680 || (
    0x2000 <= code && code <= 0x200a) || code == 0x2028 || code == 0x2029 || code == 0x202f || code
        == 0x205f || code == 0x3000
}

/// `text` without the white space that it starts with.
pub open spec fn without_leading_space(text: Seq<char>) -> Seq<char>
    decreases text.len(),
{
    if text.len() > 0 && is_white(text[0]) {
        without_leading_space(text.skip(1))
    } else {
        text
    }
}

/// `text` without the white space that it ends with.
pub open spec fn without_trailing_space(text: Seq<char>) -> Seq<char>
    decreases text.len(),
{
    if text.len() > 0 && is_white(text.last()) {
        without_trailing_space(text.drop_last())
    } else {
        text
    }
}

/// `text` without the white space around it.
pub open spec fn trimmed(text: Seq<char>) -> Seq<char> {
    without_trailing_space(without_leading_space(text))
}

/// `text` without the leading characters that are `c`.
pub open spec fn without_leading(text: Seq<char>, c: char) -> Seq<char>
    decreases text.len(),
{
    if text.len() > 0 && text[0] == c {
        without_leading(text.skip(1), c)
    } else {
        text
    }
}

/// Where `c` first is in `text`.
pub open spec fn first_of(text: Seq<char>, c: char) -> Option<int>
    decreases text.len(),
{
    if text.len() == 0 {
        None
    } else if text[0] == c {
        Some(0)
    } else {
        match first_of(text.skip(1), c) {
            Some(i) => Some(i + 1),
            None => None,
        }
    }
}

/// `text` starts with `prefix`.
pub open spec fn starts(text: Seq<char>, prefix: Seq<char>) -> bool {
    prefix.len() <= text.len() && text.take(prefix.len() as int) == prefix
}

/// `text` ends with `suffix`.
pub open spec fn ends(text: Seq<char>, suffix: Seq<char>) -> bool {
    suffix.len() <= text.len() && text.skip(text.len() - suffix.len()) == suffix
}

/// What lies between the separators in `text`; `current` precedes it.
pub open spec fn pieces_from(text: Seq<char>, separator: char, current: Seq<char>) -> Seq<Seq<char>>
    decreases text.len(),
{
    if text.len() == 0 {
        seq![current]
    } else if text[0] == separator {
        seq![current] + pieces_from(text.skip(1), separator, Seq::empty())
    } else {
        pieces_from(text.skip(1), separator, current.push(text[0]))
    }
}

/// What lies between the separators in `text`. There is always one piece more than separators.
pub open spec fn pieces(text: Seq<char>, separator: char) -> Seq<Seq<char>> {
    pieces_from(text, separator, Seq::empty())
}

/// The views of `rows`.
pub open spec fn rows(rows: Seq<Vec<char>>) -> Seq<Seq<char>> {
    Seq::new(rows.len(), |i: int| rows[i]@)
}

/// Copies a range of characters.
pub fn copy_chars(chars: &[char], from: usize, to: usize) -> (copy: Vec<char>)
    requires
        from <= to <= chars@.len(),
    ensures
        copy@ == chars@.subrange(from as int, to as int),
{
    let mut copy: Vec<char> = Vec::new();
    let mut i: usize = from;
    while i < to
        invariant
            from <= i <= to <= chars@.len(),
            copy@ == chars@.subrange(from as int, i as int),
        decreases to - i,
    {
        copy.push(chars[i]);
        assert(chars@.subrange(from as int, i + 1) =~= chars@.subrange(from as int, i as int).push(
            chars@[i as int],
        ));
        i = i + 1;
    }
    copy
}

/// Returns `chars` without the white space around it.
pub fn trim(chars: &[char]) -> (rest: Vec<char>)
    ensures
        rest@ == trimmed(chars@),
{
    let total: usize = chars.len();
    let mut from: usize = 0;
    assert(chars@.skip(0) =~= chars@);
    while from < total && is_white_space(chars[from])
        invariant
            from <= total == chars@.len(),
            without_leading_space(chars@) == without_leading_space(chars@.skip(from as int)),
        decreases total - from,
    {
        assert(chars@.skip(from as int).skip(1) =~= chars@.skip(from + 1));
        from = from + 1;
    }
    let mut to: usize = total;
    let ghost body = chars@.skip(from as int);
    assert(without_leading_space(chars@) == body);
    assert(chars@.subrange(from as int, to as int) =~= body);
    while from < to && is_white_space(chars[to - 1])
        invariant
            from <= to <= total == chars@.len(),
            body == chars@.skip(from as int),
            without_trailing_space(body) == without_trailing_space(
                chars@.subrange(from as int, to as int),
            ),
        decreases to - from,
    {
        assert(chars@.subrange(from as int, to as int).drop_last() =~= chars@.subrange(
            from as int,
            to - 1,
        ));
        to = to - 1;
    }
    copy_chars(chars, from, to)
}

/// Returns `chars` without the leading characters that are `c`.
pub fn trim_start_matches(chars: &[char], c: char) -> (rest: Vec<char>)
    ensures
        rest@ == without_leading(chars@, c),
{
    let total: usize = chars.len();
    let mut from: usize = 0;
    assert(chars@.skip(0) =~= chars@);
    while from < total && chars[from] == c
        invariant
            from <= total == chars@.len(),
            without_leading(chars@, c) == without_leading(chars@.skip(from as int), c),
        decreases total - from,
    {
        assert(chars@.skip(from as int).skip(1) =~= chars@.skip(from + 1));
        from = from + 1;
    }
    assert(chars@.subrange(from as int, total as int) =~= chars@.skip(from as int));
    copy_chars(chars, from, total)
}

/// Returns where `c` first is.
pub fn find_char(chars: &[char], c: char) -> (found: Option<usize>)
    ensures
        match found {
            Some(i) => first_of(chars@, c) == Some(i as int),
            None => first_of(chars@, c) is None,
        },
        found matches Some(i) ==> i < chars@.len(),
{
    let mut i: usize = 0;
    let ghost shift = |found: Option<int>, by: int| -> Option<int> {
        match found {
            Some(k) => Some(k + by),
            None => None,
        }
    };
    assert(chars@.skip(0) =~= chars@);
    while i < chars.len()
        invariant
            i <= chars@.len(),
            shift == (|found: Option<int>, by: int| -> Option<int> {
                match found {
                    Some(k) => Some(k + by),
                    None => None,
                }
            }),
            first_of(chars@, c) == shift(first_of(chars@.skip(i as int), c), i as int),
        decreases chars@.len() - i,
    {
        if chars[i] == c {
            return Some(i);
        }
        assert(chars@.skip(i as int).skip(1) =~= chars@.skip(i + 1));
        i = i + 1;
    }
    None
}

/// Returns whether `chars` starts with `prefix`.
pub fn starts_with(chars: &[char], prefix: &[char]) -> (result: bool)
    ensures
        result == starts(chars@, prefix@),
{
    if prefix.len() > chars.len() {
        return false;
    }
    let mut i: usize = 0;
    while i < prefix.len()
        invariant
            i <= prefix@.len() <= chars@.len(),
            chars@.take(i as int) =~= prefix@.take(i as int),
        decreases prefix@.len() - i,
    {
        if chars[i] != prefix[i] {
            assert(chars@.take(prefix@.len() as int)[i as int] != prefix@[i as int]);
            return false;
        }
        assert(chars@.take(i + 1) =~= chars@.take(i as int).push(chars@[i as int]));
        assert(prefix@.take(i + 1) =~= prefix@.take(i as int).push(prefix@[i as int]));
        i = i + 1;
    }
    assert(prefix@.take(i as int) =~= prefix@);
    true
}

/// Splits `chars` at every separator.
pub fn split(chars: &[char], separator: char) -> (result: Vec<Vec<char>>)
    ensures
        rows(result@) == pieces(chars@, separator),
{
    let mut result: Vec<Vec<char>> = Vec::new();
    let mut current: Vec<char> = Vec::new();
    let mut i: usize = 0;
    assert(chars@.skip(0) =~= chars@);
    assert(rows(result@) + pieces(chars@, separator) =~= pieces(chars@, separator));
    while i < chars.len()
        invariant
            i <= chars@.len(),
            pieces(chars@, separator) == rows(result@) + pieces_from(
                chars@.skip(i as int),
                separator,
                current@,
            ),
        decreases chars@.len() - i,
    {
        let c = chars[i];
        assert(chars@.skip(i as int).skip(1) =~= chars@.skip(i + 1));
        if c == separator {
            let ghost before = rows(result@);
            let ghost rest = pieces_from(chars@.skip(i + 1), separator, Seq::empty());
            result.push(current);
            proof {
                assert(rows(result@) =~= before.push(current@));
                assert(before + (seq![current@] + rest) =~= before.push(current@) + rest);
            }
            current = Vec::new();
            assert(current@ =~= Seq::<char>::empty());
        } else {
            current.push(c);
        }
        i = i + 1;
    }
    let ghost before = rows(result@);
    let ghost last = current@;
    result.push(current);
    assert(rows(result@) =~= before + seq![last]);
    result
}

// ---------------------------------------------------------------------------------------------
// Numbers
// ---------------------------------------------------------------------------------------------

/// Why text is not a number.
#[derive(Clone, Copy, Debug, PartialEq, Eq, Structural)]
pub enum NumberError {
    Empty,
    InvalidDigit,
    TooLarge,
}

/// The value of a digit. Letters stand for ten and up.
pub open spec fn digit_value(c: char, radix: nat) -> Option<nat> {
    let code = c as int;
    let value = if 48 <= code <= 57 {
        code - 48
    } else if 97 <= code <= 122 {
        code - 87
    } else if 65 <= code <= 90 {
        code - 55
    } else {
        36
    };
    if value < radix {
        Some(value as nat)
    } else {
        None
    }
}

/// The number that `digits` continue `value` to. Digits are looked at from the left, so the first
/// one that spoils the number says why.
pub open spec fn number_from(digits: Seq<char>, radix: nat, max: nat, value: nat) -> Result<
    nat,
    NumberError,
>
    decreases digits.len(),
{
    if digits.len() == 0 {
        Ok(value)
    } else {
        match digit_value(digits[0], radix) {
            None => Err(NumberError::InvalidDigit),
            Some(d) => if value * radix + d > max {
                Err(NumberError::TooLarge)
            } else {
                number_from(digits.skip(1), radix, max, value * radix + d)
            },
        }
    }
}

/// The number that `text` stands for: digits, perhaps with a plus sign before them.
pub open spec fn number(text: Seq<char>, radix: nat, max: nat) -> Result<nat, NumberError> {
    if text.len() == 0 {
        Err(NumberError::Empty)
    } else if text[0] == '+' && text.len() > 1 {
        number_from(text.skip(1), radix, max, 0)
    } else {
        number_from(text, radix, max, 0)
    }
}

fn value_of_digit(c: char, radix: u64) -> (value: Option<u64>)
    requires
        radix <= 16,
    ensures
        match value {
            Some(d) => digit_value(c, radix as nat) == Some(d as nat) && d < radix,
            None => digit_value(c, radix as nat) is None,
        },
{
    let code: u32 = c as u32;
    let value: u64 = if 48 <= code && code <= 57 {
        (code - 48) as u64
    } else if 97 <= code && code <= 122 {
        (code - 87) as u64
    } else if 65 <= code && code <= 90 {
        (code - 55) as u64
    } else {
        36
    };
    if value < radix {
        Some(value)
    } else {
        None
    }
}

/// Reads a number no larger than `max`.
pub fn parse_number(chars: &[char], radix: u64, max: u64) -> (result: Result<u64, NumberError>)
    requires
        2 <= radix <= 16,
    ensures
        match result {
            Ok(value) => number(chars@, radix as nat, max as nat) == Ok::<nat, NumberError>(
                value as nat,
            ),
            Err(e) => number(chars@, radix as nat, max as nat) == Err::<nat, NumberError>(e),
        },
{
    if chars.len() == 0 {
        return Err(NumberError::Empty);
    }
    let mut i: usize = if chars[0] == '+' && chars.len() > 1 {
        1
    } else {
        0
    };
    let mut value: u64 = 0;
    assert(chars@.skip(0) =~= chars@);
    while i < chars.len()
        invariant
            i <= chars@.len(),
            2 <= radix <= 16,
            number(chars@, radix as nat, max as nat) == number_from(
                chars@.skip(i as int),
                radix as nat,
                max as nat,
                value as nat,
            ),
        decreases chars@.len() - i,
    {
        assert(chars@.skip(i as int)[0] == chars@[i as int]);
        assert(chars@.skip(i as int).skip(1) =~= chars@.skip(i + 1));
        match value_of_digit(chars[i], radix) {
            None => {
                return Err(NumberError::InvalidDigit);
            },
            Some(d) => {
                assert(value * radix <= u64::MAX * 16) by (nonlinear_arith)
                    requires
                        value <= u64::MAX,
                        radix <= 16,
                ;
                let wide: u128 = value as u128 * radix as u128;
                let next: u128 = wide + d as u128;
                if next > max as u128 {
                    return Err(NumberError::TooLarge);
                }
                value = next as u64;
            },
        }
        i = i + 1;
    }
    Ok(value)
}

} // verus!
