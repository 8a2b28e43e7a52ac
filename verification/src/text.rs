//! Comparing and building text.
use crate::bytes::same_bytes;
use vstd::prelude::*;

verus! {

/// Returns whether two pieces of text are the same.
pub fn same_text(a: &str, b: &str) -> (same: bool)
    ensures
        same == (a@ == b@),
{
    let same = same_bytes(a.as_bytes(), b.as_bytes());
    proof {
        if vstd::utf8::encode_utf8(a@) == vstd::utf8::encode_utf8(b@) {
            vstd::utf8::encode_utf8_decode_utf8(a@);
            vstd::utf8::encode_utf8_decode_utf8(b@);
        }
    }
    same
}

// ---------------------------------------------------------------------------------------------
// Building text
// ---------------------------------------------------------------------------------------------

/// `String::push` appends one character.
pub assume_specification[ String::push ](string: &mut String, c: char)
    ensures
        final(string)@ == old(string)@.push(c),
;

/// What `String::from_utf8_lossy` makes of bytes: the text they encode, with a replacement character
/// for what is not UTF-8.
pub uninterp spec fn lossy_text(bytes: Seq<u8>) -> Seq<char>;

/// `String::from_utf8_lossy`. The text is a function of the bytes alone, and bytes that are UTF-8
/// give the text that they encode.
#[verifier::external_body]
pub(crate) fn from_utf8_lossy(bytes: &[u8]) -> (text: String)
    ensures
        text@ == lossy_text(bytes@),
        vstd::utf8::valid_utf8(bytes@) ==> text@ == vstd::utf8::decode_utf8(bytes@),
{
    String::from_utf8_lossy(bytes).into_owned()
}

/// Appends `more`.
pub fn append_text(text: &mut String, more: &str)
    ensures
        final(text)@ == old(text)@ + more@,
{
    text.append(more);
}

/// The characters of `text`.
pub fn to_chars(text: &str) -> (chars: Vec<char>)
    ensures
        chars@ == text@,
{
    let mut chars: Vec<char> = Vec::new();
    for c in iter: text.chars()
        invariant
            chars@ == text@.take(iter.index() as int),
            iter.seq() == text@,
    {
        chars.push(c);
        assert(chars@ =~= text@.take(iter.index() + 1));
    }
    assert(text@.take(text@.len() as int) =~= text@);
    chars
}

/// The text that the characters from `from` up to `to` make.
pub fn from_chars(chars: &Vec<char>, from: usize, to: usize) -> (text: String)
    requires
        from <= to <= chars@.len(),
    ensures
        text@ == chars@.subrange(from as int, to as int),
{
    let mut text = String::new();
    let mut i: usize = from;
    assert(chars@.subrange(from as int, from as int) =~= Seq::<char>::empty());
    while i < to
        invariant
            from <= i <= to <= chars@.len(),
            text@ == chars@.subrange(from as int, i as int),
        decreases to - i,
    {
        text.push(chars[i]);
        i = i + 1;
        assert(chars@.subrange(from as int, i as int) =~= chars@.subrange(
            from as int,
            i - 1,
        ).push(chars@[i - 1]));
    }
    text
}

/// Lower-case digits up to base sixteen.
pub open spec fn digit(value: nat) -> char {
    seq![
        '0',
        '1',
        '2',
        '3',
        '4',
        '5',
        '6',
        '7',
        '8',
        '9',
        'a',
        'b',
        'c',
        'd',
        'e',
        'f',
    ][value as int]
}

/// Upper-case digits up to base sixteen.
pub open spec fn upper_digit(value: nat) -> char {
    seq![
        '0',
        '1',
        '2',
        '3',
        '4',
        '5',
        '6',
        '7',
        '8',
        '9',
        'A',
        'B',
        'C',
        'D',
        'E',
        'F',
    ][value as int]
}

/// `value` in decimal.
pub open spec fn decimal(value: nat) -> Seq<char>
    decreases value,
{
    if value < 10 {
        seq![digit(value)]
    } else {
        decimal(value / 10).push(digit(value % 10))
    }
}

/// `value` in lower-case hexadecimal.
pub open spec fn hex(value: nat) -> Seq<char>
    decreases value,
{
    if value < 16 {
        seq![digit(value)]
    } else {
        hex(value / 16).push(digit(value % 16))
    }
}

/// `value` in upper-case hexadecimal.
pub open spec fn upper_hex(value: nat) -> Seq<char>
    decreases value,
{
    if value < 16 {
        seq![upper_digit(value)]
    } else {
        upper_hex(value / 16).push(upper_digit(value % 16))
    }
}

/// `value` in decimal, with a minus sign if it is negative.
pub open spec fn signed_decimal(value: int) -> Seq<char> {
    if value < 0 {
        seq!['-'] + decimal((-value) as nat)
    } else {
        decimal(value as nat)
    }
}

/// `text` with enough of `fill` in front of it to be `width` characters long.
pub open spec fn pad_left(text: Seq<char>, width: nat, fill: char) -> Seq<char> {
    if text.len() >= width {
        text
    } else {
        Seq::new((width - text.len()) as nat, |i: int| fill) + text
    }
}

fn digit_char(value: u8) -> (c: char)
    requires
        value < 16,
    ensures
        c == digit(value as nat),
{
    let digits = [
        '0',
        '1',
        '2',
        '3',
        '4',
        '5',
        '6',
        '7',
        '8',
        '9',
        'a',
        'b',
        'c',
        'd',
        'e',
        'f',
    ];
    digits[value as usize]
}

fn upper_digit_char(value: u8) -> (c: char)
    requires
        value < 16,
    ensures
        c == upper_digit(value as nat),
{
    let digits = [
        '0',
        '1',
        '2',
        '3',
        '4',
        '5',
        '6',
        '7',
        '8',
        '9',
        'A',
        'B',
        'C',
        'D',
        'E',
        'F',
    ];
    digits[value as usize]
}

/// Appends `value` in decimal.
pub fn append_decimal(text: &mut String, value: u64)
    ensures
        final(text)@ == old(text)@ + decimal(value as nat),
    decreases value,
{
    if value >= 10 {
        append_decimal(text, value / 10);
    }
    text.push(digit_char((value % 10) as u8));
    assert(text@ =~= old(text)@ + decimal(value as nat));
}

/// Appends `value` in lower-case hexadecimal.
pub fn append_hex(text: &mut String, value: u64)
    ensures
        final(text)@ == old(text)@ + hex(value as nat),
    decreases value,
{
    if value >= 16 {
        append_hex(text, value / 16);
    }
    text.push(digit_char((value % 16) as u8));
    assert(text@ =~= old(text)@ + hex(value as nat));
}

/// Appends `value` in upper-case hexadecimal.
pub fn append_upper_hex(text: &mut String, value: u64)
    ensures
        final(text)@ == old(text)@ + upper_hex(value as nat),
    decreases value,
{
    if value >= 16 {
        append_upper_hex(text, value / 16);
    }
    text.push(upper_digit_char((value % 16) as u8));
    assert(text@ =~= old(text)@ + upper_hex(value as nat));
}

/// Appends `value` in decimal, with a minus sign if it is negative.
pub fn append_signed(text: &mut String, value: i64)
    ensures
        final(text)@ == old(text)@ + signed_decimal(value as int),
{
    if value < 0 {
        text.push('-');
        // The most negative value has no counterpart, so its magnitude is taken in two steps.
        let magnitude = (-(value + 1)) as u64 + 1;
        append_decimal(text, magnitude);
        assert(text@ =~= old(text)@ + signed_decimal(value as int));
    } else {
        append_decimal(text, value as u64);
    }
}

/// Appends `more` with enough of `fill` in front of it to be `width` characters long.
pub fn append_padded(text: &mut String, more: &String, width: usize, fill: char)
    ensures
        final(text)@ == old(text)@ + pad_left(more@, width as nat, fill),
{
    let len = more.as_str().unicode_len();
    let ghost start = text@;
    let mut i: usize = len;
    let ghost padding = Seq::<char>::new(0, |i: int| fill);
    assert(start + Seq::<char>::new(0, |i: int| fill) =~= start);
    while i < width
        invariant
            len <= i,
            i <= width || i == len,
            text@ == start + Seq::new((i - len) as nat, |i: int| fill),
        decreases width - i,
    {
        text.push(fill);
        assert(start + Seq::new((i + 1 - len) as nat, |i: int| fill) =~= (start + Seq::new(
            (i - len) as nat,
            |i: int| fill,
        )).push(fill));
        i = i + 1;
    }
    text.append(more.as_str());
    assert(text@ =~= start + pad_left(more@, width as nat, fill));
}

/// `a` followed by `b`.
pub fn joined(a: &str, b: &str) -> (result: String)
    ensures
        result@ == a@ + b@,
{
    let mut result = a.to_owned();
    append_text(&mut result, b);
    result
}

} // verus!
