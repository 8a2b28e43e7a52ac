//! What is written as text reads back from it.
use crate::args::SemanticVersion;
use crate::args;
use crate::strings;
use crate::text;
use vstd::prelude::*;

verus! {

// ---------------------------------------------------------------------------------------------
// Numbers
// ---------------------------------------------------------------------------------------------

proof fn lemma_one_more_digit(digits: Seq<char>, c: char, radix: nat, max: nat, value: nat)
    requires
        strings::number_from(digits, radix, max, value) is Ok,
        strings::digit_value(c, radix) is Some,
    ensures
        ({
            let n = strings::number_from(digits, radix, max, value)->Ok_0;
            let d = strings::digit_value(c, radix)->0;
            n * radix + d <= max ==> strings::number_from(digits.push(c), radix, max, value) == Ok::<
                nat,
                strings::NumberError,
            >(n * radix + d)
        }),
    decreases digits.len(),
{
    let all = digits.push(c);
    if digits.len() == 0 {
        reveal_with_fuel(strings::number_from, 2);
        assert(all.skip(1) =~= Seq::<char>::empty());
    } else {
        let d = strings::digit_value(digits[0], radix)->0;
        assert(all[0] == digits[0]);
        assert(all.skip(1) =~= digits.skip(1).push(c));
        lemma_one_more_digit(digits.skip(1), c, radix, max, value * radix + d);
    }
}

proof fn lemma_digit(value: nat)
    requires
        value < 16,
    ensures
        strings::digit_value(text::digit(value), 16) == Some(value),
        strings::digit_value(text::upper_digit(value), 16) == Some(value),
        value < 10 ==> strings::digit_value(text::digit(value), 10) == Some(value),
        text::digit(value) != '+',
        text::upper_digit(value) != '+',
{
}

proof fn lemma_decimal(value: nat, max: nat)
    requires
        value <= max,
    ensures
        text::decimal(value).len() > 0,
        text::decimal(value)[0] != '+',
        strings::number_from(text::decimal(value), 10, max, 0) == Ok::<nat, strings::NumberError>(
            value,
        ),
        forall|i: int|
            0 <= i < text::decimal(value).len() ==> '0' <= #[trigger] text::decimal(value)[i]
                <= '9',
    decreases value,
{
    if value < 10 {
        lemma_digit(value);
        reveal_with_fuel(strings::number_from, 2);
        assert(seq![text::digit(value)].skip(1) =~= Seq::<char>::empty());
    } else {
        lemma_decimal(value / 10, max);
        lemma_digit(value % 10);
        lemma_one_more_digit(text::decimal(value / 10), text::digit(value % 10), 10, max, 0);
    }
}

/// A number that is written in decimal reads back.
pub proof fn law_decimal_reads_back(value: nat, max: nat)
    requires
        value <= max,
    ensures
        strings::number(text::decimal(value), 10, max) == Ok::<nat, strings::NumberError>(value),
{
    lemma_decimal(value, max);
}

proof fn lemma_hex(value: nat, max: nat)
    requires
        value <= max,
    ensures
        text::hex(value).len() > 0,
        text::hex(value)[0] != '+',
        strings::number_from(text::hex(value), 16, max, 0) == Ok::<nat, strings::NumberError>(
            value,
        ),
        text::upper_hex(value).len() > 0,
        text::upper_hex(value)[0] != '+',
        strings::number_from(text::upper_hex(value), 16, max, 0) == Ok::<nat, strings::NumberError>(
            value,
        ),
    decreases value,
{
    if value < 16 {
        lemma_digit(value);
        reveal_with_fuel(strings::number_from, 2);
        assert(seq![text::digit(value)].skip(1) =~= Seq::<char>::empty());
        assert(seq![text::upper_digit(value)].skip(1) =~= Seq::<char>::empty());
    } else {
        lemma_hex(value / 16, max);
        lemma_digit(value % 16);
        lemma_one_more_digit(text::hex(value / 16), text::digit(value % 16), 16, max, 0);
        lemma_one_more_digit(
            text::upper_hex(value / 16),
            text::upper_digit(value % 16),
            16,
            max,
            0,
        );
    }
}

/// A number that is written in hexadecimal, of either case, reads back.
pub proof fn law_hexadecimal_reads_back(value: nat, max: nat)
    requires
        value <= max,
    ensures
        strings::number(text::hex(value), 16, max) == Ok::<nat, strings::NumberError>(value),
        strings::number(text::upper_hex(value), 16, max) == Ok::<nat, strings::NumberError>(value),
{
    lemma_hex(value, max);
}

/// Different numbers are written differently, in whatever way.
pub proof fn law_different_numbers_look_different(a: nat, b: nat)
    requires
        a != b,
    ensures
        text::decimal(a) != text::decimal(b),
        text::hex(a) != text::hex(b),
        text::upper_hex(a) != text::upper_hex(b),
{
    law_decimal_reads_back(a, a + b);
    law_decimal_reads_back(b, a + b);
    law_hexadecimal_reads_back(a, a + b);
    law_hexadecimal_reads_back(b, a + b);
}

/// Padding makes text as wide as asked, by putting as many of a character as that takes in front of
/// it, and never cuts it.
pub proof fn law_padding_comes_in_front(line: Seq<char>, width: nat, fill: char)
    ensures
        ({
            let padded = text::pad_left(line, width, fill);
            &&& padded.len() >= width
            &&& padded.len() >= line.len()
            &&& padded.len() == width || padded.len() == line.len()
            &&& padded.skip(padded.len() - line.len()) == line
            &&& forall|i: int|
                0 <= i < padded.len() - line.len() ==> #[trigger] padded[i] == fill
        }),
{
    let padded = text::pad_left(line, width, fill);
    assert(padded.skip(padded.len() - line.len()) =~= line);
}

// ---------------------------------------------------------------------------------------------
// White space
// ---------------------------------------------------------------------------------------------

proof fn lemma_leading(line: Seq<char>)
    ensures
        ({
            let rest = strings::without_leading_space(line);
            let cut = line.len() - rest.len();
            &&& 0 <= cut
            &&& rest == line.skip(cut)
            &&& forall|i: int| 0 <= i < cut ==> strings::is_white(#[trigger] line[i])
            &&& rest.len() > 0 ==> !strings::is_white(rest[0])
        }),
    decreases line.len(),
{
    if line.len() > 0 && strings::is_white(line[0]) {
        let tail = line.skip(1);
        lemma_leading(tail);
        let rest = strings::without_leading_space(tail);
        let cut = line.len() - rest.len();
        assert(tail.skip(cut - 1) =~= line.skip(cut));
        assert forall|i: int| 0 <= i < cut implies strings::is_white(#[trigger] line[i]) by {
            if i > 0 {
                assert(line[i] == tail[i - 1]);
            }
        }
    } else {
        assert(line.skip(0) =~= line);
    }
}

proof fn lemma_trailing(line: Seq<char>)
    ensures
        ({
            let rest = strings::without_trailing_space(line);
            &&& rest.len() <= line.len()
            &&& rest == line.take(rest.len() as int)
            &&& forall|i: int| rest.len() <= i < line.len() ==> strings::is_white(#[trigger] line[i])
            &&& rest.len() > 0 ==> !strings::is_white(rest.last())
        }),
    decreases line.len(),
{
    if line.len() > 0 && strings::is_white(line.last()) {
        let head = line.drop_last();
        lemma_trailing(head);
        let rest = strings::without_trailing_space(head);
        assert(head.take(rest.len() as int) =~= line.take(rest.len() as int));
        assert forall|i: int| rest.len() <= i < line.len() implies strings::is_white(
            #[trigger] line[i],
        ) by {
            if i < line.len() - 1 {
                assert(line[i] == head[i]);
            }
        }
    } else {
        assert(line.take(line.len() as int) =~= line);
    }
}

/// Trimming takes away the white space at both ends, all of it, and nothing else.
pub proof fn law_trimming_takes_away_white_space(line: Seq<char>) -> (from: int)
    ensures
        ({
            let rest = strings::trimmed(line);
            let to = from + rest.len();
            &&& 0 <= from
            &&& to <= line.len()
            &&& rest == line.subrange(from, to)
            &&& forall|i: int| 0 <= i < from ==> strings::is_white(#[trigger] line[i])
            &&& forall|i: int| to <= i < line.len() ==> strings::is_white(#[trigger] line[i])
            &&& rest.len() > 0 ==> !strings::is_white(rest[0]) && !strings::is_white(rest.last())
        }),
{
    let middle = strings::without_leading_space(line);
    lemma_leading(line);
    lemma_trailing(middle);
    let from = line.len() - middle.len();
    let rest = strings::trimmed(line);
    assert(rest =~= line.subrange(from, from + rest.len()));
    assert forall|i: int| from + rest.len() <= i < line.len() implies strings::is_white(
        #[trigger] line[i],
    ) by {
        assert(line[i] == middle[i - from]);
    }
    if rest.len() > 0 {
        assert(rest[0] == middle[0]);
    }
    from
}

// ---------------------------------------------------------------------------------------------
// Pieces
// ---------------------------------------------------------------------------------------------

/// The parts, with a separator between each and the next.
pub open spec fn with_separators(parts: Seq<Seq<char>>, separator: char) -> Seq<char>
    decreases parts.len(),
{
    if parts.len() == 0 {
        Seq::empty()
    } else if parts.len() == 1 {
        parts[0]
    } else {
        parts[0] + seq![separator] + with_separators(parts.skip(1), separator)
    }
}

proof fn lemma_piece(part: Seq<char>, rest: Seq<char>, separator: char, current: Seq<char>)
    requires
        !part.contains(separator),
    ensures
        strings::pieces_from(part + rest, separator, current) == strings::pieces_from(
            rest,
            separator,
            current + part,
        ),
    decreases part.len(),
{
    if part.len() == 0 {
        assert(part + rest =~= rest);
        assert(current + part =~= current);
    } else {
        assert(part.contains(part[0]));
        let tail = part.skip(1);
        assert(!tail.contains(separator)) by {
            if tail.contains(separator) {
                let i = choose|i: int| 0 <= i < tail.len() && tail[i] == separator;
                assert(part[i + 1] == separator);
            }
        }
        assert((part + rest).skip(1) =~= tail + rest);
        lemma_piece(tail, rest, separator, current.push(part[0]));
        assert(current.push(part[0]) + tail =~= current + part);
    }
}

/// Splitting text at a separator gives back the parts that were put together with it.
pub proof fn law_splitting_gives_back_the_parts(parts: Seq<Seq<char>>, separator: char)
    requires
        parts.len() > 0,
        forall|i: int| 0 <= i < parts.len() ==> !(#[trigger] parts[i]).contains(separator),
    ensures
        strings::pieces(with_separators(parts, separator), separator) == parts,
    decreases parts.len(),
{
    let empty = Seq::<char>::empty();
    let first = parts[0];
    assert(!parts[0].contains(separator));
    assert(empty + first =~= first);
    if parts.len() == 1 {
        lemma_piece(first, empty, separator, empty);
        assert(first + empty =~= first);
        assert(parts =~= seq![first]);
    } else {
        let rest = parts.skip(1);
        assert forall|i: int| 0 <= i < rest.len() implies !(#[trigger] rest[i]).contains(
            separator,
        ) by {
            assert(rest[i] == parts[i + 1]);
        }
        law_splitting_gives_back_the_parts(rest, separator);
        let after = with_separators(rest, separator);
        let tail = seq![separator] + after;
        lemma_piece(first, tail, separator, empty);
        assert(first + tail =~= first + seq![separator] + after);
        assert(tail.skip(1) =~= after);
        assert(parts =~= seq![first] + rest);
    }
}

proof fn lemma_decimal_has_no_dot(value: nat)
    ensures
        !text::decimal(value).contains('.'),
{
    lemma_decimal(value, value);
}

/// A version of three numbers reads as those numbers; those that are left out are zero.
pub proof fn law_versions_read_back(major: u16, minor: u8, patch: u8)
    ensures
        args::version(
            with_separators(
                seq![
                    text::decimal(major as nat),
                    text::decimal(minor as nat),
                    text::decimal(patch as nat),
                ],
                '.',
            ),
        ) == Ok::<SemanticVersion, args::VersionError>(SemanticVersion { major, minor, patch }),
        args::version(
            with_separators(
                seq![text::decimal(major as nat), text::decimal(minor as nat)],
                '.',
            ),
        ) == Ok::<SemanticVersion, args::VersionError>(
            SemanticVersion { major, minor, patch: 0 },
        ),
        args::version(with_separators(seq![text::decimal(major as nat)], '.')) == Ok::<
            SemanticVersion,
            args::VersionError,
        >(SemanticVersion { major, minor: 0, patch: 0 }),
{
    let a = text::decimal(major as nat);
    let b = text::decimal(minor as nat);
    let c = text::decimal(patch as nat);
    lemma_decimal_has_no_dot(major as nat);
    lemma_decimal_has_no_dot(minor as nat);
    lemma_decimal_has_no_dot(patch as nat);
    law_decimal_reads_back(major as nat, u16::MAX as nat);
    law_decimal_reads_back(minor as nat, u8::MAX as nat);
    law_decimal_reads_back(patch as nat, u8::MAX as nat);
    law_splitting_gives_back_the_parts(seq![a, b, c], '.');
    law_splitting_gives_back_the_parts(seq![a, b], '.');
    law_splitting_gives_back_the_parts(seq![a], '.');
}

/// Text with more than three parts between its dots is no version, whatever the parts are.
pub proof fn law_versions_have_no_more_than_three_parts(parts: Seq<Seq<char>>)
    requires
        parts.len() > 3,
        forall|i: int| 0 <= i < parts.len() ==> !(#[trigger] parts[i]).contains('.'),
    ensures
        args::version(with_separators(parts, '.')) is Err,
{
    law_splitting_gives_back_the_parts(parts, '.');
}

/// The larger of two versions is stored as the larger number, and different versions as different
/// numbers.
pub proof fn law_versions_are_stored_in_order(a: SemanticVersion, b: SemanticVersion)
    ensures
        a.encoding() < 0x1_0000_0000,
        a.encoding() / 0x1_0000 == a.major,
        a.encoding() / 0x100 % 0x100 == a.minor,
        a.encoding() % 0x100 == a.patch,
        a.encoding() == b.encoding() ==> a == b,
        a.major < b.major ==> a.encoding() < b.encoding(),
        a.major == b.major && a.minor < b.minor ==> a.encoding() < b.encoding(),
{
}

} // verus!
