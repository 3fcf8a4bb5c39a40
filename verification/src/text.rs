//! Decimal and hexadecimal text, and byte strings.

use vstd::prelude::*;

verus! {

/// Whether `byte` is an ASCII decimal digit.
pub open spec fn is_digit(byte: u8) -> bool {
    48 <= byte <= 57
}

/// Whether every byte of `text` is an ASCII decimal digit.
pub open spec fn all_digits(text: Seq<u8>) -> bool {
    forall|i: int| 0 <= i < text.len() ==> is_digit(#[trigger] text[i])
}

/// The number that a string of decimal digits denotes.
pub open spec fn digits_value(text: Seq<u8>) -> nat
    decreases text.len(),
{
    if text.len() == 0 {
        0
    } else {
        digits_value(text.drop_last()) * 10 + (text.last() - 48) as nat
    }
}

/// The decimal text of `n`, without leading zeros.
pub open spec fn decimal(n: nat) -> Seq<u8>
    decreases n,
{
    if n < 10 {
        seq![(48 + n) as u8]
    } else {
        decimal(n / 10).push((48 + n % 10) as u8)
    }
}

/// Whether `text` is a number's decimal text as [`decimal`] writes it.
pub open spec fn is_canonical_decimal(text: Seq<u8>) -> bool {
    &&& text.len() > 0
    &&& all_digits(text)
    &&& text[0] != 48 || text.len() == 1
}

/// The number in `text`, if it is made of digits and is at most `limit`.
pub open spec fn bounded_digits(text: Seq<u8>, limit: nat) -> Option<nat> {
    if text.len() > 0 && all_digits(text) && digits_value(text) <= limit {
        Some(digits_value(text))
    } else {
        None
    }
}

/// The number in `text`, which may carry one leading plus sign, if it is at
/// most `limit`.
pub open spec fn bounded_unsigned(text: Seq<u8>, limit: nat) -> Option<nat> {
    if text.len() > 0 && text[0] == 43 {
        bounded_digits(text.subrange(1, text.len() as int), limit)
    } else {
        bounded_digits(text, limit)
    }
}

/// Decimal text is canonical and denotes the number that it was written for.
pub proof fn lemma_decimal(n: nat)
    ensures
        is_canonical_decimal(decimal(n)),
        digits_value(decimal(n)) == n,
        n > 0 ==> decimal(n)[0] != 48,
    decreases n,
{
    if n < 10 {
        assert(decimal(n).drop_last() =~= Seq::<u8>::empty());
        assert(digits_value(Seq::<u8>::empty()) == 0);
    } else {
        lemma_decimal(n / 10);
        let head = decimal(n / 10);
        assert(decimal(n).drop_last() =~= head);
        assert(decimal(n)[0] == head[0]);
    }
}

/// Canonical decimal text is the decimal text of the number that it denotes.
pub proof fn lemma_canonical_decimal(text: Seq<u8>)
    requires
        is_canonical_decimal(text),
    ensures
        decimal(digits_value(text)) == text,
        text[0] != 48 ==> digits_value(text) > 0,
    decreases text.len(),
{
    let head = text.drop_last();
    if text.len() == 1 {
        assert(digits_value(head) == 0);
        assert(decimal(digits_value(text)) =~= text);
    } else {
        lemma_canonical_decimal(head);
        let n = digits_value(text);
        let last: int = text.last() - 48;
        assert(is_digit(text[text.len() - 1]));
        assert(n == digits_value(head) * 10 + last);
        assert(n / 10 == digits_value(head));
        assert(n % 10 == last);
        assert(decimal(n) =~= text);
    }
}

/// A longer string of digits denotes no smaller number.
proof fn lemma_digits_value_prefix(text: Seq<u8>, count: int)
    requires
        0 <= count <= text.len(),
        all_digits(text),
    ensures
        digits_value(text.take(count)) <= digits_value(text),
    decreases text.len() - count,
{
    if count == text.len() {
        assert(text.take(count) =~= text);
    } else {
        lemma_digits_value_prefix(text, count + 1);
        assert(text.take(count + 1).drop_last() =~= text.take(count));
        assert(is_digit(text[count]));
    }
}

/// Appends the decimal text of `n`.
pub fn push_decimal(output: &mut Vec<u8>, n: u64)
    ensures
        final(output)@ == old(output)@ + decimal(n as nat),
    decreases n,
{
    if n >= 10 {
        push_decimal(output, n / 10);
    }
    let digit: u8 = (n % 10) as u8;
    output.push(48 + digit);
    proof {
        assert(final(output)@ =~= old(output)@ + decimal(n as nat));
    }
}

/// Reads a string of decimal digits that denotes at most `limit`.
pub fn parse_digits(text: &[u8], limit: u128) -> (result: Option<u128>)
    ensures
        result is Some <==> bounded_digits(text@, limit as nat) is Some,
        result matches Some(value) ==> bounded_digits(text@, limit as nat) == Some(value as nat),
{
    if text.len() == 0 {
        return None;
    }
    let mut value: u128 = 0;
    let mut index: usize = 0;
    while index < text.len()
        invariant
            0 <= index <= text@.len(),
            all_digits(text@.take(index as int)),
            value == digits_value(text@.take(index as int)),
            value <= limit,
        decreases text@.len() - index,
    {
        let byte: u8 = text[index];
        if byte < 48 || byte > 57 {
            assert(!is_digit(text@[index as int]));
            return None;
        }
        let digit: u128 = (byte - 48) as u128;
        proof {
            assert(text@.take(index + 1).drop_last() =~= text@.take(index as int));
            assert(digits_value(text@.take(index + 1)) == value * 10 + digit);
            if all_digits(text@) {
                lemma_digits_value_prefix(text@, index + 1);
            }
        }
        if digit > limit || value > (limit - digit) / 10 {
            return None;
        }
        value = value * 10 + digit;
        index = index + 1;
    }
    assert(text@.take(index as int) =~= text@);
    Some(value)
}

/// Reads an unsigned number that may carry one leading plus sign.
pub fn parse_unsigned(text: &[u8], limit: u128) -> (result: Option<u128>)
    ensures
        result is Some <==> bounded_unsigned(text@, limit as nat) is Some,
        result matches Some(value) ==> bounded_unsigned(text@, limit as nat) == Some(value as nat),
{
    if text.len() > 0 && text[0] == 43 {
        parse_digits(vstd::slice::slice_subrange(text, 1, text.len()), limit)
    } else {
        parse_digits(text, limit)
    }
}

/// Whether a string starts with digits that denote more than `limit`.
pub open spec fn starts_too_large(text: Seq<u8>, limit: nat) -> bool {
    exists|count: int|
        0 <= count <= text.len() && all_digits(#[trigger] text.take(count)) && digits_value(
            text.take(count),
        ) > limit
}

/// Whether a string starts with digits that denote more than `limit`.
fn exceeds(text: &[u8], limit: u128) -> (result: bool)
    ensures
        result == starts_too_large(text@, limit as nat),
{
    let mut value: u128 = 0;
    let mut index: usize = 0;
    while index < text.len()
        invariant
            0 <= index <= text@.len(),
            all_digits(text@.take(index as int)),
            value == digits_value(text@.take(index as int)),
            value <= limit,
        decreases text@.len() - index,
    {
        let byte: u8 = text[index];
        if byte < 48 || byte > 57 {
            proof {
                assert(!is_digit(text@[index as int]));
                assert forall|count: int|
                    0 <= count <= text@.len() && all_digits(#[trigger] text@.take(count)) implies
                    digits_value(text@.take(count)) <= limit by {
                    if count > index {
                        assert(text@.take(count)[index as int] == text@[index as int]);
                    } else {
                        lemma_digits_value_prefix(text@.take(index as int), count);
                        assert(text@.take(index as int).take(count) =~= text@.take(count));
                    }
                }
            }
            return false;
        }
        let digit: u128 = (byte - 48) as u128;
        proof {
            let grown = text@.take(index + 1);
            assert(grown.drop_last() =~= text@.take(index as int));
            assert(digits_value(grown) == value * 10 + digit);
            assert forall|i: int| 0 <= i < grown.len() implies is_digit(#[trigger] grown[i]) by {
                if i < index {
                    assert(grown[i] == text@.take(index as int)[i]);
                }
            }
            assert(all_digits(grown));
        }
        if digit > limit || value > (limit - digit) / 10 {
            return true;
        }
        value = value * 10 + digit;
        index = index + 1;
    }
    proof {
        assert forall|count: int|
            0 <= count <= text@.len() && all_digits(#[trigger] text@.take(count)) implies
            digits_value(text@.take(count)) <= limit by {
            lemma_digits_value_prefix(text@.take(index as int), count);
            assert(text@.take(index as int).take(count) =~= text@.take(count));
        }
    }
    false
}

/// Why a text is no number of at most `limit`: it is empty, too large, or holds
/// something else than digits; what comes first in it counts.
pub open spec fn number_refusal(text: Seq<u8>, limit: nat) -> Seq<char> {
    let digits = if text.len() > 0 && text[0] == 43 {
        text.subrange(1, text.len() as int)
    } else {
        text
    };
    if text.len() == 0 {
        "cannot parse integer from empty string"@
    } else if starts_too_large(digits, limit) {
        "number too large to fit in target type"@
    } else {
        "invalid digit found in string"@
    }
}

/// Why a text is no number of at most `limit`.
pub fn refuse_number(text: &[u8], limit: u128) -> (reason: &'static str)
    ensures
        reason@ == number_refusal(text@, limit as nat),
{
    if text.len() == 0 {
        return "cannot parse integer from empty string";
    }
    let digits: &[u8] = if text[0] == 43 {
        vstd::slice::slice_subrange(text, 1, text.len())
    } else {
        text
    };
    if exceeds(digits, limit) {
        "number too large to fit in target type"
    } else {
        "invalid digit found in string"
    }
}

/// The text that `str`'s `Debug` gives for a text: in quotation marks, with
/// escapes.
pub uninterp spec fn quoted_text(text: Seq<char>) -> Seq<char>;

/// `std::fmt::Debug` for `str`: the text in quotation marks, where some
/// characters are escaped. What is escaped is not stated.
#[verifier::external_body]
pub(crate) fn quoted(text: &str) -> (quoted: String)
    ensures
        quoted@ == quoted_text(text@),
{
    format!("{text:?}")
}

/// The first position from `at` on whose byte is `byte`, or the text's length.
pub open spec fn position_of(text: Seq<u8>, at: int, byte: u8) -> int
    decreases text.len() - at,
{
    if at < 0 || at >= text.len() {
        text.len() as int
    } else if text[at] == byte {
        at
    } else {
        position_of(text, at + 1, byte)
    }
}

/// A position found lies at or behind the start and within the text, holds the
/// byte, and none before it does.
pub proof fn lemma_position_of(text: Seq<u8>, at: int, byte: u8)
    requires
        0 <= at <= text.len(),
    ensures
        at <= position_of(text, at, byte) <= text.len(),
        position_of(text, at, byte) < text.len() ==> text[position_of(text, at, byte)] == byte,
        forall|i: int| at <= i < position_of(text, at, byte) ==> text[i] != byte,
    decreases text.len() - at,
{
    if at < text.len() && text[at] != byte {
        lemma_position_of(text, at + 1, byte);
    }
}

/// A byte is found at its first place, and where there is none, the text's
/// length is.
pub proof fn lemma_position_of_is(text: Seq<u8>, at: int, end: int, byte: u8)
    requires
        0 <= at <= end <= text.len(),
        forall|i: int| at <= i < end ==> #[trigger] text[i] != byte,
        end < text.len() ==> text[end] == byte,
    ensures
        position_of(text, at, byte) == end,
    decreases end - at,
{
    if at < end {
        assert(text[at] != byte);
        lemma_position_of_is(text, at + 1, end, byte);
    }
}

/// Finds the first position from `at` on that holds `byte`, or the text's
/// length.
pub fn find_byte(text: &[u8], at: usize, byte: u8) -> (position: usize)
    requires
        at <= text@.len(),
    ensures
        position == position_of(text@, at as int, byte),
        at <= position <= text@.len(),
{
    let mut position: usize = at;
    while position < text.len() && text[position] != byte
        invariant
            at <= position <= text@.len(),
            position_of(text@, at as int, byte) == position_of(text@, position as int, byte),
        decreases text@.len() - position,
    {
        position = position + 1;
    }
    position
}

/// Whether two byte strings are equal.
pub fn same_bytes(left: &[u8], right: &[u8]) -> (result: bool)
    ensures
        result == (left@ == right@),
{
    if left.len() != right.len() {
        return false;
    }
    let mut index: usize = 0;
    while index < left.len()
        invariant
            0 <= index <= left@.len(),
            left@.len() == right@.len(),
            forall|i: int| 0 <= i < index ==> left@[i] == right@[i],
        decreases left@.len() - index,
    {
        if left[index] != right[index] {
            return false;
        }
        index = index + 1;
    }
    assert(left@ =~= right@);
    true
}

/// Whether two texts are equal.
pub fn same_text(left: &str, right: &str) -> (result: bool)
    ensures
        result == (left@ == right@),
{
    let result: bool = same_bytes(left.as_bytes(), right.as_bytes());
    proof {
        vstd::utf8::encode_utf8_decode_utf8(left@);
        vstd::utf8::encode_utf8_decode_utf8(right@);
    }
    result
}

/// The texts of several strings.
pub open spec fn texts(strings: Seq<String>) -> Seq<Seq<char>> {
    strings.map_values(|string: String| string@)
}

/// Whether two sequences of strings have the same texts.
pub fn same_texts(left: &Vec<String>, right: &Vec<String>) -> (result: bool)
    ensures
        result == (texts(left@) == texts(right@)),
{
    if left.len() != right.len() {
        assert(texts(left@).len() == left@.len() && texts(right@).len() == right@.len());
        return false;
    }
    let mut index: usize = 0;
    while index < left.len()
        invariant
            0 <= index <= left@.len(),
            left@.len() == right@.len(),
            forall|i: int| 0 <= i < index ==> left@[i]@ == right@[i]@,
        decreases left@.len() - index,
    {
        if !same_text(left[index].as_str(), right[index].as_str()) {
            assert(texts(left@)[index as int] != texts(right@)[index as int]);
            return false;
        }
        index = index + 1;
    }
    assert(texts(left@) =~= texts(right@));
    true
}

/// `std::str::from_utf8`: it accepts exactly the byte strings that are valid
/// UTF-8, and gives the text that they encode.
#[verifier::external_body]
pub(crate) fn utf8_text(bytes: &[u8]) -> (text: Option<String>)
    ensures
        text is Some <==> vstd::utf8::valid_utf8(bytes@),
        text matches Some(text) ==> vstd::utf8::encode_utf8(text@) == bytes@,
{
    std::str::from_utf8(bytes).ok().map(|text| text.to_owned())
}

/// Appends a byte string.
pub fn push_slice(output: &mut Vec<u8>, bytes: &[u8])
    ensures
        final(output)@ == old(output)@ + bytes@,
{
    output.extend_from_slice(bytes);
    assert(final(output)@ =~= old(output)@ + bytes@);
}

/// The value of one hexadecimal digit, in either case.
pub open spec fn hex_value(byte: u8) -> Option<u8> {
    if 48 <= byte <= 57 {
        Some((byte - 48) as u8)
    } else if 97 <= byte <= 102 {
        Some((byte - 87) as u8)
    } else if 65 <= byte <= 70 {
        Some((byte - 55) as u8)
    } else {
        None
    }
}

/// The byte that a high and a low hexadecimal digit make.
pub open spec fn hex_byte(high: u8, low: u8) -> u8 {
    (high * 16 + low) as u8
}

/// Reads one hexadecimal digit, in either case.
pub fn hex_digit(byte: u8) -> (result: Option<u8>)
    ensures
        result == hex_value(byte),
        result matches Some(digit) ==> digit < 16,
{
    if 48 <= byte && byte <= 57 {
        Some(byte - 48)
    } else if 97 <= byte && byte <= 102 {
        Some(byte - 87)
    } else if 65 <= byte && byte <= 70 {
        Some(byte - 55)
    } else {
        None
    }
}

/// The decimal text of `n` in characters, without leading zeros.
pub open spec fn decimal_chars(n: nat) -> Seq<char>
    decreases n,
{
    if n < 10 {
        seq![(48 + n) as char]
    } else {
        decimal_chars(n / 10).push((48 + n % 10) as char)
    }
}

/// The two lower-case hexadecimal digits of a byte.
pub open spec fn hex_chars(byte: u8) -> Seq<char> {
    seq![hex_digit_char((byte / 16) as nat), hex_digit_char((byte % 16) as nat)]
}

/// The lower-case hexadecimal digit for a number below 16.
pub open spec fn hex_digit_char(digit: nat) -> char {
    if digit < 10 {
        (48 + digit) as char
    } else {
        (87 + digit) as char
    }
}

/// The text of one hexadecimal digit.
fn digit_text(digit: u8) -> (text: &'static str)
    requires
        digit < 16,
    ensures
        text@ == seq![hex_digit_char(digit as nat)],
{
    proof {
        reveal_strlit("0");
        reveal_strlit("1");
        reveal_strlit("2");
        reveal_strlit("3");
        reveal_strlit("4");
        reveal_strlit("5");
        reveal_strlit("6");
        reveal_strlit("7");
        reveal_strlit("8");
        reveal_strlit("9");
        reveal_strlit("a");
        reveal_strlit("b");
        reveal_strlit("c");
        reveal_strlit("d");
        reveal_strlit("e");
        reveal_strlit("f");
    }
    let text: &'static str = match digit {
        0 => "0",
        1 => "1",
        2 => "2",
        3 => "3",
        4 => "4",
        5 => "5",
        6 => "6",
        7 => "7",
        8 => "8",
        9 => "9",
        10 => "a",
        11 => "b",
        12 => "c",
        13 => "d",
        14 => "e",
        _ => "f",
    };
    assert(text@ =~= seq![hex_digit_char(digit as nat)]);
    text
}

/// Appends the decimal text of `n`.
pub fn append_decimal(text: &mut String, n: u64)
    ensures
        final(text)@ == old(text)@ + decimal_chars(n as nat),
    decreases n,
{
    if n >= 10 {
        append_decimal(text, n / 10);
    }
    text.append(digit_text((n % 10) as u8));
    assert(final(text)@ =~= old(text)@ + decimal_chars(n as nat));
}

/// Appends the two hexadecimal digits of a byte.
pub fn append_hex(text: &mut String, byte: u8)
    ensures
        final(text)@ == old(text)@ + hex_chars(byte),
{
    text.append(digit_text(byte / 16));
    text.append(digit_text(byte % 16));
    assert(final(text)@ =~= old(text)@ + hex_chars(byte));
}

/// A text with a number in it.
pub fn numbered(before: &str, n: u64, after: &str) -> (text: String)
    ensures
        text@ == before@ + decimal_chars(n as nat) + after@,
        after@.len() == 0 ==> text@ == before@ + decimal_chars(n as nat),
{
    let mut text: String = before.to_owned();
    append_decimal(&mut text, n);
    text.append(after);
    assert(text@ =~= before@ + decimal_chars(n as nat) + after@);
    text
}

} // verus!
