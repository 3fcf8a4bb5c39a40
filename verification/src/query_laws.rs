//! What a query string says, said of its bytes.

use crate::query::{
    all_values, first_value, parsed_compact, parsed_event, parsed_identifier, parsed_number,
    parsed_pair, parsed_query, parsed_required_identifier, parsed_required_number,
    percent_decoded, QueryFault, Refusal,
};
use crate::state::AnnounceEvent;
use crate::text::{
    bounded_unsigned, decimal, digits_value, hex_value, lemma_position_of,
    lemma_position_of_is, position_of,
};
use vstd::prelude::*;
use vstd::utf8::{encode_utf8, valid_utf8};

verus! {

/// The hexadecimal digits are the decimal ones and six letters of either case,
/// and each stands for its number.
pub proof fn law_hex_digits(byte: u8, digit: u8)
    ensures
        hex_value(byte) == Some(digit) <==> digit < 10 && byte == 48 + digit || 10 <= digit < 16
            && (byte == 87 + digit || byte == 55 + digit),
        hex_value(byte) is Some ==> hex_value(byte)->Some_0 < 16,
{
}

/// One sign is decoded to one byte: a plus sign to a space, an escape to the byte
/// with its two digits, and any other sign but the percent sign to itself.
pub proof fn law_signs_are_decoded(sign: u8, high: u8, low: u8)
    ensures
        percent_decoded(Seq::empty(), 0) == Ok::<Seq<u8>, QueryFault>(Seq::empty()),
        sign != 37 && sign != 43 ==> percent_decoded(seq![sign], 0) == Ok::<Seq<u8>, QueryFault>(
            seq![sign],
        ),
        percent_decoded(seq![43u8], 0) == Ok::<Seq<u8>, QueryFault>(seq![32u8]),
        hex_value(high) is Some && hex_value(low) is Some ==> percent_decoded(
            seq![37u8, high, low],
            0,
        ) == Ok::<Seq<u8>, QueryFault>(
            seq![(16 * hex_value(high)->Some_0 + hex_value(low)->Some_0) as u8],
        ),
{
    reveal_with_fuel(percent_decoded, 2);
    assert(seq![sign] + Seq::<u8>::empty() =~= seq![sign]);
    assert(seq![32u8] + Seq::<u8>::empty() =~= seq![32u8]);
    if hex_value(high) is Some && hex_value(low) is Some {
        let byte = (16 * hex_value(high)->Some_0 + hex_value(low)->Some_0) as u8;
        assert(seq![byte] + Seq::<u8>::empty() =~= seq![byte]);
    }
}

/// A percent sign without two signs behind it, or with one that is no
/// hexadecimal digit, is refused.
pub proof fn law_bad_escapes_are_refused(rest: Seq<u8>)
    ensures
        rest.len() < 2 ==> percent_decoded(seq![37u8] + rest, 0) == Err::<Seq<u8>, QueryFault>(
            QueryFault::IncompleteEscape,
        ),
        rest.len() >= 2 && (hex_value(rest[0]) is None || hex_value(rest[1]) is None)
            ==> percent_decoded(seq![37u8] + rest, 0) == Err::<Seq<u8>, QueryFault>(
            QueryFault::InvalidEscape,
        ),
{
    let text = seq![37u8] + rest;
    assert(text[0] == 37);
    if rest.len() >= 2 {
        assert(text[1] == rest[0] && text[2] == rest[1]);
    }
}

/// A part of a query string is a key and a value, parted by the first equals
/// sign, each decoded. A key that is no text is refused.
pub proof fn law_part_is_key_and_value(key: Seq<u8>, value: Seq<u8>)
    requires
        forall|i: int| 0 <= i < key.len() ==> #[trigger] key[i] != 61 && key[i] != 38,
        forall|i: int| 0 <= i < value.len() ==> #[trigger] value[i] != 38,
    ensures
        percent_decoded(key, 0) is Ok && valid_utf8(percent_decoded(key, 0)->Ok_0)
            && percent_decoded(value, 0) is Ok ==> parsed_query(key + seq![61u8] + value, 0) == Ok::<
            Seq<(Seq<u8>, Seq<u8>)>,
            QueryFault,
        >(seq![(percent_decoded(key, 0)->Ok_0, percent_decoded(value, 0)->Ok_0)]),
        percent_decoded(key, 0) is Err ==> parsed_query(key + seq![61u8] + value, 0) == Err::<
            Seq<(Seq<u8>, Seq<u8>)>,
            QueryFault,
        >(percent_decoded(key, 0)->Err_0),
        percent_decoded(key, 0) is Ok && !valid_utf8(percent_decoded(key, 0)->Ok_0) ==> parsed_query(
            key + seq![61u8] + value,
            0,
        ) == Err::<Seq<(Seq<u8>, Seq<u8>)>, QueryFault>(QueryFault::InvalidKey),
        percent_decoded(key, 0) is Ok && valid_utf8(percent_decoded(key, 0)->Ok_0)
            && percent_decoded(value, 0) is Err ==> parsed_query(key + seq![61u8] + value, 0)
            == Err::<Seq<(Seq<u8>, Seq<u8>)>, QueryFault>(percent_decoded(value, 0)->Err_0),
        key.len() > 0 && percent_decoded(key, 0) is Ok && valid_utf8(percent_decoded(key, 0)->Ok_0)
            ==> parsed_query(key, 0) == Ok::<Seq<(Seq<u8>, Seq<u8>)>, QueryFault>(
            seq![(percent_decoded(key, 0)->Ok_0, Seq::<u8>::empty())],
        ),
{
    let part = key + seq![61u8] + value;
    assert forall|i: int| 0 <= i < part.len() implies #[trigger] part[i] != 38 by {
        if i < key.len() {
            assert(part[i] == key[i]);
        } else if i > key.len() {
            assert(part[i] == value[i - key.len() - 1]);
        }
    }
    assert forall|i: int| 0 <= i < key.len() implies #[trigger] part[i] != 61 by {
        assert(part[i] == key[i]);
    }
    lemma_position_of_is(part, 0, key.len() as int, 61);
    assert(part.subrange(0, key.len() as int) =~= key);
    assert(part.subrange(key.len() as int + 1, part.len() as int) =~= value);
    lemma_single_part(part);
    if key.len() > 0 {
        lemma_position_of_is(key, 0, key.len() as int, 61);
        assert(key.subrange(0, key.len() as int) =~= key);
        assert(percent_decoded(Seq::<u8>::empty(), 0) == Ok::<Seq<u8>, QueryFault>(Seq::empty()));
        lemma_single_part(key);
    }
}

/// A query string without an ampersand is one part.
proof fn lemma_single_part(part: Seq<u8>)
    requires
        part.len() > 0,
        forall|i: int| 0 <= i < part.len() ==> #[trigger] part[i] != 38,
    ensures
        parsed_query(part, 0) == match parsed_pair(part) {
            Err(fault) => Err::<Seq<(Seq<u8>, Seq<u8>)>, QueryFault>(fault),
            Ok(pair) => Ok(seq![pair]),
        },
{
    lemma_position_of_is(part, 0, part.len() as int, 38);
    assert(part.subrange(0, part.len() as int) =~= part);
    assert(parsed_query(part, part.len() as int + 1) == Ok::<Seq<(Seq<u8>, Seq<u8>)>, QueryFault>(
        Seq::empty(),
    ));
    if let Ok(pair) = parsed_pair(part) {
        assert(seq![pair] + Seq::<(Seq<u8>, Seq<u8>)>::empty() =~= seq![pair]);
    }
}

/// An ampersand parts a query string: what is before it and what is behind it
/// are read one after the other. An empty query string has no pairs.
pub proof fn law_query_is_read_part_by_part(left: Seq<u8>, right: Seq<u8>)
    ensures
        parsed_query(Seq::empty(), 0) == Ok::<Seq<(Seq<u8>, Seq<u8>)>, QueryFault>(Seq::empty()),
        parsed_query(left, 0) is Ok && parsed_query(right, 0) is Ok ==> parsed_query(
            left + seq![38u8] + right,
            0,
        ) == Ok::<Seq<(Seq<u8>, Seq<u8>)>, QueryFault>(
            parsed_query(left, 0)->Ok_0 + parsed_query(right, 0)->Ok_0,
        ),
        parsed_query(left, 0) is Ok && parsed_query(right, 0) is Err ==> parsed_query(
            left + seq![38u8] + right,
            0,
        ) == Err::<Seq<(Seq<u8>, Seq<u8>)>, QueryFault>(parsed_query(right, 0)->Err_0),
        parsed_query(left, 0) is Err ==> parsed_query(left + seq![38u8] + right, 0) == Err::<
            Seq<(Seq<u8>, Seq<u8>)>,
            QueryFault,
        >(parsed_query(left, 0)->Err_0),
{
    lemma_query_parts(left, right, 0);
}

/// What two parts of a query string give, one behind the other.
spec fn both(
    left: Result<Seq<(Seq<u8>, Seq<u8>)>, QueryFault>,
    right: Result<Seq<(Seq<u8>, Seq<u8>)>, QueryFault>,
) -> Result<Seq<(Seq<u8>, Seq<u8>)>, QueryFault> {
    match (left, right) {
        (Ok(first), Ok(second)) => Ok(first + second),
        (Ok(_), Err(fault)) => Err(fault),
        (Err(fault), _) => Err(fault),
    }
}

/// Reading from within the first of two parts.
proof fn lemma_query_parts(left: Seq<u8>, right: Seq<u8>, at: int)
    requires
        0 <= at,
    ensures
        at <= left.len() ==> parsed_query(left + seq![38u8] + right, at) == both(
            parsed_query(left, at),
            parsed_query(right, 0),
        ),
    decreases left.len() - at,
{
    let whole = left + seq![38u8] + right;
    if at <= left.len() {
        lemma_position_of(left, at, 38);
        let end = position_of(left, at, 38);
        assert(whole[left.len() as int] == 38);
        if at == left.len() {
            lemma_position_of_is(whole, at, at, 38);
            lemma_query_behind(left, right, 0);
            if let Ok(second) = parsed_query(right, 0) {
                assert(Seq::<(Seq<u8>, Seq<u8>)>::empty() + second =~= second);
            }
        } else {
            assert forall|i: int| at <= i < end implies #[trigger] whole[i] != 38 by {
                assert(whole[i] == left[i]);
            }
            if end < left.len() {
                assert(whole[end] == left[end]);
            }
            lemma_position_of_is(whole, at, end, 38);
            assert(whole.subrange(at, end) =~= left.subrange(at, end));
            if end < left.len() {
                lemma_query_parts(left, right, end + 1);
            } else {
                lemma_query_behind(left, right, 0);
                assert(parsed_query(left, end + 1) == Ok::<Seq<(Seq<u8>, Seq<u8>)>, QueryFault>(
                    Seq::empty(),
                ));
                if let Ok(second) = parsed_query(right, 0) {
                    assert(Seq::<(Seq<u8>, Seq<u8>)>::empty() + second =~= second);
                }
            }
            let part = left.subrange(at, end);
            if part.len() > 0 {
                if let Ok(pair) = parsed_pair(part) {
                    if let (Ok(rest), Ok(second)) = (
                        parsed_query(left, end + 1),
                        parsed_query(right, 0),
                    ) {
                        assert(seq![pair] + (rest + second) =~= (seq![pair] + rest) + second);
                    }
                }
            }
        }
    }
}

/// Reading from within the second of two parts.
proof fn lemma_query_behind(left: Seq<u8>, right: Seq<u8>, at: int)
    requires
        0 <= at,
    ensures
        parsed_query(left + seq![38u8] + right, left.len() + 1 + at) == parsed_query(right, at),
    decreases right.len() + 1 - at,
{
    let whole = left + seq![38u8] + right;
    let start = left.len() + 1 + at;
    if at < right.len() {
        lemma_position_of(right, at, 38);
        let end = position_of(right, at, 38);
        assert forall|i: int| start <= i < left.len() + 1 + end implies #[trigger] whole[i] != 38 by {
            assert(whole[i] == right[i - left.len() - 1]);
        }
        if end < right.len() {
            assert(whole[left.len() + 1 + end] == right[end]);
        }
        lemma_position_of_is(whole, start, left.len() + 1 + end, 38);
        assert(whole.subrange(start, left.len() + 1 + end) =~= right.subrange(at, end));
        lemma_query_behind(left, right, end + 1);
    }
}

/// The first value of a key is the value of the first pair with that key, and
/// there is none exactly where no pair has it.
pub proof fn law_first_value_is_the_first(pairs: Seq<(Seq<u8>, Seq<u8>)>, key: Seq<u8>)
    ensures
        first_value(pairs, key) is None <==> forall|i: int|
            0 <= i < pairs.len() ==> (#[trigger] pairs[i]).0 != key,
        forall|i: int|
            0 <= i < pairs.len() && (#[trigger] pairs[i]).0 == key && (forall|j: int|
                0 <= j < i ==> (#[trigger] pairs[j]).0 != key) ==> first_value(pairs, key) == Some(
                pairs[i].1,
            ),
    decreases pairs.len(),
{
    if pairs.len() > 0 && pairs[0].0 != key {
        let rest = pairs.subrange(1, pairs.len() as int);
        law_first_value_is_the_first(rest, key);
        if first_value(pairs, key) is None {
            assert forall|i: int| 0 <= i < pairs.len() implies (#[trigger] pairs[i]).0 != key by {
                if i > 0 {
                    assert(rest[i - 1] == pairs[i]);
                }
            }
        }
        assert forall|i: int|
            0 <= i < pairs.len() && (#[trigger] pairs[i]).0 == key && (forall|j: int|
                0 <= j < i ==> (#[trigger] pairs[j]).0 != key) implies first_value(pairs, key)
            == Some(pairs[i].1) by {
            assert(rest[i - 1] == pairs[i]);
            assert forall|j: int| 0 <= j < i - 1 implies (#[trigger] rest[j]).0 != key by {
                assert(rest[j] == pairs[j + 1]);
            }
        }
        if forall|i: int| 0 <= i < pairs.len() ==> (#[trigger] pairs[i]).0 != key {
            assert forall|i: int| 0 <= i < rest.len() implies (#[trigger] rest[i]).0 != key by {
                assert(rest[i] == pairs[i + 1]);
            }
        }
    } else if pairs.len() > 0 {
        assert forall|i: int|
            0 <= i < pairs.len() && (#[trigger] pairs[i]).0 == key && (forall|j: int|
                0 <= j < i ==> (#[trigger] pairs[j]).0 != key) implies first_value(pairs, key)
            == Some(pairs[i].1) by {
            if i > 0 {
                assert(pairs[0].0 != key);
            }
        }
    }
}

/// The values of a key are those of all pairs with that key, in their order: as
/// many as there are such pairs, and the value of each of them is among them.
pub proof fn law_all_values_are_taken(pairs: Seq<(Seq<u8>, Seq<u8>)>, key: Seq<u8>)
    ensures
        all_values(pairs, key) == pairs.filter(
            |pair: (Seq<u8>, Seq<u8>)| pair.0 == key,
        ).map_values(|pair: (Seq<u8>, Seq<u8>)| pair.1),
        all_values(pairs, key).len() == pairs.filter(
            |pair: (Seq<u8>, Seq<u8>)| pair.0 == key,
        ).len(),
        forall|i: int|
            0 <= i < pairs.len() && (#[trigger] pairs[i]).0 == key ==> all_values(
                pairs,
                key,
            ).contains(pairs[i].1),
    decreases pairs.len(),
{
    reveal(Seq::filter);
    let has_key = |pair: (Seq<u8>, Seq<u8>)| pair.0 == key;
    let value_of = |pair: (Seq<u8>, Seq<u8>)| pair.1;
    if pairs.len() > 0 {
        let head = pairs.drop_last();
        law_all_values_are_taken(head, key);
        let before = all_values(head, key);
        let after = all_values(pairs, key);
        assert(after =~= pairs.filter(has_key).map_values(value_of));
        assert forall|i: int| 0 <= i < pairs.len() && (#[trigger] pairs[i]).0 == key implies
            after.contains(pairs[i].1) by {
            if i < head.len() {
                assert(head[i] == pairs[i]);
                let k = choose|k: int| 0 <= k < before.len() && before[k] == pairs[i].1;
                assert(after[k] == pairs[i].1);
            } else {
                assert(after[after.len() - 1] == pairs[i].1);
            }
        }
    } else {
        assert(all_values(pairs, key) =~= pairs.filter(has_key).map_values(value_of));
    }
}

/// An identifier is a value of 20 bytes, byte by byte, and any other value is
/// refused as malformed.
pub proof fn law_identifiers_have_20_bytes(value: Seq<u8>, name: Seq<char>)
    ensures
        value.len() == 20 ==> parsed_identifier(value, name) is Ok && parsed_identifier(
            value,
            name,
        )->Ok_0@ == value,
        value.len() != 20 ==> parsed_identifier(value, name) is Err && parsed_identifier(
            value,
            name,
        )->Err_0.status == 400,
{
    if value.len() == 20 {
        assert(parsed_identifier(value, name)->Ok_0@ =~= value);
    }
}

/// A number is a run of decimal digits, read to the base of ten; a plus sign may
/// stand before it. Anything else, and a number over the limit, is none.
pub proof fn law_numbers_are_read(text: Seq<u8>, digit: u8, limit: nat)
    requires
        48 <= digit <= 57,
    ensures
        digits_value(Seq::empty()) == 0,
        digits_value(text.push(digit)) == 10 * digits_value(text) + (digit - 48),
        bounded_unsigned(text, limit) is Some ==> text.len() > 0 && forall|i: int|
            0 <= i < text.len() ==> 48 <= #[trigger] text[i] <= 57 || (i == 0 && text[i] == 43),
        text.len() > 0 && (forall|i: int| 0 <= i < text.len() ==> 48 <= #[trigger] text[i] <= 57)
            ==> bounded_unsigned(text, limit) == if digits_value(text) <= limit {
            Some(digits_value(text))
        } else {
            None::<nat>
        },
        text.len() > 0 && (forall|i: int| 0 <= i < text.len() ==> 48 <= #[trigger] text[i] <= 57)
            ==> bounded_unsigned(seq![43u8] + text, limit) == if digits_value(text) <= limit {
            Some(digits_value(text))
        } else {
            None::<nat>
        },
        bounded_unsigned(Seq::empty(), limit) is None,
        bounded_unsigned(seq![43u8], limit) is None,
{
    assert(text.push(digit).drop_last() =~= text);
    let signed = seq![43u8] + text;
    assert(signed.subrange(1, signed.len() as int) =~= text);
    assert(seq![43u8].subrange(1, 1) =~= Seq::<u8>::empty());
    if bounded_unsigned(text, limit) is Some && text[0] == 43 {
        let rest = text.subrange(1, text.len() as int);
        assert forall|i: int| 0 <= i < text.len() implies 48 <= #[trigger] text[i] <= 57 || (i == 0
            && text[i] == 43) by {
            if i > 0 {
                assert(rest[i - 1] == text[i]);
            }
        }
    }
}

/// The decimal text of a number below ten is one digit; that of a larger number
/// is the text of its tenth and the digit of the remainder.
pub proof fn law_decimal_text(number: nat)
    ensures
        number < 10 ==> decimal(number) == seq![(48 + number) as u8],
        number >= 10 ==> decimal(number) == decimal(number / 10).push((48 + number % 10) as u8),
        number < 10 ==> crate::text::decimal_chars(number) == seq![(48 + number) as char],
        number >= 10 ==> crate::text::decimal_chars(number) == crate::text::decimal_chars(
            number / 10,
        ).push((48 + number % 10) as char),
{
}

/// A parameter is read from the first pair with its name. A required one that is
/// missing, and one that cannot be read, is refused as malformed.
pub proof fn law_parameters_are_read(
    pairs: Seq<(Seq<u8>, Seq<u8>)>,
    name: Seq<char>,
    limit: nat,
)
    ensures
        parsed_required_identifier(pairs, name) matches Ok(identifier) ==> first_value(
            pairs,
            encode_utf8(name),
        ) == Some(identifier@),
        parsed_required_identifier(pairs, name) is Ok <==> (first_value(pairs, encode_utf8(name))
            is Some && first_value(pairs, encode_utf8(name))->Some_0.len() == 20),
        first_value(pairs, encode_utf8(name)) is None ==> parsed_number(pairs, name, limit) == Ok::<
            Option<nat>,
            Refusal,
        >(None),
        first_value(pairs, encode_utf8(name)) is None ==> parsed_required_number(pairs, name, limit)
            == Err::<nat, Refusal>(Refusal { status: 400, message: "missing "@ + name })
            && parsed_required_identifier(pairs, name) == Err::<[u8; 20], Refusal>(
            Refusal { status: 400, message: "missing "@ + name },
        ),
        first_value(pairs, encode_utf8(name)) is Some && bounded_unsigned(
            first_value(pairs, encode_utf8(name))->Some_0,
            limit,
        ) is None ==> parsed_number(pairs, name, limit) == Err::<Option<nat>, Refusal>(
            Refusal { status: 400, message: "invalid "@ + name },
        ) && parsed_required_number(pairs, name, limit) == Err::<nat, Refusal>(
            Refusal { status: 400, message: "invalid "@ + name },
        ),
        first_value(pairs, encode_utf8(name)) is Some && bounded_unsigned(
            first_value(pairs, encode_utf8(name))->Some_0,
            limit,
        ) is Some ==> parsed_number(pairs, name, limit) == Ok::<Option<nat>, Refusal>(
            bounded_unsigned(first_value(pairs, encode_utf8(name))->Some_0, limit),
        ) && parsed_required_number(pairs, name, limit) == Ok::<nat, Refusal>(
            bounded_unsigned(first_value(pairs, encode_utf8(name))->Some_0, limit)->Some_0,
        ),
{
    if let Some(value) = first_value(pairs, encode_utf8(name)) {
        law_identifiers_have_20_bytes(value, name);
    }
}

/// The names of the events are told apart by their bytes.
pub proof fn lemma_event_names()
    ensures
        encode_utf8("started"@).len() == 7,
        encode_utf8("completed"@).len() == 9,
        encode_utf8("stopped"@).len() == 7,
        encode_utf8("started"@) != encode_utf8("stopped"@),
{
    reveal_strlit("started");
    reveal_strlit("completed");
    reveal_strlit("stopped");
    vstd::utf8::is_ascii_chars_encode_utf8("started"@);
    vstd::utf8::is_ascii_chars_encode_utf8("completed"@);
    vstd::utf8::is_ascii_chars_encode_utf8("stopped"@);
    assert(encode_utf8("started"@)[2] != encode_utf8("stopped"@)[2]);
}

/// An event is read by its name, none or an empty one is a mere update, and any
/// other is refused. A compact list is sent unless it is declined by a zero.
pub proof fn law_wishes_are_read(value: Seq<u8>)
    ensures
        parsed_event(None) == Ok::<AnnounceEvent, Refusal>(AnnounceEvent::Update),
        value.len() == 0 ==> parsed_event(Some(value)) == Ok::<AnnounceEvent, Refusal>(
            AnnounceEvent::Update,
        ),
        value == encode_utf8("started"@) <==> parsed_event(Some(value)) == Ok::<
            AnnounceEvent,
            Refusal,
        >(AnnounceEvent::Started),
        value == encode_utf8("completed"@) <==> parsed_event(Some(value)) == Ok::<
            AnnounceEvent,
            Refusal,
        >(AnnounceEvent::Completed),
        value == encode_utf8("stopped"@) <==> parsed_event(Some(value)) == Ok::<
            AnnounceEvent,
            Refusal,
        >(AnnounceEvent::Stopped),
        value.len() > 0 && value != encode_utf8("started"@) && value != encode_utf8("completed"@)
            && value != encode_utf8("stopped"@) ==> parsed_event(Some(value)) == Err::<
            AnnounceEvent,
            Refusal,
        >(Refusal { status: 400, message: "invalid event"@ }),
        parsed_compact(None) == Ok::<bool, Refusal>(true),
        parsed_compact(Some(value)) == Ok::<bool, Refusal>(true) <==> value == seq![49u8],
        parsed_compact(Some(value)) == Ok::<bool, Refusal>(false) <==> value == seq![48u8],
        value != seq![48u8] && value != seq![49u8] ==> parsed_compact(Some(value)) == Err::<
            bool,
            Refusal,
        >(Refusal { status: 400, message: "compact must be 0 or 1"@ }),
{
    lemma_event_names();
    assert(seq![48u8][0] != seq![49u8][0]);
}

} // verus!
