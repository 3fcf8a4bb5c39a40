//! Bencode: the values that the tracker writes and reads, and a strict decoder.

use crate::text::{
    all_digits, append_decimal, append_hex, decimal, decimal_chars, digits_value, hex_chars,
    is_canonical_decimal, is_digit, lemma_canonical_decimal, lemma_decimal, lemma_position_of,
    lemma_position_of_is, numbered, parse_digits, position_of, push_decimal, push_slice,
};
use vstd::prelude::*;

verus! {

/// Values nested this deep or deeper are refused.
pub const MAX_NESTING_DEPTH: usize = 128;

/// A decoded value, whose byte strings borrow from the input.
#[derive(Debug, Eq, PartialEq)]
pub enum Value<'a> {
    Integer(i128),
    Bytes(&'a [u8]),
    List(Vec<Value<'a>>),
    Dictionary(Vec<(&'a [u8], Value<'a>)>),
}

/// Why an input was refused, and where.
#[derive(Clone, Copy, Debug, Eq, PartialEq)]
pub enum DecodeError {
    UnexpectedEnd { offset: usize },
    InvalidToken { offset: usize, token: u8 },
    InvalidInteger { offset: usize },
    InvalidByteStringLength { offset: usize },
    TruncatedByteString { offset: usize },
    InvalidDictionaryKey { offset: usize },
    NestingTooDeep { offset: usize },
    TrailingData { offset: usize },
}

/// The text for a refusal.
pub open spec fn refusal_text(error: DecodeError) -> Seq<char> {
    match error {
        DecodeError::UnexpectedEnd { offset } => "unexpected end of bencode input at byte "@
            + decimal_chars(offset as nat),
        DecodeError::InvalidToken { offset, token } => "invalid bencode token 0x"@ + hex_chars(token)
            + " at byte "@ + decimal_chars(offset as nat),
        DecodeError::InvalidInteger { offset } => "invalid bencode integer at byte "@
            + decimal_chars(offset as nat),
        DecodeError::InvalidByteStringLength { offset } => "invalid byte string length at byte "@
            + decimal_chars(offset as nat),
        DecodeError::TruncatedByteString { offset } => "byte string at byte "@ + decimal_chars(
            offset as nat,
        ) + " exceeds the remaining input"@,
        DecodeError::InvalidDictionaryKey { offset } => "dictionary key at byte "@ + decimal_chars(
            offset as nat,
        ) + " is not a byte string"@,
        DecodeError::NestingTooDeep { offset } => "bencode nesting exceeds "@ + decimal_chars(
            MAX_NESTING_DEPTH as nat,
        ) + " levels at byte "@ + decimal_chars(offset as nat),
        DecodeError::TrailingData { offset } => "trailing data begins at byte "@ + decimal_chars(
            offset as nat,
        ),
    }
}

impl DecodeError {
    /// The text for this refusal.
    pub fn message(&self) -> (message: String)
        ensures
            message@ == refusal_text(*self),
    {
        proof {
            reveal_strlit("");
        }
        match self {
            DecodeError::UnexpectedEnd { offset } => numbered(
                "unexpected end of bencode input at byte ",
                *offset as u64,
                "",
            ),
            DecodeError::InvalidToken { offset, token } => {
                let mut message: String = "invalid bencode token 0x".to_owned();
                append_hex(&mut message, *token);
                message.append(" at byte ");
                append_decimal(&mut message, *offset as u64);
                message
            },
            DecodeError::InvalidInteger { offset } => numbered(
                "invalid bencode integer at byte ",
                *offset as u64,
                "",
            ),
            DecodeError::InvalidByteStringLength { offset } => numbered(
                "invalid byte string length at byte ",
                *offset as u64,
                "",
            ),
            DecodeError::TruncatedByteString { offset } => numbered(
                "byte string at byte ",
                *offset as u64,
                " exceeds the remaining input",
            ),
            DecodeError::InvalidDictionaryKey { offset } => numbered(
                "dictionary key at byte ",
                *offset as u64,
                " is not a byte string",
            ),
            DecodeError::NestingTooDeep { offset } => {
                let mut message: String = numbered(
                    "bencode nesting exceeds ",
                    MAX_NESTING_DEPTH as u64,
                    " levels at byte ",
                );
                append_decimal(&mut message, *offset as u64);
                message
            },
            DecodeError::TrailingData { offset } => numbered(
                "trailing data begins at byte ",
                *offset as u64,
                "",
            ),
        }
    }
}

/// A bencode value as a mathematical tree.
pub enum Node {
    Integer(int),
    Bytes(Seq<u8>),
    List(Seq<Node>),
    Dictionary(Seq<(Seq<u8>, Node)>),
}

impl<'a> Value<'a> {
    /// The tree that this value stands for.
    pub open spec fn model(self) -> Node
        decreases self,
    {
        match self {
            Value::Integer(value) => Node::Integer(value as int),
            Value::Bytes(bytes) => Node::Bytes(bytes@),
            Value::List(values) => Node::List(list_model(values@)),
            Value::Dictionary(entries) => Node::Dictionary(entries_model(entries@)),
        }
    }
}

/// The trees of a sequence of values.
pub open spec fn list_model<'a>(values: Seq<Value<'a>>) -> Seq<Node>
    decreases values,
{
    if values.len() == 0 {
        Seq::empty()
    } else {
        list_model(values.drop_last()).push(values.last().model())
    }
}

/// The keys and trees of a sequence of dictionary entries.
pub open spec fn entries_model<'a>(entries: Seq<(&'a [u8], Value<'a>)>) -> Seq<(Seq<u8>, Node)>
    decreases entries,
{
    if entries.len() == 0 {
        Seq::empty()
    } else {
        entries_model(entries.drop_last()).push((entries.last().0@, entries.last().1.model()))
    }
}

/// The decimal text of an integer, with a minus sign where it is negative.
pub open spec fn signed_decimal(value: int) -> Seq<u8> {
    if value < 0 {
        seq![45u8] + decimal((-value) as nat)
    } else {
        decimal(value as nat)
    }
}

/// The encoding of a byte string: its length, a colon and its bytes.
pub open spec fn encode_bytes(bytes: Seq<u8>) -> Seq<u8> {
    decimal(bytes.len()) + seq![58u8] + bytes
}

/// The encoding of a value.
pub open spec fn encode(node: Node) -> Seq<u8>
    decreases node,
{
    match node {
        Node::Integer(value) => seq![105u8] + signed_decimal(value) + seq![101u8],
        Node::Bytes(bytes) => encode_bytes(bytes),
        Node::List(items) => seq![108u8] + encode_list(items) + seq![101u8],
        Node::Dictionary(entries) => seq![100u8] + encode_entries(entries) + seq![101u8],
    }
}

/// The encodings of `items`, one behind the other.
pub open spec fn encode_list(items: Seq<Node>) -> Seq<u8>
    decreases items,
{
    if items.len() == 0 {
        Seq::empty()
    } else {
        encode(items[0]) + encode_list(items.subrange(1, items.len() as int))
    }
}

/// The encodings of the keys and values of `entries`, one behind the other.
pub open spec fn encode_entries(entries: Seq<(Seq<u8>, Node)>) -> Seq<u8>
    decreases entries,
{
    if entries.len() == 0 {
        Seq::empty()
    } else {
        encode_bytes(entries[0].0) + encode(entries[0].1) + encode_entries(
            entries.subrange(1, entries.len() as int),
        )
    }
}

/// Whether a tree, `depth` levels deep, keeps the decoder's bounds: it is not
/// nested too deep, its integers fit 128 signed bits and its byte strings have
/// lengths that a machine word holds.
pub open spec fn within_bounds(node: Node, depth: nat) -> bool
    decreases node,
{
    &&& depth < MAX_NESTING_DEPTH
    &&& match node {
        Node::Integer(value) => i128::MIN <= value <= i128::MAX,
        Node::Bytes(bytes) => bytes.len() <= usize::MAX,
        Node::List(items) => list_within_bounds(items, depth + 1),
        Node::Dictionary(entries) => entries_within_bounds(entries, depth + 1),
    }
}

/// Whether every one of `items` keeps the decoder's bounds.
pub open spec fn list_within_bounds(items: Seq<Node>, depth: nat) -> bool
    decreases items,
{
    items.len() > 0 ==> within_bounds(items[0], depth) && list_within_bounds(
        items.subrange(1, items.len() as int),
        depth,
    )
}

/// Whether every key and value of `entries` keeps the decoder's bounds.
pub open spec fn entries_within_bounds(entries: Seq<(Seq<u8>, Node)>, depth: nat) -> bool
    decreases entries,
{
    entries.len() > 0 ==> entries[0].0.len() <= usize::MAX && within_bounds(entries[0].1, depth)
        && entries_within_bounds(entries.subrange(1, entries.len() as int), depth)
}

/// The first position from `at` on that holds no digit, or the input's length.
pub open spec fn digits_end(input: Seq<u8>, at: int) -> int
    decreases input.len() - at,
{
    if at < 0 || at >= input.len() {
        input.len() as int
    } else if !is_digit(input[at]) {
        at
    } else {
        digits_end(input, at + 1)
    }
}

/// The number in the text between `i` and `e`: an optional minus sign and
/// digits, with no leading zero and no negative zero, within 128 signed bits.
pub open spec fn integer_text(text: Seq<u8>) -> Option<int> {
    if text.len() > 0 && text[0] == 45 {
        let digits = text.subrange(1, text.len() as int);
        if is_canonical_decimal(digits) && digits[0] != 48 && digits_value(digits)
            <= -(i128::MIN as int) {
            Some(-(digits_value(digits) as int))
        } else {
            None
        }
    } else if is_canonical_decimal(text) && digits_value(text) <= i128::MAX {
        Some(digits_value(text) as int)
    } else {
        None
    }
}

/// Reads the integer that starts at `at`: its tree and the position behind it.
pub open spec fn parsed_integer(input: Seq<u8>, at: int) -> Result<(Node, int), DecodeError> {
    let end = position_of(input, at + 1, 101);
    if end >= input.len() {
        Err(DecodeError::UnexpectedEnd { offset: input.len() as usize })
    } else {
        match integer_text(input.subrange(at + 1, end)) {
            Some(value) => Ok((Node::Integer(value), end + 1)),
            None => Err(DecodeError::InvalidInteger { offset: at as usize }),
        }
    }
}

/// Reads the byte string that starts at `at`: its bytes and the position
/// behind them.
pub open spec fn parsed_bytes(input: Seq<u8>, at: int) -> Result<(Seq<u8>, int), DecodeError> {
    let colon = digits_end(input, at);
    let length_text = input.subrange(at, colon);
    let length = digits_value(length_text);
    if colon >= input.len() {
        Err(DecodeError::UnexpectedEnd { offset: input.len() as usize })
    } else if input[colon] != 58 || !is_canonical_decimal(length_text) || length > usize::MAX {
        Err(DecodeError::InvalidByteStringLength { offset: at as usize })
    } else if colon + 1 + length > input.len() {
        Err(DecodeError::TruncatedByteString { offset: at as usize })
    } else {
        Ok((input.subrange(colon + 1, colon + 1 + length), colon + 1 + length))
    }
}

/// How many further levels of nesting `depth` leaves.
pub open spec fn levels_left(depth: nat) -> nat {
    if depth <= MAX_NESTING_DEPTH {
        (MAX_NESTING_DEPTH - depth) as nat
    } else {
        0
    }
}

/// Reads the value that starts at `at`, `depth` levels deep: its tree and the
/// position behind it.
pub open spec fn parsed_value(input: Seq<u8>, at: int, depth: nat) -> Result<
    (Node, int),
    DecodeError,
>
    decreases 2 * levels_left(depth) + 1, input.len() - at,
{
    if depth >= MAX_NESTING_DEPTH {
        Err(DecodeError::NestingTooDeep { offset: at as usize })
    } else if at >= input.len() {
        Err(DecodeError::UnexpectedEnd { offset: at as usize })
    } else if input[at] == 105 {
        parsed_integer(input, at)
    } else if input[at] == 108 {
        match parsed_list(input, at + 1, depth + 1) {
            Ok((items, end)) => Ok((Node::List(items), end)),
            Err(error) => Err(error),
        }
    } else if input[at] == 100 {
        match parsed_entries(input, at + 1, depth + 1) {
            Ok((entries, end)) => Ok((Node::Dictionary(entries), end)),
            Err(error) => Err(error),
        }
    } else if is_digit(input[at]) {
        match parsed_bytes(input, at) {
            Ok((bytes, end)) => Ok((Node::Bytes(bytes), end)),
            Err(error) => Err(error),
        }
    } else {
        Err(DecodeError::InvalidToken { offset: at as usize, token: input[at] })
    }
}

/// Reads list items from `at` up to the closing `e`.
pub open spec fn parsed_list(input: Seq<u8>, at: int, depth: nat) -> Result<
    (Seq<Node>, int),
    DecodeError,
>
    decreases 2 * levels_left(depth) + 2, input.len() - at,
{
    if at >= input.len() {
        Err(DecodeError::UnexpectedEnd { offset: at as usize })
    } else if input[at] == 101 {
        Ok((Seq::empty(), at + 1))
    } else {
        match parsed_value(input, at, depth) {
            Err(error) => Err(error),
            Ok((item, next)) => if !(at < next <= input.len()) {
                // A value takes at least one byte, so this never happens.
                Err(DecodeError::UnexpectedEnd { offset: at as usize })
            } else {
                match parsed_list(input, next, depth) {
                    Err(error) => Err(error),
                    Ok((rest, end)) => Ok((seq![item] + rest, end)),
                }
            },
        }
    }
}

/// Reads dictionary entries from `at` up to the closing `e`.
pub open spec fn parsed_entries(input: Seq<u8>, at: int, depth: nat) -> Result<
    (Seq<(Seq<u8>, Node)>, int),
    DecodeError,
>
    decreases 2 * levels_left(depth) + 2, input.len() - at,
{
    if at >= input.len() {
        Err(DecodeError::UnexpectedEnd { offset: at as usize })
    } else if input[at] == 101 {
        Ok((Seq::empty(), at + 1))
    } else if !is_digit(input[at]) {
        Err(DecodeError::InvalidDictionaryKey { offset: at as usize })
    } else {
        match parsed_bytes(input, at) {
            Err(error) => Err(error),
            Ok((key, value_at)) => match parsed_value(input, value_at, depth) {
                Err(error) => Err(error),
                Ok((item, next)) => if !(at < next <= input.len()) {
                    // An entry takes at least one byte, so this never happens.
                    Err(DecodeError::UnexpectedEnd { offset: at as usize })
                } else {
                    match parsed_entries(input, next, depth) {
                        Err(error) => Err(error),
                        Ok((rest, end)) => Ok((seq![(key, item)] + rest, end)),
                    }
                },
            },
        }
    }
}

/// What decoding the whole of `input` gives.
pub open spec fn decoded(input: Seq<u8>) -> Result<Node, DecodeError> {
    match parsed_value(input, 0, 0) {
        Err(error) => Err(error),
        Ok((node, end)) => if end != input.len() {
            Err(DecodeError::TrailingData { offset: end as usize })
        } else {
            Ok(node)
        },
    }
}

/// The end of a run of digits lies at or behind its start, and within the input.
proof fn lemma_digits_end(input: Seq<u8>, at: int)
    requires
        0 <= at <= input.len(),
    ensures
        at <= digits_end(input, at) <= input.len(),
        digits_end(input, at) < input.len() ==> !is_digit(input[digits_end(input, at)]),
        forall|i: int| at <= i < digits_end(input, at) ==> is_digit(#[trigger] input[i]),
    decreases input.len() - at,
{
    if at < input.len() && is_digit(input[at]) {
        lemma_digits_end(input, at + 1);
    }
}

/// Every value that is read takes at least one byte and ends within the input.
proof fn lemma_value_advances(input: Seq<u8>, at: int, depth: nat)
    requires
        0 <= at <= input.len(),
    ensures
        parsed_value(input, at, depth) matches Ok((_, end)) ==> at < end <= input.len(),
    decreases 2 * levels_left(depth) + 1, input.len() - at,
{
    if depth < MAX_NESTING_DEPTH && at < input.len() {
        if input[at] == 105 {
            lemma_position_of(input, at + 1, 101);
        } else if input[at] == 108 {
            lemma_list_advances(input, at + 1, depth + 1);
        } else if input[at] == 100 {
            lemma_entries_advance(input, at + 1, depth + 1);
        } else if is_digit(input[at]) {
            lemma_digits_end(input, at);
        }
    }
}

proof fn lemma_list_advances(input: Seq<u8>, at: int, depth: nat)
    requires
        0 <= at <= input.len(),
    ensures
        parsed_list(input, at, depth) matches Ok((_, end)) ==> at < end <= input.len(),
    decreases 2 * levels_left(depth) + 2, input.len() - at,
{
    if at < input.len() && input[at] != 101 {
        lemma_value_advances(input, at, depth);
        if let Ok((item, next)) = parsed_value(input, at, depth) {
            lemma_list_advances(input, next, depth);
        }
    }
}

proof fn lemma_entries_advance(input: Seq<u8>, at: int, depth: nat)
    requires
        0 <= at <= input.len(),
    ensures
        parsed_entries(input, at, depth) matches Ok((_, end)) ==> at < end <= input.len(),
    decreases 2 * levels_left(depth) + 2, input.len() - at,
{
    if at < input.len() && input[at] != 101 && is_digit(input[at]) {
        lemma_digits_end(input, at);
        if let Ok((key, value_at)) = parsed_bytes(input, at) {
            lemma_value_advances(input, value_at, depth);
            if let Ok((item, next)) = parsed_value(input, value_at, depth) {
                lemma_entries_advance(input, next, depth);
            }
        }
    }
}

/// A run of digits ends where it is followed by another byte.
proof fn lemma_digits_end_is(input: Seq<u8>, at: int, end: int)
    requires
        0 <= at <= end < input.len(),
        forall|i: int| at <= i < end ==> is_digit(#[trigger] input[i]),
        !is_digit(input[end]),
    ensures
        digits_end(input, at) == end,
    decreases end - at,
{
    if at < end {
        assert(is_digit(input[at]));
        lemma_digits_end_is(input, at + 1, end);
    }
}

/// The text of an integer within bounds is read back as that integer, and
/// holds no `e`.
proof fn lemma_integer_text(value: int)
    requires
        i128::MIN <= value <= i128::MAX,
    ensures
        integer_text(signed_decimal(value)) == Some(value),
        forall|i: int|
            0 <= i < signed_decimal(value).len() ==> #[trigger] signed_decimal(value)[i] != 101,
{
    let text = signed_decimal(value);
    if value < 0 {
        let digits = decimal((-value) as nat);
        lemma_decimal((-value) as nat);
        assert(text.subrange(1, text.len() as int) =~= digits);
        assert forall|i: int| 0 <= i < text.len() implies #[trigger] text[i] != 101 by {
            if i > 0 {
                assert(text[i] == digits[i - 1]);
                assert(is_digit(digits[i - 1]));
            }
        }
    } else {
        lemma_decimal(value as nat);
        assert(is_digit(text[0]));
        assert forall|i: int| 0 <= i < text.len() implies #[trigger] text[i] != 101 by {
            assert(is_digit(text[i]));
        }
    }
}

/// An encoded byte string is read back as its bytes.
proof fn lemma_bytes_are_read_back(input: Seq<u8>, at: int, bytes: Seq<u8>)
    requires
        bytes.len() <= usize::MAX,
        0 <= at,
        at + encode_bytes(bytes).len() <= input.len(),
        input.subrange(at, at + encode_bytes(bytes).len()) == encode_bytes(bytes),
    ensures
        parsed_bytes(input, at) == Ok::<(Seq<u8>, int), DecodeError>(
            (bytes, at + encode_bytes(bytes).len()),
        ),
        is_digit(input[at]),
{
    let length_text = decimal(bytes.len());
    let encoding = encode_bytes(bytes);
    let colon = at + length_text.len();
    lemma_decimal(bytes.len());
    assert forall|i: int| at <= i < colon implies is_digit(#[trigger] input[i]) by {
        assert(input[i] == input.subrange(at, at + encoding.len())[i - at]);
        assert(encoding[i - at] == length_text[i - at]);
        assert(is_digit(length_text[i - at]));
    }
    assert(input[colon] == input.subrange(at, at + encoding.len())[colon - at]);
    assert(encoding[colon - at] == 58);
    lemma_digits_end_is(input, at, colon);
    assert(input.subrange(at, colon) =~= length_text) by {
        assert forall|i: int| 0 <= i < length_text.len() implies input.subrange(at, colon)[i]
            == length_text[i] by {
            assert(input[at + i] == input.subrange(at, at + encoding.len())[i]);
        }
    }
    assert(input.subrange(colon + 1, colon + 1 + bytes.len()) =~= bytes) by {
        assert forall|i: int| 0 <= i < bytes.len() implies input.subrange(
            colon + 1,
            colon + 1 + bytes.len(),
        )[i] == bytes[i] by {
            assert(input[colon + 1 + i] == input.subrange(at, at + encoding.len())[colon + 1 + i
                - at]);
        }
    }
}

/// What stands at `at` in the input also stands there for a part of it.
proof fn lemma_part(input: Seq<u8>, at: int, whole: Seq<u8>, from: int, part: Seq<u8>)
    requires
        0 <= at,
        at + whole.len() <= input.len(),
        input.subrange(at, at + whole.len()) == whole,
        0 <= from,
        from + part.len() <= whole.len(),
        whole.subrange(from, from + part.len()) == part,
    ensures
        input.subrange(at + from, at + from + part.len()) == part,
{
    assert forall|i: int| 0 <= i < part.len() implies input.subrange(
        at + from,
        at + from + part.len(),
    )[i] == part[i] by {
        assert(whole.subrange(from, from + part.len())[i] == whole[from + i]);
        assert(input.subrange(at, at + whole.len())[from + i] == input[at + from + i]);
    }
    assert(input.subrange(at + from, at + from + part.len()) =~= part);
}

/// An encoded value is read back as that value, wherever it stands in the
/// input.
proof fn lemma_value_is_read_back(input: Seq<u8>, at: int, node: Node, depth: nat)
    requires
        within_bounds(node, depth),
        0 <= at,
        at + encode(node).len() <= input.len(),
        input.subrange(at, at + encode(node).len()) == encode(node),
    ensures
        parsed_value(input, at, depth) == Ok::<(Node, int), DecodeError>(
            (node, at + encode(node).len()),
        ),
        encode(node).len() > 0,
        input[at] != 101,
    decreases node, 0nat,
{
    let encoding = encode(node);
    match node {
        Node::Integer(value) => {
            let text = signed_decimal(value);
            lemma_integer_text(value);
            let end = at + 1 + text.len();
            assert(input[at] == input.subrange(at, at + encoding.len())[0]);
            assert(encoding[0] == 105);
            assert(input[end] == input.subrange(at, at + encoding.len())[end - at]);
            assert(encoding[end - at] == 101);
            assert forall|i: int| at + 1 <= i < end implies #[trigger] input[i] != 101 by {
                assert(input[i] == input.subrange(at, at + encoding.len())[i - at]);
                assert(encoding[i - at] == text[i - at - 1]);
            }
            lemma_position_of_is(input, at + 1, end, 101);
            assert(encoding.subrange(1, 1int + text.len()) =~= text);
            lemma_part(input, at, encoding, 1, text);
        },
        Node::Bytes(bytes) => {
            lemma_bytes_are_read_back(input, at, bytes);
        },
        Node::List(items) => {
            let tail = encode_list(items) + seq![101u8];
            assert(input[at] == input.subrange(at, at + encoding.len())[0]);
            assert(encoding[0] == 108);
            assert(encoding.subrange(1, 1int + tail.len()) =~= tail);
            lemma_part(input, at, encoding, 1, tail);
            lemma_list_is_read_back(input, at + 1, items, depth + 1);
        },
        Node::Dictionary(entries) => {
            let tail = encode_entries(entries) + seq![101u8];
            assert(input[at] == input.subrange(at, at + encoding.len())[0]);
            assert(encoding[0] == 100);
            assert(encoding.subrange(1, 1int + tail.len()) =~= tail);
            lemma_part(input, at, encoding, 1, tail);
            lemma_entries_are_read_back(input, at + 1, entries, depth + 1);
        },
    }
}

proof fn lemma_list_is_read_back(input: Seq<u8>, at: int, items: Seq<Node>, depth: nat)
    requires
        list_within_bounds(items, depth),
        0 <= at,
        at + encode_list(items).len() + 1 <= input.len(),
        input.subrange(at, at + encode_list(items).len() + 1) == encode_list(items) + seq![101u8],
    ensures
        parsed_list(input, at, depth) == Ok::<(Seq<Node>, int), DecodeError>(
            (items, at + encode_list(items).len() + 1),
        ),
    decreases items, 1nat,
{
    let whole = encode_list(items) + seq![101u8];
    if items.len() == 0 {
        assert(input[at] == input.subrange(at, at + whole.len())[0]);
        assert(whole[0] == 101);
        assert(items =~= Seq::<Node>::empty());
    } else {
        let first = encode(items[0]);
        let rest = items.subrange(1, items.len() as int);
        let tail = encode_list(rest) + seq![101u8];
        assert(whole =~= first + tail);
        assert(whole.subrange(0, first.len() as int) =~= first);
        lemma_part(input, at, whole, 0, first);
        lemma_value_is_read_back(input, at, items[0], depth);
        assert(whole.subrange(first.len() as int, first.len() as int + tail.len()) =~= tail);
        lemma_part(input, at, whole, first.len() as int, tail);
        lemma_list_is_read_back(input, at + first.len(), rest, depth);
        assert(seq![items[0]] + rest =~= items);
    }
}

proof fn lemma_entries_are_read_back(
    input: Seq<u8>,
    at: int,
    entries: Seq<(Seq<u8>, Node)>,
    depth: nat,
)
    requires
        entries_within_bounds(entries, depth),
        0 <= at,
        at + encode_entries(entries).len() + 1 <= input.len(),
        input.subrange(at, at + encode_entries(entries).len() + 1) == encode_entries(entries)
            + seq![101u8],
    ensures
        parsed_entries(input, at, depth) == Ok::<(Seq<(Seq<u8>, Node)>, int), DecodeError>(
            (entries, at + encode_entries(entries).len() + 1),
        ),
    decreases entries, 1nat,
{
    let whole = encode_entries(entries) + seq![101u8];
    if entries.len() == 0 {
        assert(input[at] == input.subrange(at, at + whole.len())[0]);
        assert(whole[0] == 101);
        assert(entries =~= Seq::<(Seq<u8>, Node)>::empty());
    } else {
        let key = encode_bytes(entries[0].0);
        let first = encode(entries[0].1);
        let rest = entries.subrange(1, entries.len() as int);
        let tail = encode_entries(rest) + seq![101u8];
        assert(whole =~= key + first + tail);
        assert(whole.subrange(0, key.len() as int) =~= key);
        lemma_part(input, at, whole, 0, key);
        lemma_bytes_are_read_back(input, at, entries[0].0);
        assert(whole.subrange(key.len() as int, key.len() as int + first.len()) =~= first);
        lemma_part(input, at, whole, key.len() as int, first);
        lemma_value_is_read_back(input, at + key.len(), entries[0].1, depth);
        let before = (key.len() + first.len()) as int;
        assert(whole.subrange(before, before + tail.len()) =~= tail);
        lemma_part(input, at, whole, before, tail);
        lemma_entries_are_read_back(input, at + before, rest, depth);
        assert(seq![(entries[0].0, entries[0].1)] + rest =~= entries);
    }
}

/// Decoding an encoded value gives that value back.
pub proof fn law_decode_undoes_encode(node: Node)
    requires
        within_bounds(node, 0),
    ensures
        decoded(encode(node)) == Ok::<Node, DecodeError>(node),
{
    let input = encode(node);
    assert(input.subrange(0, input.len() as int) =~= input);
    lemma_value_is_read_back(input, 0, node, 0);
}

/// A byte string that is read stands encoded in the input.
proof fn lemma_bytes_stand_encoded(input: Seq<u8>, at: int)
    requires
        0 <= at <= input.len(),
    ensures
        parsed_bytes(input, at) matches Ok((bytes, end)) ==> at <= end <= input.len()
            && input.subrange(at, end) == encode_bytes(bytes) && bytes.len() <= usize::MAX,
{
    if let Ok((bytes, end)) = parsed_bytes(input, at) {
        lemma_digits_end(input, at);
        let colon = digits_end(input, at);
        lemma_canonical_decimal(input.subrange(at, colon));
        assert(input.subrange(at, end) =~= input.subrange(at, colon) + seq![58u8] + bytes);
    }
}

/// The text of an integer that is read is that integer's decimal text.
proof fn lemma_integer_text_is_decimal(text: Seq<u8>)
    ensures
        integer_text(text) matches Some(value) ==> signed_decimal(value) == text && i128::MIN
            <= value <= i128::MAX,
{
    if let Some(value) = integer_text(text) {
        if text[0] == 45 {
            let digits = text.subrange(1, text.len() as int);
            lemma_canonical_decimal(digits);
            assert(seq![45u8] + digits =~= text);
        } else {
            lemma_canonical_decimal(text);
        }
    }
}

/// A value that is read stands encoded in the input and keeps the decoder's
/// bounds.
proof fn lemma_value_stands_encoded(input: Seq<u8>, at: int, depth: nat)
    requires
        0 <= at <= input.len(),
    ensures
        parsed_value(input, at, depth) matches Ok((node, end)) ==> input.subrange(at, end)
            == encode(node) && within_bounds(node, depth),
    decreases 2 * levels_left(depth) + 1, input.len() - at,
{
    if let Ok((node, end)) = parsed_value(input, at, depth) {
        if input[at] == 105 {
            let stop = position_of(input, at + 1, 101);
            lemma_position_of(input, at + 1, 101);
            lemma_integer_text_is_decimal(input.subrange(at + 1, stop));
            assert(input.subrange(at, end) =~= seq![105u8] + input.subrange(at + 1, stop)
                + seq![101u8]);
        } else if input[at] == 108 {
            lemma_list_stands_encoded(input, at + 1, depth + 1);
            lemma_list_advances(input, at + 1, depth + 1);
            if let Ok((items, _)) = parsed_list(input, at + 1, depth + 1) {
                assert(input.subrange(at, end) =~= seq![108u8] + input.subrange(at + 1, end));
                assert(encode(node) =~= seq![108u8] + (encode_list(items) + seq![101u8]));
            }
        } else if input[at] == 100 {
            lemma_entries_stand_encoded(input, at + 1, depth + 1);
            lemma_entries_advance(input, at + 1, depth + 1);
            if let Ok((entries, _)) = parsed_entries(input, at + 1, depth + 1) {
                assert(input.subrange(at, end) =~= seq![100u8] + input.subrange(at + 1, end));
                assert(encode(node) =~= seq![100u8] + (encode_entries(entries) + seq![101u8]));
            }
        } else {
            lemma_bytes_stand_encoded(input, at);
        }
    }
}

proof fn lemma_list_stands_encoded(input: Seq<u8>, at: int, depth: nat)
    requires
        0 <= at <= input.len(),
    ensures
        parsed_list(input, at, depth) matches Ok((items, end)) ==> input.subrange(at, end)
            == encode_list(items) + seq![101u8] && list_within_bounds(items, depth),
    decreases 2 * levels_left(depth) + 2, input.len() - at,
{
    if let Ok((items, end)) = parsed_list(input, at, depth) {
        if input[at] == 101 {
            assert(input.subrange(at, end) =~= Seq::<u8>::empty() + seq![101u8]);
        } else {
            lemma_value_advances(input, at, depth);
            lemma_value_stands_encoded(input, at, depth);
            if let Ok((item, next)) = parsed_value(input, at, depth) {
                lemma_list_stands_encoded(input, next, depth);
                lemma_list_advances(input, next, depth);
                if let Ok((rest, _)) = parsed_list(input, next, depth) {
                    assert(items.subrange(1, items.len() as int) =~= rest);
                    assert(items[0] == item);
                    assert(input.subrange(at, end) =~= input.subrange(at, next) + input.subrange(
                        next,
                        end,
                    ));
                    assert(encode_list(items) + seq![101u8] =~= encode(item) + (encode_list(rest)
                        + seq![101u8]));
                }
            }
        }
    }
}

proof fn lemma_entries_stand_encoded(input: Seq<u8>, at: int, depth: nat)
    requires
        0 <= at <= input.len(),
    ensures
        parsed_entries(input, at, depth) matches Ok((entries, end)) ==> input.subrange(at, end)
            == encode_entries(entries) + seq![101u8] && entries_within_bounds(entries, depth),
    decreases 2 * levels_left(depth) + 2, input.len() - at,
{
    if let Ok((entries, end)) = parsed_entries(input, at, depth) {
        if input[at] == 101 {
            assert(input.subrange(at, end) =~= Seq::<u8>::empty() + seq![101u8]);
        } else {
            lemma_bytes_stand_encoded(input, at);
            lemma_digits_end(input, at);
            if let Ok((key, value_at)) = parsed_bytes(input, at) {
                lemma_value_advances(input, value_at, depth);
                lemma_value_stands_encoded(input, value_at, depth);
                if let Ok((item, next)) = parsed_value(input, value_at, depth) {
                    lemma_entries_stand_encoded(input, next, depth);
                    lemma_entries_advance(input, next, depth);
                    if let Ok((rest, _)) = parsed_entries(input, next, depth) {
                        assert(entries.subrange(1, entries.len() as int) =~= rest);
                        assert(entries[0] == (key, item));
                        assert(input.subrange(at, end) =~= input.subrange(at, value_at)
                            + input.subrange(value_at, next) + input.subrange(next, end));
                        assert(encode_entries(entries) + seq![101u8] =~= encode_bytes(key)
                            + encode(item) + (encode_entries(rest) + seq![101u8]));
                    }
                }
            }
        }
    }
}

/// Only the encoding of a value is decoded to it: the decoder accepts no other
/// spelling, and every value that it gives keeps its bounds.
pub proof fn law_encode_undoes_decode(input: Seq<u8>)
    ensures
        decoded(input) matches Ok(node) ==> encode(node) == input && within_bounds(node, 0),
{
    if let Ok(node) = decoded(input) {
        lemma_value_stands_encoded(input, 0, 0);
        assert(input.subrange(0, input.len() as int) =~= input);
    }
}

/// Bytes behind a value that is decoded are refused, at the place where they
/// start.
pub proof fn law_trailing_data_is_refused(input: Seq<u8>, trailing: Seq<u8>)
    requires
        decoded(input) is Ok,
        trailing.len() > 0,
    ensures
        decoded(input + trailing) == Err::<Node, DecodeError>(
            DecodeError::TrailingData { offset: input.len() as usize },
        ),
{
    let node = decoded(input)->Ok_0;
    let longer = input + trailing;
    law_encode_undoes_decode(input);
    assert(longer.subrange(0, input.len() as int) =~= input);
    lemma_value_is_read_back(longer, 0, node, 0);
}

/// Where an input is decoded, no shorter part from its start is.
pub proof fn law_truncated_input_is_refused(input: Seq<u8>, count: int)
    requires
        decoded(input) is Ok,
        0 <= count < input.len(),
    ensures
        decoded(input.take(count)) is Err,
{
    if decoded(input.take(count)) is Ok {
        law_trailing_data_is_refused(input.take(count), input.skip(count));
        assert(input.take(count) + input.skip(count) =~= input);
    }
}

/// Where a refusal points.
pub open spec fn refusal_offset(error: DecodeError) -> usize {
    match error {
        DecodeError::UnexpectedEnd { offset } => offset,
        DecodeError::InvalidToken { offset, .. } => offset,
        DecodeError::InvalidInteger { offset } => offset,
        DecodeError::InvalidByteStringLength { offset } => offset,
        DecodeError::TruncatedByteString { offset } => offset,
        DecodeError::InvalidDictionaryKey { offset } => offset,
        DecodeError::NestingTooDeep { offset } => offset,
        DecodeError::TrailingData { offset } => offset,
    }
}

/// Whether a refusal points into an input: an unexpected end to its end, and an
/// invalid token to a byte that starts no value.
pub open spec fn points_into(error: DecodeError, input: Seq<u8>) -> bool {
    &&& refusal_offset(error) <= input.len()
    &&& match error {
        DecodeError::UnexpectedEnd { offset } => offset == input.len(),
        DecodeError::InvalidToken { offset, token } => offset < input.len()
            && input[offset as int] == token && token != 105 && token != 108 && token != 100
            && !is_digit(token),
        _ => true,
    }
}

/// A refused integer points into the input.
proof fn lemma_integer_refusal(input: Seq<u8>, at: int)
    requires
        0 <= at < input.len() <= usize::MAX,
    ensures
        parsed_integer(input, at) matches Err(error) ==> points_into(error, input),
{
}

/// A refused byte string points into the input.
proof fn lemma_bytes_refusal(input: Seq<u8>, at: int)
    requires
        0 <= at <= input.len() <= usize::MAX,
    ensures
        parsed_bytes(input, at) matches Err(error) ==> points_into(error, input),
{
}

/// A refused value points into the input.
proof fn lemma_value_refusal(input: Seq<u8>, at: int, depth: nat)
    requires
        0 <= at <= input.len() <= usize::MAX,
    ensures
        parsed_value(input, at, depth) matches Err(error) ==> points_into(error, input),
    decreases 2 * levels_left(depth) + 1, input.len() - at,
{
    if depth < MAX_NESTING_DEPTH && at < input.len() {
        if input[at] == 105 {
            lemma_integer_refusal(input, at);
        } else if input[at] == 108 {
            lemma_list_refusal(input, at + 1, depth + 1);
        } else if input[at] == 100 {
            lemma_entries_refusal(input, at + 1, depth + 1);
        } else {
            lemma_bytes_refusal(input, at);
        }
    }
}

/// A refused list points into the input.
proof fn lemma_list_refusal(input: Seq<u8>, at: int, depth: nat)
    requires
        0 <= at <= input.len() <= usize::MAX,
    ensures
        parsed_list(input, at, depth) matches Err(error) ==> points_into(error, input),
    decreases 2 * levels_left(depth) + 2, input.len() - at,
{
    if at < input.len() && input[at] != 101 {
        lemma_value_refusal(input, at, depth);
        lemma_value_advances(input, at, depth);
        if let Ok((_, next)) = parsed_value(input, at, depth) {
            lemma_list_refusal(input, next, depth);
        }
    }
}

/// A refused dictionary points into the input.
proof fn lemma_entries_refusal(input: Seq<u8>, at: int, depth: nat)
    requires
        0 <= at <= input.len() <= usize::MAX,
    ensures
        parsed_entries(input, at, depth) matches Err(error) ==> points_into(error, input),
    decreases 2 * levels_left(depth) + 2, input.len() - at,
{
    if at < input.len() && input[at] != 101 && is_digit(input[at]) {
        lemma_bytes_refusal(input, at);
        lemma_bytes_stand_encoded(input, at);
        if let Ok((_, value_at)) = parsed_bytes(input, at) {
            lemma_digits_end(input, at);
            lemma_value_refusal(input, value_at, depth);
            lemma_value_advances(input, value_at, depth);
            if let Ok((_, next)) = parsed_value(input, value_at, depth) {
                lemma_entries_refusal(input, next, depth);
            }
        }
    }
}

/// Every refusal points into the input, and the empty input ends unexpectedly at
/// its start.
pub proof fn law_refusals_point_into_the_input(input: Seq<u8>)
    requires
        input.len() <= usize::MAX,
    ensures
        decoded(input) matches Err(error) ==> points_into(error, input),
        input.len() == 0 ==> decoded(input) == Err::<Node, DecodeError>(
            DecodeError::UnexpectedEnd { offset: 0 },
        ),
{
    lemma_value_refusal(input, 0, 0);
    lemma_value_advances(input, 0, 0);
}

/// The encoding of items with one more behind them.
pub proof fn lemma_encode_list_push(items: Seq<Node>, item: Node)
    ensures
        encode_list(items.push(item)) == encode_list(items) + encode(item),
    decreases items.len(),
{
    let more = items.push(item);
    if items.len() == 0 {
        assert(more.subrange(1, 1) =~= Seq::<Node>::empty());
        assert(encode_list(Seq::<Node>::empty()) =~= Seq::<u8>::empty());
        assert(encode(item) + Seq::<u8>::empty() =~= Seq::<u8>::empty() + encode(item));
        assert(encode_list(items) =~= Seq::<u8>::empty());
        assert(more[0] == item);
    } else {
        let rest = items.subrange(1, items.len() as int);
        lemma_encode_list_push(rest, item);
        assert(more.subrange(1, more.len() as int) =~= rest.push(item));
        assert(more[0] == items[0]);
        assert(encode(items[0]) + (encode_list(rest) + encode(item)) =~= encode(items[0])
            + encode_list(rest) + encode(item));
    }
}

/// The encoding of entries with one more behind them.
pub proof fn lemma_encode_entries_push(entries: Seq<(Seq<u8>, Node)>, key: Seq<u8>, value: Node)
    ensures
        encode_entries(entries.push((key, value))) == encode_entries(entries) + encode_bytes(key)
            + encode(value),
    decreases entries.len(),
{
    let more = entries.push((key, value));
    if entries.len() == 0 {
        assert(more.subrange(1, 1) =~= Seq::<(Seq<u8>, Node)>::empty());
        assert(encode_entries(Seq::<(Seq<u8>, Node)>::empty()) =~= Seq::<u8>::empty());
        assert(encode_entries(entries) =~= Seq::<u8>::empty());
        assert(more[0] == (key, value));
        assert(encode_bytes(key) + encode(value) + Seq::<u8>::empty() =~= Seq::<u8>::empty()
            + encode_bytes(key) + encode(value));
    } else {
        let rest = entries.subrange(1, entries.len() as int);
        let first = encode_bytes(entries[0].0) + encode(entries[0].1);
        lemma_encode_entries_push(rest, key, value);
        assert(more.subrange(1, more.len() as int) =~= rest.push((key, value)));
        assert(more[0] == entries[0]);
        assert(first + (encode_entries(rest) + encode_bytes(key) + encode(value)) =~= first
            + encode_entries(rest) + encode_bytes(key) + encode(value));
    }
}

/// Appends an encoded byte string.
pub fn append_bencoded_bytes(output: &mut Vec<u8>, value: &[u8])
    ensures
        final(output)@ == old(output)@ + encode_bytes(value@),
{
    push_decimal(output, value.len() as u64);
    output.push(58);
    push_slice(output, value);
    assert(final(output)@ =~= old(output)@ + encode_bytes(value@));
}

/// Appends an encoded integer.
pub fn append_bencoded_integer(output: &mut Vec<u8>, value: u64)
    ensures
        final(output)@ == old(output)@ + encode(Node::Integer(value as int)),
{
    output.push(105);
    push_decimal(output, value);
    output.push(101);
    assert(final(output)@ =~= old(output)@ + encode(Node::Integer(value as int)));
}

/// Decodes the whole of `input`.
pub fn decode<'a>(input: &'a [u8]) -> (result: Result<Value<'a>, DecodeError>)
    ensures
        match result {
            Ok(value) => decoded(input@) == Ok::<Node, DecodeError>(value.model()),
            Err(error) => decoded(input@) == Err::<Node, DecodeError>(error),
        },
{
    let total: usize = input.len();
    let mut parser = Parser { input, offset: 0 };
    match parser.parse_value(0) {
        Err(error) => Err(error),
        Ok(value) => if parser.offset != total {
            Err(DecodeError::TrailingData { offset: parser.offset })
        } else {
            Ok(value)
        },
    }
}

/// A reading position in an input.
struct Parser<'a> {
    input: &'a [u8],
    offset: usize,
}

impl<'a> Parser<'a> {
    spec fn valid(self) -> bool {
        self.offset <= self.input@.len() <= usize::MAX
    }

    fn parse_value(&mut self, depth: usize) -> (result: Result<Value<'a>, DecodeError>)
        requires
            old(self).valid(),
        ensures
            final(self).valid(),
            final(self).input == old(self).input,
            match result {
                Ok(value) => parsed_value(old(self).input@, old(self).offset as int, depth as nat)
                    == Ok::<(Node, int), DecodeError>((value.model(), final(self).offset as int)),
                Err(error) => parsed_value(old(self).input@, old(self).offset as int, depth as nat)
                    == Err::<(Node, int), DecodeError>(error),
            },
        decreases 2 * levels_left(depth as nat) + 1,
    {
        if depth >= MAX_NESTING_DEPTH {
            return Err(DecodeError::NestingTooDeep { offset: self.offset });
        }
        let token: u8 = match self.peek() {
            Ok(token) => token,
            Err(error) => return Err(error),
        };
        if token == 105 {
            self.parse_integer()
        } else if token == 108 {
            self.parse_list(depth + 1)
        } else if token == 100 {
            self.parse_dictionary(depth + 1)
        } else if 48 <= token && token <= 57 {
            match self.parse_bytes() {
                Ok(bytes) => Ok(Value::Bytes(bytes)),
                Err(error) => Err(error),
            }
        } else {
            Err(DecodeError::InvalidToken { offset: self.offset, token })
        }
    }

    fn parse_integer(&mut self) -> (result: Result<Value<'a>, DecodeError>)
        requires
            old(self).valid(),
            old(self).offset < old(self).input@.len(),
        ensures
            final(self).valid(),
            final(self).input == old(self).input,
            match result {
                Ok(value) => parsed_integer(old(self).input@, old(self).offset as int) == Ok::<
                    (Node, int),
                    DecodeError,
                >((value.model(), final(self).offset as int)),
                Err(error) => parsed_integer(old(self).input@, old(self).offset as int) == Err::<
                    (Node, int),
                    DecodeError,
                >(error),
            },
            result matches Err(DecodeError::InvalidInteger { .. }) ==> final(self).offset
                == position_of(old(self).input@, old(self).offset + 1, 101) + 1,
            result matches Err(DecodeError::UnexpectedEnd { .. }) ==> final(self).offset == old(
                self).input@.len(),
    {
        let start: usize = self.offset;
        self.offset = self.offset + 1;
        let value_start: usize = self.offset;
        let ghost whole = self.input@;
        loop
            invariant
                self.input@ == whole,
                self.input == old(self).input,
                start == old(self).offset,
                value_start == start + 1,
                value_start <= self.offset <= whole.len() <= usize::MAX,
                position_of(whole, value_start as int, 101) == position_of(
                    whole,
                    self.offset as int,
                    101,
                ),
            ensures
                self.offset < whole.len(),
                whole[self.offset as int] == 101,
            decreases whole.len() - self.offset,
        {
            match self.peek() {
                Err(error) => return Err(error),
                Ok(byte) => {
                    if byte == 101 {
                        break;
                    }
                },
            }
            self.offset = self.offset + 1;
        }
        let text: &'a [u8] = vstd::slice::slice_subrange(self.input, value_start, self.offset);
        self.offset = self.offset + 1;
        match parse_integer_text(text) {
            Some(value) => Ok(Value::Integer(value)),
            None => Err(DecodeError::InvalidInteger { offset: start }),
        }
    }

    fn parse_bytes(&mut self) -> (result: Result<&'a [u8], DecodeError>)
        requires
            old(self).valid(),
        ensures
            final(self).valid(),
            final(self).input == old(self).input,
            match result {
                Ok(bytes) => parsed_bytes(old(self).input@, old(self).offset as int) == Ok::<
                    (Seq<u8>, int),
                    DecodeError,
                >((bytes@, final(self).offset as int)),
                Err(error) => parsed_bytes(old(self).input@, old(self).offset as int) == Err::<
                    (Seq<u8>, int),
                    DecodeError,
                >(error),
            },
    {
        let start: usize = self.offset;
        let ghost whole = self.input@;
        loop
            invariant
                self.input@ == whole,
                self.input == old(self).input,
                start == old(self).offset,
                start <= self.offset <= whole.len() <= usize::MAX,
                digits_end(whole, start as int) == digits_end(whole, self.offset as int),
                all_digits(whole.subrange(start as int, self.offset as int)),
            ensures
                self.offset < whole.len(),
                whole[self.offset as int] == 58,
                digits_end(whole, start as int) == self.offset,
            decreases whole.len() - self.offset,
        {
            match self.peek() {
                Err(error) => return Err(error),
                Ok(byte) => {
                    if byte == 58 {
                        break;
                    }
                    if byte < 48 || byte > 57 {
                        return Err(DecodeError::InvalidByteStringLength { offset: start });
                    }
                },
            }
            proof {
                let grown = whole.subrange(start as int, self.offset + 1);
                assert forall|i: int| 0 <= i < grown.len() implies is_digit(#[trigger] grown[i]) by {
                    if i < self.offset - start {
                        assert(grown[i] == whole.subrange(start as int, self.offset as int)[i]);
                    }
                }
            }
            self.offset = self.offset + 1;
        }
        let length_text: &[u8] = vstd::slice::slice_subrange(self.input, start, self.offset);
        self.offset = self.offset + 1;
        if length_text.len() == 0 || (length_text.len() > 1 && length_text[0] == 48) {
            return Err(DecodeError::InvalidByteStringLength { offset: start });
        }
        let length: usize = match parse_digits(length_text, usize::MAX as u128) {
            Some(length) => length as usize,
            None => return Err(DecodeError::InvalidByteStringLength { offset: start }),
        };
        if length > self.input.len() - self.offset {
            return Err(DecodeError::TruncatedByteString { offset: start });
        }
        let end: usize = self.offset + length;
        let bytes: &'a [u8] = vstd::slice::slice_subrange(self.input, self.offset, end);
        self.offset = end;
        Ok(bytes)
    }

    fn parse_list(&mut self, depth: usize) -> (result: Result<Value<'a>, DecodeError>)
        requires
            old(self).valid(),
            old(self).offset < old(self).input@.len(),
            depth <= MAX_NESTING_DEPTH,
        ensures
            final(self).valid(),
            final(self).input == old(self).input,
            match result {
                Ok(value) => value.model() matches Node::List(items) && parsed_list(
                    old(self).input@,
                    old(self).offset + 1,
                    depth as nat,
                ) == Ok::<(Seq<Node>, int), DecodeError>((items, final(self).offset as int)),
                Err(error) => parsed_list(old(self).input@, old(self).offset + 1, depth as nat)
                    == Err::<(Seq<Node>, int), DecodeError>(error),
            },
        decreases 2 * levels_left(depth as nat) + 2,
    {
        let ghost whole = self.input@;
        let ghost first: int = self.offset + 1;
        self.offset = self.offset + 1;
        let mut values: Vec<Value<'a>> = Vec::new();
        loop
            invariant
                self.input@ == whole,
                self.input == old(self).input,
                first == old(self).offset + 1,
                self.offset <= whole.len() <= usize::MAX,
                depth <= MAX_NESTING_DEPTH,
                parsed_list(whole, first, depth as nat) == prepend_items(
                    list_model(values@),
                    parsed_list(whole, self.offset as int, depth as nat),
                ),
            decreases whole.len() - self.offset,
        {
            match self.peek() {
                Err(error) => return Err(error),
                Ok(byte) => {
                    if byte == 101 {
                        self.offset = self.offset + 1;
                        assert(list_model(values@) + Seq::<Node>::empty() =~= list_model(values@));
                        return Ok(Value::List(values));
                    }
                },
            }
            proof {
                lemma_value_advances(whole, self.offset as int, depth as nat);
            }
            let ghost before = values@;
            match self.parse_value(depth) {
                Err(error) => return Err(error),
                Ok(value) => {
                    values.push(value);
                    proof {
                        assert(values@.drop_last() =~= before);
                        if let Ok((rest, end)) = parsed_list(whole, self.offset as int, depth as nat) {
                            assert(list_model(before) + (seq![value.model()] + rest) =~= list_model(
                                values@,
                            ) + rest);
                        }
                    }
                },
            }
        }
    }

    fn parse_dictionary(&mut self, depth: usize) -> (result: Result<Value<'a>, DecodeError>)
        requires
            old(self).valid(),
            old(self).offset < old(self).input@.len(),
            depth <= MAX_NESTING_DEPTH,
        ensures
            final(self).valid(),
            final(self).input == old(self).input,
            match result {
                Ok(value) => value.model() matches Node::Dictionary(entries) && parsed_entries(
                    old(self).input@,
                    old(self).offset + 1,
                    depth as nat,
                ) == Ok::<(Seq<(Seq<u8>, Node)>, int), DecodeError>(
                    (entries, final(self).offset as int),
                ),
                Err(error) => parsed_entries(old(self).input@, old(self).offset + 1, depth as nat)
                    == Err::<(Seq<(Seq<u8>, Node)>, int), DecodeError>(error),
            },
        decreases 2 * levels_left(depth as nat) + 2,
    {
        let ghost whole = self.input@;
        let ghost first: int = self.offset + 1;
        self.offset = self.offset + 1;
        let mut entries: Vec<(&'a [u8], Value<'a>)> = Vec::new();
        loop
            invariant
                self.input@ == whole,
                self.input == old(self).input,
                first == old(self).offset + 1,
                self.offset <= whole.len() <= usize::MAX,
                depth <= MAX_NESTING_DEPTH,
                parsed_entries(whole, first, depth as nat) == prepend_entries(
                    entries_model(entries@),
                    parsed_entries(whole, self.offset as int, depth as nat),
                ),
            decreases whole.len() - self.offset,
        {
            let key_offset: usize = self.offset;
            match self.peek() {
                Err(error) => return Err(error),
                Ok(byte) => {
                    if byte == 101 {
                        self.offset = self.offset + 1;
                        assert(entries_model(entries@) + Seq::<(Seq<u8>, Node)>::empty()
                            =~= entries_model(entries@));
                        return Ok(Value::Dictionary(entries));
                    }
                    if byte < 48 || byte > 57 {
                        return Err(DecodeError::InvalidDictionaryKey { offset: key_offset });
                    }
                },
            }
            proof {
                lemma_digits_end(whole, self.offset as int);
            }
            let key: &'a [u8] = match self.parse_bytes() {
                Err(error) => return Err(error),
                Ok(key) => key,
            };
            proof {
                lemma_value_advances(whole, self.offset as int, depth as nat);
            }
            let ghost before = entries@;
            match self.parse_value(depth) {
                Err(error) => return Err(error),
                Ok(value) => {
                    entries.push((key, value));
                    proof {
                        assert(entries@.drop_last() =~= before);
                        if let Ok((rest, end)) = parsed_entries(
                            whole,
                            self.offset as int,
                            depth as nat,
                        ) {
                            assert(entries_model(before) + (seq![(key@, value.model())] + rest)
                                =~= entries_model(entries@) + rest);
                        }
                    }
                },
            }
        }
    }

    fn peek(&self) -> (result: Result<u8, DecodeError>)
        requires
            self.valid(),
        ensures
            result == (if self.offset < self.input@.len() {
                Ok::<u8, DecodeError>(self.input@[self.offset as int])
            } else {
                Err::<u8, DecodeError>(DecodeError::UnexpectedEnd { offset: self.offset })
            }),
    {
        if self.offset < self.input.len() {
            Ok(self.input[self.offset])
        } else {
            Err(DecodeError::UnexpectedEnd { offset: self.offset })
        }
    }
}

/// What reading the remaining items gives once `items` were read before them.
spec fn prepend_items(
    items: Seq<Node>,
    rest: Result<(Seq<Node>, int), DecodeError>,
) -> Result<(Seq<Node>, int), DecodeError> {
    match rest {
        Ok((rest, end)) => Ok((items + rest, end)),
        Err(error) => Err(error),
    }
}

/// What reading the remaining entries gives once `entries` were read before
/// them.
spec fn prepend_entries(
    entries: Seq<(Seq<u8>, Node)>,
    rest: Result<(Seq<(Seq<u8>, Node)>, int), DecodeError>,
) -> Result<(Seq<(Seq<u8>, Node)>, int), DecodeError> {
    match rest {
        Ok((rest, end)) => Ok((entries + rest, end)),
        Err(error) => Err(error),
    }
}

/// Reads the text between `i` and `e`.
fn parse_integer_text(text: &[u8]) -> (result: Option<i128>)
    ensures
        result is Some <==> integer_text(text@) is Some,
        result matches Some(value) ==> integer_text(text@) == Some(value as int),
{
    let negative: bool = text.len() > 0 && text[0] == 45;
    let digits: &[u8] = if negative {
        vstd::slice::slice_subrange(text, 1, text.len())
    } else {
        text
    };
    if digits.len() == 0 || (digits[0] == 48 && (negative || digits.len() > 1)) {
        return None;
    }
    if negative {
        match parse_digits(digits, 170141183460469231731687303715884105728) {
            Some(magnitude) => {
                if magnitude == 170141183460469231731687303715884105728 {
                    Some(i128::MIN)
                } else {
                    Some(-(magnitude as i128))
                }
            },
            None => None,
        }
    } else {
        match parse_digits(digits, i128::MAX as u128) {
            Some(magnitude) => Some(magnitude as i128),
            None => None,
        }
    }
}

/// The forms of bencode: an integer stands between the letters i and e, a byte
/// string behind its length and a colon, a list between l and e, and a dictionary
/// between d and e, each key as a byte string before its value.
pub proof fn law_bencode_forms(
    value: int,
    bytes: Seq<u8>,
    items: Seq<Node>,
    entries: Seq<(Seq<u8>, Node)>,
    item: Node,
)
    ensures
        value >= 0 ==> encode(Node::Integer(value)) == seq![105u8] + decimal(value as nat)
            + seq![101u8],
        value < 0 ==> encode(Node::Integer(value)) == seq![105u8, 45u8] + decimal((-value) as nat)
            + seq![101u8],
        encode(Node::Bytes(bytes)) == decimal(bytes.len()) + seq![58u8] + bytes,
        encode(Node::List(Seq::empty())) == seq![108u8, 101u8],
        encode(Node::Dictionary(Seq::empty())) == seq![100u8, 101u8],
        encode(Node::List(seq![item] + items)) == seq![108u8] + encode(item) + encode(
            Node::List(items),
        ).subrange(1, encode(Node::List(items)).len() as int),
        encode(Node::Dictionary(seq![(bytes, item)] + entries)) == seq![100u8] + encode(
            Node::Bytes(bytes),
        ) + encode(item) + encode(Node::Dictionary(entries)).subrange(
            1,
            encode(Node::Dictionary(entries)).len() as int,
        ),
{
    if value < 0 {
        assert(seq![105u8] + (seq![45u8] + decimal((-value) as nat)) + seq![101u8] =~= seq![
            105u8,
            45u8,
        ] + decimal((-value) as nat) + seq![101u8]);
    }
    assert(encode_list(Seq::<Node>::empty()) =~= Seq::<u8>::empty());
    assert(encode_entries(Seq::<(Seq<u8>, Node)>::empty()) =~= Seq::<u8>::empty());
    assert(encode(Node::List(Seq::empty())) =~= seq![108u8, 101u8]);
    assert(encode(Node::Dictionary(Seq::empty())) =~= seq![100u8, 101u8]);
    let longer = seq![item] + items;
    assert(longer.subrange(1, longer.len() as int) =~= items);
    assert(encode(Node::List(items)).subrange(1, encode(Node::List(items)).len() as int)
        =~= encode_list(items) + seq![101u8]);
    assert(encode(Node::List(longer)) =~= seq![108u8] + encode(item) + (encode_list(items) + seq![
        101u8,
    ]));
    let larger = seq![(bytes, item)] + entries;
    assert(larger.subrange(1, larger.len() as int) =~= entries);
    assert(encode(Node::Dictionary(entries)).subrange(
        1,
        encode(Node::Dictionary(entries)).len() as int,
    ) =~= encode_entries(entries) + seq![101u8]);
    assert(encode(Node::Dictionary(larger)) =~= seq![100u8] + encode(Node::Bytes(bytes)) + encode(
        item,
    ) + (encode_entries(entries) + seq![101u8]));
}

} // verus!
