//! Query strings of tracker requests, and why a request is refused.

use crate::bencode::{
    append_bencoded_bytes, encode, encode_entries, lemma_encode_entries_push, Node,
};
use crate::state::AnnounceEvent;
use crate::text::{
    append_decimal, bounded_unsigned, decimal_chars, find_byte, hex_byte, hex_digit, hex_value,
    lemma_position_of, parse_unsigned, position_of, same_bytes, utf8_text,
};
use crate::wire::{identifier_at, slice_array};
use vstd::prelude::*;
use vstd::slice::slice_subrange;
use vstd::utf8::{encode_utf8, valid_utf8};

verus! {

/// A refused request: the HTTP status and what is wrong.
#[derive(Debug)]
pub struct ApiError {
    pub status: u16,
    pub message: String,
}

/// A refusal as plain values.
#[verifier::ext_equal]
pub struct Refusal {
    pub status: u16,
    pub message: Seq<char>,
}

impl View for ApiError {
    type V = Refusal;

    open spec fn view(&self) -> Refusal {
        Refusal { status: self.status, message: self.message@ }
    }
}

/// A refusal because the request is malformed.
pub open spec fn bad_request(message: Seq<char>) -> Refusal {
    Refusal { status: 400, message }
}

/// The body of a refusal: a dictionary with the reason.
pub open spec fn refusal_node(message: Seq<char>) -> Node {
    Node::Dictionary(seq![(encode_utf8("failure reason"@), Node::Bytes(encode_utf8(message)))])
}

impl ApiError {
    /// A refusal because the request is malformed.
    pub fn bad_request(message: String) -> (error: Self)
        ensures
            error@ == bad_request(message@),
    {
        ApiError { status: 400, message }
    }

    /// A refusal because the tracker itself has failed.
    pub fn internal(message: String) -> (error: Self)
        ensures
            error@ == (Refusal { status: 500, message: message@ }),
    {
        ApiError { status: 500, message }
    }

    /// The body that tells a client why it was refused.
    pub fn body(&self) -> (body: Vec<u8>)
        ensures
            body@ == encode(refusal_node(self@.message)),
    {
        let mut body: Vec<u8> = Vec::new();
        body.push(100);
        append_bencoded_bytes(&mut body, "failure reason".as_bytes());
        append_bencoded_bytes(&mut body, self.message.as_str().as_bytes());
        body.push(101);
        proof {
            let key = encode_utf8("failure reason"@);
            let value = Node::Bytes(encode_utf8(self.message@));
            lemma_encode_entries_push(Seq::empty(), key, value);
            assert(Seq::<(Seq<u8>, Node)>::empty().push((key, value)) =~= seq![(key, value)]);
            assert(encode_entries(Seq::<(Seq<u8>, Node)>::empty()) =~= Seq::<u8>::empty());
            assert(body@ =~= encode(refusal_node(self@.message)));
        }
        body
    }
}

/// The pairs of keys and values of a query string, in their order.
pub type QueryParams = Vec<(Vec<u8>, Vec<u8>)>;

/// Why a query string is refused.
pub enum QueryFault {
    IncompleteEscape,
    InvalidEscape,
    InvalidKey,
}

/// The text for a refused query string.
pub open spec fn fault_text(fault: QueryFault) -> Seq<char> {
    match fault {
        QueryFault::IncompleteEscape => "incomplete percent escape"@,
        QueryFault::InvalidEscape => "invalid percent escape"@,
        QueryFault::InvalidKey => "query key is not valid UTF-8"@,
    }
}

/// The bytes that percent-encoded text from `at` on stands for. A plus sign is
/// a space.
pub open spec fn percent_decoded(text: Seq<u8>, at: int) -> Result<Seq<u8>, QueryFault>
    decreases text.len() - at,
{
    if at < 0 || at >= text.len() {
        Ok(Seq::empty())
    } else if text[at] == 37 {
        if at + 2 >= text.len() {
            Err(QueryFault::IncompleteEscape)
        } else {
            match (hex_value(text[at + 1]), hex_value(text[at + 2])) {
                (Some(high), Some(low)) => match percent_decoded(text, at + 3) {
                    Ok(rest) => Ok(seq![hex_byte(high, low)] + rest),
                    Err(fault) => Err(fault),
                },
                _ => Err(QueryFault::InvalidEscape),
            }
        }
    } else {
        let byte = if text[at] == 43 {
            32u8
        } else {
            text[at]
        };
        match percent_decoded(text, at + 1) {
            Ok(rest) => Ok(seq![byte] + rest),
            Err(fault) => Err(fault),
        }
    }
}

/// The key and value of one part of a query string. The first equals sign parts
/// them; without one the value is empty.
pub open spec fn parsed_pair(part: Seq<u8>) -> Result<(Seq<u8>, Seq<u8>), QueryFault> {
    let equals = position_of(part, 0, 61);
    let value_text = if equals < part.len() {
        part.subrange(equals + 1, part.len() as int)
    } else {
        Seq::empty()
    };
    match percent_decoded(part.subrange(0, equals), 0) {
        Err(fault) => Err(fault),
        Ok(key) => if !valid_utf8(key) {
            Err(QueryFault::InvalidKey)
        } else {
            match percent_decoded(value_text, 0) {
                Err(fault) => Err(fault),
                Ok(value) => Ok((key, value)),
            }
        },
    }
}

/// The pairs of the query string from `at` on. Ampersands part them, and empty
/// parts are passed over.
pub open spec fn parsed_query(query: Seq<u8>, at: int) -> Result<
    Seq<(Seq<u8>, Seq<u8>)>,
    QueryFault,
>
    decreases query.len() + 1 - at,
    via parsed_query_decreases
{
    if at < 0 || at >= query.len() {
        Ok(Seq::empty())
    } else {
        let end = position_of(query, at, 38);
        let part = query.subrange(at, end);
        if part.len() == 0 {
            parsed_query(query, end + 1)
        } else {
            match parsed_pair(part) {
                Err(fault) => Err(fault),
                Ok(pair) => match parsed_query(query, end + 1) {
                    Err(fault) => Err(fault),
                    Ok(rest) => Ok(seq![pair] + rest),
                },
            }
        }
    }
}

#[via_fn]
proof fn parsed_query_decreases(query: Seq<u8>, at: int) {
    if 0 <= at < query.len() {
        lemma_position_of(query, at, 38);
    }
}

/// The keys and values of parsed parameters.
pub open spec fn pairs_of(params: Seq<(Vec<u8>, Vec<u8>)>) -> Seq<(Seq<u8>, Seq<u8>)> {
    params.map_values(|pair: (Vec<u8>, Vec<u8>)| (pair.0@, pair.1@))
}

/// The first value of a key.
pub open spec fn first_value(pairs: Seq<(Seq<u8>, Seq<u8>)>, key: Seq<u8>) -> Option<Seq<u8>>
    decreases pairs.len(),
{
    if pairs.len() == 0 {
        None
    } else if pairs[0].0 == key {
        Some(pairs[0].1)
    } else {
        first_value(pairs.subrange(1, pairs.len() as int), key)
    }
}

/// All values of a key, in their order.
pub open spec fn all_values(pairs: Seq<(Seq<u8>, Seq<u8>)>, key: Seq<u8>) -> Seq<Seq<u8>>
    decreases pairs.len(),
{
    if pairs.len() == 0 {
        Seq::empty()
    } else {
        let before = all_values(pairs.drop_last(), key);
        if pairs.last().0 == key {
            before.push(pairs.last().1)
        } else {
            before
        }
    }
}

/// The refusal of a query string.
fn refuse(fault: QueryFault) -> (error: ApiError)
    ensures
        error@ == bad_request(fault_text(fault)),
{
    let message: &str = match fault {
        QueryFault::IncompleteEscape => "incomplete percent escape",
        QueryFault::InvalidEscape => "invalid percent escape",
        QueryFault::InvalidKey => "query key is not valid UTF-8",
    };
    ApiError::bad_request(message.to_owned())
}

/// What the rest of the text gives once some bytes were decoded before it.
spec fn prepend_bytes(bytes: Seq<u8>, rest: Result<Seq<u8>, QueryFault>) -> Result<
    Seq<u8>,
    QueryFault,
> {
    match rest {
        Ok(rest) => Ok(bytes + rest),
        Err(fault) => Err(fault),
    }
}

/// What the rest of the query gives once some pairs were parsed before it.
spec fn prepend_pairs(
    pairs: Seq<(Seq<u8>, Seq<u8>)>,
    rest: Result<Seq<(Seq<u8>, Seq<u8>)>, QueryFault>,
) -> Result<Seq<(Seq<u8>, Seq<u8>)>, QueryFault> {
    match rest {
        Ok(rest) => Ok(pairs + rest),
        Err(fault) => Err(fault),
    }
}

/// Decodes percent-encoded text.
pub fn percent_decode(text: &[u8]) -> (result: Result<Vec<u8>, ApiError>)
    ensures
        match result {
            Ok(bytes) => percent_decoded(text@, 0) == Ok::<Seq<u8>, QueryFault>(bytes@),
            Err(error) => percent_decoded(text@, 0) matches Err(fault) && error@ == bad_request(
                fault_text(fault),
            ),
        },
{
    let mut decoded: Vec<u8> = Vec::new();
    let mut index: usize = 0;
    proof {
        if let Ok(rest) = percent_decoded(text@, 0) {
            assert(Seq::<u8>::empty() + rest =~= rest);
        }
        assert(decoded@ =~= Seq::<u8>::empty());
    }
    while index < text.len()
        invariant
            0 <= index <= text@.len(),
            percent_decoded(text@, 0) == prepend_bytes(
                decoded@,
                percent_decoded(text@, index as int),
            ),
        decreases text@.len() - index,
    {
        let byte: u8 = text[index];
        let ghost before = decoded@;
        if byte == 37 {
            if text.len() - index <= 2 {
                return Err(refuse(QueryFault::IncompleteEscape));
            }
            match (hex_digit(text[index + 1]), hex_digit(text[index + 2])) {
                (Some(high), Some(low)) => {
                    decoded.push(high * 16 + low);
                    index = index + 3;
                },
                _ => return Err(refuse(QueryFault::InvalidEscape)),
            }
        } else {
            if byte == 43 {
                decoded.push(32);
            } else {
                decoded.push(byte);
            }
            index = index + 1;
        }
        proof {
            if let Ok(rest) = percent_decoded(text@, index as int) {
                assert(before + (seq![decoded@.last()] + rest) =~= decoded@ + rest);
            }
        }
    }
    assert(decoded@ + Seq::<u8>::empty() =~= decoded@);
    Ok(decoded)
}

/// Parses one part of a query string.
fn parse_pair(part: &[u8]) -> (result: Result<(Vec<u8>, Vec<u8>), ApiError>)
    ensures
        match result {
            Ok(pair) => parsed_pair(part@) == Ok::<(Seq<u8>, Seq<u8>), QueryFault>(
                (pair.0@, pair.1@),
            ),
            Err(error) => parsed_pair(part@) matches Err(fault) && error@ == bad_request(
                fault_text(fault),
            ),
        },
{
    let equals: usize = find_byte(part, 0, 61);
    let key: Vec<u8> = match percent_decode(slice_subrange(part, 0, equals)) {
        Ok(key) => key,
        Err(error) => return Err(error),
    };
    if utf8_text(key.as_slice()).is_none() {
        return Err(refuse(QueryFault::InvalidKey));
    }
    let value_start: usize = if equals < part.len() {
        equals + 1
    } else {
        equals
    };
    let value_text: &[u8] = slice_subrange(part, value_start, part.len());
    proof {
        if equals == part@.len() {
            assert(value_text@ =~= Seq::<u8>::empty());
        }
    }
    match percent_decode(value_text) {
        Ok(value) => Ok((key, value)),
        Err(error) => Err(error),
    }
}

/// Parses a query string.
pub fn parse_query(query: &str) -> (result: Result<QueryParams, ApiError>)
    ensures
        match result {
            Ok(params) => parsed_query(encode_utf8(query@), 0) == Ok::<
                Seq<(Seq<u8>, Seq<u8>)>,
                QueryFault,
            >(pairs_of(params@)),
            Err(error) => parsed_query(encode_utf8(query@), 0) matches Err(fault) && error@
                == bad_request(fault_text(fault)),
        },
{
    let text: &[u8] = query.as_bytes();
    let mut params: QueryParams = Vec::new();
    let mut index: usize = 0;
    proof {
        if let Ok(rest) = parsed_query(text@, 0) {
            assert(Seq::<(Seq<u8>, Seq<u8>)>::empty() + rest =~= rest);
        }
        assert(pairs_of(params@) =~= Seq::<(Seq<u8>, Seq<u8>)>::empty());
    }
    while index < text.len()
        invariant
            0 <= index <= text@.len(),
            text@ == encode_utf8(query@),
            parsed_query(text@, 0) == prepend_pairs(
                pairs_of(params@),
                parsed_query(text@, index as int),
            ),
        decreases text@.len() - index,
    {
        let end: usize = find_byte(text, index, 38);
        let part: &[u8] = slice_subrange(text, index, end);
        let ghost before = pairs_of(params@);
        let next: usize = if end < text.len() {
            end + 1
        } else {
            end
        };
        proof {
            if end == text@.len() {
                assert(parsed_query(text@, end + 1) == parsed_query(text@, next as int));
            }
        }
        if part.len() > 0 {
            match parse_pair(part) {
                Ok(pair) => {
                    let ghost model = (pair.0@, pair.1@);
                    params.push(pair);
                    proof {
                        assert(pairs_of(params@) =~= before.push(model));
                        if let Ok(rest) = parsed_query(text@, end + 1) {
                            assert(before + (seq![model] + rest) =~= pairs_of(params@) + rest);
                        }
                    }
                },
                Err(error) => return Err(error),
            }
        }
        index = next;
    }
    assert(pairs_of(params@) + Seq::<(Seq<u8>, Seq<u8>)>::empty() =~= pairs_of(params@));
    Ok(params)
}

/// The first value of a parameter.
pub fn first<'a>(params: &'a QueryParams, name: &str) -> (value: Option<&'a [u8]>)
    ensures
        match value {
            Some(bytes) => first_value(pairs_of(params@), encode_utf8(name@)) == Some(bytes@),
            None => first_value(pairs_of(params@), encode_utf8(name@)) is None,
        },
{
    let mut index: usize = 0;
    let ghost pairs = pairs_of(params@);
    assert(pairs.subrange(0, pairs.len() as int) =~= pairs);
    while index < params.len()
        invariant
            0 <= index <= params@.len(),
            pairs == pairs_of(params@),
            first_value(pairs, encode_utf8(name@)) == first_value(
                pairs.subrange(index as int, pairs.len() as int),
                encode_utf8(name@),
            ),
        decreases params@.len() - index,
    {
        let ghost rest = pairs.subrange(index as int, pairs.len() as int);
        assert(rest[0] == (params@[index as int].0@, params@[index as int].1@));
        if same_bytes(params[index].0.as_slice(), name.as_bytes()) {
            return Some(params[index].1.as_slice());
        }
        assert(rest.subrange(1, rest.len() as int) =~= pairs.subrange(
            index + 1,
            pairs.len() as int,
        ));
        index = index + 1;
    }
    None
}

/// The refusal of a request without a required parameter.
pub open spec fn missing(name: Seq<char>) -> Refusal {
    bad_request("missing "@ + name)
}

/// The refusal of a parameter that is not a number.
pub open spec fn invalid(name: Seq<char>) -> Refusal {
    bad_request("invalid "@ + name)
}

/// The identifier that a value must be: 20 bytes.
pub open spec fn parsed_identifier(value: Seq<u8>, name: Seq<char>) -> Result<[u8; 20], Refusal> {
    if value.len() == 20 {
        Ok(identifier_at(value, 0))
    } else {
        Err(bad_request(name + " must be 20 bytes, got "@ + decimal_chars(value.len())))
    }
}

/// The identifier that a parameter must be.
pub open spec fn parsed_required_identifier(pairs: Seq<(Seq<u8>, Seq<u8>)>, name: Seq<char>)
    -> Result<[u8; 20], Refusal> {
    match first_value(pairs, encode_utf8(name)) {
        Some(value) => parsed_identifier(value, name),
        None => Err(missing(name)),
    }
}

/// The number that a parameter holds, if it is there, at most `limit`.
pub open spec fn parsed_number(pairs: Seq<(Seq<u8>, Seq<u8>)>, name: Seq<char>, limit: nat)
    -> Result<Option<nat>, Refusal> {
    match first_value(pairs, encode_utf8(name)) {
        None => Ok(None),
        Some(value) => match bounded_unsigned(value, limit) {
            Some(number) => Ok(Some(number)),
            None => Err(invalid(name)),
        },
    }
}

/// The number that a parameter must hold, at most `limit`.
pub open spec fn parsed_required_number(
    pairs: Seq<(Seq<u8>, Seq<u8>)>,
    name: Seq<char>,
    limit: nat,
) -> Result<nat, Refusal> {
    match parsed_number(pairs, name, limit) {
        Err(refusal) => Err(refusal),
        Ok(None) => Err(missing(name)),
        Ok(Some(number)) => Ok(number),
    }
}

/// Whether a result is the one that a model describes.
pub open spec fn reports<T>(result: Result<T, ApiError>, model: Result<T, Refusal>) -> bool {
    match (result, model) {
        (Ok(value), Ok(wanted)) => value == wanted,
        (Err(error), Err(refusal)) => error@ == refusal,
        _ => false,
    }
}

/// A refusal that names a parameter.
fn refuse_named(before: &str, name: &str) -> (error: ApiError)
    ensures
        error@ == bad_request(before@ + name@),
{
    let mut message: String = before.to_owned();
    message.append(name);
    ApiError::bad_request(message)
}

/// Reads an identifier.
pub fn identifier(value: &[u8], name: &str) -> (result: Result<[u8; 20], ApiError>)
    ensures
        reports(result, parsed_identifier(value@, name@)),
{
    if value.len() != 20 {
        let mut message: String = name.to_owned();
        message.append(" must be 20 bytes, got ");
        append_decimal(&mut message, value.len() as u64);
        return Err(ApiError::bad_request(message));
    }
    match slice_array(value, 0) {
        Some(identifier) => Ok(identifier),
        None => Err(refuse_named("invalid ", name)),
    }
}

/// Reads an identifier that must be there.
pub fn required_identifier(params: &QueryParams, name: &str) -> (result: Result<
    [u8; 20],
    ApiError,
>)
    ensures
        reports(result, parsed_required_identifier(pairs_of(params@), name@)),
{
    match first(params, name) {
        Some(value) => identifier(value, name),
        None => Err(refuse_named("missing ", name)),
    }
}

/// A kind of number that a parameter can hold.
pub trait QueryNumber: Sized {
    /// The number's value.
    spec fn value(self) -> nat;

    /// The largest number of this kind.
    spec fn largest() -> nat;

    /// The largest number of this kind.
    fn limit() -> (limit: u128)
        ensures
            limit == Self::largest(),
    ;

    /// The number with a value that is small enough.
    fn narrowed(value: u128) -> (number: Self)
        requires
            value <= Self::largest(),
        ensures
            number.value() == value,
    ;
}

impl QueryNumber for u16 {
    open spec fn value(self) -> nat {
        self as nat
    }

    open spec fn largest() -> nat {
        u16::MAX as nat
    }

    fn limit() -> (limit: u128) {
        u16::MAX as u128
    }

    fn narrowed(value: u128) -> (number: Self) {
        value as u16
    }
}

impl QueryNumber for u64 {
    open spec fn value(self) -> nat {
        self as nat
    }

    open spec fn largest() -> nat {
        u64::MAX as nat
    }

    fn limit() -> (limit: u128) {
        u64::MAX as u128
    }

    fn narrowed(value: u128) -> (number: Self) {
        value as u64
    }
}

impl QueryNumber for usize {
    open spec fn value(self) -> nat {
        self as nat
    }

    open spec fn largest() -> nat {
        usize::MAX as nat
    }

    fn limit() -> (limit: u128) {
        usize::MAX as u128
    }

    fn narrowed(value: u128) -> (number: Self) {
        value as usize
    }
}

/// Reads a number, if it is there.
pub fn optional_number<T: QueryNumber>(params: &QueryParams, name: &str) -> (result: Result<
    Option<T>,
    ApiError,
>)
    ensures
        match (result, parsed_number(pairs_of(params@), name@, T::largest())) {
            (Ok(None), Ok(None)) => true,
            (Ok(Some(number)), Ok(Some(wanted))) => number.value() == wanted,
            (Err(error), Err(refusal)) => error@ == refusal,
            _ => false,
        },
{
    let value: &[u8] = match first(params, name) {
        Some(value) => value,
        None => return Ok(None),
    };
    match parse_unsigned(value, T::limit()) {
        Some(number) => {
            proof {
                lemma_bounded_unsigned(value@, T::largest());
            }
            Ok(Some(T::narrowed(number)))
        },
        None => Err(refuse_named("invalid ", name)),
    }
}

/// A number that was read keeps its bound.
proof fn lemma_bounded_unsigned(text: Seq<u8>, limit: nat)
    ensures
        bounded_unsigned(text, limit) matches Some(number) ==> number <= limit,
{
}

/// Reads a number that must be there.
pub fn required_number<T: QueryNumber>(params: &QueryParams, name: &str) -> (result: Result<
    T,
    ApiError,
>)
    ensures
        match (result, parsed_required_number(pairs_of(params@), name@, T::largest())) {
            (Ok(number), Ok(wanted)) => number.value() == wanted,
            (Err(error), Err(refusal)) => error@ == refusal,
            _ => false,
        },
{
    match optional_number::<T>(params, name) {
        Err(error) => Err(error),
        Ok(Some(number)) => Ok(number),
        Ok(None) => Err(refuse_named("missing ", name)),
    }
}

/// The event that a parameter names.
pub open spec fn parsed_event(value: Option<Seq<u8>>) -> Result<AnnounceEvent, Refusal> {
    match value {
        None => Ok(AnnounceEvent::Update),
        Some(name) => if name.len() == 0 {
            Ok(AnnounceEvent::Update)
        } else if name == encode_utf8("started"@) {
            Ok(AnnounceEvent::Started)
        } else if name == encode_utf8("completed"@) {
            Ok(AnnounceEvent::Completed)
        } else if name == encode_utf8("stopped"@) {
            Ok(AnnounceEvent::Stopped)
        } else {
            Err(bad_request("invalid event"@))
        },
    }
}

/// Whether a parameter asks for compact peers.
pub open spec fn parsed_compact(value: Option<Seq<u8>>) -> Result<bool, Refusal> {
    match value {
        None => Ok(true),
        Some(text) => if text == seq![49u8] {
            Ok(true)
        } else if text == seq![48u8] {
            Ok(false)
        } else {
            Err(bad_request("compact must be 0 or 1"@))
        },
    }
}

/// The bytes of a value, if it is there.
pub open spec fn bytes_of(value: Option<&[u8]>) -> Option<Seq<u8>> {
    match value {
        Some(bytes) => Some(bytes@),
        None => None,
    }
}

/// Reads an event.
pub fn parse_event(value: Option<&[u8]>) -> (result: Result<AnnounceEvent, ApiError>)
    ensures
        reports(result, parsed_event(bytes_of(value))),
{
    match value {
        None => Ok(AnnounceEvent::Update),
        Some(name) => if name.len() == 0 {
            Ok(AnnounceEvent::Update)
        } else if same_bytes(name, "started".as_bytes()) {
            Ok(AnnounceEvent::Started)
        } else if same_bytes(name, "completed".as_bytes()) {
            Ok(AnnounceEvent::Completed)
        } else if same_bytes(name, "stopped".as_bytes()) {
            Ok(AnnounceEvent::Stopped)
        } else {
            Err(ApiError::bad_request("invalid event".to_owned()))
        },
    }
}

/// Reads whether compact peers are asked for.
pub fn parse_compact(value: Option<&[u8]>) -> (result: Result<bool, ApiError>)
    ensures
        reports(result, parsed_compact(bytes_of(value))),
{
    match value {
        None => Ok(true),
        Some(text) => {
            proof {
                if text@.len() == 1 && text@[0] == 49 {
                    assert(text@ =~= seq![49u8]);
                }
                if text@.len() == 1 && text@[0] == 48 {
                    assert(text@ =~= seq![48u8]);
                }
            }
            if text.len() == 1 && text[0] == 49 {
                Ok(true)
            } else if text.len() == 1 && text[0] == 48 {
                Ok(false)
            } else {
                Err(ApiError::bad_request("compact must be 0 or 1".to_owned()))
            }
        },
    }
}

} // verus!
