//! What a block list says, said of its text.

use crate::address::{digit_run_end, hex_run_end, ip_octets_of, IpAddress};
use crate::address_laws::law_address_text_is_read_back;
use crate::blacklist::{
    hash_of, hex_byte_at, is_hash_text, lemma_hash_of, line_entry, names_hash, space_at,
    space_before, spaces_end, spaces_start, trimmed, with_line, with_lines, BlacklistFault,
    BlacklistModel,
};
use crate::state::InfoHash;
use crate::text::{hex_value, lemma_position_of, lemma_position_of_is, position_of};
use vstd::prelude::*;

verus! {

/// An info hash is written as 40 hexadecimal digits, two for each byte, the high
/// one first.
pub proof fn law_hash_text_is_hexadecimal(text: Seq<u8>)
    ensures
        is_hash_text(text) <==> text.len() == 40 && forall|i: int|
            0 <= i < 40 ==> hex_value(#[trigger] text[i]) is Some,
        is_hash_text(text) ==> forall|i: int|
            0 <= i < 20 ==> #[trigger] hash_of(text)@[i] == 16 * hex_value(text[2 * i])->Some_0
                + hex_value(text[2 * i + 1])->Some_0,
{
    if text.len() == 40 && forall|i: int| 0 <= i < 40 ==> hex_value(#[trigger] text[i]) is Some {
        assert forall|i: int| 0 <= i < 20 implies #[trigger] hex_byte_at(text, i) is Some by {
            assert(hex_value(text[2 * i]) is Some && hex_value(text[2 * i + 1]) is Some);
        }
    }
    if is_hash_text(text) {
        assert forall|i: int| 0 <= i < 40 implies hex_value(#[trigger] text[i]) is Some by {
            assert(hex_byte_at(text, i / 2) is Some);
            assert(i == 2 * (i / 2) || i == 2 * (i / 2) + 1);
        }
        let info_hash: InfoHash = named(text);
        lemma_named(text);
        lemma_hash_of(text, info_hash);
        assert forall|i: int| 0 <= i < 20 implies #[trigger] hash_of(text)@[i] == 16 * hex_value(
            text[2 * i],
        )->Some_0 + hex_value(text[2 * i + 1])->Some_0 by {
            assert(hex_byte_at(text, i) == Some(info_hash@[i]));
        }
    }
}

/// The info hash that 40 hexadecimal digits stand for.
spec fn named(text: Seq<u8>) -> InfoHash {
    crate::wire::identifier_at(
        Seq::new(
            20,
            |i: int|
                match hex_byte_at(text, i) {
                    Some(byte) => byte,
                    None => 0,
                },
        ),
        0,
    )
}

/// The info hash is named by its digits.
proof fn lemma_named(text: Seq<u8>)
    requires
        is_hash_text(text),
    ensures
        names_hash(text, named(text)),
{
    let bytes = Seq::new(
        20,
        |i: int|
            match hex_byte_at(text, i) {
                Some(byte) => byte,
                None => 0,
            },
    );
    crate::wire::law_numbers_are_big_endian(bytes, 0);
    assert(named(text)@ =~= bytes);
    assert forall|i: int| 0 <= i < 20 implies #[trigger] hex_byte_at(text, i) == Some(
        named(text)@[i],
    ) by {
        assert(named(text)@[i] == bytes[i]);
        assert(hex_byte_at(text, i) is Some);
    }
}

/// Forty hexadecimal digits are no address.
proof fn lemma_hash_is_no_address(text: Seq<u8>)
    requires
        text.len() == 40,
        forall|i: int| 0 <= i < 40 ==> hex_value(#[trigger] text[i]) is Some,
    ensures
        ip_octets_of(text) is None,
{
    lemma_digits_and_hex(text, 0);
    assert(hex_run_end(text, 0) == 40);
    let end = digit_run_end(text, 0);
    if 0 <= end < 40 {
        assert(hex_value(text[end]) is Some);
        assert(text[end] != 46);
    }
    assert(crate::address::octets_at(text, 0, 4) is None);
    assert(crate::address::group_at(text, 0) is None);
    assert(hex_value(text[0]) is Some);
    assert(text[0] != 58);
    assert(crate::address::ipv6_at(text, 0) is None);
}

/// Where runs of digits end in a text of hexadecimal digits.
proof fn lemma_digits_and_hex(text: Seq<u8>, at: int)
    requires
        0 <= at <= text.len(),
        forall|i: int| 0 <= i < text.len() ==> hex_value(#[trigger] text[i]) is Some,
    ensures
        hex_run_end(text, at) == text.len(),
        at <= digit_run_end(text, at) <= text.len(),
    decreases text.len() - at,
{
    if at < text.len() {
        lemma_digits_and_hex(text, at + 1);
        assert(hex_value(text[at]) is Some);
    }
}

/// An entry of a block list is an address, by its usual text, or an info hash, by
/// its 40 digits. It adds what it names and nothing else. An empty entry adds
/// nothing, and any other entry is refused with the number of its line.
pub proof fn law_entries_are_added(
    entries: BlacklistModel,
    entry: Seq<u8>,
    line: nat,
    ip: IpAddress,
)
    ensures
        with_line(entries, Seq::empty(), line) == Ok::<BlacklistModel, BlacklistFault>(entries),
        with_line(entries, ip.text(), line) == Ok::<BlacklistModel, BlacklistFault>(
            BlacklistModel {
                info_hashes: entries.info_hashes,
                ips: entries.ips.insert(ip.octets()),
            },
        ),
        entry.len() == 40 && (forall|i: int| 0 <= i < 40 ==> hex_value(#[trigger] entry[i]) is Some)
            ==> with_line(entries, entry, line) == Ok::<BlacklistModel, BlacklistFault>(
            BlacklistModel {
                info_hashes: entries.info_hashes.insert(hash_of(entry)),
                ips: entries.ips,
            },
        ),
        entry.len() > 0 && ip_octets_of(entry) is Some ==> with_line(entries, entry, line) == Ok::<
            BlacklistModel,
            BlacklistFault,
        >(
            BlacklistModel {
                info_hashes: entries.info_hashes,
                ips: entries.ips.insert(ip_octets_of(entry)->Some_0),
            },
        ),
        entry.len() > 0 && ip_octets_of(entry) is None && entry.len() != 40 ==> with_line(
            entries,
            entry,
            line,
        ) == Err::<BlacklistModel, BlacklistFault>(BlacklistFault::UnknownEntry { line }),
        ip_octets_of(entry) is None && entry.len() == 40 && (exists|i: int|
            0 <= i < 40 && hex_value(#[trigger] entry[i]) is None) ==> (with_line(
            entries,
            entry,
            line,
        ) matches Err(BlacklistFault::InvalidInfoHash { line: at, .. }) && at == line),
{
    law_address_text_is_read_back(ip);
    lemma_address_has_text(ip);
    law_hash_text_is_hexadecimal(entry);
    if entry.len() == 40 && forall|i: int| 0 <= i < 40 ==> hex_value(#[trigger] entry[i]) is Some {
        lemma_hash_is_no_address(entry);
    }
}

/// An address has a text.
proof fn lemma_address_has_text(ip: IpAddress)
    ensures
        ip.text().len() > 0,
{
    if ip.text().len() == 0 {
        let text = ip.text();
        law_address_text_is_read_back(ip);
        assert(digit_run_end(text, 0) == 0);
        assert(text.subrange(0, 0) =~= Seq::<u8>::empty());
        assert(crate::address::octets_at(text, 0, 4) is None);
        assert(hex_run_end(text, 0) == 0);
        assert(crate::address::group_at(text, 0) is None);
        assert(crate::address::ipv6_at(text, 0) is None);
    }
}

/// A block list is read line by line: what is behind the first line feed is read
/// with what the line before it has added. The first line that is refused is
/// reported.
pub proof fn law_lines_are_read_in_turn(
    entries: BlacklistModel,
    first: Seq<u8>,
    rest: Seq<u8>,
    line: nat,
)
    requires
        forall|i: int| 0 <= i < first.len() ==> #[trigger] first[i] != 10,
    ensures
        with_lines(entries, Seq::empty(), 0, line) == Ok::<BlacklistModel, BlacklistFault>(entries),
        with_lines(entries, first + seq![10u8] + rest, 0, line) == match with_line(
            entries,
            line_entry(first),
            line,
        ) {
            Ok(next) => with_lines(next, rest, 0, line + 1),
            Err(fault) => Err(fault),
        },
        first.len() > 0 ==> with_lines(entries, first, 0, line) == with_line(
            entries,
            line_entry(first),
            line,
        ),
{
    let text = first + seq![10u8] + rest;
    assert(text[first.len() as int] == 10);
    assert forall|i: int| 0 <= i < first.len() implies #[trigger] text[i] != 10 by {
        assert(text[i] == first[i]);
    }
    lemma_position_of_is(text, 0, first.len() as int, 10);
    assert(text.subrange(0, first.len() as int) =~= first);
    if let Ok(next) = with_line(entries, line_entry(first), line) {
        lemma_lines_behind(next, first, rest, 0, line + 1);
    }
    if first.len() > 0 {
        lemma_position_of_is(first, 0, first.len() as int, 10);
        assert(first.subrange(0, first.len() as int) =~= first);
        if let Ok(next) = with_line(entries, line_entry(first), line) {
            assert(with_lines(next, first, first.len() as int + 1, line + 1) == Ok::<
                BlacklistModel,
                BlacklistFault,
            >(next));
        }
    }
}

/// Reading from within what is behind a line.
proof fn lemma_lines_behind(
    entries: BlacklistModel,
    first: Seq<u8>,
    rest: Seq<u8>,
    at: int,
    line: nat,
)
    requires
        0 <= at,
    ensures
        with_lines(entries, first + seq![10u8] + rest, first.len() + 1 + at, line) == with_lines(
            entries,
            rest,
            at,
            line,
        ),
    decreases rest.len() + 1 - at,
{
    let text = first + seq![10u8] + rest;
    let start = first.len() + 1 + at;
    if at < rest.len() {
        lemma_position_of(rest, at, 10);
        let end = position_of(rest, at, 10);
        assert forall|i: int| start <= i < first.len() + 1 + end implies #[trigger] text[i] != 10 by {
            assert(text[i] == rest[i - first.len() - 1]);
        }
        if end < rest.len() {
            assert(text[first.len() + 1 + end] == rest[end]);
        }
        lemma_position_of_is(text, start, first.len() + 1 + end, 10);
        assert(text.subrange(start, first.len() + 1 + end) =~= rest.subrange(at, end));
        if let Ok(next) = with_line(entries, line_entry(rest.subrange(at, end)), line) {
            lemma_lines_behind(next, first, rest, end + 1, line + 1);
        }
    }
}

/// Whether a byte is plain: a sign that is no white space, nor part of a longer
/// character.
pub open spec fn is_plain(byte: u8) -> bool {
    33 <= byte < 128
}

/// Whether a byte is a space or a tabulator.
pub open spec fn is_blank(byte: u8) -> bool {
    byte == 32 || byte == 9
}

/// What a line says is what stands before the first number sign, without the
/// blanks around it.
pub proof fn law_comments_and_blanks_are_passed_over(
    before: Seq<u8>,
    entry: Seq<u8>,
    after: Seq<u8>,
    comment: Seq<u8>,
)
    requires
        forall|i: int| 0 <= i < before.len() ==> is_blank(#[trigger] before[i]),
        forall|i: int| 0 <= i < after.len() ==> is_blank(#[trigger] after[i]),
        forall|i: int| 0 <= i < entry.len() ==> #[trigger] entry[i] != 35,
        entry.len() > 0 ==> is_plain(entry[0]) && is_plain(entry[entry.len() - 1]),
    ensures
        line_entry(before + entry + after) == entry,
        line_entry(before + entry + after + seq![35u8] + comment) == entry,
{
    let text = before + entry + after;
    let line = text + seq![35u8] + comment;
    assert forall|i: int| 0 <= i < text.len() implies #[trigger] text[i] != 35 by {
        if i < before.len() {
            assert(text[i] == before[i]);
        } else if i < before.len() + entry.len() {
            assert(text[i] == entry[i - before.len()]);
        } else {
            assert(text[i] == after[i - before.len() - entry.len()]);
        }
    }
    lemma_position_of_is(text, 0, text.len() as int, 35);
    assert(line[text.len() as int] == 35);
    assert forall|i: int| 0 <= i < text.len() implies #[trigger] line[i] != 35 by {
        assert(line[i] == text[i]);
    }
    lemma_position_of_is(line, 0, text.len() as int, 35);
    assert(text.subrange(0, text.len() as int) =~= text);
    assert(line.subrange(0, text.len() as int) =~= text);
    lemma_trimmed(before, entry, after);
}

/// Blanks around an entry are trimmed.
proof fn lemma_trimmed(before: Seq<u8>, entry: Seq<u8>, after: Seq<u8>)
    requires
        forall|i: int| 0 <= i < before.len() ==> is_blank(#[trigger] before[i]),
        forall|i: int| 0 <= i < after.len() ==> is_blank(#[trigger] after[i]),
        entry.len() > 0 ==> is_plain(entry[0]) && is_plain(entry[entry.len() - 1]),
    ensures
        trimmed(before + entry + after) == entry,
{
    let text = before + entry + after;
    let start = before.len() as int;
    let end = start + entry.len();
    if entry.len() == 0 {
        assert forall|i: int| 0 <= i < text.len() implies is_blank(#[trigger] text[i]) by {
            if i < start {
                assert(text[i] == before[i]);
            } else {
                assert(text[i] == after[i - start]);
            }
        }
        lemma_blanks_from(text, 0, text.len() as int);
        assert(spaces_end(text, 0) == text.len());
        assert(spaces_start(text, text.len() as int, text.len() as int) == text.len());
        assert(trimmed(text) =~= entry);
    } else {
        assert(text[start] == entry[0]);
        assert(text[end - 1] == entry[entry.len() - 1]);
        assert forall|i: int| 0 <= i < start implies is_blank(#[trigger] text[i]) by {
            assert(text[i] == before[i]);
        }
        lemma_blanks_from(text, 0, start);
        assert(space_at(text, start) == 0);
        assert forall|i: int| end <= i < text.len() implies is_blank(#[trigger] text[i]) by {
            assert(text[i] == after[i - end]);
        }
        lemma_blanks_to(text, start, end, text.len() as int);
        let head = text.take(end);
        assert(head[end - 1] == text[end - 1]);
        assert(space_at(head, end - 1) == 0);
        if end - 2 >= start {
            assert(space_at(head, end - 2) != 2);
        }
        if end - 3 >= start {
            assert(space_at(head, end - 3) != 3);
        }
        assert(space_before(text, start, end) == 0);
        assert(trimmed(text) =~= entry);
    }
}

/// Blanks are passed over from the front.
proof fn lemma_blanks_from(text: Seq<u8>, at: int, end: int)
    requires
        0 <= at <= end <= text.len(),
        forall|i: int| at <= i < end ==> is_blank(#[trigger] text[i]),
    ensures
        spaces_end(text, at) == spaces_end(text, end),
    decreases end - at,
{
    if at < end {
        assert(is_blank(text[at]));
        assert(space_at(text, at) == 1);
        lemma_blanks_from(text, at + 1, end);
    }
}

/// Blanks are passed over from the back.
proof fn lemma_blanks_to(text: Seq<u8>, start: int, end: int, at: int)
    requires
        0 <= start <= end <= at <= text.len(),
        forall|i: int| end <= i < at ==> is_blank(#[trigger] text[i]),
    ensures
        spaces_start(text, start, at) == spaces_start(text, start, end),
    decreases at - end,
{
    if end < at {
        assert(is_blank(text[at - 1]));
        assert(text.take(at)[at - 1] == text[at - 1]);
        assert(space_before(text, start, at) == 1);
        lemma_blanks_to(text, start, end, at - 1);
    }
}

} // verus!
