//! What is written of an address is read back as that address.

use crate::address::{
    digit_run_end, following_groups_text, group_at, group_octets, groups_at, groups_text, hex_char,
    hex_number, hex_run_end, hex_text, holds, ip_octets_of, ipv4_text, ipv6_at, ipv6_text,
    is_mapped, longest_zero_run, mapped_prefix, octet_at, octet_groups, octets_at, pair, socket_of,
    zero_groups, zero_run, IpAddress,
};
use crate::text::{decimal, hex_value, is_digit, lemma_decimal};
use vstd::prelude::*;

verus! {

/// Reading the text of an address gives that address back.
pub proof fn law_address_text_is_read_back(ip: IpAddress)
    ensures
        ip_octets_of(ip.text()) == Some(ip.octets()),
{
    let text = ip.text();
    assert(text.subrange(0, text.len() as int) =~= text);
    match ip {
        IpAddress::V4(octets) => {
            lemma_ipv4_is_read_back(text, 0, octets@);
        },
        IpAddress::V6(octets) => {
            lemma_ipv6_is_read_back(octets@);
        },
    }
}

/// Whether the byte at `at` ends a number: there is none, or it is a dot or a
/// colon.
spec fn ends_number(text: Seq<u8>, at: int) -> bool {
    at == text.len() || holds(text, at, 46) || holds(text, at, 58)
}

/// Whether the byte at `at` ends a group: there is none, or it is a colon.
spec fn ends_group(text: Seq<u8>, at: int) -> bool {
    at == text.len() || holds(text, at, 58)
}

proof fn lemma_digit_run_end_is(text: Seq<u8>, at: int, end: int)
    requires
        0 <= at <= end <= text.len(),
        forall|i: int| at <= i < end ==> is_digit(#[trigger] text[i]),
        ends_number(text, end),
    ensures
        digit_run_end(text, at) == end,
    decreases end - at,
{
    if at < end {
        assert(is_digit(text[at]));
        lemma_digit_run_end_is(text, at + 1, end);
    }
}

/// A run of digits ends no later than where a group does.
proof fn lemma_digit_run_end_within(text: Seq<u8>, at: int, end: int)
    requires
        0 <= at <= end <= text.len(),
        ends_group(text, end),
    ensures
        at <= digit_run_end(text, at) <= end,
        digit_run_end(text, at) < end ==> !is_digit(text[digit_run_end(text, at)]),
    decreases end - at,
{
    if at < end && is_digit(text[at]) {
        lemma_digit_run_end_within(text, at + 1, end);
    }
}

proof fn lemma_hex_run_end_is(text: Seq<u8>, at: int, end: int)
    requires
        0 <= at <= end <= text.len(),
        forall|i: int| at <= i < end ==> hex_value(#[trigger] text[i]) is Some,
        ends_group(text, end),
    ensures
        hex_run_end(text, at) == end,
    decreases end - at,
{
    if at < end {
        assert(hex_value(text[at]) is Some);
        lemma_hex_run_end_is(text, at + 1, end);
    }
}

/// The decimal text of an octet has at most three digits.
proof fn lemma_octet_length(octet: u8)
    ensures
        decimal(octet as nat).len() <= 3,
{
    reveal_with_fuel(decimal, 3);
}

/// What stands at `at` also stands there for a part of it.
proof fn lemma_part_of(text: Seq<u8>, at: int, whole: Seq<u8>, from: int, part: Seq<u8>)
    requires
        0 <= at,
        at + whole.len() <= text.len(),
        text.subrange(at, at + whole.len()) == whole,
        0 <= from,
        from + part.len() <= whole.len(),
        whole.subrange(from, from + part.len()) == part,
    ensures
        text.subrange(at + from, at + from + part.len()) == part,
        forall|i: int| 0 <= i < part.len() ==> #[trigger] text[at + from + i] == part[i],
{
    assert forall|i: int| 0 <= i < part.len() implies #[trigger] text[at + from + i] == part[i] by {
        assert(whole.subrange(from, from + part.len())[i] == whole[from + i]);
        assert(text.subrange(at, at + whole.len())[from + i] == text[at + from + i]);
    }
    assert(text.subrange(at + from, at + from + part.len()) =~= part);
}

proof fn lemma_octet_is_read_back(text: Seq<u8>, at: int, octet: u8)
    requires
        0 <= at,
        at + decimal(octet as nat).len() <= text.len(),
        text.subrange(at, at + decimal(octet as nat).len()) == decimal(octet as nat),
        ends_number(text, at + decimal(octet as nat).len()),
    ensures
        octet_at(text, at) == Some((octet, at + decimal(octet as nat).len())),
{
    let run = decimal(octet as nat);
    lemma_decimal(octet as nat);
    lemma_octet_length(octet);
    assert forall|i: int| at <= i < at + run.len() implies is_digit(#[trigger] text[i]) by {
        assert(text.subrange(at, at + run.len())[i - at] == text[i]);
        assert(is_digit(run[i - at]));
    }
    lemma_digit_run_end_is(text, at, at + run.len());
}

/// An octet and a dot, read as the first of several octets.
proof fn lemma_next_octet(text: Seq<u8>, at: int, octet: u8, count: nat)
    requires
        count >= 2,
        0 <= at,
        at + decimal(octet as nat).len() < text.len(),
        text.subrange(at, at + decimal(octet as nat).len()) == decimal(octet as nat),
        holds(text, at + decimal(octet as nat).len(), 46),
    ensures
        octets_at(text, at, count) == match octets_at(
            text,
            at + decimal(octet as nat).len() + 1,
            (count - 1) as nat,
        ) {
            None => None,
            Some((rest, last)) => Some((seq![octet] + rest, last)),
        },
{
    lemma_octet_is_read_back(text, at, octet);
}

proof fn lemma_ipv4_is_read_back(text: Seq<u8>, at: int, octets: Seq<u8>)
    requires
        octets.len() == 4,
        0 <= at,
        at + ipv4_text(octets).len() <= text.len(),
        ends_number(text, at + ipv4_text(octets).len()),
        text.subrange(at, at + ipv4_text(octets).len()) == ipv4_text(octets),
    ensures
        octets_at(text, at, 4) == Some((octets, at + ipv4_text(octets).len())),
{
    let whole = ipv4_text(octets);
    let a = decimal(octets[0] as nat);
    let b = decimal(octets[1] as nat);
    let c = decimal(octets[2] as nat);
    let d = decimal(octets[3] as nat);
    let dot = seq![46u8];
    let p1 = a.len() as int;
    let p2 = p1 + 1 + b.len();
    let p3 = p2 + 1 + c.len();
    assert(whole.subrange(0, p1) =~= a);
    assert(whole.subrange(p1, p1 + 1) =~= dot);
    assert(whole.subrange(p1 + 1, p2) =~= b);
    assert(whole.subrange(p2, p2 + 1) =~= dot);
    assert(whole.subrange(p2 + 1, p3) =~= c);
    assert(whole.subrange(p3, p3 + 1) =~= dot);
    assert(whole.subrange(p3 + 1, p3 + 1 + d.len()) =~= d);
    lemma_part_of(text, at, whole, 0, a);
    lemma_part_of(text, at, whole, p1, dot);
    lemma_part_of(text, at, whole, p1 + 1, b);
    lemma_part_of(text, at, whole, p2, dot);
    lemma_part_of(text, at, whole, p2 + 1, c);
    lemma_part_of(text, at, whole, p3, dot);
    lemma_part_of(text, at, whole, p3 + 1, d);
    assert(text[at + p1 + 0] == dot[0]);
    assert(text[at + p2 + 0] == dot[0]);
    assert(text[at + p3 + 0] == dot[0]);
    lemma_octet_is_read_back(text, at + p3 + 1, octets[3]);
    assert(octets_at(text, at + p3 + 1, 1) == Some((seq![octets[3]], at + p3 + 1 + d.len())));
    lemma_next_octet(text, at + p2 + 1, octets[2], 2);
    lemma_next_octet(text, at + p1 + 1, octets[1], 3);
    lemma_next_octet(text, at, octets[0], 4);
    assert(seq![octets[0]] + (seq![octets[1]] + (seq![octets[2]] + seq![octets[3]])) =~= octets);
}

/// The hexadecimal text of a number is made of hexadecimal digits and denotes
/// that number.
proof fn lemma_hex_text(number: nat)
    ensures
        hex_text(number).len() > 0,
        hex_number(hex_text(number)) == number,
        forall|i: int|
            0 <= i < hex_text(number).len() ==> hex_value(#[trigger] hex_text(number)[i]) is Some,
    decreases number,
{
    let text = hex_text(number);
    if number < 16 {
        assert(text.drop_last() =~= Seq::<u8>::empty());
        assert(hex_number(Seq::<u8>::empty()) == 0);
        assert(text.last() == hex_char(number));
    } else {
        let head = hex_text(number / 16);
        lemma_hex_text(number / 16);
        assert(text.drop_last() =~= head);
        assert(text.last() == hex_char(number % 16));
        assert forall|i: int| 0 <= i < text.len() implies hex_value(#[trigger] text[i]) is Some by {
            if i < head.len() {
                assert(text[i] == head[i]);
            }
        }
    }
}

/// A group's text has at most four digits.
proof fn lemma_group_length(group: u16)
    ensures
        hex_text(group as nat).len() <= 4,
{
    reveal_with_fuel(hex_text, 4);
}

proof fn lemma_group_is_read_back(text: Seq<u8>, at: int, group: u16)
    requires
        0 <= at,
        at + hex_text(group as nat).len() <= text.len(),
        text.subrange(at, at + hex_text(group as nat).len()) == hex_text(group as nat),
        ends_group(text, at + hex_text(group as nat).len()),
    ensures
        group_at(text, at) == Some((group, at + hex_text(group as nat).len())),
        octets_at(text, at, 4) is None,
{
    let run = hex_text(group as nat);
    let end = at + run.len();
    lemma_hex_text(group as nat);
    lemma_group_length(group);
    assert forall|i: int| at <= i < end implies hex_value(#[trigger] text[i]) is Some by {
        assert(text.subrange(at, end)[i - at] == text[i]);
        assert(hex_value(run[i - at]) is Some);
    }
    lemma_hex_run_end_is(text, at, end);
    lemma_digit_run_end_within(text, at, end);
    let stop = digit_run_end(text, at);
    if stop < end {
        assert(hex_value(text[stop]) is Some);
    }
    assert(!holds(text, stop, 46));
}

/// Nothing is read where a colon or the end of the text stands.
proof fn lemma_no_number(text: Seq<u8>, at: int)
    requires
        0 <= at <= text.len(),
        ends_group(text, at),
    ensures
        octets_at(text, at, 4) is None,
        group_at(text, at) is None,
{
    assert(digit_run_end(text, at) == at);
    assert(hex_run_end(text, at) == at);
}

/// Whether no further group follows at `at`: the text ends there, or two colons
/// stand there.
spec fn ends_groups(text: Seq<u8>, at: int) -> bool {
    at == text.len() || (holds(text, at, 58) && holds(text, at + 1, 58))
}

proof fn lemma_following_groups(text: Seq<u8>, at: int, groups: Seq<u16>, limit: nat)
    requires
        0 <= at,
        at + following_groups_text(groups).len() <= text.len(),
        text.subrange(at, at + following_groups_text(groups).len()) == following_groups_text(groups),
        groups.len() <= limit,
        ends_groups(text, at + following_groups_text(groups).len()),
    ensures
        groups_at(text, at, false, limit) == (
            groups,
            false,
            at + following_groups_text(groups).len(),
        ),
    decreases groups.len(),
{
    let whole = following_groups_text(groups);
    if groups.len() == 0 {
        assert(groups =~= Seq::<u16>::empty());
        if limit > 0 && holds(text, at, 58) {
            lemma_no_number(text, at + 1);
        }
    } else {
        let first = hex_text(groups[0] as nat);
        let rest = groups.subrange(1, groups.len() as int);
        let tail = following_groups_text(rest);
        assert(whole.subrange(0, 1) =~= seq![58u8]);
        lemma_part_of(text, at, whole, 0, seq![58u8]);
        assert(text[at + 0 + 0] == seq![58u8][0]);
        assert(whole.subrange(1, 1int + first.len()) =~= first);
        lemma_part_of(text, at, whole, 1, first);
        let behind = 1int + first.len();
        assert(whole.subrange(behind, behind + tail.len()) =~= tail);
        lemma_part_of(text, at, whole, behind, tail);
        if rest.len() > 0 {
            assert(tail[0] == 58);
            assert(text[at + behind + 0] == tail[0]);
        }
        lemma_group_is_read_back(text, at + 1, groups[0]);
        lemma_following_groups(text, at + behind, rest, (limit - 1) as nat);
        assert(seq![groups[0]] + rest =~= groups);
    }
}

proof fn lemma_leading_groups(text: Seq<u8>, at: int, groups: Seq<u16>, limit: nat)
    requires
        0 <= at,
        at + groups_text(groups).len() <= text.len(),
        text.subrange(at, at + groups_text(groups).len()) == groups_text(groups),
        groups.len() <= limit,
        ends_groups(text, at + groups_text(groups).len()),
    ensures
        groups_at(text, at, true, limit) == (groups, false, at + groups_text(groups).len()),
        octets_at(text, at, 4) is None,
{
    let whole = groups_text(groups);
    if groups.len() == 0 {
        assert(groups =~= Seq::<u16>::empty());
        lemma_no_number(text, at);
    } else {
        let first = hex_text(groups[0] as nat);
        let rest = groups.subrange(1, groups.len() as int);
        let tail = following_groups_text(rest);
        assert(whole.subrange(0, first.len() as int) =~= first);
        lemma_part_of(text, at, whole, 0, first);
        let behind = first.len() as int;
        assert(whole.subrange(behind, behind + tail.len()) =~= tail);
        lemma_part_of(text, at, whole, behind, tail);
        if rest.len() > 0 {
            assert(tail[0] == 58);
            assert(text[at + behind + 0] == tail[0]);
        }
        lemma_group_is_read_back(text, at, groups[0]);
        lemma_following_groups(text, at + behind, rest, (limit - 1) as nat);
        assert(seq![groups[0]] + rest =~= groups);
    }
}

/// A run of zeros is made of zeros and ends within the groups.
proof fn lemma_zero_run(groups: Seq<u16>, at: int)
    requires
        0 <= at <= groups.len(),
    ensures
        0 <= zero_run(groups, at),
        at + zero_run(groups, at) <= groups.len(),
        forall|i: int| at <= i < at + zero_run(groups, at) ==> #[trigger] groups[i] == 0,
    decreases groups.len() - at,
{
    if at < groups.len() && groups[at] == 0 {
        lemma_zero_run(groups, at + 1);
    }
}

proof fn lemma_longest_zero_run(groups: Seq<u16>, count: nat)
    ensures
        0 <= longest_zero_run(groups, count),
        count > 0 ==> longest_zero_run(groups, count) < count,
        count == 0 ==> longest_zero_run(groups, count) == 0,
    decreases count,
{
    if count > 1 {
        lemma_longest_zero_run(groups, (count - 1) as nat);
    }
}

/// Sixteen octets are those of their groups.
proof fn lemma_groups_of_octets(octets: Seq<u8>)
    requires
        octets.len() == 16,
    ensures
        group_octets(octet_groups(octets)) == octets,
{
    let groups = octet_groups(octets);
    assert forall|i: int| 0 <= i < 16 implies #[trigger] group_octets(groups)[i] == octets[i] by {
        let k = i / 2;
        assert(groups[k] == pair(octets[2 * k], octets[2 * k + 1]));
    }
    assert(group_octets(groups) =~= octets);
}

/// Groups with a run of zeros written as two colons are read back.
proof fn lemma_compressed_is_read_back(text: Seq<u8>, groups: Seq<u16>, start: int, length: int)
    requires
        groups.len() == 8,
        0 <= start,
        2 <= length,
        start + length <= 8,
        forall|i: int| start <= i < start + length ==> #[trigger] groups[i] == 0,
        text == groups_text(groups.subrange(0, start)) + seq![58u8, 58u8] + groups_text(
            groups.subrange(start + length, 8),
        ),
    ensures
        ipv6_at(text, 0) == Some((groups, text.len() as int)),
        octets_at(text, 0, 4) is None,
{
    let head = groups.subrange(0, start);
    let tail = groups.subrange(start + length, 8);
    let first = groups_text(head);
    let second = groups_text(tail);
    let end = first.len() as int;
    assert(text.subrange(0, end) =~= first);
    assert(text[end] == 58);
    assert(text[end + 1] == 58);
    lemma_leading_groups(text, 0, head, 8);
    assert(text.subrange(end + 2, end + 2 + second.len()) =~= second);
    lemma_leading_groups(text, end + 2, tail, (7 - head.len()) as nat);
    assert(head + zero_groups((8 - head.len() - tail.len()) as nat) + tail =~= groups);
}

/// A mapped address is read back.
proof fn lemma_mapped_is_read_back(text: Seq<u8>, last: Seq<u8>)
    requires
        last.len() == 4,
        text == mapped_prefix() + ipv4_text(last),
    ensures
        ipv6_at(text, 0) == Some(
            (
                zero_groups(5) + seq![0xffffu16, pair(last[0], last[1]), pair(last[2], last[3])],
                text.len() as int,
            ),
        ),
        octets_at(text, 0, 4) is None,
{
    let prefix = mapped_prefix();
    assert forall|i: int| 0 <= i < 7 implies #[trigger] text[i] == prefix[i] by {}
    assert(text[0] == 58 && text[1] == 58 && text[6] == 58);
    lemma_no_number(text, 0);
    assert(groups_at(text, 0, true, 8) == (Seq::<u16>::empty(), false, 0int));
    lemma_mapped_tail(text, last);
    let tail = seq![0xffffu16, pair(last[0], last[1]), pair(last[2], last[3])];
    assert(Seq::<u16>::empty() + zero_groups(5) + tail =~= zero_groups(5) + tail);
}

/// What stands behind the two colons of a mapped address.
proof fn lemma_mapped_tail(text: Seq<u8>, last: Seq<u8>)
    requires
        last.len() == 4,
        text == mapped_prefix() + ipv4_text(last),
    ensures
        groups_at(text, 2, true, 7) == (
            seq![0xffffu16, pair(last[0], last[1]), pair(last[2], last[3])],
            true,
            text.len() as int,
        ),
{
    let prefix = mapped_prefix();
    assert forall|i: int| 0 <= i < 7 implies #[trigger] text[i] == prefix[i] by {}
    assert(text[6] == 58);
    assert(hex_text(0xffff) =~= seq![102u8, 102u8, 102u8, 102u8]) by {
        reveal_with_fuel(hex_text, 5);
    }
    assert(text.subrange(2, 6) =~= hex_text(0xffff)) by {
        assert(text[2] == 102 && text[3] == 102 && text[4] == 102 && text[5] == 102);
    }
    lemma_group_is_read_back(text, 2, 0xffff);
    assert(text.subrange(7, text.len() as int) =~= ipv4_text(last));
    lemma_ipv4_is_read_back(text, 7, last);
    let low = seq![pair(last[0], last[1]), pair(last[2], last[3])];
    assert(groups_at(text, 6, false, 6) == (low, true, text.len() as int));
    assert(seq![0xffffu16] + low =~= seq![
        0xffffu16,
        pair(last[0], last[1]),
        pair(last[2], last[3]),
    ]);
}

/// An address whose groups are read is read.
proof fn lemma_ipv6_groups_suffice(text: Seq<u8>, octets: Seq<u8>)
    requires
        octets.len() == 16,
        ipv6_at(text, 0) == Some((octet_groups(octets), text.len() as int)),
        octets_at(text, 0, 4) is None,
    ensures
        ip_octets_of(text) == Some(octets),
{
    lemma_groups_of_octets(octets);
}

/// The groups of a mapped address.
proof fn lemma_mapped_groups(octets: Seq<u8>)
    requires
        octets.len() == 16,
        is_mapped(octet_groups(octets)),
    ensures
        ({
            let last = octets.subrange(12, 16);
            octet_groups(octets) == zero_groups(5) + seq![
                0xffffu16,
                pair(last[0], last[1]),
                pair(last[2], last[3]),
            ]
        }),
{
    let groups = octet_groups(octets);
    let last = octets.subrange(12, 16);
    assert(groups[6] == pair(octets[12], octets[13]));
    assert(groups[7] == pair(octets[14], octets[15]));
    assert(groups =~= zero_groups(5) + seq![
        0xffffu16,
        pair(last[0], last[1]),
        pair(last[2], last[3]),
    ]);
}

/// Groups that are all written are read back.
proof fn lemma_plain_is_read_back(groups: Seq<u16>)
    requires
        groups.len() == 8,
    ensures
        ipv6_at(groups_text(groups), 0) == Some((groups, groups_text(groups).len() as int)),
        octets_at(groups_text(groups), 0, 4) is None,
{
    let text = groups_text(groups);
    assert(text.subrange(0, text.len() as int) =~= text);
    lemma_leading_groups(text, 0, groups, 8);
}

proof fn lemma_ipv6_is_read_back(octets: Seq<u8>)
    requires
        octets.len() == 16,
    ensures
        ip_octets_of(ipv6_text(octets)) == Some(octets),
{
    let text = ipv6_text(octets);
    let groups = octet_groups(octets);
    let start = longest_zero_run(groups, 8);
    let length = zero_run(groups, start);
    if is_mapped(groups) {
        lemma_mapped_is_read_back(text, octets.subrange(12, 16));
        lemma_mapped_groups(octets);
    } else if length > 1 {
        lemma_longest_zero_run(groups, 8);
        lemma_zero_run(groups, start);
        lemma_compressed_is_read_back(text, groups, start, length);
    } else {
        lemma_plain_is_read_back(groups);
    }
    lemma_ipv6_groups_suffice(text, octets);
}

/// Groups are written with at most five characters each.
proof fn lemma_groups_text_length(groups: Seq<u16>)
    ensures
        groups_text(groups).len() <= 5 * groups.len(),
        following_groups_text(groups).len() <= 5 * groups.len(),
    decreases groups.len(),
{
    if groups.len() > 0 {
        lemma_groups_text_length(groups.subrange(1, groups.len() as int));
        lemma_group_length(groups[0]);
    }
}

/// No address's text is longer than 42 characters.
pub proof fn lemma_address_text_is_short(ip: IpAddress)
    ensures
        ip.text().len() <= 42,
{
    match ip {
        IpAddress::V4(octets) => {
            lemma_ipv4_text_length(octets@);
        },
        IpAddress::V6(octets) => {
            let groups = octet_groups(octets@);
            let start = longest_zero_run(groups, 8);
            lemma_longest_zero_run(groups, 8);
            lemma_zero_run(groups, start);
            lemma_ipv4_text_length(octets@.subrange(12, 16));
            lemma_groups_text_length(groups);
            lemma_groups_text_length(groups.subrange(0, start));
            lemma_groups_text_length(groups.subrange(start + zero_run(groups, start), 8));
        },
    }
}

proof fn lemma_ipv4_text_length(octets: Seq<u8>)
    ensures
        ipv4_text(octets).len() <= 15,
{
    lemma_octet_length(octets[0]);
    lemma_octet_length(octets[1]);
    lemma_octet_length(octets[2]);
    lemma_octet_length(octets[3]);
}

/// Whether every byte is an ASCII character.
pub open spec fn is_plain(text: Seq<u8>) -> bool {
    forall|i: int| 0 <= i < text.len() ==> #[trigger] text[i] < 128
}

/// ASCII text is valid UTF-8.
proof fn lemma_plain_is_utf8(text: Seq<u8>)
    requires
        is_plain(text),
    ensures
        vstd::utf8::valid_utf8(text),
{
    let chars = text.map_values(|byte: u8| byte as char);
    assert(vstd::utf8::is_ascii_chars(chars));
    vstd::utf8::is_ascii_chars_encode_utf8(chars);
    vstd::utf8::encode_utf8_valid_utf8(chars);
    assert(vstd::utf8::encode_utf8(chars) =~= text);
}

proof fn lemma_decimal_is_plain(number: nat)
    ensures
        is_plain(decimal(number)),
{
    lemma_decimal(number);
    assert forall|i: int| 0 <= i < decimal(number).len() implies #[trigger] decimal(number)[i]
        < 128 by {
        assert(is_digit(decimal(number)[i]));
    }
}

proof fn lemma_ipv4_is_plain(octets: Seq<u8>)
    ensures
        is_plain(ipv4_text(octets)),
{
    lemma_decimal_is_plain(octets[0] as nat);
    lemma_decimal_is_plain(octets[1] as nat);
    lemma_decimal_is_plain(octets[2] as nat);
    lemma_decimal_is_plain(octets[3] as nat);
}

proof fn lemma_groups_are_plain(groups: Seq<u16>)
    ensures
        is_plain(groups_text(groups)),
        is_plain(following_groups_text(groups)),
    decreases groups.len(),
{
    if groups.len() > 0 {
        lemma_groups_are_plain(groups.subrange(1, groups.len() as int));
        lemma_hex_text(groups[0] as nat);
        let first = hex_text(groups[0] as nat);
        assert forall|i: int| 0 <= i < first.len() implies #[trigger] first[i] < 128 by {
            assert(hex_value(first[i]) is Some);
        }
    }
}

/// An address's text is valid UTF-8.
pub proof fn lemma_address_text_is_plain(ip: IpAddress)
    ensures
        vstd::utf8::valid_utf8(ip.text()),
{
    match ip {
        IpAddress::V4(octets) => {
            lemma_ipv4_is_plain(octets@);
        },
        IpAddress::V6(octets) => {
            let groups = octet_groups(octets@);
            let start = longest_zero_run(groups, 8);
            lemma_ipv4_is_plain(octets@.subrange(12, 16));
            lemma_groups_are_plain(groups);
            lemma_groups_are_plain(groups.subrange(0, start));
            lemma_groups_are_plain(groups.subrange(start + zero_run(groups, start), 8));
            assert(is_plain(mapped_prefix()));
        },
    }
    assert(is_plain(ip.text()));
    lemma_plain_is_utf8(ip.text());
}

/// An IPv4 address is written as its four octets in decimal, with dots between
/// them.
pub proof fn law_ipv4_text(octets: [u8; 4])
    ensures
        IpAddress::V4(octets).text() == decimal(octets[0] as nat) + seq![46u8] + decimal(
            octets[1] as nat,
        ) + seq![46u8] + decimal(octets[2] as nat) + seq![46u8] + decimal(octets[3] as nat),
{
}

/// An IPv4 address, a colon and a port are read as the address and the port.
pub proof fn law_ipv4_socket_is_read(octets: [u8; 4], port: u16)
    ensures
        socket_of(IpAddress::V4(octets).text() + seq![58u8] + decimal(port as nat)) == Some(
            (octets@, 0nat, port as nat),
        ),
{
    let address = IpAddress::V4(octets).text();
    let digits = decimal(port as nat);
    let text = address + seq![58u8] + digits;
    let end = address.len() as int;
    assert(text.subrange(0, end) =~= address);
    assert(text[end] == 58);
    lemma_ipv4_is_read_back(text, 0, octets@);
    lemma_decimal(port as nat);
    assert forall|i: int| end + 1 <= i < text.len() implies is_digit(#[trigger] text[i]) by {
        assert(text[i] == digits[i - end - 1]);
    }
    lemma_digit_run_end_is(text, end + 1, text.len() as int);
    assert(text.subrange(end + 1, text.len() as int) =~= digits);
}

/// A number in hexadecimal has no needless digits; each digit is lower-case.
pub proof fn law_hexadecimal_text(number: nat)
    ensures
        number < 10 ==> hex_text(number) == seq![(48 + number) as u8],
        10 <= number < 16 ==> hex_text(number) == seq![(87 + number) as u8],
        number >= 16 ==> hex_text(number) == hex_text(number / 16) + hex_text(number % 16),
{
    if number >= 16 {
        assert(hex_text(number) =~= hex_text(number / 16) + hex_text(number % 16));
    }
}

/// Whether groups are all zero from one place up to another.
pub open spec fn all_zero(groups: Seq<u16>, from: int, to: int) -> bool {
    0 <= from <= to <= groups.len() && forall|i: int| from <= i < to ==> #[trigger] groups[i] == 0
}

/// An IPv6 address is written as its eight groups in hexadecimal, with colons
/// between them; but the first longest run of two or more zero groups is left
/// out, and two colons stand in its place. An address that stands for an IPv4
/// address ends with that address's text.
pub proof fn law_ipv6_text(octets: [u8; 16], groups: Seq<u16>, start: int, length: int)
    requires
        groups.len() == 8,
        forall|i: int|
            0 <= i < 8 ==> #[trigger] groups[i] == 256 * octets[2 * i] + octets[2 * i + 1],
        all_zero(groups, start, start + length),
        forall|from: int, to: int| #[trigger] all_zero(groups, from, to) ==> to - from <= length,
        forall|from: int, to: int| #[trigger]
            all_zero(groups, from, to) && to - from == length ==> start <= from,
    ensures
        ({
            let text = IpAddress::V6(octets).text();
            let mapped = all_zero(groups, 0, 5) && groups[5] == 0xffff;
            &&& mapped ==> text == encode_mapped() + IpAddress::V4(
                [octets[12], octets[13], octets[14], octets[15]],
            ).text()
            &&& !mapped && length >= 2 ==> text == groups_text(groups.subrange(0, start)) + seq![
                58u8,
                58u8,
            ] + groups_text(groups.subrange(start + length, 8))
            &&& !mapped && length < 2 ==> text == groups_text(groups)
        }),
{
    assert(octet_groups(octets@) =~= groups) by {
        assert forall|i: int| 0 <= i < 8 implies #[trigger] octet_groups(octets@)[i]
            == groups[i] by {
            assert(octets@[2 * i] == octets[2 * i] && octets@[2 * i + 1] == octets[2 * i + 1]);
        }
    }
    let found = longest_zero_run(groups, 8);
    lemma_longest(groups, 8);
    lemma_zero_extent(groups, found);
    lemma_zero_extent(groups, start);
    assert(all_zero(groups, found, found + zero_run(groups, found)));
    if length > zero_run(groups, start) {
        assert(groups[start + zero_run(groups, start)] == 0);
    }
    assert(all_zero(groups, start, start + zero_run(groups, start)));
    assert(zero_run(groups, start) == length);
    if length >= 1 {
        assert(start < 8);
        assert(zero_run(groups, found) == length);
        assert(start <= found);
        if start < found {
            assert(zero_run(groups, start) < zero_run(groups, found));
        }
    } else {
        assert(zero_run(groups, found) <= 0);
    }
    if all_zero(groups, 0, 5) && groups[5] == 0xffff {
        assert(groups[0] == 0 && groups[1] == 0 && groups[2] == 0 && groups[3] == 0 && groups[4]
            == 0);
        assert(octets@.subrange(12, 16) =~= [octets[12], octets[13], octets[14], octets[15]]@);
    } else if is_mapped(groups) {
        assert(all_zero(groups, 0, 5));
    }
}

/// What an address that stands for an IPv4 address begins with.
pub open spec fn encode_mapped() -> Seq<u8> {
    seq![58u8, 58u8, 102u8, 102u8, 102u8, 102u8, 58u8]
}

/// A run of zero groups ends where a group is not zero.
proof fn lemma_zero_extent(groups: Seq<u16>, at: int)
    requires
        0 <= at <= groups.len(),
    ensures
        0 <= zero_run(groups, at) <= groups.len() - at,
        forall|i: int| at <= i < at + zero_run(groups, at) ==> #[trigger] groups[i] == 0,
        at + zero_run(groups, at) < groups.len() ==> groups[at + zero_run(groups, at)] != 0,
    decreases groups.len() - at,
{
    if at < groups.len() && groups[at] == 0 {
        lemma_zero_extent(groups, at + 1);
    }
}

/// The longest run is as long as any, and longer than any before it.
proof fn lemma_longest(groups: Seq<u16>, count: nat)
    requires
        1 <= count <= groups.len(),
    ensures
        0 <= longest_zero_run(groups, count) < count,
        forall|i: int|
            0 <= i < count ==> #[trigger] zero_run(groups, i) <= zero_run(
                groups,
                longest_zero_run(groups, count),
            ),
        forall|i: int|
            0 <= i < longest_zero_run(groups, count) ==> #[trigger] zero_run(groups, i) < zero_run(
                groups,
                longest_zero_run(groups, count),
            ),
    decreases count,
{
    if count > 1 {
        lemma_longest(groups, (count - 1) as nat);
    }
}

/// Groups are written with a colon between each two.
pub proof fn law_groups_text(groups: Seq<u16>, group: u16)
    ensures
        groups_text(Seq::empty()) == Seq::<u8>::empty(),
        groups_text(seq![group]) == hex_text(group as nat),
        groups.len() > 0 ==> groups_text(groups.push(group)) == groups_text(groups) + seq![58u8]
            + hex_text(group as nat),
{
    assert(seq![group].subrange(1, 1) =~= Seq::<u16>::empty());
    assert(groups_text(seq![group]) =~= hex_text(group as nat));
    if groups.len() > 0 {
        let rest = groups.subrange(1, groups.len() as int);
        let longer = groups.push(group);
        assert(longer.subrange(1, longer.len() as int) =~= rest.push(group));
        lemma_following_push(rest, group);
        assert(groups_text(longer) =~= groups_text(groups) + seq![58u8] + hex_text(group as nat));
    }
}

/// One more group follows behind a colon.
proof fn lemma_following_push(groups: Seq<u16>, group: u16)
    ensures
        following_groups_text(groups.push(group)) == following_groups_text(groups) + seq![58u8]
            + hex_text(group as nat),
    decreases groups.len(),
{
    let longer = groups.push(group);
    if groups.len() == 0 {
        assert(longer.subrange(1, 1) =~= Seq::<u16>::empty());
        assert(following_groups_text(longer.subrange(1, 1)) =~= Seq::<u8>::empty());
        assert(following_groups_text(longer) =~= seq![58u8] + hex_text(group as nat));
        assert(following_groups_text(groups) + seq![58u8] + hex_text(group as nat) =~= seq![58u8]
            + hex_text(group as nat));
    } else {
        let rest = groups.subrange(1, groups.len() as int);
        lemma_following_push(rest, group);
        assert(longer.subrange(1, longer.len() as int) =~= rest.push(group));
        assert(following_groups_text(longer) =~= following_groups_text(groups) + seq![58u8]
            + hex_text(group as nat));
    }
}

} // verus!
