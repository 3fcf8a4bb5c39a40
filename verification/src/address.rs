//! IP addresses, socket addresses and their text.

use crate::text::{
    decimal, digits_value, hex_digit, hex_value, is_canonical_decimal, is_digit, parse_digits,
    push_decimal,
};
use vstd::prelude::*;
use vstd::slice::slice_subrange;

verus! {

/// An IPv4 or IPv6 address, as its octets in network order.
#[derive(Clone, Copy, Debug, Eq, PartialEq)]
pub enum IpAddress {
    V4([u8; 4]),
    V6([u8; 16]),
}

/// The first position from `at` on that holds no digit, or the text's length.
pub open spec fn digit_run_end(text: Seq<u8>, at: int) -> int
    decreases text.len() - at,
{
    if at < 0 || at >= text.len() || !is_digit(text[at]) {
        at
    } else {
        digit_run_end(text, at + 1)
    }
}

/// The first position from `at` on that holds no hexadecimal digit, or the
/// text's length.
pub open spec fn hex_run_end(text: Seq<u8>, at: int) -> int
    decreases text.len() - at,
{
    if at < 0 || at >= text.len() || hex_value(text[at]) is None {
        at
    } else {
        hex_run_end(text, at + 1)
    }
}

/// The number that a string of hexadecimal digits denotes.
pub open spec fn hex_number(text: Seq<u8>) -> nat
    decreases text.len(),
{
    if text.len() == 0 {
        0
    } else {
        hex_number(text.drop_last()) * 16 + match hex_value(text.last()) {
            Some(digit) => digit as nat,
            None => 0nat,
        }
    }
}

/// Whether `text` holds `byte` at `at`.
pub open spec fn holds(text: Seq<u8>, at: int, byte: u8) -> bool {
    0 <= at < text.len() && text[at] == byte
}

/// The octet written at `at` in decimal without leading zeros, and the position
/// behind it.
pub open spec fn octet_at(text: Seq<u8>, at: int) -> Option<(u8, int)> {
    let end = digit_run_end(text, at);
    let run = text.subrange(at, end);
    if is_canonical_decimal(run) && run.len() <= 3 && digits_value(run) <= 255 {
        Some((digits_value(run) as u8, end))
    } else {
        None
    }
}

/// The `count` octets written at `at` with dots between them, and the position
/// behind them.
pub open spec fn octets_at(text: Seq<u8>, at: int, count: nat) -> Option<(Seq<u8>, int)>
    decreases count,
{
    match octet_at(text, at) {
        None => None,
        Some((octet, end)) => if count <= 1 {
            Some((seq![octet], end))
        } else if holds(text, end, 46) {
            match octets_at(text, end + 1, (count - 1) as nat) {
                None => None,
                Some((rest, last)) => Some((seq![octet] + rest, last)),
            }
        } else {
            None
        },
    }
}

/// The group of one to four hexadecimal digits written at `at`, and the
/// position behind it.
pub open spec fn group_at(text: Seq<u8>, at: int) -> Option<(u16, int)> {
    let end = hex_run_end(text, at);
    if 1 <= end - at <= 4 {
        Some((hex_number(text.subrange(at, end)) as u16, end))
    } else {
        None
    }
}

/// The 16 bits that two octets make.
pub open spec fn pair(high: u8, low: u8) -> u16 {
    (high * 256 + low) as u16
}

/// The groups written from `at` on with colons between them, at most `limit`,
/// whether they end in an IPv4 address, which stands for two groups, and the
/// position behind them. `leading` groups have no colon before them.
pub open spec fn groups_at(text: Seq<u8>, at: int, leading: bool, limit: nat) -> (
    Seq<u16>,
    bool,
    int,
)
    decreases limit,
{
    let start = if leading {
        at
    } else {
        at + 1
    };
    if limit == 0 || !(leading || holds(text, at, 58)) {
        (Seq::empty(), false, at)
    } else if limit >= 2 && octets_at(text, start, 4) is Some {
        let (octets, end) = octets_at(text, start, 4)->0;
        (seq![pair(octets[0], octets[1]), pair(octets[2], octets[3])], true, end)
    } else {
        match group_at(text, start) {
            None => (Seq::empty(), false, at),
            Some((group, end)) => {
                let (rest, embedded, last) = groups_at(text, end, false, (limit - 1) as nat);
                (seq![group] + rest, embedded, last)
            },
        }
    }
}

/// `count` groups of zeros.
pub open spec fn zero_groups(count: nat) -> Seq<u16> {
    Seq::new(count, |i: int| 0u16)
}

/// The eight groups of the IPv6 address written at `at`, and the position
/// behind it. Two colons stand for one or more groups of zeros.
pub open spec fn ipv6_at(text: Seq<u8>, at: int) -> Option<(Seq<u16>, int)> {
    let (head, embedded, end) = groups_at(text, at, true, 8);
    if head.len() == 8 {
        Some((head, end))
    } else if embedded || !holds(text, end, 58) || !holds(text, end + 1, 58) {
        None
    } else {
        let (tail, _, last) = groups_at(text, end + 2, true, (7 - head.len()) as nat);
        Some((head + zero_groups((8 - head.len() - tail.len()) as nat) + tail, last))
    }
}

/// The 16 octets of eight groups.
pub open spec fn group_octets(groups: Seq<u16>) -> Seq<u8> {
    Seq::new(
        16,
        |i: int|
            if i % 2 == 0 {
                (groups[i / 2] / 256) as u8
            } else {
                (groups[i / 2] % 256) as u8
            },
    )
}

/// The eight groups of 16 octets.
pub open spec fn octet_groups(octets: Seq<u8>) -> Seq<u16> {
    Seq::new(8, |i: int| pair(octets[2 * i], octets[2 * i + 1]))
}

/// The octets of the address that starts at `at`, of either family, and the
/// position behind it.
pub open spec fn ip_at(text: Seq<u8>, at: int) -> Option<(Seq<u8>, int)> {
    match octets_at(text, at, 4) {
        Some((octets, end)) => Some((octets, end)),
        None => match ipv6_at(text, at) {
            Some((groups, end)) => Some((group_octets(groups), end)),
            None => None,
        },
    }
}

/// The octets of the address that `text` is the text of: four for IPv4, 16 for
/// IPv6.
pub open spec fn ip_octets_of(text: Seq<u8>) -> Option<Seq<u8>> {
    match ip_at(text, 0) {
        Some((octets, end)) if end == text.len() => Some(octets),
        _ => None,
    }
}

/// The hexadecimal digit for a number below 16, in lower case.
pub open spec fn hex_char(digit: nat) -> u8 {
    if digit < 10 {
        (48 + digit) as u8
    } else {
        (87 + digit) as u8
    }
}

/// The hexadecimal text of a number, in lower case and without leading zeros.
pub open spec fn hex_text(number: nat) -> Seq<u8>
    decreases number,
{
    if number < 16 {
        seq![hex_char(number)]
    } else {
        hex_text(number / 16).push(hex_char(number % 16))
    }
}

/// Four octets in decimal, with dots between them.
pub open spec fn ipv4_text(octets: Seq<u8>) -> Seq<u8> {
    decimal(octets[0] as nat) + seq![46u8] + decimal(octets[1] as nat) + seq![46u8] + decimal(
        octets[2] as nat,
    ) + seq![46u8] + decimal(octets[3] as nat)
}

/// Each group with a colon before it.
pub open spec fn following_groups_text(groups: Seq<u16>) -> Seq<u8>
    decreases groups.len(),
{
    if groups.len() == 0 {
        Seq::empty()
    } else {
        seq![58u8] + hex_text(groups[0] as nat) + following_groups_text(
            groups.subrange(1, groups.len() as int),
        )
    }
}

/// The groups with a colon between each two.
pub open spec fn groups_text(groups: Seq<u16>) -> Seq<u8> {
    if groups.len() == 0 {
        Seq::empty()
    } else {
        hex_text(groups[0] as nat) + following_groups_text(groups.subrange(1, groups.len() as int))
    }
}

/// How many groups of zeros stand one behind the other from `at` on.
pub open spec fn zero_run(groups: Seq<u16>, at: int) -> int
    decreases groups.len() - at,
{
    if at < 0 || at >= groups.len() || groups[at] != 0 {
        0
    } else {
        1 + zero_run(groups, at + 1)
    }
}

/// Where the longest run of zeros starts among the first `count` positions,
/// the first of them where several are as long.
pub open spec fn longest_zero_run(groups: Seq<u16>, count: nat) -> int
    decreases count,
{
    if count <= 1 {
        0
    } else {
        let before = longest_zero_run(groups, (count - 1) as nat);
        if zero_run(groups, count - 1) > zero_run(groups, before) {
            count - 1
        } else {
            before
        }
    }
}

/// Whether eight groups hold an IPv4 address that is mapped into IPv6.
pub open spec fn is_mapped(groups: Seq<u16>) -> bool {
    groups[0] == 0 && groups[1] == 0 && groups[2] == 0 && groups[3] == 0 && groups[4] == 0
        && groups[5] == 0xffff
}

/// The text before the IPv4 part of a mapped address: `::ffff:`.
pub open spec fn mapped_prefix() -> Seq<u8> {
    seq![58u8, 58u8, 102u8, 102u8, 102u8, 102u8, 58u8]
}

/// An IPv6 address in its shortest usual form: the first longest run of two or
/// more groups of zeros is written as two colons, and a mapped IPv4 address in
/// decimal.
pub open spec fn ipv6_text(octets: Seq<u8>) -> Seq<u8> {
    let groups = octet_groups(octets);
    let start = longest_zero_run(groups, 8);
    let length = zero_run(groups, start);
    if is_mapped(groups) {
        mapped_prefix() + ipv4_text(octets.subrange(12, 16))
    } else if length > 1 {
        groups_text(groups.subrange(0, start)) + seq![58u8, 58u8] + groups_text(
            groups.subrange(start + length, 8),
        )
    } else {
        groups_text(groups)
    }
}

impl IpAddress {
    /// The address's octets in network order.
    pub open spec fn octets(self) -> Seq<u8> {
        match self {
            IpAddress::V4(octets) => octets@,
            IpAddress::V6(octets) => octets@,
        }
    }

    /// Whether two addresses are of one family.
    pub open spec fn same_family(self, other: IpAddress) -> bool {
        self is V4 <==> other is V4
    }

    /// The address's usual text.
    pub open spec fn text(self) -> Seq<u8> {
        match self {
            IpAddress::V4(octets) => ipv4_text(octets@),
            IpAddress::V6(octets) => ipv6_text(octets@),
        }
    }
}

/// The address with these octets.
pub open spec fn ip_with(octets: Seq<u8>) -> IpAddress {
    choose|ip: IpAddress| ip.octets() == octets
}

/// The address with an address's octets is that address.
pub proof fn lemma_ip_with(ip: IpAddress)
    ensures
        ip_with(ip.octets()) == ip,
{
    let found = ip_with(ip.octets());
    assert(found.octets() == ip.octets());
    lemma_same_octets(found, ip);
}

/// An address is determined by its octets.
pub proof fn lemma_same_octets(left: IpAddress, right: IpAddress)
    ensures
        left.octets() == right.octets() <==> left == right,
        left.octets().len() == if left is V4 {
            4
        } else {
            16int
        },
{
    if left.octets() == right.octets() {
        match (left, right) {
            (IpAddress::V4(a), IpAddress::V4(b)) => {
                assert(a =~= b);
            },
            (IpAddress::V6(a), IpAddress::V6(b)) => {
                assert(a =~= b);
            },
            (IpAddress::V4(a), IpAddress::V6(b)) => {
                assert(a@.len() == 4 && b@.len() == 16);
            },
            (IpAddress::V6(a), IpAddress::V4(b)) => {
                assert(a@.len() == 16 && b@.len() == 4);
            },
        }
    }
}

/// Appends the hexadecimal text of a group.
fn push_hex(output: &mut Vec<u8>, number: u16)
    ensures
        final(output)@ == old(output)@ + hex_text(number as nat),
    decreases number,
{
    if number >= 16 {
        push_hex(output, number / 16);
    }
    let digit: u8 = (number % 16) as u8;
    if digit < 10 {
        output.push(48 + digit);
    } else {
        output.push(87 + digit);
    }
    assert(final(output)@ =~= old(output)@ + hex_text(number as nat));
}

/// Appends four octets in decimal, with dots between them.
fn push_ipv4(output: &mut Vec<u8>, first: u8, second: u8, third: u8, fourth: u8)
    ensures
        final(output)@ == old(output)@ + ipv4_text(seq![first, second, third, fourth]),
{
    push_decimal(output, first as u64);
    output.push(46);
    push_decimal(output, second as u64);
    output.push(46);
    push_decimal(output, third as u64);
    output.push(46);
    push_decimal(output, fourth as u64);
    assert(final(output)@ =~= old(output)@ + ipv4_text(seq![first, second, third, fourth]));
}

/// Appends groups from `from` to `to` with a colon between each two.
fn push_groups(output: &mut Vec<u8>, groups: &Vec<u16>, from: usize, to: usize)
    requires
        from <= to <= groups@.len(),
    ensures
        final(output)@ == old(output)@ + groups_text(groups@.subrange(from as int, to as int)),
{
    if from == to {
        assert(final(output)@ =~= old(output)@ + groups_text(
            groups@.subrange(from as int, to as int),
        ));
        return;
    }
    let ghost all = groups@.subrange(from as int, to as int);
    push_hex(output, groups[from]);
    let mut index: usize = from + 1;
    let ghost first = output@;
    assert(all.subrange(1, all.len() as int) =~= groups@.subrange(from + 1, to as int));
    while index < to
        invariant
            from < index <= to <= groups@.len(),
            output@ + following_groups_text(groups@.subrange(index as int, to as int)) == first
                + following_groups_text(groups@.subrange(from + 1, to as int)),
        decreases to - index,
    {
        let ghost rest = groups@.subrange(index as int, to as int);
        let ghost before = output@;
        output.push(58);
        push_hex(output, groups[index]);
        proof {
            assert(rest.subrange(1, rest.len() as int) =~= groups@.subrange(index + 1, to as int));
            assert(output@ + following_groups_text(groups@.subrange(index + 1, to as int))
                =~= before + following_groups_text(rest));
        }
        index = index + 1;
    }
    proof {
        assert(groups@.subrange(index as int, to as int) =~= Seq::<u16>::empty());
        assert(output@ + Seq::<u8>::empty() =~= output@);
        assert(final(output)@ =~= old(output)@ + groups_text(all));
    }
}

/// Counts the groups of zeros from `at` on.
fn count_zeros(groups: &Vec<u16>, at: usize) -> (count: usize)
    requires
        at <= groups@.len(),
    ensures
        count == zero_run(groups@, at as int),
        at + count <= groups@.len(),
    decreases groups@.len() - at,
{
    if at < groups.len() && groups[at] == 0 {
        1 + count_zeros(groups, at + 1)
    } else {
        0
    }
}

/// The groups of 16 octets.
fn to_groups(octets: &[u8; 16]) -> (groups: Vec<u16>)
    ensures
        groups@ == octet_groups(octets@),
{
    let mut groups: Vec<u16> = Vec::new();
    let mut index: usize = 0;
    while index < 8
        invariant
            0 <= index <= 8,
            groups@.len() == index,
            forall|i: int| 0 <= i < index ==> groups@[i] == octet_groups(octets@)[i],
        decreases 8 - index,
    {
        groups.push(octets[2 * index] as u16 * 256 + octets[2 * index + 1] as u16);
        index = index + 1;
    }
    assert(groups@ =~= octet_groups(octets@));
    groups
}

/// Appends an IPv6 address.
fn push_ipv6(output: &mut Vec<u8>, octets: &[u8; 16])
    ensures
        final(output)@ == old(output)@ + ipv6_text(octets@),
{
    let groups: Vec<u16> = to_groups(octets);
    if groups[0] == 0 && groups[1] == 0 && groups[2] == 0 && groups[3] == 0 && groups[4] == 0
        && groups[5] == 0xffff {
        output.push(58);
        output.push(58);
        output.push(102);
        output.push(102);
        output.push(102);
        output.push(102);
        output.push(58);
        push_ipv4(output, octets[12], octets[13], octets[14], octets[15]);
        proof {
            assert(octets@.subrange(12, 16) =~= seq![octets[12], octets[13], octets[14], octets[15]]);
            assert(final(output)@ =~= old(output)@ + ipv6_text(octets@));
        }
        return;
    }
    let mut start: usize = 0;
    let mut length: usize = count_zeros(&groups, 0);
    let mut index: usize = 1;
    while index < 8
        invariant
            1 <= index <= 8,
            groups@.len() == 8,
            start < 8,
            start == longest_zero_run(groups@, index as nat),
            length == zero_run(groups@, start as int),
            start + length <= 8,
        decreases 8 - index,
    {
        let here: usize = count_zeros(&groups, index);
        if here > length {
            start = index;
            length = here;
        }
        index = index + 1;
    }
    if length > 1 {
        push_groups(output, &groups, 0, start);
        output.push(58);
        output.push(58);
        push_groups(output, &groups, start + length, 8);
    } else {
        push_groups(output, &groups, 0, 8);
        assert(groups@.subrange(0, 8) =~= groups@);
    }
    assert(final(output)@ =~= old(output)@ + ipv6_text(octets@));
}

/// Appends an address's text.
pub fn push_ip(output: &mut Vec<u8>, ip: &IpAddress)
    ensures
        final(output)@ == old(output)@ + ip.text(),
{
    match ip {
        IpAddress::V4(octets) => {
            push_ipv4(output, octets[0], octets[1], octets[2], octets[3]);
            assert(octets@ =~= seq![octets[0], octets[1], octets[2], octets[3]]);
        },
        IpAddress::V6(octets) => push_ipv6(output, octets),
    }
}

/// Whether two addresses are equal.
pub fn same_ip(left: &IpAddress, right: &IpAddress) -> (result: bool)
    ensures
        result == (*left == *right),
{
    match (left, right) {
        (IpAddress::V4(a), IpAddress::V4(b)) => {
            let equal: bool = a[0] == b[0] && a[1] == b[1] && a[2] == b[2] && a[3] == b[3];
            proof {
                if equal {
                    assert(*a =~= *b);
                }
            }
            equal
        },
        (IpAddress::V6(a), IpAddress::V6(b)) => {
            let mut index: usize = 0;
            while index < 16
                invariant
                    0 <= index <= 16,
                    *left == IpAddress::V6(*a),
                    *right == IpAddress::V6(*b),
                    forall|i: int| 0 <= i < index ==> a@[i] == b@[i],
                decreases 16 - index,
            {
                if a[index] != b[index] {
                    return false;
                }
                index = index + 1;
            }
            assert(*a =~= *b);
            true
        },
        _ => false,
    }
}

/// A run of digits ends within the text.
proof fn lemma_digit_run_end(text: Seq<u8>, at: int)
    requires
        0 <= at <= text.len(),
    ensures
        at <= digit_run_end(text, at) <= text.len(),
        forall|i: int| at <= i < digit_run_end(text, at) ==> is_digit(#[trigger] text[i]),
    decreases text.len() - at,
{
    if at < text.len() && is_digit(text[at]) {
        lemma_digit_run_end(text, at + 1);
    }
}

/// A run of hexadecimal digits ends within the text.
proof fn lemma_hex_run_end(text: Seq<u8>, at: int)
    requires
        0 <= at <= text.len(),
    ensures
        at <= hex_run_end(text, at) <= text.len(),
        forall|i: int| at <= i < hex_run_end(text, at) ==> hex_value(#[trigger] text[i]) is Some,
    decreases text.len() - at,
{
    if at < text.len() && hex_value(text[at]) is Some {
        lemma_hex_run_end(text, at + 1);
    }
}

/// Reads one octet.
fn read_octet(text: &[u8], at: usize) -> (result: Option<(u8, usize)>)
    requires
        at <= text@.len(),
    ensures
        result is Some <==> octet_at(text@, at as int) is Some,
        result matches Some((octet, end)) ==> octet_at(text@, at as int) == Some((octet, end as int))
            && at <= end <= text@.len(),
{
    let mut end: usize = at;
    while end < text.len() && 48 <= text[end] && text[end] <= 57
        invariant
            at <= end <= text@.len(),
            digit_run_end(text@, at as int) == digit_run_end(text@, end as int),
        decreases text@.len() - end,
    {
        end = end + 1;
    }
    let run: &[u8] = slice_subrange(text, at, end);
    proof {
        lemma_digit_run_end(text@, at as int);
        assert(run@ == text@.subrange(at as int, end as int));
    }
    if run.len() == 0 || run.len() > 3 || (run[0] == 48 && run.len() > 1) {
        return None;
    }
    assert(crate::text::all_digits(run@));
    match parse_digits(run, 255) {
        Some(value) => Some((value as u8, end)),
        None => None,
    }
}

/// Reads `count` octets with dots between them.
fn read_octets(text: &[u8], at: usize, count: usize) -> (result: Option<(Vec<u8>, usize)>)
    requires
        at <= text@.len(),
        count >= 1,
    ensures
        result is Some <==> octets_at(text@, at as int, count as nat) is Some,
        result matches Some((octets, end)) ==> octets_at(text@, at as int, count as nat) == Some(
            (octets@, end as int),
        ) && octets@.len() == count && at <= end <= text@.len(),
    decreases count,
{
    let (octet, end): (u8, usize) = match read_octet(text, at) {
        Some(read) => read,
        None => return None,
    };
    let mut octets: Vec<u8> = Vec::new();
    octets.push(octet);
    if count == 1 {
        assert(octets@ =~= seq![octet]);
        return Some((octets, end));
    }
    if end >= text.len() || text[end] != 46 {
        return None;
    }
    match read_octets(text, end + 1, count - 1) {
        Some((mut rest, last)) => {
            let ghost tail = rest@;
            octets.append(&mut rest);
            assert(octets@ =~= seq![octet] + tail);
            Some((octets, last))
        },
        None => None,
    }
}

/// A hexadecimal number of at most four digits fits 16 bits.
proof fn lemma_hex_number_bound(text: Seq<u8>)
    requires
        text.len() <= 4,
        forall|i: int| 0 <= i < text.len() ==> hex_value(#[trigger] text[i]) is Some,
    ensures
        hex_number(text) <= 0xffff,
        text.len() <= 3 ==> hex_number(text) <= 0xfff,
        text.len() <= 2 ==> hex_number(text) <= 0xff,
        text.len() <= 1 ==> hex_number(text) <= 0xf,
        text.len() == 0 ==> hex_number(text) == 0,
    decreases text.len(),
{
    if text.len() > 0 {
        let head = text.drop_last();
        assert forall|i: int| 0 <= i < head.len() implies hex_value(#[trigger] head[i]) is Some by {
            assert(head[i] == text[i]);
        }
        lemma_hex_number_bound(head);
        assert(hex_value(text[text.len() - 1]) is Some);
    }
}

/// Reads one group.
fn read_group(text: &[u8], at: usize) -> (result: Option<(u16, usize)>)
    requires
        at <= text@.len(),
    ensures
        result is Some <==> group_at(text@, at as int) is Some,
        result matches Some((group, end)) ==> group_at(text@, at as int) == Some((group, end as int))
            && at <= end <= text@.len(),
{
    let mut end: usize = at;
    let mut value: u16 = 0;
    proof {
        lemma_hex_run_end(text@, at as int);
        assert(text@.subrange(at as int, at as int) =~= Seq::<u8>::empty());
    }
    while end < text.len()
        invariant
            at <= end <= text@.len(),
            end - at <= 4,
            hex_run_end(text@, at as int) == hex_run_end(text@, end as int),
            forall|i: int| at <= i < end ==> hex_value(#[trigger] text@[i]) is Some,
            value == hex_number(text@.subrange(at as int, end as int)),
        ensures
            hex_run_end(text@, at as int) == end,
        decreases text@.len() - end,
    {
        let ghost read = text@.subrange(at as int, end as int);
        let ghost grown = text@.subrange(at as int, end + 1);
        match hex_digit(text[end]) {
            None => break,
            Some(digit) => {
                proof {
                    lemma_hex_run_end(text@, end + 1);
                }
                if end - at >= 4 {
                    return None;
                }
                proof {
                    assert(grown.drop_last() =~= read);
                    lemma_hex_number_bound(grown);
                    assert(hex_number(grown) == hex_number(read) * 16 + digit);
                }
                value = value * 16 + digit as u16;
                end = end + 1;
            },
        }
    }
    if end == at {
        return None;
    }
    Some((value, end))
}

/// Reads groups with colons between them.
fn read_groups(text: &[u8], at: usize, leading: bool, limit: usize) -> (result: (
    Vec<u16>,
    bool,
    usize,
))
    requires
        at <= text@.len(),
    ensures
        groups_at(text@, at as int, leading, limit as nat) == (
            result.0@,
            result.1,
            result.2 as int,
        ),
        result.0@.len() <= limit,
        result.2 <= text@.len(),
    decreases limit,
{
    let mut groups: Vec<u16> = Vec::new();
    if limit == 0 {
        assert(groups@ =~= Seq::<u16>::empty());
        return (groups, false, at);
    }
    if !leading && (at >= text.len() || text[at] != 58) {
        assert(groups@ =~= Seq::<u16>::empty());
        return (groups, false, at);
    }
    let start: usize = if leading {
        at
    } else {
        at + 1
    };
    if limit >= 2 {
        if let Some((octets, end)) = read_octets(text, start, 4) {
            groups.push(octets[0] as u16 * 256 + octets[1] as u16);
            groups.push(octets[2] as u16 * 256 + octets[3] as u16);
            assert(groups@ =~= seq![pair(octets@[0], octets@[1]), pair(octets@[2], octets@[3])]);
            return (groups, true, end);
        }
    }
    match read_group(text, start) {
        None => {
            assert(groups@ =~= Seq::<u16>::empty());
            (groups, false, at)
        },
        Some((group, end)) => {
            groups.push(group);
            let (mut rest, embedded, last): (Vec<u16>, bool, usize) = read_groups(
                text,
                end,
                false,
                limit - 1,
            );
            let ghost tail = rest@;
            groups.append(&mut rest);
            assert(groups@ =~= seq![group] + tail);
            (groups, embedded, last)
        },
    }
}

/// Reads an IPv6 address.
fn read_ipv6(text: &[u8], at: usize) -> (result: Option<(Vec<u16>, usize)>)
    requires
        at <= text@.len(),
    ensures
        result is Some <==> ipv6_at(text@, at as int) is Some,
        result matches Some((groups, end)) ==> ipv6_at(text@, at as int) == Some(
            (groups@, end as int),
        ) && groups@.len() == 8 && end <= text@.len(),
{
    let (mut head, embedded, end): (Vec<u16>, bool, usize) = read_groups(text, at, true, 8);
    if head.len() == 8 {
        return Some((head, end));
    }
    if embedded || end >= text.len() || text[end] != 58 || end + 1 >= text.len() || text[end + 1]
        != 58 {
        return None;
    }
    let ghost first = head@;
    let (mut tail, _, last): (Vec<u16>, bool, usize) = read_groups(
        text,
        end + 2,
        true,
        7 - head.len(),
    );
    let ghost second = tail@;
    let zeros: usize = 8 - head.len() - tail.len();
    let mut count: usize = 0;
    while count < zeros
        invariant
            0 <= count <= zeros,
            head@ == first + zero_groups(count as nat),
        decreases zeros - count,
    {
        head.push(0);
        count = count + 1;
        assert(head@ =~= first + zero_groups(count as nat));
    }
    head.append(&mut tail);
    assert(head@ =~= first + zero_groups(zeros as nat) + second);
    Some((head, last))
}

/// The IPv6 address of eight groups.
fn from_groups(groups: &Vec<u16>) -> (ip: IpAddress)
    requires
        groups@.len() == 8,
    ensures
        ip is V6,
        ip.octets() == group_octets(groups@),
{
    let mut octets: [u8; 16] = [0; 16];
    let mut index: usize = 0;
    while index < 8
        invariant
            0 <= index <= 8,
            groups@.len() == 8,
            forall|i: int| 0 <= i < 2 * index ==> octets@[i] == group_octets(groups@)[i],
        decreases 8 - index,
    {
        let group: u16 = groups[index];
        octets[2 * index] = (group / 256) as u8;
        octets[2 * index + 1] = (group % 256) as u8;
        index = index + 1;
    }
    assert(octets@ =~= group_octets(groups@));
    IpAddress::V6(octets)
}

/// Reads an address of either family.
fn read_ip(text: &[u8], at: usize) -> (result: Option<(IpAddress, usize)>)
    requires
        at <= text@.len(),
    ensures
        result is Some <==> ip_at(text@, at as int) is Some,
        result matches Some((ip, end)) ==> ip_at(text@, at as int) == Some(
            (ip.octets(), end as int),
        ) && end <= text@.len(),
{
    match read_octets(text, at, 4) {
        Some((octets, end)) => {
            let ip = IpAddress::V4([octets[0], octets[1], octets[2], octets[3]]);
            assert(ip.octets() =~= octets@);
            Some((ip, end))
        },
        None => match read_ipv6(text, at) {
            Some((groups, end)) => {
                Some((from_groups(&groups), end))
            },
            None => None,
        },
    }
}

/// Reads the text of an address of either family.
pub fn parse_ip(text: &[u8]) -> (result: Option<IpAddress>)
    ensures
        result is Some <==> ip_octets_of(text@) is Some,
        result matches Some(ip) ==> ip_octets_of(text@) == Some(ip.octets()),
{
    match read_ip(text, 0) {
        Some((ip, end)) => if end == text.len() {
            Some(ip)
        } else {
            None
        },
        None => None,
    }
}

/// The number written at `at` in decimal digits, if it is at most `limit`, and
/// the position behind it.
pub open spec fn number_at(text: Seq<u8>, at: int, limit: nat) -> Option<(nat, int)> {
    let end = digit_run_end(text, at);
    let run = text.subrange(at, end);
    if run.len() > 0 && digits_value(run) <= limit {
        Some((digits_value(run), end))
    } else {
        None
    }
}

/// The scope written at `at` behind a percent sign, or zero where there is
/// none, and the position behind it.
pub open spec fn scope_at(text: Seq<u8>, at: int) -> (nat, int) {
    if holds(text, at, 37) && number_at(text, at + 1, u32::MAX as nat) is Some {
        number_at(text, at + 1, u32::MAX as nat)->0
    } else {
        (0, at)
    }
}

/// The port written at `at` behind a colon, where it ends the text.
pub open spec fn final_port(text: Seq<u8>, at: int) -> Option<nat> {
    if holds(text, at, 58) {
        match number_at(text, at + 1, u16::MAX as nat) {
            Some((port, end)) if end == text.len() => Some(port),
            _ => None,
        }
    } else {
        None
    }
}

/// An IP address, an IPv6 scope, which is zero where there is none, and a port.
#[derive(Clone, Copy, Debug, Eq, PartialEq)]
pub struct SocketAddress {
    pub ip: IpAddress,
    pub scope: u32,
    pub port: u16,
}

impl SocketAddress {
    /// Whether `text` is a text of this socket address: an IPv4 address, a colon
    /// and a port, or an IPv6 address in brackets, perhaps with a scope, a colon
    /// and a port.
    pub open spec fn is_read_from(self, text: Seq<u8>) -> bool {
        socket_of(text) == Some((self.ip.octets(), self.scope as nat, self.port as nat))
    }
}

/// The octets, scope and port that `text` is the text of.
pub open spec fn socket_of(text: Seq<u8>) -> Option<(Seq<u8>, nat, nat)> {
    match octets_at(text, 0, 4) {
        Some((octets, end)) => match final_port(text, end) {
            Some(port) => Some((octets, 0, port)),
            None => None,
        },
        None => if holds(text, 0, 91) {
            match ipv6_at(text, 1) {
                Some((groups, end)) => {
                    let (scope, behind) = scope_at(text, end);
                    if holds(text, behind, 93) {
                        match final_port(text, behind + 1) {
                            Some(port) => Some((group_octets(groups), scope, port)),
                            None => None,
                        }
                    } else {
                        None
                    }
                },
                None => None,
            }
        } else {
            None
        },
    }
}

/// Reads a number in decimal digits.
fn read_number(text: &[u8], at: usize, limit: u128) -> (result: Option<(u128, usize)>)
    requires
        at <= text@.len(),
    ensures
        result is Some <==> number_at(text@, at as int, limit as nat) is Some,
        result matches Some((number, end)) ==> number_at(text@, at as int, limit as nat) == Some(
            (number as nat, end as int),
        ) && number <= limit && end <= text@.len(),
{
    let mut end: usize = at;
    while end < text.len() && 48 <= text[end] && text[end] <= 57
        invariant
            at <= end <= text@.len(),
            digit_run_end(text@, at as int) == digit_run_end(text@, end as int),
        decreases text@.len() - end,
    {
        end = end + 1;
    }
    let run: &[u8] = slice_subrange(text, at, end);
    proof {
        lemma_digit_run_end(text@, at as int);
    }
    assert(crate::text::all_digits(run@));
    match parse_digits(run, limit) {
        Some(number) => Some((number, end)),
        None => None,
    }
}

/// Reads a colon and a port that end the text.
fn read_final_port(text: &[u8], at: usize) -> (result: Option<u16>)
    requires
        at <= text@.len(),
    ensures
        result is Some <==> final_port(text@, at as int) is Some,
        result matches Some(port) ==> final_port(text@, at as int) == Some(port as nat),
{
    if at >= text.len() || text[at] != 58 {
        return None;
    }
    match read_number(text, at + 1, u16::MAX as u128) {
        Some((port, end)) => if end == text.len() {
            Some(port as u16)
        } else {
            None
        },
        None => None,
    }
}

/// Reads the text of a socket address.
pub fn parse_socket(text: &[u8]) -> (result: Option<SocketAddress>)
    ensures
        result is Some <==> socket_of(text@) is Some,
        result matches Some(address) ==> address.is_read_from(text@),
{
    if let Some((octets, end)) = read_octets(text, 0, 4) {
        let ip = IpAddress::V4([octets[0], octets[1], octets[2], octets[3]]);
        assert(ip.octets() =~= octets@);
        return match read_final_port(text, end) {
            Some(port) => Some(SocketAddress { ip, scope: 0, port }),
            None => None,
        };
    }
    if text.len() == 0 || text[0] != 91 {
        return None;
    }
    let (groups, end): (Vec<u16>, usize) = match read_ipv6(text, 1) {
        Some(read) => read,
        None => return None,
    };
    let mut scope: u32 = 0;
    let mut behind: usize = end;
    if end < text.len() && text[end] == 37 {
        if let Some((number, last)) = read_number(text, end + 1, u32::MAX as u128) {
            scope = number as u32;
            behind = last;
        }
    }
    if behind >= text.len() || text[behind] != 93 {
        return None;
    }
    match read_final_port(text, behind + 1) {
        Some(port) => Some(SocketAddress { ip: from_groups(&groups), scope, port }),
        None => None,
    }
}

} // verus!
