//! Torrents and addresses that are refused.

use crate::address::{ip_octets_of, lemma_same_octets, parse_ip, same_ip, IpAddress};
use crate::state::InfoHash;
use crate::swarm::same_id;
use crate::text::{
    decimal_chars, find_byte, hex_byte, hex_digit, hex_value, lemma_position_of, numbered,
    position_of, quoted, quoted_text, utf8_text,
};
use vstd::prelude::*;
use vstd::slice::slice_subrange;
use vstd::utf8::{
    decode_utf8, encode_utf8, encode_utf8_decode_utf8, encode_utf8_valid_utf8,
    is_char_boundary_iff_not_is_continuation_byte, is_char_boundary_start_end_of_seq,
    is_continuation_byte, length_of_first_scalar, pop_first_scalar, valid_utf8, valid_utf8_split,
};

verus! {

/// Why a blacklist is refused: a line that is neither an address nor of the
/// length of an info hash, a line with other characters than hexadecimal
/// digits, or an entry that is no info hash.
#[derive(Debug, Eq, PartialEq)]
pub enum BlacklistError {
    UnknownEntry { line: usize },
    InvalidInfoHash { line: usize, value: String },
    InvalidEntry { value: String },
}

/// A refused blacklist as plain values.
pub enum BlacklistFault {
    UnknownEntry { line: nat },
    InvalidInfoHash { line: nat, value: Seq<char> },
    InvalidEntry { value: Seq<char> },
}

impl View for BlacklistError {
    type V = BlacklistFault;

    open spec fn view(&self) -> BlacklistFault {
        match self {
            BlacklistError::UnknownEntry { line } => BlacklistFault::UnknownEntry {
                line: *line as nat,
            },
            BlacklistError::InvalidInfoHash { line, value } => BlacklistFault::InvalidInfoHash {
                line: *line as nat,
                value: value@,
            },
            BlacklistError::InvalidEntry { value } => BlacklistFault::InvalidEntry {
                value: value@,
            },
        }
    }
}

/// The text for a value that is no info hash.
pub open spec fn hash_refusal(value: Seq<char>) -> Seq<char> {
    "invalid blacklist info hash "@ + quoted_text(value) + ": expected 40 hexadecimal characters"@
}

/// The text for a refused blacklist.
pub open spec fn blacklist_text(fault: BlacklistFault) -> Seq<char> {
    match fault {
        BlacklistFault::UnknownEntry { line } => "invalid entry on line "@ + decimal_chars(line)
            + ": expected an IP address or 40-character hexadecimal info hash"@,
        BlacklistFault::InvalidInfoHash { line, value } => "invalid entry on line "@
            + decimal_chars(line) + ": "@ + hash_refusal(value),
        BlacklistFault::InvalidEntry { value } => hash_refusal(value),
    }
}

/// The text for a value that is no info hash.
fn refuse_hash(value: &str) -> (message: String)
    ensures
        message@ == hash_refusal(value@),
{
    let mut message: String = "invalid blacklist info hash ".to_owned();
    message.append(quoted(value).as_str());
    message.append(": expected 40 hexadecimal characters");
    message
}

impl BlacklistError {
    /// The text for this refusal.
    pub fn message(&self) -> (message: String)
        ensures
            message@ == blacklist_text(self@),
    {
        match self {
            BlacklistError::UnknownEntry { line } => numbered(
                "invalid entry on line ",
                *line as u64,
                ": expected an IP address or 40-character hexadecimal info hash",
            ),
            BlacklistError::InvalidInfoHash { line, value } => {
                let mut message: String = numbered("invalid entry on line ", *line as u64, ": ");
                message.append(refuse_hash(value.as_str()).as_str());
                message
            },
            BlacklistError::InvalidEntry { value } => refuse_hash(value.as_str()),
        }
    }
}

/// The byte that two hexadecimal digits at a place make, where they are such.
pub open spec fn hex_byte_at(text: Seq<u8>, place: int) -> Option<u8> {
    match (hex_value(text[2 * place]), hex_value(text[2 * place + 1])) {
        (Some(high), Some(low)) => Some(hex_byte(high, low)),
        _ => None,
    }
}

/// Whether `text` is the hexadecimal text of an info hash.
pub open spec fn is_hash_text(text: Seq<u8>) -> bool {
    text.len() == 40 && forall|i: int| 0 <= i < 20 ==> #[trigger] hex_byte_at(text, i) is Some
}

/// Whether `text` is a hexadecimal text of this info hash.
pub open spec fn names_hash(text: Seq<u8>, info_hash: InfoHash) -> bool {
    text.len() == 40 && forall|i: int|
        0 <= i < 20 ==> #[trigger] hex_byte_at(text, i) == Some(info_hash@[i])
}

/// Reads the hexadecimal text of an info hash, in any case.
pub fn parse_info_hash(text: &[u8]) -> (result: Option<InfoHash>)
    ensures
        match result {
            Some(info_hash) => names_hash(text@, info_hash),
            None => !is_hash_text(text@),
        },
{
    if text.len() != 40 {
        return None;
    }
    let mut info_hash: InfoHash = [0; 20];
    let mut index: usize = 0;
    while index < 20
        invariant
            0 <= index <= 20,
            text@.len() == 40,
            forall|i: int|
                0 <= i < index ==> #[trigger] hex_byte_at(text@, i) == Some(info_hash@[i]),
        decreases 20 - index,
    {
        match (hex_digit(text[2 * index]), hex_digit(text[2 * index + 1])) {
            (Some(high), Some(low)) => {
                let ghost before = info_hash@;
                info_hash[index] = high * 16 + low;
                proof {
                    assert forall|i: int| 0 <= i < index + 1 implies #[trigger] hex_byte_at(
                        text@,
                        i,
                    ) == Some(info_hash@[i]) by {
                        if i < index {
                            assert(hex_byte_at(text@, i) == Some(before[i]));
                        }
                    }
                }
            },
            _ => {
                assert(hex_byte_at(text@, index as int) is None);
                return None;
            },
        }
        index = index + 1;
    }
    Some(info_hash)
}

/// How many bytes the white space at `at` has, or none where no white space
/// stands there. White space is what Unicode calls so, in UTF-8.
pub open spec fn space_at(text: Seq<u8>, at: int) -> int {
    if !(0 <= at < text.len()) {
        0
    } else if 9 <= text[at] <= 13 || text[at] == 32 {
        1
    } else if at + 1 < text.len() && text[at] == 0xc2 && (text[at + 1] == 0x85 || text[at + 1]
        == 0xa0) {
        2
    } else if at + 2 < text.len() && is_wide_space(text[at], text[at + 1], text[at + 2]) {
        3
    } else {
        0
    }
}

/// Whether three bytes are a white space character.
pub open spec fn is_wide_space(first: u8, second: u8, third: u8) -> bool {
    ||| first == 0xe1 && second == 0x9a && third == 0x80
    ||| first == 0xe2 && second == 0x80 && (0x80 <= third <= 0x8a || third == 0xa8 || third == 0xa9
        || third == 0xaf)
    ||| first == 0xe2 && second == 0x81 && third == 0x9f
    ||| first == 0xe3 && second == 0x80 && third == 0x80
}

/// Where the white space at the start of a text ends, from `at` on.
pub open spec fn spaces_end(text: Seq<u8>, at: int) -> int
    decreases text.len() - at,
{
    let length = space_at(text, at);
    if length == 0 {
        at
    } else {
        spaces_end(text, at + length)
    }
}

/// How many bytes the white space that ends at `end` and starts no earlier than
/// `start` has, or none.
pub open spec fn space_before(text: Seq<u8>, start: int, end: int) -> int {
    if end - 1 >= start && space_at(text.take(end), end - 1) == 1 {
        1
    } else if end - 2 >= start && space_at(text.take(end), end - 2) == 2 {
        2
    } else if end - 3 >= start && space_at(text.take(end), end - 3) == 3 {
        3
    } else {
        0
    }
}

/// Where the white space at the end of a text starts, from `end` back to
/// `start`.
pub open spec fn spaces_start(text: Seq<u8>, start: int, end: int) -> int
    decreases end - start,
{
    let length = space_before(text, start, end);
    if length == 0 {
        end
    } else {
        spaces_start(text, start, end - length)
    }
}

/// A text without the white space around it.
pub open spec fn trimmed(text: Seq<u8>) -> Seq<u8> {
    let start = spaces_end(text, 0);
    text.subrange(start, spaces_start(text, start, text.len() as int))
}

/// What one line says: it ends at a number sign, and white space around the
/// entry does not count.
pub open spec fn line_entry(line: Seq<u8>) -> Seq<u8> {
    trimmed(line.subrange(0, position_of(line, 0, 35)))
}

/// The refused torrents and addresses, the latter by their octets.
#[verifier::ext_equal]
pub struct BlacklistModel {
    pub info_hashes: Set<InfoHash>,
    pub ips: Set<Seq<u8>>,
}

impl BlacklistModel {
    /// Nothing is refused.
    pub open spec fn empty() -> BlacklistModel {
        BlacklistModel { info_hashes: Set::empty(), ips: Set::empty() }
    }
}

/// The info hash that a text names.
pub open spec fn hash_of(text: Seq<u8>) -> InfoHash {
    choose|info_hash: InfoHash| names_hash(text, info_hash)
}

/// What a line adds to the entries, or why it is refused.
pub open spec fn with_line(entries: BlacklistModel, entry: Seq<u8>, line: nat) -> Result<
    BlacklistModel,
    BlacklistFault,
> {
    if entry.len() == 0 {
        Ok(entries)
    } else if ip_octets_of(entry) is Some {
        Ok(BlacklistModel { ips: entries.ips.insert(ip_octets_of(entry)->0), ..entries })
    } else if entry.len() != 40 {
        Err(BlacklistFault::UnknownEntry { line })
    } else if !is_hash_text(entry) {
        Err(BlacklistFault::InvalidInfoHash { line, value: decode_utf8(entry) })
    } else {
        Ok(BlacklistModel { info_hashes: entries.info_hashes.insert(hash_of(entry)), ..entries })
    }
}

/// The entries once the lines from `at` on were read; `line` is the number of
/// the first of them.
pub open spec fn with_lines(entries: BlacklistModel, text: Seq<u8>, at: int, line: nat) -> Result<
    BlacklistModel,
    BlacklistFault,
>
    decreases text.len() + 1 - at,
    via with_lines_decreases
{
    if at < 0 || at >= text.len() {
        Ok(entries)
    } else {
        let end = position_of(text, at, 10);
        match with_line(entries, line_entry(text.subrange(at, end)), line) {
            Err(fault) => Err(fault),
            Ok(next) => with_lines(next, text, end + 1, line + 1),
        }
    }
}

#[via_fn]
proof fn with_lines_decreases(entries: BlacklistModel, text: Seq<u8>, at: int, line: nat) {
    if 0 <= at < text.len() {
        lemma_position_of(text, at, 10);
    }
}

/// An info hash is determined by its text.
pub proof fn lemma_hash_of(text: Seq<u8>, info_hash: InfoHash)
    requires
        names_hash(text, info_hash),
    ensures
        hash_of(text) == info_hash,
        is_hash_text(text),
{
    let other = hash_of(text);
    assert(names_hash(text, other));
    assert forall|i: int| 0 <= i < 20 implies other@[i] == info_hash@[i] by {
        assert(hex_byte_at(text, i) == Some(info_hash@[i]));
        assert(hex_byte_at(text, i) == Some(other@[i]));
    }
    assert(other =~= info_hash);
    assert forall|i: int| 0 <= i < 20 implies #[trigger] hex_byte_at(text, i) is Some by {
        assert(hex_byte_at(text, i) == Some(info_hash@[i]));
    }
}

/// How many bytes the white space at `at` has, in the text up to `end`.
fn measure_space(text: &[u8], at: usize, end: usize) -> (length: usize)
    requires
        at <= end <= text@.len(),
    ensures
        length == space_at(text@.take(end as int), at as int),
        at + length <= end,
{
    if at == end {
        return 0;
    }
    let byte: u8 = text[at];
    if (9 <= byte && byte <= 13) || byte == 32 {
        return 1;
    }
    if end - at >= 2 && byte == 0xc2 && (text[at + 1] == 0x85 || text[at + 1] == 0xa0) {
        return 2;
    }
    if end - at >= 3 {
        let second: u8 = text[at + 1];
        let third: u8 = text[at + 2];
        if (byte == 0xe1 && second == 0x9a && third == 0x80) || (byte == 0xe2 && second == 0x80 && ((
        0x80 <= third && third <= 0x8a) || third == 0xa8 || third == 0xa9 || third == 0xaf)) || (byte
            == 0xe2 && second == 0x81 && third == 0x9f) || (byte == 0xe3 && second == 0x80 && third
            == 0x80) {
            return 3;
        }
    }
    0
}

/// A text without the white space around it.
fn trim(text: &[u8]) -> (result: &[u8])
    ensures
        result@ == trimmed(text@),
{
    let mut start: usize = 0;
    assert(text@.take(text@.len() as int) =~= text@);
    loop
        invariant
            0 <= start <= text@.len(),
            text@.take(text@.len() as int) == text@,
            spaces_end(text@, 0) == spaces_end(text@, start as int),
        ensures
            spaces_end(text@, 0) == start,
        decreases text@.len() - start,
    {
        let length: usize = measure_space(text, start, text.len());
        if length == 0 {
            break;
        }
        start = start + length;
    }
    let mut end: usize = text.len();
    loop
        invariant
            start <= end <= text@.len(),
            spaces_start(text@, start as int, text@.len() as int) == spaces_start(
                text@,
                start as int,
                end as int,
            ),
        ensures
            spaces_start(text@, start as int, text@.len() as int) == end,
        decreases end - start,
    {
        let length: usize = if end - start >= 1 && measure_space(text, end - 1, end) == 1 {
            1
        } else if end - start >= 2 && measure_space(text, end - 2, end) == 2 {
            2
        } else if end - start >= 3 && measure_space(text, end - 3, end) == 3 {
            3
        } else {
            0
        };
        if length == 0 {
            break;
        }
        end = end - length;
    }
    slice_subrange(text, start, end)
}

/// A text that ends where another character starts, or at the end, is whole.
proof fn lemma_head_is_text(text: Seq<u8>, end: int)
    requires
        valid_utf8(text),
        0 <= end <= text.len(),
        end < text.len() ==> !is_continuation_byte(text[end]),
    ensures
        valid_utf8(text.subrange(0, end)),
        valid_utf8(text.subrange(end, text.len() as int)),
{
    if end < text.len() {
        is_char_boundary_iff_not_is_continuation_byte(text, end);
    } else {
        is_char_boundary_start_end_of_seq(text);
    }
    valid_utf8_split(text, end);
}

/// What follows the white space at the start of a text is whole.
proof fn lemma_spaces_end(text: Seq<u8>, at: int)
    requires
        0 <= at <= text.len(),
        valid_utf8(text.subrange(at, text.len() as int)),
    ensures
        at <= spaces_end(text, at) <= text.len(),
        valid_utf8(text.subrange(spaces_end(text, at), text.len() as int)),
    decreases text.len() - at,
{
    let length = space_at(text, at);
    if length > 0 {
        let rest = text.subrange(at, text.len() as int);
        assert(rest[0] == text[at]);
        assert(length_of_first_scalar(rest) == length);
        assert(pop_first_scalar(rest) =~= text.subrange(at + length, text.len() as int));
        lemma_spaces_end(text, at + length);
    }
}

/// What precedes the white space at the end of a text is whole.
proof fn lemma_spaces_start(text: Seq<u8>, start: int, end: int)
    requires
        0 <= start <= end <= text.len(),
        valid_utf8(text.subrange(start, end)),
    ensures
        start <= spaces_start(text, start, end) <= end,
        valid_utf8(text.subrange(start, spaces_start(text, start, end))),
    decreases end - start,
{
    let length = space_before(text, start, end);
    if length > 0 {
        let part = text.subrange(start, end);
        assert(part[end - length - start] == text[end - length]);
        assert(text.take(end)[end - length] == text[end - length]);
        lemma_head_is_text(part, end - length - start);
        assert(part.subrange(0, end - length - start) =~= text.subrange(start, end - length));
        lemma_spaces_start(text, start, end - length);
    }
}

/// A text without the white space around it is whole.
proof fn lemma_trimmed_is_text(text: Seq<u8>)
    requires
        valid_utf8(text),
    ensures
        valid_utf8(trimmed(text)),
{
    assert(text.subrange(0, text.len() as int) =~= text);
    lemma_spaces_end(text, 0);
    lemma_spaces_start(text, spaces_end(text, 0), text.len() as int);
}

/// A line's entry is whole, and so is the text behind the line.
proof fn lemma_line_is_text(text: Seq<u8>, at: int)
    requires
        0 <= at < text.len(),
        valid_utf8(text.subrange(at, text.len() as int)),
    ensures
        valid_utf8(line_entry(text.subrange(at, position_of(text, at, 10)))),
        position_of(text, at, 10) < text.len() ==> valid_utf8(
            text.subrange(position_of(text, at, 10) + 1, text.len() as int),
        ),
{
    let rest = text.subrange(at, text.len() as int);
    let end = position_of(text, at, 10);
    lemma_position_of(text, at, 10);
    let line = text.subrange(at, end);
    if end < text.len() {
        assert(rest[end - at] == 10);
    }
    lemma_head_is_text(rest, end - at);
    assert(rest.subrange(0, end - at) =~= line);
    if end < text.len() {
        let behind = rest.subrange(end - at, rest.len() as int);
        assert(behind[0] == 10);
        assert(pop_first_scalar(behind) =~= text.subrange(end + 1, text.len() as int));
    }
    lemma_position_of(line, 0, 35);
    lemma_head_is_text(line, position_of(line, 0, 35));
    lemma_trimmed_is_text(line.subrange(0, position_of(line, 0, 35)));
}

/// An entry as text.
fn entry_text(entry: &[u8]) -> (text: String)
    requires
        valid_utf8(entry@),
    ensures
        text@ == decode_utf8(entry@),
{
    match utf8_text(entry) {
        Some(text) => {
            proof {
                encode_utf8_decode_utf8(text@);
            }
            text
        },
        None => {
            assert(false);
            String::new()
        },
    }
}

/// The torrents and addresses that are refused.
#[derive(Debug)]
pub struct Blacklist {
    info_hashes: Vec<InfoHash>,
    ips: Vec<IpAddress>,
}

impl View for Blacklist {
    type V = BlacklistModel;

    closed spec fn view(&self) -> BlacklistModel {
        BlacklistModel {
            info_hashes: self.info_hashes@.to_set(),
            ips: self.ips@.map_values(|ip: IpAddress| ip.octets()).to_set(),
        }
    }
}

impl Default for Blacklist {
    /// A blacklist that refuses nothing.
    fn default() -> (blacklist: Self)
        ensures
            blacklist.valid(),
            blacklist@ == BlacklistModel::empty(),
    {
        let blacklist = Blacklist { info_hashes: Vec::new(), ips: Vec::new() };
        assert(blacklist@.info_hashes =~= Set::<InfoHash>::empty());
        assert(blacklist@.ips =~= Set::<Seq<u8>>::empty());
        blacklist
    }
}

impl Blacklist {
    /// No torrent and no address is entered twice.
    pub closed spec fn valid(self) -> bool {
        self.info_hashes@.no_duplicates() && self.ips@.no_duplicates()
    }

    /// Whether a torrent is refused.
    pub fn contains_info_hash(&self, info_hash: &InfoHash) -> (contained: bool)
        ensures
            contained == self@.info_hashes.contains(*info_hash),
    {
        let mut index: usize = 0;
        while index < self.info_hashes.len()
            invariant
                0 <= index <= self.info_hashes@.len(),
                forall|i: int| 0 <= i < index ==> self.info_hashes@[i] != *info_hash,
            decreases self.info_hashes@.len() - index,
        {
            if same_id(&self.info_hashes[index], info_hash) {
                assert(self.info_hashes@.contains(*info_hash));
                return true;
            }
            index = index + 1;
        }
        assert(!self.info_hashes@.contains(*info_hash));
        false
    }

    /// Whether an address is refused.
    pub fn contains_ip(&self, ip: &IpAddress) -> (contained: bool)
        ensures
            contained == self@.ips.contains(ip.octets()),
    {
        let ghost octets = self.ips@.map_values(|ip: IpAddress| ip.octets());
        let mut index: usize = 0;
        while index < self.ips.len()
            invariant
                0 <= index <= self.ips@.len(),
                octets == self.ips@.map_values(|ip: IpAddress| ip.octets()),
                forall|i: int| 0 <= i < index ==> self.ips@[i] != *ip,
            decreases self.ips@.len() - index,
        {
            if same_ip(&self.ips[index], ip) {
                assert(octets[index as int] == ip.octets());
                assert(octets.contains(ip.octets()));
                return true;
            }
            index = index + 1;
        }
        proof {
            assert forall|i: int| 0 <= i < octets.len() implies octets[i] != ip.octets() by {
                lemma_same_octets(self.ips@[i], *ip);
            }
            assert(!octets.contains(ip.octets()));
        }
        false
    }

    /// How many torrents are refused.
    pub fn info_hash_count(&self) -> (count: usize)
        requires
            self.valid(),
        ensures
            count == self@.info_hashes.len(),
    {
        proof {
            self.info_hashes@.unique_seq_to_set();
        }
        self.info_hashes.len()
    }

    /// How many addresses are refused.
    pub fn ip_count(&self) -> (count: usize)
        requires
            self.valid(),
        ensures
            count == self@.ips.len(),
    {
        proof {
            let octets = self.ips@.map_values(|ip: IpAddress| ip.octets());
            assert forall|i: int, j: int|
                0 <= i < octets.len() && 0 <= j < octets.len() && i != j implies octets[i]
                != octets[j] by {
                lemma_same_octets(self.ips@[i], self.ips@[j]);
            }
            octets.unique_seq_to_set();
        }
        self.ips.len()
    }

    /// Refuses a torrent from now on.
    fn add_info_hash(&mut self, info_hash: InfoHash)
        requires
            old(self).valid(),
        ensures
            final(self).valid(),
            final(self)@ == (BlacklistModel {
                info_hashes: old(self)@.info_hashes.insert(info_hash),
                ..old(self)@
            }),
    {
        let ghost before = self.info_hashes@;
        if self.contains_info_hash(&info_hash) {
            assert(self@.info_hashes.insert(info_hash) =~= self@.info_hashes);
            return;
        }
        self.info_hashes.push(info_hash);
        proof {
            assert(self.info_hashes@.to_set() =~= before.to_set().insert(info_hash)) by {
                lemma_push_to_set(before, info_hash);
            }
            assert(!before.contains(info_hash)) by {
                assert(before.to_set().contains(info_hash) == before.contains(info_hash));
            }
        }
    }

    /// Refuses an address from now on.
    fn add_ip(&mut self, ip: IpAddress)
        requires
            old(self).valid(),
        ensures
            final(self).valid(),
            final(self)@ == (BlacklistModel {
                ips: old(self)@.ips.insert(ip.octets()),
                ..old(self)@
            }),
    {
        let ghost before = self.ips@;
        let ghost octets = before.map_values(|ip: IpAddress| ip.octets());
        if self.contains_ip(&ip) {
            assert(self@.ips.insert(ip.octets()) =~= self@.ips);
            return;
        }
        self.ips.push(ip);
        proof {
            assert(self.ips@.map_values(|ip: IpAddress| ip.octets()) =~= octets.push(ip.octets()));
            lemma_push_to_set(octets, ip.octets());
            assert(!before.contains(ip)) by {
                if before.contains(ip) {
                    let i = choose|i: int| 0 <= i < before.len() && before[i] == ip;
                    assert(octets[i] == ip.octets());
                    assert(octets.contains(ip.octets()));
                }
            }
        }
    }

    /// Reads a blacklist: one entry per line, an address or an info hash in
    /// hexadecimal. What follows a number sign does not count.
    pub fn from_contents(contents: &str) -> (result: Result<Self, BlacklistError>)
        ensures
            match result {
                Ok(blacklist) => blacklist.valid() && with_lines(
                    BlacklistModel::empty(),
                    encode_utf8(contents@),
                    0,
                    1,
                ) == Ok::<BlacklistModel, BlacklistFault>(blacklist@),
                Err(error) => with_lines(
                    BlacklistModel::empty(),
                    encode_utf8(contents@),
                    0,
                    1,
                ) == Err::<BlacklistModel, BlacklistFault>(error@),
            },
    {
        let text: &[u8] = contents.as_bytes();
        let total: usize = text.len();
        let mut blacklist = Blacklist::default();
        let mut index: usize = 0;
        let mut line: usize = 1;
        let ghost wanted = with_lines(BlacklistModel::empty(), text@, 0, 1);
        proof {
            encode_utf8_valid_utf8(contents@);
            assert(text@.subrange(0, text@.len() as int) =~= text@);
        }
        while index < total
            invariant
                0 <= index <= text@.len(),
                text@.len() == total,
                1 <= line <= index + 1,
                blacklist.valid(),
                text@ == encode_utf8(contents@),
                valid_utf8(text@.subrange(index as int, text@.len() as int)),
                wanted == with_lines(BlacklistModel::empty(), text@, 0, 1),
                wanted == with_lines(blacklist@, text@, index as int, line as nat),
            decreases text@.len() - index,
        {
            let end: usize = find_byte(text, index, 10);
            let whole: &[u8] = slice_subrange(text, index, end);
            let comment: usize = find_byte(whole, 0, 35);
            let entry: &[u8] = trim(slice_subrange(whole, 0, comment));
            proof {
                lemma_line_is_text(text@, index as int);
            }
            if entry.len() > 0 {
                if let Some(ip) = parse_ip(entry) {
                    blacklist.add_ip(ip);
                } else if entry.len() != 40 {
                    return Err(BlacklistError::UnknownEntry { line });
                } else {
                    match parse_info_hash(entry) {
                        Some(info_hash) => {
                            proof {
                                lemma_hash_of(entry@, info_hash);
                            }
                            blacklist.add_info_hash(info_hash);
                        },
                        None => {
                            let value: String = entry_text(entry);
                            return Err(BlacklistError::InvalidInfoHash { line, value });
                        },
                    }
                }
            }
            if total - end <= 1 {
                assert(with_lines(blacklist@, text@, end + 1, (line + 1) as nat) == Ok::<
                    BlacklistModel,
                    BlacklistFault,
                >(blacklist@));
                return Ok(blacklist);
            }
            index = end + 1;
            line = line + 1;
        }
        Ok(blacklist)
    }

    /// A blacklist of info hashes in hexadecimal and of addresses. The first
    /// text that is no info hash is reported.
    pub fn from_entries(info_hashes: &Vec<String>, ips: &Vec<IpAddress>) -> (result: Result<
        Self,
        BlacklistError,
    >)
        ensures
            match result {
                Ok(blacklist) => {
                    &&& blacklist.valid()
                    &&& forall|i: int|
                        0 <= i < info_hashes@.len() ==> is_hash_text(
                            encode_utf8((#[trigger] info_hashes@[i])@),
                        )
                    &&& blacklist@.info_hashes == info_hashes@.map_values(
                        |text: String| hash_of(encode_utf8(text@)),
                    ).to_set()
                    &&& blacklist@.ips == ips@.map_values(|ip: IpAddress| ip.octets()).to_set()
                },
                Err(error) => exists|index: int|
                    #![trigger info_hashes@[index]]
                    {
                        &&& 0 <= index < info_hashes@.len()
                        &&& error@ == (BlacklistFault::InvalidEntry { value: info_hashes@[index]@ })
                        &&& !is_hash_text(encode_utf8(info_hashes@[index]@))
                        &&& forall|i: int|
                            0 <= i < index ==> is_hash_text(
                                encode_utf8((#[trigger] info_hashes@[i])@),
                            )
                    },
            },
    {
        let mut blacklist = Blacklist::default();
        let ghost name = |text: String| hash_of(encode_utf8(text@));
        let ghost octets_of = |ip: IpAddress| ip.octets();
        let mut index: usize = 0;
        assert(info_hashes@.take(0).map_values(name).to_set() =~= Set::<InfoHash>::empty());
        while index < info_hashes.len()
            invariant
                0 <= index <= info_hashes@.len(),
                blacklist.valid(),
                name == (|text: String| hash_of(encode_utf8(text@))),
                forall|i: int|
                    0 <= i < index ==> is_hash_text(encode_utf8((#[trigger] info_hashes@[i])@)),
                blacklist@.info_hashes == info_hashes@.take(index as int).map_values(name).to_set(),
                blacklist@.ips == Set::<Seq<u8>>::empty(),
            decreases info_hashes@.len() - index,
        {
            let text: &[u8] = info_hashes[index].as_str().as_bytes();
            match parse_info_hash(text) {
                Some(info_hash) => {
                    proof {
                        lemma_hash_of(text@, info_hash);
                        let before = info_hashes@.take(index as int).map_values(name);
                        assert(info_hashes@.take(index + 1).map_values(name) =~= before.push(
                            info_hash,
                        ));
                        lemma_push_to_set(before, info_hash);
                    }
                    blacklist.add_info_hash(info_hash);
                },
                None => {
                    let value: String = info_hashes[index].clone();
                    assert(value@ == info_hashes@[index as int]@);
                    return Err(BlacklistError::InvalidEntry { value });
                },
            }
            index = index + 1;
        }
        assert(info_hashes@.take(index as int) =~= info_hashes@);
        let mut index: usize = 0;
        assert(ips@.take(0).map_values(octets_of).to_set() =~= Set::<Seq<u8>>::empty());
        while index < ips.len()
            invariant
                0 <= index <= ips@.len(),
                blacklist.valid(),
                octets_of == (|ip: IpAddress| ip.octets()),
                blacklist@.info_hashes == info_hashes@.map_values(name).to_set(),
                blacklist@.ips == ips@.take(index as int).map_values(octets_of).to_set(),
            decreases ips@.len() - index,
        {
            let ip: IpAddress = ips[index];
            proof {
                let before = ips@.take(index as int).map_values(octets_of);
                assert(ips@.take(index + 1).map_values(octets_of) =~= before.push(ip.octets()));
                lemma_push_to_set(before, ip.octets());
            }
            blacklist.add_ip(ip);
            index = index + 1;
        }
        assert(ips@.take(index as int) =~= ips@);
        Ok(blacklist)
    }

    /// Whether every entry of `other` is here too.
    fn covers(&self, other: &Blacklist) -> (result: bool)
        ensures
            result == (other@.info_hashes.subset_of(self@.info_hashes) && other@.ips.subset_of(
                self@.ips,
            )),
    {
        let mut index: usize = 0;
        while index < other.info_hashes.len()
            invariant
                0 <= index <= other.info_hashes@.len(),
                forall|i: int|
                    0 <= i < index ==> self@.info_hashes.contains(
                        #[trigger] other.info_hashes@[i],
                    ),
            decreases other.info_hashes@.len() - index,
        {
            if !self.contains_info_hash(&other.info_hashes[index]) {
                assert(other@.info_hashes.contains(other.info_hashes@[index as int]));
                return false;
            }
            index = index + 1;
        }
        let ghost octets = other.ips@.map_values(|ip: IpAddress| ip.octets());
        let mut index: usize = 0;
        while index < other.ips.len()
            invariant
                0 <= index <= other.ips@.len(),
                octets == other.ips@.map_values(|ip: IpAddress| ip.octets()),
                forall|i: int| 0 <= i < index ==> self@.ips.contains(#[trigger] octets[i]),
            decreases other.ips@.len() - index,
        {
            if !self.contains_ip(&other.ips[index]) {
                assert(octets.contains(octets[index as int]));
                assert(other@.ips.contains(octets[index as int]));
                return false;
            }
            index = index + 1;
        }
        true
    }

    /// Takes the entries of a new text, and tells whether they differ. A text
    /// that is refused changes nothing.
    pub fn reload(&mut self, contents: &str) -> (result: Result<bool, BlacklistError>)
        requires
            old(self).valid(),
        ensures
            final(self).valid(),
            match (
                result,
                with_lines(BlacklistModel::empty(), encode_utf8(contents@), 0, 1),
            ) {
                (Ok(changed), Ok(entries)) => final(self)@ == entries && changed == (entries != old(
                    self)@),
                (Err(error), Err(fault)) => error@ == fault && final(self)@ == old(self)@,
                _ => false,
            },
    {
        let replacement: Blacklist = match Blacklist::from_contents(contents) {
            Ok(replacement) => replacement,
            Err(error) => return Err(error),
        };
        if self.covers(&replacement) && replacement.covers(self) {
            assert(self@ =~= replacement@);
            return Ok(false);
        }
        *self = replacement;
        Ok(true)
    }
}

/// The elements of a sequence once one more was pushed.
proof fn lemma_push_to_set<A>(elements: Seq<A>, last: A)
    ensures
        elements.push(last).to_set() == elements.to_set().insert(last),
{
    let pushed = elements.push(last);
    assert forall|element: A| pushed.to_set().contains(element) == elements.to_set().insert(
        last,
    ).contains(element) by {
        if element == last {
            assert(pushed[elements.len() as int] == last);
        }
        if elements.contains(element) {
            let i = choose|i: int| 0 <= i < elements.len() && elements[i] == element;
            assert(pushed[i] == element);
        }
        if pushed.contains(element) && element != last {
            let i = choose|i: int| 0 <= i < pushed.len() && pushed[i] == element;
            assert(elements[i] == element);
        }
    }
    assert(pushed.to_set() =~= elements.to_set().insert(last));
}

} // verus!
