//! The reply to a scrape as JSON.

use crate::address::hex_char;
use crate::bencode::{
    decode, decoded, encode, entries_model, entries_within_bounds, law_decode_undoes_encode,
    within_bounds, Node, Value,
};
use crate::order::sorted_hashes;
use crate::payload::{entry, file_entries, scrape_node, stats_node};
use crate::state::{InfoHash, SwarmStats, TrackerModel};
use crate::text::{decimal, push_decimal, push_slice, same_bytes};
use vstd::prelude::*;
use vstd::utf8::encode_utf8;

verus! {

/// The lower-case hexadecimal text of bytes.
pub open spec fn hex_of(bytes: Seq<u8>) -> Seq<u8>
    decreases bytes.len(),
{
    if bytes.len() == 0 {
        Seq::empty()
    } else {
        hex_of(bytes.drop_last()) + seq![
            hex_char((bytes.last() / 16) as nat),
            hex_char((bytes.last() % 16) as nat),
        ]
    }
}

/// The statistics of a torrent as a JSON object.
pub open spec fn stats_text(complete: nat, downloaded: nat, incomplete: nat) -> Seq<u8> {
    encode_utf8("{\"complete\":"@) + decimal(complete) + encode_utf8(",\"downloaded\":"@) + decimal(
        downloaded,
    ) + encode_utf8(",\"incomplete\":"@) + decimal(incomplete) + encode_utf8("}"@)
}

/// A member of a JSON object: an info hash in hexadecimal and its statistics.
pub open spec fn member_text(info_hash: Seq<u8>, stats: Seq<u8>) -> Seq<u8> {
    encode_utf8("\""@) + hex_of(info_hash) + encode_utf8("\":"@) + stats
}

/// Members of a JSON object, with commas between them.
pub open spec fn joined(members: Seq<Seq<u8>>) -> Seq<u8>
    decreases members.len(),
{
    if members.len() == 0 {
        Seq::empty()
    } else if members.len() == 1 {
        members[0]
    } else {
        joined(members.drop_last()) + encode_utf8(","@) + members.last()
    }
}

/// The JSON text around the torrents' members.
pub open spec fn files_text(members: Seq<Seq<u8>>) -> Seq<u8> {
    encode_utf8("{\"files\":{"@) + joined(members) + encode_utf8("}}"@)
}

/// The reply to a scrape of the given torrents as JSON, in ascending order.
pub open spec fn scrape_json_text(state: TrackerModel, hashes: Seq<InfoHash>) -> Seq<u8> {
    files_text(
        sorted_hashes(hashes).map_values(
            |info_hash: InfoHash|
                {
                    let stats = state.torrent(info_hash).stats();
                    member_text(
                        info_hash@,
                        stats_text(
                            stats.complete as nat,
                            stats.downloaded as nat,
                            stats.incomplete as nat,
                        ),
                    )
                },
        ),
    )
}

/// The number under a name at a place in a dictionary.
pub open spec fn number_under(
    entries: Seq<(Seq<u8>, Node)>,
    place: int,
    name: Seq<char>,
) -> Option<nat> {
    if entries[place].0 == encode_utf8(name) {
        match entries[place].1 {
            Node::Integer(value) => if 0 <= value <= u64::MAX {
                Some(value as nat)
            } else {
                None
            },
            _ => None,
        }
    } else {
        None
    }
}

/// The JSON object for a torrent's statistics, where they are in the expected
/// form.
pub open spec fn stats_json(node: Node) -> Option<Seq<u8>> {
    match node {
        Node::Dictionary(entries) => if entries.len() == 3 {
            match (
                number_under(entries, 0, "complete"@),
                number_under(entries, 1, "downloaded"@),
                number_under(entries, 2, "incomplete"@),
            ) {
                (Some(complete), Some(downloaded), Some(incomplete)) => Some(
                    stats_text(complete, downloaded, incomplete),
                ),
                _ => None,
            }
        } else {
            None
        },
        _ => None,
    }
}

/// The members for the entries of a scrape, where all are in the expected form.
pub open spec fn members_of(entries: Seq<(Seq<u8>, Node)>) -> Option<Seq<Seq<u8>>>
    decreases entries.len(),
{
    if entries.len() == 0 {
        Some(Seq::empty())
    } else {
        match (members_of(entries.drop_last()), stats_json(entries.last().1)) {
            (Some(before), Some(stats)) => Some(before.push(member_text(entries.last().0, stats))),
            _ => None,
        }
    }
}

/// The JSON text for the reply to a scrape, where it is in the expected form.
pub open spec fn json_of(node: Node) -> Option<Seq<u8>> {
    match node {
        Node::Dictionary(entries) => if entries.len() == 1 && entries[0].0 == encode_utf8(
            "files"@,
        ) {
            match entries[0].1 {
                Node::Dictionary(files) => match members_of(files) {
                    Some(members) => Some(files_text(members)),
                    None => None,
                },
                _ => None,
            }
        } else {
            None
        },
        _ => None,
    }
}

/// The model of entries, one by one.
proof fn lemma_entries_model<'a>(entries: Seq<(&'a [u8], Value<'a>)>, index: int)
    ensures
        entries_model(entries).len() == entries.len(),
        0 <= index < entries.len() ==> entries_model(entries)[index] == (
            entries[index].0@,
            entries[index].1.model(),
        ),
    decreases entries.len(),
{
    if entries.len() > 0 {
        lemma_entries_model(entries.drop_last(), index);
    }
}

/// Appends the hexadecimal text of bytes.
fn push_hex_of(output: &mut Vec<u8>, bytes: &[u8])
    ensures
        final(output)@ == old(output)@ + hex_of(bytes@),
{
    let ghost before = output@;
    let mut index: usize = 0;
    assert(bytes@.take(0) =~= Seq::<u8>::empty());
    assert(before + Seq::<u8>::empty() =~= before);
    while index < bytes.len()
        invariant
            0 <= index <= bytes@.len(),
            output@ == before + hex_of(bytes@.take(index as int)),
        decreases bytes@.len() - index,
    {
        let byte: u8 = bytes[index];
        let ghost so_far = output@;
        push_hex_digit(output, byte / 16);
        push_hex_digit(output, byte % 16);
        proof {
            assert(bytes@.take(index + 1).drop_last() =~= bytes@.take(index as int));
            assert(output@ =~= before + hex_of(bytes@.take(index + 1)));
        }
        index = index + 1;
    }
    assert(bytes@.take(index as int) =~= bytes@);
}

/// Appends a hexadecimal digit.
fn push_hex_digit(output: &mut Vec<u8>, digit: u8)
    requires
        digit < 16,
    ensures
        final(output)@ == old(output)@.push(hex_char(digit as nat)),
{
    if digit < 10 {
        output.push(48 + digit);
    } else {
        output.push(87 + digit);
    }
}

/// The number under a name at a place in a dictionary.
fn read_number<'a>(entries: &Vec<(&'a [u8], Value<'a>)>, place: usize, name: &str) -> (result:
    Option<u64>)
    requires
        place < entries@.len(),
    ensures
        match result {
            Some(value) => number_under(entries_model(entries@), place as int, name@) == Some(
                value as nat,
            ),
            None => number_under(entries_model(entries@), place as int, name@) is None,
        },
{
    proof {
        lemma_entries_model(entries@, place as int);
    }
    if !same_bytes(entries[place].0, name.as_bytes()) {
        return None;
    }
    match &entries[place].1 {
        Value::Integer(value) => if 0 <= *value && *value <= u64::MAX as i128 {
            Some(*value as u64)
        } else {
            None
        },
        _ => None,
    }
}

/// Appends the JSON object for a torrent's statistics, where they are in the
/// expected form.
fn push_stats<'a>(output: &mut Vec<u8>, value: &Value<'a>) -> (done: bool)
    ensures
        done == stats_json(value.model()) is Some,
        done ==> final(output)@ == old(output)@ + stats_json(value.model())->0,
{
    match value {
        Value::Dictionary(entries) => {
            proof {
                lemma_entries_model(entries@, 0);
            }
            if entries.len() != 3 {
                return false;
            }
            match (
                read_number(entries, 0, "complete"),
                read_number(entries, 1, "downloaded"),
                read_number(entries, 2, "incomplete"),
            ) {
                (Some(complete), Some(downloaded), Some(incomplete)) => {
                    push_slice(output, "{\"complete\":".as_bytes());
                    push_decimal(output, complete);
                    push_slice(output, ",\"downloaded\":".as_bytes());
                    push_decimal(output, downloaded);
                    push_slice(output, ",\"incomplete\":".as_bytes());
                    push_decimal(output, incomplete);
                    push_slice(output, "}".as_bytes());
                    assert(final(output)@ =~= old(output)@ + stats_text(
                        complete as nat,
                        downloaded as nat,
                        incomplete as nat,
                    ));
                    true
                },
                _ => false,
            }
        },
        _ => false,
    }
}

/// A part of the entries that is not in the expected form spoils the whole.
proof fn lemma_members_prefix(entries: Seq<(Seq<u8>, Node)>, count: int)
    requires
        0 <= count <= entries.len(),
        members_of(entries.take(count)) is None,
    ensures
        members_of(entries) is None,
    decreases entries.len() - count,
{
    if count == entries.len() {
        assert(entries.take(count) =~= entries);
    } else {
        assert(entries.take(count + 1).drop_last() =~= entries.take(count));
        lemma_members_prefix(entries, count + 1);
    }
}

/// Appends the member for a torrent, where its statistics are in the expected
/// form.
fn push_member<'a>(output: &mut Vec<u8>, info_hash: &[u8], value: &Value<'a>) -> (done: bool)
    ensures
        done == stats_json(value.model()) is Some,
        done ==> final(output)@ == old(output)@ + member_text(
            info_hash@,
            stats_json(value.model())->0,
        ),
{
    push_slice(output, "\"".as_bytes());
    push_hex_of(output, info_hash);
    push_slice(output, "\":".as_bytes());
    if !push_stats(output, value) {
        return false;
    }
    assert(final(output)@ =~= old(output)@ + member_text(
        info_hash@,
        stats_json(value.model())->0,
    ));
    true
}

/// One more member stands behind the others and a comma.
proof fn lemma_joined_push(head: Seq<u8>, members: Seq<Seq<u8>>, member: Seq<u8>)
    ensures
        members.len() == 0 ==> head + joined(members) + member == head + joined(
            members.push(member),
        ),
        members.len() > 0 ==> head + joined(members) + encode_utf8(","@) + member == head + joined(
            members.push(member),
        ),
{
    assert(members.push(member).drop_last() =~= members);
    if members.len() == 0 {
        assert(head + joined(members) + member =~= head + joined(members.push(member)));
    } else {
        assert(head + joined(members) + encode_utf8(","@) + member =~= head + joined(
            members.push(member),
        ));
    }
}

/// Turns the bencoded reply to a scrape into JSON. There is nothing to give
/// where the payload is not in the form of such a reply.
pub fn scrape_json(payload: &[u8]) -> (result: Option<Vec<u8>>)
    ensures
        match decoded(payload@) {
            Err(_) => result is None,
            Ok(node) => match result {
                Some(text) => json_of(node) == Some(text@),
                None => json_of(node) is None,
            },
        },
{
    let value: Value = match decode(payload) {
        Ok(value) => value,
        Err(_) => return None,
    };
    let entries: &Vec<(&[u8], Value)> = match &value {
        Value::Dictionary(entries) => entries,
        _ => return None,
    };
    proof {
        lemma_entries_model(entries@, 0);
    }
    if entries.len() != 1 || !same_bytes(entries[0].0, "files".as_bytes()) {
        return None;
    }
    let files: &Vec<(&[u8], Value)> = match &entries[0].1 {
        Value::Dictionary(files) => files,
        _ => return None,
    };
    let ghost model = entries_model(files@);
    let mut output: Vec<u8> = Vec::new();
    push_slice(&mut output, "{\"files\":{".as_bytes());
    let ghost head = output@;
    let ghost mut members: Seq<Seq<u8>> = Seq::empty();
    let mut index: usize = 0;
    proof {
        lemma_entries_model(files@, 0);
        assert(model.take(0) =~= Seq::<(Seq<u8>, Node)>::empty());
        assert(head + Seq::<u8>::empty() =~= head);
        assert(head =~= encode_utf8("{\"files\":{"@));
    }
    while index < files.len()
        invariant
            0 <= index <= files@.len(),
            model == entries_model(files@),
            model.len() == files@.len(),
            members_of(model) is None ==> json_of(value.model()) is None,
            decoded(payload@) == Ok::<Node, crate::bencode::DecodeError>(value.model()),
            members_of(model.take(index as int)) == Some(members),
            members.len() == index,
            output@ == head + joined(members),
        decreases files@.len() - index,
    {
        proof {
            lemma_entries_model(files@, index as int);
            assert(model.take(index + 1).drop_last() =~= model.take(index as int));
        }
        if index > 0 {
            push_slice(&mut output, ",".as_bytes());
        }
        let ghost before_member = output@;
        if !push_member(&mut output, files[index].0, &files[index].1) {
            proof {
                lemma_members_prefix(model, index + 1);
            }
            return None;
        }
        proof {
            let member = member_text(model[index as int].0, stats_json(model[index as int].1)->0);
            assert(output@ == before_member + member);
            lemma_joined_push(head, members, member);
            members = members.push(member);
        }
        index = index + 1;
    }
    assert(model.take(index as int) =~= model);
    push_slice(&mut output, "}}".as_bytes());
    assert(output@ =~= files_text(members));
    Some(output)
}

/// Plain names encode to as many bytes as they have characters.
proof fn lemma_plain_name(name: Seq<char>)
    requires
        vstd::utf8::is_ascii_chars(name),
        name.len() <= 20,
    ensures
        encode_utf8(name).len() <= 20,
{
    vstd::utf8::is_ascii_chars_encode_utf8(name);
}

/// The names in the reply to a scrape are short.
proof fn lemma_names()
    ensures
        encode_utf8("files"@).len() <= 20,
        encode_utf8("complete"@).len() <= 20,
        encode_utf8("downloaded"@).len() <= 20,
        encode_utf8("incomplete"@).len() <= 20,
{
    reveal_strlit("files");
    reveal_strlit("complete");
    reveal_strlit("downloaded");
    reveal_strlit("incomplete");
    lemma_plain_name("files"@);
    lemma_plain_name("complete"@);
    lemma_plain_name("downloaded"@);
    lemma_plain_name("incomplete"@);
}

/// Statistics keep the decoder's bounds.
proof fn lemma_stats_within_bounds(stats: SwarmStats)
    ensures
        within_bounds(stats_node(stats), 2),
{
    lemma_names();
    let all = seq![
        entry("complete"@, Node::Integer(stats.complete as int)),
        entry("downloaded"@, Node::Integer(stats.downloaded as int)),
        entry("incomplete"@, Node::Integer(stats.incomplete as int)),
    ];
    let two = all.subrange(1, 3);
    let one = two.subrange(1, 2);
    let none = one.subrange(1, 1);
    assert(entries_within_bounds(none, 3));
    assert(one[0] == all[2]);
    assert(within_bounds(one[0].1, 3));
    assert(entries_within_bounds(one, 3));
    assert(two[0] == all[1]);
    assert(within_bounds(two[0].1, 3));
    assert(entries_within_bounds(two, 3));
    assert(within_bounds(all[0].1, 3));
    assert(entries_within_bounds(all, 3));
}

/// The entries for torrents keep the decoder's bounds.
proof fn lemma_files_within_bounds(state: TrackerModel, hashes: Seq<InfoHash>)
    ensures
        entries_within_bounds(file_entries(state, hashes), 2),
    decreases hashes.len(),
{
    let entries = file_entries(state, hashes);
    if hashes.len() > 0 {
        let rest = hashes.subrange(1, hashes.len() as int);
        lemma_files_within_bounds(state, rest);
        assert(entries.subrange(1, entries.len() as int) =~= file_entries(state, rest));
        lemma_stats_within_bounds(state.torrent(hashes[0]).stats());
        assert(entries[0].0.len() == 20);
    }
}

/// The members for the entries of a scrape.
proof fn lemma_members(state: TrackerModel, hashes: Seq<InfoHash>)
    ensures
        members_of(file_entries(state, hashes)) == Some(
            hashes.map_values(
                |info_hash: InfoHash|
                    {
                        let stats = state.torrent(info_hash).stats();
                        member_text(
                            info_hash@,
                            stats_text(
                                stats.complete as nat,
                                stats.downloaded as nat,
                                stats.incomplete as nat,
                            ),
                        )
                    },
            ),
        ),
    decreases hashes.len(),
{
    let member = |info_hash: InfoHash|
        {
            let stats = state.torrent(info_hash).stats();
            member_text(
                info_hash@,
                stats_text(
                    stats.complete as nat,
                    stats.downloaded as nat,
                    stats.incomplete as nat,
                ),
            )
        };
    let entries = file_entries(state, hashes);
    if hashes.len() == 0 {
        assert(hashes.map_values(member) =~= Seq::<Seq<u8>>::empty());
    } else {
        let head = hashes.drop_last();
        lemma_members(state, head);
        assert(entries.drop_last() =~= file_entries(state, head));
        let stats = state.torrent(hashes.last()).stats();
        let node = stats_node(stats);
        assert(entries.last() == (hashes.last()@, node));
        assert(stats_json(node) == Some(
            stats_text(stats.complete as nat, stats.downloaded as nat, stats.incomplete as nat),
        ));
        assert(hashes.map_values(member) =~= head.map_values(member).push(member(hashes.last())));
    }
}

/// The reply to a scrape keeps the decoder's bounds, so clients can decode it.
pub proof fn law_scrape_payload_is_decoded(state: TrackerModel, hashes: Seq<InfoHash>)
    ensures
        decoded(encode(scrape_node(state, hashes))) == Ok::<Node, crate::bencode::DecodeError>(
            scrape_node(state, hashes),
        ),
{
    let sorted = sorted_hashes(hashes);
    let files = Node::Dictionary(file_entries(state, sorted));
    let entries = seq![entry("files"@, files)];
    lemma_names();
    lemma_files_within_bounds(state, sorted);
    assert(within_bounds(files, 1));
    assert(entries_within_bounds(entries.subrange(1, 1), 1));
    assert(entries_within_bounds(entries, 1));
    law_decode_undoes_encode(scrape_node(state, hashes));
}

/// The bencoded reply to a scrape becomes the JSON reply for the same torrents.
pub proof fn law_scrape_payload_becomes_json(state: TrackerModel, hashes: Seq<InfoHash>)
    ensures
        decoded(encode(scrape_node(state, hashes))) == Ok::<Node, crate::bencode::DecodeError>(
            scrape_node(state, hashes),
        ),
        json_of(scrape_node(state, hashes)) == Some(scrape_json_text(state, hashes)),
{
    law_scrape_payload_is_decoded(state, hashes);
    lemma_members(state, sorted_hashes(hashes));
}

} // verus!
