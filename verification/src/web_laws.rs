//! What holds of the HTTP tracker's requests and replies.

use crate::address::IpAddress;
use crate::address_laws::lemma_address_text_is_short;
use crate::bencode::{
    decoded, encode, entries_within_bounds, law_decode_undoes_encode, list_within_bounds,
    within_bounds, DecodeError, Node,
};
use crate::metrics::MetricsModel;
use crate::order::lemma_sorting_ignores_order;
use crate::payload::{
    announce_head, announce_node, entry, peer_node, peer_nodes, scrape_node,
};
use crate::query::{first_value, parsed_pair, parsed_query, percent_decoded, QueryFault};
use crate::state::{AnnounceEvent, InfoHash, Peer, SwarmStats, TrackerModel};
use crate::text::{hex_byte, hex_value, lemma_position_of_is};
use crate::udp::family_peers;
use crate::web::{
    announced, is_full_scrape, is_true_to, lists_all, parsed_announce, requested_announce,
    KeptReply,
};
use vstd::prelude::*;
use vstd::utf8::{encode_utf8, valid_utf8};

verus! {

/// Whether a text is bytes with every one of them percent-encoded, by
/// hexadecimal digits of either case.
pub open spec fn is_percent_encoding(text: Seq<u8>, bytes: Seq<u8>) -> bool {
    &&& text.len() == 3 * bytes.len()
    &&& forall|i: int|
        #![trigger bytes[i]]
        0 <= i < bytes.len() ==> text[3 * i] == 37 && hex_value(text[3 * i + 1]) == Some(
            (bytes[i] / 16) as u8,
        ) && hex_value(text[3 * i + 2]) == Some((bytes[i] % 16) as u8)
}

/// The upper-case hexadecimal digit for a number below 16.
pub open spec fn upper_hex(digit: nat) -> u8 {
    if digit < 10 {
        (48 + digit) as u8
    } else {
        (55 + digit) as u8
    }
}

/// Bytes with every one of them percent-encoded, by upper-case digits.
pub open spec fn percent_encoded(bytes: Seq<u8>) -> Seq<u8> {
    Seq::new(
        3 * bytes.len(),
        |i: int|
            if i % 3 == 0 {
                37u8
            } else if i % 3 == 1 {
                upper_hex((bytes[i / 3] / 16) as nat)
            } else {
                upper_hex((bytes[i / 3] % 16) as nat)
            },
    )
}

/// Every byte string has a percent-encoding.
pub proof fn law_every_byte_string_can_be_encoded(bytes: Seq<u8>)
    ensures
        is_percent_encoding(percent_encoded(bytes), bytes),
{
    let text = percent_encoded(bytes);
    assert forall|i: int|
        #![trigger bytes[i]]
        0 <= i < bytes.len() implies text[3 * i] == 37 && hex_value(text[3 * i + 1]) == Some(
        (bytes[i] / 16) as u8,
    ) && hex_value(text[3 * i + 2]) == Some((bytes[i] % 16) as u8) by {
        assert((3 * i + 1) / 3 == i && (3 * i + 2) / 3 == i);
        assert((3 * i) % 3 == 0 && (3 * i + 1) % 3 == 1 && (3 * i + 2) % 3 == 2);
        let high = (bytes[i] / 16) as nat;
        let low = (bytes[i] % 16) as nat;
        assert(hex_value(upper_hex(high)) == Some(high as u8));
        assert(hex_value(upper_hex(low)) == Some(low as u8));
    }
}

/// Percent-encoded bytes are decoded to what they were, whatever they are and
/// whichever case their digits have.
pub proof fn law_percent_encoding_is_decoded(text: Seq<u8>, bytes: Seq<u8>)
    requires
        is_percent_encoding(text, bytes),
    ensures
        percent_decoded(text, 0) == Ok::<Seq<u8>, QueryFault>(bytes),
{
    lemma_percent_encoding(text, bytes, 0);
    assert(bytes.subrange(0, bytes.len() as int) =~= bytes);
}

/// The bytes from one place on are decoded.
proof fn lemma_percent_encoding(text: Seq<u8>, bytes: Seq<u8>, place: int)
    requires
        is_percent_encoding(text, bytes),
        0 <= place <= bytes.len(),
    ensures
        percent_decoded(text, 3 * place) == Ok::<Seq<u8>, QueryFault>(
            bytes.subrange(place, bytes.len() as int),
        ),
    decreases bytes.len() - place,
{
    if place == bytes.len() {
        assert(bytes.subrange(place, bytes.len() as int) =~= Seq::<u8>::empty());
    } else {
        lemma_percent_encoding(text, bytes, place + 1);
        assert(hex_byte((bytes[place] / 16) as u8, (bytes[place] % 16) as u8) == bytes[place]);
        assert(seq![bytes[place]] + bytes.subrange(place + 1, bytes.len() as int)
            =~= bytes.subrange(place, bytes.len() as int));
    }
}

/// Decoding one text behind another gives what both give, one behind the other,
/// where the first is decoded.
pub proof fn law_decoding_is_by_parts(left: Seq<u8>, right: Seq<u8>)
    ensures
        percent_decoded(left, 0) matches Ok(first) ==> percent_decoded(left + right, 0) == match
            percent_decoded(right, 0) {
            Ok(second) => Ok::<Seq<u8>, QueryFault>(first + second),
            Err(fault) => Err(fault),
        },
{
    lemma_decoded_parts(left, right, 0);
}

/// Decoding from within the first of two texts.
proof fn lemma_decoded_parts(left: Seq<u8>, right: Seq<u8>, at: int)
    requires
        0 <= at <= left.len(),
    ensures
        percent_decoded(left, at) matches Ok(first) ==> percent_decoded(left + right, at) == match
            percent_decoded(right, 0) {
            Ok(second) => Ok::<Seq<u8>, QueryFault>(first + second),
            Err(fault) => Err(fault),
        },
    decreases left.len() - at,
{
    let whole = left + right;
    if at == left.len() {
        lemma_decoded_behind(left, right, 0);
        if let Ok(second) = percent_decoded(right, 0) {
            assert(Seq::<u8>::empty() + second =~= second);
        }
    } else {
        assert(whole[at] == left[at]);
        if left[at] == 37 {
            if at + 2 < left.len() {
                assert(whole[at + 1] == left[at + 1] && whole[at + 2] == left[at + 2]);
                lemma_decoded_parts(left, right, at + 3);
            }
        } else {
            lemma_decoded_parts(left, right, at + 1);
        }
        if let Ok(first) = percent_decoded(left, at) {
            if let Ok(second) = percent_decoded(right, 0) {
                let rest = first.subrange(1, first.len() as int);
                assert(seq![first[0]] + rest =~= first);
                assert(seq![first[0]] + (rest + second) =~= first + second);
                let next = percent_decoded(
                    left,
                    if left[at] == 37 {
                        at + 3
                    } else {
                        at + 1
                    },
                )->Ok_0;
                assert(rest =~= next);
            }
        }
    }
}

/// Decoding from within the second of two texts.
proof fn lemma_decoded_behind(left: Seq<u8>, right: Seq<u8>, at: int)
    requires
        0 <= at,
    ensures
        percent_decoded(left + right, left.len() + at) == percent_decoded(right, at),
    decreases right.len() - at,
{
    let whole = left + right;
    if at < right.len() {
        assert(whole[left.len() + at] == right[at]);
        if right[at] == 37 {
            if at + 2 < right.len() {
                assert(whole[left.len() + at + 1] == right[at + 1]);
                assert(whole[left.len() + at + 2] == right[at + 2]);
                lemma_decoded_behind(left, right, at + 3);
            }
        } else {
            lemma_decoded_behind(left, right, at + 1);
        }
    }
}

/// Whether a key stands for itself in a query string.
pub open spec fn is_plain_key(key: Seq<u8>) -> bool {
    &&& key.len() > 0
    &&& valid_utf8(key)
    &&& forall|i: int|
        0 <= i < key.len() ==> #[trigger] key[i] != 37 && key[i] != 43 && key[i] != 38 && key[i]
            != 61
}

/// A parameter with a percent-encoded value comes through a query string with
/// that value, whatever bytes it has.
pub proof fn law_binary_parameters_are_preserved(
    key: Seq<u8>,
    encoding: Seq<u8>,
    value: Seq<u8>,
)
    requires
        is_plain_key(key),
        is_percent_encoding(encoding, value),
    ensures
        parsed_query(key + seq![61u8] + encoding, 0) == Ok::<
            Seq<(Seq<u8>, Seq<u8>)>,
            QueryFault,
        >(seq![(key, value)]),
{
    let query = key + seq![61u8] + encoding;
    lemma_encoding_is_plain(encoding, value);
    assert forall|i: int| 0 <= i < query.len() implies #[trigger] query[i] != 38 by {
        if i < key.len() {
            assert(query[i] == key[i]);
        } else if i > key.len() {
            assert(query[i] == encoding[i - key.len() - 1]);
        }
    }
    lemma_position_of_is(query, 0, query.len() as int, 38);
    assert(query.subrange(0, query.len() as int) =~= query);
    assert forall|i: int| 0 <= i < key.len() implies #[trigger] query[i] != 61 by {
        assert(query[i] == key[i]);
    }
    lemma_position_of_is(query, 0, key.len() as int, 61);
    assert(query.subrange(0, key.len() as int) =~= key);
    lemma_plain_key(key, 0);
    assert(key.subrange(0, key.len() as int) =~= key);
    assert(query.subrange(key.len() as int + 1, query.len() as int) =~= encoding);
    law_percent_encoding_is_decoded(encoding, value);
    assert(parsed_pair(query) == Ok::<(Seq<u8>, Seq<u8>), QueryFault>((key, value)));
    assert(parsed_query(query, query.len() as int + 1) == Ok::<Seq<(Seq<u8>, Seq<u8>)>, QueryFault>(
        Seq::empty(),
    ));
    assert(seq![(key, value)] + Seq::<(Seq<u8>, Seq<u8>)>::empty() =~= seq![(key, value)]);
}

/// A percent-encoded value has none of the signs that part a query string.
proof fn lemma_encoding_is_plain(encoding: Seq<u8>, bytes: Seq<u8>)
    requires
        is_percent_encoding(encoding, bytes),
    ensures
        forall|i: int|
            0 <= i < encoding.len() ==> #[trigger] encoding[i] != 38 && encoding[i] != 61,
{
    assert forall|i: int| 0 <= i < encoding.len() implies #[trigger] encoding[i] != 38
        && encoding[i] != 61 by {
        let byte = bytes[i / 3];
        assert(i == 3 * (i / 3) + i % 3);
    }
}

/// A plain key is decoded to itself.
proof fn lemma_plain_key(key: Seq<u8>, at: int)
    requires
        is_plain_key(key),
        0 <= at <= key.len(),
    ensures
        percent_decoded(key, at) == Ok::<Seq<u8>, QueryFault>(key.subrange(at, key.len() as int)),
    decreases key.len() - at,
{
    if at < key.len() {
        lemma_plain_key(key, at + 1);
        assert(key[at] != 37 && key[at] != 43);
        assert(seq![key[at]] + key.subrange(at + 1, key.len() as int) =~= key.subrange(
            at,
            key.len() as int,
        ));
    } else {
        assert(key.subrange(at, key.len() as int) =~= Seq::<u8>::empty());
    }
}

/// An announce without its info hash, peer identifier, port or any of its
/// transfer counters is refused.
pub proof fn law_required_parameters_are_required(
    pairs: Seq<(Seq<u8>, Seq<u8>)>,
    name: Seq<char>,
)
    requires
        name == "info_hash"@ || name == "peer_id"@ || name == "port"@ || name == "uploaded"@
            || name == "downloaded"@ || name == "left"@,
        first_value(pairs, encode_utf8(name)) is None,
    ensures
        parsed_announce(pairs) is Err,
{
}

/// An announce never asks for more than 200 peers.
pub proof fn law_announces_are_capped(query: Seq<char>)
    ensures
        requested_announce(query) matches Ok(request) ==> request.limit <= 200,
{
}

/// A refused announce changes neither the torrents nor what is counted.
pub proof fn law_refused_announce_changes_nothing(
    query: Seq<char>,
    ip: IpAddress,
    interval: u32,
    now: u64,
    state: TrackerModel,
    metrics: MetricsModel,
)
    ensures
        ({
            let outcome = announced(query, ip, interval, now, state, metrics);
            outcome.reply is Err ==> outcome.state == state && outcome.metrics == metrics
        }),
{
}

/// The names in the reply to an announce are short.
proof fn lemma_announce_names()
    ensures
        encode_utf8("complete"@).len() <= 20,
        encode_utf8("incomplete"@).len() <= 20,
        encode_utf8("interval"@).len() <= 20,
        encode_utf8("peers"@).len() <= 20,
        encode_utf8("peers6"@).len() <= 20,
        encode_utf8("ip"@).len() <= 20,
        encode_utf8("peer id"@).len() <= 20,
        encode_utf8("port"@).len() <= 20,
{
    reveal_strlit("complete");
    reveal_strlit("incomplete");
    reveal_strlit("interval");
    reveal_strlit("peers");
    reveal_strlit("peers6");
    reveal_strlit("ip");
    reveal_strlit("peer id");
    reveal_strlit("port");
    vstd::utf8::is_ascii_chars_encode_utf8("complete"@);
    vstd::utf8::is_ascii_chars_encode_utf8("incomplete"@);
    vstd::utf8::is_ascii_chars_encode_utf8("interval"@);
    vstd::utf8::is_ascii_chars_encode_utf8("peers"@);
    vstd::utf8::is_ascii_chars_encode_utf8("peers6"@);
    vstd::utf8::is_ascii_chars_encode_utf8("ip"@);
    vstd::utf8::is_ascii_chars_encode_utf8("peer id"@);
    vstd::utf8::is_ascii_chars_encode_utf8("port"@);
}

/// Three entries within bounds.
proof fn lemma_three_within_bounds(all: Seq<(Seq<u8>, Node)>, depth: nat)
    requires
        all.len() == 3,
        forall|i: int|
            0 <= i < 3 ==> (#[trigger] all[i]).0.len() <= usize::MAX && within_bounds(
                all[i].1,
                depth,
            ),
    ensures
        entries_within_bounds(all, depth),
{
    lemma_entries_within_bounds(all, depth);
}

/// Entries that are each within bounds are within bounds together.
proof fn lemma_entries_within_bounds(all: Seq<(Seq<u8>, Node)>, depth: nat)
    requires
        forall|i: int|
            0 <= i < all.len() ==> (#[trigger] all[i]).0.len() <= usize::MAX && within_bounds(
                all[i].1,
                depth,
            ),
    ensures
        entries_within_bounds(all, depth),
    decreases all.len(),
{
    if all.len() > 0 {
        let rest = all.subrange(1, all.len() as int);
        assert forall|i: int| 0 <= i < rest.len() implies (#[trigger] rest[i]).0.len() <= usize::MAX
            && within_bounds(rest[i].1, depth) by {
            assert(rest[i] == all[i + 1]);
        }
        lemma_entries_within_bounds(rest, depth);
        assert(all[0].0.len() <= usize::MAX);
    }
}

/// Items that are each within bounds are within bounds together.
proof fn lemma_list_within_bounds(all: Seq<Node>, depth: nat)
    requires
        forall|i: int| 0 <= i < all.len() ==> within_bounds(#[trigger] all[i], depth),
    ensures
        list_within_bounds(all, depth),
    decreases all.len(),
{
    if all.len() > 0 {
        let rest = all.subrange(1, all.len() as int);
        assert forall|i: int| 0 <= i < rest.len() implies within_bounds(
            #[trigger] rest[i],
            depth,
        ) by {
            assert(rest[i] == all[i + 1]);
        }
        lemma_list_within_bounds(rest, depth);
        assert(within_bounds(all[0], depth));
    }
}

/// A peer as a dictionary keeps the decoder's bounds.
proof fn lemma_peer_within_bounds(peer: Peer)
    ensures
        within_bounds(peer_node(peer), 2),
{
    lemma_announce_names();
    lemma_address_text_is_short(peer.ip);
    let all = seq![
        entry("ip"@, Node::Bytes(peer.ip.text())),
        entry("peer id"@, Node::Bytes(peer.peer_id@)),
        entry("port"@, Node::Integer(peer.port as int)),
    ];
    assert(within_bounds(all[0].1, 3));
    assert(within_bounds(all[1].1, 3));
    assert(within_bounds(all[2].1, 3));
    lemma_three_within_bounds(all, 3);
}

/// Peers as dictionaries keep the decoder's bounds.
proof fn lemma_peers_within_bounds(peers: Seq<Peer>, requester: IpAddress)
    ensures
        forall|i: int|
            0 <= i < peer_nodes(peers, requester).len() ==> within_bounds(
                #[trigger] peer_nodes(peers, requester)[i],
                2,
            ),
    decreases peers.len(),
{
    if peers.len() > 0 {
        let head = peer_nodes(peers.drop_last(), requester);
        let nodes = peer_nodes(peers, requester);
        lemma_peers_within_bounds(peers.drop_last(), requester);
        lemma_peer_within_bounds(peers.last());
        assert forall|i: int| 0 <= i < nodes.len() implies within_bounds(#[trigger] nodes[i], 2) by {
            if i < head.len() {
                assert(nodes[i] == head[i]);
            }
        }
    }
}

/// A client can decode the reply to an announce: it is the dictionary that the
/// tracker built.
pub proof fn law_announce_payload_is_decoded(
    stats: SwarmStats,
    peers: Seq<Peer>,
    requester: IpAddress,
    interval: u32,
    compact: bool,
)
    requires
        family_peers(peers, true).len() <= usize::MAX,
        family_peers(peers, false).len() <= usize::MAX,
    ensures
        decoded(encode(announce_node(stats, peers, requester, interval, compact))) == Ok::<
            Node,
            DecodeError,
        >(announce_node(stats, peers, requester, interval, compact)),
{
    let node = announce_node(stats, peers, requester, interval, compact);
    let entries = node->Dictionary_0;
    let head = announce_head(stats, interval);
    lemma_announce_names();
    lemma_peers_within_bounds(peers, requester);
    lemma_list_within_bounds(peer_nodes(peers, requester), 2);
    assert forall|i: int| 0 <= i < entries.len() implies (#[trigger] entries[i]).0.len()
        <= usize::MAX && within_bounds(entries[i].1, 1) by {
        if i < 3 {
            assert(entries[i] == head[i]);
        }
    }
    lemma_entries_within_bounds(entries, 1);
    law_decode_undoes_encode(node);
}

/// The reply to a scrape of all torrents does not depend on the order in which
/// the tracker comes across them.
pub proof fn law_full_scrape_is_determined(left: Seq<u8>, right: Seq<u8>, state: TrackerModel)
    requires
        is_full_scrape(left, state),
        is_full_scrape(right, state),
    ensures
        left == right,
{
    let a = choose|hashes: Seq<InfoHash>| #[trigger]
        lists_all(hashes, state) && left == encode(scrape_node(state, hashes));
    let b = choose|hashes: Seq<InfoHash>| #[trigger]
        lists_all(hashes, state) && right == encode(scrape_node(state, hashes));
    a.lemma_multiset_has_no_duplicates();
    b.lemma_multiset_has_no_duplicates();
    assert forall|hash: InfoHash| a.to_multiset().count(hash) == b.to_multiset().count(hash) by {
        a.to_multiset_ensures();
        b.to_multiset_ensures();
        assert(a.to_set().contains(hash) == b.to_set().contains(hash));
        assert(a.contains(hash) == b.contains(hash));
        if a.contains(hash) {
            assert(a.to_multiset().contains(hash));
            assert(b.to_multiset().contains(hash));
        }
    }
    assert(a.to_multiset() =~= b.to_multiset());
    lemma_sorting_ignores_order(a, b);
}

/// A kept reply stays true through an announce: either no torrent has changed,
/// or the revision has moved on and the reply is not used again.
pub proof fn law_kept_reply_stays_true_through_announces(
    kept: KeptReply,
    state: TrackerModel,
    info_hash: InfoHash,
    peer: Peer,
    event: AnnounceEvent,
)
    requires
        is_true_to(kept, state),
        state.revision < u64::MAX,
    ensures
        is_true_to(kept, state.announced(info_hash, peer, event)),
{
}

/// A kept reply stays true when a saved peer or a download count is restored.
pub proof fn law_kept_reply_stays_true_through_loading(
    kept: KeptReply,
    state: TrackerModel,
    info_hash: InfoHash,
    peer: Peer,
    downloaded: u64,
)
    requires
        is_true_to(kept, state),
        state.revision < u64::MAX,
    ensures
        is_true_to(kept, state.restored(info_hash, peer)),
        is_true_to(kept, state.with_downloaded(info_hash, downloaded)),
{
}

/// A kept reply stays true when stale peers are taken out.
pub proof fn law_kept_reply_stays_true_through_cleanup(
    kept: KeptReply,
    state: TrackerModel,
    cutoff: u64,
)
    requires
        is_true_to(kept, state),
        state.revision < u64::MAX,
        forall|info_hash: InfoHash| #[trigger]
            state.torrents.contains_key(info_hash) ==> !state.torrents[info_hash].is_vacant(),
    ensures
        is_true_to(kept, state.without_stale(cutoff)),
{
    let after = state.without_stale(cutoff);
    if !(exists|info_hash: InfoHash| #[trigger] state.has_stale(info_hash, cutoff)) {
        assert forall|info_hash: InfoHash| state.torrents.contains_key(info_hash)
            == after.torrents.contains_key(info_hash) by {
            if state.torrents.contains_key(info_hash) {
                assert(!state.has_stale(info_hash, cutoff));
                assert(!state.torrents[info_hash].is_vacant());
            }
        }
        assert forall|info_hash: InfoHash| state.torrents.contains_key(info_hash) implies
            #[trigger] after.torrents[info_hash] == state.torrents[info_hash] by {
            assert(!state.has_stale(info_hash, cutoff));
            assert(after.torrents[info_hash] =~= state.torrents[info_hash]);
        }
        assert(after.torrents =~= state.torrents);
    }
}

/// A kept reply stays true when changes are marked as saved.
pub proof fn law_kept_reply_stays_true_through_saving(
    kept: KeptReply,
    state: TrackerModel,
    info_hash: InfoHash,
    revision: u64,
)
    requires
        is_true_to(kept, state),
    ensures
        is_true_to(kept, state.acknowledged(info_hash, revision)),
{
    let after = state.acknowledged(info_hash, revision);
    assert forall|hash: InfoHash|
        #![trigger after.torrent(hash)]
        after.torrent(hash).peers == state.torrent(hash).peers && after.torrent(hash).downloaded
            == state.torrent(hash).downloaded by {
        if hash == info_hash && state.torrent(hash).peers.len() == 0 {
            assert(state.torrent(hash).peers =~= Seq::<Peer>::empty());
        }
    }
    assert(after.known() =~= state.known());
    if let Some((kept_revision, _, payload)) = kept {
        if kept_revision == state.revision {
            let hashes = choose|hashes: Seq<InfoHash>| #[trigger]
                lists_all(hashes, state) && payload == encode(scrape_node(state, hashes));
            assert(lists_all(hashes, after));
            let sorted = crate::order::sorted_hashes(hashes);
            assert(crate::payload::file_entries(after, sorted) =~= crate::payload::file_entries(
                state,
                sorted,
            )) by {
                assert forall|i: int| 0 <= i < sorted.len() implies after.torrent(
                    #[trigger] sorted[i],
                ).stats() == state.torrent(sorted[i]).stats() by {
                    assert(after.torrent(sorted[i]).peers == state.torrent(sorted[i]).peers);
                }
            }
        }
    }
}

} // verus!
