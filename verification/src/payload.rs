//! The bodies of replies to announces and scrapes, in bencode.

use crate::address::{push_ip, IpAddress};
use crate::bencode::{
    append_bencoded_bytes, append_bencoded_integer, encode, encode_bytes, encode_entries,
    encode_list, lemma_encode_entries_push, lemma_encode_list_push, Node,
};
use crate::order::{sort_hashes, sorted_hashes};
use crate::state::{InfoHash, Peer, SwarmStats, TrackerModel, TrackerState};
use crate::udp::{family_peers, push_octets, same_address_family};
use crate::wire::push_u16;
use vstd::prelude::*;
use vstd::utf8::encode_utf8;

verus! {

/// An entry of a dictionary, under the bytes of a name.
pub open spec fn entry(name: Seq<char>, value: Node) -> (Seq<u8>, Node) {
    (encode_utf8(name), value)
}

/// A peer as a dictionary.
pub open spec fn peer_node(peer: Peer) -> Node {
    Node::Dictionary(
        seq![
            entry("ip"@, Node::Bytes(peer.ip.text())),
            entry("peer id"@, Node::Bytes(peer.peer_id@)),
            entry("port"@, Node::Integer(peer.port as int)),
        ],
    )
}

/// The peers of the requester's address family as dictionaries, in their order.
pub open spec fn peer_nodes(peers: Seq<Peer>, requester: IpAddress) -> Seq<Node>
    decreases peers.len(),
{
    if peers.len() == 0 {
        Seq::empty()
    } else {
        let before = peer_nodes(peers.drop_last(), requester);
        if requester.same_family(peers.last().ip) {
            before.push(peer_node(peers.last()))
        } else {
            before
        }
    }
}

/// The entries that every reply to an announce starts with.
pub open spec fn announce_head(stats: SwarmStats, interval: u32) -> Seq<(Seq<u8>, Node)> {
    seq![
        entry("complete"@, Node::Integer(stats.complete as int)),
        entry("incomplete"@, Node::Integer(stats.incomplete as int)),
        entry("interval"@, Node::Integer(interval as int)),
    ]
}

/// The reply to an announce. Compact IPv4 and IPv6 peers stand under `peers`
/// and `peers6`; otherwise `peers` is a list of dictionaries.
pub open spec fn announce_node(
    stats: SwarmStats,
    peers: Seq<Peer>,
    requester: IpAddress,
    interval: u32,
    compact: bool,
) -> Node {
    let head = announce_head(stats, interval);
    let peers6 = family_peers(peers, false);
    Node::Dictionary(
        if !compact {
            head.push(entry("peers"@, Node::List(peer_nodes(peers, requester))))
        } else if peers6.len() == 0 {
            head.push(entry("peers"@, Node::Bytes(family_peers(peers, true))))
        } else {
            head.push(entry("peers"@, Node::Bytes(family_peers(peers, true)))).push(
                entry("peers6"@, Node::Bytes(peers6)),
            )
        },
    )
}

/// The statistics of a torrent in the reply to a scrape.
pub open spec fn stats_node(stats: SwarmStats) -> Node {
    Node::Dictionary(
        seq![
            entry("complete"@, Node::Integer(stats.complete as int)),
            entry("downloaded"@, Node::Integer(stats.downloaded as int)),
            entry("incomplete"@, Node::Integer(stats.incomplete as int)),
        ],
    )
}

/// The statistics of several torrents, under their info hashes.
pub open spec fn file_entries(state: TrackerModel, hashes: Seq<InfoHash>) -> Seq<(Seq<u8>, Node)> {
    hashes.map_values(
        |info_hash: InfoHash| (info_hash@, stats_node(state.torrent(info_hash).stats())),
    )
}

/// The reply to a scrape, with the torrents in ascending order.
pub open spec fn scrape_node(state: TrackerModel, hashes: Seq<InfoHash>) -> Node {
    Node::Dictionary(
        seq![entry("files"@, Node::Dictionary(file_entries(state, sorted_hashes(hashes))))],
    )
}

/// Appends a dictionary entry with an integer.
fn append_integer_entry(output: &mut Vec<u8>, name: &str, value: u64)
    ensures
        final(output)@ == old(output)@ + encode_bytes(encode_utf8(name@)) + encode(
            Node::Integer(value as int),
        ),
{
    append_bencoded_bytes(output, name.as_bytes());
    append_bencoded_integer(output, value);
}

/// Appends a dictionary entry with a byte string.
fn append_bytes_entry(output: &mut Vec<u8>, name: &str, value: &[u8])
    ensures
        final(output)@ == old(output)@ + encode_bytes(encode_utf8(name@)) + encode(
            Node::Bytes(value@),
        ),
{
    append_bencoded_bytes(output, name.as_bytes());
    append_bencoded_bytes(output, value);
}

/// Three entries, one behind the other.
proof fn lemma_three_entries(
    first: (Seq<u8>, Node),
    second: (Seq<u8>, Node),
    third: (Seq<u8>, Node),
)
    ensures
        encode_entries(seq![first, second, third]) == encode_bytes(first.0) + encode(first.1)
            + encode_bytes(second.0) + encode(second.1) + encode_bytes(third.0) + encode(third.1),
{
    let none = Seq::<(Seq<u8>, Node)>::empty();
    lemma_encode_entries_push(none, first.0, first.1);
    lemma_encode_entries_push(none.push(first), second.0, second.1);
    lemma_encode_entries_push(none.push(first).push(second), third.0, third.1);
    assert(none.push(first).push(second).push(third) =~= seq![first, second, third]);
    assert(encode_entries(none) =~= Seq::<u8>::empty());
    assert(Seq::<u8>::empty() + encode_bytes(first.0) =~= encode_bytes(first.0));
}

/// The compact form of the peers with IPv4 and of those with IPv6 addresses.
pub fn compact_peers(peers: &Vec<Peer>) -> (result: (Vec<u8>, Vec<u8>))
    ensures
        result.0@ == family_peers(peers@, true),
        result.1@ == family_peers(peers@, false),
{
    let mut peers4: Vec<u8> = Vec::new();
    let mut peers6: Vec<u8> = Vec::new();
    let mut index: usize = 0;
    while index < peers.len()
        invariant
            0 <= index <= peers@.len(),
            peers4@ == family_peers(peers@.take(index as int), true),
            peers6@ == family_peers(peers@.take(index as int), false),
        decreases peers@.len() - index,
    {
        let peer: Peer = peers[index];
        assert(peers@.take(index + 1).drop_last() =~= peers@.take(index as int));
        match peer.ip {
            IpAddress::V4(_) => {
                push_octets(&mut peers4, &peer.ip);
                push_u16(&mut peers4, peer.port);
            },
            IpAddress::V6(_) => {
                push_octets(&mut peers6, &peer.ip);
                push_u16(&mut peers6, peer.port);
            },
        }
        index = index + 1;
    }
    assert(peers@.take(index as int) =~= peers@);
    (peers4, peers6)
}

/// Appends a peer as a dictionary.
fn append_peer(output: &mut Vec<u8>, peer: &Peer)
    ensures
        final(output)@ == old(output)@ + encode(peer_node(*peer)),
{
    let mut address: Vec<u8> = Vec::new();
    push_ip(&mut address, &peer.ip);
    assert(address@ =~= peer.ip.text());
    output.push(100);
    append_bytes_entry(output, "ip", address.as_slice());
    append_bytes_entry(output, "peer id", peer.peer_id.as_slice());
    append_integer_entry(output, "port", peer.port as u64);
    output.push(101);
    proof {
        lemma_three_entries(
            entry("ip"@, Node::Bytes(peer.ip.text())),
            entry("peer id"@, Node::Bytes(peer.peer_id@)),
            entry("port"@, Node::Integer(peer.port as int)),
        );
        assert(output@ =~= old(output)@ + encode(peer_node(*peer)));
    }
}

/// Appends the peers of the requester's address family as a list of
/// dictionaries.
pub fn append_peer_list(output: &mut Vec<u8>, peers: &Vec<Peer>, requester: &IpAddress)
    ensures
        final(output)@ == old(output)@ + encode(Node::List(peer_nodes(peers@, *requester))),
{
    let ghost before = output@;
    output.push(108);
    let mut index: usize = 0;
    assert(peers@.take(0) =~= Seq::<Peer>::empty());
    assert(encode_list(Seq::<Node>::empty()) =~= Seq::<u8>::empty());
    assert(output@ =~= before + seq![108u8] + Seq::<u8>::empty());
    while index < peers.len()
        invariant
            0 <= index <= peers@.len(),
            output@ == before + seq![108u8] + encode_list(
                peer_nodes(peers@.take(index as int), *requester),
            ),
        decreases peers@.len() - index,
    {
        let peer: Peer = peers[index];
        assert(peers@.take(index + 1).drop_last() =~= peers@.take(index as int));
        if same_address_family(requester, &peer.ip) {
            append_peer(output, &peer);
            proof {
                let nodes = peer_nodes(peers@.take(index as int), *requester);
                lemma_encode_list_push(nodes, peer_node(peer));
                assert(peer_nodes(peers@.take(index + 1), *requester) == nodes.push(
                    peer_node(peer),
                ));
                assert(output@ =~= before + seq![108u8] + (encode_list(nodes) + encode(
                    peer_node(peer),
                )));
            }
        }
        index = index + 1;
    }
    assert(peers@.take(index as int) =~= peers@);
    output.push(101);
    assert(output@ =~= before + encode(Node::List(peer_nodes(peers@, *requester))));
}

/// Builds the reply to an announce.
pub fn announce_payload(
    stats: SwarmStats,
    peers: &Vec<Peer>,
    requester: IpAddress,
    interval: u32,
    compact: bool,
) -> (payload: Vec<u8>)
    ensures
        payload@ == encode(announce_node(stats, peers@, requester, interval, compact)),
{
    let mut output: Vec<u8> = Vec::new();
    output.push(100);
    append_integer_entry(&mut output, "complete", stats.complete as u64);
    append_integer_entry(&mut output, "incomplete", stats.incomplete as u64);
    append_integer_entry(&mut output, "interval", interval as u64);
    let ghost head = announce_head(stats, interval);
    proof {
        lemma_three_entries(head[0], head[1], head[2]);
        assert(output@ =~= seq![100u8] + encode_entries(head));
    }
    if compact {
        let (peers4, peers6): (Vec<u8>, Vec<u8>) = compact_peers(peers);
        let ghost with_peers = head.push(entry("peers"@, Node::Bytes(peers4@)));
        append_bytes_entry(&mut output, "peers", peers4.as_slice());
        proof {
            lemma_encode_entries_push(head, encode_utf8("peers"@), Node::Bytes(peers4@));
            assert(output@ =~= seq![100u8] + encode_entries(with_peers));
        }
        if peers6.len() > 0 {
            append_bytes_entry(&mut output, "peers6", peers6.as_slice());
            proof {
                lemma_encode_entries_push(
                    with_peers,
                    encode_utf8("peers6"@),
                    Node::Bytes(peers6@),
                );
                assert(output@ =~= seq![100u8] + encode_entries(
                    with_peers.push(entry("peers6"@, Node::Bytes(peers6@))),
                ));
            }
        }
    } else {
        append_bencoded_bytes(&mut output, "peers".as_bytes());
        append_peer_list(&mut output, peers, &requester);
        proof {
            let nodes = Node::List(peer_nodes(peers@, requester));
            lemma_encode_entries_push(head, encode_utf8("peers"@), nodes);
            assert(output@ =~= seq![100u8] + encode_entries(head.push(entry("peers"@, nodes))));
        }
    }
    output.push(101);
    assert(output@ =~= encode(announce_node(stats, peers@, requester, interval, compact)));
    output
}

/// Appends a torrent's statistics as a dictionary.
fn append_stats(output: &mut Vec<u8>, stats: SwarmStats)
    ensures
        final(output)@ == old(output)@ + encode(stats_node(stats)),
{
    output.push(100);
    append_integer_entry(output, "complete", stats.complete as u64);
    append_integer_entry(output, "downloaded", stats.downloaded);
    append_integer_entry(output, "incomplete", stats.incomplete as u64);
    output.push(101);
    proof {
        lemma_three_entries(
            entry("complete"@, Node::Integer(stats.complete as int)),
            entry("downloaded"@, Node::Integer(stats.downloaded as int)),
            entry("incomplete"@, Node::Integer(stats.incomplete as int)),
        );
        assert(output@ =~= old(output)@ + encode(stats_node(stats)));
    }
}

/// Builds the reply to a scrape of the given torrents.
pub fn scrape_payload(state: &TrackerState, hashes: &Vec<InfoHash>) -> (payload: Vec<u8>)
    requires
        state.valid(),
    ensures
        payload@ == encode(scrape_node(state@, hashes@)),
{
    let sorted: Vec<InfoHash> = sort_hashes(hashes);
    let mut output: Vec<u8> = Vec::new();
    output.push(100);
    append_bencoded_bytes(&mut output, "files".as_bytes());
    let ghost head = output@;
    output.push(100);
    let mut index: usize = 0;
    proof {
        assert(file_entries(state@, sorted@.take(0)) =~= Seq::<(Seq<u8>, Node)>::empty());
        assert(encode_entries(Seq::<(Seq<u8>, Node)>::empty()) =~= Seq::<u8>::empty());
        assert(output@ =~= head + seq![100u8] + Seq::<u8>::empty());
    }
    while index < sorted.len()
        invariant
            state.valid(),
            0 <= index <= sorted@.len(),
            output@ == head + seq![100u8] + encode_entries(
                file_entries(state@, sorted@.take(index as int)),
            ),
        decreases sorted@.len() - index,
    {
        let info_hash: InfoHash = sorted[index];
        let stats: SwarmStats = state.stats(&info_hash);
        append_bencoded_bytes(&mut output, info_hash.as_slice());
        append_stats(&mut output, stats);
        proof {
            let before = file_entries(state@, sorted@.take(index as int));
            lemma_encode_entries_push(before, info_hash@, stats_node(stats));
            assert(file_entries(state@, sorted@.take(index + 1)) =~= before.push(
                (info_hash@, stats_node(stats)),
            ));
            assert(output@ =~= head + seq![100u8] + (encode_entries(before) + encode_bytes(
                info_hash@,
            ) + encode(stats_node(stats))));
        }
        index = index + 1;
    }
    assert(sorted@.take(index as int) =~= sorted@);
    output.push(101);
    output.push(101);
    proof {
        let files = Node::Dictionary(file_entries(state@, sorted@));
        let none = Seq::<(Seq<u8>, Node)>::empty();
        lemma_encode_entries_push(none, encode_utf8("files"@), files);
        assert(none.push(entry("files"@, files)) =~= seq![entry("files"@, files)]);
        assert(encode_entries(none) =~= Seq::<u8>::empty());
        assert(output@ =~= encode(scrape_node(state@, hashes@)));
    }
    output
}

} // verus!
