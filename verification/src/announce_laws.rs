//! What an HTTP announce asks for, does and is answered, said of its query
//! string and of the torrent's peers.

use crate::address::IpAddress;
use crate::bencode::{encode, Node};
use crate::metrics::{count_of, MetricsModel};
use crate::metrics_laws::law_requests_and_events_are_counted;
use crate::payload::{announce_node, peer_nodes};
use crate::query::{first_value, parsed_query, QueryFault, Refusal};
use crate::query_laws::{law_parameters_are_read, law_wishes_are_read};
use crate::state::{
    peers_weight, AnnounceEvent, InfoHash, Peer, PeerId, TrackerModel,
};
use crate::swarm_laws::{
    law_announce_enters_one_peer, law_downloads_are_counted, law_list_is_the_others,
    law_population_counts_peers_and_swarms, law_statistics_count_the_peers,
    law_stop_takes_out_one_peer,
};
use crate::text::bounded_unsigned;
use crate::udp::family_peers;
use crate::web::{announced, parsed_announce, requested_announce};
use vstd::prelude::*;
use vstd::utf8::encode_utf8;

verus! {

/// The value of a parameter, by its name.
pub open spec fn parameter(pairs: Seq<(Seq<u8>, Seq<u8>)>, name: Seq<char>) -> Option<Seq<u8>> {
    first_value(pairs, encode_utf8(name))
}

/// The number that a parameter says.
pub open spec fn number(pairs: Seq<(Seq<u8>, Seq<u8>)>, name: Seq<char>, limit: nat) -> Option<nat> {
    match parameter(pairs, name) {
        Some(value) => bounded_unsigned(value, limit),
        None => None,
    }
}

/// An announce is read where it names a torrent and a peer by 20 bytes each, has
/// a port and its transfer counters, and the number of peers, the event and the
/// form of the list are either left out or well-formed. What it asks for is what
/// its parameters say.
pub proof fn law_announce_is_read(pairs: Seq<(Seq<u8>, Seq<u8>)>)
    ensures
        parsed_announce(pairs) is Ok <==> {
            &&& parameter(pairs, "info_hash"@) is Some && parameter(
                pairs,
                "info_hash"@,
            )->Some_0.len() == 20
            &&& parameter(pairs, "peer_id"@) is Some && parameter(pairs, "peer_id"@)->Some_0.len()
                == 20
            &&& number(pairs, "port"@, 65535) is Some
            &&& number(pairs, "uploaded"@, u64::MAX as nat) is Some
            &&& number(pairs, "downloaded"@, u64::MAX as nat) is Some
            &&& number(pairs, "left"@, u64::MAX as nat) is Some
            &&& parameter(pairs, "numwant"@) is None || number(
                pairs,
                "numwant"@,
                usize::MAX as nat,
            ) is Some
            &&& match parameter(pairs, "event"@) {
                None => true,
                Some(name) => name.len() == 0 || name == encode_utf8("started"@) || name
                    == encode_utf8("completed"@) || name == encode_utf8("stopped"@),
            }
            &&& match parameter(pairs, "compact"@) {
                None => true,
                Some(flag) => flag == seq![48u8] || flag == seq![49u8],
            }
        },
        parsed_announce(pairs) matches Ok(request) ==> {
            &&& parameter(pairs, "info_hash"@) == Some(request.info_hash@)
            &&& parameter(pairs, "peer_id"@) == Some(request.peer_id@)
            &&& number(pairs, "port"@, 65535) == Some(request.port as nat)
            &&& number(pairs, "left"@, u64::MAX as nat) == Some(request.left as nat)
            &&& parameter(pairs, "numwant"@) is None ==> request.limit == 50
            &&& number(pairs, "numwant"@, usize::MAX as nat) matches Some(wanted) ==> if wanted
                <= 200 {
                request.limit == wanted
            } else {
                request.limit == 200
            }
            &&& (request.event == AnnounceEvent::Stopped <==> parameter(pairs, "event"@) == Some(
                encode_utf8("stopped"@),
            ))
            &&& (request.event == AnnounceEvent::Completed <==> parameter(pairs, "event"@) == Some(
                encode_utf8("completed"@),
            ))
            &&& (request.event == AnnounceEvent::Started <==> parameter(pairs, "event"@) == Some(
                encode_utf8("started"@),
            ))
            &&& (request.compact <==> parameter(pairs, "compact"@) != Some(seq![48u8]))
        },
        parsed_announce(pairs) matches Err(refusal) ==> refusal.status == 400,
{
    law_parameters_are_read(pairs, "info_hash"@, 0);
    law_parameters_are_read(pairs, "peer_id"@, 0);
    law_parameters_are_read(pairs, "port"@, 65535);
    law_parameters_are_read(pairs, "uploaded"@, u64::MAX as nat);
    law_parameters_are_read(pairs, "downloaded"@, u64::MAX as nat);
    law_parameters_are_read(pairs, "left"@, u64::MAX as nat);
    law_parameters_are_read(pairs, "numwant"@, usize::MAX as nat);
    law_wishes_are_read(Seq::empty());
    if let Some(name) = parameter(pairs, "event"@) {
        law_wishes_are_read(name);
    }
    if let Some(flag) = parameter(pairs, "compact"@) {
        law_wishes_are_read(flag);
        assert(seq![48u8][0] != seq![49u8][0]);
    }
    lemma_bounded(pairs, "port"@, 65535);
    lemma_bounded(pairs, "left"@, u64::MAX as nat);
    lemma_bounded(pairs, "numwant"@, usize::MAX as nat);
}

/// A number that is read is within its limit.
proof fn lemma_bounded(pairs: Seq<(Seq<u8>, Seq<u8>)>, name: Seq<char>, limit: nat)
    ensures
        number(pairs, name, limit) matches Some(value) ==> value <= limit,
{
}

/// A query string that cannot be read is refused with the reason.
pub proof fn law_unreadable_queries_are_refused(query: Seq<char>)
    ensures
        parsed_query(encode_utf8(query), 0) matches Err(fault) ==> requested_announce(query)
            == Err::<crate::web::AnnounceRequest, Refusal>(
            Refusal {
                status: 400,
                message: match fault {
                    QueryFault::IncompleteEscape => "incomplete percent escape"@,
                    QueryFault::InvalidEscape => "invalid percent escape"@,
                    QueryFault::InvalidKey => "query key is not valid UTF-8"@,
                },
            },
        ),
        parsed_query(encode_utf8(query), 0) matches Ok(pairs) ==> requested_announce(query)
            == parsed_announce(pairs),
{
}

/// An announce that is not refused enters or takes out the peer that it
/// describes, in the torrent that it names. Where its event is the word
/// "stopped" no peer with its identifier is left, and otherwise the peer is
/// there as described; every other peer stays. A download is counted where the
/// event is the word "completed" and the peer was not there with nothing left,
/// and nowhere else.
pub proof fn law_announce_is_applied(
    query: Seq<char>,
    pairs: Seq<(Seq<u8>, Seq<u8>)>,
    ip: IpAddress,
    interval: u32,
    now: u64,
    state: TrackerModel,
    metrics: MetricsModel,
    info_hash: InfoHash,
    peer: Peer,
)
    requires
        parsed_query(encode_utf8(query), 0) == Ok::<Seq<(Seq<u8>, Seq<u8>)>, QueryFault>(pairs),
        announced(query, ip, interval, now, state, metrics).reply is Ok,
        parameter(pairs, "info_hash"@) == Some(info_hash@),
        parameter(pairs, "peer_id"@) == Some(peer.peer_id@),
        number(pairs, "port"@, 65535) == Some(peer.port as nat),
        number(pairs, "left"@, u64::MAX as nat) == Some(peer.left as nat),
        peer.ip == ip,
        peer.last_seen == now,
        forall|i: int, j: int|
            0 <= i < j < state.torrent(info_hash).peers.len() ==> #[trigger] state.torrent(
                info_hash,
            ).peers[i].peer_id != #[trigger] state.torrent(info_hash).peers[j].peer_id,
    ensures
        ({
            let before = state.torrent(info_hash);
            let after = announced(query, ip, interval, now, state, metrics).state.torrent(
                info_hash,
            );
            let event = parameter(pairs, "event"@);
            &&& event == Some(encode_utf8("stopped"@)) ==> forall|other: Peer| #[trigger]
                after.peers.contains(other) <==> before.peers.contains(other) && other.peer_id
                    != peer.peer_id
            &&& event != Some(encode_utf8("stopped"@)) ==> forall|other: Peer| #[trigger]
                after.peers.contains(other) <==> other == peer || (before.peers.contains(other)
                    && other.peer_id != peer.peer_id)
            &&& event != Some(encode_utf8("completed"@)) ==> after.times_downloaded()
                == before.times_downloaded()
            &&& event == Some(encode_utf8("completed"@)) && (forall|i: int|
                0 <= i < before.peers.len() && #[trigger] before.peers[i].peer_id == peer.peer_id
                    ==> before.peers[i].left != 0) && before.times_downloaded() < u64::MAX
                ==> after.times_downloaded() == before.times_downloaded() + 1
            &&& event == Some(encode_utf8("completed"@)) && (exists|i: int|
                0 <= i < before.peers.len() && #[trigger] before.peers[i].peer_id == peer.peer_id
                    && before.peers[i].left == 0) ==> after.times_downloaded()
                == before.times_downloaded()
        }),
        forall|other: InfoHash|
            other != info_hash ==> #[trigger] announced(
                query,
                ip,
                interval,
                now,
                state,
                metrics,
            ).state.torrent(other) == state.torrent(other),
{
    law_announce_is_read(pairs);
    let request = requested_announce(query)->Ok_0;
    assert(request.info_hash =~= info_hash);
    assert(request.peer_id =~= peer.peer_id);
    law_stop_takes_out_one_peer(state, info_hash, peer);
    law_announce_enters_one_peer(state, info_hash, peer, AnnounceEvent::Completed);
    law_announce_enters_one_peer(state, info_hash, peer, AnnounceEvent::Started);
    law_announce_enters_one_peer(state, info_hash, peer, AnnounceEvent::Update);
    law_downloads_are_counted(state, info_hash, peer, AnnounceEvent::Completed);
    law_downloads_are_counted(state, info_hash, peer, AnnounceEvent::Started);
    law_downloads_are_counted(state, info_hash, peer, AnnounceEvent::Update);
    law_downloads_are_counted(state, info_hash, peer, AnnounceEvent::Stopped);
    crate::query_laws::lemma_event_names();
}

/// The reply to an announce is a dictionary with the number of peers that have
/// nothing left, the number of those that have something left, how long to wait,
/// and other peers of the torrent: as many as were asked for, but at most 200,
/// and 50 where no number was asked for. They stand as one run of bytes for each
/// address family, the one for IPv6 only where there are such peers; or, where
/// that is declined, as one dictionary for each peer of the sender's family.
pub proof fn law_announce_is_answered(
    query: Seq<char>,
    pairs: Seq<(Seq<u8>, Seq<u8>)>,
    ip: IpAddress,
    interval: u32,
    now: u64,
    state: TrackerModel,
    metrics: MetricsModel,
    info_hash: InfoHash,
    peer_id: PeerId,
    limit: int,
)
    requires
        parsed_query(encode_utf8(query), 0) == Ok::<Seq<(Seq<u8>, Seq<u8>)>, QueryFault>(pairs),
        announced(query, ip, interval, now, state, metrics).reply is Ok,
        parameter(pairs, "info_hash"@) == Some(info_hash@),
        parameter(pairs, "peer_id"@) == Some(peer_id@),
        parameter(pairs, "numwant"@) is None ==> limit == 50,
        number(pairs, "numwant"@, usize::MAX as nat) matches Some(wanted) ==> limit == if wanted
            <= 200 {
            wanted as int
        } else {
            200
        },
        announced(query, ip, interval, now, state, metrics).state.torrent(info_hash).peers.len()
            <= usize::MAX,
    ensures
        ({
            let outcome = announced(query, ip, interval, now, state, metrics);
            let peers = outcome.state.torrent(info_hash).peers;
            let others = peers.filter(|peer: Peer| peer.peer_id != peer_id);
            let listed = if others.len() <= limit {
                others
            } else {
                others.subrange(0, limit)
            };
            let head = seq![
                (
                    encode_utf8("complete"@),
                    Node::Integer(peers.filter(|peer: Peer| peer.left == 0).len() as int),
                ),
                (
                    encode_utf8("incomplete"@),
                    Node::Integer(peers.filter(|peer: Peer| peer.left != 0).len() as int),
                ),
                (encode_utf8("interval"@), Node::Integer(interval as int)),
            ];
            let old_form = (
                encode_utf8("peers"@),
                Node::List(
                    listed.filter(|peer: Peer| peer.ip is V4 == ip is V4).map_values(
                        |peer: Peer| peer_dictionary(peer),
                    ),
                ),
            );
            let v4 = (encode_utf8("peers"@), Node::Bytes(family_peers(listed, true)));
            let v6 = (encode_utf8("peers6"@), Node::Bytes(family_peers(listed, false)));
            outcome.reply->Ok_0 == encode(
                Node::Dictionary(
                    if parameter(pairs, "compact"@) == Some(seq![48u8]) {
                        head.push(old_form)
                    } else if listed.filter(|peer: Peer| peer.ip is V6).len() == 0 {
                        head.push(v4)
                    } else {
                        head.push(v4).push(v6)
                    },
                ),
            )
        }),
{
    law_announce_is_read(pairs);
    let request = requested_announce(query)->Ok_0;
    assert(request.info_hash =~= info_hash);
    assert(request.peer_id =~= peer_id);
    let outcome = announced(query, ip, interval, now, state, metrics);
    let torrent = outcome.state.torrent(info_hash);
    law_list_is_the_others(torrent.peers, peer_id, limit as nat);
    law_statistics_count_the_peers(torrent);
    let others = torrent.peers.filter(|peer: Peer| peer.peer_id != peer_id);
    let listed = if others.len() <= limit {
        others
    } else {
        others.subrange(0, limit)
    };
    lemma_peer_nodes(listed, ip);
    crate::udp_laws::law_compact_list_holds_the_family(listed, false, 0);
    assert(announce_node(torrent.stats(), listed, ip, interval, request.compact)->Dictionary_0
        =~= ({
        let head = seq![
            (
                encode_utf8("complete"@),
                Node::Integer(torrent.peers.filter(|peer: Peer| peer.left == 0).len() as int),
            ),
            (
                encode_utf8("incomplete"@),
                Node::Integer(torrent.peers.filter(|peer: Peer| peer.left != 0).len() as int),
            ),
            (encode_utf8("interval"@), Node::Integer(interval as int)),
        ];
        let old_form = (
            encode_utf8("peers"@),
            Node::List(
                listed.filter(|peer: Peer| peer.ip is V4 == ip is V4).map_values(
                    |peer: Peer| peer_dictionary(peer),
                ),
            ),
        );
        let v4 = (encode_utf8("peers"@), Node::Bytes(family_peers(listed, true)));
        let v6 = (encode_utf8("peers6"@), Node::Bytes(family_peers(listed, false)));
        if parameter(pairs, "compact"@) == Some(seq![48u8]) {
            head.push(old_form)
        } else if listed.filter(|peer: Peer| peer.ip is V6).len() == 0 {
            head.push(v4)
        } else {
            head.push(v4).push(v6)
        }
    }));
}

/// A peer as a dictionary with its address, its identifier and its port.
pub open spec fn peer_dictionary(peer: Peer) -> Node {
    Node::Dictionary(
        seq![
            (encode_utf8("ip"@), Node::Bytes(peer.ip.text())),
            (encode_utf8("peer id"@), Node::Bytes(peer.peer_id@)),
            (encode_utf8("port"@), Node::Integer(peer.port as int)),
        ],
    )
}

/// The list of dictionaries holds the peers of one family.
proof fn lemma_peer_nodes(peers: Seq<Peer>, requester: IpAddress)
    ensures
        peer_nodes(peers, requester) == peers.filter(
            |peer: Peer| peer.ip is V4 == requester is V4,
        ).map_values(|peer: Peer| peer_dictionary(peer)),
    decreases peers.len(),
{
    reveal(Seq::filter);
    let of_family = |peer: Peer| peer.ip is V4 == requester is V4;
    let dictionary = |peer: Peer| peer_dictionary(peer);
    if peers.len() > 0 {
        lemma_peer_nodes(peers.drop_last(), requester);
        let peer = peers.last();
        assert(crate::payload::peer_node(peer)->Dictionary_0 =~= peer_dictionary(
            peer,
        )->Dictionary_0);
    }
    assert(peer_nodes(peers, requester) =~= peers.filter(of_family).map_values(dictionary));
}

/// An announce that is not refused is counted once as a request and once by its
/// event, and the population is shown as it then is. A refused one is counted as
/// neither.
pub proof fn law_announce_is_counted(
    query: Seq<char>,
    pairs: Seq<(Seq<u8>, Seq<u8>)>,
    ip: IpAddress,
    interval: u32,
    now: u64,
    state: TrackerModel,
    metrics: MetricsModel,
    word: Seq<char>,
)
    requires
        parsed_query(encode_utf8(query), 0) == Ok::<Seq<(Seq<u8>, Seq<u8>)>, QueryFault>(pairs),
        parameter(pairs, "event"@) is None ==> word == "update"@,
        parameter(pairs, "event"@) matches Some(name) ==> (name.len() == 0 ==> word == "update"@)
            && (name == encode_utf8("started"@) ==> word == "started"@) && (name == encode_utf8(
            "completed"@,
        ) ==> word == "completed"@) && (name == encode_utf8("stopped"@) ==> word == "stopped"@),
        forall|i: int|
            0 <= i < metrics.requests.len() ==> 0 <= (#[trigger] metrics.requests[i]).1 < u64::MAX,
        forall|i: int|
            0 <= i < metrics.announce_events.len() ==> 0 <= (#[trigger] metrics.announce_events[i]).1
                < u64::MAX,
        announced(query, ip, interval, now, state, metrics).state.total(peers_weight()) <= i64::MAX,
        announced(query, ip, interval, now, state, metrics).state.total(peers_weight())
            <= usize::MAX,
    ensures
        ({
            let outcome = announced(query, ip, interval, now, state, metrics);
            let labels = seq!["http"@, "announce"@, "ok"@];
            &&& outcome.reply is Ok ==> {
                &&& count_of(outcome.metrics.requests, labels) == count_of(metrics.requests, labels)
                    + 1
                &&& count_of(outcome.metrics.announce_events, seq!["http"@, word]) == count_of(
                    metrics.announce_events,
                    seq!["http"@, word],
                ) + 1
                &&& forall|other: Seq<Seq<char>>|
                    other != labels ==> #[trigger] count_of(outcome.metrics.requests, other)
                        == count_of(metrics.requests, other)
                &&& forall|other: Seq<Seq<char>>|
                    other != seq!["http"@, word] ==> #[trigger] count_of(
                        outcome.metrics.announce_events,
                        other,
                    ) == count_of(metrics.announce_events, other)
                &&& outcome.metrics.active_peers == outcome.state.total(peers_weight())
            }
            &&& outcome.reply is Err ==> outcome.metrics == metrics && outcome.state == state
        }),
{
    law_announce_is_read(pairs);
    law_requests_and_events_are_counted(metrics, "http"@, "announce"@, "ok"@, word);
    let outcome = announced(query, ip, interval, now, state, metrics);
    law_population_counts_peers_and_swarms(outcome.state);
    crate::query_laws::lemma_event_names();
    if outcome.reply is Ok {
        let request = requested_announce(query)->Ok_0;
        assert(crate::udp::event_text(request.event) == word);
    }
}

} // verus!
