//! What holds of the UDP tracker's replies.

use crate::address::IpAddress;
use crate::metrics::{count_of, MetricsModel};
use crate::metrics_laws::law_requests_and_events_are_counted;
use crate::state::{
    peers_weight, AnnounceEvent, InfoHash, Peer, PeerId, TrackerModel,
};
use crate::state_laws::law_listed_peers;
use crate::swarm::listed_peers;
use crate::swarm_laws::{
    law_announce_enters_one_peer, law_downloads_are_counted, law_list_is_the_others,
    law_population_counts_peers_and_swarms, law_statistics_count_the_peers,
    law_stop_takes_out_one_peer,
};
use crate::udp::{
    announce_reply, announced_peer, connect_reply, error_reply, family_peers, minute_of, peer_limit, scrape_entries,
    scrape_entry, scrape_reply, UdpTracker, ACTION_ANNOUNCE, ACTION_CONNECT, ACTION_ERROR,
    PROTOCOL_ID,
};
use crate::wire::{
    be16, be32, be64, i32_at, identifier_at, law_number_bytes, law_numbers_are_big_endian,
    law_numbers_are_read_back, u16_at, u32_at, u64_at,
};
use std::collections::hash_map::DefaultHasher;
use vstd::bytes::spec_u64_to_le_bytes;
use vstd::prelude::*;
use vstd::std_specs::hash::DefaultHasherAdditionalSpecFns;
use vstd::utf8::encode_utf8;

verus! {

/// The number at `at` where its bytes stand there.
proof fn lemma_u32_stands(bytes: Seq<u8>, at: int, value: u32)
    requires
        0 <= at,
        at + 4 <= bytes.len(),
        bytes.subrange(at, at + 4) == be32(value),
    ensures
        u32_at(bytes, at) == value,
{
    let head = bytes.take(at);
    law_numbers_are_read_back(head, 0, value, 0);
    let whole = head + be32(value);
    let part = bytes.subrange(at, at + 4);
    assert(bytes[at] == part[0] && whole[at] == part[0]);
    assert(bytes[at + 1] == part[1] && whole[at + 1] == part[1]);
    assert(bytes[at + 2] == part[2] && whole[at + 2] == part[2]);
    assert(bytes[at + 3] == part[3] && whole[at + 3] == part[3]);
}

/// A connection identifier is accepted from the address that it was given out
/// to for at least a minute.
pub proof fn law_connection_id_is_accepted(
    tracker: UdpTracker,
    ip: IpAddress,
    issued: u64,
    packet: Seq<u8>,
    now: u64,
)
    requires
        packet.len() >= 8,
        u64_at(packet, 0) == tracker.connection_id_of(ip, minute_of(issued)),
        issued <= now <= issued + 60,
    ensures
        tracker.accepts(packet, ip, now),
{
    lemma_minutes(issued, now);
    if minute_of(now) != minute_of(issued) {
        assert(crate::udp::minute_before(minute_of(now)) == minute_of(issued));
    }
}

/// Within 60 seconds at most one minute begins.
proof fn lemma_minutes(issued: u64, now: u64)
    requires
        issued <= now <= issued + 60,
    ensures
        minute_of(now) == minute_of(issued) || minute_of(now) == minute_of(issued) + 1,
{
}

/// An identifier from two or more minutes before is accepted only where it
/// happens to be that of a current minute too.
pub proof fn law_old_connection_id_is_refused(
    tracker: UdpTracker,
    ip: IpAddress,
    packet: Seq<u8>,
    now: u64,
)
    ensures
        tracker.accepts(packet, ip, now) ==> exists|minute: u64|
            minute <= minute_of(now) <= minute + 1 && u64_at(packet, 0) == #[trigger]
                tracker.connection_id_of(ip, minute),
{
    if tracker.accepts(packet, ip, now) {
        let minute = minute_of(now);
        if u64_at(packet, 0) == tracker.connection_id_of(ip, minute) {
        } else {
            let before = crate::udp::minute_before(minute);
            assert(u64_at(packet, 0) == tracker.connection_id_of(ip, before));
        }
    }
}

/// A connect request is answered with an identifier that the tracker then
/// accepts from that address for at least a minute.
pub proof fn law_connect_opens_a_connection(
    tracker: UdpTracker,
    request: Seq<u8>,
    ip: IpAddress,
    issued: u64,
    state: TrackerModel,
    metrics: MetricsModel,
    packet: Seq<u8>,
    now: u64,
)
    requires
        request.len() >= 16,
        u64_at(request, 0) == PROTOCOL_ID,
        u32_at(request, 8) == ACTION_CONNECT,
        packet.len() >= 8,
        u64_at(packet, 0) == u64_at(tracker.handled(request, ip, issued, state, metrics).reply, 8),
        issued <= now <= issued + 60,
    ensures
        tracker.accepts(packet, ip, now),
{
    let id = tracker.connection_id_of(ip, minute_of(issued));
    let reply = tracker.handled(request, ip, issued, state, metrics).reply;
    let head = be32(ACTION_CONNECT) + be32(u32_at(request, 12));
    assert(reply == connect_reply(u32_at(request, 12), id));
    assert(reply == head + be64(id));
    law_numbers_are_read_back(head, 0, 0, id);
    law_connection_id_is_accepted(tracker, ip, issued, packet, now);
}

/// Every reply carries the request's transaction identifier, and either the
/// request's action or that of a refusal.
pub proof fn law_reply_names_its_request(
    tracker: UdpTracker,
    packet: Seq<u8>,
    ip: IpAddress,
    now: u64,
    state: TrackerModel,
    metrics: MetricsModel,
)
    requires
        packet.len() >= 16,
    ensures
        ({
            let reply = tracker.handled(packet, ip, now, state, metrics).reply;
            &&& reply.len() >= 8
            &&& u32_at(reply, 4) == u32_at(packet, 12)
            &&& u32_at(reply, 0) == u32_at(packet, 8) || u32_at(reply, 0) == ACTION_ERROR
        }),
{
    let outcome = tracker.handled(packet, ip, now, state, metrics);
    let reply = outcome.reply;
    let transaction_id = u32_at(packet, 12);
    let action = if reply.subrange(0, 4) == be32(ACTION_ERROR) {
        ACTION_ERROR
    } else {
        u32_at(packet, 8)
    };
    lemma_reply_head(tracker, packet, ip, now, state, metrics);
    lemma_u32_stands(reply, 0, action);
    lemma_u32_stands(reply, 4, transaction_id);
}

/// The first eight bytes of every reply.
proof fn lemma_reply_head(
    tracker: UdpTracker,
    packet: Seq<u8>,
    ip: IpAddress,
    now: u64,
    state: TrackerModel,
    metrics: MetricsModel,
)
    requires
        packet.len() >= 16,
    ensures
        ({
            let reply = tracker.handled(packet, ip, now, state, metrics).reply;
            &&& reply.len() >= 8
            &&& reply.subrange(4, 8) == be32(u32_at(packet, 12))
            &&& reply.subrange(0, 4) == be32(u32_at(packet, 8)) || reply.subrange(0, 4) == be32(
                ACTION_ERROR,
            )
        }),
{
    let reply = tracker.handled(packet, ip, now, state, metrics).reply;
    let transaction_id = u32_at(packet, 12);
    let action = u32_at(packet, 8);
    if exists|rest: Seq<u8>| reply == #[trigger] (be32(action) + be32(transaction_id) + rest) {
        let rest = choose|rest: Seq<u8>|
            reply == #[trigger] (be32(action) + be32(transaction_id) + rest);
        assert(reply.subrange(0, 4) =~= be32(action));
        assert(reply.subrange(4, 8) =~= be32(transaction_id));
    } else {
        lemma_reply_form(tracker, packet, ip, now, state, metrics);
        let rest = choose|rest: Seq<u8>|
            reply == #[trigger] (be32(ACTION_ERROR) + be32(transaction_id) + rest);
        assert(reply.subrange(0, 4) =~= be32(ACTION_ERROR));
        assert(reply.subrange(4, 8) =~= be32(transaction_id));
    }
}

/// Every reply is an action, the transaction identifier and the rest.
proof fn lemma_reply_form(
    tracker: UdpTracker,
    packet: Seq<u8>,
    ip: IpAddress,
    now: u64,
    state: TrackerModel,
    metrics: MetricsModel,
)
    ensures
        ({
            let reply = tracker.handled(packet, ip, now, state, metrics).reply;
            let transaction_id = u32_at(packet, 12);
            ||| exists|rest: Seq<u8>|
                reply == #[trigger] (be32(u32_at(packet, 8)) + be32(transaction_id) + rest)
            ||| exists|rest: Seq<u8>|
                reply == #[trigger] (be32(ACTION_ERROR) + be32(transaction_id) + rest)
        }),
{
    let outcome = tracker.handled(packet, ip, now, state, metrics);
    let reply = outcome.reply;
    let transaction_id = u32_at(packet, 12);
    let rest = reply.subrange(8, reply.len() as int);
    if u32_at(packet, 8) == ACTION_ANNOUNCE && reply.len() >= 8 {
        assert(reply =~= be32(ACTION_ERROR) + be32(transaction_id) + rest || reply =~= be32(
            ACTION_ANNOUNCE,
        ) + be32(transaction_id) + rest);
    }
}

/// A request without a valid connection identifier, or without a port, is
/// refused and changes no torrent.
pub proof fn law_refused_announce_changes_nothing(
    tracker: UdpTracker,
    packet: Seq<u8>,
    ip: IpAddress,
    now: u64,
    state: TrackerModel,
    metrics: MetricsModel,
)
    requires
        packet.len() < 98 || !tracker.accepts(packet, ip, now) || crate::wire::u16_at(packet, 96)
            == 0,
    ensures
        tracker.announced(packet, ip, now, state, metrics).state == state,
        exists|message: Seq<char>|
            tracker.announced(packet, ip, now, state, metrics).reply == #[trigger] error_reply(
                u32_at(packet, 12),
                message,
            ),
{
    if packet.len() < 98 || !tracker.accepts(packet, ip, now) {
        assert(tracker.announced(packet, ip, now, state, metrics).reply == error_reply(
            u32_at(packet, 12),
            "invalid announce request"@,
        ));
    } else {
        assert(tracker.announced(packet, ip, now, state, metrics).reply == error_reply(
            u32_at(packet, 12),
            "invalid peer port"@,
        ));
    }
}

/// Only an announce changes the torrents.
pub proof fn law_only_announces_change_torrents(
    tracker: UdpTracker,
    packet: Seq<u8>,
    ip: IpAddress,
    now: u64,
    state: TrackerModel,
    metrics: MetricsModel,
)
    requires
        u32_at(packet, 8) != ACTION_ANNOUNCE,
    ensures
        tracker.handled(packet, ip, now, state, metrics).state == state,
{
}

/// The reply to an announce lists at most 200 peers, so its size is bounded.
pub proof fn law_announce_reply_is_bounded(
    transaction_id: u32,
    interval: u32,
    stats: crate::state::SwarmStats,
    peers: Seq<Peer>,
    peer_id: crate::state::PeerId,
    wanted: i32,
    requester: IpAddress,
)
    ensures
        announce_reply(
            transaction_id,
            interval,
            stats,
            listed_peers(peers, peer_id, peer_limit(wanted)),
            requester,
        ).len() <= 20 + 18 * 200,
{
    let listed = listed_peers(peers, peer_id, peer_limit(wanted));
    law_listed_peers(peers, peer_id, peer_limit(wanted));
    lemma_family_peers_length(listed, requester is V4);
}

proof fn lemma_family_peers_length(peers: Seq<Peer>, v4: bool)
    ensures
        family_peers(peers, v4).len() <= 18 * peers.len(),
    decreases peers.len(),
{
    if peers.len() > 0 {
        lemma_family_peers_length(peers.drop_last(), v4);
        crate::address::lemma_same_octets(peers.last().ip, peers.last().ip);
    }
}

/// The reply to a scrape has twelve bytes for every torrent, those of the
/// torrents in the order in which they were named.
pub proof fn law_scrape_reply_lists_every_torrent(
    state: TrackerModel,
    packet: Seq<u8>,
    transaction_id: u32,
    index: int,
)
    requires
        packet.len() >= 16,
        0 <= index < (packet.len() - 16) / 20,
    ensures
        scrape_reply(state, packet, transaction_id).len() == 8 + 12 * ((packet.len() - 16) / 20),
        scrape_reply(state, packet, transaction_id).subrange(8 + 12 * index, 20 + 12 * index)
            == scrape_entry(state.torrent(identifier_at(packet, 16 + 20 * index)).stats()),
{
    let count = ((packet.len() - 16) / 20) as nat;
    lemma_scrape_entries(state, packet, count, index);
    let reply = scrape_reply(state, packet, transaction_id);
    let entries = scrape_entries(state, packet, count);
    assert(reply.subrange(8 + 12 * index, 20 + 12 * index) =~= entries.subrange(
        12 * index,
        12 * index + 12,
    ));
}

proof fn lemma_scrape_entries(state: TrackerModel, packet: Seq<u8>, count: nat, index: int)
    ensures
        scrape_entries(state, packet, count).len() == 12 * count,
        0 <= index < count ==> scrape_entries(state, packet, count).subrange(
            12 * index,
            12 * index + 12,
        ) == scrape_entry(state.torrent(identifier_at(packet, 16 + 20 * index)).stats()),
    decreases count,
{
    if count > 0 {
        lemma_scrape_entries(state, packet, (count - 1) as nat, index);
        let before = scrape_entries(state, packet, (count - 1) as nat);
        let all = scrape_entries(state, packet, count);
        if 0 <= index < count - 1 {
            assert(all.subrange(12 * index, 12 * index + 12) =~= before.subrange(
                12 * index,
                12 * index + 12,
            ));
        } else if index == count - 1 {
            assert(all.subrange(12 * index, 12 * index + 12) =~= scrape_entry(
                state.torrent(identifier_at(packet, 16 + 20 * index)).stats(),
            ));
        }
    }
}

/// A compact list holds every peer of its address family, in their order: the
/// octets of its address and its port, and nothing else.
pub proof fn law_compact_list_holds_the_family(peers: Seq<Peer>, v4: bool, place: int)
    ensures
        v4 ==> family_peers(peers, v4).len() == 6 * peers.filter(
            |peer: Peer| peer.ip is V4,
        ).len(),
        !v4 ==> family_peers(peers, v4).len() == 18 * peers.filter(
            |peer: Peer| peer.ip is V6,
        ).len(),
        v4 && 0 <= place < peers.filter(|peer: Peer| peer.ip is V4).len() ==> ({
            let listed = peers.filter(|peer: Peer| peer.ip is V4)[place];
            family_peers(peers, v4).subrange(6 * place, 6 * place + 6) == listed.ip->V4_0@ + seq![
                (listed.port / 256) as u8,
                (listed.port % 256) as u8,
            ]
        }),
        !v4 && 0 <= place < peers.filter(|peer: Peer| peer.ip is V6).len() ==> ({
            let listed = peers.filter(|peer: Peer| peer.ip is V6)[place];
            family_peers(peers, v4).subrange(18 * place, 18 * place + 18) == listed.ip->V6_0@
                + seq![(listed.port / 256) as u8, (listed.port % 256) as u8]
        }),
    decreases peers.len(),
{
    reveal(Seq::filter);
    if peers.len() > 0 {
        let head = peers.drop_last();
        let peer = peers.last();
        law_compact_list_holds_the_family(head, v4, place);
        let before = family_peers(head, v4);
        let after = family_peers(peers, v4);
        let entry = peer.ip.octets() + be16(peer.port);
        let size: int = if v4 {
            6
        } else {
            18
        };
        let held = if v4 {
            head.filter(|peer: Peer| peer.ip is V4)
        } else {
            head.filter(|peer: Peer| peer.ip is V6)
        };
        if v4 == (peer.ip is V4) {
            assert(entry.len() == size);
            assert(after =~= before + entry);
            if 0 <= place < held.len() {
                assert(size * place + size <= before.len()) by (nonlinear_arith)
                    requires
                        place + 1 <= held.len(),
                        before.len() == size * held.len(),
                        size > 0,
                ;
                assert(after.subrange(size * place, size * place + size) =~= before.subrange(
                    size * place,
                    size * place + size,
                ));
            } else if place == held.len() {
                assert(after.subrange(size * place, size * place + size) =~= entry);
            }
        }
    }
}

/// An announce packet enters or takes out the peer that it describes: its
/// identifier stands at offset 36, its port at 96 and what it has left at 64, and
/// the torrent's hash stands at 16. The number at 80 says what happens. With 3
/// the peer leaves, with any other number it is entered; with 1 a download is
/// counted, unless the peer was there with nothing left.
pub proof fn law_announce_packet_is_applied(
    tracker: UdpTracker,
    packet: Seq<u8>,
    ip: IpAddress,
    now: u64,
    state: TrackerModel,
    metrics: MetricsModel,
    info_hash: InfoHash,
    peer: Peer,
)
    requires
        packet.len() >= 98,
        u32_at(packet, 8) == 1,
        tracker.accepts(packet, ip, now),
        u16_at(packet, 96) != 0,
        info_hash@ == packet.subrange(16, 36),
        peer.peer_id@ == packet.subrange(36, 56),
        peer.ip == ip,
        peer.port == u16_at(packet, 96),
        peer.left == u64_at(packet, 64),
        peer.last_seen == now,
        forall|i: int, j: int|
            0 <= i < j < state.torrent(info_hash).peers.len() ==> #[trigger] state.torrent(
                info_hash,
            ).peers[i].peer_id != #[trigger] state.torrent(info_hash).peers[j].peer_id,
    ensures
        ({
            let before = state.torrent(info_hash);
            let after = tracker.handled(packet, ip, now, state, metrics).state.torrent(info_hash);
            &&& u32_at(packet, 80) == 3 ==> forall|other: Peer| #[trigger]
                after.peers.contains(other) <==> before.peers.contains(other) && other.peer_id
                    != peer.peer_id
            &&& u32_at(packet, 80) != 3 ==> forall|other: Peer| #[trigger]
                after.peers.contains(other) <==> other == peer || (before.peers.contains(other)
                    && other.peer_id != peer.peer_id)
            &&& u32_at(packet, 80) != 1 ==> after.times_downloaded() == before.times_downloaded()
            &&& u32_at(packet, 80) == 1 && (forall|i: int|
                0 <= i < before.peers.len() && #[trigger] before.peers[i].peer_id == peer.peer_id
                    ==> before.peers[i].left != 0) && before.times_downloaded() < u64::MAX
                ==> after.times_downloaded() == before.times_downloaded() + 1
            &&& u32_at(packet, 80) == 1 && (exists|i: int|
                0 <= i < before.peers.len() && #[trigger] before.peers[i].peer_id == peer.peer_id
                    && before.peers[i].left == 0) ==> after.times_downloaded()
                == before.times_downloaded()
        }),
        forall|other: InfoHash|
            other != info_hash ==> #[trigger] tracker.handled(
                packet,
                ip,
                now,
                state,
                metrics,
            ).state.torrent(other) == state.torrent(other),
{
    law_numbers_are_big_endian(packet, 16);
    law_numbers_are_big_endian(packet, 36);
    assert(identifier_at(packet, 16) =~= info_hash);
    assert(identifier_at(packet, 36) =~= peer.peer_id);
    let code = u32_at(packet, 80);
    law_stop_takes_out_one_peer(state, info_hash, peer);
    law_announce_enters_one_peer(state, info_hash, peer, AnnounceEvent::Completed);
    law_announce_enters_one_peer(state, info_hash, peer, AnnounceEvent::Started);
    law_announce_enters_one_peer(state, info_hash, peer, AnnounceEvent::Update);
    law_downloads_are_counted(state, info_hash, peer, AnnounceEvent::Completed);
    law_downloads_are_counted(state, info_hash, peer, AnnounceEvent::Started);
    law_downloads_are_counted(state, info_hash, peer, AnnounceEvent::Update);
    law_downloads_are_counted(state, info_hash, peer, AnnounceEvent::Stopped);
    assert(announced_peer(packet, ip, now) == peer);
}

/// The reply to an announce packet says in its numbers how long to wait, how many
/// peers of the torrent have something left and how many have nothing left, and
/// lists other peers of the torrent that have an address of the sender's family:
/// as many as the number at offset 92 asks for, but at most 200, and 50 where it
/// is negative.
pub proof fn law_announce_packet_is_answered(
    tracker: UdpTracker,
    packet: Seq<u8>,
    ip: IpAddress,
    now: u64,
    state: TrackerModel,
    metrics: MetricsModel,
    info_hash: InfoHash,
    peer_id: PeerId,
    limit: int,
)
    requires
        packet.len() >= 98,
        u32_at(packet, 8) == 1,
        tracker.accepts(packet, ip, now),
        u16_at(packet, 96) != 0,
        info_hash@ == packet.subrange(16, 36),
        peer_id@ == packet.subrange(36, 56),
        tracker.handled(packet, ip, now, state, metrics).state.torrent(info_hash).peers.len()
            <= u32::MAX,
        i32_at(packet, 92) < 0 ==> limit == 50,
        0 <= i32_at(packet, 92) <= 200 ==> limit == i32_at(packet, 92),
        i32_at(packet, 92) > 200 ==> limit == 200,
    ensures
        ({
            let outcome = tracker.handled(packet, ip, now, state, metrics);
            let peers = outcome.state.torrent(info_hash).peers;
            let others = peers.filter(|peer: Peer| peer.peer_id != peer_id);
            let listed = if others.len() <= limit {
                others
            } else {
                others.subrange(0, limit)
            };
            let reply = outcome.reply;
            &&& reply.len() >= 20
            &&& u32_at(reply, 0) == 1
            &&& u32_at(reply, 4) == u32_at(packet, 12)
            &&& u32_at(reply, 8) == tracker.announce_interval
            &&& u32_at(reply, 12) == peers.filter(|peer: Peer| peer.left != 0).len()
            &&& u32_at(reply, 16) == peers.filter(|peer: Peer| peer.left == 0).len()
            &&& reply.subrange(20, reply.len() as int) == family_peers(listed, ip is V4)
        }),
{
    law_numbers_are_big_endian(packet, 16);
    law_numbers_are_big_endian(packet, 36);
    assert(identifier_at(packet, 16) =~= info_hash);
    assert(identifier_at(packet, 36) =~= peer_id);
    let outcome = tracker.handled(packet, ip, now, state, metrics);
    let torrent = outcome.state.torrent(info_hash);
    let stats = torrent.stats();
    let reply = outcome.reply;
    law_list_is_the_others(torrent.peers, peer_id, limit as nat);
    law_statistics_count_the_peers(torrent);
    torrent.peers.lemma_filter_len(|peer: Peer| peer.left != 0);
    torrent.peers.lemma_filter_len(|peer: Peer| peer.left == 0);
    assert(peer_limit(i32_at(packet, 92)) == limit);
    let list = family_peers(listed_peers(torrent.peers, peer_id, limit as nat), ip is V4);
    assert(reply == announce_reply(
        u32_at(packet, 12),
        tracker.announce_interval,
        stats,
        listed_peers(torrent.peers, peer_id, limit as nat),
        ip,
    ));
    lemma_announce_numbers(
        u32_at(packet, 12),
        tracker.announce_interval,
        stats.incomplete as u32,
        stats.complete as u32,
        list,
    );
}

/// The numbers that the reply to an announce begins with.
proof fn lemma_announce_numbers(
    transaction_id: u32,
    interval: u32,
    leechers: u32,
    seeders: u32,
    list: Seq<u8>,
)
    ensures
        ({
            let reply = be32(1) + be32(transaction_id) + be32(interval) + be32(leechers) + be32(
                seeders,
            ) + list;
            &&& reply.len() >= 20
            &&& u32_at(reply, 0) == 1
            &&& u32_at(reply, 4) == transaction_id
            &&& u32_at(reply, 8) == interval
            &&& u32_at(reply, 12) == leechers
            &&& u32_at(reply, 16) == seeders
            &&& reply.subrange(20, reply.len() as int) == list
        }),
{
    let reply = be32(1) + be32(transaction_id) + be32(interval) + be32(leechers) + be32(seeders)
        + list;
    assert(reply.subrange(0, 4) =~= be32(1));
    assert(reply.subrange(4, 8) =~= be32(transaction_id));
    assert(reply.subrange(8, 12) =~= be32(interval));
    assert(reply.subrange(12, 16) =~= be32(leechers));
    assert(reply.subrange(16, 20) =~= be32(seeders));
    assert(reply.subrange(20, reply.len() as int) =~= list);
    lemma_u32_stands(reply, 0, 1);
    lemma_u32_stands(reply, 4, transaction_id);
    lemma_u32_stands(reply, 8, interval);
    lemma_u32_stands(reply, 12, leechers);
    lemma_u32_stands(reply, 16, seeders);
}

/// Every packet that is no connect, announce or scrape, is malformed or has no
/// valid connection is answered with the action 3, its transaction identifier
/// and a text, and changes no torrent. A scrape is answered only where it is
/// enabled.
pub proof fn law_other_packets_are_refused(
    tracker: UdpTracker,
    packet: Seq<u8>,
    ip: IpAddress,
    now: u64,
    state: TrackerModel,
    metrics: MetricsModel,
)
    requires
        packet.len() >= 16,
    ensures
        ({
            let outcome = tracker.handled(packet, ip, now, state, metrics);
            let head = seq![0u8, 0u8, 0u8, 3u8] + packet.subrange(12, 16);
            &&& u32_at(packet, 8) == 0 && u64_at(packet, 0) != 0x0417_2710_1980 ==> outcome.reply
                == head + encode_utf8("invalid protocol id"@)
            &&& u32_at(packet, 8) == 0 && u64_at(packet, 0) == 0x0417_2710_1980 ==> outcome.reply
                == seq![0u8, 0u8, 0u8, 0u8] + packet.subrange(12, 16) + be64(
                tracker.connection_id_of(ip, now / 60),
            )
            &&& u32_at(packet, 8) == 1 && (packet.len() < 98 || !tracker.accepts(packet, ip, now))
                ==> outcome.reply == head + encode_utf8("invalid announce request"@)
            &&& u32_at(packet, 8) == 1 && packet.len() >= 98 && tracker.accepts(packet, ip, now)
                && packet[96] == 0 && packet[97] == 0 ==> outcome.reply == head + encode_utf8(
                "invalid peer port"@,
            )
            &&& u32_at(packet, 8) == 2 && tracker.enable_scrape && (packet.len() < 36 || (
            packet.len() - 16) % 20 != 0 || !tracker.accepts(packet, ip, now)) ==> outcome.reply
                == head + encode_utf8("invalid scrape request"@)
            &&& u32_at(packet, 8) == 2 && !tracker.enable_scrape ==> outcome.reply == head
                + encode_utf8("unsupported action"@)
            &&& u32_at(packet, 8) > 2 ==> outcome.reply == head + encode_utf8(
                "unsupported action"@,
            )
            &&& u32_at(packet, 8) != 1 || packet.len() < 98 || !tracker.accepts(packet, ip, now)
                || (packet[96] == 0 && packet[97] == 0) ==> outcome.state == state
        }),
{
    lemma_number_stays(packet, 12);
    assert(be32(3) =~= seq![0u8, 0u8, 0u8, 3u8]) by {
        law_number_bytes(0, 3, 0);
    }
    assert(be32(0) =~= seq![0u8, 0u8, 0u8, 0u8]) by {
        law_number_bytes(0, 0, 0);
    }
    assert(u16_at(packet, 96) == 0 <==> packet[96] == 0 && packet[97] == 0) by {
        law_numbers_are_big_endian(packet, 96);
    }
}

/// A number that is read and written again stands as it stood.
proof fn lemma_number_stays(packet: Seq<u8>, at: int)
    requires
        0 <= at,
        at + 4 <= packet.len(),
    ensures
        be32(u32_at(packet, at)) == packet.subrange(at, at + 4),
{
    let high = u16_at(packet, at);
    let low = u16_at(packet, at + 2);
    let number = u32_at(packet, at);
    assert(number == 65536 * high + low);
    assert(number / 65536 == high && number % 65536 == low);
    lemma_short_number_stays(packet, at);
    lemma_short_number_stays(packet, at + 2);
    assert(be32(number) =~= packet.subrange(at, at + 4));
}

/// A number of two bytes that is read and written again stands as it stood.
proof fn lemma_short_number_stays(packet: Seq<u8>, at: int)
    ensures
        be16(u16_at(packet, at)) == seq![packet[at], packet[at + 1]],
{
    let number = u16_at(packet, at);
    assert(number == 256 * packet[at] + packet[at + 1]);
    assert(number / 256 == packet[at] && number % 256 == packet[at + 1]);
}

/// A connection identifier is what the standard hasher makes of the secret, the
/// sender's address and the minute, so that it is bound to that address.
pub proof fn law_connection_id_is_a_hash(tracker: UdpTracker, ip: IpAddress, minute: u64)
    ensures
        tracker.connection_id_of(ip, minute) == DefaultHasher::spec_finish(
            seq![
                spec_u64_to_le_bytes(tracker.connection_secret),
                spec_u64_to_le_bytes(
                    if ip is V4 {
                        0
                    } else {
                        1
                    },
                ),
                match ip {
                    IpAddress::V4(octets) => octets@,
                    IpAddress::V6(octets) => octets@,
                },
                spec_u64_to_le_bytes(minute),
            ],
        ),
{
    assert(seq![
        spec_u64_to_le_bytes(tracker.connection_secret),
        spec_u64_to_le_bytes(crate::udp::family_number(ip)),
        ip.octets(),
        spec_u64_to_le_bytes(minute),
    ] =~= seq![
        spec_u64_to_le_bytes(tracker.connection_secret),
        spec_u64_to_le_bytes(
            if ip is V4 {
                0
            } else {
                1
            },
        ),
        match ip {
            IpAddress::V4(octets) => octets@,
            IpAddress::V6(octets) => octets@,
        },
        spec_u64_to_le_bytes(minute),
    ]);
}

/// A packet is accepted where its first eight bytes are the connection
/// identifier of its sender's address for this minute or the one before, and
/// nowhere else.
pub proof fn law_connections_last_two_minutes(
    tracker: UdpTracker,
    ip: IpAddress,
    packet: Seq<u8>,
    now: u64,
)
    requires
        packet.len() >= 8,
        now >= 60,
    ensures
        tracker.accepts(packet, ip, now) <==> u64_at(packet, 0) == tracker.connection_id_of(
            ip,
            now / 60,
        ) || u64_at(packet, 0) == tracker.connection_id_of(ip, (now / 60 - 1) as u64),
{
}

/// A scrape over a valid connection is answered with three numbers for every
/// torrent that it names, in the order of their names: the peers with nothing
/// left, the downloads, and the peers with something left.
pub proof fn law_scrape_packet_is_answered(
    tracker: UdpTracker,
    packet: Seq<u8>,
    ip: IpAddress,
    now: u64,
    state: TrackerModel,
    metrics: MetricsModel,
    info_hash: InfoHash,
    index: int,
)
    requires
        packet.len() >= 36,
        (packet.len() - 16) % 20 == 0,
        u32_at(packet, 8) == 2,
        tracker.enable_scrape,
        tracker.accepts(packet, ip, now),
        0 <= index < (packet.len() - 16) / 20,
        info_hash@ == packet.subrange(16 + 20 * index, 36 + 20 * index),
        state.torrent(info_hash).peers.len() <= u32::MAX,
        state.torrent(info_hash).times_downloaded() <= u32::MAX,
    ensures
        ({
            let outcome = tracker.handled(packet, ip, now, state, metrics);
            let torrent = state.torrent(info_hash);
            &&& outcome.state == state
            &&& outcome.reply.len() == 8 + 12 * ((packet.len() - 16) / 20)
            &&& u32_at(outcome.reply, 0) == 2
            &&& u32_at(outcome.reply, 4) == u32_at(packet, 12)
            &&& u32_at(outcome.reply, 8 + 12 * index) == torrent.peers.filter(
                |peer: Peer| peer.left == 0,
            ).len()
            &&& u32_at(outcome.reply, 12 + 12 * index) == torrent.times_downloaded()
            &&& u32_at(outcome.reply, 16 + 12 * index) == torrent.peers.filter(
                |peer: Peer| peer.left != 0,
            ).len()
        }),
{
    let torrent = state.torrent(info_hash);
    let reply = tracker.handled(packet, ip, now, state, metrics).reply;
    law_numbers_are_big_endian(packet, 16 + 20 * index);
    assert(identifier_at(packet, 16 + 20 * index) =~= info_hash);
    law_scrape_reply_lists_every_torrent(state, packet, u32_at(packet, 12), index);
    law_statistics_count_the_peers(torrent);
    torrent.peers.lemma_filter_len(|peer: Peer| peer.left != 0);
    torrent.peers.lemma_filter_len(|peer: Peer| peer.left == 0);
    assert(reply == scrape_reply(state, packet, u32_at(packet, 12)));
    lemma_scrape_numbers(reply, 8 + 12 * index, torrent.stats());
    let count = ((packet.len() - 16) / 20) as nat;
    lemma_head_numbers(2, u32_at(packet, 12), scrape_entries(state, packet, count));
}

/// The numbers of a torrent in the reply to a scrape.
proof fn lemma_scrape_numbers(reply: Seq<u8>, at: int, stats: crate::state::SwarmStats)
    requires
        0 <= at,
        at + 12 <= reply.len(),
        reply.subrange(at, at + 12) == scrape_entry(stats),
    ensures
        u32_at(reply, at) == stats.complete as u32,
        u32_at(reply, at + 4) == stats.downloaded as u32,
        u32_at(reply, at + 8) == stats.incomplete as u32,
{
    let entry = scrape_entry(stats);
    assert(reply.subrange(at, at + 4) =~= entry.subrange(0, 4));
    assert(reply.subrange(at + 4, at + 8) =~= entry.subrange(4, 8));
    assert(reply.subrange(at + 8, at + 12) =~= entry.subrange(8, 12));
    assert(entry.subrange(0, 4) =~= be32(stats.complete as u32));
    assert(entry.subrange(4, 8) =~= be32(stats.downloaded as u32));
    assert(entry.subrange(8, 12) =~= be32(stats.incomplete as u32));
    lemma_u32_stands(reply, at, stats.complete as u32);
    lemma_u32_stands(reply, at + 4, stats.downloaded as u32);
    lemma_u32_stands(reply, at + 8, stats.incomplete as u32);
}

/// The two numbers that a reply begins with.
proof fn lemma_head_numbers(action: u32, transaction_id: u32, rest: Seq<u8>)
    ensures
        u32_at(be32(action) + be32(transaction_id) + rest, 0) == action,
        u32_at(be32(action) + be32(transaction_id) + rest, 4) == transaction_id,
{
    let reply = be32(action) + be32(transaction_id) + rest;
    assert(reply.subrange(0, 4) =~= be32(action));
    assert(reply.subrange(4, 8) =~= be32(transaction_id));
    lemma_u32_stands(reply, 0, action);
    lemma_u32_stands(reply, 4, transaction_id);
}

/// An announce packet is counted once as a request and once by its event, and
/// the population is shown as it then is.
pub proof fn law_announce_packet_is_counted(
    tracker: UdpTracker,
    packet: Seq<u8>,
    ip: IpAddress,
    now: u64,
    state: TrackerModel,
    metrics: MetricsModel,
    word: Seq<char>,
)
    requires
        packet.len() >= 98,
        u32_at(packet, 8) == 1,
        tracker.accepts(packet, ip, now),
        u16_at(packet, 96) != 0,
        u32_at(packet, 80) == 1 ==> word == "completed"@,
        u32_at(packet, 80) == 2 ==> word == "started"@,
        u32_at(packet, 80) == 3 ==> word == "stopped"@,
        u32_at(packet, 80) == 0 || u32_at(packet, 80) > 3 ==> word == "update"@,
        forall|i: int|
            0 <= i < metrics.requests.len() ==> 0 <= (#[trigger] metrics.requests[i]).1 < u64::MAX,
        forall|i: int|
            0 <= i < metrics.announce_events.len() ==> 0 <= (#[trigger] metrics.announce_events[i]).1
                < u64::MAX,
        tracker.announced(packet, ip, now, state, metrics).state.total(peers_weight()) <= i64::MAX,
        tracker.announced(packet, ip, now, state, metrics).state.total(peers_weight())
            <= usize::MAX,
    ensures
        ({
            let outcome = tracker.announced(packet, ip, now, state, metrics);
            let labels = seq!["udp"@, "announce"@, "ok"@];
            &&& tracker.handled(packet, ip, now, state, metrics) == outcome
            &&& count_of(outcome.metrics.requests, labels) == count_of(metrics.requests, labels) + 1
            &&& count_of(outcome.metrics.announce_events, seq!["udp"@, word]) == count_of(
                metrics.announce_events,
                seq!["udp"@, word],
            ) + 1
            &&& forall|other: Seq<Seq<char>>|
                other != labels ==> #[trigger] count_of(outcome.metrics.requests, other)
                    == count_of(metrics.requests, other)
            &&& forall|other: Seq<Seq<char>>|
                other != seq!["udp"@, word] ==> #[trigger] count_of(
                    outcome.metrics.announce_events,
                    other,
                ) == count_of(metrics.announce_events, other)
            &&& outcome.metrics.active_peers == outcome.state.total(peers_weight())
        }),
{
    law_requests_and_events_are_counted(metrics, "udp"@, "announce"@, "ok"@, word);
    let outcome = tracker.announced(packet, ip, now, state, metrics);
    law_population_counts_peers_and_swarms(outcome.state);
    let event = crate::udp::event_of(u32_at(packet, 80));
    assert(crate::udp::event_text(event) == word);
}

/// Packets other than announces are counted by what they ask for and whether they
/// are answered.
pub proof fn law_other_packets_are_counted(
    tracker: UdpTracker,
    packet: Seq<u8>,
    ip: IpAddress,
    now: u64,
    state: TrackerModel,
    metrics: MetricsModel,
)
    requires
        forall|i: int|
            0 <= i < metrics.requests.len() ==> 0 <= (#[trigger] metrics.requests[i]).1 < u64::MAX,
    ensures
        ({
            let after = tracker.handled(packet, ip, now, state, metrics).metrics.requests;
            let before = metrics.requests;
            &&& u32_at(packet, 8) == 0 && u64_at(packet, 0) == 0x0417_2710_1980 ==> adds_one(
                before,
                after,
                seq!["udp"@, "connect"@, "ok"@],
            )
            &&& u32_at(packet, 8) == 0 && u64_at(packet, 0) != 0x0417_2710_1980 ==> adds_one(
                before,
                after,
                seq!["udp"@, "connect"@, "invalid"@],
            )
            &&& u32_at(packet, 8) == 1 && (packet.len() < 98 || !tracker.accepts(packet, ip, now))
                ==> adds_one(before, after, seq!["udp"@, "announce"@, "invalid"@])
            &&& u32_at(packet, 8) == 2 && tracker.enable_scrape && packet.len() >= 36 && (
            packet.len() - 16) % 20 == 0 && tracker.accepts(packet, ip, now) ==> adds_one(
                before,
                after,
                seq!["udp"@, "scrape"@, "ok"@],
            )
            &&& u32_at(packet, 8) == 2 && tracker.enable_scrape && (packet.len() < 36 || (
            packet.len() - 16) % 20 != 0 || !tracker.accepts(packet, ip, now)) ==> adds_one(
                before,
                after,
                seq!["udp"@, "scrape"@, "invalid"@],
            )
        }),
{
    lemma_adds_one(metrics, "connect"@, "ok"@);
    lemma_adds_one(metrics, "connect"@, "invalid"@);
    lemma_adds_one(metrics, "announce"@, "invalid"@);
    lemma_adds_one(metrics, "scrape"@, "ok"@);
    lemma_adds_one(metrics, "scrape"@, "invalid"@);
}

/// Whether one count is higher by one and every other is the same.
pub open spec fn adds_one(
    before: Seq<(Seq<Seq<char>>, int)>,
    after: Seq<(Seq<Seq<char>>, int)>,
    labels: Seq<Seq<char>>,
) -> bool {
    &&& count_of(after, labels) == count_of(before, labels) + 1
    &&& forall|other: Seq<Seq<char>>|
        other != labels ==> #[trigger] count_of(after, other) == count_of(before, other)
}

/// A counted request adds one to its count alone.
proof fn lemma_adds_one(metrics: MetricsModel, action: Seq<char>, result: Seq<char>)
    requires
        forall|i: int|
            0 <= i < metrics.requests.len() ==> 0 <= (#[trigger] metrics.requests[i]).1 < u64::MAX,
    ensures
        adds_one(
            metrics.requests,
            metrics.with_request("udp"@, action, result).requests,
            seq!["udp"@, action, result],
        ),
{
    let plain = MetricsModel { announce_events: Seq::empty(), ..metrics };
    law_requests_and_events_are_counted(plain, "udp"@, action, result, action);
    assert(plain.with_request("udp"@, action, result).requests == metrics.with_request(
        "udp"@,
        action,
        result,
    ).requests);
}

} // verus!
