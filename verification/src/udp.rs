//! The UDP tracker: connect, announce and scrape requests and their replies.

pub use crate::wire::{
    push_u16, push_u32, push_u64, read_i32, read_u16, read_u32, read_u64, slice_array,
};

use crate::address::IpAddress;
use crate::metrics::{AppMetrics, MetricsModel};
use crate::rate_limit::RateLimiter;
use crate::state::{
    unix_timestamp, AnnounceEvent, InfoHash, Peer, PeerId, SwarmStats, TrackerModel, TrackerState,
};
use crate::swarm::listed_peers;
use crate::wire::{be16, be32, be64, i32_at, identifier_at, u16_at, u32_at, u64_at};
use std::collections::hash_map::DefaultHasher;
use std::hash::Hasher;
use vstd::bytes::{spec_u64_to_le_bytes, u64_to_le_bytes};
use vstd::prelude::*;
use vstd::std_specs::hash::DefaultHasherAdditionalSpecFns;
use vstd::utf8::encode_utf8;

verus! {

/// What a connect request carries in the place of a connection identifier.
pub const PROTOCOL_ID: u64 = 0x0417_2710_1980;

/// The action of a connect request and its reply.
pub const ACTION_CONNECT: u32 = 0;

/// The action of an announce request and its reply.
pub const ACTION_ANNOUNCE: u32 = 1;

/// The action of a scrape request and its reply.
pub const ACTION_SCRAPE: u32 = 2;

/// The action of a reply that refuses a request.
pub const ACTION_ERROR: u32 = 3;

/// How many peers an announce is answered with where it does not say.
pub const DEFAULT_PEERS: usize = 50;

/// How many peers an announce is answered with at most.
pub const MAX_PEERS: usize = 200;

/// The name of an event.
pub open spec fn event_text(event: AnnounceEvent) -> Seq<char> {
    match event {
        AnnounceEvent::Started => "started"@,
        AnnounceEvent::Completed => "completed"@,
        AnnounceEvent::Stopped => "stopped"@,
        AnnounceEvent::Update => "update"@,
    }
}

/// The name of an event.
pub fn event_name(event: AnnounceEvent) -> (name: &'static str)
    ensures
        name@ == event_text(event),
{
    match event {
        AnnounceEvent::Started => "started",
        AnnounceEvent::Completed => "completed",
        AnnounceEvent::Stopped => "stopped",
        AnnounceEvent::Update => "update",
    }
}

/// The event that a number in an announce stands for.
pub open spec fn event_of(code: u32) -> AnnounceEvent {
    if code == 1 {
        AnnounceEvent::Completed
    } else if code == 2 {
        AnnounceEvent::Started
    } else if code == 3 {
        AnnounceEvent::Stopped
    } else {
        AnnounceEvent::Update
    }
}

/// How many peers are sent for the number that was asked for.
pub open spec fn peer_limit(wanted: i32) -> nat {
    if wanted < 0 {
        DEFAULT_PEERS as nat
    } else if wanted <= MAX_PEERS {
        wanted as nat
    } else {
        MAX_PEERS as nat
    }
}

/// A reply that refuses a request.
pub open spec fn error_reply(transaction_id: u32, message: Seq<char>) -> Seq<u8> {
    be32(ACTION_ERROR) + be32(transaction_id) + encode_utf8(message)
}

/// The reply to a connect request.
pub open spec fn connect_reply(transaction_id: u32, connection_id: u64) -> Seq<u8> {
    be32(ACTION_CONNECT) + be32(transaction_id) + be64(connection_id)
}

/// The addresses and ports of the peers with IPv4 or with IPv6 addresses, in
/// their order.
pub open spec fn family_peers(peers: Seq<Peer>, v4: bool) -> Seq<u8>
    decreases peers.len(),
{
    if peers.len() == 0 {
        Seq::empty()
    } else {
        let before = family_peers(peers.drop_last(), v4);
        let peer = peers.last();
        if v4 == (peer.ip is V4) {
            before + peer.ip.octets() + be16(peer.port)
        } else {
            before
        }
    }
}

/// The reply to an announce.
pub open spec fn announce_reply(
    transaction_id: u32,
    interval: u32,
    stats: SwarmStats,
    peers: Seq<Peer>,
    requester: IpAddress,
) -> Seq<u8> {
    be32(ACTION_ANNOUNCE) + be32(transaction_id) + be32(interval) + be32(stats.incomplete as u32)
        + be32(stats.complete as u32) + family_peers(peers, requester is V4)
}

/// The statistics of one torrent in the reply to a scrape.
pub open spec fn scrape_entry(stats: SwarmStats) -> Seq<u8> {
    be32(stats.complete as u32) + be32(stats.downloaded as u32) + be32(stats.incomplete as u32)
}

/// The statistics of the first `count` torrents that a scrape names.
pub open spec fn scrape_entries(state: TrackerModel, packet: Seq<u8>, count: nat) -> Seq<u8>
    decreases count,
{
    if count == 0 {
        Seq::empty()
    } else {
        scrape_entries(state, packet, (count - 1) as nat) + scrape_entry(
            state.torrent(identifier_at(packet, 16 + 20 * (count - 1))).stats(),
        )
    }
}

/// The reply to a scrape.
pub open spec fn scrape_reply(state: TrackerModel, packet: Seq<u8>, transaction_id: u32) -> Seq<u8> {
    be32(ACTION_SCRAPE) + be32(transaction_id) + scrape_entries(
        state,
        packet,
        ((packet.len() - 16) / 20) as nat,
    )
}

/// The minute that a second lies in.
pub open spec fn minute_of(second: u64) -> u64 {
    second / 60
}

/// The minute before, or the first of all.
pub open spec fn minute_before(minute: u64) -> u64 {
    if minute > 0 {
        (minute - 1) as u64
    } else {
        0
    }
}

/// The number by which an address family is told apart in a hash: the place
/// of the family in the address type.
pub open spec fn family_number(ip: IpAddress) -> u64 {
    match ip {
        IpAddress::V4(_) => 0,
        IpAddress::V6(_) => 1,
    }
}

/// What a packet leads to.
pub struct UdpOutcome {
    pub reply: Seq<u8>,
    pub state: TrackerModel,
    pub metrics: MetricsModel,
}

/// The settings of the UDP tracker.
#[derive(Clone, Copy, Debug)]
pub struct UdpTracker {
    pub announce_interval: u32,
    pub connection_secret: u64,
    pub enable_scrape: bool,
}

impl UdpTracker {
    /// The connection identifier for an address and a minute: what the
    /// standard hasher makes of the secret, the address and the minute, each
    /// number as a word of eight bytes, the lowest first, and the address as the
    /// word for its family and its octets.
    pub open spec fn connection_id_of(self, ip: IpAddress, minute: u64) -> u64 {
        DefaultHasher::spec_finish(
            seq![
                spec_u64_to_le_bytes(self.connection_secret),
                spec_u64_to_le_bytes(family_number(ip)),
                ip.octets(),
                spec_u64_to_le_bytes(minute),
            ],
        )
    }

    /// Whether a packet carries an identifier for its sender's address from
    /// this minute or the one before.
    pub open spec fn accepts(self, packet: Seq<u8>, ip: IpAddress, now: u64) -> bool {
        let provided = u64_at(packet, 0);
        let minute = minute_of(now);
        packet.len() >= 8 && (provided == self.connection_id_of(ip, minute) || provided
            == self.connection_id_of(ip, minute_before(minute)))
    }

    /// What a connect request leads to.
    pub open spec fn connected(
        self,
        packet: Seq<u8>,
        ip: IpAddress,
        now: u64,
        state: TrackerModel,
        metrics: MetricsModel,
    ) -> UdpOutcome {
        let transaction_id = u32_at(packet, 12);
        if u64_at(packet, 0) != PROTOCOL_ID {
            UdpOutcome {
                reply: error_reply(transaction_id, "invalid protocol id"@),
                state,
                metrics: metrics.with_request("udp"@, "connect"@, "invalid"@),
            }
        } else {
            UdpOutcome {
                reply: connect_reply(transaction_id, self.connection_id_of(ip, minute_of(now))),
                state,
                metrics: metrics.with_request("udp"@, "connect"@, "ok"@),
            }
        }
    }

    /// What an announce leads to.
    pub open spec fn announced(
        self,
        packet: Seq<u8>,
        ip: IpAddress,
        now: u64,
        state: TrackerModel,
        metrics: MetricsModel,
    ) -> UdpOutcome {
        let transaction_id = u32_at(packet, 12);
        let port = u16_at(packet, 96);
        if packet.len() < 98 || !self.accepts(packet, ip, now) {
            UdpOutcome {
                reply: error_reply(transaction_id, "invalid announce request"@),
                state,
                metrics: metrics.with_request("udp"@, "announce"@, "invalid"@),
            }
        } else if port == 0 {
            UdpOutcome {
                reply: error_reply(transaction_id, "invalid peer port"@),
                state,
                metrics,
            }
        } else {
            let info_hash = identifier_at(packet, 16);
            let peer = announced_peer(packet, ip, now);
            let event = event_of(u32_at(packet, 80));
            let after = state.announced(info_hash, peer, event);
            UdpOutcome {
                reply: announce_reply(
                    transaction_id,
                    self.announce_interval,
                    after.torrent(info_hash).stats(),
                    listed_peers(
                        after.torrent(info_hash).peers,
                        peer.peer_id,
                        peer_limit(i32_at(packet, 92)),
                    ),
                    ip,
                ),
                state: after,
                metrics: metrics.with_event("udp"@, event_text(event)).with_population(
                    after.population().0,
                    after.population().1,
                ).with_request("udp"@, "announce"@, "ok"@),
            }
        }
    }

    /// What a scrape leads to.
    pub open spec fn scraped(
        self,
        packet: Seq<u8>,
        ip: IpAddress,
        now: u64,
        state: TrackerModel,
        metrics: MetricsModel,
    ) -> UdpOutcome {
        let transaction_id = u32_at(packet, 12);
        if packet.len() < 36 || (packet.len() - 16) % 20 != 0 || !self.accepts(packet, ip, now) {
            UdpOutcome {
                reply: error_reply(transaction_id, "invalid scrape request"@),
                state,
                metrics: metrics.with_request("udp"@, "scrape"@, "invalid"@),
            }
        } else {
            UdpOutcome {
                reply: scrape_reply(state, packet, transaction_id),
                state,
                metrics: metrics.with_request("udp"@, "scrape"@, "ok"@),
            }
        }
    }

    /// What a packet of at least 16 bytes leads to, once its sender is within
    /// the rate limit.
    pub open spec fn handled(
        self,
        packet: Seq<u8>,
        ip: IpAddress,
        now: u64,
        state: TrackerModel,
        metrics: MetricsModel,
    ) -> UdpOutcome {
        let action = u32_at(packet, 8);
        if action == ACTION_CONNECT {
            self.connected(packet, ip, now, state, metrics)
        } else if action == ACTION_ANNOUNCE {
            self.announced(packet, ip, now, state, metrics)
        } else if action == ACTION_SCRAPE && self.enable_scrape {
            self.scraped(packet, ip, now, state, metrics)
        } else {
            UdpOutcome {
                reply: error_reply(u32_at(packet, 12), "unsupported action"@),
                state,
                metrics,
            }
        }
    }
}

/// The peer that an announce describes.
pub open spec fn announced_peer(packet: Seq<u8>, ip: IpAddress, now: u64) -> Peer {
    Peer {
        peer_id: identifier_at(packet, 36),
        ip,
        port: u16_at(packet, 96),
        left: u64_at(packet, 64),
        last_seen: now,
    }
}

/// Builds a reply that refuses a request.
pub fn error_response(transaction_id: u32, message: &str) -> (response: Vec<u8>)
    ensures
        response@ == error_reply(transaction_id, message@),
{
    let mut response: Vec<u8> = Vec::new();
    push_u32(&mut response, ACTION_ERROR);
    push_u32(&mut response, transaction_id);
    response.extend_from_slice(message.as_bytes());
    assert(response@ =~= error_reply(transaction_id, message@));
    response
}

/// Appends an address's octets.
pub fn push_octets(output: &mut Vec<u8>, ip: &IpAddress)
    ensures
        final(output)@ == old(output)@ + ip.octets(),
{
    match ip {
        IpAddress::V4(octets) => {
            output.extend_from_slice(octets.as_slice());
        },
        IpAddress::V6(octets) => {
            output.extend_from_slice(octets.as_slice());
        },
    }
    assert(final(output)@ =~= old(output)@ + ip.octets());
}

/// Whether two addresses are of one family.
pub fn same_address_family(left: &IpAddress, right: &IpAddress) -> (result: bool)
    ensures
        result == left.same_family(*right),
{
    match (left, right) {
        (IpAddress::V4(_), IpAddress::V4(_)) => true,
        (IpAddress::V6(_), IpAddress::V6(_)) => true,
        _ => false,
    }
}

/// Appends the peers of the requester's address family.
pub fn append_compact_peers(output: &mut Vec<u8>, peers: &Vec<Peer>, requester: &IpAddress)
    ensures
        final(output)@ == old(output)@ + family_peers(peers@, *requester is V4),
{
    let ghost before = output@;
    let mut index: usize = 0;
    assert(before + Seq::<u8>::empty() =~= before);
    while index < peers.len()
        invariant
            0 <= index <= peers@.len(),
            output@ == before + family_peers(peers@.take(index as int), *requester is V4),
        decreases peers@.len() - index,
    {
        let peer: Peer = peers[index];
        let ghost so_far = output@;
        assert(peers@.take(index + 1).drop_last() =~= peers@.take(index as int));
        if same_address_family(requester, &peer.ip) {
            push_octets(output, &peer.ip);
            push_u16(output, peer.port);
            assert(output@ =~= before + family_peers(peers@.take(index + 1), *requester is V4));
        }
        index = index + 1;
    }
    assert(peers@.take(index as int) =~= peers@);
}

impl UdpTracker {
    /// Handles a packet, by the clock and the rate limit. A packet that is too
    /// short, or whose sender is over the limit, is dropped.
    pub fn handle_packet(
        &self,
        packet: &[u8],
        ip: IpAddress,
        state: &mut TrackerState,
        metrics: &mut AppMetrics,
        rate_limiter: &mut RateLimiter,
    ) -> (reply: Option<Vec<u8>>)
        requires
            old(state).valid(),
            old(metrics).valid(),
            old(rate_limiter)@.is_bounded(),
        ensures
            final(state).valid(),
            final(metrics).valid(),
            final(rate_limiter)@.is_bounded(),
            packet@.len() < 16 ==> reply is None && final(rate_limiter)@ == old(rate_limiter)@,
            packet@.len() >= 16 ==> exists|moment: u128|
                (reply is Some) == #[trigger] old(rate_limiter)@.allows(ip, moment) && final(
                    rate_limiter)@ == old(rate_limiter)@.checked(ip, moment),
            reply is None ==> final(state)@ == old(state)@ && final(metrics)@ == old(
                metrics)@.with_request("udp"@, "packet"@, "rejected"@),
            reply matches Some(bytes) ==> exists|now: u64|
                #![trigger self.handled(packet@, ip, now, old(state)@, old(metrics)@)]
                ({
                    let outcome = self.handled(packet@, ip, now, old(state)@, old(metrics)@);
                    bytes@ == outcome.reply && final(state)@ == outcome.state && final(metrics)@
                        == outcome.metrics
                }),
    {
        if packet.len() < 16 || !rate_limiter.check(ip) {
            metrics.request("udp", "packet", "rejected");
            return None;
        }
        let now: u64 = unix_timestamp();
        Some(self.handle_packet_at(packet, ip, now, state, metrics))
    }

    /// Handles a packet of at least 16 bytes at second `now`.
    pub fn handle_packet_at(
        &self,
        packet: &[u8],
        ip: IpAddress,
        now: u64,
        state: &mut TrackerState,
        metrics: &mut AppMetrics,
    ) -> (reply: Vec<u8>)
        requires
            packet@.len() >= 16,
            old(state).valid(),
            old(metrics).valid(),
        ensures
            final(state).valid(),
            final(metrics).valid(),
            ({
                let outcome = self.handled(packet@, ip, now, old(state)@, old(metrics)@);
                reply@ == outcome.reply && final(state)@ == outcome.state && final(metrics)@
                    == outcome.metrics
            }),
    {
        let action: u32 = match read_u32(packet, 8) {
            Some(action) => action,
            None => 0,
        };
        let transaction_id: u32 = match read_u32(packet, 12) {
            Some(transaction_id) => transaction_id,
            None => 0,
        };
        if action == ACTION_CONNECT {
            self.connect(packet, ip, now, transaction_id, metrics)
        } else if action == ACTION_ANNOUNCE {
            self.announce(packet, ip, now, transaction_id, state, metrics)
        } else if action == ACTION_SCRAPE && self.enable_scrape {
            self.scrape(packet, ip, now, transaction_id, state, metrics)
        } else {
            error_response(transaction_id, "unsupported action")
        }
    }

    /// Answers a connect request.
    fn connect(
        &self,
        packet: &[u8],
        ip: IpAddress,
        now: u64,
        transaction_id: u32,
        metrics: &mut AppMetrics,
    ) -> (reply: Vec<u8>)
        requires
            packet@.len() >= 16,
            transaction_id == u32_at(packet@, 12),
            old(metrics).valid(),
        ensures
            final(metrics).valid(),
            forall|state: TrackerModel| #[trigger]
                self.connected(packet@, ip, now, state, old(metrics)@) == (UdpOutcome {
                    reply: reply@,
                    state,
                    metrics: final(metrics)@,
                }),
    {
        let provided: u64 = match read_u64(packet, 0) {
            Some(provided) => provided,
            None => 0,
        };
        if provided != PROTOCOL_ID {
            metrics.request("udp", "connect", "invalid");
            return error_response(transaction_id, "invalid protocol id");
        }
        metrics.request("udp", "connect", "ok");
        let mut response: Vec<u8> = Vec::new();
        push_u32(&mut response, ACTION_CONNECT);
        push_u32(&mut response, transaction_id);
        push_u64(&mut response, self.connection_id(&ip, now / 60));
        assert(response@ =~= connect_reply(
            transaction_id,
            self.connection_id_of(ip, minute_of(now)),
        ));
        response
    }

    /// Answers an announce.
    fn announce(
        &self,
        packet: &[u8],
        ip: IpAddress,
        now: u64,
        transaction_id: u32,
        state: &mut TrackerState,
        metrics: &mut AppMetrics,
    ) -> (reply: Vec<u8>)
        requires
            packet@.len() >= 16,
            transaction_id == u32_at(packet@, 12),
            old(state).valid(),
            old(metrics).valid(),
        ensures
            final(state).valid(),
            final(metrics).valid(),
            self.announced(packet@, ip, now, old(state)@, old(metrics)@) == (UdpOutcome {
                reply: reply@,
                state: final(state)@,
                metrics: final(metrics)@,
            }),
    {
        if packet.len() < 98 || !self.valid_connection(packet, &ip, now) {
            metrics.request("udp", "announce", "invalid");
            return error_response(transaction_id, "invalid announce request");
        }
        let info_hash: InfoHash = match slice_array(packet, 16) {
            Some(info_hash) => info_hash,
            None => return error_response(transaction_id, "missing info hash"),
        };
        let peer_id: PeerId = match slice_array(packet, 36) {
            Some(peer_id) => peer_id,
            None => return error_response(transaction_id, "missing peer id"),
        };
        let left: u64 = match read_u64(packet, 64) {
            Some(left) => left,
            None => 0,
        };
        let event: AnnounceEvent = match read_u32(packet, 80) {
            Some(1) => AnnounceEvent::Completed,
            Some(2) => AnnounceEvent::Started,
            Some(3) => AnnounceEvent::Stopped,
            _ => AnnounceEvent::Update,
        };
        let wanted: i32 = match read_i32(packet, 92) {
            Some(wanted) => wanted,
            None => -1,
        };
        let limit: usize = if wanted < 0 {
            DEFAULT_PEERS
        } else if wanted <= 200 {
            wanted as usize
        } else {
            MAX_PEERS
        };
        let port: u16 = match read_u16(packet, 96) {
            Some(port) => port,
            None => 0,
        };
        if port == 0 {
            return error_response(transaction_id, "invalid peer port");
        }
        let peer = Peer { peer_id, ip, port, left, last_seen: now };
        let stats: SwarmStats = state.announce(info_hash, peer, event);
        let peers: Vec<Peer> = state.peers(&info_hash, &peer_id, limit);
        metrics.announce("udp", event_name(event));
        metrics.set_population(state.peer_count(), state.swarm_count());
        metrics.request("udp", "announce", "ok");

        let mut response: Vec<u8> = Vec::new();
        push_u32(&mut response, ACTION_ANNOUNCE);
        push_u32(&mut response, transaction_id);
        push_u32(&mut response, self.announce_interval);
        push_u32(&mut response, stats.incomplete as u32);
        push_u32(&mut response, stats.complete as u32);
        append_compact_peers(&mut response, &peers, &ip);
        assert(response@ =~= announce_reply(
            transaction_id,
            self.announce_interval,
            stats,
            peers@,
            ip,
        ));
        response
    }

    /// Answers a scrape.
    fn scrape(
        &self,
        packet: &[u8],
        ip: IpAddress,
        now: u64,
        transaction_id: u32,
        state: &TrackerState,
        metrics: &mut AppMetrics,
    ) -> (reply: Vec<u8>)
        requires
            packet@.len() >= 16,
            transaction_id == u32_at(packet@, 12),
            state.valid(),
            old(metrics).valid(),
        ensures
            final(metrics).valid(),
            self.scraped(packet@, ip, now, state@, old(metrics)@) == (UdpOutcome {
                reply: reply@,
                state: state@,
                metrics: final(metrics)@,
            }),
    {
        if packet.len() < 36 || (packet.len() - 16) % 20 != 0 || !self.valid_connection(
            packet,
            &ip,
            now,
        ) {
            metrics.request("udp", "scrape", "invalid");
            return error_response(transaction_id, "invalid scrape request");
        }
        let mut response: Vec<u8> = Vec::new();
        push_u32(&mut response, ACTION_SCRAPE);
        push_u32(&mut response, transaction_id);
        let count: usize = (packet.len() - 16) / 20;
        let mut index: usize = 0;
        let ghost head = response@;
        assert(head + Seq::<u8>::empty() =~= head);
        while index < count
            invariant
                state.valid(),
                0 <= index <= count,
                16 + 20 * count == packet@.len(),
                packet@.len() <= usize::MAX,
                response@ == head + scrape_entries(state@, packet@, index as nat),
            decreases count - index,
        {
            let ghost before = response@;
            let offset: usize = 16 + 20 * index;
            if let Some(info_hash) = slice_array(packet, offset) {
                let stats: SwarmStats = state.stats(&info_hash);
                push_u32(&mut response, stats.complete as u32);
                push_u32(&mut response, stats.downloaded as u32);
                push_u32(&mut response, stats.incomplete as u32);
                assert(response@ =~= head + scrape_entries(state@, packet@, (index + 1) as nat));
            }
            index = index + 1;
        }
        metrics.request("udp", "scrape", "ok");
        assert(response@ =~= scrape_reply(state@, packet@, transaction_id));
        response
    }

    /// Whether a packet carries a connection identifier that was given out to
    /// its sender's address in this minute or the one before.
    pub fn valid_connection(&self, packet: &[u8], ip: &IpAddress, now: u64) -> (valid: bool)
        ensures
            valid == self.accepts(packet@, *ip, now),
    {
        let provided: u64 = match read_u64(packet, 0) {
            Some(provided) => provided,
            None => return false,
        };
        let minute: u64 = now / 60;
        provided == self.connection_id(ip, minute) || provided == self.connection_id(
            ip,
            minute.saturating_sub(1),
        )
    }

    /// The connection identifier for an address and a minute.
    pub fn connection_id(&self, ip: &IpAddress, minute: u64) -> (id: u64)
        ensures
            id == self.connection_id_of(*ip, minute),
    {
        let family: u64 = match ip {
            IpAddress::V4(_) => 0,
            IpAddress::V6(_) => 1,
        };
        let mut octets: Vec<u8> = Vec::new();
        push_octets(&mut octets, ip);
        assert(octets@ =~= ip.octets());
        let mut hasher = DefaultHasher::new();
        hasher.write(u64_to_le_bytes(self.connection_secret).as_slice());
        hasher.write(u64_to_le_bytes(family).as_slice());
        hasher.write(octets.as_slice());
        hasher.write(u64_to_le_bytes(minute).as_slice());
        assert(hasher@ =~= seq![
            spec_u64_to_le_bytes(self.connection_secret),
            spec_u64_to_le_bytes(family_number(*ip)),
            ip.octets(),
            spec_u64_to_le_bytes(minute),
        ]);
        hasher.finish()
    }
}

} // verus!
