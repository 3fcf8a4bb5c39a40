//! The HTTP tracker: who may ask, what is asked, and the answers.

pub use crate::payload::{announce_payload, append_peer_list, compact_peers, scrape_payload};
pub use crate::query::{
    first, identifier, optional_number, parse_compact, parse_event, parse_query, percent_decode,
    required_identifier, required_number, ApiError, QueryParams,
};
pub use crate::udp::{event_name, same_address_family};

use crate::address::IpAddress;
use crate::bencode::encode;
use crate::clock::{instant, nanoseconds_since};
use crate::metrics::{AppMetrics, MetricsModel};
use crate::payload::{announce_node, scrape_node};
use crate::query::{
    all_values, bad_request, bytes_of, fault_text, first_value, pairs_of, parsed_compact,
    parsed_event, parsed_identifier, parsed_number, parsed_query, parsed_required_identifier,
    parsed_required_number, Refusal,
};
use crate::rate_limit::RateLimiter;
use crate::scrape_json::{scrape_json, scrape_json_text};
use crate::state::{
    capped, unix_timestamp, AnnounceEvent, InfoHash, Peer, PeerId, SwarmStats, TrackerModel,
    TrackerState,
};
use crate::swarm::listed_peers;
use crate::text::{push_slice, same_bytes, same_text};
use crate::udp::{event_text, DEFAULT_PEERS, MAX_PEERS};
use std::time::Instant;
use subtle::ConstantTimeEq;
use vstd::prelude::*;
use vstd::slice::slice_subrange;
use vstd::utf8::encode_utf8;

verus! {

/// The content type of bencoded replies.
pub const BITTORRENT_CONTENT_TYPE: &'static str = "application/x-bittorrent";

/// `subtle::ConstantTimeEq::ct_eq`, on byte strings: whether they are equal.
/// That the time does not depend on where they differ is not stated.
#[verifier::external_body]
fn constant_time_eq(left: &[u8], right: &[u8]) -> (equal: bool)
    ensures
        equal == (left@ == right@),
{
    bool::from(left.ct_eq(right))
}

/// Whether the authorization header carries the expected token, where one is
/// expected.
pub open spec fn is_authorized(expected: Option<Seq<u8>>, authorization: Option<Seq<u8>>) -> bool {
    match expected {
        None => true,
        Some(token) => authorization == Some(encode_utf8("Bearer "@) + token),
    }
}

/// The bytes of a text, if it is there.
pub open spec fn text_bytes(text: Option<&str>) -> Option<Seq<u8>> {
    match text {
        Some(text) => Some(encode_utf8(text@)),
        None => None,
    }
}

/// The refusal of a request without the expected token.
pub open spec fn unauthorized() -> Refusal {
    Refusal { status: 401, message: "authentication required"@ }
}

/// The refusal of a request over the rate limit.
pub open spec fn over_limit() -> Refusal {
    Refusal { status: 429, message: "rate limit exceeded"@ }
}

/// Checks the authorization header, where a token is expected.
pub fn authenticate(expected: Option<&str>, authorization: Option<&str>) -> (result: Result<
    (),
    ApiError,
>)
    ensures
        result is Ok <==> is_authorized(text_bytes(expected), text_bytes(authorization)),
        result matches Err(error) ==> error@ == unauthorized(),
{
    let token: &[u8] = match expected {
        None => return Ok(()),
        Some(expected) => expected.as_bytes(),
    };
    let mut valid: bool = false;
    if let Some(authorization) = authorization {
        let provided: &[u8] = authorization.as_bytes();
        let prefix: &[u8] = "Bearer ".as_bytes();
        let length: usize = prefix.len();
        if provided.len() >= length && same_bytes(slice_subrange(provided, 0, length), prefix) {
            let rest: &[u8] = slice_subrange(provided, length, provided.len());
            valid = constant_time_eq(rest, token);
            proof {
                assert(provided@ =~= prefix@ + rest@);
                if provided@ == prefix@ + token@ {
                    assert(rest@ =~= token@);
                }
            }
        } else {
            proof {
                if provided@ == prefix@ + token@ {
                    assert(provided@.subrange(0, length as int) =~= prefix@);
                }
            }
        }
    }
    if valid {
        Ok(())
    } else {
        Err(ApiError { status: 401, message: "authentication required".to_owned() })
    }
}

/// Lets a tracker request pass, by its authorization, the clock and the rate
/// limit. A request over the limit is counted.
pub fn tracker_gate(
    expected: Option<&str>,
    authorization: Option<&str>,
    ip: IpAddress,
    rate_limiter: &mut RateLimiter,
    metrics: &mut AppMetrics,
) -> (result: Result<(), ApiError>)
    requires
        old(rate_limiter)@.is_bounded(),
        old(metrics).valid(),
    ensures
        final(rate_limiter)@.is_bounded(),
        final(metrics).valid(),
        !is_authorized(text_bytes(expected), text_bytes(authorization)) ==> {
            &&& result matches Err(error) && error@ == unauthorized()
            &&& final(rate_limiter)@ == old(rate_limiter)@
            &&& final(metrics)@ == old(metrics)@
        },
        is_authorized(text_bytes(expected), text_bytes(authorization)) ==> {
            &&& exists|moment: u128|
                (result is Ok) == #[trigger] old(rate_limiter)@.allows(ip, moment) && final(
                    rate_limiter)@ == old(rate_limiter)@.checked(ip, moment)
            &&& result is Ok ==> final(metrics)@ == old(metrics)@
            &&& result matches Err(error) ==> error@ == over_limit() && final(metrics)@ == old(
                metrics)@.with_request("http"@, "tracker"@, "rate_limited"@)
        },
{
    match authenticate(expected, authorization) {
        Ok(()) => {},
        Err(error) => return Err(error),
    }
    if !rate_limiter.check(ip) {
        metrics.request("http", "tracker", "rate_limited");
        return Err(ApiError { status: 429, message: "rate limit exceeded".to_owned() });
    }
    Ok(())
}

/// What an announce asks.
#[derive(Clone, Copy, Debug)]
pub struct AnnounceRequest {
    pub info_hash: InfoHash,
    pub peer_id: PeerId,
    pub port: u16,
    pub left: u64,
    pub limit: usize,
    pub event: AnnounceEvent,
    pub compact: bool,
}

/// How many peers are listed for the number that was asked for.
pub open spec fn listed_limit(wanted: Option<nat>) -> nat {
    match wanted {
        None => DEFAULT_PEERS as nat,
        Some(count) => if count <= MAX_PEERS {
            count
        } else {
            MAX_PEERS as nat
        },
    }
}

/// What the parameters of an announce ask. The first fault found is the one
/// reported, in the order of the parameters here.
pub open spec fn parsed_announce(pairs: Seq<(Seq<u8>, Seq<u8>)>) -> Result<AnnounceRequest, Refusal> {
    match parsed_required_identifier(pairs, "info_hash"@) {
        Err(refusal) => Err(refusal),
        Ok(info_hash) => match parsed_required_identifier(pairs, "peer_id"@) {
            Err(refusal) => Err(refusal),
            Ok(peer_id) => match parsed_required_number(pairs, "port"@, u16::MAX as nat) {
                Err(refusal) => Err(refusal),
                Ok(port) => match parsed_transfers(pairs) {
                    Err(refusal) => Err(refusal),
                    Ok(left) => match parsed_wishes(pairs) {
                        Err(refusal) => Err(refusal),
                        Ok((limit, event, compact)) => Ok(
                            AnnounceRequest {
                                info_hash,
                                peer_id,
                                port: port as u16,
                                left: left as u64,
                                limit: limit as usize,
                                event,
                                compact,
                            },
                        ),
                    },
                },
            },
        },
    }
}

/// What is left to download; the uploaded and downloaded bytes must be there
/// too.
pub open spec fn parsed_transfers(pairs: Seq<(Seq<u8>, Seq<u8>)>) -> Result<nat, Refusal> {
    match parsed_required_number(pairs, "uploaded"@, u64::MAX as nat) {
        Err(refusal) => Err(refusal),
        Ok(_) => match parsed_required_number(pairs, "downloaded"@, u64::MAX as nat) {
            Err(refusal) => Err(refusal),
            Ok(_) => parsed_required_number(pairs, "left"@, u64::MAX as nat),
        },
    }
}

/// How many peers are asked for, the event, and whether compact peers are asked
/// for.
pub open spec fn parsed_wishes(pairs: Seq<(Seq<u8>, Seq<u8>)>) -> Result<
    (nat, AnnounceEvent, bool),
    Refusal,
> {
    match parsed_number(pairs, "numwant"@, usize::MAX as nat) {
        Err(refusal) => Err(refusal),
        Ok(wanted) => match parsed_event(first_value(pairs, encode_utf8("event"@))) {
            Err(refusal) => Err(refusal),
            Ok(event) => match parsed_compact(first_value(pairs, encode_utf8("compact"@))) {
                Err(refusal) => Err(refusal),
                Ok(compact) => Ok((listed_limit(wanted), event, compact)),
            },
        },
    }
}

/// Reads the parameters of an announce.
pub fn parse_announce(params: &QueryParams) -> (result: Result<AnnounceRequest, ApiError>)
    ensures
        crate::query::reports(result, parsed_announce(pairs_of(params@))),
{
    let info_hash: InfoHash = match required_identifier(params, "info_hash") {
        Ok(info_hash) => info_hash,
        Err(error) => return Err(error),
    };
    let peer_id: PeerId = match required_identifier(params, "peer_id") {
        Ok(peer_id) => peer_id,
        Err(error) => return Err(error),
    };
    let port: u16 = match required_number::<u16>(params, "port") {
        Ok(port) => port,
        Err(error) => return Err(error),
    };
    let _uploaded: u64 = match required_number::<u64>(params, "uploaded") {
        Ok(uploaded) => uploaded,
        Err(error) => return Err(error),
    };
    let _downloaded: u64 = match required_number::<u64>(params, "downloaded") {
        Ok(downloaded) => downloaded,
        Err(error) => return Err(error),
    };
    let left: u64 = match required_number::<u64>(params, "left") {
        Ok(left) => left,
        Err(error) => return Err(error),
    };
    let limit: usize = match optional_number::<usize>(params, "numwant") {
        Ok(Some(wanted)) => if wanted <= MAX_PEERS {
            wanted
        } else {
            MAX_PEERS
        },
        Ok(None) => DEFAULT_PEERS,
        Err(error) => return Err(error),
    };
    let event: AnnounceEvent = match parse_event(first(params, "event")) {
        Ok(event) => event,
        Err(error) => return Err(error),
    };
    let compact: bool = match parse_compact(first(params, "compact")) {
        Ok(compact) => compact,
        Err(error) => return Err(error),
    };
    Ok(AnnounceRequest { info_hash, peer_id, port, left, limit, event, compact })
}

/// What a tracker request leads to.
pub struct HttpOutcome {
    pub reply: Result<Seq<u8>, Refusal>,
    pub state: TrackerModel,
    pub metrics: MetricsModel,
}

/// What the query string of an announce asks.
pub open spec fn requested_announce(query: Seq<char>) -> Result<AnnounceRequest, Refusal> {
    match parsed_query(encode_utf8(query), 0) {
        Err(fault) => Err(bad_request(fault_text(fault))),
        Ok(pairs) => parsed_announce(pairs),
    }
}

/// The peer that an announce describes.
pub open spec fn requesting_peer(request: AnnounceRequest, ip: IpAddress, now: u64) -> Peer {
    Peer {
        peer_id: request.peer_id,
        ip,
        port: request.port,
        left: request.left,
        last_seen: now,
    }
}

/// What an announce leads to. A malformed one changes nothing.
pub open spec fn announced(
    query: Seq<char>,
    ip: IpAddress,
    interval: u32,
    now: u64,
    state: TrackerModel,
    metrics: MetricsModel,
) -> HttpOutcome {
    match requested_announce(query) {
        Err(refusal) => HttpOutcome { reply: Err(refusal), state, metrics },
        Ok(request) => {
            let peer = requesting_peer(request, ip, now);
            let after = state.announced(request.info_hash, peer, request.event);
            let torrent = after.torrent(request.info_hash);
            HttpOutcome {
                reply: Ok(
                    encode(
                        announce_node(
                            torrent.stats(),
                            listed_peers(torrent.peers, request.peer_id, request.limit as nat),
                            ip,
                            interval,
                            request.compact,
                        ),
                    ),
                ),
                state: after,
                metrics: metrics.with_event("http"@, event_text(request.event)).with_population(
                    after.population().0,
                    after.population().1,
                ).with_request("http"@, "announce"@, "ok"@),
            }
        },
    }
}

/// Whether a reply, the torrents and the counts are those of an outcome.
pub open spec fn leads_to(
    reply: Result<Vec<u8>, ApiError>,
    state: TrackerModel,
    metrics: MetricsModel,
    outcome: HttpOutcome,
) -> bool {
    &&& match (reply, outcome.reply) {
        (Ok(body), Ok(wanted)) => body@ == wanted,
        (Err(error), Err(refusal)) => error@ == refusal,
        _ => false,
    }
    &&& state == outcome.state
    &&& metrics == outcome.metrics
}

/// The query string, which may be missing.
pub open spec fn query_text(query: Option<&str>) -> Seq<char> {
    match query {
        Some(query) => query@,
        None => ""@,
    }
}

/// Sets the number of peers and swarms that is shown.
pub fn update_population(state: &TrackerState, metrics: &mut AppMetrics)
    requires
        state.valid(),
        old(metrics).valid(),
    ensures
        final(metrics).valid(),
        final(metrics)@ == old(metrics)@.with_population(
            state@.population().0,
            state@.population().1,
        ),
{
    metrics.set_population(state.peer_count(), state.swarm_count());
}

/// Answers an announce that was let pass, by the clock.
pub fn announce(
    query: Option<&str>,
    ip: IpAddress,
    interval: u32,
    state: &mut TrackerState,
    metrics: &mut AppMetrics,
) -> (reply: Result<Vec<u8>, ApiError>)
    requires
        old(state).valid(),
        old(metrics).valid(),
    ensures
        final(state).valid(),
        final(metrics).valid(),
        exists|now: u64|
            leads_to(
                reply,
                final(state)@,
                final(metrics)@,
                #[trigger] announced(
                    query_text(query),
                    ip,
                    interval,
                    now,
                    old(state)@,
                    old(metrics)@,
                ),
            ),
{
    let now: u64 = unix_timestamp();
    announce_at(query, ip, interval, now, state, metrics)
}

/// Answers an announce that was let pass, at second `now`.
pub fn announce_at(
    query: Option<&str>,
    ip: IpAddress,
    interval: u32,
    now: u64,
    state: &mut TrackerState,
    metrics: &mut AppMetrics,
) -> (reply: Result<Vec<u8>, ApiError>)
    requires
        old(state).valid(),
        old(metrics).valid(),
    ensures
        final(state).valid(),
        final(metrics).valid(),
        leads_to(
            reply,
            final(state)@,
            final(metrics)@,
            announced(query_text(query), ip, interval, now, old(state)@, old(metrics)@),
        ),
{
    let text: &str = match query {
        Some(query) => query,
        None => "",
    };
    let params: QueryParams = match parse_query(text) {
        Ok(params) => params,
        Err(error) => return Err(error),
    };
    let request: AnnounceRequest = match parse_announce(&params) {
        Ok(request) => request,
        Err(error) => return Err(error),
    };
    let peer = Peer {
        peer_id: request.peer_id,
        ip,
        port: request.port,
        left: request.left,
        last_seen: now,
    };
    let stats: SwarmStats = state.announce(request.info_hash, peer, request.event);
    let peers: Vec<Peer> = state.peers(&request.info_hash, &request.peer_id, request.limit);
    metrics.announce("http", event_name(request.event));
    update_population(state, metrics);
    metrics.request("http", "announce", "ok");
    Ok(announce_payload(stats, &peers, ip, interval, request.compact))
}

/// The forms in which a scrape is answered.
#[derive(Clone, Copy, Debug, Eq, PartialEq, Structural)]
pub enum ScrapeFormat {
    Bencode,
    Json,
}

/// The form that a parameter asks for: JSON by its name, and bencode in every
/// other case.
pub open spec fn parsed_format(value: Option<Seq<u8>>) -> ScrapeFormat {
    if value == Some(encode_utf8("json"@)) {
        ScrapeFormat::Json
    } else {
        ScrapeFormat::Bencode
    }
}

/// Reads the form of a scrape.
pub fn parse_format(value: Option<&[u8]>) -> (format: ScrapeFormat)
    ensures
        format == parsed_format(bytes_of(value)),
{
    match value {
        Some(name) => if same_bytes(name, "json".as_bytes()) {
            ScrapeFormat::Json
        } else {
            ScrapeFormat::Bencode
        },
        None => ScrapeFormat::Bencode,
    }
}

/// The identifiers that values must be. The first that is none is reported.
pub open spec fn parsed_hashes(values: Seq<Seq<u8>>) -> Result<Seq<InfoHash>, Refusal>
    decreases values.len(),
{
    if values.len() == 0 {
        Ok(Seq::empty())
    } else {
        match parsed_hashes(values.drop_last()) {
            Err(refusal) => Err(refusal),
            Ok(before) => match parsed_identifier(values.last(), "info_hash"@) {
                Err(refusal) => Err(refusal),
                Ok(info_hash) => Ok(before.push(info_hash)),
            },
        }
    }
}

/// What the query string of a scrape asks: the torrents that it names, or none
/// where it asks for all, and the form of the reply.
pub open spec fn requested_scrape(query: Seq<char>) -> Result<
    (Option<Seq<InfoHash>>, ScrapeFormat),
    Refusal,
> {
    match parsed_query(encode_utf8(query), 0) {
        Err(fault) => Err(bad_request(fault_text(fault))),
        Ok(pairs) => {
            let values = all_values(pairs, encode_utf8("info_hash"@));
            match parsed_hashes(values) {
                Err(refusal) => Err(refusal),
                Ok(hashes) => Ok(
                    (
                        if values.len() == 0 {
                            None
                        } else {
                            Some(hashes)
                        },
                        parsed_format(first_value(pairs, encode_utf8("format"@))),
                    ),
                ),
            }
        },
    }
}

/// Reads the torrents that a scrape names.
fn scraped_hashes(params: &QueryParams) -> (result: Result<Vec<InfoHash>, ApiError>)
    ensures
        match (result, parsed_hashes(all_values(pairs_of(params@), encode_utf8("info_hash"@)))) {
            (Ok(hashes), Ok(wanted)) => hashes@ == wanted,
            (Err(error), Err(refusal)) => error@ == refusal,
            _ => false,
        },
        result matches Ok(hashes) ==> hashes@.len() == all_values(
            pairs_of(params@),
            encode_utf8("info_hash"@),
        ).len(),
{
    let ghost key = encode_utf8("info_hash"@);
    let ghost pairs = pairs_of(params@);
    let mut hashes: Vec<InfoHash> = Vec::new();
    let mut index: usize = 0;
    assert(pairs.take(0) =~= Seq::<(Seq<u8>, Seq<u8>)>::empty());
    while index < params.len()
        invariant
            0 <= index <= params@.len(),
            pairs == pairs_of(params@),
            key == encode_utf8("info_hash"@),
            parsed_hashes(all_values(pairs.take(index as int), key)) == Ok::<
                Seq<InfoHash>,
                Refusal,
            >(hashes@),
            hashes@.len() == all_values(pairs.take(index as int), key).len(),
        decreases params@.len() - index,
    {
        let ghost next = pairs.take(index + 1);
        proof {
            assert(next.drop_last() =~= pairs.take(index as int));
            assert(next.last() == (params@[index as int].0@, params@[index as int].1@));
        }
        if same_bytes(params[index].0.as_slice(), "info_hash".as_bytes()) {
            let ghost before = all_values(pairs.take(index as int), key);
            assert(all_values(next, key).drop_last() =~= before);
            match identifier(params[index].1.as_slice(), "info_hash") {
                Ok(info_hash) => hashes.push(info_hash),
                Err(error) => {
                    proof {
                        lemma_fault_stays(pairs, key, index + 1);
                    }
                    return Err(error);
                },
            }
        }
        index = index + 1;
    }
    assert(pairs.take(index as int) =~= pairs);
    Ok(hashes)
}

/// A fault among the first parameters is a fault of all.
proof fn lemma_fault_stays(pairs: Seq<(Seq<u8>, Seq<u8>)>, key: Seq<u8>, count: int)
    requires
        0 <= count <= pairs.len(),
        parsed_hashes(all_values(pairs.take(count), key)) is Err,
    ensures
        parsed_hashes(all_values(pairs, key)) == parsed_hashes(all_values(pairs.take(count), key)),
    decreases pairs.len() - count,
{
    if count == pairs.len() {
        assert(pairs.take(count) =~= pairs);
    } else {
        let next = pairs.take(count + 1);
        assert(next.drop_last() =~= pairs.take(count));
        if next.last().0 == key {
            assert(all_values(next, key).drop_last() =~= all_values(pairs.take(count), key));
        }
        lemma_fault_stays(pairs, key, count + 1);
    }
}

/// Whether info hashes are all that the tracker counts, each once.
pub open spec fn lists_all(hashes: Seq<InfoHash>, state: TrackerModel) -> bool {
    hashes.no_duplicates() && hashes.to_set() == state.known()
}

/// Whether a payload is the reply to a scrape of all torrents.
pub open spec fn is_full_scrape(payload: Seq<u8>, state: TrackerModel) -> bool {
    exists|hashes: Seq<InfoHash>| #[trigger]
        lists_all(hashes, state) && payload == encode(scrape_node(state, hashes))
}

/// A reply to a scrape of all torrents that was kept.
pub struct CachedScrape {
    pub revision: u64,
    pub stored_at: u128,
    pub payload: Vec<u8>,
}

/// For how long a kept reply is used, in nanoseconds.
pub const CACHE_NANOSECONDS: u128 = 5_000_000_000;

/// The last reply to a scrape of all torrents.
pub struct ScrapeCache {
    entry: Option<CachedScrape>,
    started_at: Instant,
}

/// A kept reply as plain values: the revision of the torrents that it was built
/// from, when it was stored, and its bytes.
pub type KeptReply = Option<(u64, u128, Seq<u8>)>;

impl View for ScrapeCache {
    type V = KeptReply;

    closed spec fn view(&self) -> KeptReply {
        match self.entry {
            Some(entry) => Some((entry.revision, entry.stored_at, entry.payload@)),
            None => None,
        }
    }
}

/// Whether a kept reply can be used: no torrent has changed since, and it is no
/// older than five seconds.
pub open spec fn is_usable(kept: KeptReply, state: TrackerModel, moment: u128) -> bool {
    match kept {
        Some((revision, stored_at, _)) => revision == state.revision && stored_at <= moment && moment
            - stored_at < CACHE_NANOSECONDS,
        None => false,
    }
}

/// Whether a kept reply was built from these torrents, or from earlier ones.
pub open spec fn is_true_to(kept: KeptReply, state: TrackerModel) -> bool {
    match kept {
        Some((revision, _, payload)) => revision <= state.revision && (revision == state.revision
            ==> is_full_scrape(payload, state)),
        None => true,
    }
}

impl Default for ScrapeCache {
    /// A cache without a reply.
    fn default() -> (cache: Self)
        ensures
            cache@ is None,
    {
        ScrapeCache { entry: None, started_at: instant() }
    }
}

impl ScrapeCache {
    /// The reply to a scrape of all torrents, by the clock.
    pub fn full_scrape(&mut self, state: &TrackerState) -> (payload: Vec<u8>)
        requires
            state.valid(),
            is_true_to(old(self)@, state@),
        ensures
            is_full_scrape(payload@, state@),
            is_true_to(final(self)@, state@),
    {
        let moment: u128 = nanoseconds_since(&self.started_at);
        self.full_scrape_at(state, moment)
    }

    /// The reply to a scrape of all torrents at a moment, in nanoseconds since
    /// the cache was made. A usable reply is given again; otherwise a new one is
    /// built and kept.
    pub fn full_scrape_at(&mut self, state: &TrackerState, moment: u128) -> (payload: Vec<u8>)
        requires
            state.valid(),
            is_true_to(old(self)@, state@),
        ensures
            is_full_scrape(payload@, state@),
            is_true_to(final(self)@, state@),
            is_usable(old(self)@, state@, moment) ==> final(self)@ == old(self)@ && (old(
                self)@ matches Some(kept) && payload@ == kept.2),
            !is_usable(old(self)@, state@, moment) ==> final(self)@ == Some(
                (state@.revision, moment, payload@),
            ),
    {
        let revision: u64 = state.revision();
        if let Some(entry) = &self.entry {
            if entry.revision == revision && entry.stored_at <= moment && moment - entry.stored_at
                < CACHE_NANOSECONDS {
                let mut payload: Vec<u8> = Vec::new();
                push_slice(&mut payload, entry.payload.as_slice());
                assert(payload@ =~= entry.payload@);
                return payload;
            }
        }
        let hashes: Vec<InfoHash> = state.info_hashes();
        assert(lists_all(hashes@, state@));
        let payload: Vec<u8> = scrape_payload(state, &hashes);
        let mut kept: Vec<u8> = Vec::new();
        push_slice(&mut kept, payload.as_slice());
        assert(kept@ =~= payload@);
        self.entry = Some(CachedScrape { revision, stored_at: moment, payload: kept });
        payload
    }
}

/// The body of a scrape in the form that was asked for.
pub open spec fn formatted(
    state: TrackerModel,
    hashes: Seq<InfoHash>,
    format: ScrapeFormat,
) -> Seq<u8> {
    match format {
        ScrapeFormat::Bencode => encode(scrape_node(state, hashes)),
        ScrapeFormat::Json => scrape_json_text(state, hashes),
    }
}

/// Answers a scrape that was let pass. A malformed one changes nothing. Without
/// named torrents the reply lists all that the tracker counts.
pub fn scrape(
    query: Option<&str>,
    state: &TrackerState,
    cache: &mut ScrapeCache,
    metrics: &mut AppMetrics,
) -> (reply: Result<(ScrapeFormat, Vec<u8>), ApiError>)
    requires
        state.valid(),
        old(metrics).valid(),
        is_true_to(old(cache)@, state@),
    ensures
        final(metrics).valid(),
        is_true_to(final(cache)@, state@),
        match requested_scrape(query_text(query)) {
            Err(refusal) => reply matches Err(error) && error@ == refusal && final(metrics)@ == old(
                metrics)@ && final(cache)@ == old(cache)@,
            Ok((Some(hashes), format)) => reply matches Ok((chosen, body)) && chosen == format
                && body@ == formatted(state@, hashes, format) && final(metrics)@ == old(
                metrics)@.with_request("http"@, "scrape"@, "ok"@) && final(cache)@ == old(cache)@,
            Ok((None, format)) => reply matches Ok((chosen, body)) && chosen == format && (
            exists|hashes: Seq<InfoHash>| #[trigger]
                lists_all(hashes, state@) && body@ == formatted(state@, hashes, format)) && final(
                metrics)@ == old(metrics)@.with_request("http"@, "scrape"@, "ok"@),
        },
{
    let text: &str = match query {
        Some(query) => query,
        None => "",
    };
    let params: QueryParams = match parse_query(text) {
        Ok(params) => params,
        Err(error) => return Err(error),
    };
    let hashes: Vec<InfoHash> = match scraped_hashes(&params) {
        Ok(hashes) => hashes,
        Err(error) => return Err(error),
    };
    let format: ScrapeFormat = parse_format(first(&params, "format"));
    metrics.request("http", "scrape", "ok");
    let payload: Vec<u8> = if hashes.len() == 0 {
        cache.full_scrape(state)
    } else {
        scrape_payload(state, &hashes)
    };
    match format {
        ScrapeFormat::Bencode => Ok((format, payload)),
        ScrapeFormat::Json => {
            let ghost listed: Seq<InfoHash> = if hashes@.len() == 0 {
                choose|listed: Seq<InfoHash>| #[trigger]
                    lists_all(listed, state@) && payload@ == encode(scrape_node(state@, listed))
            } else {
                hashes@
            };
            let body: Option<Vec<u8>> = scrape_json(payload.as_slice());
            proof {
                crate::scrape_json::law_scrape_payload_becomes_json(state@, listed);
            }
            match body {
                Some(body) => Ok((format, body)),
                None => Err(ApiError::internal("scrape payload is unreadable".to_owned())),
            }
        },
    }
}

/// The kind of traffic that requests for a path are counted as.
pub open spec fn path_traffic(path: Seq<char>) -> Seq<char> {
    if path == "/announce"@ || path == "/scrape"@ {
        "torrent_http"@
    } else {
        "web_http"@
    }
}

/// The kind of traffic that requests for a path are counted as.
pub fn traffic_label(path: &str) -> (label: &'static str)
    ensures
        label@ == path_traffic(path@),
{
    if same_text(path, "/announce") || same_text(path, "/scrape") {
        "torrent_http"
    } else {
        "web_http"
    }
}

/// The HTTP status and the texts of a health report.
pub fn health_report(healthy: bool) -> (report: (u16, &'static str, &'static str))
    ensures
        healthy ==> report.0 == 200 && report.1@ == "ok"@ && report.2@ == "ok"@,
        !healthy ==> report.0 == 503 && report.1@ == "degraded"@ && report.2@ == "unavailable"@,
{
    if healthy {
        (200, "ok", "ok")
    } else {
        (503, "degraded", "unavailable")
    }
}

/// The periods of the statistics.
#[derive(Clone, Copy, Debug, Eq, PartialEq, Structural)]
pub enum Period {
    Day,
    Week,
    Month,
}

/// The period that a parameter asks for: a week or a month by its name, and a
/// day in every other case.
pub open spec fn parsed_period(value: Option<Seq<u8>>) -> Period {
    if value == Some(encode_utf8("week"@)) {
        Period::Week
    } else if value == Some(encode_utf8("month"@)) {
        Period::Month
    } else {
        Period::Day
    }
}

/// Reads the period of the statistics.
pub fn parse_period(value: Option<&[u8]>) -> (period: Period)
    ensures
        period == parsed_period(bytes_of(value)),
{
    match value {
        Some(name) => if same_bytes(name, "week".as_bytes()) {
            Period::Week
        } else if same_bytes(name, "month".as_bytes()) {
            Period::Month
        } else {
            Period::Day
        },
        None => Period::Day,
    }
}

/// The period that a query asks for. The statistics are never refused: a
/// malformed query asks for a day.
pub open spec fn query_period(query: Seq<char>) -> Period {
    match parsed_query(encode_utf8(query), 0) {
        Ok(pairs) => parsed_period(first_value(pairs, encode_utf8("period"@))),
        Err(_) => Period::Day,
    }
}

/// The period that a query asks for.
pub fn requested_period(query: Option<&str>) -> (period: Period)
    ensures
        period == query_period(query_text(query)),
{
    let text: &str = match query {
        Some(query) => query,
        None => "",
    };
    match parse_query(text) {
        Ok(params) => parse_period(first(&params, "period")),
        Err(_) => Period::Day,
    }
}

impl Period {
    /// How many days the period has.
    pub open spec fn length(self) -> u64 {
        match self {
            Period::Day => 1,
            Period::Week => 7,
            Period::Month => 30,
        }
    }

    /// How many days the period has.
    pub fn days(self) -> (days: u64)
        ensures
            days == self.length(),
    {
        match self {
            Period::Day => 1,
            Period::Week => 7,
            Period::Month => 30,
        }
    }

    /// How many seconds one point of the period's history stands for: a minute
    /// for each of its days, so that every history has about as many points.
    pub fn bucket_seconds(self) -> (seconds: u64)
        ensures
            seconds == self.length() * 60,
    {
        self.days() * 60
    }
}

/// The lengths of the header fields' names and values in all.
pub open spec fn header_bytes(headers: Seq<(usize, usize)>) -> nat
    decreases headers.len(),
{
    if headers.len() == 0 {
        0
    } else {
        header_bytes(headers.drop_last()) + headers.last().0 as nat + headers.last().1 as nat
    }
}

/// How many bytes a request has in front of its body: those of its method, its
/// target, and its header fields' names and values. The largest word stands for
/// anything larger.
pub fn metadata_bytes(method: usize, target: usize, headers: &Vec<(usize, usize)>) -> (bytes: usize)
    ensures
        bytes == capped(method as nat + target as nat + header_bytes(headers@), usize::MAX as nat),
{
    let mut bytes: usize = method.saturating_add(target);
    let mut index: usize = 0;
    while index < headers.len()
        invariant
            0 <= index <= headers@.len(),
            bytes == capped(
                method as nat + target as nat + header_bytes(headers@.take(index as int)),
                usize::MAX as nat,
            ),
        decreases headers@.len() - index,
    {
        assert(headers@.take(index + 1).drop_last() =~= headers@.take(index as int));
        bytes = bytes.saturating_add(headers[index].0).saturating_add(headers[index].1);
        index = index + 1;
    }
    assert(headers@.take(index as int) =~= headers@);
    bytes
}

/// The largest request body that is read.
pub const MAX_REQUEST_BYTES: usize = 1_048_576;

/// The reply to a request whose body is larger.
pub const REQUEST_TOO_LARGE: &'static str = "request body too large";

/// What is counted as received and as sent for one exchange: of a request whose
/// body was not read only what stands in front of it, and the length of the
/// refusal.
pub fn exchange_bytes(metadata: usize, request_body: Option<usize>, response_body: usize) -> (bytes:
    (usize, usize))
    ensures
        match request_body {
            None => bytes.0 == metadata && bytes.1 == REQUEST_TOO_LARGE@.len(),
            Some(length) => bytes.0 == capped(metadata as nat + length as nat, usize::MAX as nat)
                && bytes.1 == response_body,
        },
{
    proof {
        reveal_strlit("request body too large");
    }
    match request_body {
        None => (metadata, 22),
        Some(length) => (metadata.saturating_add(length), response_body),
    }
}

} // verus!
