//! What is saved of the tracker, and how it is restored: the rows of the
//! database as plain values.

use crate::address::{ip_octets_of, ip_with, lemma_ip_with, parse_ip, push_ip, IpAddress};
use crate::metrics::TrafficSnapshot;
use crate::state::{
    InfoHash, Peer, PeerId, TorrentChange, TrackerModel, TrackerState, TrackerSummary,
};
use crate::swarm::{count_seeders, lemma_seeders_bound, seeders};
use crate::text::{decimal_chars, numbered, same_text, utf8_text};
use crate::wire::{identifier_at, slice_array};
use vstd::prelude::*;
use vstd::utf8::encode_utf8;

verus! {

/// The population of the tracker at one time.
#[derive(Clone, Copy, Debug, Eq, PartialEq)]
pub struct MetricPoint {
    pub timestamp: u64,
    pub peers: usize,
    pub seeders: usize,
    pub leechers: usize,
    pub torrents: usize,
    pub completed: u64,
}

/// The traffic of one day.
#[derive(Clone, Debug, Eq, PartialEq)]
pub struct TrafficPoint {
    pub day: String,
    pub ingress_bytes: u64,
    pub egress_bytes: u64,
}

/// How often a client announced itself.
#[derive(Clone, Debug, Eq, PartialEq)]
pub struct ClientStatistic {
    pub client_name: String,
    pub peer_count: u64,
}

/// The saved statistics of a torrent.
#[derive(Clone, Copy, Debug, Eq, PartialEq)]
pub struct TorrentStatistic {
    pub info_hash: InfoHash,
    pub peers: usize,
    pub seeders: usize,
    pub leechers: usize,
    pub downloaded: u64,
}

/// The population and traffic of a period, and the traffic's totals.
#[derive(Clone, Debug, Eq, PartialEq)]
pub struct DashboardHistory {
    pub metrics: Vec<MetricPoint>,
    pub traffic: Vec<TrafficPoint>,
    pub total_ingress_bytes: u64,
    pub total_egress_bytes: u64,
}

/// A saved row that cannot be restored.
#[derive(Debug)]
pub enum PersistenceError {
    InvalidAddress,
    InvalidIdentifier { field: &'static str, actual: usize },
}

/// A row that cannot be restored, as plain values.
pub enum PersistenceFault {
    InvalidAddress,
    InvalidIdentifier { field: Seq<char>, actual: nat },
}

impl View for PersistenceError {
    type V = PersistenceFault;

    open spec fn view(&self) -> PersistenceFault {
        match self {
            PersistenceError::InvalidAddress => PersistenceFault::InvalidAddress,
            PersistenceError::InvalidIdentifier { field, actual } =>
                PersistenceFault::InvalidIdentifier { field: field@, actual: *actual as nat },
        }
    }
}

/// The text for a row that cannot be restored.
pub open spec fn persistence_text(fault: PersistenceFault) -> Seq<char> {
    match fault {
        PersistenceFault::InvalidAddress =>
            "invalid persisted peer address: invalid IP address syntax"@,
        PersistenceFault::InvalidIdentifier { field, actual } => "invalid persisted "@ + field
            + " length: expected 20 bytes, got "@ + decimal_chars(actual),
    }
}

impl PersistenceError {
    /// The text for this refusal.
    pub fn message(&self) -> (message: String)
        ensures
            message@ == persistence_text(self@),
    {
        match self {
            PersistenceError::InvalidAddress =>
                "invalid persisted peer address: invalid IP address syntax".to_owned(),
            PersistenceError::InvalidIdentifier { field, actual } => {
                let mut message: String = "invalid persisted ".to_owned();
                message.append(field);
                message.append(" length: expected 20 bytes, got ");
                crate::text::append_decimal(&mut message, *actual as u64);
                message
            },
        }
    }
}

/// A saved number, where one below zero counts as zero.
pub open spec fn positive(value: int) -> nat {
    if value > 0 {
        value as nat
    } else {
        0
    }
}

/// A number as it is saved: the largest that the database holds stands for
/// anything larger.
pub open spec fn saved(value: nat) -> int {
    if value <= i64::MAX {
        value as int
    } else {
        i64::MAX as int
    }
}

/// A saved number, where one below zero counts as zero.
pub fn positive_i64(value: i64) -> (number: u64)
    ensures
        number == positive(value as int),
{
    if value > 0 {
        value as u64
    } else {
        0
    }
}

/// A number as it is saved.
pub fn sqlite_integer(value: u64) -> (number: i64)
    ensures
        number == saved(value as nat),
{
    if value <= i64::MAX as u64 {
        value as i64
    } else {
        i64::MAX
    }
}

/// Numbers that the database holds are restored as they were.
pub proof fn law_saved_numbers_are_restored(value: nat)
    requires
        value <= i64::MAX,
    ensures
        positive(saved(value)) == value,
{
}

/// Restores a 20-byte identifier.
pub fn identifier(bytes: &Vec<u8>, field: &'static str) -> (result: Result<
    [u8; 20],
    PersistenceError,
>)
    ensures
        match result {
            Ok(identifier) => bytes@.len() == 20 && identifier@ == bytes@,
            Err(error) => bytes@.len() != 20 && error@ == (PersistenceFault::InvalidIdentifier {
                field: field@,
                actual: bytes@.len(),
            }),
        },
{
    let actual: usize = bytes.len();
    if actual == 20 {
        if let Some(identifier) = slice_array(bytes.as_slice(), 0) {
            assert(bytes@.subrange(0, 20) =~= bytes@);
            return Ok(identifier);
        }
    }
    Err(PersistenceError::InvalidIdentifier { field, actual })
}

/// A saved torrent.
#[derive(Debug)]
pub struct SwarmRow {
    pub info_hash: Vec<u8>,
    pub downloaded: i64,
}

/// A saved peer.
#[derive(Debug)]
pub struct PeerRow {
    pub info_hash: Vec<u8>,
    pub peer_id: Vec<u8>,
    pub ip: String,
    pub port: i64,
    pub bytes_left: i64,
    pub last_seen: i64,
}

/// A saved peer as plain values.
#[verifier::ext_equal]
pub struct PeerRowModel {
    pub info_hash: Seq<u8>,
    pub peer_id: Seq<u8>,
    pub ip: Seq<char>,
    pub port: int,
    pub bytes_left: int,
    pub last_seen: int,
}

impl View for PeerRow {
    type V = PeerRowModel;

    open spec fn view(&self) -> PeerRowModel {
        PeerRowModel {
            info_hash: self.info_hash@,
            peer_id: self.peer_id@,
            ip: self.ip@,
            port: self.port as int,
            bytes_left: self.bytes_left as int,
            last_seen: self.last_seen as int,
        }
    }
}

/// The torrents once a saved torrent was restored.
pub open spec fn with_swarm_row(state: TrackerModel, info_hash: Seq<u8>, downloaded: int) -> Result<
    TrackerModel,
    PersistenceFault,
> {
    if info_hash.len() == 20 {
        Ok(state.with_downloaded(identifier_at(info_hash, 0), positive(downloaded) as u64))
    } else {
        Err(
            PersistenceFault::InvalidIdentifier {
                field: "info_hash"@,
                actual: info_hash.len(),
            },
        )
    }
}

/// The peer that a row stands for.
pub open spec fn restored_peer(row: PeerRowModel) -> Result<Peer, PersistenceFault> {
    if row.info_hash.len() != 20 {
        Err(
            PersistenceFault::InvalidIdentifier {
                field: "info_hash"@,
                actual: row.info_hash.len(),
            },
        )
    } else if row.peer_id.len() != 20 {
        Err(
            PersistenceFault::InvalidIdentifier { field: "peer_id"@, actual: row.peer_id.len() },
        )
    } else {
        match ip_octets_of(encode_utf8(row.ip)) {
            None => Err(PersistenceFault::InvalidAddress),
            Some(octets) => Ok(
                Peer {
                    peer_id: identifier_at(row.peer_id, 0),
                    ip: ip_with(octets),
                    port: positive(row.port) as u16,
                    left: positive(row.bytes_left) as u64,
                    last_seen: positive(row.last_seen) as u64,
                },
            ),
        }
    }
}

/// The torrents once a saved peer was restored.
pub open spec fn with_peer_row(state: TrackerModel, row: PeerRowModel) -> Result<
    TrackerModel,
    PersistenceFault,
> {
    match restored_peer(row) {
        Err(fault) => Err(fault),
        Ok(peer) => Ok(state.restored(identifier_at(row.info_hash, 0), peer)),
    }
}

/// The torrents once several saved peers were restored, and the first fault,
/// behind which none is restored.
pub open spec fn with_peer_rows(state: TrackerModel, rows: Seq<PeerRowModel>) -> (
    TrackerModel,
    Option<PersistenceFault>,
)
    decreases rows.len(),
{
    if rows.len() == 0 {
        (state, None)
    } else {
        match with_peer_rows(state, rows.drop_last()) {
            (before, Some(fault)) => (before, Some(fault)),
            (before, None) => match with_peer_row(before, rows.last()) {
                Ok(after) => (after, None),
                Err(fault) => (before, Some(fault)),
            },
        }
    }
}

/// The torrents once several saved torrents were restored, and the first fault,
/// behind which none is restored.
pub open spec fn with_swarm_rows(state: TrackerModel, rows: Seq<(Seq<u8>, int)>) -> (
    TrackerModel,
    Option<PersistenceFault>,
)
    decreases rows.len(),
{
    if rows.len() == 0 {
        (state, None)
    } else {
        match with_swarm_rows(state, rows.drop_last()) {
            (before, Some(fault)) => (before, Some(fault)),
            (before, None) => match with_swarm_row(before, rows.last().0, rows.last().1) {
                Ok(after) => (after, None),
                Err(fault) => (before, Some(fault)),
            },
        }
    }
}

/// What a database gives back: first its torrents, then their peers.
pub open spec fn loaded(
    state: TrackerModel,
    swarms: Seq<(Seq<u8>, int)>,
    peers: Seq<PeerRowModel>,
) -> (TrackerModel, Option<PersistenceFault>) {
    match with_swarm_rows(state, swarms) {
        (between, Some(fault)) => (between, Some(fault)),
        (between, None) => with_peer_rows(between, peers),
    }
}

/// Saved torrents as plain values.
pub open spec fn swarm_rows(rows: Seq<SwarmRow>) -> Seq<(Seq<u8>, int)> {
    rows.map_values(|row: SwarmRow| (row.info_hash@, row.downloaded as int))
}

/// Saved peers as plain values.
pub open spec fn peer_rows(rows: Seq<PeerRow>) -> Seq<PeerRowModel> {
    rows.map_values(|row: PeerRow| row@)
}

/// A fault among the first torrents is the fault of all.
proof fn lemma_swarm_fault_stays(state: TrackerModel, rows: Seq<(Seq<u8>, int)>, count: int)
    requires
        0 <= count <= rows.len(),
        with_swarm_rows(state, rows.take(count)).1 is Some,
    ensures
        with_swarm_rows(state, rows) == with_swarm_rows(state, rows.take(count)),
    decreases rows.len() - count,
{
    if count == rows.len() {
        assert(rows.take(count) =~= rows);
    } else {
        assert(rows.take(count + 1).drop_last() =~= rows.take(count));
        lemma_swarm_fault_stays(state, rows, count + 1);
    }
}

/// A fault among the first peers is the fault of all.
proof fn lemma_peer_fault_stays(state: TrackerModel, rows: Seq<PeerRowModel>, count: int)
    requires
        0 <= count <= rows.len(),
        with_peer_rows(state, rows.take(count)).1 is Some,
    ensures
        with_peer_rows(state, rows) == with_peer_rows(state, rows.take(count)),
    decreases rows.len() - count,
{
    if count == rows.len() {
        assert(rows.take(count) =~= rows);
    } else {
        assert(rows.take(count + 1).drop_last() =~= rows.take(count));
        lemma_peer_fault_stays(state, rows, count + 1);
    }
}

/// Restores what was saved. The first row that cannot be restored is reported,
/// and those behind it are not restored.
pub fn load(state: &mut TrackerState, swarms: &Vec<SwarmRow>, peers: &Vec<PeerRow>) -> (result:
    Result<(), PersistenceError>)
    requires
        old(state).valid(),
    ensures
        final(state).valid(),
        final(state)@ == loaded(old(state)@, swarm_rows(swarms@), peer_rows(peers@)).0,
        match result {
            Ok(()) => loaded(old(state)@, swarm_rows(swarms@), peer_rows(peers@)).1 is None,
            Err(error) => loaded(old(state)@, swarm_rows(swarms@), peer_rows(peers@)).1 == Some(
                error@,
            ),
        },
{
    let ghost before = state@;
    let ghost swarm_models = swarm_rows(swarms@);
    let ghost peer_models = peer_rows(peers@);
    let mut index: usize = 0;
    while index < swarms.len()
        invariant
            state.valid(),
            0 <= index <= swarms@.len(),
            swarm_models == swarm_rows(swarms@),
            before == old(state)@,
            peer_models == peer_rows(peers@),
            with_swarm_rows(before, swarm_models.take(index as int)) == (
                state@,
                None::<PersistenceFault>,
            ),
        decreases swarms@.len() - index,
    {
        let ghost next = swarm_models.take(index + 1);
        proof {
            assert(next.drop_last() =~= swarm_models.take(index as int));
            assert(next.last() == (
                swarms@[index as int].info_hash@,
                swarms@[index as int].downloaded as int,
            ));
        }
        match identifier(&swarms[index].info_hash, "info_hash") {
            Ok(info_hash) => {
                proof {
                    assert(info_hash =~= identifier_at(swarms@[index as int].info_hash@, 0));
                }
                state.set_downloaded(info_hash, positive_i64(swarms[index].downloaded));
            },
            Err(error) => {
                proof {
                    lemma_swarm_fault_stays(before, swarm_models, index + 1);
                }
                return Err(error);
            },
        }
        index = index + 1;
    }
    assert(swarm_models.take(index as int) =~= swarm_models);
    let ghost between = state@;
    let mut index: usize = 0;
    while index < peers.len()
        invariant
            state.valid(),
            0 <= index <= peers@.len(),
            peer_models == peer_rows(peers@),
            before == old(state)@,
            swarm_models == swarm_rows(swarms@),
            with_swarm_rows(before, swarm_models) == (between, None::<PersistenceFault>),
            with_peer_rows(between, peer_models.take(index as int)) == (
                state@,
                None::<PersistenceFault>,
            ),
        decreases peers@.len() - index,
    {
        let ghost next = peer_models.take(index + 1);
        proof {
            assert(next.drop_last() =~= peer_models.take(index as int));
            assert(next.last() == peers@[index as int]@);
        }
        match restore_row(state, &peers[index]) {
            Ok(()) => {},
            Err(error) => {
                proof {
                    lemma_peer_fault_stays(between, peer_models, index + 1);
                }
                return Err(error);
            },
        }
        index = index + 1;
    }
    assert(peer_models.take(index as int) =~= peer_models);
    Ok(())
}

/// Restores a saved peer.
fn restore_row(state: &mut TrackerState, row: &PeerRow) -> (result: Result<(), PersistenceError>)
    requires
        old(state).valid(),
    ensures
        final(state).valid(),
        match (result, with_peer_row(old(state)@, row@)) {
            (Ok(()), Ok(after)) => final(state)@ == after,
            (Err(error), Err(fault)) => error@ == fault && final(state)@ == old(state)@,
            _ => false,
        },
{
    let info_hash: InfoHash = match identifier(&row.info_hash, "info_hash") {
        Ok(info_hash) => info_hash,
        Err(error) => return Err(error),
    };
    assert(info_hash =~= identifier_at(row.info_hash@, 0));
    let peer_id: PeerId = match identifier(&row.peer_id, "peer_id") {
        Ok(peer_id) => peer_id,
        Err(error) => return Err(error),
    };
    assert(peer_id =~= identifier_at(row.peer_id@, 0));
    let ip: IpAddress = match parse_ip(row.ip.as_str().as_bytes()) {
        Some(ip) => ip,
        None => return Err(PersistenceError::InvalidAddress),
    };
    proof {
        lemma_ip_with(ip);
    }
    state.restore(
        info_hash,
        Peer {
            peer_id,
            ip,
            port: positive_i64(row.port) as u16,
            left: positive_i64(row.bytes_left),
            last_seen: positive_i64(row.last_seen),
        },
    );
    Ok(())
}

/// The numbers that are saved of a torrent.
#[derive(Clone, Copy, Debug, Eq, PartialEq)]
pub struct SwarmWrite {
    pub peers: i64,
    pub seeders: i64,
    pub leechers: i64,
    pub downloaded: i64,
}

/// What is saved of a peer.
#[derive(Debug, Eq, PartialEq)]
pub struct PeerWrite {
    pub peer_id: PeerId,
    pub ip: String,
    pub port: i64,
    pub bytes_left: i64,
    pub last_seen: i64,
}

impl PeerWrite {
    /// The row that is saved.
    pub open spec fn row(self, info_hash: InfoHash) -> PeerRowModel {
        PeerRowModel {
            info_hash: info_hash@,
            peer_id: self.peer_id@,
            ip: self.ip@,
            port: self.port as int,
            bytes_left: self.bytes_left as int,
            last_seen: self.last_seen as int,
        }
    }

    /// Whether this saves a peer.
    pub open spec fn saves(self, peer: Peer) -> bool {
        &&& self.peer_id == peer.peer_id
        &&& encode_utf8(self.ip@) == peer.ip.text()
        &&& self.port == peer.port
        &&& self.bytes_left == saved(peer.left as nat)
        &&& self.last_seen == saved(peer.last_seen as nat)
    }
}

/// How a torrent is saved: the peers saved before are deleted, and the numbers
/// and peers are written, or the torrent is deleted where there are none.
#[derive(Debug, Eq, PartialEq)]
pub struct TorrentWrite {
    pub info_hash: InfoHash,
    pub swarm: Option<SwarmWrite>,
    pub peers: Vec<PeerWrite>,
}

impl TorrentWrite {
    /// Whether this saves a change.
    pub open spec fn saves(self, change: TorrentChange) -> bool {
        &&& self.info_hash == change.info_hash
        &&& match change.downloaded {
            None => self.swarm is None && self.peers@.len() == 0,
            Some(downloaded) => {
                &&& self.swarm == Some(
                    SwarmWrite {
                        peers: saved(change.peers@.len()) as i64,
                        seeders: saved(seeders(change.peers@)) as i64,
                        leechers: saved((change.peers@.len() - seeders(change.peers@)) as nat)
                            as i64,
                        downloaded: saved(downloaded as nat) as i64,
                    },
                )
                &&& self.peers@.len() == change.peers@.len()
                &&& forall|i: int|
                    0 <= i < self.peers@.len() ==> (#[trigger] self.peers@[i]).saves(
                        change.peers@[i],
                    )
            },
        }
    }
}

/// The text of an address.
fn ip_text(ip: &IpAddress) -> (text: String)
    ensures
        encode_utf8(text@) == ip.text(),
{
    let mut bytes: Vec<u8> = Vec::new();
    push_ip(&mut bytes, ip);
    assert(bytes@ =~= ip.text());
    match utf8_text(bytes.as_slice()) {
        Some(text) => text,
        None => {
            proof {
                crate::address_laws::lemma_address_text_is_plain(*ip);
                assert(false);
            }
            String::new()
        },
    }
}

/// How a changed torrent is saved.
pub fn plan_write(change: &TorrentChange) -> (write: TorrentWrite)
    ensures
        write.saves(*change),
{
    let mut peers: Vec<PeerWrite> = Vec::new();
    let downloaded: u64 = match change.downloaded {
        None => return TorrentWrite { info_hash: change.info_hash, swarm: None, peers },
        Some(downloaded) => downloaded,
    };
    let total: usize = change.peers.len();
    let complete: usize = count_seeders(&change.peers);
    proof {
        lemma_seeders_bound(change.peers@);
    }
    let swarm = SwarmWrite {
        peers: sqlite_integer(total as u64),
        seeders: sqlite_integer(complete as u64),
        leechers: sqlite_integer((total - complete) as u64),
        downloaded: sqlite_integer(downloaded),
    };
    let mut index: usize = 0;
    while index < change.peers.len()
        invariant
            0 <= index <= change.peers@.len(),
            peers@.len() == index,
            forall|i: int| 0 <= i < index ==> (#[trigger] peers@[i]).saves(change.peers@[i]),
        decreases change.peers@.len() - index,
    {
        let peer: Peer = change.peers[index];
        peers.push(
            PeerWrite {
                peer_id: peer.peer_id,
                ip: ip_text(&peer.ip),
                port: peer.port as i64,
                bytes_left: sqlite_integer(peer.left),
                last_seen: sqlite_integer(peer.last_seen),
            },
        );
        index = index + 1;
    }
    TorrentWrite { info_hash: change.info_hash, swarm: Some(swarm), peers }
}

/// How all changes are saved.
pub fn plan_writes(changes: &Vec<TorrentChange>) -> (writes: Vec<TorrentWrite>)
    ensures
        writes@.len() == changes@.len(),
        forall|i: int| 0 <= i < writes@.len() ==> (#[trigger] writes@[i]).saves(changes@[i]),
{
    let mut writes: Vec<TorrentWrite> = Vec::new();
    let mut index: usize = 0;
    while index < changes.len()
        invariant
            0 <= index <= changes@.len(),
            writes@.len() == index,
            forall|i: int| 0 <= i < index ==> (#[trigger] writes@[i]).saves(changes@[i]),
        decreases changes@.len() - index,
    {
        writes.push(plan_write(&changes[index]));
        index = index + 1;
    }
    writes
}

/// The torrents after an attempt to save changes: where they were written they
/// are acknowledged, and otherwise they stay to be saved.
pub open spec fn save_finished(
    model: TrackerModel,
    changes: Seq<TorrentChange>,
    written: bool,
) -> TrackerModel {
    if written {
        model.all_acknowledged(changes)
    } else {
        model
    }
}

/// Ends an attempt to save changes, which were written or not.
pub fn finish_save(state: &mut TrackerState, changes: &Vec<TorrentChange>, written: bool)
    requires
        old(state).valid(),
    ensures
        final(state).valid(),
        final(state)@ == save_finished(old(state)@, changes@, written),
{
    if written {
        state.acknowledge_changes(changes);
    }
}

/// The statistics that a saved row stands for.
pub fn torrent_statistic(
    info_hash: &Vec<u8>,
    peers: i64,
    seeders: i64,
    leechers: i64,
    downloaded: i64,
) -> (result: Result<TorrentStatistic, PersistenceError>)
    ensures
        match result {
            Ok(statistic) => {
                &&& info_hash@.len() == 20
                &&& statistic.info_hash@ == info_hash@
                &&& statistic.peers == positive(peers as int) as usize
                &&& statistic.seeders == positive(seeders as int) as usize
                &&& statistic.leechers == positive(leechers as int) as usize
                &&& statistic.downloaded == positive(downloaded as int)
            },
            Err(error) => info_hash@.len() != 20 && error@ == (
            PersistenceFault::InvalidIdentifier {
                field: "info_hash"@,
                actual: info_hash@.len(),
            }),
        },
{
    match identifier(info_hash, "info_hash") {
        Ok(info_hash) => Ok(
            TorrentStatistic {
                info_hash,
                peers: positive_i64(peers) as usize,
                seeders: positive_i64(seeders) as usize,
                leechers: positive_i64(leechers) as usize,
                downloaded: positive_i64(downloaded),
            },
        ),
        Err(error) => Err(error),
    }
}

/// The statistics of a client that a saved row stands for.
pub fn client_statistic(client_name: String, peer_count: i64) -> (statistic: ClientStatistic)
    ensures
        statistic.client_name@ == client_name@,
        statistic.peer_count == positive(peer_count as int),
{
    ClientStatistic { client_name, peer_count: positive_i64(peer_count) }
}

/// The population that a saved row stands for.
pub fn metric_point(
    recorded_at: i64,
    peers: i64,
    seeders: i64,
    leechers: i64,
    torrents: i64,
    completed: i64,
) -> (point: MetricPoint)
    ensures
        point.timestamp == positive(recorded_at as int),
        point.peers == positive(peers as int) as usize,
        point.seeders == positive(seeders as int) as usize,
        point.leechers == positive(leechers as int) as usize,
        point.torrents == positive(torrents as int) as usize,
        point.completed == positive(completed as int),
{
    MetricPoint {
        timestamp: positive_i64(recorded_at),
        peers: positive_i64(peers) as usize,
        seeders: positive_i64(seeders) as usize,
        leechers: positive_i64(leechers) as usize,
        torrents: positive_i64(torrents) as usize,
        completed: positive_i64(completed),
    }
}

/// The traffic that a saved row stands for.
pub fn traffic_point(day: String, ingress_bytes: i64, egress_bytes: i64) -> (point: TrafficPoint)
    ensures
        point.day@ == day@,
        point.ingress_bytes == positive(ingress_bytes as int),
        point.egress_bytes == positive(egress_bytes as int),
{
    TrafficPoint {
        day,
        ingress_bytes: positive_i64(ingress_bytes),
        egress_bytes: positive_i64(egress_bytes),
    }
}

/// How much traffic was saved so far.
#[derive(Clone, Copy, Debug, Eq, PartialEq)]
pub struct TrafficCheckpoint {
    pub ingress_bytes: u64,
    pub egress_bytes: u64,
}

impl Default for TrafficCheckpoint {
    /// No traffic was saved so far.
    fn default() -> (checkpoint: Self)
        ensures
            checkpoint == (TrafficCheckpoint { ingress_bytes: 0, egress_bytes: 0 }),
    {
        TrafficCheckpoint { ingress_bytes: 0, egress_bytes: 0 }
    }
}

/// What was added since, none where the total is smaller.
pub open spec fn added_since(total: u64, before: u64) -> nat {
    if total >= before {
        (total - before) as nat
    } else {
        0
    }
}

/// What is saved of the population and the traffic at one time.
#[derive(Clone, Copy, Debug, Eq, PartialEq)]
pub struct SnapshotWrite {
    pub recorded_at: i64,
    pub peers: i64,
    pub seeders: i64,
    pub leechers: i64,
    pub torrents: i64,
    pub completed: i64,
    pub uptime_seconds: i64,
    pub ingress_delta: i64,
    pub egress_delta: i64,
}

impl TrafficCheckpoint {
    /// What is to be saved at second `now`: the population under the minute, and
    /// the traffic since the last time.
    pub open spec fn planned(
        self,
        summary: TrackerSummary,
        uptime_seconds: u64,
        traffic: TrafficSnapshot,
        now: u64,
    ) -> SnapshotWrite {
        SnapshotWrite {
            recorded_at: saved((now / 60 * 60) as nat) as i64,
            peers: saved(summary.peers as nat) as i64,
            seeders: saved(summary.seeders as nat) as i64,
            leechers: saved(summary.leechers as nat) as i64,
            torrents: saved(summary.torrents as nat) as i64,
            completed: saved(summary.completed as nat) as i64,
            uptime_seconds: saved(uptime_seconds as nat) as i64,
            ingress_delta: saved(added_since(traffic.total_ingress_bytes, self.ingress_bytes))
                as i64,
            egress_delta: saved(added_since(traffic.total_egress_bytes, self.egress_bytes)) as i64,
        }
    }

    /// How much traffic was saved so far, after an attempt to save a snapshot.
    pub open spec fn finished(self, traffic: TrafficSnapshot, written: bool) -> TrafficCheckpoint {
        if written {
            TrafficCheckpoint {
                ingress_bytes: traffic.total_ingress_bytes,
                egress_bytes: traffic.total_egress_bytes,
            }
        } else {
            self
        }
    }

    /// What is to be saved at second `now`.
    pub fn plan_snapshot(
        &self,
        summary: TrackerSummary,
        uptime_seconds: u64,
        traffic: TrafficSnapshot,
        now: u64,
    ) -> (write: SnapshotWrite)
        ensures
            write == self.planned(summary, uptime_seconds, traffic, now),
    {
        let ingress_delta: u64 = traffic.total_ingress_bytes.saturating_sub(self.ingress_bytes);
        let egress_delta: u64 = traffic.total_egress_bytes.saturating_sub(self.egress_bytes);
        SnapshotWrite {
            recorded_at: sqlite_integer(now / 60 * 60),
            peers: sqlite_integer(summary.peers as u64),
            seeders: sqlite_integer(summary.seeders as u64),
            leechers: sqlite_integer(summary.leechers as u64),
            torrents: sqlite_integer(summary.torrents as u64),
            completed: sqlite_integer(summary.completed),
            uptime_seconds: sqlite_integer(uptime_seconds),
            ingress_delta: sqlite_integer(ingress_delta),
            egress_delta: sqlite_integer(egress_delta),
        }
    }

    /// Ends an attempt to save a snapshot: where it was written, its traffic
    /// counts as saved, and otherwise the next attempt has it again.
    pub fn finish_snapshot(&mut self, traffic: TrafficSnapshot, written: bool)
        ensures
            *final(self) == old(self).finished(traffic, written),
    {
        if written {
            self.ingress_bytes = traffic.total_ingress_bytes;
            self.egress_bytes = traffic.total_egress_bytes;
        }
    }
}

/// A sum as 64 bits hold it: the largest number stands for anything larger.
pub open spec fn saturated(total: nat) -> nat {
    if total <= u64::MAX {
        total
    } else {
        u64::MAX as nat
    }
}

/// The bytes received on all days.
pub open spec fn ingress_total(traffic: Seq<TrafficPoint>) -> nat
    decreases traffic.len(),
{
    if traffic.len() == 0 {
        0
    } else {
        ingress_total(traffic.drop_last()) + traffic.last().ingress_bytes as nat
    }
}

/// The bytes sent on all days.
pub open spec fn egress_total(traffic: Seq<TrafficPoint>) -> nat
    decreases traffic.len(),
{
    if traffic.len() == 0 {
        0
    } else {
        egress_total(traffic.drop_last()) + traffic.last().egress_bytes as nat
    }
}

impl DashboardHistory {
    /// The history of a period, with the totals of its traffic.
    pub fn new(metrics: Vec<MetricPoint>, traffic: Vec<TrafficPoint>) -> (history: Self)
        ensures
            history.metrics@ == metrics@,
            history.traffic@ == traffic@,
            history.total_ingress_bytes == saturated(ingress_total(traffic@)),
            history.total_egress_bytes == saturated(egress_total(traffic@)),
    {
        let mut total_ingress_bytes: u64 = 0;
        let mut total_egress_bytes: u64 = 0;
        let mut index: usize = 0;
        while index < traffic.len()
            invariant
                0 <= index <= traffic@.len(),
                total_ingress_bytes == saturated(ingress_total(traffic@.take(index as int))),
                total_egress_bytes == saturated(egress_total(traffic@.take(index as int))),
            decreases traffic@.len() - index,
        {
            assert(traffic@.take(index + 1).drop_last() =~= traffic@.take(index as int));
            total_ingress_bytes = total_ingress_bytes.saturating_add(traffic[index].ingress_bytes);
            total_egress_bytes = total_egress_bytes.saturating_add(traffic[index].egress_bytes);
            index = index + 1;
        }
        assert(traffic@.take(index as int) =~= traffic@);
        DashboardHistory { metrics, traffic, total_ingress_bytes, total_egress_bytes }
    }
}

/// How many days a history can go back, so that its seconds fit 64 bits.
pub const MAX_HISTORY_DAYS: u64 = 213_503_982_334_601;

/// The first second of a history of so many days.
pub fn history_cutoff(now: u64, days: u64) -> (cutoff: u64)
    requires
        days <= MAX_HISTORY_DAYS,
    ensures
        cutoff == if now >= days * 86400 {
            now - days * 86400
        } else {
            0
        },
{
    now.saturating_sub(days * 24 * 60 * 60)
}

/// How the database steps back to the first day of a history: today is the
/// last of its days.
pub fn history_modifier(days: u64) -> (modifier: String)
    ensures
        modifier@ == "-"@ + decimal_chars(
            if days > 0 {
                (days - 1) as nat
            } else {
                0
            },
        ) + " days"@,
{
    numbered("-", days.saturating_sub(1), " days")
}

/// Histories that are kept until new numbers are saved, under their days and
/// bucket seconds.
pub struct HistoryCache {
    entries: Vec<(u64, u64, DashboardHistory)>,
}

impl View for HistoryCache {
    type V = Map<(u64, u64), DashboardHistory>;

    closed spec fn view(&self) -> Map<(u64, u64), DashboardHistory> {
        kept_histories(self.entries@)
    }
}

/// The histories in a list; the last one under a key counts.
spec fn kept_histories(entries: Seq<(u64, u64, DashboardHistory)>) -> Map<
    (u64, u64),
    DashboardHistory,
>
    decreases entries.len(),
{
    if entries.len() == 0 {
        Map::empty()
    } else {
        kept_histories(entries.drop_last()).insert(
            (entries.last().0, entries.last().1),
            entries.last().2,
        )
    }
}

impl Default for HistoryCache {
    /// A cache that keeps nothing.
    fn default() -> (cache: Self)
        ensures
            cache@ == Map::<(u64, u64), DashboardHistory>::empty(),
    {
        HistoryCache { entries: Vec::new() }
    }
}

impl HistoryCache {
    /// The kept history.
    pub fn get(&self, days: u64, bucket_seconds: u64) -> (history: Option<&DashboardHistory>)
        ensures
            match history {
                Some(history) => self@.contains_key((days, bucket_seconds)) && self@[(
                    days,
                    bucket_seconds,
                )] == *history,
                None => !self@.contains_key((days, bucket_seconds)),
            },
    {
        let mut index: usize = self.entries.len();
        assert(self.entries@.take(self.entries@.len() as int) =~= self.entries@);
        while index > 0
            invariant
                0 <= index <= self.entries@.len(),
                kept_histories(self.entries@).contains_key((days, bucket_seconds))
                    == kept_histories(self.entries@.take(index as int)).contains_key(
                    (days, bucket_seconds),
                ),
                kept_histories(self.entries@)[(days, bucket_seconds)] == kept_histories(
                    self.entries@.take(index as int),
                )[(days, bucket_seconds)],
            decreases index,
        {
            let entry: &(u64, u64, DashboardHistory) = &self.entries[index - 1];
            proof {
                assert(self.entries@.take(index as int).drop_last() =~= self.entries@.take(
                    index - 1,
                ));
            }
            if entry.0 == days && entry.1 == bucket_seconds {
                return Some(&entry.2);
            }
            index = index - 1;
        }
        None
    }

    /// Keeps a history.
    pub fn insert(&mut self, days: u64, bucket_seconds: u64, history: DashboardHistory)
        ensures
            final(self)@ == old(self)@.insert((days, bucket_seconds), history),
    {
        let ghost before = self.entries@;
        self.entries.push((days, bucket_seconds, history));
        assert(self.entries@.drop_last() =~= before);
    }

    /// Forgets every history.
    pub fn clear(&mut self)
        ensures
            final(self)@ == Map::<(u64, u64), DashboardHistory>::empty(),
    {
        self.entries.clear();
    }
}

/// Whether a column is among those that there are.
pub open spec fn has_column(existing: Seq<String>, column: Seq<char>) -> bool {
    exists|i: int| 0 <= i < existing.len() && (#[trigger] existing[i])@ == column
}

/// Whether a column is among those that there are.
fn column_exists(existing: &Vec<String>, column: &str) -> (exists_: bool)
    ensures
        exists_ == has_column(existing@, column@),
{
    let mut index: usize = 0;
    while index < existing.len()
        invariant
            0 <= index <= existing@.len(),
            forall|i: int| 0 <= i < index ==> (#[trigger] existing@[i])@ != column@,
        decreases existing@.len() - index,
    {
        if same_text(existing[index].as_str(), column) {
            assert(existing@[index as int]@ == column@);
            return true;
        }
        index = index + 1;
    }
    false
}

/// The columns that an older table of torrents lacks.
pub open spec fn lacking(existing: Seq<String>, columns: Seq<Seq<char>>) -> Seq<Seq<char>>
    decreases columns.len(),
{
    if columns.len() == 0 {
        Seq::empty()
    } else if has_column(existing, columns.last()) {
        lacking(existing, columns.drop_last())
    } else {
        lacking(existing, columns.drop_last()).push(columns.last())
    }
}

/// The columns for a torrent's numbers that a table lacks, in their order.
pub fn missing_columns(existing: &Vec<String>) -> (missing: Vec<&'static str>)
    ensures
        missing@.map_values(|column: &'static str| column@) == lacking(
            existing@,
            seq!["peers"@, "seeders"@, "leechers"@],
        ),
{
    let ghost wanted = seq!["peers"@, "seeders"@, "leechers"@];
    let ghost text_of = |column: &'static str| column@;
    let mut missing: Vec<&'static str> = Vec::new();
    proof {
        assert(wanted.drop_last().drop_last().drop_last() =~= Seq::<Seq<char>>::empty());
        assert(wanted.drop_last().drop_last() =~= seq!["peers"@]);
        assert(wanted.drop_last() =~= seq!["peers"@, "seeders"@]);
        assert(missing@.map_values(text_of) =~= Seq::<Seq<char>>::empty());
        reveal_with_fuel(lacking, 4);
    }
    if !column_exists(existing, "peers") {
        missing.push("peers");
        assert(missing@.map_values(text_of) =~= Seq::<Seq<char>>::empty().push("peers"@));
    }
    let ghost first = missing@.map_values(text_of);
    assert(first == lacking(existing@, seq!["peers"@]));
    if !column_exists(existing, "seeders") {
        missing.push("seeders");
        assert(missing@.map_values(text_of) =~= first.push("seeders"@));
    }
    let ghost second = missing@.map_values(text_of);
    assert(second == lacking(existing@, seq!["peers"@, "seeders"@]));
    if !column_exists(existing, "leechers") {
        missing.push("leechers");
        assert(missing@.map_values(text_of) =~= second.push("leechers"@));
    }
    missing
}

} // verus!
