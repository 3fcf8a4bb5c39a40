//! The tracker's memory: its torrents, their swarms, and what has changed since
//! the torrents were last saved.

pub use crate::swarm::{AnnounceEvent, InfoHash, Peer, PeerId, SwarmStats};

use crate::sums::{
    lemma_map_sum_bound, lemma_map_sum_insert, lemma_map_sum_remove, lemma_set_sum_counts, map_sum,
};
use crate::swarm::{
    count_seeders, distinct_peers, find_peer, fresh_peers, has_peer, keep_fresh, lemma_fresh_peers,
    lemma_peer_index, lemma_seeders_bound, lemma_seeders_remove, lemma_seeders_update, list_peers,
    listed_peers, peer_index, seeders, with_peer, without_peer,
};
use crate::clock::unix_timestamp_seconds;
use dashmap::DashMap;
use vstd::prelude::*;

verus! {

/// What is known of one torrent: its swarm, how often it was downloaded, and
/// the revision of its last change that is not yet saved.
#[verifier::ext_equal]
pub struct TorrentModel {
    pub peers: Seq<Peer>,
    pub downloaded: Option<u64>,
    pub pending: Option<u64>,
}

impl TorrentModel {
    /// A torrent of which nothing is known.
    pub open spec fn empty() -> TorrentModel {
        TorrentModel { peers: Seq::empty(), downloaded: None, pending: None }
    }

    /// Whether nothing is known of the torrent, nor to be saved of it.
    pub open spec fn is_vacant(self) -> bool {
        self.peers.len() == 0 && self.downloaded is None && self.pending is None
    }

    /// Whether the tracker counts the torrent: it has peers or a download
    /// count.
    pub open spec fn is_known(self) -> bool {
        self.peers.len() > 0 || self.downloaded is Some
    }

    /// How often the torrent was downloaded.
    pub open spec fn times_downloaded(self) -> u64 {
        match self.downloaded {
            Some(count) => count,
            None => 0,
        }
    }

    /// How many peers still have something to download.
    pub open spec fn leechers(self) -> nat {
        (self.peers.len() - seeders(self.peers)) as nat
    }

    /// The torrent's statistics.
    pub open spec fn stats(self) -> SwarmStats {
        SwarmStats {
            complete: seeders(self.peers) as usize,
            incomplete: self.leechers() as usize,
            downloaded: self.times_downloaded(),
        }
    }

    /// Whether an announce finishes a download: the event says so, and the
    /// peer was not already known to have the whole torrent.
    pub open spec fn is_finished_by(self, peer: Peer, event: AnnounceEvent) -> bool {
        event is Completed && (has_peer(self.peers, peer.peer_id) ==> self.peers[peer_index(
            self.peers,
            peer.peer_id,
        )].left != 0)
    }

    /// The torrent after an announce. A peer that stops leaves the swarm, and
    /// the torrent is forgotten with its last peer unless it was ever
    /// downloaded. Any other event enters the peer or refreshes it.
    pub open spec fn announced(self, peer: Peer, event: AnnounceEvent, revision: u64) -> TorrentModel {
        if event is Stopped {
            if has_peer(self.peers, peer.peer_id) {
                let peers = without_peer(self.peers, peer.peer_id);
                TorrentModel {
                    peers,
                    downloaded: if peers.len() == 0 && self.downloaded == Some(0u64) {
                        None
                    } else {
                        self.downloaded
                    },
                    pending: Some(revision),
                }
            } else {
                self
            }
        } else {
            TorrentModel {
                peers: with_peer(self.peers, peer),
                downloaded: Some(
                    if self.is_finished_by(peer, event) && self.times_downloaded() < u64::MAX {
                        (self.times_downloaded() + 1) as u64
                    } else {
                        self.times_downloaded()
                    },
                ),
                pending: Some(revision),
            }
        }
    }

    /// The torrent without the peers last seen before `cutoff`; it is forgotten
    /// with its last peer unless it was ever downloaded.
    pub open spec fn without_stale(self, cutoff: u64, revision: u64) -> TorrentModel {
        let peers = fresh_peers(self.peers, cutoff);
        let downloaded = if peers.len() == 0 && self.downloaded == Some(0u64) {
            None
        } else {
            self.downloaded
        };
        TorrentModel {
            peers,
            downloaded,
            pending: if peers != self.peers || downloaded != self.downloaded {
                Some(revision)
            } else {
                self.pending
            },
        }
    }
}

/// The revision that follows `revision`.
pub open spec fn next_revision(revision: u64) -> u64 {
    if revision < u64::MAX {
        (revision + 1) as u64
    } else {
        0
    }
}

/// The torrents that the tracker holds, and a number that moves on with every
/// change to them.
#[verifier::ext_equal]
pub struct TrackerModel {
    pub torrents: Map<InfoHash, TorrentModel>,
    pub revision: u64,
}

impl TrackerModel {
    /// What is known of a torrent.
    pub open spec fn torrent(self, info_hash: InfoHash) -> TorrentModel {
        if self.torrents.contains_key(info_hash) {
            self.torrents[info_hash]
        } else {
            TorrentModel::empty()
        }
    }

    /// The same torrents, but for one.
    pub open spec fn with_torrent(self, info_hash: InfoHash, torrent: TorrentModel) -> TrackerModel {
        TrackerModel {
            torrents: if torrent.is_vacant() {
                self.torrents.remove(info_hash)
            } else {
                self.torrents.insert(info_hash, torrent)
            },
            revision: self.revision,
        }
    }

    /// The same torrents at the next revision.
    pub open spec fn revised(self) -> TrackerModel {
        TrackerModel { torrents: self.torrents, revision: next_revision(self.revision) }
    }

    /// The torrents after an announce. Only the announced torrent changes, and
    /// a peer that stops without being known changes nothing.
    pub open spec fn announced(self, info_hash: InfoHash, peer: Peer, event: AnnounceEvent)
        -> TrackerModel {
        if event is Stopped && !has_peer(self.torrent(info_hash).peers, peer.peer_id) {
            self
        } else {
            self.with_torrent(
                info_hash,
                self.torrent(info_hash).announced(peer, event, next_revision(self.revision)),
            ).revised()
        }
    }

    /// The torrents with a saved peer entered again.
    pub open spec fn restored(self, info_hash: InfoHash, peer: Peer) -> TrackerModel {
        let torrent = self.torrent(info_hash);
        self.with_torrent(
            info_hash,
            TorrentModel { peers: with_peer(torrent.peers, peer), ..torrent },
        ).revised()
    }

    /// The torrents with a download count set.
    pub open spec fn with_downloaded(self, info_hash: InfoHash, downloaded: u64) -> TrackerModel {
        let torrent = self.torrent(info_hash);
        self.with_torrent(
            info_hash,
            TorrentModel { downloaded: Some(downloaded), ..torrent },
        ).revised()
    }

    /// Whether taking out the peers last seen before `cutoff` changes a torrent.
    pub open spec fn has_stale(self, info_hash: InfoHash, cutoff: u64) -> bool {
        let torrent = self.torrent(info_hash);
        let pruned = torrent.without_stale(cutoff, 0);
        pruned.peers != torrent.peers || pruned.downloaded != torrent.downloaded
    }

    /// The torrents without the peers last seen before `cutoff`.
    pub open spec fn without_stale(self, cutoff: u64) -> TrackerModel {
        let revision = next_revision(self.revision);
        TrackerModel {
            torrents: Map::new(
                |info_hash: InfoHash|
                    self.torrents.contains_key(info_hash) && !self.torrent(info_hash).without_stale(
                        cutoff,
                        revision,
                    ).is_vacant(),
                |info_hash: InfoHash| self.torrent(info_hash).without_stale(cutoff, revision),
            ),
            revision: if exists|info_hash: InfoHash| #[trigger] self.has_stale(info_hash, cutoff) {
                revision
            } else {
                self.revision
            },
        }
    }

    /// The torrents with one change marked as saved, unless the torrent has
    /// changed again since.
    pub open spec fn acknowledged(self, info_hash: InfoHash, revision: u64) -> TrackerModel {
        let torrent = self.torrent(info_hash);
        if torrent.pending == Some(revision) {
            self.with_torrent(info_hash, TorrentModel { pending: None, ..torrent })
        } else {
            self
        }
    }

    /// The torrents with several changes marked as saved, one after the other.
    pub open spec fn all_acknowledged(self, changes: Seq<TorrentChange>) -> TrackerModel
        decreases changes.len(),
    {
        if changes.len() == 0 {
            self
        } else {
            self.all_acknowledged(changes.drop_last()).acknowledged(
                changes.last().info_hash,
                changes.last().revision,
            )
        }
    }

    /// The torrents that the tracker counts.
    pub open spec fn known(self) -> Set<InfoHash> {
        Set::new(|info_hash: InfoHash| self.torrent(info_hash).is_known())
    }

    /// The torrents that have peers.
    pub open spec fn active(self) -> Set<InfoHash> {
        Set::new(|info_hash: InfoHash| self.torrent(info_hash).peers.len() > 0)
    }

    /// The torrents with a change that is not yet saved.
    pub open spec fn unsaved(self) -> Set<InfoHash> {
        Set::new(|info_hash: InfoHash| self.torrent(info_hash).pending is Some)
    }

    /// Whether the unsaved changes are listed, each once and in any order.
    pub open spec fn lists_changes(self, changes: Seq<TorrentChange>) -> bool {
        &&& changes.map_values(|change: TorrentChange| change.info_hash).no_duplicates()
        &&& changes.map_values(|change: TorrentChange| change.info_hash).to_set() == self.unsaved()
        &&& forall|i: int|
            0 <= i < changes.len() ==> (#[trigger] changes[i]).describes(
                changes[i].info_hash,
                self.torrent(changes[i].info_hash),
            )
    }

    /// The number of peers and of swarms, as machine words.
    pub open spec fn population(self) -> (usize, usize) {
        (
            capped(self.total(peers_weight()), usize::MAX as nat) as usize,
            capped(self.active().len(), usize::MAX as nat) as usize,
        )
    }

    /// The sum of a weight over the torrents.
    pub open spec fn total(self, weight: spec_fn(TorrentModel) -> nat) -> nat {
        map_sum(self.torrents, weight)
    }
}

/// Weighs a torrent by its peers.
pub open spec fn peers_weight() -> spec_fn(TorrentModel) -> nat {
    |torrent: TorrentModel| torrent.peers.len()
}

/// Weighs a torrent by the peers that have all of it.
pub open spec fn seeders_weight() -> spec_fn(TorrentModel) -> nat {
    |torrent: TorrentModel| seeders(torrent.peers)
}

/// Weighs a torrent by the peers that do not have all of it.
pub open spec fn leechers_weight() -> spec_fn(TorrentModel) -> nat {
    |torrent: TorrentModel| torrent.leechers()
}

/// Counts a torrent that has peers.
pub open spec fn swarms_weight() -> spec_fn(TorrentModel) -> nat {
    |torrent: TorrentModel|
        if torrent.peers.len() > 0 {
            1nat
        } else {
            0nat
        }
}

/// Counts a torrent that the tracker knows.
pub open spec fn torrents_weight() -> spec_fn(TorrentModel) -> nat {
    |torrent: TorrentModel|
        if torrent.is_known() {
            1nat
        } else {
            0nat
        }
}

/// Weighs a torrent by how often it was downloaded.
pub open spec fn completed_weight() -> spec_fn(TorrentModel) -> nat {
    |torrent: TorrentModel| torrent.times_downloaded() as nat
}

/// A total as a machine word holds it: the largest word stands for anything
/// larger.
pub open spec fn capped(total: nat, limit: nat) -> nat {
    if total <= limit {
        total
    } else {
        limit
    }
}

/// The number of peers, torrents and completed downloads of the whole tracker.
#[derive(Clone, Copy, Debug, Eq, PartialEq)]
pub struct TrackerSummary {
    pub peers: usize,
    pub seeders: usize,
    pub leechers: usize,
    pub torrents: usize,
    pub completed: u64,
}

/// A torrent to be saved. Without a download count the torrent is gone, and is
/// to be deleted.
#[derive(Debug, Eq, PartialEq)]
pub struct TorrentChange {
    pub info_hash: InfoHash,
    pub revision: u64,
    pub peers: Vec<Peer>,
    pub downloaded: Option<u64>,
}

impl TorrentChange {
    /// Whether this is the unsaved change of the torrent `info_hash`, known as
    /// `torrent`.
    pub open spec fn describes(self, info_hash: InfoHash, torrent: TorrentModel) -> bool {
        &&& self.info_hash == info_hash
        &&& torrent.pending == Some(self.revision)
        &&& self.peers@ == torrent.peers
        &&& self.downloaded == if torrent.is_known() {
            Some(torrent.times_downloaded())
        } else {
            None
        }
    }
}

/// One torrent as it is held in memory.
#[derive(Debug)]
pub struct Torrent {
    peers: Vec<Peer>,
    complete: usize,
    downloaded: Option<u64>,
    pending: Option<u64>,
}

impl View for Torrent {
    type V = TorrentModel;

    closed spec fn view(&self) -> TorrentModel {
        TorrentModel {
            peers: self.peers@,
            downloaded: self.downloaded,
            pending: self.pending,
        }
    }
}

impl Torrent {
    /// The seeder count is right and no identifier occurs twice.
    closed spec fn valid(self) -> bool {
        self.complete == seeders(self.peers@) && distinct_peers(self.peers@)
    }

    fn new() -> (torrent: Self)
        ensures
            torrent.valid(),
            torrent@ == TorrentModel::empty(),
    {
        Torrent { peers: Vec::new(), complete: 0, downloaded: None, pending: None }
    }

    /// Enters a peer, in the place of the one with its identifier.
    fn enter(&mut self, peer: Peer)
        requires
            old(self).valid(),
        ensures
            final(self).valid(),
            final(self)@ == (TorrentModel { peers: with_peer(old(self)@.peers, peer), ..old(self)@ }),
    {
        let index: usize = find_peer(&self.peers, &peer.peer_id);
        let ghost before = self.peers@;
        proof {
            lemma_peer_index(before, peer.peer_id);
            lemma_seeders_bound(before);
        }
        if index < self.peers.len() {
            proof {
                lemma_seeders_remove(before, index as int);
                lemma_seeders_update(before, index as int, peer);
                lemma_seeders_bound(before.update(index as int, peer));
            }
            if self.peers[index].left == 0 {
                self.complete = self.complete - 1;
            }
            self.peers.set(index, peer);
        } else {
            self.peers.push(peer);
            proof {
                assert(self.peers@.drop_last() =~= before);
                lemma_seeders_bound(self.peers@);
                assert(self.peers.len() == self.peers@.len());
            }
        }
        if peer.left == 0 {
            self.complete = self.complete + 1;
        }
    }

    /// Takes a peer out, and tells whether it was there.
    fn leave(&mut self, peer_id: &PeerId) -> (left: bool)
        requires
            old(self).valid(),
        ensures
            final(self).valid(),
            left == has_peer(old(self)@.peers, *peer_id),
            final(self)@ == (TorrentModel {
                peers: without_peer(old(self)@.peers, *peer_id),
                ..old(self)@
            }),
    {
        let index: usize = find_peer(&self.peers, peer_id);
        let ghost before = self.peers@;
        if index < self.peers.len() {
            proof {
                lemma_seeders_remove(before, index as int);
                lemma_peer_index(before, *peer_id);
            }
            let peer: Peer = self.peers.remove(index);
            if peer.left == 0 {
                self.complete = self.complete - 1;
            }
            assert(distinct_peers(self.peers@)) by {
                let rest = before.remove(index as int);
                assert forall|i: int, j: int| 0 <= i < j < rest.len() implies #[trigger]
                    rest[i].peer_id != #[trigger] rest[j].peer_id by {
                    let k = if i < index {
                        i
                    } else {
                        i + 1
                    };
                    let l = if j < index {
                        j
                    } else {
                        j + 1
                    };
                    assert(rest[i] == before[k] && rest[j] == before[l]);
                }
            }
            true
        } else {
            false
        }
    }

    /// Forgets a torrent that has no peers and was never downloaded.
    fn forget_if_unused(&mut self)
        requires
            old(self).valid(),
        ensures
            final(self).valid(),
            final(self)@ == (TorrentModel {
                downloaded: if old(self)@.peers.len() == 0 && old(self)@.downloaded == Some(0u64) {
                    None
                } else {
                    old(self)@.downloaded
                },
                ..old(self)@
            }),
    {
        if self.peers.len() == 0 {
            if let Some(count) = self.downloaded {
                if count == 0 {
                    self.downloaded = None;
                }
            }
        }
    }

    fn times_downloaded(&self) -> (count: u64)
        ensures
            count == self@.times_downloaded(),
    {
        match self.downloaded {
            Some(count) => count,
            None => 0,
        }
    }

    /// Takes an announce, and tells whether anything changed.
    fn announce(&mut self, peer: Peer, event: AnnounceEvent, revision: u64) -> (changed: bool)
        requires
            old(self).valid(),
        ensures
            final(self).valid(),
            final(self)@ == old(self)@.announced(peer, event, revision),
            changed == !(event is Stopped && !has_peer(old(self)@.peers, peer.peer_id)),
    {
        match event {
            AnnounceEvent::Stopped => {
                if !self.leave(&peer.peer_id) {
                    return false;
                }
                self.forget_if_unused();
            },
            _ => {
                let known: usize = find_peer(&self.peers, &peer.peer_id);
                proof {
                    lemma_peer_index(self.peers@, peer.peer_id);
                }
                let finished: bool = match event {
                    AnnounceEvent::Completed => known == self.peers.len() || self.peers[known].left
                        != 0,
                    _ => false,
                };
                self.enter(peer);
                let count: u64 = self.times_downloaded();
                self.downloaded = Some(
                    if finished && count < u64::MAX {
                        count + 1
                    } else {
                        count
                    },
                );
            },
        }
        self.pending = Some(revision);
        true
    }

    /// Takes the stale peers out, and tells whether anything changed.
    fn remove_stale(&mut self, cutoff: u64, revision: u64) -> (changed: bool)
        requires
            old(self).valid(),
        ensures
            final(self).valid(),
            final(self)@ == old(self)@.without_stale(cutoff, revision),
            changed == (final(self)@.peers != old(self)@.peers || final(self)@.downloaded
                != old(self)@.downloaded),
    {
        let kept: Vec<Peer> = keep_fresh(&self.peers, cutoff);
        proof {
            lemma_fresh_peers(self.peers@, cutoff);
        }
        let mut changed: bool = kept.len() != self.peers.len();
        self.complete = count_seeders(&kept);
        self.peers = kept;
        let counted: bool = self.downloaded.is_some();
        self.forget_if_unused();
        if counted && self.downloaded.is_none() {
            changed = true;
        }
        if changed {
            self.pending = Some(revision);
        }
        changed
    }

    fn stats(&self) -> (stats: SwarmStats)
        requires
            self.valid(),
        ensures
            stats == self@.stats(),
    {
        proof {
            lemma_seeders_bound(self.peers@);
            assert(self.peers.len() == self.peers@.len());
        }
        SwarmStats {
            complete: self.complete,
            incomplete: self.peers.len() - self.complete,
            downloaded: self.times_downloaded(),
        }
    }

    fn is_known(&self) -> (known: bool)
        ensures
            known == self@.is_known(),
    {
        self.peers.len() > 0 || self.downloaded.is_some()
    }

    fn is_vacant(&self) -> (vacant: bool)
        ensures
            vacant == self@.is_vacant(),
    {
        self.peers.len() == 0 && self.downloaded.is_none() && self.pending.is_none()
    }

    fn copy_peers(&self) -> (peers: Vec<Peer>)
        ensures
            peers@ == self@.peers,
    {
        let mut peers: Vec<Peer> = Vec::new();
        let mut index: usize = 0;
        while index < self.peers.len()
            invariant
                0 <= index <= self.peers@.len(),
                peers@ == self.peers@.take(index as int),
            decreases self.peers@.len() - index,
        {
            peers.push(self.peers[index]);
            assert(peers@ =~= self.peers@.take(index + 1));
            index = index + 1;
        }
        assert(self.peers@.take(index as int) =~= self.peers@);
        peers
    }
}

/// The whole seconds since the Unix epoch by the system clock, or zero where
/// the clock stands before it.
pub fn unix_timestamp() -> (seconds: u64) {
    unix_timestamp_seconds()
}

/// The sums that the tracker keeps up to date.
#[derive(Clone, Copy, Debug)]
struct Totals {
    peers: u128,
    seeders: u128,
    leechers: u128,
    swarms: u128,
    torrents: u128,
    completed: u128,
}

impl Totals {
    /// Whether these are the sums over `torrents`.
    spec fn are_of(self, torrents: Map<InfoHash, TorrentModel>) -> bool {
        &&& self.peers == map_sum(torrents, peers_weight())
        &&& self.seeders == map_sum(torrents, seeders_weight())
        &&& self.leechers == map_sum(torrents, leechers_weight())
        &&& self.swarms == map_sum(torrents, swarms_weight())
        &&& self.torrents == map_sum(torrents, torrents_weight())
        &&& self.completed == map_sum(torrents, completed_weight())
    }

    /// Whether these are what one torrent adds to the sums.
    spec fn weigh(self, torrent: TorrentModel) -> bool {
        &&& self.peers == peers_weight()(torrent)
        &&& self.seeders == seeders_weight()(torrent)
        &&& self.leechers == leechers_weight()(torrent)
        &&& self.swarms == swarms_weight()(torrent)
        &&& self.torrents == torrents_weight()(torrent)
        &&& self.completed == completed_weight()(torrent)
    }

    /// What one torrent adds to the sums.
    fn of(torrent: &Torrent) -> (totals: Self)
        requires
            torrent.valid(),
        ensures
            totals.weigh(torrent@),
    {
        let stats: SwarmStats = torrent.stats();
        proof {
            lemma_seeders_bound(torrent.peers@);
            assert(torrent.peers.len() == torrent.peers@.len());
        }
        Totals {
            peers: torrent.peers.len() as u128,
            seeders: stats.complete as u128,
            leechers: stats.incomplete as u128,
            swarms: if torrent.peers.len() > 0 {
                1
            } else {
                0
            },
            torrents: if torrent.is_known() {
                1
            } else {
                0
            },
            completed: stats.downloaded as u128,
        }
    }
}

/// No sum over the torrents outgrows its counter.
proof fn lemma_totals_fit(torrents: Map<InfoHash, TorrentModel>, weight: spec_fn(TorrentModel) -> nat)
    requires
        torrents.dom().finite(),
        torrents.dom().len() <= usize::MAX,
        forall|info_hash: InfoHash| #[trigger]
            torrents.contains_key(info_hash) ==> weight(torrents[info_hash]) <= u64::MAX,
    ensures
        map_sum(torrents, weight) <= u128::MAX,
{
    lemma_map_sum_bound(torrents, weight, u64::MAX as nat);
    let count = torrents.dom().len() as int;
    assert(count * 0xffff_ffff_ffff_ffff <= 0xffff_ffff_ffff_ffff * 0xffff_ffff_ffff_ffff)
        by (nonlinear_arith)
        requires
            0 <= count <= 0xffff_ffff_ffff_ffff,
    ;
}

/// The torrents that a `dashmap::DashMap` holds, by info hash.
pub uninterp spec fn torrents_in(map: DashMap<InfoHash, Torrent>) -> Map<InfoHash, Torrent>;

/// `dashmap::DashMap::new`: the map holds nothing.
#[verifier::external_body]
fn empty_map() -> (map: DashMap<InfoHash, Torrent>)
    ensures
        torrents_in(map).dom() == Set::<InfoHash>::empty(),
{
    DashMap::new()
}

/// `dashmap::DashMap::insert`: the key has the value, in the place of any that
/// it had.
#[verifier::external_body]
fn insert_torrent(map: &mut DashMap<InfoHash, Torrent>, info_hash: InfoHash, torrent: Torrent)
    ensures
        torrents_in(*final(map)) == torrents_in(*old(map)).insert(info_hash, torrent),
{
    map.insert(info_hash, torrent);
}

/// `dashmap::DashMap::remove`: the key is taken out, and what it had is handed
/// back.
#[verifier::external_body]
fn remove_torrent(map: &mut DashMap<InfoHash, Torrent>, info_hash: &InfoHash) -> (removed: Option<
    Torrent,
>)
    ensures
        torrents_in(*final(map)) == torrents_in(*old(map)).remove(*info_hash),
        removed == (if torrents_in(*old(map)).contains_key(*info_hash) {
            Some(torrents_in(*old(map))[*info_hash])
        } else {
            None
        }),
{
    map.remove(info_hash).map(|(_, torrent)| torrent)
}

/// `dashmap::DashMap::view`: the function is called with the key and its value
/// where the key is in the map, and its result is handed back.
#[verifier::external_body]
fn read_torrent<R, F: FnOnce(&InfoHash, &Torrent) -> R>(
    map: &DashMap<InfoHash, Torrent>,
    info_hash: &InfoHash,
    read: F,
) -> (result: Option<R>)
    requires
        torrents_in(*map).contains_key(*info_hash) ==> call_requires(
            read,
            (info_hash, &torrents_in(*map)[*info_hash]),
        ),
    ensures
        result is Some <==> torrents_in(*map).contains_key(*info_hash),
        result matches Some(value) ==> call_ensures(
            read,
            (info_hash, &torrents_in(*map)[*info_hash]),
            value,
        ),
{
    map.view(info_hash, read)
}

/// `dashmap::DashMap::len`: the number of keys.
#[verifier::external_body]
fn count_keys(map: &DashMap<InfoHash, Torrent>) -> (count: usize)
    ensures
        count == torrents_in(*map).dom().len(),
{
    map.len()
}

/// `dashmap::DashMap::iter`: every key once, in no particular order.
#[verifier::external_body]
fn list_keys(map: &DashMap<InfoHash, Torrent>) -> (keys: Vec<InfoHash>)
    ensures
        keys@.no_duplicates(),
        keys@.to_set() == torrents_in(*map).dom(),
{
    map.iter().map(|entry| *entry.key()).collect()
}

/// All that the tracker holds in memory.
pub struct TrackerState {
    torrents: DashMap<InfoHash, Torrent>,
    totals: Totals,
    revision: u64,
}

impl View for TrackerState {
    type V = TrackerModel;

    closed spec fn view(&self) -> TrackerModel {
        TrackerModel {
            torrents: torrents_in(self.torrents).map_values(|torrent: Torrent| torrent@),
            revision: self.revision,
        }
    }
}

impl Default for TrackerState {
    /// A tracker without torrents.
    fn default() -> (state: Self)
        ensures
            state.valid(),
            state@ == (TrackerModel { torrents: Map::empty(), revision: 0 }),
    {
        let state = TrackerState {
            torrents: empty_map(),
            totals: Totals {
                peers: 0,
                seeders: 0,
                leechers: 0,
                swarms: 0,
                torrents: 0,
                completed: 0,
            },
            revision: 0,
        };
        assert(state@.torrents =~= Map::<InfoHash, TorrentModel>::empty());
        state
    }
}

impl TrackerState {
    /// The torrents are sound, none of them is vacant, and the sums are right.
    pub closed spec fn valid(self) -> bool {
        &&& self@.torrents.dom().finite()
        &&& forall|info_hash: InfoHash| #[trigger]
            torrents_in(self.torrents).contains_key(info_hash) ==> {
                &&& torrents_in(self.torrents)[info_hash].valid()
                &&& !torrents_in(self.torrents)[info_hash]@.is_vacant()
            }
        &&& self.totals.are_of(self@.torrents)
    }

    /// What validity says of one torrent.
    pub proof fn lemma_torrent(self, info_hash: InfoHash)
        requires
            self.valid(),
        ensures
            distinct_peers(self@.torrent(info_hash).peers),
            self@.torrent(info_hash).peers.len() <= usize::MAX,
            self@.torrents.dom().finite(),
            self@.torrents.contains_key(info_hash) ==> !self@.torrents[info_hash].is_vacant(),
    {
        if self@.torrents.contains_key(info_hash) {
            let torrent = torrents_in(self.torrents)[info_hash];
            assert(torrents_in(self.torrents).contains_key(info_hash));
            assert(torrent.peers.len() == torrent.peers@.len());
        }
    }

    /// Takes a torrent out.
    fn take(&mut self, info_hash: &InfoHash) -> (torrent: Torrent)
        requires
            old(self).valid(),
        ensures
            final(self).valid(),
            torrent.valid(),
            torrent@ == old(self)@.torrent(*info_hash),
            final(self)@.torrents == old(self)@.torrents.remove(*info_hash),
            final(self)@.revision == old(self)@.revision,
    {
        let ghost before = self@.torrents;
        let ghost held = torrents_in(self.torrents);
        let removed: Option<Torrent> = remove_torrent(&mut self.torrents, info_hash);
        assert(self@.torrents =~= before.remove(*info_hash));
        match removed {
            None => {
                assert(before.remove(*info_hash) =~= before);
                Torrent::new()
            },
            Some(torrent) => {
                assert(held.contains_key(*info_hash));
                assert(before[*info_hash] == torrent@);
                let weight: Totals = Totals::of(&torrent);
                proof {
                    lemma_map_sum_remove(before, peers_weight(), *info_hash);
                    lemma_map_sum_remove(before, seeders_weight(), *info_hash);
                    lemma_map_sum_remove(before, leechers_weight(), *info_hash);
                    lemma_map_sum_remove(before, swarms_weight(), *info_hash);
                    lemma_map_sum_remove(before, torrents_weight(), *info_hash);
                    lemma_map_sum_remove(before, completed_weight(), *info_hash);
                }
                self.totals = Totals {
                    peers: self.totals.peers - weight.peers,
                    seeders: self.totals.seeders - weight.seeders,
                    leechers: self.totals.leechers - weight.leechers,
                    swarms: self.totals.swarms - weight.swarms,
                    torrents: self.totals.torrents - weight.torrents,
                    completed: self.totals.completed - weight.completed,
                };
                torrent
            },
        }
    }

    /// Puts a torrent in, unless it is vacant.
    fn put(&mut self, info_hash: InfoHash, torrent: Torrent)
        requires
            old(self).valid(),
            torrent.valid(),
            !old(self)@.torrents.contains_key(info_hash),
        ensures
            final(self).valid(),
            final(self)@ == old(self)@.with_torrent(info_hash, torrent@),
    {
        let ghost before = self@.torrents;
        if torrent.is_vacant() {
            assert(before.remove(info_hash) =~= before);
            return;
        }
        let ghost model = torrent@;
        let weight: Totals = Totals::of(&torrent);
        insert_torrent(&mut self.torrents, info_hash, torrent);
        let count: usize = count_keys(&self.torrents);
        proof {
            let after = before.insert(info_hash, model);
            assert(self@.torrents =~= after);
            assert(after.dom() =~= torrents_in(self.torrents).dom());
            assert forall|key: InfoHash| #[trigger] after.contains_key(key) implies peers_weight()(
                after[key],
            ) <= u64::MAX && seeders_weight()(after[key]) <= u64::MAX && leechers_weight()(
                after[key],
            ) <= u64::MAX && swarms_weight()(after[key]) <= u64::MAX && torrents_weight()(after[key])
                <= u64::MAX && completed_weight()(after[key]) <= u64::MAX by {
                let held = torrents_in(self.torrents)[key];
                assert(torrents_in(self.torrents).contains_key(key));
                assert(after[key] == held@);
                assert(held.peers.len() == held.peers@.len());
                lemma_seeders_bound(held.peers@);
            }
            lemma_totals_fit(after, peers_weight());
            lemma_totals_fit(after, seeders_weight());
            lemma_totals_fit(after, leechers_weight());
            lemma_totals_fit(after, swarms_weight());
            lemma_totals_fit(after, torrents_weight());
            lemma_totals_fit(after, completed_weight());
            lemma_map_sum_insert(before, peers_weight(), info_hash, model);
            lemma_map_sum_insert(before, seeders_weight(), info_hash, model);
            lemma_map_sum_insert(before, leechers_weight(), info_hash, model);
            lemma_map_sum_insert(before, swarms_weight(), info_hash, model);
            lemma_map_sum_insert(before, torrents_weight(), info_hash, model);
            lemma_map_sum_insert(before, completed_weight(), info_hash, model);
        }
        self.totals = Totals {
            peers: self.totals.peers + weight.peers,
            seeders: self.totals.seeders + weight.seeders,
            leechers: self.totals.leechers + weight.leechers,
            swarms: self.totals.swarms + weight.swarms,
            torrents: self.totals.torrents + weight.torrents,
            completed: self.totals.completed + weight.completed,
        };
    }

    /// Moves on to the next revision.
    fn revise(&mut self)
        requires
            old(self).valid(),
        ensures
            final(self).valid(),
            final(self)@ == old(self)@.revised(),
    {
        self.revision = if self.revision < u64::MAX {
            self.revision + 1
        } else {
            0
        };
    }

    /// A number that moves on with every change.
    pub fn revision(&self) -> (revision: u64)
        ensures
            revision == self@.revision,
    {
        self.revision
    }

    /// Enters a peer that was saved.
    pub fn restore(&mut self, info_hash: InfoHash, peer: Peer)
        requires
            old(self).valid(),
        ensures
            final(self).valid(),
            final(self)@ == old(self)@.restored(info_hash, peer),
    {
        let mut torrent: Torrent = self.take(&info_hash);
        torrent.enter(peer);
        self.put(info_hash, torrent);
        self.revise();
        assert(self@ =~= old(self)@.restored(info_hash, peer)) by {
            lemma_take_and_put(old(self)@, info_hash, torrent@);
        }
    }

    /// Sets how often a torrent was downloaded.
    pub fn set_downloaded(&mut self, info_hash: InfoHash, downloaded: u64)
        requires
            old(self).valid(),
        ensures
            final(self).valid(),
            final(self)@ == old(self)@.with_downloaded(info_hash, downloaded),
    {
        let mut torrent: Torrent = self.take(&info_hash);
        torrent.downloaded = Some(downloaded);
        self.put(info_hash, torrent);
        self.revise();
        assert(self@ =~= old(self)@.with_downloaded(info_hash, downloaded)) by {
            lemma_take_and_put(old(self)@, info_hash, torrent@);
        }
    }

    /// Takes an announce, and gives the torrent's statistics after it.
    pub fn announce(&mut self, info_hash: InfoHash, peer: Peer, event: AnnounceEvent) -> (stats:
        SwarmStats)
        requires
            old(self).valid(),
        ensures
            final(self).valid(),
            final(self)@ == old(self)@.announced(info_hash, peer, event),
            stats == final(self)@.torrent(info_hash).stats(),
    {
        let revision: u64 = if self.revision < u64::MAX {
            self.revision + 1
        } else {
            0
        };
        let mut torrent: Torrent = self.take(&info_hash);
        let ghost known = torrent@;
        let changed: bool = torrent.announce(peer, event, revision);
        let stats: SwarmStats = torrent.stats();
        let ghost model = torrent@;
        self.put(info_hash, torrent);
        proof {
            lemma_take_and_put(old(self)@, info_hash, model);
            lemma_put_back(old(self)@, info_hash);
        }
        if changed {
            self.revise();
        }
        assert(self@ =~= old(self)@.announced(info_hash, peer, event));
        stats
    }

    /// A torrent's statistics.
    pub fn stats(&self, info_hash: &InfoHash) -> (stats: SwarmStats)
        requires
            self.valid(),
        ensures
            stats == self@.torrent(*info_hash).stats(),
    {
        let read = |_info_hash: &InfoHash, torrent: &Torrent| -> (stats: SwarmStats)
            requires
                torrent.valid(),
            ensures
                stats == torrent@.stats(),
            { torrent.stats() };
        match read_torrent(&self.torrents, info_hash, read) {
            Some(stats) => stats,
            None => SwarmStats::default(),
        }
    }

    /// The first `limit` peers of a torrent, without the one known by `exclude`.
    pub fn peers(&self, info_hash: &InfoHash, exclude: &PeerId, limit: usize) -> (listed: Vec<Peer>)
        requires
            self.valid(),
        ensures
            listed@ == listed_peers(self@.torrent(*info_hash).peers, *exclude, limit as nat),
    {
        let read = |_info_hash: &InfoHash, torrent: &Torrent| -> (listed: Vec<Peer>)
            ensures
                listed@ == listed_peers(torrent@.peers, *exclude, limit as nat),
            { list_peers(&torrent.peers, exclude, limit) };
        match read_torrent(&self.torrents, info_hash, read) {
            Some(listed) => listed,
            None => Vec::new(),
        }
    }

    /// Every torrent that the tracker counts, with its peers and its download
    /// count, in no particular order.
    pub fn snapshot(&self) -> (snapshot: Vec<(InfoHash, Vec<Peer>, u64)>)
        requires
            self.valid(),
        ensures
            snapshot@.map_values(|entry: (InfoHash, Vec<Peer>, u64)| entry.0).no_duplicates(),
            snapshot@.map_values(|entry: (InfoHash, Vec<Peer>, u64)| entry.0).to_set()
                == self@.known(),
            forall|i: int| #![trigger snapshot@[i]]
                0 <= i < snapshot@.len() ==> {
                    let torrent = self@.torrent(snapshot@[i].0);
                    snapshot@[i].1@ == torrent.peers && snapshot@[i].2 == torrent.times_downloaded()
                },
    {
        let hashes: Vec<InfoHash> = self.info_hashes();
        let mut snapshot: Vec<(InfoHash, Vec<Peer>, u64)> = Vec::new();
        let mut index: usize = 0;
        while index < hashes.len()
            invariant
                self.valid(),
                0 <= index <= hashes@.len(),
                hashes@.to_set() == self@.known(),
                snapshot@.len() == index,
                snapshot@.map_values(|entry: (InfoHash, Vec<Peer>, u64)| entry.0) == hashes@.take(
                    index as int,
                ),
                forall|i: int| #![trigger snapshot@[i]]
                    0 <= i < snapshot@.len() ==> {
                        let torrent = self@.torrent(snapshot@[i].0);
                        snapshot@[i].1@ == torrent.peers && snapshot@[i].2
                            == torrent.times_downloaded()
                    },
            decreases hashes@.len() - index,
        {
            let info_hash: InfoHash = hashes[index];
            let read = |_info_hash: &InfoHash, torrent: &Torrent| -> (entry: (Vec<Peer>, u64))
                ensures
                    entry.0@ == torrent@.peers,
                    entry.1 == torrent@.times_downloaded(),
                { (torrent.copy_peers(), torrent.times_downloaded()) };
            let entry: (Vec<Peer>, u64) = match read_torrent(&self.torrents, &info_hash, read) {
                Some(entry) => entry,
                None => (Vec::new(), 0),
            };
            snapshot.push((info_hash, entry.0, entry.1));
            assert(snapshot@.map_values(|entry: (InfoHash, Vec<Peer>, u64)| entry.0)
                =~= hashes@.take(index + 1));
            index = index + 1;
        }
        assert(hashes@.take(index as int) =~= hashes@);
        snapshot
    }

    /// The torrents that the tracker counts, in no particular order.
    pub fn info_hashes(&self) -> (hashes: Vec<InfoHash>)
        requires
            self.valid(),
        ensures
            hashes@.no_duplicates(),
            hashes@.to_set() == self@.known(),
    {
        let keys: Vec<InfoHash> = list_keys(&self.torrents);
        let mut hashes: Vec<InfoHash> = Vec::new();
        let mut index: usize = 0;
        while index < keys.len()
            invariant
                self.valid(),
                0 <= index <= keys@.len(),
                keys@.no_duplicates(),
                keys@.to_set() == torrents_in(self.torrents).dom(),
                hashes@.no_duplicates(),
                forall|info_hash: InfoHash| #[trigger]
                    hashes@.contains(info_hash) <==> keys@.take(index as int).contains(info_hash)
                        && self@.torrent(info_hash).is_known(),
            decreases keys@.len() - index,
        {
            let info_hash: InfoHash = keys[index];
            assert(keys@.contains(info_hash));
            assert(torrents_in(self.torrents).contains_key(info_hash));
            let read = |_info_hash: &InfoHash, torrent: &Torrent| -> (known: bool)
                ensures
                    known == torrent@.is_known(),
                { torrent.is_known() };
            let ghost before = hashes@;
            let known: bool = match read_torrent(&self.torrents, &info_hash, read) {
                Some(known) => known,
                None => false,
            };
            proof {
                lemma_take_next(keys@, index as int);
                lemma_push_contains(before, info_hash);
            }
            if known {
                hashes.push(info_hash);
            }
            index = index + 1;
        }
        proof {
            assert(keys@.take(index as int) =~= keys@);
            assert forall|info_hash: InfoHash| hashes@.to_set().contains(info_hash)
                == self@.known().contains(info_hash) by {
                assert(hashes@.contains(info_hash) <==> keys@.contains(info_hash)
                    && self@.torrent(info_hash).is_known());
                assert(keys@.to_set().contains(info_hash) == keys@.contains(info_hash));
            }
            assert(hashes@.to_set() =~= self@.known());
        }
        hashes
    }

    /// How many torrents the tracker counts.
    pub fn torrent_count(&self) -> (count: usize)
        requires
            self.valid(),
        ensures
            self@.known().finite(),
            count == capped(self@.known().len(), usize::MAX as nat),
    {
        proof {
            lemma_known_count(self@);
        }
        to_word(self.totals.torrents)
    }

    /// How many torrents have peers.
    pub fn swarm_count(&self) -> (count: usize)
        requires
            self.valid(),
        ensures
            self@.active().finite(),
            count == capped(self@.active().len(), usize::MAX as nat),
    {
        proof {
            lemma_active_count(self@);
        }
        to_word(self.totals.swarms)
    }

    /// How many peers all torrents have together.
    pub fn peer_count(&self) -> (count: usize)
        requires
            self.valid(),
        ensures
            count == capped(self@.total(peers_weight()), usize::MAX as nat),
    {
        to_word(self.totals.peers)
    }

    /// The number of peers, torrents and completed downloads.
    pub fn summary(&self) -> (summary: TrackerSummary)
        requires
            self.valid(),
        ensures
            summary.peers == capped(self@.total(peers_weight()), usize::MAX as nat),
            summary.seeders == capped(self@.total(seeders_weight()), usize::MAX as nat),
            summary.leechers == capped(self@.total(leechers_weight()), usize::MAX as nat),
            summary.torrents == capped(self@.known().len(), usize::MAX as nat),
            summary.completed == capped(self@.total(completed_weight()), u64::MAX as nat),
    {
        TrackerSummary {
            peers: self.peer_count(),
            seeders: to_word(self.totals.seeders),
            leechers: to_word(self.totals.leechers),
            torrents: self.torrent_count(),
            completed: if self.totals.completed <= u64::MAX as u128 {
                self.totals.completed as u64
            } else {
                u64::MAX
            },
        }
    }

    /// Takes out the peers that were not seen for `max_age` seconds, by the
    /// clock.
    pub fn remove_stale(&mut self, max_age: u64)
        requires
            old(self).valid(),
        ensures
            final(self).valid(),
            exists|now: u64| #[trigger]
                seconds_before(now, max_age) <= now && final(self)@ == old(self)@.without_stale(
                    seconds_before(now, max_age),
                ),
    {
        let now: u64 = unix_timestamp();
        let cutoff: u64 = now.saturating_sub(max_age);
        assert(cutoff == seconds_before(now, max_age));
        self.remove_stale_before(cutoff);
    }

    /// Takes out the peers last seen before `cutoff`.
    pub fn remove_stale_before(&mut self, cutoff: u64)
        requires
            old(self).valid(),
        ensures
            final(self).valid(),
            final(self)@ == old(self)@.without_stale(cutoff),
    {
        let keys: Vec<InfoHash> = list_keys(&self.torrents);
        let ghost before = self@;
        let revision: u64 = if self.revision < u64::MAX {
            self.revision + 1
        } else {
            0
        };
        let mut any: bool = false;
        let mut index: usize = 0;
        proof {
            assert forall|info_hash: InfoHash| keys@.contains(info_hash)
                == before.torrents.contains_key(info_hash) by {
                assert(keys@.to_set().contains(info_hash) == keys@.contains(info_hash));
            }
        }
        while index < keys.len()
            invariant
                self.valid(),
                0 <= index <= keys@.len(),
                keys@.no_duplicates(),
                forall|info_hash: InfoHash|
                    keys@.contains(info_hash) == before.torrents.contains_key(info_hash),
                revision == next_revision(before.revision),
                self@.revision == before.revision,
                forall|i: int|
                    0 <= i < index ==> self@.torrent(#[trigger] keys@[i]) == before.torrent(
                        keys@[i],
                    ).without_stale(cutoff, revision),
                forall|i: int|
                    0 <= i < index ==> (self@.torrents.contains_key(#[trigger] keys@[i])
                        <==> !before.torrent(keys@[i]).without_stale(cutoff, revision).is_vacant()),
                forall|i: int|
                    index <= i < keys@.len() ==> self@.torrents.contains_key(#[trigger] keys@[i])
                        && self@.torrents[keys@[i]] == before.torrents[keys@[i]],
                forall|info_hash: InfoHash|
                    !keys@.contains(info_hash) ==> !(#[trigger] self@.torrents.contains_key(
                        info_hash,
                    )),
                any <==> exists|i: int|
                    0 <= i < index && #[trigger] before.has_stale(keys@[i], cutoff),
            decreases keys@.len() - index,
        {
            let info_hash: InfoHash = keys[index];
            let ghost current = self@;
            let mut torrent: Torrent = self.take(&info_hash);
            assert(keys@.contains(info_hash));
            assert(torrent@ == before.torrent(info_hash));
            let changed: bool = torrent.remove_stale(cutoff, revision);
            let ghost model = torrent@;
            self.put(info_hash, torrent);
            proof {
                lemma_take_and_put(current, info_hash, model);
                assert(changed == before.has_stale(keys@[index as int], cutoff));
                assert forall|i: int| 0 <= i < keys@.len() && i != index implies #[trigger]
                    keys@[i] != info_hash by {}
            }
            if changed {
                any = true;
            }
            index = index + 1;
        }
        proof {
            let wanted = before.without_stale(cutoff);
            assert forall|info_hash: InfoHash| self@.torrents.contains_key(info_hash)
                == wanted.torrents.contains_key(info_hash) by {
                if keys@.contains(info_hash) {
                    let i = choose|i: int| 0 <= i < keys@.len() && keys@[i] == info_hash;
                    assert(keys@[i] == info_hash);
                }
            }
            assert forall|info_hash: InfoHash| self@.torrents.contains_key(info_hash) implies
                self@.torrents[info_hash] == wanted.torrents[info_hash] by {
                assert(keys@.contains(info_hash));
                let i = choose|i: int| 0 <= i < keys@.len() && keys@[i] == info_hash;
                assert(self@.torrent(keys@[i]) == before.torrent(keys@[i]).without_stale(
                    cutoff,
                    revision,
                ));
            }
            assert(self@.torrents =~= wanted.torrents);
            if exists|info_hash: InfoHash| #[trigger] before.has_stale(info_hash, cutoff) {
                let stale = choose|info_hash: InfoHash| #[trigger]
                    before.has_stale(info_hash, cutoff);
                lemma_empty_has_no_stale(before, stale, cutoff);
                assert(keys@.contains(stale));
                let i = choose|i: int| 0 <= i < keys@.len() && keys@[i] == stale;
                assert(before.has_stale(keys@[i], cutoff));
            }
        }
        if any {
            self.revise();
        }
        assert(self@ =~= before.without_stale(cutoff));
    }

    /// The changes that are not yet saved, in no particular order. They stay
    /// unsaved until they are acknowledged.
    pub fn drain_changes(&self) -> (changes: Vec<TorrentChange>)
        requires
            self.valid(),
        ensures
            self@.lists_changes(changes@),
    {
        let keys: Vec<InfoHash> = list_keys(&self.torrents);
        let mut changes: Vec<TorrentChange> = Vec::new();
        let ghost hash_of = |change: TorrentChange| change.info_hash;
        let mut index: usize = 0;
        while index < keys.len()
            invariant
                self.valid(),
                0 <= index <= keys@.len(),
                keys@.no_duplicates(),
                keys@.to_set() == torrents_in(self.torrents).dom(),
                hash_of == (|change: TorrentChange| change.info_hash),
                changes@.map_values(hash_of).no_duplicates(),
                forall|info_hash: InfoHash| #[trigger]
                    changes@.map_values(hash_of).contains(info_hash) <==> keys@.take(
                        index as int,
                    ).contains(info_hash) && self@.torrent(info_hash).pending is Some,
                forall|i: int|
                    0 <= i < changes@.len() ==> (#[trigger] changes@[i]).describes(
                        changes@[i].info_hash,
                        self@.torrent(changes@[i].info_hash),
                    ),
            decreases keys@.len() - index,
        {
            let info_hash: InfoHash = keys[index];
            assert(keys@.contains(info_hash));
            assert(torrents_in(self.torrents).contains_key(info_hash));
            let read = |key: &InfoHash, torrent: &Torrent| -> (change: Option<TorrentChange>)
                ensures
                    change is Some <==> torrent@.pending is Some,
                    change matches Some(change) ==> change.describes(*key, torrent@),
                {
                    match torrent.pending {
                        None => None,
                        Some(revision) => Some(
                            TorrentChange {
                                info_hash: *key,
                                revision,
                                peers: torrent.copy_peers(),
                                downloaded: if torrent.is_known() {
                                    Some(torrent.times_downloaded())
                                } else {
                                    None
                                },
                            },
                        ),
                    }
                };
            let ghost before = changes@.map_values(hash_of);
            proof {
                lemma_take_next(keys@, index as int);
                lemma_push_contains(before, info_hash);
            }
            if let Some(Some(change)) = read_torrent(&self.torrents, &info_hash, read) {
                changes.push(change);
                assert(changes@.map_values(hash_of) =~= before.push(info_hash));
            }
            index = index + 1;
        }
        proof {
            assert(keys@.take(index as int) =~= keys@);
            let hashes = changes@.map_values(hash_of);
            assert forall|info_hash: InfoHash| hashes.to_set().contains(info_hash)
                == self@.unsaved().contains(info_hash) by {
                assert(hashes.contains(info_hash) <==> keys@.contains(info_hash) && self@.torrent(
                    info_hash,
                ).pending is Some);
                assert(keys@.to_set().contains(info_hash) == keys@.contains(info_hash));
            }
            assert(hashes.to_set() =~= self@.unsaved());
        }
        changes
    }

    /// Marks changes as saved. A torrent that has changed again since stays
    /// unsaved.
    pub fn acknowledge_changes(&mut self, changes: &Vec<TorrentChange>)
        requires
            old(self).valid(),
        ensures
            final(self).valid(),
            final(self)@ == old(self)@.all_acknowledged(changes@),
    {
        let mut index: usize = 0;
        while index < changes.len()
            invariant
                self.valid(),
                0 <= index <= changes@.len(),
                self@ == old(self)@.all_acknowledged(changes@.take(index as int)),
            decreases changes@.len() - index,
        {
            let info_hash: InfoHash = changes[index].info_hash;
            let revision: u64 = changes[index].revision;
            let ghost before = self@;
            let mut torrent: Torrent = self.take(&info_hash);
            if let Some(pending) = torrent.pending {
                if pending == revision {
                    torrent.pending = None;
                }
            }
            let ghost model = torrent@;
            self.put(info_hash, torrent);
            proof {
                lemma_take_and_put(before, info_hash, model);
                lemma_put_back(before, info_hash);
                assert(self@ =~= before.acknowledged(info_hash, revision));
                assert(changes@.take(index + 1).drop_last() =~= changes@.take(index as int));
            }
            index = index + 1;
        }
        assert(changes@.take(index as int) =~= changes@);
    }
}

/// A sum as a machine word.
fn to_word(total: u128) -> (word: usize)
    ensures
        word == capped(total as nat, usize::MAX as nat),
{
    if total <= usize::MAX as u128 {
        total as usize
    } else {
        usize::MAX
    }
}

/// The second that lies `age` seconds before `now`, or the first of all.
pub open spec fn seconds_before(now: u64, age: u64) -> u64 {
    if now >= age {
        (now - age) as u64
    } else {
        0
    }
}

/// Taking a torrent out and putting another in its place.
proof fn lemma_take_and_put(model: TrackerModel, info_hash: InfoHash, torrent: TorrentModel)
    ensures
        (TrackerModel { torrents: model.torrents.remove(info_hash), ..model }).with_torrent(
            info_hash,
            torrent,
        ) == model.with_torrent(info_hash, torrent),
{
    let taken = model.torrents.remove(info_hash);
    assert(taken.remove(info_hash) =~= taken);
    assert(taken.insert(info_hash, torrent) =~= model.torrents.insert(info_hash, torrent));
}

/// Putting a torrent back as it was changes nothing, unless it was held though
/// vacant.
proof fn lemma_put_back(model: TrackerModel, info_hash: InfoHash)
    requires
        model.torrents.contains_key(info_hash) ==> !model.torrents[info_hash].is_vacant(),
    ensures
        model.with_torrent(info_hash, model.torrent(info_hash)) == model,
{
    if model.torrents.contains_key(info_hash) {
        assert(model.torrents.insert(info_hash, model.torrents[info_hash]) =~= model.torrents);
    } else {
        assert(model.torrents.remove(info_hash) =~= model.torrents);
    }
}

/// A torrent that is not held has nothing stale.
proof fn lemma_empty_has_no_stale(model: TrackerModel, info_hash: InfoHash, cutoff: u64)
    ensures
        model.has_stale(info_hash, cutoff) ==> model.torrents.contains_key(info_hash),
{
    if !model.torrents.contains_key(info_hash) {
        assert(fresh_peers(Seq::<Peer>::empty(), cutoff) =~= Seq::<Peer>::empty());
    }
}

/// The sum that counts the known torrents is their number.
proof fn lemma_known_count(model: TrackerModel)
    requires
        model.torrents.dom().finite(),
    ensures
        model.known().finite(),
        model.total(torrents_weight()) == model.known().len(),
{
    assert(model.known().subset_of(model.torrents.dom()));
    lemma_set_sum_counts(
        model.torrents.dom(),
        model.known(),
        |info_hash: InfoHash| torrents_weight()(model.torrents[info_hash]),
    );
}

/// The sum that counts the torrents with peers is their number.
proof fn lemma_active_count(model: TrackerModel)
    requires
        model.torrents.dom().finite(),
    ensures
        model.active().finite(),
        model.total(swarms_weight()) == model.active().len(),
{
    assert(model.active().subset_of(model.torrents.dom()));
    lemma_set_sum_counts(
        model.torrents.dom(),
        model.active(),
        |info_hash: InfoHash| swarms_weight()(model.torrents[info_hash]),
    );
}

/// What the first elements contain once there is one more.
proof fn lemma_take_next(keys: Seq<InfoHash>, index: int)
    requires
        0 <= index < keys.len(),
        keys.no_duplicates(),
    ensures
        !keys.take(index).contains(keys[index]),
        forall|key: InfoHash| #[trigger]
            keys.take(index + 1).contains(key) <==> keys.take(index).contains(key) || key
                == keys[index],
{
    assert forall|key: InfoHash| #[trigger] keys.take(index + 1).contains(key) implies keys.take(
        index,
    ).contains(key) || key == keys[index] by {
        let more = keys.take(index + 1);
        let i = choose|i: int| 0 <= i < more.len() && more[i] == key;
        if i < index {
            assert(keys.take(index)[i] == key);
        }
    }
    assert forall|key: InfoHash| keys.take(index).contains(key) || key == keys[index] implies
        #[trigger] keys.take(index + 1).contains(key) by {
        if key == keys[index] {
            assert(keys.take(index + 1)[index] == key);
        } else {
            let first = keys.take(index);
            let i = choose|i: int| 0 <= i < first.len() && first[i] == key;
            assert(keys.take(index + 1)[i] == key);
        }
    }
}

/// What a sequence contains once an element was pushed.
proof fn lemma_push_contains(keys: Seq<InfoHash>, last: InfoHash)
    ensures
        forall|key: InfoHash| #[trigger]
            keys.push(last).contains(key) <==> keys.contains(key) || key == last,
        keys.no_duplicates() && !keys.contains(last) ==> keys.push(last).no_duplicates(),
{
    let pushed = keys.push(last);
    assert forall|key: InfoHash| keys.contains(key) || key == last implies #[trigger]
        pushed.contains(key) by {
        if key == last {
            assert(pushed[keys.len() as int] == key);
        } else {
            let i = choose|i: int| 0 <= i < keys.len() && keys[i] == key;
            assert(pushed[i] == key);
        }
    }
    assert forall|key: InfoHash| #[trigger] pushed.contains(key) implies keys.contains(key) || key
        == last by {
        let i = choose|i: int| 0 <= i < pushed.len() && pushed[i] == key;
        if i < keys.len() {
            assert(keys[i] == key);
        }
    }
}

} // verus!
