//! What holds of the tracker's memory across several operations.

use crate::state::{
    leechers_weight, next_revision, peers_weight, seeders_weight, AnnounceEvent,
    InfoHash, Peer, PeerId, TorrentChange, TorrentModel, TrackerModel, TrackerState,
};
use crate::sums::set_sum;
use crate::swarm::{
    distinct_peers, fresh_peers, has_peer, lemma_fresh_peers, lemma_peer_index,
    lemma_seeders_bound, lemma_with_peer, listed_peers, other_peers, peer_index, seeders, with_peer,
    without_peer,
};
use vstd::prelude::*;

verus! {

/// An announce touches only the torrent that it names.
pub proof fn law_announce_touches_one_torrent(
    model: TrackerModel,
    info_hash: InfoHash,
    peer: Peer,
    event: AnnounceEvent,
    other: InfoHash,
)
    requires
        other != info_hash,
    ensures
        model.announced(info_hash, peer, event).torrent(other) == model.torrent(other),
{
}

/// A peer that announced itself is in the swarm as it described itself, once.
pub proof fn law_announced_peer_is_entered(
    model: TrackerModel,
    info_hash: InfoHash,
    peer: Peer,
    event: AnnounceEvent,
)
    requires
        !(event is Stopped),
    ensures
        ({
            let peers = model.announced(info_hash, peer, event).torrent(info_hash).peers;
            has_peer(peers, peer.peer_id) && peers[peer_index(peers, peer.peer_id)] == peer
        }),
{
    lemma_with_peer(model.torrent(info_hash).peers, peer);
}

/// A peer that stopped is in the swarm no longer.
pub proof fn law_stopped_peer_has_left(model: TrackerModel, info_hash: InfoHash, peer: Peer)
    requires
        distinct_peers(model.torrent(info_hash).peers),
    ensures
        !has_peer(
            model.announced(info_hash, peer, AnnounceEvent::Stopped).torrent(info_hash).peers,
            peer.peer_id,
        ),
{
    lemma_without_peer(model.torrent(info_hash).peers, peer.peer_id);
}

/// A torrent that was unknown before its only peer started is unknown again
/// once that peer stops, and no other torrent has changed.
pub proof fn law_stop_undoes_start(
    model: TrackerModel,
    info_hash: InfoHash,
    started: Peer,
    stopped: Peer,
)
    requires
        !model.torrent(info_hash).is_known(),
        started.peer_id == stopped.peer_id,
    ensures
        ({
            let after = model.announced(info_hash, started, AnnounceEvent::Started).announced(
                info_hash,
                stopped,
                AnnounceEvent::Stopped,
            );
            &&& !after.torrent(info_hash).is_known()
            &&& forall|other: InfoHash|
                other != info_hash ==> #[trigger] after.torrent(other) == model.torrent(other)
        }),
{
    let torrent = model.torrent(info_hash);
    lemma_with_peer(torrent.peers, started);
    let entered = with_peer(torrent.peers, started);
    assert(torrent.peers.len() == 0);
    assert(peer_index(torrent.peers, started.peer_id) == 0);
    assert(entered.len() == 1);
    lemma_peer_index(entered, stopped.peer_id);
    assert(without_peer(entered, stopped.peer_id).len() == 0);
}

/// A download that a peer reports again is counted once.
pub proof fn law_completion_is_counted_once(
    model: TrackerModel,
    info_hash: InfoHash,
    first: Peer,
    second: Peer,
)
    requires
        first.left == 0,
        first.peer_id == second.peer_id,
    ensures
        ({
            let once = model.announced(info_hash, first, AnnounceEvent::Completed);
            once.announced(info_hash, second, AnnounceEvent::Completed).torrent(
                info_hash,
            ).times_downloaded() == once.torrent(info_hash).times_downloaded()
        }),
{
    lemma_with_peer(model.torrent(info_hash).peers, first);
}

/// No announce takes a download back, and only a completed one adds to the
/// count, by one.
pub proof fn law_downloads_only_grow(
    model: TrackerModel,
    info_hash: InfoHash,
    peer: Peer,
    event: AnnounceEvent,
)
    ensures
        ({
            let before = model.torrent(info_hash).times_downloaded();
            let after = model.announced(info_hash, peer, event).torrent(
                info_hash,
            ).times_downloaded();
            &&& before <= after <= before + 1
            &&& after == before + 1 ==> event is Completed
        }),
{
}

/// Taking out stale peers keeps every torrent's download count.
pub proof fn law_download_history_is_retained(
    model: TrackerModel,
    cutoff: u64,
    info_hash: InfoHash,
)
    ensures
        model.without_stale(cutoff).torrent(info_hash).times_downloaded() == model.torrent(
            info_hash,
        ).times_downloaded(),
{
    if !model.torrents.contains_key(info_hash) {
        assert(!model.without_stale(cutoff).torrents.contains_key(info_hash));
    }
}

/// Once stale peers are taken out, exactly the fresh peers are left, and a
/// torrent without peers is known only by its downloads.
pub proof fn law_only_fresh_peers_remain(model: TrackerModel, cutoff: u64, info_hash: InfoHash)
    ensures
        ({
            let before = model.torrent(info_hash);
            let after = model.without_stale(cutoff).torrent(info_hash);
            &&& after.peers == fresh_peers(before.peers, cutoff)
            &&& forall|i: int|
                0 <= i < after.peers.len() ==> (#[trigger] after.peers[i]).last_seen >= cutoff
            &&& after.peers.len() == 0 ==> (after.is_known() <==> after.times_downloaded() > 0)
        }),
{
    lemma_fresh_peers(model.torrent(info_hash).peers, cutoff);
    if !model.torrents.contains_key(info_hash) {
        assert(!model.without_stale(cutoff).torrents.contains_key(info_hash));
        assert(fresh_peers(Seq::<Peer>::empty(), cutoff) =~= Seq::<Peer>::empty());
    }
}

/// Taking out stale peers twice is the same as once.
pub proof fn law_cleanup_is_idempotent(model: TrackerModel, cutoff: u64, info_hash: InfoHash)
    ensures
        !model.without_stale(cutoff).has_stale(info_hash, cutoff),
{
    law_only_fresh_peers_remain(model, cutoff, info_hash);
    let after = model.without_stale(cutoff).torrent(info_hash);
    lemma_all_fresh(after.peers, cutoff);
    if after.peers.len() == 0 && after.downloaded == Some(0u64) {
        assert(after.is_known());
    }
}

/// A list of peers for an announce holds as many as were asked for, or all but
/// the asker where there are fewer; all of them from the swarm, never the asker,
/// and none twice.
pub proof fn law_listed_peers(peers: Seq<Peer>, exclude: PeerId, limit: nat)
    ensures
        listed_peers(peers, exclude, limit).len() <= limit,
        forall|i: int|
            0 <= i < listed_peers(peers, exclude, limit).len() ==> {
                let listed = #[trigger] listed_peers(peers, exclude, limit)[i];
                peers.contains(listed) && listed.peer_id != exclude
            },
        distinct_peers(peers) ==> listed_peers(peers, exclude, limit).len() == listed_count(
            peers,
            exclude,
            limit,
        ),
        distinct_peers(peers) ==> distinct_peers(listed_peers(peers, exclude, limit)),
{
    lemma_other_peers(peers, exclude);
    if distinct_peers(peers) {
        lemma_others_are_distinct(peers, exclude);
        let others = other_peers(peers, exclude);
        let listed = listed_peers(peers, exclude, limit);
        assert forall|i: int, j: int| 0 <= i < j < listed.len() implies #[trigger]
            listed[i].peer_id != #[trigger] listed[j].peer_id by {
            assert(listed[i] == others[i] && listed[j] == others[j]);
        }
    }
}

/// How many peers a list holds: the limit, or all but the asker where there are
/// fewer.
pub open spec fn listed_count(peers: Seq<Peer>, exclude: PeerId, limit: nat) -> nat {
    let others = if has_peer(peers, exclude) {
        (peers.len() - 1) as nat
    } else {
        peers.len()
    };
    if others <= limit {
        others
    } else {
        limit
    }
}

/// Where identifiers are distinct, those of the other peers are, and only the
/// asker is missing.
proof fn lemma_others_are_distinct(peers: Seq<Peer>, exclude: PeerId)
    requires
        distinct_peers(peers),
    ensures
        distinct_peers(other_peers(peers, exclude)),
        other_peers(peers, exclude).len() == if has_peer(peers, exclude) {
            peers.len() - 1
        } else {
            peers.len() as int
        },
    decreases peers.len(),
{
    lemma_peer_index(peers, exclude);
    if peers.len() > 0 {
        let head = peers.drop_last();
        let last = peers.len() - 1;
        assert forall|i: int, j: int| 0 <= i < j < head.len() implies #[trigger] head[i].peer_id
            != #[trigger] head[j].peer_id by {
            assert(peers[i].peer_id != peers[j].peer_id);
        }
        lemma_others_are_distinct(head, exclude);
        lemma_other_peers(head, exclude);
        lemma_peer_index(head, exclude);
        if peers.last().peer_id == exclude && has_peer(head, exclude) {
            let index = peer_index(head, exclude);
            assert(head[index] == peers[index]);
            assert(peers[index].peer_id != peers[last].peer_id);
        }
        let before = other_peers(head, exclude);
        let after = other_peers(peers, exclude);
        assert forall|i: int, j: int| 0 <= i < j < after.len() implies #[trigger] after[i].peer_id
            != #[trigger] after[j].peer_id by {
            if j < before.len() {
                assert(after[i] == before[i] && after[j] == before[j]);
            } else {
                assert(after[i] == before[i]);
                assert(head.contains(before[i]));
                let k = choose|k: int| 0 <= k < head.len() && head[k] == before[i];
                assert(peers[k].peer_id != peers[last].peer_id);
            }
        }
    }
}

/// Every peer of the swarm but the asker is listed where the limit allows it.
pub proof fn law_every_other_peer_is_listed(
    peers: Seq<Peer>,
    exclude: PeerId,
    limit: nat,
    index: int,
)
    requires
        peers.len() <= limit,
        0 <= index < peers.len(),
        peers[index].peer_id != exclude,
    ensures
        listed_peers(peers, exclude, limit).contains(peers[index]),
{
    lemma_other_peers(peers, exclude);
    lemma_other_peer_is_kept(peers, exclude, index);
}

/// In every state of the tracker a torrent's seeders and leechers make up its
/// peers, and no peer is entered twice.
pub proof fn law_swarm_counts_are_consistent(state: TrackerState, info_hash: InfoHash)
    requires
        state.valid(),
    ensures
        ({
            let torrent = state@.torrent(info_hash);
            &&& torrent.stats().complete + torrent.stats().incomplete == torrent.peers.len()
            &&& torrent.stats().complete == seeders(torrent.peers)
            &&& distinct_peers(torrent.peers)
        }),
{
    state.lemma_torrent(info_hash);
    lemma_seeders_bound(state@.torrent(info_hash).peers);
}

/// Over the whole tracker, seeders and leechers make up the peers.
pub proof fn law_population_is_consistent(model: TrackerModel)
    requires
        model.torrents.dom().finite(),
    ensures
        model.total(seeders_weight()) + model.total(leechers_weight()) == model.total(
            peers_weight(),
        ),
{
    lemma_population(model.torrents, model.torrents.dom());
}

/// An announce that changes a torrent leaves that torrent to be saved.
pub proof fn law_changes_are_to_be_saved(
    model: TrackerModel,
    info_hash: InfoHash,
    peer: Peer,
    event: AnnounceEvent,
)
    ensures
        model.announced(info_hash, peer, event) != model ==> model.announced(
            info_hash,
            peer,
            event,
        ).unsaved().contains(info_hash),
{
}

/// Once every unsaved change has been handed out and acknowledged, nothing is
/// left to be saved, and no torrent has changed.
pub proof fn law_acknowledged_changes_are_saved(model: TrackerModel, changes: Seq<TorrentChange>)
    requires
        forall|info_hash: InfoHash| #[trigger]
            model.unsaved().contains(info_hash) ==> exists|i: int|
                0 <= i < changes.len() && (#[trigger] changes[i]).describes(
                    info_hash,
                    model.torrent(info_hash),
                ),
    ensures
        forall|info_hash: InfoHash| #[trigger]
            model.all_acknowledged(changes).torrent(info_hash) == (TorrentModel {
                pending: None,
                ..model.torrent(info_hash)
            }),
{
    assert forall|info_hash: InfoHash| #[trigger]
        model.all_acknowledged(changes).torrent(info_hash) == (TorrentModel {
        pending: None,
        ..model.torrent(info_hash)
    }) by {
        lemma_acknowledged(model, changes, info_hash);
        if model.torrent(info_hash).pending is Some {
            assert(model.unsaved().contains(info_hash));
            let i = choose|i: int|
                0 <= i < changes.len() && (#[trigger] changes[i]).describes(
                    info_hash,
                    model.torrent(info_hash),
                );
            assert(changes[i].info_hash == info_hash);
        }
    }
}

/// Whether every unsaved change bears a revision that was reached.
pub open spec fn revisions_are_reached(model: TrackerModel) -> bool {
    forall|info_hash: InfoHash|
        (#[trigger] model.torrent(info_hash)).pending matches Some(revision) ==> revision
            <= model.revision
}

/// Every unsaved change bears a revision that was reached, whatever is done,
/// until the revisions start again.
pub proof fn law_revisions_are_reached(
    model: TrackerModel,
    info_hash: InfoHash,
    peer: Peer,
    event: AnnounceEvent,
    downloaded: u64,
    cutoff: u64,
    changes: Seq<TorrentChange>,
)
    requires
        revisions_are_reached(model),
        model.revision < u64::MAX,
    ensures
        revisions_are_reached(model.announced(info_hash, peer, event)),
        revisions_are_reached(model.restored(info_hash, peer)),
        revisions_are_reached(model.with_downloaded(info_hash, downloaded)),
        revisions_are_reached(model.without_stale(cutoff)),
        revisions_are_reached(model.all_acknowledged(changes)),
{
    let pruned = model.without_stale(cutoff);
    assert forall|other: InfoHash|
        (#[trigger] pruned.torrent(other)).pending matches Some(revision) implies pruned.torrent(
        other,
    ).pending->Some_0 <= pruned.revision by {
        assert(model.torrent(other).pending matches Some(revision) ==> revision <= model.revision);
        if pruned.torrent(other).pending != model.torrent(other).pending {
            assert(model.has_stale(other, cutoff));
        }
    }
    let announced = model.announced(info_hash, peer, event);
    assert forall|other: InfoHash|
        (#[trigger] announced.torrent(other)).pending matches Some(revision) implies
        announced.torrent(other).pending->Some_0 <= announced.revision by {
        assert(model.torrent(other).pending matches Some(revision) ==> revision <= model.revision);
    }
    let restored = model.restored(info_hash, peer);
    assert forall|other: InfoHash|
        (#[trigger] restored.torrent(other)).pending matches Some(revision) implies
        restored.torrent(other).pending->Some_0 <= restored.revision by {
        assert(model.torrent(other).pending matches Some(revision) ==> revision <= model.revision);
    }
    let counted = model.with_downloaded(info_hash, downloaded);
    assert forall|other: InfoHash|
        (#[trigger] counted.torrent(other)).pending matches Some(revision) implies counted.torrent(
        other,
    ).pending->Some_0 <= counted.revision by {
        assert(model.torrent(other).pending matches Some(revision) ==> revision <= model.revision);
    }
    let after = model.all_acknowledged(changes);
    lemma_acknowledged_revision(model, changes);
    assert forall|other: InfoHash|
        (#[trigger] after.torrent(other)).pending matches Some(revision) implies after.torrent(
        other,
    ).pending->Some_0 <= after.revision by {
        lemma_acknowledged(model, changes, other);
        assert(model.torrent(other).pending matches Some(revision) ==> revision <= model.revision);
    }
}

/// Acknowledging changes is no change itself.
proof fn lemma_acknowledged_revision(model: TrackerModel, changes: Seq<TorrentChange>)
    ensures
        model.all_acknowledged(changes).revision == model.revision,
    decreases changes.len(),
{
    if changes.len() > 0 {
        lemma_acknowledged_revision(model, changes.drop_last());
    }
}

/// A torrent that changes between the handing out of its change and the
/// acknowledgement stays to be saved.
pub proof fn law_later_changes_stay_unsaved(
    model: TrackerModel,
    changes: Seq<TorrentChange>,
    info_hash: InfoHash,
    peer: Peer,
    event: AnnounceEvent,
)
    requires
        model.revision < u64::MAX,
        forall|i: int| 0 <= i < changes.len() ==> (#[trigger] changes[i]).revision <= model.revision,
        model.announced(info_hash, peer, event) != model,
    ensures
        model.announced(info_hash, peer, event).all_acknowledged(changes).unsaved().contains(
            info_hash,
        ),
{
    let later = model.announced(info_hash, peer, event);
    assert(later.torrent(info_hash).pending == Some(next_revision(model.revision)));
    lemma_acknowledged(later, changes, info_hash);
}

/// Taking a peer out leaves no other with its identifier.
proof fn lemma_without_peer(peers: Seq<Peer>, peer_id: PeerId)
    requires
        distinct_peers(peers),
    ensures
        !has_peer(without_peer(peers, peer_id), peer_id),
{
    lemma_peer_index(peers, peer_id);
    let index = peer_index(peers, peer_id);
    let after = without_peer(peers, peer_id);
    lemma_peer_index(after, peer_id);
    if has_peer(after, peer_id) {
        let found = peer_index(after, peer_id);
        if index < peers.len() {
            if found < index {
                assert(after[found] == peers[found]);
            } else {
                assert(after[found] == peers[found + 1]);
                assert(peers[index].peer_id != peers[found + 1].peer_id);
            }
        }
    }
}

/// Peers that are all fresh are all kept.
proof fn lemma_all_fresh(peers: Seq<Peer>, cutoff: u64)
    requires
        forall|i: int| 0 <= i < peers.len() ==> (#[trigger] peers[i]).last_seen >= cutoff,
    ensures
        fresh_peers(peers, cutoff) == peers,
    decreases peers.len(),
{
    if peers.len() > 0 {
        let head = peers.drop_last();
        assert forall|i: int| 0 <= i < head.len() implies (#[trigger] head[i]).last_seen
            >= cutoff by {
            assert(head[i] == peers[i]);
        }
        lemma_all_fresh(head, cutoff);
        assert(peers[peers.len() - 1].last_seen >= cutoff);
        assert(head.push(peers.last()) =~= peers);
    }
}

/// The other peers are from the swarm, without the excluded one.
proof fn lemma_other_peers(peers: Seq<Peer>, exclude: PeerId)
    ensures
        other_peers(peers, exclude).len() <= peers.len(),
        forall|i: int|
            0 <= i < other_peers(peers, exclude).len() ==> peers.contains(
                #[trigger] other_peers(peers, exclude)[i],
            ) && other_peers(peers, exclude)[i].peer_id != exclude,
    decreases peers.len(),
{
    if peers.len() > 0 {
        let head = peers.drop_last();
        let others = other_peers(peers, exclude);
        let head_others = other_peers(head, exclude);
        lemma_other_peers(head, exclude);
        assert forall|i: int| 0 <= i < others.len() implies peers.contains(#[trigger] others[i])
            && others[i].peer_id != exclude by {
            if i < head_others.len() {
                assert(others[i] == head_others[i]);
                assert(head.contains(head_others[i]));
                let j = choose|j: int| 0 <= j < head.len() && head[j] == head_others[i];
                assert(peers[j] == others[i]);
            } else {
                assert(peers[peers.len() - 1] == others[i]);
            }
        }
    }
}

/// A peer that is not excluded is among the other peers.
proof fn lemma_other_peer_is_kept(peers: Seq<Peer>, exclude: PeerId, index: int)
    requires
        0 <= index < peers.len(),
        peers[index].peer_id != exclude,
    ensures
        other_peers(peers, exclude).contains(peers[index]),
    decreases peers.len(),
{
    let head = peers.drop_last();
    let others = other_peers(peers, exclude);
    if index == peers.len() - 1 {
        assert(others[others.len() - 1] == peers[index]);
    } else {
        lemma_other_peer_is_kept(head, exclude, index);
        let head_others = other_peers(head, exclude);
        let j = choose|j: int| 0 <= j < head_others.len() && head_others[j] == head[index];
        assert(others[j] == peers[index]);
    }
}

/// Seeders and leechers make up the peers of any set of torrents.
proof fn lemma_population(torrents: Map<InfoHash, TorrentModel>, hashes: Set<InfoHash>)
    requires
        hashes.finite(),
    ensures
        set_sum(hashes, |key: InfoHash| seeders_weight()(torrents[key])) + set_sum(
            hashes,
            |key: InfoHash| leechers_weight()(torrents[key]),
        ) == set_sum(hashes, |key: InfoHash| peers_weight()(torrents[key])),
    decreases hashes.len(),
{
    if hashes.len() > 0 {
        let key = hashes.choose();
        assert(hashes.contains(key));
        lemma_population(torrents, hashes.remove(key));
        lemma_seeders_bound(torrents[key].peers);
    }
}

/// What acknowledging changes does to one torrent.
pub proof fn lemma_acknowledged(model: TrackerModel, changes: Seq<TorrentChange>, info_hash: InfoHash)
    ensures
        ({
            let before = model.torrent(info_hash);
            let after = model.all_acknowledged(changes).torrent(info_hash);
            &&& after.peers == before.peers
            &&& after.downloaded == before.downloaded
            &&& after.pending == if exists|i: int|
                0 <= i < changes.len() && (#[trigger] changes[i]).info_hash == info_hash
                    && before.pending == Some(changes[i].revision) {
                None
            } else {
                before.pending
            }
        }),
    decreases changes.len(),
{
    if changes.len() > 0 {
        let head = changes.drop_last();
        let last = changes.last();
        lemma_acknowledged(model, head, info_hash);
        let before = model.torrent(info_hash);
        let between = model.all_acknowledged(head).torrent(info_hash);
        let after = model.all_acknowledged(changes).torrent(info_hash);
        if between.is_vacant() {
            assert(between.peers =~= Seq::<Peer>::empty());
        }
        if exists|i: int|
            0 <= i < head.len() && (#[trigger] head[i]).info_hash == info_hash && before.pending
                == Some(head[i].revision) {
            let i = choose|i: int|
                0 <= i < head.len() && (#[trigger] head[i]).info_hash == info_hash
                    && before.pending == Some(head[i].revision);
            assert(changes[i].info_hash == info_hash && before.pending == Some(
                changes[i].revision,
            ));
        } else {
            if last.info_hash == info_hash && before.pending == Some(last.revision) {
                assert(changes[changes.len() - 1].info_hash == info_hash);
                if after.peers.len() == 0 {
                    assert(before.peers =~= Seq::<Peer>::empty());
                }
            } else {
                assert forall|i: int| 0 <= i < changes.len() implies !((
                #[trigger] changes[i]).info_hash == info_hash && before.pending == Some(
                    changes[i].revision,
                )) by {
                    if i < head.len() {
                        assert(changes[i] == head[i]);
                    }
                }
            }
        }
    }
}

} // verus!
