//! What announces, cleanups and listings do to the peers of a torrent, said of
//! the peers themselves.

use crate::state::{
    completed_weight, leechers_weight, next_revision, peers_weight, seconds_before, seeders_weight,
    AnnounceEvent, InfoHash, Peer, PeerId, TorrentModel, TrackerModel,
};
use crate::sums::{lemma_map_sum_remove, map_sum};
use crate::swarm::{
    distinct_peers, fresh_peers, has_peer, lemma_peer_index, lemma_peer_index_is, lemma_with_peer,
    listed_peers, other_peers, peer_index, seeders, with_peer,
};
use vstd::prelude::*;

verus! {

/// Where the peers of a torrent have distinct identifiers, a peer that stops
/// leaves and every other peer stays as it was: the number of peers falls by one
/// where the peer was there, and stays where it was not.
pub proof fn law_stop_takes_out_one_peer(model: TrackerModel, info_hash: InfoHash, peer: Peer)
    requires
        forall|i: int, j: int|
            0 <= i < j < model.torrent(info_hash).peers.len() ==> #[trigger] model.torrent(
                info_hash,
            ).peers[i].peer_id != #[trigger] model.torrent(info_hash).peers[j].peer_id,
    ensures
        forall|other: Peer| #[trigger]
            model.announced(info_hash, peer, AnnounceEvent::Stopped).torrent(
                info_hash,
            ).peers.contains(other) <==> model.torrent(info_hash).peers.contains(other)
                && other.peer_id != peer.peer_id,
        (exists|i: int|
            0 <= i < model.torrent(info_hash).peers.len() && #[trigger] model.torrent(
                info_hash,
            ).peers[i].peer_id == peer.peer_id) ==> model.announced(
            info_hash,
            peer,
            AnnounceEvent::Stopped,
        ).torrent(info_hash).peers.len() == model.torrent(info_hash).peers.len() - 1,
        (forall|i: int|
            0 <= i < model.torrent(info_hash).peers.len() ==> #[trigger] model.torrent(
                info_hash,
            ).peers[i].peer_id != peer.peer_id) ==> model.announced(
            info_hash,
            peer,
            AnnounceEvent::Stopped,
        ) == model,
{
    let before = model.torrent(info_hash).peers;
    let after = model.announced(info_hash, peer, AnnounceEvent::Stopped).torrent(info_hash).peers;
    lemma_peer_index(before, peer.peer_id);
    let index = peer_index(before, peer.peer_id);
    if has_peer(before, peer.peer_id) {
        assert(after =~= before.remove(index));
        assert forall|other: Peer| #[trigger] after.contains(other) <==> before.contains(other)
            && other.peer_id != peer.peer_id by {
            if after.contains(other) {
                let i = choose|i: int| 0 <= i < after.len() && after[i] == other;
                let k = if i < index {
                    i
                } else {
                    i + 1
                };
                assert(before[k] == other);
                if k < index {
                    assert(before[k].peer_id != before[index].peer_id);
                } else {
                    assert(before[index].peer_id != before[k].peer_id);
                }
            }
            if before.contains(other) && other.peer_id != peer.peer_id {
                let k = choose|k: int| 0 <= k < before.len() && before[k] == other;
                let i = if k < index {
                    k
                } else {
                    k - 1
                };
                assert(after[i] == other);
            }
        }
    } else {
        assert forall|other: Peer| #[trigger] after.contains(other) <==> before.contains(other)
            && other.peer_id != peer.peer_id by {
            if before.contains(other) {
                let k = choose|k: int| 0 <= k < before.len() && before[k] == other;
                assert(before[k].peer_id != peer.peer_id);
            }
        }
    }
    if forall|i: int| 0 <= i < before.len() ==> #[trigger] before[i].peer_id != peer.peer_id {
        if has_peer(before, peer.peer_id) {
            assert(before[index].peer_id != peer.peer_id);
        }
    }
}

/// Where the peers of a torrent have distinct identifiers, an announce that is
/// no stop enters the peer as it describes itself, in the place of the one with
/// its identifier, and every other peer stays as it was.
pub proof fn law_announce_enters_one_peer(
    model: TrackerModel,
    info_hash: InfoHash,
    peer: Peer,
    event: AnnounceEvent,
)
    requires
        event != AnnounceEvent::Stopped,
        forall|i: int, j: int|
            0 <= i < j < model.torrent(info_hash).peers.len() ==> #[trigger] model.torrent(
                info_hash,
            ).peers[i].peer_id != #[trigger] model.torrent(info_hash).peers[j].peer_id,
    ensures
        forall|other: Peer| #[trigger]
            model.announced(info_hash, peer, event).torrent(info_hash).peers.contains(other)
                <==> other == peer || (model.torrent(info_hash).peers.contains(other)
                && other.peer_id != peer.peer_id),
        (exists|i: int|
            0 <= i < model.torrent(info_hash).peers.len() && #[trigger] model.torrent(
                info_hash,
            ).peers[i].peer_id == peer.peer_id) ==> model.announced(
            info_hash,
            peer,
            event,
        ).torrent(info_hash).peers.len() == model.torrent(info_hash).peers.len(),
        (forall|i: int|
            0 <= i < model.torrent(info_hash).peers.len() ==> #[trigger] model.torrent(
                info_hash,
            ).peers[i].peer_id != peer.peer_id) ==> model.announced(
            info_hash,
            peer,
            event,
        ).torrent(info_hash).peers.len() == model.torrent(info_hash).peers.len() + 1,
{
    let before = model.torrent(info_hash).peers;
    lemma_with_peer(before, peer);
    lemma_entered_count(before, peer);
    assert(distinct_peers(before));
    assert(model.announced(info_hash, peer, event).torrent(info_hash).peers == with_peer(
        before,
        peer,
    ));
}

/// A saved peer that is entered again takes the place of the one with its
/// identifier, every other peer and the download count stay, and nothing
/// becomes to be saved by it.
pub proof fn law_restored_peer_is_entered(model: TrackerModel, info_hash: InfoHash, peer: Peer)
    requires
        forall|i: int, j: int|
            0 <= i < j < model.torrent(info_hash).peers.len() ==> #[trigger] model.torrent(
                info_hash,
            ).peers[i].peer_id != #[trigger] model.torrent(info_hash).peers[j].peer_id,
    ensures
        forall|other: Peer| #[trigger]
            model.restored(info_hash, peer).torrent(info_hash).peers.contains(other)
                <==> other == peer || (model.torrent(info_hash).peers.contains(other)
                && other.peer_id != peer.peer_id),
        model.restored(info_hash, peer).torrent(info_hash).downloaded == model.torrent(
            info_hash,
        ).downloaded,
        model.restored(info_hash, peer).torrent(info_hash).pending == model.torrent(
            info_hash,
        ).pending,
        forall|other: InfoHash|
            other != info_hash ==> #[trigger] model.restored(info_hash, peer).torrent(other)
                == model.torrent(other),
{
    let before = model.torrent(info_hash).peers;
    lemma_with_peer(before, peer);
    lemma_entered_count(before, peer);
    assert(distinct_peers(before));
    assert(with_peer(before, peer).len() > 0);
}

/// A download count that is set is the count, and nothing else changes.
pub proof fn law_set_count_is_the_count(model: TrackerModel, info_hash: InfoHash, downloaded: u64)
    ensures
        model.with_downloaded(info_hash, downloaded).torrent(info_hash).downloaded == Some(
            downloaded,
        ),
        model.with_downloaded(info_hash, downloaded).torrent(info_hash).peers == model.torrent(
            info_hash,
        ).peers,
        model.with_downloaded(info_hash, downloaded).torrent(info_hash).pending == model.torrent(
            info_hash,
        ).pending,
        forall|other: InfoHash|
            other != info_hash ==> #[trigger] model.with_downloaded(info_hash, downloaded).torrent(
                other,
            ) == model.torrent(other),
{
}

/// How many peers there are once one is entered.
proof fn lemma_entered_count(peers: Seq<Peer>, peer: Peer)
    ensures
        with_peer(peers, peer).len() == if has_peer(peers, peer.peer_id) {
            peers.len()
        } else {
            peers.len() + 1
        },
        has_peer(peers, peer.peer_id) <==> exists|i: int|
            0 <= i < peers.len() && #[trigger] peers[i].peer_id == peer.peer_id,
{
    lemma_peer_index(peers, peer.peer_id);
    if has_peer(peers, peer.peer_id) {
        assert(peers[peer_index(peers, peer.peer_id)].peer_id == peer.peer_id);
    }
}

/// A download is counted where a peer that was not there with nothing left says
/// that it is complete, and nowhere else. The count is kept once it is not zero.
pub proof fn law_downloads_are_counted(
    model: TrackerModel,
    info_hash: InfoHash,
    peer: Peer,
    event: AnnounceEvent,
)
    requires
        forall|i: int, j: int|
            0 <= i < j < model.torrent(info_hash).peers.len() ==> #[trigger] model.torrent(
                info_hash,
            ).peers[i].peer_id != #[trigger] model.torrent(info_hash).peers[j].peer_id,
    ensures
        event == AnnounceEvent::Completed && (forall|i: int|
            0 <= i < model.torrent(info_hash).peers.len() && #[trigger] model.torrent(
                info_hash,
            ).peers[i].peer_id == peer.peer_id ==> model.torrent(info_hash).peers[i].left != 0)
            && model.torrent(info_hash).times_downloaded() < u64::MAX ==> model.announced(
            info_hash,
            peer,
            event,
        ).torrent(info_hash).downloaded == Some(
            (model.torrent(info_hash).times_downloaded() + 1) as u64,
        ),
        event != AnnounceEvent::Completed || (exists|i: int|
            0 <= i < model.torrent(info_hash).peers.len() && #[trigger] model.torrent(
                info_hash,
            ).peers[i].peer_id == peer.peer_id && model.torrent(info_hash).peers[i].left == 0)
            ==> model.announced(info_hash, peer, event).torrent(info_hash).times_downloaded()
            == model.torrent(info_hash).times_downloaded(),
        event != AnnounceEvent::Stopped ==> model.announced(info_hash, peer, event).torrent(
            info_hash,
        ).downloaded is Some,
        match model.torrent(info_hash).downloaded {
            Some(count) => model.torrent(info_hash).times_downloaded() == count,
            None => model.torrent(info_hash).times_downloaded() == 0,
        },
{
    let peers = model.torrent(info_hash).peers;
    lemma_peer_index(peers, peer.peer_id);
    lemma_entered_count(peers, peer);
    let index = peer_index(peers, peer.peer_id);
    assert forall|i: int|
        0 <= i < peers.len() && #[trigger] peers[i].peer_id == peer.peer_id implies i == index by {
        if i < index {
            assert(peers[i].peer_id != peer.peer_id);
        }
        if index < i {
            assert(peers[index].peer_id != peers[i].peer_id);
        }
    }
}

/// A torrent is known while it has peers or was ever downloaded: a stop of its
/// last peer forgets it exactly where its count is zero.
pub proof fn law_torrent_is_forgotten_with_its_last_peer(
    model: TrackerModel,
    info_hash: InfoHash,
    peer: Peer,
)
    requires
        model.torrent(info_hash).peers.len() == 1,
        model.torrent(info_hash).peers[0].peer_id == peer.peer_id,
    ensures
        model.known().contains(info_hash),
        model.announced(info_hash, peer, AnnounceEvent::Stopped).torrent(info_hash).peers.len()
            == 0,
        model.announced(info_hash, peer, AnnounceEvent::Stopped).known().contains(info_hash)
            <==> model.torrent(info_hash).downloaded is Some && model.torrent(info_hash).downloaded
            != Some(0u64),
        forall|other: InfoHash|
            other != info_hash ==> (#[trigger] model.announced(
                info_hash,
                peer,
                AnnounceEvent::Stopped,
            ).known().contains(other) <==> model.torrent(other).peers.len() > 0 || model.torrent(
                other,
            ).downloaded is Some),
{
    lemma_peer_index_is(model.torrent(info_hash).peers, peer.peer_id, 0);
}

/// An announce that is no stop makes its torrent known.
pub proof fn law_announced_torrent_is_known(
    model: TrackerModel,
    info_hash: InfoHash,
    peer: Peer,
    event: AnnounceEvent,
)
    requires
        event != AnnounceEvent::Stopped,
    ensures
        model.announced(info_hash, peer, event).known().contains(info_hash),
        model.announced(info_hash, peer, event).active().contains(info_hash),
        forall|other: InfoHash|
            other != info_hash ==> (#[trigger] model.announced(
                info_hash,
                peer,
                event,
            ).known().contains(other) <==> model.torrent(other).peers.len() > 0 || model.torrent(
                other,
            ).downloaded is Some),
        forall|other: InfoHash|
            other != info_hash ==> (#[trigger] model.announced(
                info_hash,
                peer,
                event,
            ).active().contains(other) <==> model.torrent(other).peers.len() > 0),
{
    lemma_entered_count(model.torrent(info_hash).peers, peer);
}

/// An announce that changes a torrent gives it a change to be saved under a new
/// revision, and the tracker moves on to that revision.
pub proof fn law_announce_is_a_revision(
    model: TrackerModel,
    info_hash: InfoHash,
    peer: Peer,
    event: AnnounceEvent,
)
    requires
        model.revision < u64::MAX,
        event != AnnounceEvent::Stopped || exists|i: int|
            0 <= i < model.torrent(info_hash).peers.len() && #[trigger] model.torrent(
                info_hash,
            ).peers[i].peer_id == peer.peer_id,
    ensures
        model.announced(info_hash, peer, event).revision == model.revision + 1,
        model.announced(info_hash, peer, event).torrent(info_hash).pending == Some(
            (model.revision + 1) as u64,
        ),
{
    lemma_entered_count(model.torrent(info_hash).peers, peer);
}

/// A cleanup keeps exactly the peers that were seen at the cutoff or later, each
/// as it was and in its order, in every torrent. It keeps every download count
/// but a zero one of a torrent that is left without peers.
pub proof fn law_cleanup_keeps_fresh_peers(
    model: TrackerModel,
    cutoff: u64,
    info_hash: InfoHash,
)
    ensures
        forall|peer: Peer| #[trigger]
            model.without_stale(cutoff).torrent(info_hash).peers.contains(peer) <==> model.torrent(
                info_hash,
            ).peers.contains(peer) && peer.last_seen >= cutoff,
        model.without_stale(cutoff).torrent(info_hash).peers == model.torrent(
            info_hash,
        ).peers.filter(|peer: Peer| peer.last_seen >= cutoff),
        model.without_stale(cutoff).torrent(info_hash).peers.len() > 0 ==> model.without_stale(
            cutoff,
        ).torrent(info_hash).downloaded == model.torrent(info_hash).downloaded,
        model.without_stale(cutoff).torrent(info_hash).peers.len() == 0 ==> model.without_stale(
            cutoff,
        ).torrent(info_hash).downloaded == if model.torrent(info_hash).downloaded == Some(0u64) {
            None
        } else {
            model.torrent(info_hash).downloaded
        },
        model.without_stale(cutoff).torrent(info_hash).peers.len() == model.torrent(
            info_hash,
        ).peers.len() && model.torrent(info_hash).peers.len() > 0 ==> model.without_stale(
            cutoff,
        ).torrent(info_hash).pending == model.torrent(info_hash).pending,
        model.without_stale(cutoff).torrent(info_hash).peers.len() < model.torrent(
            info_hash,
        ).peers.len() ==> model.without_stale(cutoff).torrent(info_hash).pending == Some(
            next_revision(model.revision),
        ),
{
    let before = model.torrent(info_hash).peers;
    let after = model.without_stale(cutoff).torrent(info_hash).peers;
    let is_fresh = |peer: Peer| peer.last_seen >= cutoff;
    lemma_fresh_filter(before, cutoff);
    crate::swarm::lemma_fresh_peers(before, cutoff);
    if !model.torrents.contains_key(info_hash) {
        assert(!model.without_stale(cutoff).torrents.contains_key(info_hash));
        assert(fresh_peers(before, cutoff) =~= Seq::<Peer>::empty());
    }
    if model.torrent(info_hash).without_stale(cutoff, next_revision(model.revision)).is_vacant() {
        assert(fresh_peers(before, cutoff) =~= Seq::<Peer>::empty());
    }
    assert(after == before.filter(is_fresh));
    assert forall|peer: Peer| #[trigger] after.contains(peer) <==> before.contains(peer)
        && peer.last_seen >= cutoff by {
        if after.contains(peer) {
            before.lemma_filter_contains_rev(is_fresh, peer);
            let i = choose|i: int| 0 <= i < after.len() && after[i] == peer;
            before.lemma_filter_pred(is_fresh, i);
        }
        if before.contains(peer) && peer.last_seen >= cutoff {
            let i = choose|i: int| 0 <= i < before.len() && before[i] == peer;
            before.lemma_filter_contains(is_fresh, i);
        }
    }
}

/// A peer outlives a cleanup by age where it was seen within that age, and only
/// there.
pub proof fn law_cleanup_is_by_age(
    model: TrackerModel,
    now: u64,
    age: u64,
    info_hash: InfoHash,
    peer: Peer,
)
    requires
        model.torrent(info_hash).peers.contains(peer),
    ensures
        model.without_stale(seconds_before(now, age)).torrent(info_hash).peers.contains(peer)
            <==> peer.last_seen + age >= now,
{
    law_cleanup_keeps_fresh_peers(model, seconds_before(now, age), info_hash);
}

/// Keeping fresh peers is filtering by the time they were seen.
proof fn lemma_fresh_filter(peers: Seq<Peer>, cutoff: u64)
    ensures
        fresh_peers(peers, cutoff) == peers.filter(|peer: Peer| peer.last_seen >= cutoff),
    decreases peers.len(),
{
    reveal(Seq::filter);
    if peers.len() > 0 {
        lemma_fresh_filter(peers.drop_last(), cutoff);
    }
}

/// A list for a peer is every other peer of the swarm in its order, cut to the
/// limit.
pub proof fn law_list_is_the_others(peers: Seq<Peer>, exclude: PeerId, limit: nat)
    ensures
        peers.filter(|peer: Peer| peer.peer_id != exclude).len() <= limit ==> listed_peers(
            peers,
            exclude,
            limit,
        ) == peers.filter(|peer: Peer| peer.peer_id != exclude),
        peers.filter(|peer: Peer| peer.peer_id != exclude).len() > limit ==> listed_peers(
            peers,
            exclude,
            limit,
        ) == peers.filter(|peer: Peer| peer.peer_id != exclude).subrange(0, limit as int),
{
    lemma_other_filter(peers, exclude);
}

/// Leaving a peer out is filtering by the identifier.
proof fn lemma_other_filter(peers: Seq<Peer>, exclude: PeerId)
    ensures
        other_peers(peers, exclude) == peers.filter(|peer: Peer| peer.peer_id != exclude),
    decreases peers.len(),
{
    reveal(Seq::filter);
    if peers.len() > 0 {
        lemma_other_filter(peers.drop_last(), exclude);
    }
}

/// A torrent's statistics count the peers with nothing left, the peers with
/// something left, and its downloads.
pub proof fn law_statistics_count_the_peers(torrent: TorrentModel)
    requires
        torrent.peers.len() <= usize::MAX,
    ensures
        torrent.stats().complete == torrent.peers.filter(|peer: Peer| peer.left == 0).len(),
        torrent.stats().incomplete == torrent.peers.filter(|peer: Peer| peer.left != 0).len(),
        torrent.stats().downloaded == match torrent.downloaded {
            Some(count) => count,
            None => 0,
        },
{
    lemma_seeders_filter(torrent.peers);
}

/// Counting seeders is filtering by what is left.
proof fn lemma_seeders_filter(peers: Seq<Peer>)
    ensures
        seeders(peers) == peers.filter(|peer: Peer| peer.left == 0).len(),
        peers.len() - seeders(peers) == peers.filter(|peer: Peer| peer.left != 0).len(),
    decreases peers.len(),
{
    reveal(Seq::filter);
    if peers.len() > 0 {
        lemma_seeders_filter(peers.drop_last());
    }
}

/// Where two states differ in one torrent alone, the totals over all torrents
/// differ by what that torrent has: its peers, those with nothing left and those
/// with something left, and its downloads. An empty tracker has none.
pub proof fn law_totals_follow_the_torrents(
    before: TrackerModel,
    after: TrackerModel,
    info_hash: InfoHash,
)
    requires
        before.torrents.dom().finite(),
        after.torrents.dom().finite(),
        forall|other: InfoHash| #[trigger]
            before.torrents.contains_key(other) ==> !before.torrents[other].is_vacant(),
        forall|other: InfoHash| #[trigger]
            after.torrents.contains_key(other) ==> !after.torrents[other].is_vacant(),
        forall|other: InfoHash|
            other != info_hash ==> #[trigger] before.torrent(other) == after.torrent(other),
    ensures
        after.total(peers_weight()) - before.total(peers_weight()) == after.torrent(
            info_hash,
        ).peers.len() - before.torrent(info_hash).peers.len(),
        after.total(seeders_weight()) - before.total(seeders_weight()) == after.torrent(
            info_hash,
        ).peers.filter(|peer: Peer| peer.left == 0).len() - before.torrent(info_hash).peers.filter(
            |peer: Peer| peer.left == 0,
        ).len(),
        after.total(leechers_weight()) - before.total(leechers_weight()) == after.torrent(
            info_hash,
        ).peers.filter(|peer: Peer| peer.left != 0).len() - before.torrent(info_hash).peers.filter(
            |peer: Peer| peer.left != 0,
        ).len(),
        after.total(completed_weight()) - before.total(completed_weight()) == after.torrent(
            info_hash,
        ).times_downloaded() - before.torrent(info_hash).times_downloaded(),
{
    lemma_seeders_filter(before.torrent(info_hash).peers);
    lemma_seeders_filter(after.torrent(info_hash).peers);
    assert(before.torrents.remove(info_hash) =~= after.torrents.remove(info_hash)) by {
        let left = before.torrents.remove(info_hash);
        let right = after.torrents.remove(info_hash);
        assert forall|other: InfoHash| left.contains_key(other) == right.contains_key(other) by {
            if other != info_hash {
                assert(before.torrent(other) == after.torrent(other));
            }
        }
        assert forall|other: InfoHash| #[trigger] left.contains_key(other) implies left[other]
            == right[other] by {
            assert(before.torrent(other) == after.torrent(other));
            assert(right.contains_key(other));
        }
    }
    lemma_total_with(before, peers_weight(), info_hash);
    lemma_total_with(after, peers_weight(), info_hash);
    lemma_total_with(before, seeders_weight(), info_hash);
    lemma_total_with(after, seeders_weight(), info_hash);
    lemma_total_with(before, leechers_weight(), info_hash);
    lemma_total_with(after, leechers_weight(), info_hash);
    lemma_total_with(before, completed_weight(), info_hash);
    lemma_total_with(after, completed_weight(), info_hash);
}

/// A total is what one torrent weighs and what the others weigh.
proof fn lemma_total_with(
    model: TrackerModel,
    weight: spec_fn(TorrentModel) -> nat,
    info_hash: InfoHash,
)
    requires
        model.torrents.dom().finite(),
        weight(TorrentModel::empty()) == 0,
    ensures
        model.total(weight) == weight(model.torrent(info_hash)) + map_sum(
            model.torrents.remove(info_hash),
            weight,
        ),
{
    lemma_map_sum_remove(model.torrents, weight, info_hash);
}

/// An empty tracker has no peers, no torrents and no downloads.
pub proof fn law_empty_tracker_has_nothing(model: TrackerModel)
    requires
        model.torrents == Map::<InfoHash, TorrentModel>::empty(),
    ensures
        model.total(peers_weight()) == 0,
        model.total(seeders_weight()) == 0,
        model.total(leechers_weight()) == 0,
        model.total(completed_weight()) == 0,
        model.known() == Set::<InfoHash>::empty(),
        model.active() == Set::<InfoHash>::empty(),
        model.population() == (0usize, 0usize),
{
    assert(model.torrents.dom() =~= Set::<InfoHash>::empty());
    assert(model.known() =~= Set::<InfoHash>::empty());
    assert(model.active() =~= Set::<InfoHash>::empty());
}

/// The population is the number of peers and of torrents that have peers, as far
/// as a machine word holds them.
pub proof fn law_population_counts_peers_and_swarms(model: TrackerModel)
    ensures
        model.total(peers_weight()) <= usize::MAX ==> model.population().0 == model.total(
            peers_weight(),
        ),
        model.total(peers_weight()) > usize::MAX ==> model.population().0 == usize::MAX,
        Set::new(|info_hash: InfoHash| model.torrent(info_hash).peers.len() > 0).len() <= usize::MAX
            ==> model.population().1 == Set::new(
            |info_hash: InfoHash| model.torrent(info_hash).peers.len() > 0,
        ).len(),
{
    assert(model.active() =~= Set::new(
        |info_hash: InfoHash| model.torrent(info_hash).peers.len() > 0,
    ));
}

} // verus!
