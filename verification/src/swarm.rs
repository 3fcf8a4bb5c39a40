//! The peers of one torrent.

use crate::address::IpAddress;
use vstd::prelude::*;

verus! {

/// The 20 bytes by which a torrent is known.
pub type InfoHash = [u8; 20];

/// The 20 bytes by which a peer is known.
pub type PeerId = [u8; 20];

/// What a peer tells the tracker with an announce.
#[derive(Clone, Copy, Debug, Eq, PartialEq, Structural)]
pub enum AnnounceEvent {
    Started,
    Completed,
    Stopped,
    Update,
}

/// One participant of a torrent's swarm.
#[derive(Clone, Copy, Debug, Eq, PartialEq)]
pub struct Peer {
    pub peer_id: PeerId,
    pub ip: IpAddress,
    pub port: u16,
    pub left: u64,
    pub last_seen: u64,
}

/// How many peers have the whole torrent, how many do not, and how often it
/// was downloaded.
#[derive(Clone, Copy, Debug, Eq, PartialEq)]
pub struct SwarmStats {
    pub complete: usize,
    pub incomplete: usize,
    pub downloaded: u64,
}

impl Default for SwarmStats {
    fn default() -> (stats: Self)
        ensures
            stats == (SwarmStats { complete: 0, incomplete: 0, downloaded: 0 }),
    {
        SwarmStats { complete: 0, incomplete: 0, downloaded: 0 }
    }
}

/// Whether two 20-byte identifiers are equal.
pub fn same_id(left: &[u8; 20], right: &[u8; 20]) -> (result: bool)
    ensures
        result == (*left == *right),
{
    let mut index: usize = 0;
    while index < 20
        invariant
            0 <= index <= 20,
            forall|i: int| 0 <= i < index ==> left@[i] == right@[i],
        decreases 20 - index,
    {
        if left[index] != right[index] {
            return false;
        }
        index = index + 1;
    }
    assert(*left =~= *right);
    true
}

/// The first position of the peer known by `peer_id`, or the number of peers.
pub open spec fn peer_index(peers: Seq<Peer>, peer_id: PeerId) -> int
    decreases peers.len(),
{
    if peers.len() == 0 {
        0
    } else {
        let before = peer_index(peers.drop_last(), peer_id);
        if before < peers.len() - 1 || peers.last().peer_id == peer_id {
            before
        } else {
            peers.len() as int
        }
    }
}

/// Whether a peer known by `peer_id` is among `peers`.
pub open spec fn has_peer(peers: Seq<Peer>, peer_id: PeerId) -> bool {
    peer_index(peers, peer_id) < peers.len()
}

/// Whether no two of `peers` have one identifier.
pub open spec fn distinct_peers(peers: Seq<Peer>) -> bool {
    forall|i: int, j: int|
        0 <= i < j < peers.len() ==> #[trigger] peers[i].peer_id != #[trigger] peers[j].peer_id
}

/// `peers` with `peer` in the place of the peer with its identifier, or behind
/// the others where there is none.
pub open spec fn with_peer(peers: Seq<Peer>, peer: Peer) -> Seq<Peer> {
    if has_peer(peers, peer.peer_id) {
        peers.update(peer_index(peers, peer.peer_id), peer)
    } else {
        peers.push(peer)
    }
}

/// `peers` without the peer known by `peer_id`.
pub open spec fn without_peer(peers: Seq<Peer>, peer_id: PeerId) -> Seq<Peer> {
    if has_peer(peers, peer_id) {
        peers.remove(peer_index(peers, peer_id))
    } else {
        peers
    }
}

/// How many of `peers` have nothing left to download.
pub open spec fn seeders(peers: Seq<Peer>) -> nat
    decreases peers.len(),
{
    if peers.len() == 0 {
        0
    } else {
        seeders(peers.drop_last()) + if peers.last().left == 0 {
            1nat
        } else {
            0nat
        }
    }
}

/// The peers that were seen at `cutoff` or later, in their order.
pub open spec fn fresh_peers(peers: Seq<Peer>, cutoff: u64) -> Seq<Peer>
    decreases peers.len(),
{
    if peers.len() == 0 {
        peers
    } else if peers.last().last_seen >= cutoff {
        fresh_peers(peers.drop_last(), cutoff).push(peers.last())
    } else {
        fresh_peers(peers.drop_last(), cutoff)
    }
}

/// The peers other than the one known by `exclude`, in their order.
pub open spec fn other_peers(peers: Seq<Peer>, exclude: PeerId) -> Seq<Peer>
    decreases peers.len(),
{
    if peers.len() == 0 {
        peers
    } else if peers.last().peer_id != exclude {
        other_peers(peers.drop_last(), exclude).push(peers.last())
    } else {
        other_peers(peers.drop_last(), exclude)
    }
}

/// The first `limit` peers other than the one known by `exclude`.
pub open spec fn listed_peers(peers: Seq<Peer>, exclude: PeerId, limit: nat) -> Seq<Peer> {
    let others = other_peers(peers, exclude);
    if others.len() <= limit {
        others
    } else {
        others.take(limit as int)
    }
}

/// A position found holds the identifier, and none before it does.
pub proof fn lemma_peer_index(peers: Seq<Peer>, peer_id: PeerId)
    ensures
        0 <= peer_index(peers, peer_id) <= peers.len(),
        has_peer(peers, peer_id) ==> peers[peer_index(peers, peer_id)].peer_id == peer_id,
        forall|i: int|
            0 <= i < peer_index(peers, peer_id) ==> #[trigger] peers[i].peer_id != peer_id,
    decreases peers.len(),
{
    if peers.len() > 0 {
        let head = peers.drop_last();
        lemma_peer_index(head, peer_id);
        assert forall|i: int| 0 <= i < peer_index(peers, peer_id) implies #[trigger]
            peers[i].peer_id != peer_id by {
            if i < head.len() {
                assert(head[i] == peers[i]);
            }
        }
        if peer_index(head, peer_id) < head.len() {
            assert(head[peer_index(head, peer_id)] == peers[peer_index(head, peer_id)]);
        }
    }
}

/// A position that holds the identifier, with none before it, is the one found.
pub proof fn lemma_peer_index_is(peers: Seq<Peer>, peer_id: PeerId, index: int)
    requires
        0 <= index <= peers.len(),
        index < peers.len() ==> peers[index].peer_id == peer_id,
        forall|i: int| 0 <= i < index ==> #[trigger] peers[i].peer_id != peer_id,
    ensures
        peer_index(peers, peer_id) == index,
{
    lemma_peer_index(peers, peer_id);
    let found = peer_index(peers, peer_id);
    if found < index {
        assert(peers[found].peer_id != peer_id);
    }
    if index < found {
        assert(peers[index].peer_id != peer_id);
    }
}

/// Entering a peer puts it into the swarm, keeps identifiers distinct, and
/// replaces no other peer.
pub proof fn lemma_with_peer(peers: Seq<Peer>, peer: Peer)
    ensures
        has_peer(with_peer(peers, peer), peer.peer_id),
        with_peer(peers, peer)[peer_index(with_peer(peers, peer), peer.peer_id)] == peer,
        distinct_peers(peers) ==> distinct_peers(with_peer(peers, peer)),
        distinct_peers(peers) ==> forall|other: Peer| #[trigger]
            with_peer(peers, peer).contains(other) <==> other == peer || (peers.contains(other)
                && other.peer_id != peer.peer_id),
{
    lemma_peer_index(peers, peer.peer_id);
    let index = peer_index(peers, peer.peer_id);
    let after = with_peer(peers, peer);
    assert(after[index] == peer);
    assert forall|i: int| 0 <= i < index implies #[trigger] after[i].peer_id != peer.peer_id by {
        assert(after[i] == peers[i]);
    }
    lemma_peer_index_is(after, peer.peer_id, index);
    if distinct_peers(peers) {
        assert forall|other: Peer| #[trigger] after.contains(other) <==> other == peer || (
        peers.contains(other) && other.peer_id != peer.peer_id) by {
            if after.contains(other) {
                let i = choose|i: int| 0 <= i < after.len() && after[i] == other;
                if i != index {
                    assert(peers[i] == other);
                }
            }
            if other == peer {
                assert(after.contains(other));
            } else if peers.contains(other) && other.peer_id != peer.peer_id {
                let i = choose|i: int| 0 <= i < peers.len() && peers[i] == other;
                assert(after[i] == other);
            }
        }
    }
}

/// No more peers are seeders than there are.
pub proof fn lemma_seeders_bound(peers: Seq<Peer>)
    ensures
        seeders(peers) <= peers.len(),
    decreases peers.len(),
{
    if peers.len() > 0 {
        lemma_seeders_bound(peers.drop_last());
    }
}

/// How many seeders there are once one peer was replaced.
pub proof fn lemma_seeders_update(peers: Seq<Peer>, index: int, peer: Peer)
    requires
        0 <= index < peers.len(),
    ensures
        seeders(peers.update(index, peer)) + (if peers[index].left == 0 {
            1nat
        } else {
            0nat
        }) == seeders(peers) + (if peer.left == 0 {
            1nat
        } else {
            0nat
        }),
    decreases peers.len(),
{
    let updated = peers.update(index, peer);
    if index == peers.len() - 1 {
        assert(updated.drop_last() =~= peers.drop_last());
    } else {
        lemma_seeders_update(peers.drop_last(), index, peer);
        assert(updated.drop_last() =~= peers.drop_last().update(index, peer));
    }
}

/// How many seeders there are once one peer was taken out.
pub proof fn lemma_seeders_remove(peers: Seq<Peer>, index: int)
    requires
        0 <= index < peers.len(),
    ensures
        seeders(peers.remove(index)) + (if peers[index].left == 0 {
            1nat
        } else {
            0nat
        }) == seeders(peers),
    decreases peers.len(),
{
    let smaller = peers.remove(index);
    if index == peers.len() - 1 {
        assert(smaller =~= peers.drop_last());
    } else {
        lemma_seeders_remove(peers.drop_last(), index);
        assert(smaller.drop_last() =~= peers.drop_last().remove(index));
    }
}

/// The fresh peers are among the peers, and none of them is stale.
pub proof fn lemma_fresh_peers(peers: Seq<Peer>, cutoff: u64)
    ensures
        fresh_peers(peers, cutoff).len() <= peers.len(),
        forall|i: int|
            0 <= i < fresh_peers(peers, cutoff).len() ==> peers.contains(
                #[trigger] fresh_peers(peers, cutoff)[i],
            ) && fresh_peers(peers, cutoff)[i].last_seen >= cutoff,
        fresh_peers(peers, cutoff).len() == peers.len() ==> fresh_peers(peers, cutoff) == peers,
        distinct_peers(peers) ==> distinct_peers(fresh_peers(peers, cutoff)),
    decreases peers.len(),
{
    if peers.len() > 0 {
        let head = peers.drop_last();
        let kept_head = fresh_peers(head, cutoff);
        let kept = fresh_peers(peers, cutoff);
        lemma_fresh_peers(head, cutoff);
        assert forall|i: int| 0 <= i < kept.len() implies peers.contains(#[trigger] kept[i])
            && kept[i].last_seen >= cutoff by {
            if i < kept_head.len() {
                assert(kept[i] == kept_head[i]);
                assert(head.contains(kept_head[i]));
                let j = choose|j: int| 0 <= j < head.len() && head[j] == kept_head[i];
                assert(peers[j] == kept[i]);
            } else {
                assert(peers[peers.len() - 1] == kept[i]);
            }
        }
        if kept.len() == peers.len() {
            assert(kept_head.len() == head.len());
            assert(kept =~= peers);
        }
        if distinct_peers(peers) {
            assert(distinct_peers(head)) by {
                assert forall|i: int, j: int| 0 <= i < j < head.len() implies #[trigger]
                    head[i].peer_id != #[trigger] head[j].peer_id by {
                    assert(head[i] == peers[i] && head[j] == peers[j]);
                }
            }
            assert forall|i: int, j: int| 0 <= i < j < kept.len() implies #[trigger]
                kept[i].peer_id != #[trigger] kept[j].peer_id by {
                if j < kept_head.len() {
                    assert(kept[i] == kept_head[i] && kept[j] == kept_head[j]);
                } else {
                    assert(kept[i] == kept_head[i]);
                    assert(head.contains(kept_head[i]));
                    let k = choose|k: int| 0 <= k < head.len() && head[k] == kept_head[i];
                    assert(peers[k].peer_id != peers[peers.len() - 1].peer_id);
                }
            }
        }
    }
}

/// The other peers of a part of the swarm come first among those of the whole.
pub proof fn lemma_other_peers_prefix(peers: Seq<Peer>, exclude: PeerId, count: int)
    requires
        0 <= count <= peers.len(),
    ensures
        other_peers(peers.take(count), exclude).len() <= other_peers(peers, exclude).len(),
        other_peers(peers, exclude).take(other_peers(peers.take(count), exclude).len() as int)
            == other_peers(peers.take(count), exclude),
    decreases peers.len(),
{
    if count == peers.len() {
        assert(peers.take(count) =~= peers);
        assert(other_peers(peers, exclude).take(other_peers(peers, exclude).len() as int)
            =~= other_peers(peers, exclude));
    } else {
        let head = peers.drop_last();
        lemma_other_peers_prefix(head, exclude, count);
        assert(head.take(count) =~= peers.take(count));
        let part = other_peers(peers.take(count), exclude);
        assert(other_peers(peers, exclude).take(part.len() as int) =~= other_peers(
            head,
            exclude,
        ).take(part.len() as int));
    }
}

/// Finds the peer known by `peer_id`.
pub fn find_peer(peers: &Vec<Peer>, peer_id: &PeerId) -> (result: usize)
    ensures
        result == peer_index(peers@, *peer_id),
{
    let mut index: usize = 0;
    while index < peers.len()
        invariant
            0 <= index <= peers@.len(),
            forall|i: int| 0 <= i < index ==> #[trigger] peers@[i].peer_id != *peer_id,
        decreases peers@.len() - index,
    {
        if same_id(&peers[index].peer_id, peer_id) {
            proof {
                lemma_peer_index_is(peers@, *peer_id, index as int);
            }
            return index;
        }
        index = index + 1;
    }
    proof {
        lemma_peer_index_is(peers@, *peer_id, index as int);
    }
    index
}

/// The first `limit` peers other than the one known by `exclude`.
pub fn list_peers(peers: &Vec<Peer>, exclude: &PeerId, limit: usize) -> (listed: Vec<Peer>)
    ensures
        listed@ == listed_peers(peers@, *exclude, limit as nat),
{
    let mut listed: Vec<Peer> = Vec::new();
    let mut index: usize = 0;
    while index < peers.len() && listed.len() < limit
        invariant
            0 <= index <= peers@.len(),
            listed@ == other_peers(peers@.take(index as int), *exclude),
            listed@.len() <= limit,
        decreases peers@.len() - index,
    {
        let peer: Peer = peers[index];
        assert(peers@.take(index + 1).drop_last() =~= peers@.take(index as int));
        if !same_id(&peer.peer_id, exclude) {
            listed.push(peer);
        }
        index = index + 1;
    }
    proof {
        lemma_other_peers_prefix(peers@, *exclude, index as int);
        if index == peers@.len() {
            assert(peers@.take(index as int) =~= peers@);
        } else {
            let others = other_peers(peers@, *exclude);
            assert(listed@.len() == limit);
            assert(others.take(others.len() as int) =~= others);
        }
    }
    listed
}

/// The peers that were seen at `cutoff` or later.
pub fn keep_fresh(peers: &Vec<Peer>, cutoff: u64) -> (kept: Vec<Peer>)
    ensures
        kept@ == fresh_peers(peers@, cutoff),
{
    let mut kept: Vec<Peer> = Vec::new();
    let mut index: usize = 0;
    while index < peers.len()
        invariant
            0 <= index <= peers@.len(),
            kept@ == fresh_peers(peers@.take(index as int), cutoff),
        decreases peers@.len() - index,
    {
        let peer: Peer = peers[index];
        assert(peers@.take(index + 1).drop_last() =~= peers@.take(index as int));
        if peer.last_seen >= cutoff {
            kept.push(peer);
        }
        index = index + 1;
    }
    assert(peers@.take(index as int) =~= peers@);
    kept
}

/// How many peers have nothing left to download.
pub fn count_seeders(peers: &Vec<Peer>) -> (count: usize)
    ensures
        count == seeders(peers@),
{
    let mut count: usize = 0;
    let mut index: usize = 0;
    while index < peers.len()
        invariant
            0 <= index <= peers@.len(),
            count == seeders(peers@.take(index as int)),
            count <= index,
        decreases peers@.len() - index,
    {
        assert(peers@.take(index + 1).drop_last() =~= peers@.take(index as int));
        if peers[index].left == 0 {
            count = count + 1;
        }
        index = index + 1;
    }
    assert(peers@.take(index as int) =~= peers@);
    count
}

} // verus!
