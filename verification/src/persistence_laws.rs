//! What saving leaves in the tables, and what a restart gives back of it.

use crate::address::lemma_ip_with;
use crate::address_laws::law_address_text_is_read_back;
use crate::persistence::{
    loaded, positive, restored_peer, save_finished, saved, with_peer_rows, with_swarm_rows,
    PeerRowModel, PeerWrite, PersistenceFault, SwarmWrite, TorrentWrite,
};
use crate::state::{
    AnnounceEvent, InfoHash, Peer, PeerId, TorrentChange, TorrentModel, TrackerModel,
};
use crate::state_laws::{lemma_acknowledged, revisions_are_reached};
use crate::swarm::{
    distinct_peers, has_peer, lemma_peer_index, lemma_peer_index_is, lemma_seeders_bound,
    lemma_with_peer, peer_index, seeders, with_peer,
};
use crate::wire::identifier_at;
use vstd::prelude::*;
use vstd::utf8::encode_utf8;

verus! {

/// The tables that torrents are saved in: each torrent's numbers, and its peers
/// by their identifiers.
#[verifier::ext_equal]
pub struct Tables {
    pub swarms: Map<InfoHash, SwarmWrite>,
    pub peers: Map<(InfoHash, PeerId), PeerRowModel>,
}

/// Whether a peer known by `peer_id` is written.
pub open spec fn writes_peer(write: TorrentWrite, peer_id: PeerId) -> bool {
    exists|i: int| 0 <= i < write.peers@.len() && (#[trigger] write.peers@[i]).peer_id == peer_id
}

/// The written peer that is known by `peer_id`.
pub open spec fn written_peer(write: TorrentWrite, peer_id: PeerId) -> PeerWrite {
    write.peers@[choose|i: int|
        0 <= i < write.peers@.len() && (#[trigger] write.peers@[i]).peer_id == peer_id]
}

impl Tables {
    /// The tables once a torrent was saved: its old peers are gone, and its
    /// numbers and peers are those written.
    pub open spec fn stored(self, write: TorrentWrite) -> Tables {
        Tables {
            swarms: match write.swarm {
                Some(swarm) => self.swarms.insert(write.info_hash, swarm),
                None => self.swarms.remove(write.info_hash),
            },
            peers: Map::new(
                |key: (InfoHash, PeerId)|
                    if key.0 == write.info_hash {
                        writes_peer(write, key.1)
                    } else {
                        self.peers.contains_key(key)
                    },
                |key: (InfoHash, PeerId)|
                    if key.0 == write.info_hash {
                        written_peer(write, key.1).row(write.info_hash)
                    } else {
                        self.peers[key]
                    },
            ),
        }
    }

    /// The tables once several torrents were saved, one after the other.
    pub open spec fn all_stored(self, writes: Seq<TorrentWrite>) -> Tables
        decreases writes.len(),
    {
        if writes.len() == 0 {
            self
        } else {
            self.all_stored(writes.drop_last()).stored(writes.last())
        }
    }

    /// The tables after an attempt to save torrents, all of which are written
    /// or none.
    pub open spec fn attempted(self, writes: Seq<TorrentWrite>, written: bool) -> Tables {
        if written {
            self.all_stored(writes)
        } else {
            self
        }
    }

    /// Whether a torrent's rows are the same as in other tables.
    pub open spec fn same_rows(self, other: Tables, info_hash: InfoHash) -> bool {
        &&& self.swarms.contains_key(info_hash) <==> other.swarms.contains_key(info_hash)
        &&& self.swarms.contains_key(info_hash) ==> self.swarms[info_hash]
            == other.swarms[info_hash]
        &&& forall|peer_id: PeerId| #[trigger]
            self.peers.contains_key((info_hash, peer_id)) <==> other.peers.contains_key(
                (info_hash, peer_id),
            )
        &&& forall|peer_id: PeerId| #[trigger]
            self.peers.contains_key((info_hash, peer_id)) ==> self.peers[(info_hash, peer_id)]
                == other.peers[(info_hash, peer_id)]
    }

    /// Whether a row saves a peer.
    pub open spec fn row_saves(row: PeerRowModel, info_hash: InfoHash, peer: Peer) -> bool {
        &&& row.info_hash == info_hash@
        &&& row.peer_id == peer.peer_id@
        &&& encode_utf8(row.ip) == peer.ip.text()
        &&& row.port == peer.port
        &&& row.bytes_left == saved(peer.left as nat)
        &&& row.last_seen == saved(peer.last_seen as nat)
    }

    /// Whether the tables hold a torrent as it is known.
    pub open spec fn reflect(self, info_hash: InfoHash, torrent: TorrentModel) -> bool {
        &&& self.swarms.contains_key(info_hash) <==> torrent.is_known()
        &&& torrent.is_known() ==> self.swarms[info_hash] == (SwarmWrite {
            peers: saved(torrent.peers.len()) as i64,
            seeders: saved(seeders(torrent.peers)) as i64,
            leechers: saved(torrent.leechers()) as i64,
            downloaded: saved(torrent.times_downloaded() as nat) as i64,
        })
        &&& forall|peer_id: PeerId| #[trigger]
            self.peers.contains_key((info_hash, peer_id)) <==> has_peer(torrent.peers, peer_id)
        &&& forall|peer_id: PeerId| #[trigger]
            has_peer(torrent.peers, peer_id) ==> Self::row_saves(
                self.peers[(info_hash, peer_id)],
                info_hash,
                torrent.peers[peer_index(torrent.peers, peer_id)],
            )
    }

    /// Whether the tables hold every torrent that has no unsaved change.
    pub open spec fn hold_saved(self, model: TrackerModel) -> bool {
        forall|info_hash: InfoHash|
            !model.unsaved().contains(info_hash) ==> self.reflect(
                info_hash,
                #[trigger] model.torrent(info_hash),
            )
    }

    /// Whether rows are those of the tables, in any order.
    pub open spec fn are_listed(self, swarms: Seq<(Seq<u8>, int)>, peers: Seq<PeerRowModel>)
        -> bool {
        &&& forall|i: int|
            0 <= i < swarms.len() ==> (#[trigger] swarms[i]).0.len() == 20
                && self.swarms.contains_key(identifier_at(swarms[i].0, 0))
                && self.swarms[identifier_at(swarms[i].0, 0)].downloaded == swarms[i].1
        &&& forall|info_hash: InfoHash| #[trigger]
            self.swarms.contains_key(info_hash) ==> lists_swarm(swarms, info_hash)
        &&& forall|i: int|
            0 <= i < peers.len() ==> (#[trigger] peers[i]).info_hash.len() == 20
                && peers[i].peer_id.len() == 20 && self.peers.contains_key(row_key(peers[i]))
                && self.peers[row_key(peers[i])] == peers[i]
        &&& forall|key: (InfoHash, PeerId)| #[trigger]
            self.peers.contains_key(key) ==> lists_peer(peers, key)
    }
}

/// Whether no torrent has two peers with one identifier.
pub open spec fn has_distinct_peers(model: TrackerModel) -> bool {
    forall|info_hash: InfoHash| distinct_peers(#[trigger] model.torrent(info_hash).peers)
}

/// Whether every change is saved by the write in its place.
pub open spec fn all_saved_by(writes: Seq<TorrentWrite>, changes: Seq<TorrentChange>) -> bool {
    &&& writes.len() == changes.len()
    &&& forall|i: int| 0 <= i < writes.len() ==> (#[trigger] writes[i]).saves(changes[i])
}

/// The torrent and the peer of a row.
pub open spec fn row_key(row: PeerRowModel) -> (InfoHash, PeerId) {
    (identifier_at(row.info_hash, 0), identifier_at(row.peer_id, 0))
}

/// Whether a torrent is among the rows.
pub open spec fn lists_swarm(swarms: Seq<(Seq<u8>, int)>, info_hash: InfoHash) -> bool {
    exists|i: int|
        0 <= i < swarms.len() && identifier_at((#[trigger] swarms[i]).0, 0) == info_hash
}

/// Whether a peer is among the rows.
pub open spec fn lists_peer(peers: Seq<PeerRowModel>, key: (InfoHash, PeerId)) -> bool {
    exists|i: int| 0 <= i < peers.len() && row_key(#[trigger] peers[i]) == key
}

/// Whether a torrent's numbers fit the database.
pub open spec fn fits_database(torrent: TorrentModel) -> bool {
    &&& torrent.times_downloaded() <= i64::MAX
    &&& distinct_peers(torrent.peers)
    &&& forall|i: int|
        0 <= i < torrent.peers.len() ==> (#[trigger] torrent.peers[i]).left <= i64::MAX
            && torrent.peers[i].last_seen <= i64::MAX
}

/// Whether two swarms hold the same peers, in any order.
pub open spec fn same_swarm(left: Seq<Peer>, right: Seq<Peer>) -> bool {
    &&& distinct_peers(left)
    &&& distinct_peers(right)
    &&& forall|peer: Peer| left.contains(peer) <==> #[trigger] right.contains(peer)
}

/// The bytes of an identifier stand for it.
proof fn lemma_identifier_bytes(identifier: [u8; 20])
    ensures
        identifier@.len() == 20,
        identifier_at(identifier@, 0) == identifier,
{
    assert(identifier_at(identifier@, 0) =~= identifier);
}

/// A saved peer is restored as it was.
pub proof fn law_saved_peer_is_restored(row: PeerRowModel, info_hash: InfoHash, peer: Peer)
    requires
        Tables::row_saves(row, info_hash, peer),
        peer.left <= i64::MAX,
        peer.last_seen <= i64::MAX,
    ensures
        restored_peer(row) == Ok::<_, PersistenceFault>(peer),
        row_key(row) == (info_hash, peer.peer_id),
{
    lemma_identifier_bytes(info_hash);
    lemma_identifier_bytes(peer.peer_id);
    law_address_text_is_read_back(peer.ip);
    lemma_ip_with(peer.ip);
}

/// A torrent that was saved is held as it is known.
proof fn lemma_stored_torrent(
    tables: Tables,
    write: TorrentWrite,
    change: TorrentChange,
    torrent: TorrentModel,
)
    requires
        write.saves(change),
        change.describes(change.info_hash, torrent),
        distinct_peers(torrent.peers),
    ensures
        tables.stored(write).reflect(change.info_hash, torrent),
{
    let info_hash = change.info_hash;
    let after = tables.stored(write);
    assert(write.peers@.len() == torrent.peers.len());
    assert forall|peer_id: PeerId| #[trigger]
        after.peers.contains_key((info_hash, peer_id)) <==> has_peer(torrent.peers, peer_id) by {
        lemma_written(write, change, peer_id);
    }
    assert forall|peer_id: PeerId| #[trigger] has_peer(torrent.peers, peer_id) implies
        Tables::row_saves(
        after.peers[(info_hash, peer_id)],
        info_hash,
        torrent.peers[peer_index(torrent.peers, peer_id)],
    ) by {
        lemma_written(write, change, peer_id);
    }
}

/// What is written of a peer.
proof fn lemma_written(write: TorrentWrite, change: TorrentChange, peer_id: PeerId)
    requires
        write.saves(change),
        write.peers@.len() == change.peers@.len(),
        change.peers@.len() > 0 ==> change.downloaded is Some,
        distinct_peers(change.peers@),
    ensures
        writes_peer(write, peer_id) <==> has_peer(change.peers@, peer_id),
        has_peer(change.peers@, peer_id) ==> written_peer(write, peer_id).saves(
            change.peers@[peer_index(change.peers@, peer_id)],
        ),
{
    let peers = change.peers@;
    lemma_peer_index(peers, peer_id);
    if has_peer(peers, peer_id) {
        let index = peer_index(peers, peer_id);
        assert(write.peers@[index].saves(peers[index]));
        assert(writes_peer(write, peer_id));
    }
    if writes_peer(write, peer_id) {
        let i = choose|i: int|
            0 <= i < write.peers@.len() && (#[trigger] write.peers@[i]).peer_id == peer_id;
        assert(write.peers@[i].saves(peers[i]));
        if peer_index(peers, peer_id) < i {
            assert(peers[peer_index(peers, peer_id)].peer_id != peers[i].peer_id);
        }
        assert(peer_index(peers, peer_id) == i);
    }
}

/// Saving a torrent leaves the others.
proof fn lemma_stored_elsewhere(
    tables: Tables,
    write: TorrentWrite,
    info_hash: InfoHash,
    torrent: TorrentModel,
)
    requires
        write.info_hash != info_hash,
        tables.reflect(info_hash, torrent),
    ensures
        tables.stored(write).reflect(info_hash, torrent),
{
    let after = tables.stored(write);
    assert forall|peer_id: PeerId| #[trigger]
        after.peers.contains_key((info_hash, peer_id)) <==> has_peer(torrent.peers, peer_id) by {
        assert(tables.peers.contains_key((info_hash, peer_id)) <==> has_peer(
            torrent.peers,
            peer_id,
        ));
    }
    assert forall|peer_id: PeerId| #[trigger] has_peer(torrent.peers, peer_id) implies
        Tables::row_saves(
        after.peers[(info_hash, peer_id)],
        info_hash,
        torrent.peers[peer_index(torrent.peers, peer_id)],
    ) by {
        assert(tables.peers.contains_key((info_hash, peer_id)));
    }
}

/// Saving the changes in turn brings the tables up to date.
proof fn lemma_all_stored(
    tables: Tables,
    model: TrackerModel,
    changes: Seq<TorrentChange>,
    writes: Seq<TorrentWrite>,
    info_hash: InfoHash,
)
    requires
        writes.len() == changes.len(),
        forall|i: int| 0 <= i < writes.len() ==> (#[trigger] writes[i]).saves(changes[i]),
        forall|i: int|
            0 <= i < changes.len() ==> (#[trigger] changes[i]).describes(
                changes[i].info_hash,
                model.torrent(changes[i].info_hash),
            ),
        distinct_peers(model.torrent(info_hash).peers),
        tables.reflect(info_hash, model.torrent(info_hash)) || exists|i: int|
            0 <= i < changes.len() && (#[trigger] changes[i]).info_hash == info_hash,
    ensures
        tables.all_stored(writes).reflect(info_hash, model.torrent(info_hash)),
    decreases writes.len(),
{
    if writes.len() > 0 {
        let last = writes.len() - 1;
        let before = tables.all_stored(writes.drop_last());
        assert(writes[last].saves(changes[last]));
        if changes[last].info_hash == info_hash {
            lemma_stored_torrent(before, writes[last], changes[last], model.torrent(info_hash));
        } else {
            if !tables.reflect(info_hash, model.torrent(info_hash)) {
                let i = choose|i: int|
                    0 <= i < changes.len() && (#[trigger] changes[i]).info_hash == info_hash;
                assert(changes.drop_last()[i].info_hash == info_hash);
            }
            assert forall|i: int| 0 <= i < last implies (#[trigger] writes.drop_last()[i]).saves(
                changes.drop_last()[i],
            ) by {
                assert(writes[i].saves(changes[i]));
            }
            assert forall|i: int| 0 <= i < last implies (#[trigger]
            changes.drop_last()[i]).describes(
                changes.drop_last()[i].info_hash,
                model.torrent(changes.drop_last()[i].info_hash),
            ) by {
                assert(changes[i].describes(
                    changes[i].info_hash,
                    model.torrent(changes[i].info_hash),
                ));
            }
            lemma_all_stored(tables, model, changes.drop_last(), writes.drop_last(), info_hash);
            lemma_stored_elsewhere(before, writes[last], info_hash, model.torrent(info_hash));
        }
    }
}

/// Writing only the changed torrents brings the tables up to date: where they
/// held every torrent without an unsaved change, they then hold every torrent.
pub proof fn law_saving_changes_saves_everything(
    tables: Tables,
    model: TrackerModel,
    changes: Seq<TorrentChange>,
    writes: Seq<TorrentWrite>,
)
    requires
        has_distinct_peers(model),
        tables.hold_saved(model),
        model.lists_changes(changes),
        all_saved_by(writes, changes),
    ensures
        forall|info_hash: InfoHash|
            tables.all_stored(writes).reflect(info_hash, #[trigger] model.torrent(info_hash)),
{
    let hashes = changes.map_values(|change: TorrentChange| change.info_hash);
    assert forall|info_hash: InfoHash|
        tables.all_stored(writes).reflect(info_hash, #[trigger] model.torrent(info_hash)) by {
        if model.unsaved().contains(info_hash) {
            assert(hashes.to_set().contains(info_hash));
            assert(hashes.contains(info_hash));
            let i = choose|i: int| 0 <= i < hashes.len() && hashes[i] == info_hash;
            assert(changes[i].info_hash == info_hash);
        }
        lemma_all_stored(tables, model, changes, writes, info_hash);
    }
}

/// Torrents that are not written keep their rows.
proof fn lemma_other_rows_stay(tables: Tables, writes: Seq<TorrentWrite>, info_hash: InfoHash)
    requires
        forall|i: int| 0 <= i < writes.len() ==> (#[trigger] writes[i]).info_hash != info_hash,
    ensures
        tables.all_stored(writes).same_rows(tables, info_hash),
    decreases writes.len(),
{
    if writes.len() > 0 {
        let last = writes.len() - 1;
        assert forall|i: int| 0 <= i < last implies (#[trigger] writes.drop_last()[i]).info_hash
            != info_hash by {
            assert(writes[i].info_hash != info_hash);
        }
        lemma_other_rows_stay(tables, writes.drop_last(), info_hash);
        let before = tables.all_stored(writes.drop_last());
        let after = tables.all_stored(writes);
        assert(writes[last].info_hash != info_hash);
        assert forall|peer_id: PeerId| #[trigger]
            after.peers.contains_key((info_hash, peer_id)) <==> tables.peers.contains_key(
                (info_hash, peer_id),
            ) by {
            assert(before.peers.contains_key((info_hash, peer_id)) <==> tables.peers.contains_key(
                (info_hash, peer_id),
            ));
        }
        assert forall|peer_id: PeerId| #[trigger]
            after.peers.contains_key((info_hash, peer_id)) implies after.peers[(info_hash, peer_id)]
            == tables.peers[(info_hash, peer_id)] by {
            assert(before.peers.contains_key((info_hash, peer_id)));
        }
    }
}

/// An attempt to save leaves the rows of every torrent without an unsaved
/// change. Where it is written, the rows of every changed torrent are exactly
/// its current peers and numbers, and none where it is gone.
pub proof fn law_saving_touches_changed_torrents_alone(
    tables: Tables,
    model: TrackerModel,
    changes: Seq<TorrentChange>,
    writes: Seq<TorrentWrite>,
    written: bool,
    info_hash: InfoHash,
)
    requires
        has_distinct_peers(model),
        model.lists_changes(changes),
        all_saved_by(writes, changes),
    ensures
        !model.unsaved().contains(info_hash) ==> tables.attempted(writes, written).same_rows(
            tables,
            info_hash,
        ),
        written && model.unsaved().contains(info_hash) ==> tables.attempted(
            writes,
            written,
        ).reflect(info_hash, model.torrent(info_hash)),
{
    let hashes = changes.map_values(|change: TorrentChange| change.info_hash);
    if model.unsaved().contains(info_hash) {
        assert(hashes.to_set().contains(info_hash));
        assert(hashes.contains(info_hash));
        let i = choose|i: int| 0 <= i < hashes.len() && hashes[i] == info_hash;
        assert(changes[i].info_hash == info_hash);
        assert(distinct_peers(model.torrent(info_hash).peers));
        lemma_all_stored(tables, model, changes, writes, info_hash);
    } else {
        assert forall|i: int| 0 <= i < writes.len() implies (#[trigger] writes[i]).info_hash
            != info_hash by {
            assert(writes[i].saves(changes[i]));
            assert(hashes[i] == changes[i].info_hash);
            assert(hashes.to_set().contains(hashes[i]));
        }
        lemma_other_rows_stay(tables, writes, info_hash);
    }
}

/// A failed attempt to save changes no row and no torrent. Every change stays
/// to be saved: what is listed next describes every listed change again.
pub proof fn law_failed_save_is_tried_again(
    tables: Tables,
    model: TrackerModel,
    changes: Seq<TorrentChange>,
    writes: Seq<TorrentWrite>,
    again: Seq<TorrentChange>,
)
    requires
        model.lists_changes(changes),
        save_finished(model, changes, false).lists_changes(again),
    ensures
        tables.attempted(writes, false) == tables,
        save_finished(model, changes, false) == model,
        again.len() == changes.len(),
        forall|i: int|
            0 <= i < changes.len() ==> exists|j: int|
                0 <= j < again.len() && (#[trigger] again[j]).describes(
                    (#[trigger] changes[i]).info_hash,
                    model.torrent(changes[i].info_hash),
                ),
{
    let hash_of = |change: TorrentChange| change.info_hash;
    let hashes = changes.map_values(hash_of);
    let repeated = again.map_values(hash_of);
    hashes.unique_seq_to_set();
    repeated.unique_seq_to_set();
    assert forall|i: int| 0 <= i < changes.len() implies exists|j: int|
        0 <= j < again.len() && (#[trigger] again[j]).describes(
            (#[trigger] changes[i]).info_hash,
            model.torrent(changes[i].info_hash),
        ) by {
        assert(hashes[i] == changes[i].info_hash);
        assert(hashes.to_set().contains(hashes[i]));
        assert(repeated.to_set().contains(hashes[i]));
        let j = choose|j: int| 0 <= j < repeated.len() && repeated[j] == hashes[i];
        assert(again[j].info_hash == changes[i].info_hash);
    }
}

/// Whether every torrent is as it was, or has an unsaved change that it did not
/// have.
pub open spec fn moved_on(model: TrackerModel, later: TrackerModel) -> bool {
    forall|info_hash: InfoHash|
        (#[trigger] later.torrent(info_hash)) == model.torrent(info_hash) || (later.torrent(
            info_hash,
        ).pending is Some && later.torrent(info_hash).pending != model.torrent(info_hash).pending)
}

/// An attempt to save, written or failed, keeps the tables in step, also where
/// torrents change while it is made: they hold every torrent without an unsaved
/// change. Once it is written, nothing but the later changes is left to be
/// saved.
pub proof fn law_saving_keeps_tables_in_step(
    tables: Tables,
    model: TrackerModel,
    later: TrackerModel,
    changes: Seq<TorrentChange>,
    writes: Seq<TorrentWrite>,
    written: bool,
)
    requires
        has_distinct_peers(model),
        tables.hold_saved(model),
        model.lists_changes(changes),
        all_saved_by(writes, changes),
        moved_on(model, later),
    ensures
        tables.attempted(writes, written).hold_saved(save_finished(later, changes, written)),
        written ==> forall|info_hash: InfoHash| #[trigger]
            save_finished(later, changes, written).unsaved().contains(info_hash)
                <==> later.torrent(info_hash) != model.torrent(info_hash),
{
    let after = save_finished(later, changes, written);
    if written {
        law_saving_changes_saves_everything(tables, model, changes, writes);
        let hashes = changes.map_values(|change: TorrentChange| change.info_hash);
        assert forall|info_hash: InfoHash|
            {
                &&& #[trigger] after.unsaved().contains(info_hash) <==> later.torrent(info_hash)
                    != model.torrent(info_hash)
                &&& !after.unsaved().contains(info_hash) ==> tables.all_stored(writes).reflect(
                    info_hash,
                    after.torrent(info_hash),
                )
            } by {
            lemma_acknowledged(later, changes, info_hash);
            assert(tables.all_stored(writes).reflect(info_hash, model.torrent(info_hash)));
            let before = model.torrent(info_hash);
            if later.torrent(info_hash) == before {
                if before.pending is Some {
                    assert(model.unsaved().contains(info_hash));
                    assert(hashes.to_set().contains(info_hash));
                    let i = choose|i: int| 0 <= i < hashes.len() && hashes[i] == info_hash;
                    assert(changes[i].info_hash == info_hash);
                }
            } else {
                assert forall|i: int|
                    0 <= i < changes.len() && (#[trigger] changes[i]).info_hash
                        == info_hash implies before.pending == Some(changes[i].revision) by {
                    assert(changes[i].describes(info_hash, before));
                }
            }
        }
        assert forall|info_hash: InfoHash| !after.unsaved().contains(
            info_hash,
        ) implies tables.all_stored(writes).reflect(
            info_hash,
            #[trigger] after.torrent(info_hash),
        ) by {
            assert(after.unsaved().contains(info_hash) <==> later.torrent(info_hash)
                != model.torrent(info_hash));
        }
    } else {
        assert forall|info_hash: InfoHash| !later.unsaved().contains(
            info_hash,
        ) implies tables.reflect(info_hash, #[trigger] later.torrent(info_hash)) by {
            assert(later.torrent(info_hash) == model.torrent(info_hash));
            assert(!model.unsaved().contains(info_hash));
        }
    }
}

/// Announces and the forgetting of stale peers while changes are saved give
/// every torrent that they change a new unsaved change.
pub proof fn law_changes_during_a_save_move_on(
    model: TrackerModel,
    later: TrackerModel,
    info_hash: InfoHash,
    peer: Peer,
    event: AnnounceEvent,
    cutoff: u64,
)
    requires
        moved_on(model, later),
        revisions_are_reached(model),
        model.revision <= later.revision < u64::MAX,
    ensures
        moved_on(model, later.announced(info_hash, peer, event)),
        moved_on(model, later.without_stale(cutoff)),
{
    let announced = later.announced(info_hash, peer, event);
    assert forall|other: InfoHash|
        (#[trigger] announced.torrent(other)) == model.torrent(other) || (announced.torrent(
            other,
        ).pending is Some && announced.torrent(other).pending != model.torrent(other).pending) by {
        assert(model.torrent(other).pending matches Some(revision) ==> revision <= model.revision);
        assert(announced.torrent(other) == later.torrent(other) || announced.torrent(other).pending
            == Some((later.revision + 1) as u64));
    }
    let pruned = later.without_stale(cutoff);
    assert forall|other: InfoHash|
        (#[trigger] pruned.torrent(other)) == model.torrent(other) || (pruned.torrent(
            other,
        ).pending is Some && pruned.torrent(other).pending != model.torrent(other).pending) by {
        assert(model.torrent(other).pending matches Some(revision) ==> revision <= model.revision);
        assert(pruned.torrent(other) == later.torrent(other) || pruned.torrent(other).pending
            == Some((later.revision + 1) as u64));
    }
}

/// Announces and the forgetting of stale peers keep the tables in step, and
/// what was to be saved stays to be saved.
pub proof fn law_changes_keep_tables_in_step(
    tables: Tables,
    model: TrackerModel,
    info_hash: InfoHash,
    peer: Peer,
    event: AnnounceEvent,
    cutoff: u64,
)
    requires
        tables.hold_saved(model),
    ensures
        tables.hold_saved(model.announced(info_hash, peer, event)),
        tables.hold_saved(model.without_stale(cutoff)),
        model.unsaved().subset_of(model.announced(info_hash, peer, event).unsaved()),
        model.unsaved().subset_of(model.without_stale(cutoff).unsaved()),
{
    let announced = model.announced(info_hash, peer, event);
    assert forall|other: InfoHash| !announced.unsaved().contains(other) implies tables.reflect(
        other,
        #[trigger] announced.torrent(other),
    ) by {
        assert(announced.torrent(other) == model.torrent(other));
    }
    let pruned = model.without_stale(cutoff);
    assert forall|other: InfoHash| !pruned.unsaved().contains(other) implies tables.reflect(
        other,
        #[trigger] pruned.torrent(other),
    ) by {
        assert(pruned.torrent(other) == model.torrent(other));
    }
}

/// The saved numbers of a torrent are read back as its statistics.
pub proof fn law_saved_statistics_are_read_back(write: TorrentWrite, change: TorrentChange)
    requires
        write.saves(change),
        change.downloaded is Some,
        change.downloaded->Some_0 <= i64::MAX,
        change.peers@.len() <= i64::MAX,
    ensures
        write.swarm is Some,
        positive(write.swarm->Some_0.peers as int) == change.peers@.len(),
        positive(write.swarm->Some_0.seeders as int) == seeders(change.peers@),
        positive(write.swarm->Some_0.leechers as int) == change.peers@.len() - seeders(
            change.peers@,
        ),
        positive(write.swarm->Some_0.downloaded as int) == change.downloaded->Some_0,
{
    lemma_seeders_bound(change.peers@);
}

/// What the saved torrents give back.
proof fn lemma_swarms_loaded(tables: Tables, start: TrackerModel, swarms: Seq<(Seq<u8>, int)>)
    requires
        start.torrents == Map::<InfoHash, TorrentModel>::empty(),
        forall|i: int|
            0 <= i < swarms.len() ==> (#[trigger] swarms[i]).0.len() == 20
                && tables.swarms.contains_key(identifier_at(swarms[i].0, 0))
                && tables.swarms[identifier_at(swarms[i].0, 0)].downloaded == swarms[i].1,
    ensures
        with_swarm_rows(start, swarms).1 is None,
        forall|info_hash: InfoHash|
            (#[trigger] with_swarm_rows(start, swarms).0.torrent(info_hash)) == (TorrentModel {
                peers: Seq::empty(),
                downloaded: if lists_swarm(swarms, info_hash) {
                    Some(positive(tables.swarms[info_hash].downloaded as int) as u64)
                } else {
                    None
                },
                pending: None,
            }),
    decreases swarms.len(),
{
    let after = with_swarm_rows(start, swarms).0;
    if swarms.len() == 0 {
        assert forall|info_hash: InfoHash| !(#[trigger] lists_swarm(swarms, info_hash)) by {}
    } else {
        let head = swarms.drop_last();
        let last = swarms.len() - 1;
        assert forall|i: int| 0 <= i < head.len() implies (#[trigger] head[i]).0.len() == 20
            && tables.swarms.contains_key(identifier_at(head[i].0, 0))
            && tables.swarms[identifier_at(head[i].0, 0)].downloaded == head[i].1 by {
            assert(swarms[i] == head[i]);
        }
        lemma_swarms_loaded(tables, start, head);
        let before = with_swarm_rows(start, head).0;
        assert(swarms[last].0.len() == 20);
        let changed = identifier_at(swarms[last].0, 0);
        assert forall|info_hash: InfoHash| (#[trigger] after.torrent(info_hash)) == (
        TorrentModel {
            peers: Seq::empty(),
            downloaded: if lists_swarm(swarms, info_hash) {
                Some(positive(tables.swarms[info_hash].downloaded as int) as u64)
            } else {
                None
            },
            pending: None,
        }) by {
            let known = before.torrent(info_hash);
            if info_hash == changed {
                assert(lists_swarm(swarms, info_hash));
            } else {
                if lists_swarm(head, info_hash) {
                    let i = choose|i: int|
                        0 <= i < head.len() && identifier_at((#[trigger] head[i]).0, 0)
                            == info_hash;
                    assert(swarms[i] == head[i]);
                }
                if lists_swarm(swarms, info_hash) {
                    let i = choose|i: int|
                        0 <= i < swarms.len() && identifier_at((#[trigger] swarms[i]).0, 0)
                            == info_hash;
                    assert(head[i] == swarms[i]);
                }
            }
        }
    }
}

/// Whether a peer is restored from a row of a torrent.
pub open spec fn is_restored(peers: Seq<PeerRowModel>, info_hash: InfoHash, peer: Peer) -> bool {
    exists|i: int|
        0 <= i < peers.len() && row_key(#[trigger] peers[i]).0 == info_hash && restored_peer(
            peers[i],
        ) == Ok::<_, PersistenceFault>(peer)
}

/// One more row restores one more peer.
proof fn lemma_restored_rows(peers: Seq<PeerRowModel>, info_hash: InfoHash, peer: Peer)
    requires
        peers.len() > 0,
    ensures
        is_restored(peers, info_hash, peer) <==> is_restored(peers.drop_last(), info_hash, peer)
            || (row_key(peers.last()).0 == info_hash && restored_peer(peers.last()) == Ok::<
            _,
            PersistenceFault,
        >(peer)),
{
    let head = peers.drop_last();
    let last = peers.len() - 1;
    if is_restored(head, info_hash, peer) {
        let i = choose|i: int|
            0 <= i < head.len() && row_key(#[trigger] head[i]).0 == info_hash && restored_peer(
                head[i],
            ) == Ok::<_, PersistenceFault>(peer);
        assert(peers[i] == head[i]);
    }
    if row_key(peers.last()).0 == info_hash && restored_peer(peers.last()) == Ok::<
        _,
        PersistenceFault,
    >(peer) {
        assert(row_key(peers[last]).0 == info_hash);
    }
    if is_restored(peers, info_hash, peer) {
        let i = choose|i: int|
            0 <= i < peers.len() && row_key(#[trigger] peers[i]).0 == info_hash && restored_peer(
                peers[i],
            ) == Ok::<_, PersistenceFault>(peer);
        if i < last {
            assert(head[i] == peers[i]);
        }
    }
}

/// A restored peer of a torrent comes from the one row under its key.
proof fn lemma_restored_once(
    tables: Tables,
    peers: Seq<PeerRowModel>,
    info_hash: InfoHash,
    peer: Peer,
    row: PeerRowModel,
)
    requires
        forall|i: int|
            0 <= i < peers.len() ==> tables.peers[row_key(#[trigger] peers[i])] == peers[i],
        tables.peers[row_key(row)] == row,
        is_restored(peers, info_hash, peer),
        row_key(row) == (info_hash, peer.peer_id),
    ensures
        restored_peer(row) == Ok::<_, PersistenceFault>(peer),
{
    let i = choose|i: int|
        0 <= i < peers.len() && row_key(#[trigger] peers[i]).0 == info_hash && restored_peer(
            peers[i],
        ) == Ok::<_, PersistenceFault>(peer);
    assert(row_key(peers[i]) == row_key(row));
}

/// Restoring a peer touches its torrent alone.
proof fn lemma_restored_torrent(before: TrackerModel, changed: InfoHash, peer: Peer)
    ensures
        forall|info_hash: InfoHash| #[trigger]
            before.restored(changed, peer).torrent(info_hash) == if info_hash == changed {
                TorrentModel {
                    peers: with_peer(before.torrent(changed).peers, peer),
                    ..before.torrent(changed)
                }
            } else {
                before.torrent(info_hash)
            },
{
    lemma_peer_index(before.torrent(changed).peers, peer.peer_id);
    assert(with_peer(before.torrent(changed).peers, peer).len() > 0);
}

/// What the saved peers give back.
proof fn lemma_peers_loaded(tables: Tables, start: TrackerModel, peers: Seq<PeerRowModel>)
    requires
        forall|info_hash: InfoHash| (#[trigger] start.torrent(info_hash)).peers.len() == 0,
        forall|i: int|
            0 <= i < peers.len() ==> (#[trigger] peers[i]).info_hash.len() == 20
                && peers[i].peer_id.len() == 20 && restored_peer(peers[i]) is Ok
                && tables.peers.contains_key(row_key(peers[i]))
                && tables.peers[row_key(peers[i])] == peers[i],
    ensures
        with_peer_rows(start, peers).1 is None,
        forall|info_hash: InfoHash|
            (#[trigger] with_peer_rows(start, peers).0.torrent(info_hash)).downloaded
                == start.torrent(info_hash).downloaded,
        forall|info_hash: InfoHash|
            (#[trigger] with_peer_rows(start, peers).0.torrent(info_hash)).pending
                == start.torrent(info_hash).pending,
        forall|info_hash: InfoHash|
            distinct_peers((#[trigger] with_peer_rows(start, peers).0.torrent(info_hash)).peers),
        forall|info_hash: InfoHash, peer: Peer| #[trigger]
            with_peer_rows(start, peers).0.torrent(info_hash).peers.contains(peer) <==> is_restored(
                peers,
                info_hash,
                peer,
            ),
    decreases peers.len(),
{
    let after = with_peer_rows(start, peers).0;
    if peers.len() > 0 {
        let head = peers.drop_last();
        let last = peers.len() - 1;
        assert forall|i: int| 0 <= i < head.len() implies (#[trigger] head[i]).info_hash.len() == 20
            && head[i].peer_id.len() == 20 && restored_peer(head[i]) is Ok
            && tables.peers.contains_key(row_key(head[i])) && tables.peers[row_key(head[i])]
            == head[i] by {
            assert(peers[i] == head[i]);
        }
        lemma_peers_loaded(tables, start, head);
        let before = with_peer_rows(start, head).0;
        let row = peers[last];
        assert(restored_peer(row) is Ok);
        let entered = restored_peer(row)->Ok_0;
        let changed = row_key(row).0;
        assert(after == before.restored(changed, entered));
        lemma_restored_torrent(before, changed, entered);
        lemma_with_peer(before.torrent(changed).peers, entered);
        assert(row_key(row) == (changed, entered.peer_id));
        assert forall|i: int| 0 <= i < head.len() implies tables.peers[row_key(
            #[trigger] head[i],
        )] == head[i] by {
            assert(peers[i] == head[i]);
        }
        assert forall|info_hash: InfoHash, peer: Peer| #[trigger]
            after.torrent(info_hash).peers.contains(peer) <==> is_restored(
                peers,
                info_hash,
                peer,
            ) by {
            assert(before.torrent(info_hash).peers.contains(peer) <==> is_restored(
                head,
                info_hash,
                peer,
            ));
            lemma_restored_rows(peers, info_hash, peer);
            if info_hash == changed && is_restored(head, info_hash, peer) && peer.peer_id
                == entered.peer_id {
                lemma_restored_once(tables, head, info_hash, peer, row);
            }
        }
    } else {
        assert forall|info_hash: InfoHash, peer: Peer| #[trigger]
            after.torrent(info_hash).peers.contains(peer) <==> is_restored(
                peers,
                info_hash,
                peer,
            ) by {
            assert(start.torrent(info_hash).peers.len() == 0);
        }
    }
}

/// A torrent that the tables hold is the one that a row stands for.
proof fn lemma_listed_rows(
    tables: Tables,
    model: TrackerModel,
    swarms: Seq<(Seq<u8>, int)>,
    peers: Seq<PeerRowModel>,
    i: int,
)
    requires
        forall|info_hash: InfoHash| fits_database(#[trigger] model.torrent(info_hash)),
        forall|info_hash: InfoHash|
            tables.reflect(info_hash, #[trigger] model.torrent(info_hash)),
        tables.are_listed(swarms, peers),
        0 <= i < peers.len(),
    ensures
        has_peer(model.torrent(row_key(peers[i]).0).peers, row_key(peers[i]).1),
        restored_peer(peers[i]) == Ok::<_, PersistenceFault>(
            model.torrent(row_key(peers[i]).0).peers[peer_index(
                model.torrent(row_key(peers[i]).0).peers,
                row_key(peers[i]).1,
            )],
        ),
{
    let (info_hash, peer_id) = row_key(peers[i]);
    let torrent = model.torrent(info_hash);
    assert(tables.peers.contains_key((info_hash, peer_id)));
    assert(tables.reflect(info_hash, torrent));
    assert(has_peer(torrent.peers, peer_id));
    let index = peer_index(torrent.peers, peer_id);
    lemma_peer_index(torrent.peers, peer_id);
    assert(torrent.peers[index].left <= i64::MAX);
    law_saved_peer_is_restored(peers[i], info_hash, torrent.peers[index]);
}

/// A restart gives back what was saved: where the tables hold every torrent,
/// reading their rows in any order into an empty tracker gives every torrent
/// its download count and its peers again, and leaves nothing to be saved.
pub proof fn law_restart_gives_torrents_back(
    tables: Tables,
    model: TrackerModel,
    start: TrackerModel,
    swarms: Seq<(Seq<u8>, int)>,
    peers: Seq<PeerRowModel>,
)
    requires
        forall|info_hash: InfoHash| fits_database(#[trigger] model.torrent(info_hash)),
        forall|info_hash: InfoHash|
            tables.reflect(info_hash, #[trigger] model.torrent(info_hash)),
        tables.are_listed(swarms, peers),
        start.torrents == Map::<InfoHash, TorrentModel>::empty(),
    ensures
        loaded(start, swarms, peers).1 is None,
        forall|info_hash: InfoHash|
            (#[trigger] loaded(start, swarms, peers).0.torrent(info_hash)).downloaded
                == if model.torrent(info_hash).is_known() {
                Some(model.torrent(info_hash).times_downloaded())
            } else {
                None
            },
        forall|info_hash: InfoHash|
            (#[trigger] loaded(start, swarms, peers).0.torrent(info_hash)).pending is None,
        forall|info_hash: InfoHash|
            same_swarm(
                (#[trigger] loaded(start, swarms, peers).0.torrent(info_hash)).peers,
                model.torrent(info_hash).peers,
            ),
{
    lemma_swarms_loaded(tables, start, swarms);
    let between = with_swarm_rows(start, swarms).0;
    assert forall|i: int| 0 <= i < peers.len() implies (#[trigger] peers[i]).info_hash.len() == 20
        && peers[i].peer_id.len() == 20 && restored_peer(peers[i]) is Ok
        && tables.peers.contains_key(row_key(peers[i])) && tables.peers[row_key(peers[i])]
        == peers[i] by {
        lemma_listed_rows(tables, model, swarms, peers, i);
    }
    lemma_peers_loaded(tables, between, peers);
    let after = loaded(start, swarms, peers).0;
    assert(after == with_peer_rows(between, peers).0);
    assert forall|info_hash: InfoHash| (#[trigger] after.torrent(info_hash)).downloaded
        == if model.torrent(info_hash).is_known() {
        Some(model.torrent(info_hash).times_downloaded())
    } else {
        None
    } by {
        let torrent = model.torrent(info_hash);
        assert(fits_database(torrent));
        assert(tables.reflect(info_hash, torrent));
        assert(between.torrent(info_hash).downloaded == after.torrent(info_hash).downloaded);
        if lists_swarm(swarms, info_hash) {
            let i = choose|i: int|
                0 <= i < swarms.len() && identifier_at((#[trigger] swarms[i]).0, 0) == info_hash;
            assert(tables.swarms.contains_key(info_hash));
        }
    }
    assert forall|info_hash: InfoHash|
        same_swarm(
            (#[trigger] after.torrent(info_hash)).peers,
            model.torrent(info_hash).peers,
        ) by {
        let torrent = model.torrent(info_hash);
        assert(fits_database(torrent));
        assert(tables.reflect(info_hash, torrent));
        assert forall|peer: Peer|
            after.torrent(info_hash).peers.contains(peer) <==> #[trigger] torrent.peers.contains(
                peer,
            ) by {
            assert(after.torrent(info_hash).peers.contains(peer) <==> is_restored(
                peers,
                info_hash,
                peer,
            ));
            if is_restored(peers, info_hash, peer) {
                let i = choose|i: int|
                    0 <= i < peers.len() && row_key(#[trigger] peers[i]).0 == info_hash
                        && restored_peer(peers[i]) == Ok::<_, PersistenceFault>(
                        peer,
                    );
                lemma_listed_rows(tables, model, swarms, peers, i);
                lemma_peer_index(torrent.peers, row_key(peers[i]).1);
            }
            if torrent.peers.contains(peer) {
                let index = choose|j: int| 0 <= j < torrent.peers.len() && torrent.peers[j] == peer;
                assert forall|j: int| 0 <= j < index implies #[trigger] torrent.peers[j].peer_id
                    != peer.peer_id by {
                    assert(torrent.peers[j].peer_id != torrent.peers[index].peer_id);
                }
                lemma_peer_index_is(torrent.peers, peer.peer_id, index);
                assert(has_peer(torrent.peers, peer.peer_id));
                assert(tables.peers.contains_key((info_hash, peer.peer_id)));
                assert(lists_peer(peers, (info_hash, peer.peer_id)));
                let i = choose|i: int|
                    0 <= i < peers.len() && row_key(#[trigger] peers[i]) == (
                        info_hash,
                        peer.peer_id,
                    );
                lemma_listed_rows(tables, model, swarms, peers, i);
                assert(is_restored(peers, info_hash, peer));
            }
        }
    }
}

} // verus!
