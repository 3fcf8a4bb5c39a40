use hive_tracker::address::{parse_ip, IpAddress};
use hive_tracker::clock::seconds_of;
use hive_tracker::order::sort_hashes;
use hive_tracker::state::{
    unix_timestamp, AnnounceEvent, Peer, SwarmStats, TrackerState, TrackerSummary,
};

fn peer(peer_id: u8, left: u64) -> Peer {
    Peer {
        peer_id: [peer_id; 20],
        ip: parse_ip(b"127.0.0.1").expect("test address must parse"),
        port: 6881,
        left,
        last_seen: unix_timestamp(),
    }
}

#[test]
fn given_peer_lifecycle_when_announced_then_swarm_counts_are_consistent() {
    let mut state = TrackerState::default();
    let info_hash = [7; 20];

    state.announce(info_hash, peer(1, 100), AnnounceEvent::Started);
    state.announce(info_hash, peer(1, 0), AnnounceEvent::Completed);
    state.announce(info_hash, peer(2, 50), AnnounceEvent::Started);
    let active = state.stats(&info_hash);
    state.announce(info_hash, peer(2, 50), AnnounceEvent::Stopped);

    assert_eq!(
        active,
        SwarmStats {
            complete: 1,
            incomplete: 1,
            downloaded: 1
        }
    );
    assert_eq!(state.peer_count(), 1);

    state.announce(info_hash, peer(1, 0), AnnounceEvent::Stopped);

    assert_eq!(state.peer_count(), 0);
    assert_eq!(state.swarm_count(), 0);
    assert_eq!(state.info_hashes(), vec![info_hash]);
    assert_eq!(state.torrent_count(), 1);
    assert_eq!(state.stats(&info_hash).downloaded, 1);
}

#[test]
fn given_incomplete_torrent_when_last_peer_stops_then_torrent_is_removed() {
    let mut state = TrackerState::default();
    let info_hash = [8; 20];

    state.announce(info_hash, peer(1, 100), AnnounceEvent::Started);
    state.announce(info_hash, peer(1, 100), AnnounceEvent::Stopped);

    assert_eq!(state.peer_count(), 0);
    assert_eq!(state.swarm_count(), 0);
    assert_eq!(state.torrent_count(), 0);
}

#[test]
fn given_stale_torrent_when_cleaned_up_then_torrent_is_removed() {
    let mut state = TrackerState::default();
    let info_hash = [9; 20];
    let mut stale_peer = peer(1, 100);
    stale_peer.last_seen = 0;

    state.announce(info_hash, stale_peer, AnnounceEvent::Started);
    state.remove_stale(1);

    assert_eq!(state.peer_count(), 0);
    assert_eq!(state.swarm_count(), 0);
    assert_eq!(state.torrent_count(), 0);
}

#[test]
fn given_repeated_completed_event_when_announced_then_download_is_counted_once() {
    let mut state = TrackerState::default();
    let info_hash = [10; 20];

    state.announce(info_hash, peer(1, 100), AnnounceEvent::Started);
    state.announce(info_hash, peer(1, 0), AnnounceEvent::Completed);
    state.announce(info_hash, peer(1, 0), AnnounceEvent::Completed);

    assert_eq!(state.stats(&info_hash).downloaded, 1);
}

#[test]
fn given_completed_torrent_when_peers_expire_then_download_history_is_retained() {
    let mut state = TrackerState::default();
    let info_hash = [11; 20];
    let mut stale_peer = peer(1, 0);
    stale_peer.last_seen = 0;

    state.announce(info_hash, stale_peer, AnnounceEvent::Completed);
    state.remove_stale(1);

    assert_eq!(state.peer_count(), 0);
    assert_eq!(state.stats(&info_hash).downloaded, 1);
    assert_eq!(state.torrent_count(), 1);
}

#[test]
fn the_clock_is_past_the_epoch() {
    assert!(unix_timestamp() > 1_600_000_000);
    assert_eq!(seconds_of(Some(1_700_000_000)), 1_700_000_000);
    assert_eq!(seconds_of(None), 0);
}

#[test]
fn peers_leave_out_the_asking_one_and_keep_the_limit() {
    let mut state = TrackerState::default();
    let info_hash = [1; 20];
    for id in 1..=5 {
        state.announce(info_hash, peer(id, 10), AnnounceEvent::Started);
    }
    let listed = state.peers(&info_hash, &[2; 20], 3);
    assert_eq!(listed.len(), 3);
    assert!(listed.iter().all(|peer| peer.peer_id != [2; 20]));
    assert_eq!(state.peers(&info_hash, &[2; 20], 50).len(), 4);
    assert!(state.peers(&[2; 20], &[2; 20], 50).is_empty());
}

#[test]
fn only_peers_seen_before_the_cutoff_are_removed() {
    let mut state = TrackerState::default();
    for (id, last_seen) in [(1, 99), (2, 100), (3, 101)] {
        let mut seen = peer(id, 10);
        seen.last_seen = last_seen;
        state.announce([1; 20], seen, AnnounceEvent::Started);
    }
    state.remove_stale_before(100);
    let mut left: Vec<u8> = state
        .peers(&[1; 20], &[0; 20], 10)
        .iter()
        .map(|peer| peer.peer_id[0])
        .collect();
    left.sort_unstable();
    assert_eq!(left, vec![2, 3]);
    let revision = state.revision();
    state.remove_stale_before(100);
    assert_eq!(state.revision(), revision);
}

#[test]
fn totals_follow_every_change() {
    let mut state = TrackerState::default();
    state.announce([1; 20], peer(1, 0), AnnounceEvent::Completed);
    state.announce([1; 20], peer(2, 5), AnnounceEvent::Started);
    state.announce([2; 20], peer(3, 5), AnnounceEvent::Update);
    state.set_downloaded([3; 20], 7);
    assert_eq!(
        state.summary(),
        TrackerSummary {
            peers: 3,
            seeders: 1,
            leechers: 2,
            torrents: 3,
            completed: 8,
        }
    );
    assert_eq!(state.swarm_count(), 2);
    state.announce([2; 20], peer(3, 5), AnnounceEvent::Stopped);
    assert_eq!(state.summary().torrents, 2);
    assert_eq!(state.swarm_count(), 1);
    let mut snapshot = state.snapshot();
    snapshot.sort_by_key(|entry| entry.0);
    assert_eq!(snapshot.len(), 2);
    assert_eq!(snapshot[0].0, [1; 20]);
    assert_eq!(snapshot[0].1.len(), 2);
    assert_eq!(snapshot[1], ([3; 20], Vec::new(), 7));
}

#[test]
fn changes_stay_unsaved_until_they_are_acknowledged() {
    let mut state = TrackerState::default();
    state.announce([1; 20], peer(1, 5), AnnounceEvent::Started);
    let first = state.drain_changes();
    assert_eq!(first.len(), 1);
    assert_eq!(first[0].info_hash, [1; 20]);
    assert_eq!(first[0].downloaded, Some(0));
    assert_eq!(first[0].peers.len(), 1);
    assert_eq!(state.drain_changes().len(), 1);

    state.announce([1; 20], peer(2, 5), AnnounceEvent::Started);
    state.acknowledge_changes(&first);
    let second = state.drain_changes();
    assert_eq!(second.len(), 1);
    assert_eq!(second[0].peers.len(), 2);
    state.acknowledge_changes(&second);
    assert!(state.drain_changes().is_empty());

    state.announce([1; 20], peer(1, 5), AnnounceEvent::Stopped);
    state.announce([1; 20], peer(2, 5), AnnounceEvent::Stopped);
    let gone = state.drain_changes();
    assert_eq!(gone.len(), 1);
    assert_eq!(gone[0].downloaded, None);
    state.acknowledge_changes(&gone);
    assert_eq!(state.torrent_count(), 0);
}

#[test]
fn an_unknown_peer_that_stops_changes_nothing() {
    let mut state = TrackerState::default();
    state.announce([1; 20], peer(1, 5), AnnounceEvent::Stopped);
    assert_eq!(state.revision(), 0);
    assert_eq!(state.torrent_count(), 0);
    assert!(state.drain_changes().is_empty());
}

#[test]
fn stopping_undoes_starting() {
    let mut state = TrackerState::default();
    state.announce([1; 20], peer(1, 5), AnnounceEvent::Started);
    let before = state.peers(&[1; 20], &[0; 20], 10);
    state.announce([1; 20], peer(2, 5), AnnounceEvent::Started);
    state.announce([1; 20], peer(2, 5), AnnounceEvent::Stopped);
    assert_eq!(state.peers(&[1; 20], &[0; 20], 10), before);
    assert_eq!(state.stats(&[1; 20]).incomplete, 1);
}

#[test]
fn download_counts_do_not_overflow() {
    let mut state = TrackerState::default();
    state.set_downloaded([1; 20], u64::MAX);
    state.announce([1; 20], peer(1, 0), AnnounceEvent::Completed);
    assert_eq!(state.stats(&[1; 20]).downloaded, u64::MAX);
}

#[test]
fn a_peer_that_moves_is_listed_at_its_new_address() {
    let mut state = TrackerState::default();
    state.announce([1; 20], peer(1, 5), AnnounceEvent::Started);
    let mut moved = peer(1, 5);
    moved.ip = IpAddress::V4([10, 0, 0, 1]);
    state.announce([1; 20], moved, AnnounceEvent::Update);
    assert_eq!(state.peers(&[1; 20], &[0; 20], 10), vec![moved]);
}

#[test]
fn hashes_are_sorted() {
    assert_eq!(
        sort_hashes(&vec![[3; 20], [1; 20], [2; 20], [1; 20]]),
        vec![[1; 20], [1; 20], [2; 20], [3; 20]]
    );
}

#[test]
fn a_list_holds_as_many_peers_as_there_are_up_to_the_limit() {
    let mut state = TrackerState::default();
    for id in 1..=5 {
        state.announce([9; 20], peer(id, 10), AnnounceEvent::Started);
    }
    for (exclude, limit, count) in [(3, 10, 4), (3, 4, 4), (3, 2, 2), (7, 10, 5), (7, 0, 0)] {
        let listed = state.peers(&[9; 20], &[exclude; 20], limit);
        let mut ids: Vec<_> = listed.iter().map(|peer| peer.peer_id).collect();
        ids.sort();
        ids.dedup();
        assert_eq!(ids.len(), count);
        assert_eq!(listed.len(), count);
    }
}
